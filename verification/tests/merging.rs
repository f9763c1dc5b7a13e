use partial_link::merge::{fits, merge_sections, Layout, OutputSection, Placement};
use partial_link::model::{InputObject, Section, SectionKind};

fn section(name: &str, kind: SectionKind, align: u64, data: Vec<u8>) -> Section {
    Section {
        name: name.to_string(),
        kind,
        align,
        size: data.len() as u64,
        data,
        relocations: vec![],
    }
}

fn bss(name: &str, align: u64, size: u64) -> Section {
    Section {
        name: name.to_string(),
        kind: SectionKind::Uninitialized,
        align,
        size,
        data: vec![],
        relocations: vec![],
    }
}

fn object(name: &str, sections: Vec<Section>) -> InputObject {
    InputObject { name: name.to_string(), sections, symbols: vec![] }
}

/// Reads the output sections of a layout as the sections of one object.
fn as_object(name: &str, layout: &Layout) -> InputObject {
    let sections = layout
        .sections
        .iter()
        .map(|out| Section {
            name: out.name.clone(),
            kind: out.kind,
            align: out.align,
            size: out.size,
            data: out.data.clone(),
            relocations: vec![],
        })
        .collect();
    object(name, sections)
}

#[test]
fn no_inputs_give_no_sections() {
    let layout = merge_sections(&vec![]);
    assert_eq!(layout.sections, vec![]);
    assert_eq!(layout.placements, Vec::<Vec<Placement>>::new());
}

#[test]
fn an_object_without_sections_still_has_a_row() {
    let layout = merge_sections(&vec![object("a.o", vec![])]);
    assert_eq!(layout.sections, vec![]);
    assert_eq!(layout.placements, vec![vec![]]);
}

#[test]
fn sections_of_one_name_and_kind_are_laid_end_to_end() {
    let a = object("a.o", vec![section(".text", SectionKind::Code, 1, vec![1, 2, 3])]);
    let b = object("b.o", vec![section(".text", SectionKind::Code, 1, vec![4, 5])]);
    let layout = merge_sections(&vec![a, b]);
    assert_eq!(
        layout.sections,
        vec![OutputSection {
            name: ".text".to_string(),
            kind: SectionKind::Code,
            align: 1,
            size: 5,
            data: vec![1, 2, 3, 4, 5],
        }]
    );
    assert_eq!(
        layout.placements,
        vec![vec![Placement { output: 0, offset: 0 }], vec![Placement { output: 0, offset: 3 }]]
    );
}

#[test]
fn a_section_starts_at_a_multiple_of_its_alignment() {
    let a = object("a.o", vec![section(".data", SectionKind::Data, 1, vec![0xaa; 3])]);
    let b = object("b.o", vec![section(".data", SectionKind::Data, 4, vec![0xbb; 4])]);
    let c = object("c.o", vec![section(".data", SectionKind::Data, 8, vec![0xcc; 1])]);
    let layout = merge_sections(&vec![a, b, c]);
    assert_eq!(
        layout.sections,
        vec![OutputSection {
            name: ".data".to_string(),
            kind: SectionKind::Data,
            align: 8,
            size: 9,
            data: vec![0xaa, 0xaa, 0xaa, 0, 0xbb, 0xbb, 0xbb, 0xbb, 0xcc],
        }]
    );
    assert_eq!(
        layout.placements,
        vec![
            vec![Placement { output: 0, offset: 0 }],
            vec![Placement { output: 0, offset: 4 }],
            vec![Placement { output: 0, offset: 8 }],
        ]
    );
}

#[test]
fn the_output_alignment_is_the_greatest_input_alignment() {
    let a = object("a.o", vec![section(".rodata", SectionKind::ReadOnlyData, 16, vec![1])]);
    let b = object("b.o", vec![section(".rodata", SectionKind::ReadOnlyData, 2, vec![2])]);
    let layout = merge_sections(&vec![a, b]);
    assert_eq!(layout.sections[0].align, 16);
    assert_eq!(layout.sections[0].size, 3);
    assert_eq!(layout.sections[0].data, vec![1, 0, 2]);
}

#[test]
fn one_name_with_two_kinds_gives_two_sections() {
    let a = object("a.o", vec![section(".sec", SectionKind::Code, 1, vec![1])]);
    let b = object("b.o", vec![section(".sec", SectionKind::Data, 1, vec![2])]);
    let c = object("c.o", vec![section(".sec", SectionKind::Code, 1, vec![3])]);
    let layout = merge_sections(&vec![a, b, c]);
    assert_eq!(layout.sections.len(), 2);
    assert_eq!(layout.sections[0].kind, SectionKind::Code);
    assert_eq!(layout.sections[0].data, vec![1, 3]);
    assert_eq!(layout.sections[1].kind, SectionKind::Data);
    assert_eq!(layout.sections[1].data, vec![2]);
    assert_eq!(
        layout.placements,
        vec![
            vec![Placement { output: 0, offset: 0 }],
            vec![Placement { output: 1, offset: 0 }],
            vec![Placement { output: 0, offset: 1 }],
        ]
    );
}

#[test]
fn output_sections_come_in_order_of_first_occurrence() {
    let a = object(
        "a.o",
        vec![
            section(".text", SectionKind::Code, 1, vec![1]),
            section(".data", SectionKind::Data, 1, vec![2]),
        ],
    );
    let b = object(
        "b.o",
        vec![
            section(".rodata", SectionKind::ReadOnlyData, 1, vec![3]),
            section(".data", SectionKind::Data, 1, vec![4]),
            section(".text", SectionKind::Code, 1, vec![5]),
        ],
    );
    let layout = merge_sections(&vec![a, b]);
    let names: Vec<&str> = layout.sections.iter().map(|s| s.name.as_str()).collect();
    assert_eq!(names, vec![".text", ".data", ".rodata"]);
    assert_eq!(
        layout.placements[1],
        vec![
            Placement { output: 2, offset: 0 },
            Placement { output: 1, offset: 1 },
            Placement { output: 0, offset: 1 },
        ]
    );
}

#[test]
fn two_sections_of_one_object_may_merge() {
    let a = object(
        "a.o",
        vec![
            section(".text", SectionKind::Code, 1, vec![1, 2]),
            section(".text", SectionKind::Code, 1, vec![3]),
        ],
    );
    let layout = merge_sections(&vec![a]);
    assert_eq!(layout.sections.len(), 1);
    assert_eq!(layout.sections[0].data, vec![1, 2, 3]);
    assert_eq!(
        layout.placements,
        vec![vec![Placement { output: 0, offset: 0 }, Placement { output: 0, offset: 2 }]]
    );
}

#[test]
fn an_empty_section_is_placed_too() {
    let a = object("a.o", vec![section(".text", SectionKind::Code, 1, vec![7; 5])]);
    let b = object("b.o", vec![section(".text", SectionKind::Code, 4, vec![])]);
    let c = object("c.o", vec![section(".text", SectionKind::Code, 1, vec![9])]);
    let layout = merge_sections(&vec![a, b, c]);
    assert_eq!(
        layout.placements,
        vec![
            vec![Placement { output: 0, offset: 0 }],
            vec![Placement { output: 0, offset: 8 }],
            vec![Placement { output: 0, offset: 8 }],
        ]
    );
    assert_eq!(layout.sections[0].size, 9);
    assert_eq!(layout.sections[0].data, vec![7, 7, 7, 7, 7, 0, 0, 0, 9]);
}

#[test]
fn an_object_with_only_an_empty_section_makes_an_empty_output_section() {
    let a = object("a.o", vec![section(".init", SectionKind::Code, 4, vec![])]);
    let layout = merge_sections(&vec![a]);
    assert_eq!(
        layout.sections,
        vec![OutputSection {
            name: ".init".to_string(),
            kind: SectionKind::Code,
            align: 4,
            size: 0,
            data: vec![],
        }]
    );
    assert_eq!(layout.placements, vec![vec![Placement { output: 0, offset: 0 }]]);
}

#[test]
fn uninitialized_sections_have_a_size_and_no_bytes() {
    let a = object("a.o", vec![bss(".bss", 4, 10)]);
    let b = object("b.o", vec![bss(".bss", 8, 3)]);
    let layout = merge_sections(&vec![a, b]);
    assert_eq!(
        layout.sections,
        vec![OutputSection {
            name: ".bss".to_string(),
            kind: SectionKind::Uninitialized,
            align: 8,
            size: 19,
            data: vec![],
        }]
    );
    assert_eq!(
        layout.placements,
        vec![vec![Placement { output: 0, offset: 0 }], vec![Placement { output: 0, offset: 16 }]]
    );
}

#[test]
fn the_order_of_the_inputs_shows_in_the_bytes() {
    let a = || object("a.o", vec![section(".text", SectionKind::Code, 1, vec![1, 1])]);
    let b = || object("b.o", vec![section(".text", SectionKind::Code, 1, vec![2])]);
    let ab = merge_sections(&vec![a(), b()]);
    let ba = merge_sections(&vec![b(), a()]);
    assert_eq!(ab.sections[0].data, vec![1, 1, 2]);
    assert_eq!(ba.sections[0].data, vec![2, 1, 1]);
    assert_eq!(ab.placements[1][0].offset, 2);
    assert_eq!(ba.placements[1][0].offset, 1);
}

#[test]
fn merging_goes_on_from_a_merged_object_with_equal_alignments() {
    let a = || object("a.o", vec![section(".text", SectionKind::Code, 4, vec![1; 5])]);
    let b = || object("b.o", vec![section(".text", SectionKind::Code, 4, vec![2; 3])]);
    let c = || object("c.o", vec![section(".text", SectionKind::Code, 4, vec![3; 2])]);
    let ab = as_object("ab.o", &merge_sections(&vec![a(), b()]));
    let in_steps = merge_sections(&vec![ab, c()]);
    let at_once = merge_sections(&vec![a(), b(), c()]);
    assert_eq!(in_steps.sections, at_once.sections);
    assert_eq!(at_once.sections[0].size, 14);
    assert_eq!(at_once.sections[0].data, vec![1, 1, 1, 1, 1, 0, 0, 0, 2, 2, 2, 0, 3, 3]);
}

#[test]
fn merging_goes_on_from_a_merged_object_with_different_alignments() {
    let a = || {
        object(
            "a.o",
            vec![
                section(".text", SectionKind::Code, 1, vec![1; 3]),
                section(".data", SectionKind::Data, 2, vec![4; 1]),
                bss(".bss", 1, 5),
            ],
        )
    };
    let b = || {
        object(
            "b.o",
            vec![
                section(".data", SectionKind::Data, 8, vec![5; 2]),
                section(".text", SectionKind::Code, 16, vec![2; 1]),
            ],
        )
    };
    let c = || {
        object(
            "c.o",
            vec![
                bss(".bss", 32, 1),
                section(".text", SectionKind::Code, 2, vec![3; 1]),
                section(".rodata", SectionKind::ReadOnlyData, 4, vec![6; 4]),
            ],
        )
    };
    let ab = as_object("ab.o", &merge_sections(&vec![a(), b()]));
    let in_steps = merge_sections(&vec![ab, c()]);
    let at_once = merge_sections(&vec![a(), b(), c()]);
    assert_eq!(in_steps.sections, at_once.sections);
    assert_eq!(at_once.sections[0].size, 19);
    assert_eq!(at_once.sections[2].size, 33);
}

#[test]
fn the_size_is_the_sum_of_the_aligned_contributions() {
    let sizes_and_aligns: Vec<(usize, u64)> = vec![(5, 1), (3, 4), (0, 8), (7, 2), (1, 16)];
    let inputs: Vec<InputObject> = sizes_and_aligns
        .iter()
        .enumerate()
        .map(|(i, &(size, align))| {
            object(
                &format!("{}.o", i),
                vec![section(".data", SectionKind::Data, align, vec![i as u8; size])],
            )
        })
        .collect();
    let layout = merge_sections(&inputs);
    let mut end: u64 = 0;
    let mut sum: u64 = 0;
    for (i, &(size, align)) in sizes_and_aligns.iter().enumerate() {
        let offset = layout.placements[i][0].offset;
        assert_eq!(offset % align, 0);
        assert!(offset >= end);
        assert!(offset - end < align);
        sum += offset - end + size as u64;
        end = offset + size as u64;
    }
    assert_eq!(layout.sections[0].size, sum);
    assert_eq!(layout.sections[0].size, 33);
    assert_eq!(layout.sections[0].data.len(), 33);
}

#[test]
fn sections_that_fill_the_address_space_fit() {
    let a = object("a.o", vec![bss(".bss", 1, u64::MAX - 1)]);
    let b = object("b.o", vec![bss(".bss", 1, 1)]);
    let inputs = vec![a, b];
    assert!(fits(&inputs));
    let layout = merge_sections(&inputs);
    assert_eq!(layout.sections[0].size, u64::MAX);
    assert_eq!(layout.placements[1][0].offset, u64::MAX - 1);
}

#[test]
fn sections_that_outgrow_the_address_space_do_not_fit() {
    let a = object("a.o", vec![bss(".bss", 1, u64::MAX)]);
    let b = object("b.o", vec![bss(".bss", 1, 1)]);
    assert!(!fits(&vec![a, b]));
}

#[test]
fn padding_that_outgrows_the_address_space_does_not_fit() {
    let a = object("a.o", vec![bss(".bss", 1, u64::MAX - 2)]);
    let b = object("b.o", vec![bss(".bss", 8, 0)]);
    assert!(!fits(&vec![a, b]));
}

#[test]
fn sections_of_different_names_fit_separately() {
    let a = object("a.o", vec![bss(".bss", 1, u64::MAX), bss(".more", 1, u64::MAX)]);
    assert!(fits(&vec![a]));
}

#[test]
fn a_merged_object_may_come_second_where_the_split_brings_no_padding() {
    let a = || object("a.o", vec![section(".text", SectionKind::Code, 4, vec![1; 8])]);
    let b = || object("b.o", vec![section(".text", SectionKind::Code, 2, vec![2; 3])]);
    let c = || object("c.o", vec![section(".text", SectionKind::Code, 8, vec![3; 5])]);
    let bc = as_object("bc.o", &merge_sections(&vec![b(), c()]));
    let in_steps = merge_sections(&vec![a(), bc]);
    let at_once = merge_sections(&vec![a(), b(), c()]);
    assert_eq!(in_steps.sections, at_once.sections);
    assert_eq!(at_once.sections[0].size, 21);
    assert_eq!(
        at_once.sections[0].data,
        vec![1, 1, 1, 1, 1, 1, 1, 1, 2, 2, 2, 0, 0, 0, 0, 0, 3, 3, 3, 3, 3]
    );
}

#[test]
fn a_merged_object_that_comes_second_may_bring_padding_of_its_own() {
    let a = || object("a.o", vec![section(".text", SectionKind::Code, 1, vec![1; 1])]);
    let b = || object("b.o", vec![section(".text", SectionKind::Code, 1, vec![2; 1])]);
    let c = || object("c.o", vec![section(".text", SectionKind::Code, 4, vec![3; 1])]);
    let bc = as_object("bc.o", &merge_sections(&vec![b(), c()]));
    let in_steps = merge_sections(&vec![a(), bc]);
    let at_once = merge_sections(&vec![a(), b(), c()]);
    assert_eq!(at_once.sections[0].data, vec![1, 2, 0, 0, 3]);
    assert_eq!(in_steps.sections[0].data, vec![1, 0, 0, 0, 2, 0, 0, 0, 3]);
}
