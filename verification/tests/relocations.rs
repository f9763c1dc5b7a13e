use partial_link::link::link;
use partial_link::merge::{merge_sections, Placement};
use partial_link::model::{
    Binding, Definition, InputObject, Relocation, Section, SectionKind, Symbol,
};
use partial_link::rewrite::{rewrite_relocations, OutputRelocation};
use partial_link::symbols::{build_symbol_table, LinkError, Location, SymbolId};

fn section(name: &str, kind: SectionKind, size: usize, relocations: Vec<Relocation>) -> Section {
    Section {
        name: name.to_string(),
        kind,
        align: 1,
        size: size as u64,
        data: vec![0; size],
        relocations,
    }
}

fn text(size: usize, relocations: Vec<Relocation>) -> Section {
    section(".text", SectionKind::Code, size, relocations)
}

fn data(size: usize, relocations: Vec<Relocation>) -> Section {
    section(".data", SectionKind::Data, size, relocations)
}

fn reloc(offset: u64, symbol: usize, kind: u32, addend: i64) -> Relocation {
    Relocation { offset, symbol, kind, addend }
}

fn symbol(name: &str, binding: Binding, definition: Definition) -> Symbol {
    Symbol { name: name.to_string(), binding, definition }
}

fn object(name: &str, sections: Vec<Section>, symbols: Vec<Symbol>) -> InputObject {
    InputObject { name: name.to_string(), sections, symbols }
}

#[test]
fn an_object_without_relocations_gives_empty_lists() {
    let a = object("a.o", vec![text(4, vec![]), data(4, vec![])], vec![]);
    let linked = link(&vec![a]).unwrap();
    assert_eq!(linked.relocations, vec![vec![], vec![]]);
}

#[test]
fn a_relocation_moves_with_its_section_and_keeps_kind_and_addend() {
    let a = object("a.o", vec![text(10, vec![])], vec![]);
    let b = object(
        "b.o",
        vec![text(8, vec![reloc(3, 0, 0xdead_beef, i64::MIN), reloc(8, 0, 0, i64::MAX)])],
        vec![symbol("f", Binding::Global, Definition::Defined { section: 0, offset: 0 })],
    );
    let linked = link(&vec![a, b]).unwrap();
    assert_eq!(
        linked.relocations,
        vec![vec![
            OutputRelocation {
                offset: 13,
                symbol: SymbolId::Global(0),
                kind: 0xdead_beef,
                addend: i64::MIN,
            },
            OutputRelocation { offset: 18, symbol: SymbolId::Global(0), kind: 0, addend: i64::MAX },
        ]]
    );
}

#[test]
fn relocations_keep_the_order_of_objects_and_sections() {
    let f = || symbol("f", Binding::Global, Definition::Undefined);
    let a = object(
        "a.o",
        vec![text(4, vec![reloc(0, 0, 1, 0), reloc(2, 0, 2, 0)]), data(4, vec![reloc(1, 0, 3, 0)])],
        vec![f()],
    );
    let b = object(
        "b.o",
        vec![
            data(4, vec![reloc(0, 1, 4, 0)]),
            text(4, vec![reloc(3, 1, 5, 0)]),
            text(4, vec![reloc(1, 0, 6, 0)]),
        ],
        vec![f(), symbol("f", Binding::Weak, Definition::Defined { section: 0, offset: 0 })],
    );
    let linked = link(&vec![a, b]).unwrap();
    let kinds_and_offsets = |o: usize| -> Vec<(u32, u64)> {
        linked.relocations[o].iter().map(|r| (r.kind, r.offset)).collect()
    };
    assert_eq!(kinds_and_offsets(0), vec![(1, 0), (2, 2), (5, 7), (6, 9)]);
    assert_eq!(kinds_and_offsets(1), vec![(3, 1), (4, 4)]);
    assert!(linked.relocations.iter().flatten().all(|r| r.symbol == SymbolId::Global(0)));
}

#[test]
fn a_relocation_against_a_local_symbol_refers_to_its_copy() {
    let a = object(
        "a.o",
        vec![text(4, vec![reloc(0, 0, 1, 0)])],
        vec![symbol("l", Binding::Local, Definition::Defined { section: 0, offset: 2 })],
    );
    let b = object(
        "b.o",
        vec![text(4, vec![reloc(1, 1, 1, 0)])],
        vec![
            symbol("g", Binding::Global, Definition::Defined { section: 0, offset: 0 }),
            symbol("l", Binding::Local, Definition::Defined { section: 0, offset: 3 }),
        ],
    );
    let linked = link(&vec![a, b]).unwrap();
    assert_eq!(
        linked.relocations,
        vec![vec![
            OutputRelocation { offset: 0, symbol: SymbolId::Local(0), kind: 1, addend: 0 },
            OutputRelocation { offset: 5, symbol: SymbolId::Local(1), kind: 1, addend: 0 },
        ]]
    );
    assert_eq!(linked.symbols.locals[0].location, Location::Defined { section: 0, offset: 2 });
    assert_eq!(linked.symbols.locals[1].location, Location::Defined { section: 0, offset: 7 });
}

#[test]
fn a_relocation_at_offset_zero_of_an_empty_section_is_kept() {
    let a = object("a.o", vec![text(6, vec![])], vec![]);
    let b = object(
        "b.o",
        vec![text(0, vec![reloc(0, 0, 9, 1)])],
        vec![symbol("f", Binding::Global, Definition::Defined { section: 0, offset: 0 })],
    );
    let linked = link(&vec![a, b]).unwrap();
    assert_eq!(
        linked.relocations,
        vec![vec![OutputRelocation { offset: 6, symbol: SymbolId::Global(0), kind: 9, addend: 1 }]]
    );
}

#[test]
fn a_relocation_against_a_common_symbol_is_kept() {
    let a = object(
        "a.o",
        vec![text(4, vec![reloc(0, 0, 1, 0)])],
        vec![symbol("v", Binding::Global, Definition::Common)],
    );
    let linked = link(&vec![a]).unwrap();
    assert_eq!(linked.relocations[0].len(), 1);
    assert_eq!(linked.symbols.globals[0].location, Location::Common);
}

#[test]
fn a_reference_that_nothing_relocates_against_is_no_error() {
    let a = object(
        "a.o",
        vec![text(4, vec![])],
        vec![symbol("missing", Binding::Global, Definition::Undefined)],
    );
    let linked = link(&vec![a]).unwrap();
    assert_eq!(linked.symbols.globals[0].location, Location::Undefined);
}

#[test]
fn a_relocation_against_an_undefined_name_reports_name_and_object() {
    let a = object(
        "a.o",
        vec![text(4, vec![])],
        vec![symbol("f", Binding::Global, Definition::Defined { section: 0, offset: 0 })],
    );
    let b = object(
        "b.o",
        vec![text(4, vec![reloc(0, 1, 1, 0), reloc(1, 0, 1, 0)])],
        vec![
            symbol("gone", Binding::Global, Definition::Undefined),
            symbol("f", Binding::Global, Definition::Undefined),
        ],
    );
    let c = object(
        "c.o",
        vec![text(4, vec![reloc(0, 0, 1, 0)])],
        vec![symbol("also_gone", Binding::Global, Definition::Undefined)],
    );
    assert_eq!(
        link(&vec![a, b, c]),
        Err(LinkError::UndefinedSymbol { symbol: "gone".to_string(), input: "b.o".to_string() })
    );
}

#[test]
fn a_relocation_against_an_undefined_local_symbol_is_an_error() {
    let a = object(
        "a.o",
        vec![text(4, vec![reloc(0, 0, 1, 0)])],
        vec![symbol("l", Binding::Local, Definition::Undefined)],
    );
    let b = object(
        "b.o",
        vec![text(4, vec![])],
        vec![symbol("l", Binding::Global, Definition::Defined { section: 0, offset: 0 })],
    );
    assert_eq!(
        link(&vec![a, b]),
        Err(LinkError::UndefinedSymbol { symbol: "l".to_string(), input: "a.o".to_string() })
    );
}

#[test]
fn a_weak_reference_without_a_definition_is_an_error_when_relocated_against() {
    let a = object(
        "a.o",
        vec![text(4, vec![reloc(0, 0, 1, 0)])],
        vec![symbol("w", Binding::Weak, Definition::Undefined)],
    );
    assert_eq!(
        link(&vec![a]),
        Err(LinkError::UndefinedSymbol { symbol: "w".to_string(), input: "a.o".to_string() })
    );
}

#[test]
fn a_clash_of_definitions_is_reported_before_an_undefined_symbol() {
    let a = object(
        "a.o",
        vec![text(4, vec![reloc(0, 1, 1, 0)])],
        vec![
            symbol("f", Binding::Global, Definition::Defined { section: 0, offset: 0 }),
            symbol("gone", Binding::Global, Definition::Undefined),
        ],
    );
    let b = object(
        "b.o",
        vec![text(4, vec![])],
        vec![symbol("f", Binding::Global, Definition::Defined { section: 0, offset: 0 })],
    );
    assert_eq!(
        link(&vec![a, b]),
        Err(LinkError::DuplicateDefinition {
            symbol: "f".to_string(),
            first_input: "a.o".to_string(),
            second_input: "b.o".to_string(),
        })
    );
}

#[test]
fn the_rewriter_follows_the_placements_and_the_table_it_is_given() {
    let inputs = vec![object(
        "a.o",
        vec![text(4, vec![reloc(1, 0, 7, -1)]), data(4, vec![reloc(2, 0, 8, 1)])],
        vec![symbol("f", Binding::Global, Definition::Defined { section: 0, offset: 0 })],
    )];
    let placements =
        vec![vec![Placement { output: 2, offset: 40 }, Placement { output: 0, offset: 16 }]];
    let table = build_symbol_table(&inputs, &placements).unwrap();
    let lists = rewrite_relocations(&inputs, &placements, &table, 3).unwrap();
    assert_eq!(
        lists,
        vec![
            vec![OutputRelocation { offset: 18, symbol: SymbolId::Global(0), kind: 8, addend: 1 }],
            vec![],
            vec![OutputRelocation { offset: 41, symbol: SymbolId::Global(0), kind: 7, addend: -1 }],
        ]
    );
}

#[test]
fn the_stages_run_one_after_another_give_what_link_gives() {
    let inputs = vec![
        object(
            "a.o",
            vec![text(5, vec![reloc(1, 1, 2, 0)]), data(3, vec![])],
            vec![
                symbol("f", Binding::Global, Definition::Defined { section: 0, offset: 0 }),
                symbol("g", Binding::Global, Definition::Undefined),
            ],
        ),
        object(
            "b.o",
            vec![data(2, vec![reloc(0, 0, 3, 4)]), text(7, vec![])],
            vec![symbol("g", Binding::Global, Definition::Defined { section: 1, offset: 6 })],
        ),
    ];
    let layout = merge_sections(&inputs);
    let table = build_symbol_table(&inputs, &layout.placements).unwrap();
    let lists =
        rewrite_relocations(&inputs, &layout.placements, &table, layout.sections.len()).unwrap();
    let linked = link(&inputs).unwrap();
    assert_eq!(linked.sections, layout.sections);
    assert_eq!(linked.symbols, table);
    assert_eq!(linked.relocations, lists);
    assert_eq!(table.globals[1].location, Location::Defined { section: 0, offset: 11 });
    assert_eq!(
        lists,
        vec![
            vec![OutputRelocation { offset: 1, symbol: SymbolId::Global(1), kind: 2, addend: 0 }],
            vec![OutputRelocation { offset: 3, symbol: SymbolId::Global(1), kind: 3, addend: 4 }],
        ]
    );
}
