//! The section merger: it groups the sections of all objects by name and
//! kind, lays each group out as one output section, and records where every
//! input section landed.

use vstd::prelude::*;
use crate::layout::{
    OutputSectionView, PlacementView, SectionKey, all_sections, align_up, contributions, extent,
    key_of, layout_fits, lemma_align_up, lemma_contributions_push, lemma_extent_monotone,
    lemma_index_of_distinct, lemma_placement_stable, lemma_section_keys_distinct,
    lemma_section_keys_push, lemma_unknown_key_is_empty, merged_section, merged_sections,
    placement_at, placement_map, section_keys, section_of_parts, section_rows, zeros,
};
use crate::model::{InputObject, Section, SectionKind, SectionView, views};
use crate::stream::{
    concat, front, lemma_concat_all, lemma_concat_take, lemma_front_is_prefix, lemma_front_push,
    lemma_row_item_in_range, row_start,
};

verus! {

/// One section of the linked object.
#[derive(Clone, Debug, PartialEq, Eq)]
pub struct OutputSection {
    pub name: String,
    pub kind: SectionKind,
    /// The greatest alignment among the sections merged into this one.
    pub align: u64,
    pub size: u64,
    /// The section's bytes; empty for an uninitialized section.
    pub data: Vec<u8>,
}

/// Where an input section landed: the index of its output section, and the
/// offset of its first byte in it.
#[derive(Clone, Copy, Debug, PartialEq, Eq, Structural)]
pub struct Placement {
    pub output: usize,
    pub offset: u64,
}

/// Where every input section landed: for section `j` of object `i` its
/// placement at `[i][j]`.
pub type PlacementMap = Vec<Vec<Placement>>;

/// What the merger hands on: the output sections, and where every input
/// section landed in them.
#[derive(Clone, Debug, PartialEq, Eq)]
pub struct Layout {
    pub sections: Vec<OutputSection>,
    pub placements: PlacementMap,
}

impl View for OutputSection {
    type V = OutputSectionView;

    open spec fn view(&self) -> OutputSectionView {
        OutputSectionView {
            name: self.name@,
            kind: self.kind,
            align: self.align as nat,
            size: self.size as nat,
            data: self.data@,
        }
    }
}

impl View for Placement {
    type V = PlacementView;

    open spec fn view(&self) -> PlacementView {
        PlacementView { output: self.output as nat, offset: self.offset as nat }
    }
}

/// The views of the elements of each row, in order.
pub open spec fn row_views<T: View>(rows: Seq<Vec<T>>) -> Seq<Seq<T::V>> {
    Seq::new(rows.len(), |i: int| views(rows[i]@))
}

/// Appends `count` zero bytes.
fn push_zeros(data: &mut Vec<u8>, count: u64)
    ensures
        final(data)@ == old(data)@ + zeros(count as nat),
{
    let mut done: u64 = 0;
    while done < count
        invariant
            done <= count,
            data@ == old(data)@ + zeros(done as nat),
        decreases count - done,
    {
        data.push(0u8);
        done += 1;
        assert(data@ =~= old(data)@ + zeros(done as nat));
    }
}

/// Appends a copy of `bytes`.
fn push_bytes(data: &mut Vec<u8>, bytes: &Vec<u8>)
    ensures
        final(data)@ == old(data)@ + bytes@,
{
    let mut done: usize = 0;
    while done < bytes.len()
        invariant
            done <= bytes.len(),
            data@ == old(data)@ + bytes@.take(done as int),
        decreases bytes.len() - done,
    {
        data.push(bytes[done]);
        done += 1;
        assert(data@ =~= old(data)@ + bytes@.take(done as int));
    }
    assert(bytes@.take(done as int) =~= bytes@);
}

/// The index of the output section that `section` merges into, or the number
/// of output sections where none has its name and kind.
fn find_output(outputs: &Vec<OutputSection>, section: &Section) -> (r: usize)
    ensures
        r <= outputs.len(),
        r < outputs.len() ==> outputs[r as int]@.name == section@.name && outputs[r as int]@.kind
            == section@.kind,
        forall|o: int|
            0 <= o < outputs.len() && o != r ==> !((#[trigger] outputs[o])@.name == section@.name
                && outputs[o]@.kind == section@.kind) || r < o,
{
    let mut o: usize = 0;
    while o < outputs.len()
        invariant
            o <= outputs.len(),
            forall|k: int|
                0 <= k < o ==> !((#[trigger] outputs[k])@.name == section@.name && outputs[k]@.kind
                    == section@.kind),
        decreases outputs.len() - o,
    {
        if outputs[o].kind == section.kind && outputs[o].name == section.name {
            return o;
        }
        o += 1;
    }
    o
}

/// Appends `section` to `out`, which is made of `parts` so far, and returns
/// the offset at which it landed; `None` where the size would leave `u64`.
fn place(
    out: &mut OutputSection,
    section: &Section,
    Ghost(parts): Ghost<Seq<SectionView>>,
) -> (r: Option<u64>)
    requires
        old(out)@ == section_of_parts(key_of(section@), parts),
    ensures
        match r {
            Some(offset) => {
                &&& offset == align_up(extent(parts), section@.align)
                &&& final(out)@ == section_of_parts(key_of(section@), parts.push(section@))
            },
            None => extent(parts.push(section@)) > u64::MAX,
        },
{
    proof {
        assert(parts.push(section@).drop_last() =~= parts);
        lemma_align_up(extent(parts), section@.align);
    }
    let align: u64 = section.align;
    let size: u64 = out.size;
    let gap: u64 = if align == 0 || size % align == 0 {
        0
    } else {
        align - size % align
    };
    if gap > u64::MAX - size {
        return None;
    }
    let offset: u64 = size + gap;
    if section.size > u64::MAX - offset {
        return None;
    }
    if out.kind != SectionKind::Uninitialized {
        push_zeros(&mut out.data, gap);
        push_bytes(&mut out.data, &section.data);
    }
    out.size = offset + section.size;
    if align > out.align {
        out.align = align;
    }
    Some(offset)
}

/// What holds of the merger's state when it has met exactly `stream`.
spec fn merged_so_far(outputs: Seq<OutputSection>, stream: Seq<SectionView>) -> bool {
    &&& outputs.len() == section_keys(stream).len()
    &&& forall|o: int|
        0 <= o < outputs.len() ==> (#[trigger] outputs[o])@ == merged_section(
            stream,
            section_keys(stream)[o],
        )
}

/// Merges section by section; `None` where an output section would outgrow
/// `u64`.
fn try_merge(inputs: &Vec<InputObject>) -> (r: Option<Layout>)
    ensures
        r.is_some() == layout_fits(all_sections(views(inputs@))),
        r.is_some() ==> {
            &&& views(r.unwrap().sections@) == merged_sections(all_sections(views(inputs@)))
            &&& row_views(r.unwrap().placements@) == placement_map(views(inputs@))
        },
{
    let ghost objects = views(inputs@);
    let ghost rows = section_rows(objects);
    let ghost whole = concat(rows);
    let mut outputs: Vec<OutputSection> = Vec::new();
    let mut placements: PlacementMap = Vec::new();
    let mut i: usize = 0;
    proof {
        lemma_concat_all(rows);
        assert(rows.take(0) =~= Seq::empty());
    }
    while i < inputs.len()
        invariant
            i <= inputs.len(),
            objects == views(inputs@),
            rows == section_rows(objects),
            whole == concat(rows),
            placements.len() == i,
            merged_so_far(outputs@, concat(rows.take(i as int))),
            forall|a: int| 0 <= a < i ==> (#[trigger] placements[a]).len() == rows[a].len(),
            forall|a: int, b: int|
                0 <= a < i && 0 <= b < rows[a].len() ==> (#[trigger] placements[a][b])@
                    == placement_at(concat(rows.take(i as int)), row_start(rows, a) + b),
        decreases inputs.len() - i,
    {
        let object = &inputs[i];
        let mut row: Vec<Placement> = Vec::new();
        let mut j: usize = 0;
        proof {
            lemma_concat_take(rows, i as int);
        }
        while j < object.sections.len()
            invariant
                i < inputs.len(),
                *object == inputs[i as int],
                objects == views(inputs@),
                rows == section_rows(objects),
                whole == concat(rows),
                j <= object.sections.len(),
                row.len() == j,
                placements.len() == i,
                merged_so_far(outputs@, front(rows, i as int, j as int)),
                forall|a: int| 0 <= a < i ==> (#[trigger] placements[a]).len() == rows[a].len(),
                forall|a: int, b: int|
                    0 <= a < i && 0 <= b < rows[a].len() ==> (#[trigger] placements[a][b])@
                        == placement_at(front(rows, i as int, j as int), row_start(rows, a) + b),
                forall|b: int|
                    0 <= b < j ==> (#[trigger] row[b])@ == placement_at(
                        front(rows, i as int, j as int),
                        row_start(rows, i as int) + b,
                    ),
            decreases object.sections.len() - j,
        {
            let section = &object.sections[j];
            let ghost stream = front(rows, i as int, j as int);
            let ghost next = front(rows, i as int, j + 1);
            let ghost key = key_of(section@);
            proof {
                assert(rows[i as int][j as int] == section@);
                lemma_front_push(rows, i as int, j as int);
                lemma_section_keys_push(stream, section@);
                lemma_section_keys_distinct(stream);
                lemma_section_keys_distinct(next);
            }
            let o = find_output(&outputs, section);
            proof {
                if o < outputs.len() {
                    assert(section_keys(stream)[o as int] == key);
                } else {
                    assert forall|k: int| 0 <= k < section_keys(stream).len() implies section_keys(
                        stream,
                    )[k] != key by {
                        assert(outputs[k]@ == merged_section(stream, section_keys(stream)[k]));
                    }
                    lemma_unknown_key_is_empty(stream, key);
                }
            }
            if o == outputs.len() {
                outputs.push(
                    OutputSection {
                        name: section.name.clone(),
                        kind: section.kind,
                        align: 1,
                        size: 0,
                        data: Vec::new(),
                    },
                );
            }
            let ghost parts = contributions(stream, key);
            let ghost before = outputs@;
            assert(outputs[o as int]@ == section_of_parts(key, parts));
            let placed = place(&mut outputs[o], section, Ghost(parts));
            match placed {
                Some(offset) => {
                    row.push(Placement { output: o, offset });
                },
                None => {
                    proof {
                        lemma_contributions_push(stream, section@, key);
                        lemma_front_is_prefix(rows, i as int, j + 1);
                        lemma_extent_monotone(whole, next.len() as int, key);
                    }
                    return None;
                },
            }
            proof {
                assert(outputs@ =~= before.update(o as int, outputs[o as int]));
                assert(section_keys(next)[o as int] == key);
                assert forall|k: int| 0 <= k < outputs.len() implies (#[trigger] outputs[k])@
                    == merged_section(next, section_keys(next)[k]) by {
                    lemma_contributions_push(stream, section@, section_keys(next)[k]);
                    if k != o {
                        assert(outputs[k] == before[k]);
                        assert(section_keys(next)[k] == section_keys(stream)[k]);
                        assert(section_keys(next)[k] != section_keys(next)[o as int]);
                    }
                }
                assert forall|a: int, b: int| 0 <= a < i && 0 <= b < rows[a].len() implies (
                #[trigger] placements[a][b])@ == placement_at(next, row_start(rows, a) + b) by {
                    lemma_row_item_in_range(rows, a, i as int, b);
                    lemma_placement_stable(stream, section@, row_start(rows, a) + b);
                }
                assert forall|b: int| 0 <= b < j + 1 implies (#[trigger] row[b])@ == placement_at(
                    next,
                    row_start(rows, i as int) + b,
                ) by {
                    if b < j {
                        lemma_placement_stable(stream, section@, row_start(rows, i as int) + b);
                    } else {
                        assert(next.take(stream.len() as int) =~= stream);
                        lemma_index_of_distinct(section_keys(next), o as int);
                    }
                }
            }
            j += 1;
        }
        placements.push(row);
        i += 1;
    }
    proof {
        assert forall|key: SectionKey| #[trigger]
            extent(contributions(whole, key)) <= u64::MAX by {
            if section_keys(whole).contains(key) {
                let o = section_keys(whole).index_of(key);
                assert(outputs[o]@ == merged_section(whole, key));
            } else {
                lemma_unknown_key_is_empty(whole, key);
            }
        }
        assert(views(outputs@) =~= merged_sections(whole));
        assert forall|a: int| 0 <= a < placements.len() implies #[trigger] row_views(
            placements@,
        )[a] == placement_map(objects)[a] by {
            assert(views(placements[a]@) =~= placement_map(objects)[a]);
        }
        assert(row_views(placements@) =~= placement_map(objects));
    }
    Some(Layout { sections: outputs, placements })
}

/// Decides whether the linked object's sections fit: whether each of them
/// has a size that a `u64` holds.
pub fn fits(inputs: &Vec<InputObject>) -> (r: bool)
    ensures
        r == layout_fits(all_sections(views(inputs@))),
{
    try_merge(inputs).is_some()
}

/// Merges the sections of `inputs`, met object by object in the order given:
/// sections of one name and kind become one output section, each placed at
/// the end of those before it, rounded up to its own alignment.
pub fn merge_sections(inputs: &Vec<InputObject>) -> (r: Layout)
    requires
        layout_fits(all_sections(views(inputs@))),
    ensures
        views(r.sections@) == merged_sections(all_sections(views(inputs@))),
        row_views(r.placements@) == placement_map(views(inputs@)),
{
    match try_merge(inputs) {
        Some(layout) => layout,
        None => unreached(),
    }
}

} // verus!
