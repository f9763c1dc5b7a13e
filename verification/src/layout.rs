//! What merging sections means: which output sections a set of objects gives,
//! how large each is, what bytes it holds, and where each input section lands.

use vstd::prelude::*;
use crate::model::{InputObjectView, SectionKind, SectionView};
use crate::stream::{concat, row_start};

verus! {

/// Sections merge when they agree in name and in kind.
pub struct SectionKey {
    pub name: Seq<char>,
    pub kind: SectionKind,
}

/// An output section, as the contracts speak of it.
pub struct OutputSectionView {
    pub name: Seq<char>,
    pub kind: SectionKind,
    pub align: nat,
    pub size: nat,
    pub data: Seq<u8>,
}

/// Where an input section landed: in which output section, and at what
/// offset.
pub struct PlacementView {
    pub output: nat,
    pub offset: nat,
}

/// The key under which a section merges.
pub open spec fn key_of(section: SectionView) -> SectionKey {
    SectionKey { name: section.name, kind: section.kind }
}

/// The least multiple of `align` that is no less than `offset`. An alignment
/// of zero asks for nothing.
pub open spec fn align_up(offset: nat, align: nat) -> nat {
    if align == 0 || offset % align == 0 {
        offset
    } else {
        (offset + (align - offset % align)) as nat
    }
}

/// The section list of each object.
pub open spec fn section_rows(inputs: Seq<InputObjectView>) -> Seq<Seq<SectionView>> {
    Seq::new(inputs.len(), |i: int| inputs[i].sections)
}

/// The sections of all objects, in the order in which a link meets them:
/// object by object, and within an object in its own order.
pub open spec fn all_sections(inputs: Seq<InputObjectView>) -> Seq<SectionView> {
    concat(section_rows(inputs))
}

/// How many sections the objects before object `i` have.
pub open spec fn section_base(inputs: Seq<InputObjectView>, i: int) -> int {
    row_start(section_rows(inputs), i)
}

/// The sections of `stream` that merge under `key`, in order.
pub open spec fn contributions(stream: Seq<SectionView>, key: SectionKey) -> Seq<SectionView>
    decreases stream.len(),
{
    if stream.len() == 0 {
        Seq::empty()
    } else if key_of(stream.last()) == key {
        contributions(stream.drop_last(), key).push(stream.last())
    } else {
        contributions(stream.drop_last(), key)
    }
}

/// The distinct keys of `stream`, each where it first occurs.
pub open spec fn section_keys(stream: Seq<SectionView>) -> Seq<SectionKey>
    decreases stream.len(),
{
    if stream.len() == 0 {
        Seq::empty()
    } else {
        let before = section_keys(stream.drop_last());
        if before.contains(key_of(stream.last())) {
            before
        } else {
            before.push(key_of(stream.last()))
        }
    }
}

/// The size of an output section made of `parts`: each part starts at the
/// end of the one before it, rounded up to its own alignment.
pub open spec fn extent(parts: Seq<SectionView>) -> nat
    decreases parts.len(),
{
    if parts.len() == 0 {
        0
    } else {
        align_up(extent(parts.drop_last()), parts.last().align) + parts.last().size
    }
}

/// The greatest alignment among `parts`, and 1 where there is none.
pub open spec fn max_align(parts: Seq<SectionView>) -> nat
    decreases parts.len(),
{
    if parts.len() == 0 {
        1
    } else if parts.last().align > max_align(parts.drop_last()) {
        parts.last().align
    } else {
        max_align(parts.drop_last())
    }
}

/// `n` zero bytes.
pub open spec fn zeros(n: nat) -> Seq<u8> {
    Seq::new(n, |i: int| 0u8)
}

/// The bytes of an output section made of `parts`: the bytes of each part,
/// with zeros between them where alignment leaves a gap.
pub open spec fn content(parts: Seq<SectionView>) -> Seq<u8>
    decreases parts.len(),
{
    if parts.len() == 0 {
        Seq::empty()
    } else {
        let before = extent(parts.drop_last());
        let gap = (align_up(before, parts.last().align) - before) as nat;
        content(parts.drop_last()) + zeros(gap) + parts.last().data
    }
}

/// The output section under `key` that is made of `parts`. An uninitialized
/// section has a size and no bytes.
pub open spec fn section_of_parts(key: SectionKey, parts: Seq<SectionView>) -> OutputSectionView {
    OutputSectionView {
        name: key.name,
        kind: key.kind,
        align: max_align(parts),
        size: extent(parts),
        data: if key.kind == SectionKind::Uninitialized {
            Seq::empty()
        } else {
            content(parts)
        },
    }
}

/// The output section that `stream` gives for `key`.
pub open spec fn merged_section(stream: Seq<SectionView>, key: SectionKey) -> OutputSectionView {
    section_of_parts(key, contributions(stream, key))
}

/// The output sections that `stream` gives, in the order in which their keys
/// first occur.
pub open spec fn merged_sections(stream: Seq<SectionView>) -> Seq<OutputSectionView> {
    let keys = section_keys(stream);
    Seq::new(keys.len(), |o: int| merged_section(stream, keys[o]))
}

/// Where section `n` of `stream` lands: in the output section of its key, at
/// the end of what came before it under that key, rounded up to its alignment.
pub open spec fn placement_at(stream: Seq<SectionView>, n: int) -> PlacementView {
    let key = key_of(stream[n]);
    PlacementView {
        output: section_keys(stream).index_of(key) as nat,
        offset: align_up(extent(contributions(stream.take(n), key)), stream[n].align),
    }
}

/// Where each section of each object lands.
pub open spec fn placement_map(inputs: Seq<InputObjectView>) -> Seq<Seq<PlacementView>> {
    Seq::new(
        inputs.len(),
        |i: int|
            Seq::new(
                inputs[i].sections.len(),
                |j: int| placement_at(all_sections(inputs), section_base(inputs, i) + j),
            ),
    )
}

/// Every output section of `stream` has a size that a `u64` holds.
pub open spec fn layout_fits(stream: Seq<SectionView>) -> bool {
    forall|key: SectionKey| #[trigger] extent(contributions(stream, key)) <= u64::MAX
}

/// Rounding up goes no further than needed, and ends at a multiple of the
/// alignment.
pub proof fn lemma_align_up(offset: nat, align: nat)
    ensures
        offset <= align_up(offset, align),
        align > 0 ==> align_up(offset, align) < offset + align,
        align > 0 ==> align_up(offset, align) % align == 0,
        align_up(0, align) == 0,
{
    if align > 0 {
        let rem = offset % align;
        if rem != 0 {
            let up = offset + (align - rem);
            vstd::arithmetic::div_mod::lemma_fundamental_div_mod(offset as int, align as int);
            let q = offset as int / align as int;
            assert(up == align * (q + 1)) by (nonlinear_arith)
                requires
                    offset == align * q + rem,
                    up == offset + (align - rem),
            ;
            vstd::arithmetic::div_mod::lemma_mod_multiples_basic(q + 1, align as int);
            assert((q + 1) * align == align * (q + 1)) by (nonlinear_arith);
        }
        assert(0nat % align == 0) by {
            vstd::arithmetic::div_mod::lemma_small_mod(0, align);
        }
    }
}

/// One more section adds to the parts of its own key, and of no other.
pub proof fn lemma_contributions_push(
    stream: Seq<SectionView>,
    section: SectionView,
    key: SectionKey,
)
    ensures
        contributions(stream.push(section), key) == if key_of(section) == key {
            contributions(stream, key).push(section)
        } else {
            contributions(stream, key)
        },
{
    assert(stream.push(section).drop_last() =~= stream);
}

/// One more section adds its key where the stream did not have it.
pub proof fn lemma_section_keys_push(stream: Seq<SectionView>, section: SectionView)
    ensures
        section_keys(stream.push(section)) == if section_keys(stream).contains(key_of(section)) {
            section_keys(stream)
        } else {
            section_keys(stream).push(key_of(section))
        },
{
    assert(stream.push(section).drop_last() =~= stream);
}

/// No key occurs twice among the keys of a stream.
pub proof fn lemma_section_keys_distinct(stream: Seq<SectionView>)
    ensures
        section_keys(stream).no_duplicates(),
    decreases stream.len(),
{
    if stream.len() > 0 {
        lemma_section_keys_distinct(stream.drop_last());
    }
}

/// The keys of a stream are the keys of its sections.
pub proof fn lemma_section_keys_complete(stream: Seq<SectionView>, key: SectionKey)
    ensures
        section_keys(stream).contains(key) <==> exists|n: int|
            0 <= n < stream.len() && key_of(#[trigger] stream[n]) == key,
    decreases stream.len(),
{
    if stream.len() > 0 {
        let front = stream.drop_last();
        lemma_section_keys_complete(front, key);
        let before = section_keys(front);
        if section_keys(stream).contains(key) {
            if before.contains(key) {
                let n = choose|n: int| 0 <= n < front.len() && key_of(#[trigger] front[n]) == key;
                assert(key_of(stream[n]) == key);
            } else {
                let keys = section_keys(stream);
                let o = choose|o: int| 0 <= o < keys.len() && keys[o] == key;
                if before.contains(key_of(stream.last())) {
                    assert(before[o] == key);
                } else if o < before.len() {
                    assert(before[o] == key);
                }
                assert(key_of(stream[stream.len() - 1]) == key);
            }
        }
        if exists|n: int| 0 <= n < stream.len() && key_of(#[trigger] stream[n]) == key {
            let n = choose|n: int| 0 <= n < stream.len() && key_of(#[trigger] stream[n]) == key;
            if n < front.len() {
                assert(key_of(front[n]) == key);
                let o = choose|o: int| 0 <= o < before.len() && before[o] == key;
                if !before.contains(key_of(stream.last())) {
                    assert(section_keys(stream)[o] == key);
                }
            } else {
                if before.contains(key) {
                } else {
                    assert(section_keys(stream)[before.len() as int] == key);
                }
            }
        }
    }
}

/// A key that a stream does not have contributes nothing.
pub proof fn lemma_unknown_key_is_empty(stream: Seq<SectionView>, key: SectionKey)
    requires
        !section_keys(stream).contains(key),
    ensures
        contributions(stream, key) == Seq::<SectionView>::empty(),
    decreases stream.len(),
{
    if stream.len() > 0 {
        let before = section_keys(stream.drop_last());
        if before.contains(key_of(stream.last())) {
        } else {
            assert(section_keys(stream).last() == key_of(stream.last()));
            assert forall|o: int| 0 <= o < before.len() implies before[o] != key by {
                assert(section_keys(stream)[o] == before[o]);
            }
        }
        lemma_unknown_key_is_empty(stream.drop_last(), key);
    }
}

/// Where no key occurs twice, each key stands at its own index.
pub proof fn lemma_index_of_distinct(keys: Seq<SectionKey>, o: int)
    requires
        keys.no_duplicates(),
        0 <= o < keys.len(),
    ensures
        keys.index_of(keys[o]) == o,
{
    let i = keys.index_of(keys[o]);
    assert(0 <= i < keys.len() && keys[i] == keys[o]);
}

/// An output section never shrinks as a link goes on.
pub proof fn lemma_extent_monotone(stream: Seq<SectionView>, n: int, key: SectionKey)
    requires
        0 <= n <= stream.len(),
    ensures
        extent(contributions(stream.take(n), key)) <= extent(contributions(stream, key)),
    decreases stream.len() - n,
{
    if n == stream.len() {
        assert(stream.take(n) =~= stream);
    } else {
        lemma_extent_monotone(stream, n + 1, key);
        assert(stream.take(n + 1) =~= stream.take(n).push(stream[n]));
        lemma_contributions_push(stream.take(n), stream[n], key);
        if key_of(stream[n]) == key {
            let parts = contributions(stream.take(n), key);
            assert(parts.push(stream[n]).drop_last() =~= parts);
            lemma_align_up(extent(parts), stream[n].align);
        }
    }
}

/// Where a section landed does not change as a link goes on.
pub proof fn lemma_placement_stable(stream: Seq<SectionView>, section: SectionView, n: int)
    requires
        0 <= n < stream.len(),
    ensures
        placement_at(stream.push(section), n) == placement_at(stream, n),
{
    let next = stream.push(section);
    let key = key_of(stream[n]);
    assert(next.take(n) =~= stream.take(n));
    lemma_section_keys_push(stream, section);
    lemma_section_keys_distinct(stream);
    lemma_section_keys_distinct(next);
    lemma_section_keys_complete(stream, key);
    let o = section_keys(stream).index_of(key);
    assert(0 <= o < section_keys(stream).len() && section_keys(stream)[o] == key);
    assert(section_keys(next)[o] == key);
    lemma_index_of_distinct(section_keys(next), o);
}

/// The end of section `n` of `stream` is the size that its output section
/// has once the section is placed.
pub proof fn lemma_placement_end(stream: Seq<SectionView>, n: int)
    requires
        0 <= n < stream.len(),
    ensures
        placement_at(stream, n).offset + stream[n].size == extent(
            contributions(stream.take(n + 1), key_of(stream[n])),
        ),
        placement_at(stream, n).offset >= extent(contributions(stream.take(n), key_of(stream[n]))),
        placement_at(stream, n).output < section_keys(stream).len(),
        section_keys(stream)[placement_at(stream, n).output as int] == key_of(stream[n]),
{
    let key = key_of(stream[n]);
    let parts = contributions(stream.take(n), key);
    assert(stream.take(n + 1) =~= stream.take(n).push(stream[n]));
    lemma_contributions_push(stream.take(n), stream[n], key);
    assert(parts.push(stream[n]).drop_last() =~= parts);
    lemma_align_up(extent(parts), stream[n].align);
    lemma_section_keys_complete(stream, key);
}

/// Where the layout fits, every section is placed so that its end, too, is
/// a `u64`, and in an output section that the layout has.
pub proof fn lemma_placement_map_fits(inputs: Seq<InputObjectView>)
    requires
        layout_fits(all_sections(inputs)),
    ensures
        placement_map(inputs).len() == inputs.len(),
        forall|i: int|
            0 <= i < inputs.len() ==> (#[trigger] placement_map(inputs)[i]).len()
                == inputs[i].sections.len(),
        forall|i: int, j: int|
            0 <= i < inputs.len() && 0 <= j < inputs[i].sections.len() ==> {
                &&& (#[trigger] placement_map(inputs)[i][j]).offset + inputs[i].sections[j].size
                    <= u64::MAX
                &&& placement_map(inputs)[i][j].output < merged_sections(all_sections(inputs)).len()
            },
{
    let whole = all_sections(inputs);
    let rows = section_rows(inputs);
    assert forall|i: int, j: int|
        0 <= i < inputs.len() && 0 <= j < inputs[i].sections.len() implies {
        &&& (#[trigger] placement_map(inputs)[i][j]).offset + inputs[i].sections[j].size
            <= u64::MAX
        &&& placement_map(inputs)[i][j].output < merged_sections(whole).len()
    } by {
        let n = section_base(inputs, i) + j;
        crate::stream::lemma_concat_index(rows, i, j);
        lemma_placement_end(whole, n);
        lemma_extent_monotone(whole, n + 1, key_of(whole[n]));
    }
}

} // verus!
