//! What merging guarantees: how large an output section is, that the
//! sections merged into it lie in it side by side, and that merging may go
//! on from a merged object.

use vstd::prelude::*;
use crate::layout::{
    OutputSectionView, SectionKey, align_up, all_sections, content, contributions, extent,
    key_of, lemma_align_up, lemma_contributions_push, lemma_extent_monotone, lemma_placement_end,
    lemma_section_keys_distinct, lemma_section_keys_push, lemma_unknown_key_is_empty, max_align,
    merged_section, merged_sections, placement_at, placement_map, section_base, section_keys,
    section_rows, zeros,
};
use crate::model::{InputObjectView, SectionKind, SectionView, is_power_of_two};
use crate::stream::{
    concat, lemma_concat_append, lemma_concat_index, lemma_row_item_in_range,
};

verus! {

/// The room that part `k` of an output section takes: the gap that its
/// alignment leaves before it, and its own size.
pub open spec fn aligned_size(parts: Seq<SectionView>, k: int) -> nat {
    let before = extent(parts.take(k));
    (align_up(before, parts[k].align) - before + parts[k].size) as nat
}

/// The room that the first `n` parts of an output section take together.
pub open spec fn aligned_sizes(parts: Seq<SectionView>, n: int) -> nat
    decreases n,
{
    if n <= 0 {
        0
    } else {
        aligned_sizes(parts, n - 1) + aligned_size(parts, n - 1)
    }
}

/// The size of an output section is the sum of the room that each of its
/// parts takes.
pub proof fn lemma_size_is_sum(parts: Seq<SectionView>, n: int)
    requires
        0 <= n <= parts.len(),
    ensures
        extent(parts.take(n)) == aligned_sizes(parts, n),
    decreases n,
{
    if n > 0 {
        lemma_size_is_sum(parts, n - 1);
        assert(parts.take(n).drop_last() =~= parts.take(n - 1));
        lemma_align_up(extent(parts.take(n - 1)), parts[n - 1].align);
    }
}

/// The size of an output section of a link is the sum of the room that each
/// section merged into it takes.
pub proof fn lemma_output_size_is_sum(stream: Seq<SectionView>, key: SectionKey)
    ensures
        merged_section(stream, key).size == aligned_sizes(
            contributions(stream, key),
            contributions(stream, key).len() as int,
        ),
{
    let parts = contributions(stream, key);
    lemma_size_is_sum(parts, parts.len() as int);
    assert(parts.take(parts.len() as int) =~= parts);
}

/// Every section lies inside its output section, at an offset that its
/// alignment divides, and the output section is aligned at least as strictly
/// as the section.
pub proof fn lemma_section_lies_inside(stream: Seq<SectionView>, n: int)
    requires
        0 <= n < stream.len(),
    ensures
        placement_at(stream, n).output < merged_sections(stream).len(),
        merged_sections(stream)[placement_at(stream, n).output as int] == merged_section(
            stream,
            key_of(stream[n]),
        ),
        placement_at(stream, n).offset + stream[n].size <= merged_section(
            stream,
            key_of(stream[n]),
        ).size,
        stream[n].align > 0 ==> placement_at(stream, n).offset % stream[n].align == 0,
        stream[n].align <= merged_section(stream, key_of(stream[n])).align,
{
    let key = key_of(stream[n]);
    lemma_placement_end(stream, n);
    lemma_extent_monotone(stream, n + 1, key);
    lemma_align_up(extent(contributions(stream.take(n), key)), stream[n].align);
    lemma_max_align_covers(stream, n);
}

/// The alignment of an output section is no less than that of any section
/// merged into it.
proof fn lemma_max_align_covers(stream: Seq<SectionView>, n: int)
    requires
        0 <= n < stream.len(),
    ensures
        stream[n].align <= max_align(contributions(stream, key_of(stream[n]))),
    decreases stream.len(),
{
    let front = stream.drop_last();
    let key = key_of(stream[n]);
    if key_of(stream.last()) == key {
        assert(contributions(stream, key).drop_last() =~= contributions(front, key));
    }
    if n < front.len() {
        assert(front[n] == stream[n]);
        lemma_max_align_covers(front, n);
    }
}

/// No two sections of one output section overlap: the earlier one ends
/// where the later one starts, or before.
pub proof fn lemma_sections_do_not_overlap(stream: Seq<SectionView>, m: int, n: int)
    requires
        0 <= m < n < stream.len(),
        key_of(stream[m]) == key_of(stream[n]),
    ensures
        placement_at(stream, m).output == placement_at(stream, n).output,
        placement_at(stream, m).offset + stream[m].size <= placement_at(stream, n).offset,
{
    let key = key_of(stream[n]);
    let front = stream.take(n);
    lemma_placement_end(stream, m);
    lemma_placement_end(stream, n);
    assert(front.take(m + 1) =~= stream.take(m + 1));
    lemma_extent_monotone(front, m + 1, key);
}

/// What a link places never overlaps: two different sections of its objects
/// that merge into one output section lie in it one after the other, each
/// inside the output section.
pub proof fn lemma_placements_do_not_overlap(
    inputs: Seq<InputObjectView>,
    i: int,
    a: int,
    j: int,
    b: int,
)
    requires
        0 <= i < inputs.len(),
        0 <= a < inputs[i].sections.len(),
        0 <= j < inputs.len(),
        0 <= b < inputs[j].sections.len(),
        i != j || a != b,
        key_of(inputs[i].sections[a]) == key_of(inputs[j].sections[b]),
    ensures
        ({
            let first = placement_map(inputs)[i][a];
            let second = placement_map(inputs)[j][b];
            let output = merged_sections(all_sections(inputs))[first.output as int];
            &&& first.output == second.output
            &&& first.output < merged_sections(all_sections(inputs)).len()
            &&& first.offset + inputs[i].sections[a].size <= output.size
            &&& second.offset + inputs[j].sections[b].size <= output.size
            &&& first.offset + inputs[i].sections[a].size <= second.offset || second.offset
                + inputs[j].sections[b].size <= first.offset
        }),
{
    let rows = section_rows(inputs);
    let whole = all_sections(inputs);
    let m = section_base(inputs, i) + a;
    let n = section_base(inputs, j) + b;
    lemma_concat_index(rows, i, a);
    lemma_concat_index(rows, j, b);
    if i < j {
        lemma_row_item_in_range(rows, i, j, a);
    } else if j < i {
        lemma_row_item_in_range(rows, j, i, b);
    }
    lemma_section_lies_inside(whole, m);
    lemma_section_lies_inside(whole, n);
    if m < n {
        lemma_sections_do_not_overlap(whole, m, n);
    } else {
        lemma_sections_do_not_overlap(whole, n, m);
    }
}

/// The output sections, read as the sections of one object.
pub open spec fn as_sections(outputs: Seq<OutputSectionView>) -> Seq<SectionView> {
    Seq::new(
        outputs.len(),
        |o: int|
            SectionView {
                name: outputs[o].name,
                kind: outputs[o].kind,
                align: outputs[o].align,
                size: outputs[o].size,
                data: outputs[o].data,
                relocations: Seq::empty(),
            },
    )
}

/// Merging goes on from a merged object as it goes on from the objects it
/// was made of: the output sections of `first`, read as one object and
/// merged with `rest`, are the output sections of `first` and `rest` merged
/// in one pass, in their order, sizes, alignments and bytes.
pub proof fn lemma_merge_continues(first: Seq<SectionView>, rest: Seq<SectionView>)
    ensures
        merged_sections(as_sections(merged_sections(first)) + rest) == merged_sections(
            first + rest,
        ),
{
    let keys = section_keys(first);
    let made = as_sections(merged_sections(first));
    lemma_section_keys_distinct(first);
    assert(made.len() == keys.len());
    assert forall|o: int| 0 <= o < made.len() implies key_of(#[trigger] made[o]) == keys[o] by {}
    lemma_distinct_sections(made, made.len() as int);
    assert(made.take(made.len() as int) =~= made);
    assert(section_keys(made) =~= keys);
    lemma_section_keys_of_concat(made, rest);
    lemma_section_keys_of_concat(first, rest);
    let left = merged_sections(made + rest);
    let right = merged_sections(first + rest);
    let all_keys = section_keys(first + rest);
    assert forall|o: int| 0 <= o < all_keys.len() implies left[o] == right[o] by {
        let key = all_keys[o];
        lemma_contributions_concat(made, rest, key);
        lemma_contributions_concat(first, rest, key);
        let parts = contributions(first, key);
        if keys.contains(key) {
            let at = keys.index_of(key);
            assert(key_of(made[at]) == key);
            assert(contributions(made, key) == seq![made[at]]);
            let one = seq![made[at]];
            let none = Seq::<SectionView>::empty();
            assert(one.drop_last() =~= none);
            assert(one.last() == made[at]);
            lemma_align_up(0, made[at].align);
            lemma_max_align_positive(parts);
            assert(extent(none) == 0);
            assert(max_align(none) == 1);
            assert(content(none) =~= Seq::<u8>::empty());
            assert(zeros(0) =~= Seq::<u8>::empty());
            assert(extent(one) == made[at].size);
            assert(max_align(one) == made[at].align);
            assert(content(one) =~= made[at].data);
        } else {
            lemma_unknown_key_is_empty(first, key);
            lemma_unknown_key_is_empty(made, key);
        }
        assert(same_section(key.kind, contributions(made, key), parts));
        lemma_same_section_extends(
            key.kind,
            contributions(made, key),
            parts,
            contributions(rest, key),
        );
    }
    assert(left =~= right);
}

/// Every alignment among `parts` is a power of two.
pub open spec fn alignments_are_powers_of_two(parts: Seq<SectionView>) -> bool {
    forall|n: int| 0 <= n < parts.len() ==> is_power_of_two((#[trigger] parts[n]).align)
}

/// Merging may go on with a merged object in place of the objects it was
/// made of, where the split brings no padding of its own: the sections of
/// `first` merged with the output sections of `rest`, read as one object,
/// are the output sections of `first` and `rest` merged in one pass.
///
/// The split brings no padding where, for every key, the size that `first`
/// gives the output section is a multiple of the alignment that `rest` gives
/// it.
pub proof fn lemma_merge_regroups(first: Seq<SectionView>, rest: Seq<SectionView>)
    requires
        alignments_are_powers_of_two(rest),
        forall|key: SectionKey|
            extent(contributions(first, key)) % max_align(#[trigger] contributions(rest, key)) == 0,
    ensures
        merged_sections(first + as_sections(merged_sections(rest))) == merged_sections(
            first + rest,
        ),
{
    let keys = section_keys(rest);
    let made = as_sections(merged_sections(rest));
    lemma_section_keys_distinct(rest);
    assert forall|o: int| 0 <= o < made.len() implies key_of(#[trigger] made[o]) == keys[o] by {}
    lemma_distinct_sections(made, made.len() as int);
    assert(made.take(made.len() as int) =~= made);
    assert(section_keys(made) =~= keys);
    lemma_section_keys_of_concat(first, made);
    lemma_section_keys_of_concat(first, rest);
    let left = merged_sections(first + made);
    let right = merged_sections(first + rest);
    let all_keys = section_keys(first + rest);
    assert forall|o: int| 0 <= o < all_keys.len() implies left[o] == right[o] by {
        let key = all_keys[o];
        let before = contributions(first, key);
        let parts = contributions(rest, key);
        lemma_contributions_concat(first, made, key);
        lemma_contributions_concat(first, rest, key);
        assert forall|n: int| 0 <= n < parts.len() implies is_power_of_two(
            (#[trigger] parts[n]).align,
        ) by {
            lemma_contribution_is_section(rest, key, n);
        }
        lemma_parts_shift(before, parts);
        lemma_max_align_positive(parts);
        lemma_max_align_positive(before);
        if keys.contains(key) {
            let at = keys.index_of(key);
            assert(key_of(made[at]) == key);
            assert(contributions(made, key) == seq![made[at]]);
            assert(before + seq![made[at]] =~= before.push(made[at]));
            assert(before.push(made[at]).drop_last() =~= before);
            assert(align_up(extent(before), made[at].align) == extent(before));
            assert(content(before.push(made[at])) =~= content(before) + made[at].data) by {
                assert(zeros(0) =~= Seq::<u8>::empty());
            }
        } else {
            lemma_unknown_key_is_empty(rest, key);
            lemma_unknown_key_is_empty(made, key);
        }
    }
    assert(left =~= right);
}

/// Two runs of parts stand for one another where they give one size, one
/// alignment and, unless `kind` is uninitialized, the same bytes.
pub open spec fn same_section(kind: SectionKind, a: Seq<SectionView>, b: Seq<SectionView>) -> bool {
    &&& extent(a) == extent(b)
    &&& max_align(a) == max_align(b)
    &&& kind != SectionKind::Uninitialized ==> content(a) == content(b)
}

/// Runs that stand for one another still do when the same parts follow
/// both.
proof fn lemma_same_section_extends(
    kind: SectionKind,
    a: Seq<SectionView>,
    b: Seq<SectionView>,
    more: Seq<SectionView>,
)
    requires
        same_section(kind, a, b),
    ensures
        same_section(kind, a + more, b + more),
    decreases more.len(),
{
    if more.len() == 0 {
        assert(a + more =~= a);
        assert(b + more =~= b);
    } else {
        let front = more.drop_last();
        lemma_same_section_extends(kind, a, b, front);
        assert((a + more).drop_last() =~= a + front);
        assert((b + more).drop_last() =~= b + front);
        assert((a + more).last() == more.last());
        assert((b + more).last() == more.last());
    }
}

/// The parts that a key gives in two streams, one after the other, are its
/// parts in the first and then its parts in the second.
proof fn lemma_contributions_concat(a: Seq<SectionView>, b: Seq<SectionView>, key: SectionKey)
    ensures
        contributions(a + b, key) == contributions(a, key) + contributions(b, key),
    decreases b.len(),
{
    if b.len() == 0 {
        assert(a + b =~= a);
        assert(contributions(a, key) + contributions(b, key) =~= contributions(a, key));
    } else {
        lemma_contributions_concat(a, b.drop_last(), key);
        assert((a + b).drop_last() =~= a + b.drop_last());
        assert((a + b).last() == b.last());
        assert(contributions(a, key) + contributions(b.drop_last(), key).push(b.last())
            =~= (contributions(a, key) + contributions(b.drop_last(), key)).push(b.last()));
    }
}

/// Sections with pairwise different keys have their keys in their order,
/// and each is all that its key gives.
proof fn lemma_distinct_sections(sections: Seq<SectionView>, n: int)
    requires
        0 <= n <= sections.len(),
        forall|a: int, b: int|
            0 <= a < b < sections.len() ==> key_of(sections[a]) != key_of(sections[b]),
    ensures
        section_keys(sections.take(n)) == Seq::new(n as nat, |o: int| key_of(sections[o])),
        forall|o: int|
            0 <= o < n ==> contributions(sections.take(n), key_of(#[trigger] sections[o]))
                == seq![sections[o]],
    decreases n,
{
    let upto = sections.take(n);
    if n == 0 {
        assert(section_keys(upto) =~= Seq::new(0, |o: int| key_of(sections[o])));
    } else {
        let front = sections.take(n - 1);
        let last = sections[n - 1];
        lemma_distinct_sections(sections, n - 1);
        assert(upto =~= front.push(last));
        lemma_section_keys_push(front, last);
        assert(!section_keys(front).contains(key_of(last)));
        assert(section_keys(upto) =~= Seq::new(n as nat, |o: int| key_of(sections[o])));
        assert forall|o: int| 0 <= o < n implies contributions(upto, key_of(#[trigger] sections[o]))
            == seq![sections[o]] by {
            lemma_contributions_push(front, last, key_of(sections[o]));
            if o == n - 1 {
                lemma_unknown_key_is_empty(front, key_of(last));
                assert(Seq::<SectionView>::empty().push(last) =~= seq![last]);
            }
        }
    }
}

/// The alignment of an output section is at least 1.
proof fn lemma_max_align_positive(parts: Seq<SectionView>)
    ensures
        max_align(parts) >= 1,
    decreases parts.len(),
{
    if parts.len() > 0 {
        lemma_max_align_positive(parts.drop_last());
    }
}

/// The keys of `more` that `known` lacks, put behind `known` in the order
/// of `more`.
pub open spec fn with_new_keys(known: Seq<SectionKey>, more: Seq<SectionKey>) -> Seq<SectionKey>
    decreases more.len(),
{
    if more.len() == 0 {
        known
    } else {
        let before = with_new_keys(known, more.drop_last());
        if before.contains(more.last()) {
            before
        } else {
            before.push(more.last())
        }
    }
}

/// The extended keys are those known before and those added.
proof fn lemma_with_new_keys_holds_both(
    known: Seq<SectionKey>,
    more: Seq<SectionKey>,
    key: SectionKey,
)
    ensures
        with_new_keys(known, more).contains(key) <==> known.contains(key) || more.contains(key),
    decreases more.len(),
{
    if more.len() > 0 {
        let front = more.drop_last();
        lemma_with_new_keys_holds_both(known, front, key);
        let before = with_new_keys(known, front);
        if more.contains(key) {
            let n = choose|n: int| 0 <= n < more.len() && more[n] == key;
            if n < front.len() {
                assert(front[n] == key);
            }
        }
        if front.contains(key) {
            let n = choose|n: int| 0 <= n < front.len() && front[n] == key;
            assert(more[n] == key);
        }
        assert(more[more.len() - 1] == more.last());
        if before.contains(key) {
            let n = choose|n: int| 0 <= n < before.len() && before[n] == key;
            assert(with_new_keys(known, more)[n] == key);
        }
        if with_new_keys(known, more).contains(key) && !before.contains(key) {
            let n = choose|n: int|
                0 <= n < with_new_keys(known, more).len() && with_new_keys(known, more)[n] == key;
            if n < before.len() {
                assert(before[n] == key);
            }
        }
        if !before.contains(more.last()) {
            assert(with_new_keys(known, more)[before.len() as int] == more.last());
        }
    }
}

/// The keys of two streams, one after the other, are the keys of the first
/// and then the new keys of the second.
proof fn lemma_section_keys_of_concat(a: Seq<SectionView>, b: Seq<SectionView>)
    ensures
        section_keys(a + b) == with_new_keys(section_keys(a), section_keys(b)),
    decreases b.len(),
{
    if b.len() == 0 {
        assert(a + b =~= a);
    } else {
        let front = b.drop_last();
        let key = key_of(b.last());
        lemma_section_keys_of_concat(a, front);
        assert((a + b).drop_last() =~= a + front);
        assert((a + b).last() == b.last());
        lemma_with_new_keys_holds_both(section_keys(a), section_keys(front), key);
        if !section_keys(front).contains(key) {
            assert(section_keys(b).drop_last() =~= section_keys(front));
        }
    }
}

/// Of two powers of two, the lesser divides the greater.
proof fn lemma_power_of_two_divides(a: nat, b: nat)
    requires
        is_power_of_two(a),
        is_power_of_two(b),
        a <= b,
    ensures
        b % a == 0,
    decreases a,
{
    if a == 1 {
        assert(b % 1 == 0);
    } else {
        lemma_power_of_two_divides(a / 2, b / 2);
        let half = (a / 2) as int;
        vstd::arithmetic::div_mod::lemma_fundamental_div_mod((b / 2) as int, half);
        let k = (b / 2) as int / half;
        assert(b == a * k) by (nonlinear_arith)
            requires
                b == 2 * (b / 2),
                a == 2 * half,
                (b / 2) == half * k,
        ;
        assert(a * k == k * a) by (nonlinear_arith);
        vstd::arithmetic::div_mod::lemma_mod_multiples_basic(k, a as int);
    }
}

/// What divides a number divides its multiples.
proof fn lemma_divides_transitive(a: nat, m: nat, e: nat)
    requires
        a > 0,
        m > 0,
        m % a == 0,
        e % m == 0,
    ensures
        e % a == 0,
{
    vstd::arithmetic::div_mod::lemma_fundamental_div_mod(m as int, a as int);
    vstd::arithmetic::div_mod::lemma_fundamental_div_mod(e as int, m as int);
    let j = m as int / a as int;
    let k = e as int / m as int;
    assert(e == (j * k) * a) by (nonlinear_arith)
        requires
            m == a * j,
            e == m * k,
    ;
    vstd::arithmetic::div_mod::lemma_mod_multiples_basic(j * k, a as int);
}

/// Rounding up commutes with a shift by a multiple of the alignment.
proof fn lemma_align_up_shift(base: nat, offset: nat, align: nat)
    requires
        align > 0,
        base % align == 0,
    ensures
        align_up(base + offset, align) == base + align_up(offset, align),
{
    vstd::arithmetic::div_mod::lemma_fundamental_div_mod(base as int, align as int);
    let q = base as int / align as int;
    vstd::arithmetic::div_mod::lemma_mod_multiples_vanish(q, offset as int, align as int);
    assert(align * q + offset == base + offset);
}

/// The greatest of alignments that are powers of two is one of them, or 1.
proof fn lemma_max_align_is_power_of_two(parts: Seq<SectionView>)
    requires
        alignments_are_powers_of_two(parts),
    ensures
        is_power_of_two(max_align(parts)),
        forall|n: int| 0 <= n < parts.len() ==> (#[trigger] parts[n]).align <= max_align(parts),
    decreases parts.len(),
{
    if parts.len() > 0 {
        let front = parts.drop_last();
        assert forall|n: int| 0 <= n < front.len() implies is_power_of_two(
            (#[trigger] front[n]).align,
        ) by {
            assert(front[n] == parts[n]);
        }
        lemma_max_align_is_power_of_two(front);
        assert forall|n: int| 0 <= n < parts.len() implies (#[trigger] parts[n]).align <= max_align(
            parts,
        ) by {
            if n < front.len() {
                assert(front[n] == parts[n]);
            }
        }
    }
}

/// Parts that follow a run whose size their greatest alignment divides lie
/// as they would lie alone, only shifted by that size.
proof fn lemma_parts_shift(before: Seq<SectionView>, parts: Seq<SectionView>)
    requires
        alignments_are_powers_of_two(parts),
        extent(before) % max_align(parts) == 0,
    ensures
        extent(before + parts) == extent(before) + extent(parts),
        content(before + parts) == content(before) + content(parts),
        max_align(before + parts) == if max_align(parts) > max_align(before) {
            max_align(parts)
        } else {
            max_align(before)
        },
    decreases parts.len(),
{
    lemma_max_align_positive(before);
    if parts.len() == 0 {
        assert(before + parts =~= before);
        assert(content(before) + content(parts) =~= content(before));
    } else {
        let front = parts.drop_last();
        let last = parts.last();
        lemma_max_align_is_power_of_two(parts);
        assert forall|n: int| 0 <= n < front.len() implies is_power_of_two(
            (#[trigger] front[n]).align,
        ) by {
            assert(front[n] == parts[n]);
        }
        lemma_max_align_is_power_of_two(front);
        lemma_max_align_positive(front);
        lemma_max_align_positive(parts);
        assert(is_power_of_two(last.align));
        assert(last.align > 0);
        lemma_power_of_two_divides(max_align(front), max_align(parts));
        lemma_divides_transitive(max_align(front), max_align(parts), extent(before));
        lemma_parts_shift(before, front);
        assert((before + parts).drop_last() =~= before + front);
        assert((before + parts).last() == last);
        lemma_power_of_two_divides(last.align, max_align(parts));
        lemma_divides_transitive(last.align, max_align(parts), extent(before));
        lemma_align_up_shift(extent(before), extent(front), last.align);
        let gap = (align_up(extent(front), last.align) - extent(front)) as nat;
        assert(content(before + parts) =~= content(before) + (content(front) + zeros(gap)
            + last.data));
    }
}

/// Every part that a key gives is a section of the stream.
proof fn lemma_contribution_is_section(stream: Seq<SectionView>, key: SectionKey, n: int)
    requires
        0 <= n < contributions(stream, key).len(),
    ensures
        exists|m: int|
            0 <= m < stream.len() && #[trigger] stream[m] == contributions(stream, key)[n],
    decreases stream.len(),
{
    let front = stream.drop_last();
    if key_of(stream.last()) == key && n == contributions(front, key).len() {
        assert(stream[stream.len() - 1] == contributions(stream, key)[n]);
    } else {
        lemma_contribution_is_section(front, key, n);
        let m = choose|m: int|
            0 <= m < front.len() && #[trigger] front[m] == contributions(front, key)[n];
        assert(stream[m] == contributions(stream, key)[n]);
    }
}

/// The sections of objects after objects are the sections of the first and
/// then those of the rest.
pub proof fn lemma_all_sections_append(first: Seq<InputObjectView>, rest: Seq<InputObjectView>)
    ensures
        all_sections(first + rest) == all_sections(first) + all_sections(rest),
{
    assert(section_rows(first + rest) =~= section_rows(first) + section_rows(rest));
    lemma_concat_append(section_rows(first), section_rows(rest));
}

/// `object` has the output sections of `inputs` for its sections.
pub open spec fn is_merged_from(object: InputObjectView, inputs: Seq<InputObjectView>) -> bool {
    object.sections == as_sections(merged_sections(all_sections(inputs)))
}

/// Merging objects and then merging the result with more objects gives the
/// output sections of merging all of them in one pass.
pub proof fn lemma_merging_in_steps(
    first: Seq<InputObjectView>,
    rest: Seq<InputObjectView>,
    merged: InputObjectView,
)
    requires
        is_merged_from(merged, first),
    ensures
        merged_sections(all_sections(seq![merged] + rest)) == merged_sections(
            all_sections(first + rest),
        ),
{
    lemma_all_sections_append(seq![merged], rest);
    lemma_all_sections_append(first, rest);
    lemma_single_object(merged);
    lemma_merge_continues(all_sections(first), all_sections(rest));
}

/// Merging objects with the merged result of more objects gives the output
/// sections of merging all of them in one pass, where the split brings no
/// padding of its own: where, for every key, the size that `first` gives the
/// output section is a multiple of the alignment that `rest` gives it.
pub proof fn lemma_merging_regrouped(
    first: Seq<InputObjectView>,
    rest: Seq<InputObjectView>,
    merged: InputObjectView,
)
    requires
        is_merged_from(merged, rest),
        alignments_are_powers_of_two(all_sections(rest)),
        forall|key: SectionKey|
            extent(contributions(all_sections(first), key)) % max_align(
                #[trigger] contributions(all_sections(rest), key),
            ) == 0,
    ensures
        merged_sections(all_sections(first + seq![merged])) == merged_sections(
            all_sections(first + rest),
        ),
{
    lemma_all_sections_append(first, seq![merged]);
    lemma_all_sections_append(first, rest);
    lemma_single_object(merged);
    lemma_merge_regroups(all_sections(first), all_sections(rest));
}

/// The sections of one object alone are its sections.
proof fn lemma_single_object(object: InputObjectView)
    ensures
        all_sections(seq![object]) == object.sections,
{
    let rows = section_rows(seq![object]);
    assert(rows.drop_last() =~= Seq::<Seq<SectionView>>::empty());
    assert(rows.last() == object.sections);
    assert(concat(rows.drop_last()) =~= Seq::<SectionView>::empty());
    assert(concat(rows) =~= object.sections);
}

} // verus!
