//! The relocation rewriter: it moves every relocation of every object to
//! where its section was placed, points it at what its symbol became, and
//! stops at the first relocation whose symbol no object defines.

use vstd::prelude::*;
use crate::merge::{PlacementMap, row_views};
use crate::model::{InputObject, all_well_formed, views};
use crate::relocation::{
    OutputRelocationView, Site, has_unresolved, is_first_unresolved, is_unresolved,
    lemma_first_unresolved_is, lemma_relocations_of_push, object_rows, placements_within,
    relocations_of, rewrite, rewritten, site_rows, table_covers,
};
use crate::resolve::{LinkErrorView, placements_cover};
use crate::stream::{
    concat, front, lemma_concat_all, lemma_concat_take, lemma_front_is_prefix, lemma_front_push,
    row_start,
};
use crate::symbols::{GlobalSymbolTable, LinkError, Location, SymbolId};

verus! {

/// A relocation of the linked object: `offset` lies in the output section
/// that holds it, `symbol` names a symbol of the linked object, and `kind`
/// and `addend` are those of the relocation it was made from.
#[derive(Clone, Copy, Debug, PartialEq, Eq, Structural)]
pub struct OutputRelocation {
    pub offset: u64,
    pub symbol: SymbolId,
    pub kind: u32,
    pub addend: i64,
}

impl View for OutputRelocation {
    type V = OutputRelocationView;

    open spec fn view(&self) -> OutputRelocationView {
        OutputRelocationView {
            offset: self.offset as nat,
            symbol: self.symbol@,
            kind: self.kind,
            addend: self.addend,
        }
    }
}

/// `count` empty lists.
fn empty_lists(count: usize) -> (r: Vec<Vec<OutputRelocation>>)
    ensures
        r.len() == count,
        forall|o: int| 0 <= o < count ==> (#[trigger] r[o]).len() == 0,
{
    let mut lists: Vec<Vec<OutputRelocation>> = Vec::new();
    while lists.len() < count
        invariant
            lists.len() <= count,
            forall|o: int| 0 <= o < lists.len() ==> (#[trigger] lists[o]).len() == 0,
        decreases count - lists.len(),
    {
        lists.push(Vec::new());
    }
    lists
}

/// Rewrites the relocations of `inputs` for the linked object, met object by
/// object, section by section, in the order given.
///
/// Each relocation goes to the output section of its own section, at that
/// section's offset plus its own. It refers to what `table` says its symbol
/// became, and keeps its kind and addend. The first relocation whose symbol
/// is undefined in `table` stops the link.
pub fn rewrite_relocations(
    inputs: &Vec<InputObject>,
    placements: &PlacementMap,
    table: &GlobalSymbolTable,
    output_count: usize,
) -> (r: Result<Vec<Vec<OutputRelocation>>, LinkError>)
    requires
        all_well_formed(views(inputs@)),
        placements_cover(views(inputs@), row_views(placements@)),
        placements_within(row_views(placements@), output_count as nat),
        table_covers(views(inputs@), table@),
    ensures
        match r {
            Ok(lists) => rewrite(
                views(inputs@),
                row_views(placements@),
                table@,
                output_count as nat,
            ) == Ok::<Seq<Seq<OutputRelocationView>>, LinkErrorView>(row_views(lists@)),
            Err(error) => rewrite(
                views(inputs@),
                row_views(placements@),
                table@,
                output_count as nat,
            ) == Err::<Seq<Seq<OutputRelocationView>>, LinkErrorView>(error@),
        },
{
    let ghost objects = views(inputs@);
    let ghost places = row_views(placements@);
    let ghost rows = object_rows(objects);
    let ghost whole = concat(rows);
    let mut lists = empty_lists(output_count);
    let mut i: usize = 0;
    proof {
        lemma_concat_all(rows);
        assert(rows.take(0) =~= Seq::empty());
    }
    while i < inputs.len()
        invariant
            i <= inputs.len(),
            objects == views(inputs@),
            places == row_views(placements@),
            rows == object_rows(objects),
            whole == concat(rows),
            all_well_formed(objects),
            placements_cover(objects, places),
            placements_within(places, output_count as nat),
            table_covers(objects, table@),
            lists.len() == output_count,
            forall|o: int|
                0 <= o < output_count ==> views((#[trigger] lists[o])@) == relocations_of(
                    concat(rows.take(i as int)),
                    places,
                    table@,
                    o as nat,
                ),
            forall|k: int|
                0 <= k < row_start(rows, i as int) ==> !is_unresolved(table@, #[trigger] whole[k]),
        decreases inputs.len() - i,
    {
        let object = &inputs[i];
        let ghost inner = site_rows(objects[i as int], i as int);
        let mut j: usize = 0;
        proof {
            lemma_concat_take(rows, i as int);
            lemma_concat_all(inner);
            assert(inner.take(0) =~= Seq::empty());
            assert(concat(rows.take(i as int)) + concat(inner.take(0)) =~= concat(
                rows.take(i as int),
            ));
        }
        while j < object.sections.len()
            invariant
                i < inputs.len(),
                *object == inputs[i as int],
                objects == views(inputs@),
                places == row_views(placements@),
                rows == object_rows(objects),
                whole == concat(rows),
                inner == site_rows(objects[i as int], i as int),
                all_well_formed(objects),
                placements_cover(objects, places),
                placements_within(places, output_count as nat),
                table_covers(objects, table@),
                j <= object.sections.len(),
                lists.len() == output_count,
                forall|o: int|
                    0 <= o < output_count ==> views((#[trigger] lists[o])@) == relocations_of(
                        concat(rows.take(i as int)) + concat(inner.take(j as int)),
                        places,
                        table@,
                        o as nat,
                    ),
                forall|k: int|
                    0 <= k < row_start(rows, i as int) + row_start(inner, j as int)
                        ==> !is_unresolved(table@, #[trigger] whole[k]),
            decreases object.sections.len() - j,
        {
            let section = &object.sections[j];
            assert(places[i as int].len() == objects[i as int].sections.len());
            let placement = &placements[i][j];
            let mut r: usize = 0;
            proof {
                lemma_concat_take(inner, j as int);
                assert(concat(rows.take(i as int)) + front(inner, j as int, 0) =~= concat(
                    rows.take(i as int),
                ) + concat(inner.take(j as int)));
                assert(places[i as int][j as int] == placement@);
            }
            while r < section.relocations.len()
                invariant
                    i < inputs.len(),
                    j < object.sections.len(),
                    *object == inputs[i as int],
                    *section == object.sections[j as int],
                    *placement == placements[i as int][j as int],
                    objects == views(inputs@),
                    places == row_views(placements@),
                    rows == object_rows(objects),
                    whole == concat(rows),
                    inner == site_rows(objects[i as int], i as int),
                    all_well_formed(objects),
                    placements_cover(objects, places),
                    placements_within(places, output_count as nat),
                    table_covers(objects, table@),
                    r <= section.relocations.len(),
                    lists.len() == output_count,
                    forall|o: int|
                        0 <= o < output_count ==> views((#[trigger] lists[o])@) == relocations_of(
                            concat(rows.take(i as int)) + front(inner, j as int, r as int),
                            places,
                            table@,
                            o as nat,
                        ),
                    forall|k: int|
                        0 <= k < row_start(rows, i as int) + row_start(inner, j as int) + r
                            ==> !is_unresolved(table@, #[trigger] whole[k]),
                decreases section.relocations.len() - r,
            {
                let relocation = &section.relocations[r];
                let ghost met = concat(rows.take(i as int)) + front(inner, j as int, r as int);
                let ghost site = inner[j as int][r as int];
                let ghost n = met.len() as int;
                proof {
                    assert(objects[i as int].sections[j as int] == section@);
                    assert(section@.relocations[r as int] == relocation@);
                    assert(site == Site {
                        input: i as nat,
                        section: j as nat,
                        relocation: relocation@,
                    });
                    assert(objects[i as int].well_formed());
                    assert(objects[i as int].relocation_in_range(j as int, r as int));
                    lemma_front_push(inner, j as int, r as int);
                    lemma_front_is_prefix(inner, j as int, r + 1);
                    let taken = row_start(inner, j as int) + r + 1;
                    assert(rows[i as int] == concat(inner));
                    lemma_front_is_prefix(rows, i as int, taken);
                    assert(front(rows, i as int, taken) == met.push(site)) by {
                        assert(concat(rows.take(i as int)) + front(inner, j as int, r + 1)
                            =~= met.push(site));
                    }
                    assert(n == row_start(rows, i as int) + row_start(inner, j as int) + r) by {
                        lemma_front_push(inner, j as int, r as int);
                    }
                    assert(whole.take(row_start(rows, i as int) + taken)[n] == met.push(site)[n]);
                    assert(whole[n] == site);
                    assert(n == row_start(rows, i as int) + row_start(inner, j as int) + r);
                }
                let id = table.bindings[i][relocation.symbol];
                let location = match id {
                    SymbolId::Local(k) => table.locals[k].location,
                    SymbolId::Global(g) => table.globals[g].location,
                };
                match location {
                    Location::Undefined => {
                        proof {
                            assert(is_unresolved(table@, site));
                            assert(is_first_unresolved(whole, table@, n));
                            lemma_first_unresolved_is(whole, table@, n);
                        }
                        return Err(
                            LinkError::UndefinedSymbol {
                                symbol: object.symbols[relocation.symbol].name.clone(),
                                input: object.name.clone(),
                            },
                        );
                    },
                    _ => {},
                }
                let ghost before = lists@;
                let destination = placement.output;
                lists[destination].push(
                    OutputRelocation {
                        offset: placement.offset + relocation.offset,
                        symbol: id,
                        kind: relocation.kind,
                        addend: relocation.addend,
                    },
                );
                proof {
                    assert forall|o: int| 0 <= o < output_count implies views(
                        (#[trigger] lists[o])@,
                    ) == relocations_of(met.push(site), places, table@, o as nat) by {
                        lemma_relocations_of_push(met, site, places, table@, o as nat);
                        if o == destination {
                            assert(views(lists[o]@) =~= views(before[o]@).push(
                                rewritten(places, table@, site),
                            ));
                        } else {
                            assert(lists[o] == before[o]);
                        }
                    }
                    assert(met.push(site) =~= concat(rows.take(i as int)) + front(
                        inner,
                        j as int,
                        r + 1,
                    ));
                }
                r += 1;
            }
            proof {
                assert(front(inner, j as int, r as int) == concat(inner.take(j + 1)));
            }
            j += 1;
        }
        proof {
            assert(concat(inner.take(j as int)) == rows[i as int]);
        }
        i += 1;
    }
    proof {
        assert(!has_unresolved(whole, table@));
        assert(row_views(lists@) =~= Seq::new(
            output_count as nat,
            |o: int| relocations_of(whole, places, table@, o as nat),
        ));
    }
    Ok(lists)
}

} // verus!
