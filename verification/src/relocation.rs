//! What rewriting relocations means: where each relocation of each object
//! goes in the linked object, what it then says, and when it has no target.

use vstd::prelude::*;
use crate::layout::PlacementView;
use crate::model::{InputObjectView, RelocationView};
use crate::resolve::{LinkErrorView, ResolvedSymbolView, SymbolIdView, SymbolTableView};
use crate::stream::concat;

verus! {

/// A relocation together with the place where a link met it: in section
/// `section` of object `input`.
pub struct Site {
    pub input: nat,
    pub section: nat,
    pub relocation: RelocationView,
}

/// A relocation of the linked object, as the contracts speak of it.
pub struct OutputRelocationView {
    pub offset: nat,
    pub symbol: SymbolIdView,
    pub kind: u32,
    pub addend: i64,
}

/// The relocations of section `j` of object `i`, each with its place.
pub open spec fn section_sites(object: InputObjectView, i: int, j: int) -> Seq<Site> {
    Seq::new(
        object.sections[j].relocations.len(),
        |r: int|
            Site {
                input: i as nat,
                section: j as nat,
                relocation: object.sections[j].relocations[r],
            },
    )
}

/// The relocations of object `i`, one row for each of its sections.
pub open spec fn site_rows(object: InputObjectView, i: int) -> Seq<Seq<Site>> {
    Seq::new(object.sections.len(), |j: int| section_sites(object, i, j))
}

/// The relocations of object `i`, section by section.
pub open spec fn object_sites(object: InputObjectView, i: int) -> Seq<Site> {
    concat(site_rows(object, i))
}

/// The relocations of the objects, one row for each object.
pub open spec fn object_rows(inputs: Seq<InputObjectView>) -> Seq<Seq<Site>> {
    Seq::new(inputs.len(), |i: int| object_sites(inputs[i], i))
}

/// The relocations of all objects, in the order in which a link meets them:
/// object by object, section by section, and within a section in its order.
pub open spec fn all_relocations(inputs: Seq<InputObjectView>) -> Seq<Site> {
    concat(object_rows(inputs))
}

/// The symbol of the linked object that `id` names.
pub open spec fn lookup(table: SymbolTableView, id: SymbolIdView) -> ResolvedSymbolView {
    match id {
        SymbolIdView::Local(k) => table.locals[k as int],
        SymbolIdView::Global(g) => table.globals[g as int],
    }
}

/// What the symbol that the relocation refers to became.
pub open spec fn target(table: SymbolTableView, site: Site) -> SymbolIdView {
    table.bindings[site.input as int][site.relocation.symbol as int]
}

/// The relocation refers to a symbol that no object defines.
pub open spec fn is_unresolved(table: SymbolTableView, site: Site) -> bool {
    lookup(table, target(table, site)).location is Undefined
}

/// The output section that receives the relocation.
pub open spec fn destination(placements: Seq<Seq<PlacementView>>, site: Site) -> nat {
    placements[site.input as int][site.section as int].output
}

/// The relocation as the linked object has it: moved by the offset at which
/// its section was placed, referring to what its symbol became, and with its
/// kind and addend unchanged.
pub open spec fn rewritten(
    placements: Seq<Seq<PlacementView>>,
    table: SymbolTableView,
    site: Site,
) -> OutputRelocationView {
    OutputRelocationView {
        offset: placements[site.input as int][site.section as int].offset + site.relocation.offset,
        symbol: target(table, site),
        kind: site.relocation.kind,
        addend: site.relocation.addend,
    }
}

/// The relocations of output section `o`: those of `stream` that it
/// receives, rewritten, in the order of `stream`.
pub open spec fn relocations_of(
    stream: Seq<Site>,
    placements: Seq<Seq<PlacementView>>,
    table: SymbolTableView,
    o: nat,
) -> Seq<OutputRelocationView>
    decreases stream.len(),
{
    if stream.len() == 0 {
        Seq::empty()
    } else if destination(placements, stream.last()) == o {
        relocations_of(stream.drop_last(), placements, table, o).push(
            rewritten(placements, table, stream.last()),
        )
    } else {
        relocations_of(stream.drop_last(), placements, table, o)
    }
}

/// Some relocation of `stream` has no target.
pub open spec fn has_unresolved(stream: Seq<Site>, table: SymbolTableView) -> bool {
    exists|n: int| 0 <= n < stream.len() && is_unresolved(table, #[trigger] stream[n])
}

/// Relocation `n` is the first of `stream` that has no target.
pub open spec fn is_first_unresolved(stream: Seq<Site>, table: SymbolTableView, n: int) -> bool {
    &&& 0 <= n < stream.len()
    &&& is_unresolved(table, stream[n])
    &&& forall|k: int| 0 <= k < n ==> !is_unresolved(table, #[trigger] stream[k])
}

/// The index in `stream` of the first relocation without a target.
pub open spec fn first_unresolved(stream: Seq<Site>, table: SymbolTableView) -> int {
    choose|n: int| is_first_unresolved(stream, table, n)
}

/// What a link reports of the first relocation without a target: the name
/// of the symbol it refers to, and the object that holds it.
pub open spec fn undefined_error(
    inputs: Seq<InputObjectView>,
    table: SymbolTableView,
) -> LinkErrorView {
    let stream = all_relocations(inputs);
    let site = stream[first_unresolved(stream, table)];
    LinkErrorView::UndefinedSymbol {
        symbol: inputs[site.input as int].symbols[site.relocation.symbol as int].name,
        input: inputs[site.input as int].name,
    }
}

/// What rewriting gives: for each of the `count` output sections its
/// relocations, or the first relocation without a target.
pub open spec fn rewrite(
    inputs: Seq<InputObjectView>,
    placements: Seq<Seq<PlacementView>>,
    table: SymbolTableView,
    count: nat,
) -> Result<Seq<Seq<OutputRelocationView>>, LinkErrorView> {
    let stream = all_relocations(inputs);
    if has_unresolved(stream, table) {
        Err(undefined_error(inputs, table))
    } else {
        Ok(Seq::new(count, |o: int| relocations_of(stream, placements, table, o as nat)))
    }
}

/// Every input section is placed in one of the `count` output sections.
pub open spec fn placements_within(placements: Seq<Seq<PlacementView>>, count: nat) -> bool {
    forall|i: int, j: int|
        0 <= i < placements.len() && 0 <= j < placements[i].len() ==> (
        #[trigger] placements[i][j]).output < count
}

/// The table says what each symbol of each object became, and each of its
/// answers names a symbol that the table has.
pub open spec fn table_covers(inputs: Seq<InputObjectView>, table: SymbolTableView) -> bool {
    &&& table.bindings.len() == inputs.len()
    &&& forall|i: int|
        0 <= i < inputs.len() ==> (#[trigger] table.bindings[i]).len() == inputs[i].symbols.len()
    &&& forall|i: int, s: int|
        0 <= i < inputs.len() && 0 <= s < inputs[i].symbols.len() ==> match (
        #[trigger] table.bindings[i][s]) {
            SymbolIdView::Local(k) => k < table.locals.len(),
            SymbolIdView::Global(g) => g < table.globals.len(),
        }
}

/// One more relocation adds to the list of the output section that
/// receives it, and to no other.
pub proof fn lemma_relocations_of_push(
    stream: Seq<Site>,
    site: Site,
    placements: Seq<Seq<PlacementView>>,
    table: SymbolTableView,
    o: nat,
)
    ensures
        relocations_of(stream.push(site), placements, table, o) == if destination(placements, site)
            == o {
            relocations_of(stream, placements, table, o).push(rewritten(placements, table, site))
        } else {
            relocations_of(stream, placements, table, o)
        },
{
    assert(stream.push(site).drop_last() =~= stream);
}

/// The first relocation without a target is the one that a link reports.
pub proof fn lemma_first_unresolved_is(stream: Seq<Site>, table: SymbolTableView, n: int)
    requires
        is_first_unresolved(stream, table, n),
    ensures
        has_unresolved(stream, table),
        first_unresolved(stream, table) == n,
{
    let m = first_unresolved(stream, table);
    assert(is_first_unresolved(stream, table, m));
}

} // verus!
