//! The link itself: merge the sections, build the symbol table, rewrite the
//! relocations, and hand on all three or nothing.

use vstd::prelude::*;
use crate::layout::{
    OutputSectionView, all_sections, layout_fits, lemma_placement_map_fits, merged_sections,
    placement_map,
};
use crate::merge::{OutputSection, merge_sections, row_views};
use crate::model::{InputObject, InputObjectView, all_well_formed, views};
use crate::relocation::{OutputRelocationView, rewrite};
use crate::resolve::{
    LinkErrorView, SymbolTableView, all_symbols, lemma_symbol_id_in_range, resolve_symbols,
    symbol_base, symbol_rows, symbol_table,
};
use crate::rewrite::{OutputRelocation, rewrite_relocations};
use crate::stream::lemma_concat_index;
use crate::symbols::{GlobalSymbolTable, LinkError, build_symbol_table};

verus! {

/// What a link hands to whoever writes the object file: the output
/// sections, the symbols, and for output section `o` its relocations at
/// `relocations[o]`.
#[derive(Clone, Debug, PartialEq, Eq)]
pub struct LinkedObject {
    pub sections: Vec<OutputSection>,
    pub symbols: GlobalSymbolTable,
    pub relocations: Vec<Vec<OutputRelocation>>,
}

/// A linked object, as the contracts speak of it.
pub struct LinkedObjectView {
    pub sections: Seq<OutputSectionView>,
    pub symbols: SymbolTableView,
    pub relocations: Seq<Seq<OutputRelocationView>>,
}

impl View for LinkedObject {
    type V = LinkedObjectView;

    open spec fn view(&self) -> LinkedObjectView {
        LinkedObjectView {
            sections: views(self.sections@),
            symbols: self.symbols@,
            relocations: row_views(self.relocations@),
        }
    }
}

/// What linking `inputs` gives: the linked object, or the first thing that
/// stops the link. A name defined strongly twice stops it before any
/// relocation is looked at.
pub open spec fn linked(inputs: Seq<InputObjectView>) -> Result<LinkedObjectView, LinkErrorView> {
    let sections = merged_sections(all_sections(inputs));
    let placements = placement_map(inputs);
    match resolve_symbols(inputs, placements) {
        Err(error) => Err(error),
        Ok(table) => match rewrite(inputs, placements, table, sections.len()) {
            Err(error) => Err(error),
            Ok(relocations) => Ok(LinkedObjectView { sections, symbols: table, relocations }),
        },
    }
}

/// The symbol table of a set of objects says what every symbol became.
pub proof fn lemma_symbol_table_covers(
    inputs: Seq<InputObjectView>,
    placements: Seq<Seq<crate::layout::PlacementView>>,
)
    ensures
        crate::relocation::table_covers(inputs, symbol_table(inputs, placements)),
{
    let table = symbol_table(inputs, placements);
    let stream = all_symbols(inputs);
    assert forall|i: int, s: int|
        0 <= i < inputs.len() && 0 <= s < inputs[i].symbols.len() implies match (
    #[trigger] table.bindings[i][s]) {
        crate::resolve::SymbolIdView::Local(k) => k < table.locals.len(),
        crate::resolve::SymbolIdView::Global(g) => g < table.globals.len(),
    } by {
        lemma_concat_index(symbol_rows(inputs), i, s);
        lemma_symbol_id_in_range(stream, symbol_base(inputs, i) + s);
    }
}

/// Links `inputs`, in the order given, into one relocatable object.
///
/// The sections are merged by name and kind, the symbols resolved, and the
/// relocations rewritten against both. A name with two strong definitions
/// stops the link, and so does a relocation whose symbol no object defines;
/// then nothing of the linked object is handed on.
pub fn link(inputs: &Vec<InputObject>) -> (r: Result<LinkedObject, LinkError>)
    requires
        all_well_formed(views(inputs@)),
        layout_fits(all_sections(views(inputs@))),
    ensures
        match r {
            Ok(object) => linked(views(inputs@)) == Ok::<LinkedObjectView, LinkErrorView>(object@),
            Err(error) => linked(views(inputs@)) == Err::<LinkedObjectView, LinkErrorView>(error@),
        },
{
    let layout = merge_sections(inputs);
    proof {
        lemma_placement_map_fits(views(inputs@));
        lemma_symbol_table_covers(views(inputs@), row_views(layout.placements@));
    }
    let table = match build_symbol_table(inputs, &layout.placements) {
        Ok(table) => table,
        Err(error) => {
            return Err(error);
        },
    };
    let relocations = match rewrite_relocations(
        inputs,
        &layout.placements,
        &table,
        layout.sections.len(),
    ) {
        Ok(relocations) => relocations,
        Err(error) => {
            return Err(error);
        },
    };
    Ok(LinkedObject { sections: layout.sections, symbols: table, relocations })
}

} // verus!
