//! The symbol table builder: it copies local symbols, resolves each global
//! name to one definition, and stops at the first name defined strongly
//! twice.

use vstd::prelude::*;
use crate::layout::PlacementView;
use crate::merge::{Placement, PlacementMap, row_views};
use crate::model::{Binding, Definition, InputObject, all_well_formed, views};
use crate::resolve::{
    LinkErrorView, LocationView, Occurrence, ResolvedSymbolView, SymbolIdView, SymbolTableView,
    claim_strength, claims, defines_strongly, global_names, has_duplicate, is_duplicate,
    is_local, lemma_first_duplicate_is, lemma_global_names_complete,
    lemma_global_names_distinct, lemma_global_names_push, lemma_local_symbols_push,
    lemma_name_index, lemma_symbol_id_stable, lemma_winner_is, local_symbols, placements_cover,
    relocate, resolve_symbols, resolved, strength, symbol_id, symbol_rows, symbol_table, wins,
};
use crate::stream::{
    concat, front, lemma_concat_all, lemma_concat_index, lemma_concat_take,
    lemma_front_is_prefix, lemma_front_push, lemma_row_item_in_range, row_start,
};

verus! {

/// Where a symbol of the linked object lives: in an output section at an
/// offset, nowhere yet, or in common storage.
#[derive(Clone, Copy, Debug, PartialEq, Eq, Structural)]
pub enum Location {
    Defined { section: usize, offset: u64 },
    Undefined,
    Common,
}

/// A symbol of the linked object, with the place it was taken from: symbol
/// `index` of object `input`.
#[derive(Clone, Debug, PartialEq, Eq)]
pub struct ResolvedSymbol {
    pub name: String,
    pub binding: Binding,
    pub location: Location,
    pub input: usize,
    pub index: usize,
}

/// Names a symbol of the linked object: an index into the local symbols, or
/// one into the global symbols.
#[derive(Clone, Copy, Debug, PartialEq, Eq, Structural)]
pub enum SymbolId {
    Local(usize),
    Global(usize),
}

/// The symbols of the linked object. `bindings[i][s]` names the symbol that
/// symbol `s` of object `i` became.
#[derive(Clone, Debug, PartialEq, Eq)]
pub struct GlobalSymbolTable {
    pub locals: Vec<ResolvedSymbol>,
    pub globals: Vec<ResolvedSymbol>,
    pub bindings: Vec<Vec<SymbolId>>,
}

/// Why a link stopped. Objects are reported by their names.
#[derive(Clone, Debug, PartialEq, Eq)]
pub enum LinkError {
    DuplicateDefinition { symbol: String, first_input: String, second_input: String },
    UndefinedSymbol { symbol: String, input: String },
}

impl View for Location {
    type V = LocationView;

    open spec fn view(&self) -> LocationView {
        match *self {
            Location::Defined { section, offset } => LocationView::Defined {
                section: section as nat,
                offset: offset as nat,
            },
            Location::Undefined => LocationView::Undefined,
            Location::Common => LocationView::Common,
        }
    }
}

impl View for ResolvedSymbol {
    type V = ResolvedSymbolView;

    open spec fn view(&self) -> ResolvedSymbolView {
        ResolvedSymbolView {
            name: self.name@,
            binding: self.binding,
            location: self.location@,
            input: self.input as nat,
            index: self.index as nat,
        }
    }
}

impl View for SymbolId {
    type V = SymbolIdView;

    open spec fn view(&self) -> SymbolIdView {
        match *self {
            SymbolId::Local(k) => SymbolIdView::Local(k as nat),
            SymbolId::Global(g) => SymbolIdView::Global(g as nat),
        }
    }
}

impl View for GlobalSymbolTable {
    type V = SymbolTableView;

    open spec fn view(&self) -> SymbolTableView {
        SymbolTableView {
            locals: views(self.locals@),
            globals: views(self.globals@),
            bindings: row_views(self.bindings@),
        }
    }
}

impl View for LinkError {
    type V = LinkErrorView;

    open spec fn view(&self) -> LinkErrorView {
        match *self {
            LinkError::DuplicateDefinition { symbol, first_input, second_input } => {
                LinkErrorView::DuplicateDefinition {
                    symbol: symbol@,
                    first_input: first_input@,
                    second_input: second_input@,
                }
            },
            LinkError::UndefinedSymbol { symbol, input } => LinkErrorView::UndefinedSymbol {
                symbol: symbol@,
                input: input@,
            },
        }
    }
}

impl GlobalSymbolTable {
    /// Looks a name up among the global symbols: the index of the symbol that
    /// bears it, or `None` where no global symbol does.
    pub fn global_named(&self, name: &String) -> (r: Option<usize>)
        ensures
            match r {
                Some(g) => {
                    &&& g < self.globals.len()
                    &&& self.globals[g as int]@.name == name@
                    &&& forall|h: int| 0 <= h < g ==> (#[trigger] self.globals[h])@.name != name@
                },
                None => forall|h: int|
                    0 <= h < self.globals.len() ==> (#[trigger] self.globals[h])@.name != name@,
            },
    {
        let g = find_global(&self.globals, name);
        if g < self.globals.len() {
            Some(g)
        } else {
            None
        }
    }

    /// The symbol that `id` names, or `None` where the table has no such
    /// symbol.
    pub fn symbol(&self, id: SymbolId) -> (r: Option<&ResolvedSymbol>)
        ensures
            match id {
                SymbolId::Local(k) => r == if k < self.locals.len() {
                    Some(&self.locals[k as int])
                } else {
                    None
                },
                SymbolId::Global(g) => r == if g < self.globals.len() {
                    Some(&self.globals[g as int])
                } else {
                    None
                },
            },
    {
        match id {
            SymbolId::Local(k) => if k < self.locals.len() {
                Some(&self.locals[k])
            } else {
                None
            },
            SymbolId::Global(g) => if g < self.globals.len() {
                Some(&self.globals[g])
            } else {
                None
            },
        }
    }
}

/// Moves a definition to where its section was placed.
fn relocate_definition(definition: Definition, row: &Vec<Placement>) -> (r: Location)
    requires
        match definition {
            Definition::Defined { section, offset } => {
                &&& section < row.len()
                &&& row[section as int].offset + offset <= u64::MAX
            },
            _ => true,
        },
    ensures
        r@ == relocate(views(row@), definition@),
{
    match definition {
        Definition::Defined { section, offset } => {
            let placement = &row[section];
            Location::Defined { section: placement.output, offset: placement.offset + offset }
        },
        Definition::Undefined => Location::Undefined,
        Definition::Common => Location::Common,
    }
}

/// How strongly a symbol of the linked object claims its name.
fn strength_of(binding: Binding, location: Location) -> (r: u8)
    ensures
        r == claim_strength(binding, location@),
{
    match location {
        Location::Defined { .. } => if binding == Binding::Global {
            3
        } else {
            2
        },
        Location::Common => 1,
        Location::Undefined => 0,
    }
}

/// The index of the global symbol that bears `name`, or the number of global
/// symbols where none does.
fn find_global(globals: &Vec<ResolvedSymbol>, name: &String) -> (r: usize)
    ensures
        r <= globals.len(),
        r < globals.len() ==> globals[r as int]@.name == name@,
        forall|g: int| 0 <= g < r ==> (#[trigger] globals[g])@.name != name@,
{
    let mut g: usize = 0;
    while g < globals.len()
        invariant
            g <= globals.len(),
            forall|k: int| 0 <= k < g ==> (#[trigger] globals[k])@.name != name@,
        decreases globals.len() - g,
    {
        if globals[g].name == *name {
            return g;
        }
        g += 1;
    }
    g
}

/// What holds of the builder's state when it has met exactly `stream`:
/// global symbol `g` is the symbol at `origin[g]`, which wins its name.
spec fn resolved_so_far(
    locals: Seq<ResolvedSymbol>,
    globals: Seq<ResolvedSymbol>,
    origin: Seq<int>,
    stream: Seq<Occurrence>,
    placements: Seq<Seq<PlacementView>>,
) -> bool {
    &&& locals.len() == local_symbols(stream).len()
    &&& forall|k: int|
        0 <= k < locals.len() ==> (#[trigger] locals[k])@ == resolved(
            placements,
            local_symbols(stream)[k],
        )
    &&& globals.len() == global_names(stream).len()
    &&& origin.len() == globals.len()
    &&& forall|g: int|
        0 <= g < globals.len() ==> {
            &&& wins(stream, #[trigger] origin[g], global_names(stream)[g])
            &&& globals[g]@ == resolved(placements, stream[origin[g]])
        }
}

/// Builds the symbol table of the linked object from the symbols of
/// `inputs`, met object by object in the order given.
///
/// Local symbols are copied in order. Each name that is not local resolves to
/// its strongest claim, and among equals to the first: a strong definition
/// before a weak one, a weak one before a common symbol, that before a mere
/// reference. A name with two strong definitions stops the link.
pub fn build_symbol_table(inputs: &Vec<InputObject>, placements: &PlacementMap) -> (r: Result<
    GlobalSymbolTable,
    LinkError,
>)
    requires
        all_well_formed(views(inputs@)),
        placements_cover(views(inputs@), row_views(placements@)),
    ensures
        match r {
            Ok(table) => resolve_symbols(views(inputs@), row_views(placements@)) == Ok::<
                SymbolTableView,
                LinkErrorView,
            >(table@),
            Err(error) => resolve_symbols(views(inputs@), row_views(placements@)) == Err::<
                SymbolTableView,
                LinkErrorView,
            >(error@),
        },
{
    let ghost objects = views(inputs@);
    let ghost places = row_views(placements@);
    let ghost rows = symbol_rows(objects);
    let ghost whole = concat(rows);
    let ghost mut origin: Seq<int> = Seq::empty();
    let mut locals: Vec<ResolvedSymbol> = Vec::new();
    let mut globals: Vec<ResolvedSymbol> = Vec::new();
    let mut bindings: Vec<Vec<SymbolId>> = Vec::new();
    let mut i: usize = 0;
    proof {
        lemma_concat_all(rows);
        assert(rows.take(0) =~= Seq::empty());
    }
    while i < inputs.len()
        invariant
            i <= inputs.len(),
            objects == views(inputs@),
            places == row_views(placements@),
            rows == symbol_rows(objects),
            whole == concat(rows),
            all_well_formed(objects),
            placements_cover(objects, places),
            bindings.len() == i,
            resolved_so_far(locals@, globals@, origin, concat(rows.take(i as int)), places),
            forall|g: int| 0 <= g < globals.len() ==> (#[trigger] globals[g]).input < inputs.len(),
            forall|k: int| 0 <= k < row_start(rows, i as int) ==> !is_duplicate(whole, k),
            forall|a: int| 0 <= a < i ==> (#[trigger] bindings[a]).len() == rows[a].len(),
            forall|a: int, b: int|
                0 <= a < i && 0 <= b < rows[a].len() ==> (#[trigger] bindings[a][b])@ == symbol_id(
                    concat(rows.take(i as int)),
                    row_start(rows, a) + b,
                ),
        decreases inputs.len() - i,
    {
        let object = &inputs[i];
        let row_placements = &placements[i];
        let mut row: Vec<SymbolId> = Vec::new();
        let mut s: usize = 0;
        proof {
            lemma_concat_take(rows, i as int);
            assert(views(row_placements@) == places[i as int]);
        }
        while s < object.symbols.len()
            invariant
                i < inputs.len(),
                *object == inputs[i as int],
                *row_placements == placements[i as int],
                objects == views(inputs@),
                places == row_views(placements@),
                rows == symbol_rows(objects),
                whole == concat(rows),
                all_well_formed(objects),
                placements_cover(objects, places),
                s <= object.symbols.len(),
                row.len() == s,
                bindings.len() == i,
                resolved_so_far(locals@, globals@, origin, front(rows, i as int, s as int), places),
                forall|g: int|
                    0 <= g < globals.len() ==> (#[trigger] globals[g]).input < inputs.len(),
                forall|k: int| 0 <= k < row_start(rows, i as int) + s ==> !is_duplicate(whole, k),
                forall|a: int| 0 <= a < i ==> (#[trigger] bindings[a]).len() == rows[a].len(),
                forall|a: int, b: int|
                    0 <= a < i && 0 <= b < rows[a].len() ==> (#[trigger] bindings[a][b])@
                        == symbol_id(front(rows, i as int, s as int), row_start(rows, a) + b),
                forall|b: int|
                    0 <= b < s ==> (#[trigger] row[b])@ == symbol_id(
                        front(rows, i as int, s as int),
                        row_start(rows, i as int) + b,
                    ),
            decreases object.symbols.len() - s,
        {
            let symbol = &object.symbols[s];
            let ghost stream = front(rows, i as int, s as int);
            let ghost next = front(rows, i as int, s + 1);
            let ghost n = stream.len() as int;
            let ghost occurrence = rows[i as int][s as int];
            let ghost name = symbol@.name;
            proof {
                assert(objects[i as int].symbols[s as int] == symbol@);
                assert(occurrence.input == i && occurrence.index == s);
                assert(occurrence.symbol == symbol@);
                lemma_front_push(rows, i as int, s as int);
                lemma_front_is_prefix(rows, i as int, s + 1);
                lemma_concat_index(rows, i as int, s as int);
                lemma_local_symbols_push(stream, occurrence);
                lemma_global_names_push(stream, occurrence);
                lemma_global_names_distinct(stream);
                lemma_global_names_distinct(next);
                lemma_global_names_complete(stream, name);
                assert(objects[i as int].well_formed());
                assert(objects[i as int].symbol_in_range(s as int));
                assert(next.take(n) =~= stream);
            }
            let location = relocate_definition(symbol.definition, row_placements);
            assert(location@ == resolved(places, occurrence).location);
            let ghost before = globals@;
            let ghost old_origin = origin;
            if symbol.binding == Binding::Local {
                row.push(SymbolId::Local(locals.len()));
                locals.push(
                    ResolvedSymbol {
                        name: symbol.name.clone(),
                        binding: symbol.binding,
                        location,
                        input: i,
                        index: s,
                    },
                );
            } else {
                let g = find_global(&globals, &symbol.name);
                if g == globals.len() {
                    row.push(SymbolId::Global(g));
                    globals.push(
                        ResolvedSymbol {
                            name: symbol.name.clone(),
                            binding: symbol.binding,
                            location,
                            input: i,
                            index: s,
                        },
                    );
                    proof {
                        origin = origin.push(n);
                        let names = global_names(stream);
                        assert forall|k: int| 0 <= k < names.len() implies names[k] != name by {
                            assert(before[k]@.name == stream[old_origin[k]].symbol.name);
                        }
                        assert forall|m: int| #[trigger] claims(next, m, name) implies m == n by {
                            if m < n {
                                assert(claims(stream, m, name));
                            }
                        }
                        assert(claims(next, n, name));
                        assert(wins(next, n, name));
                        lemma_name_index(global_names(next), g as int);
                    }
                } else {
                    let current = &globals[g];
                    let ghost w = origin[g as int];
                    proof {
                        assert(wins(stream, w, global_names(stream)[g as int]));
                        assert(current@ == resolved(places, stream[w]));
                        assert(global_names(stream)[g as int] == name);
                        assert(claims(stream, w, name));
                    }
                    let held = strength_of(current.binding, current.location);
                    let offered = strength_of(symbol.binding, location);
                    assert(held == strength(stream[w].symbol));
                    assert(offered == strength(symbol@));
                    if held == 3 && offered == 3 {
                        proof {
                            assert(whole[n] == occurrence);
                            assert(whole[w] == stream[w]);
                            assert(defines_strongly(whole, w, name));
                            assert(is_duplicate(whole, n));
                            lemma_first_duplicate_is(whole, w, n);
                        }
                        return Err(
                            LinkError::DuplicateDefinition {
                                symbol: symbol.name.clone(),
                                first_input: inputs[current.input].name.clone(),
                                second_input: object.name.clone(),
                            },
                        );
                    }
                    if offered > held {
                        globals.set(
                            g,
                            ResolvedSymbol {
                                name: symbol.name.clone(),
                                binding: symbol.binding,
                                location,
                                input: i,
                                index: s,
                            },
                        );
                        proof {
                            origin = origin.update(g as int, n);
                            assert forall|m: int| #[trigger] claims(next, m, name) implies strength(
                                next[m].symbol,
                            ) < strength(next[n].symbol) || (strength(next[m].symbol) == strength(
                                next[n].symbol,
                            ) && n <= m) by {
                                if m < n {
                                    assert(claims(stream, m, name));
                                }
                            }
                            assert(wins(next, n, name));
                        }
                    } else {
                        proof {
                            assert forall|m: int| #[trigger] claims(next, m, name) implies strength(
                                next[m].symbol,
                            ) < strength(next[w].symbol) || (strength(next[m].symbol) == strength(
                                next[w].symbol,
                            ) && w <= m) by {
                                if m < n {
                                    assert(claims(stream, m, name));
                                }
                            }
                            assert(wins(next, w, name));
                        }
                    }
                    row.push(SymbolId::Global(g));
                    proof {
                        lemma_name_index(global_names(next), g as int);
                    }
                }
            }
            proof {
                // The symbol just met repeats no strong definition.
                if is_duplicate(whole, n) {
                    let m = choose|m: int|
                        0 <= m < n && #[trigger] defines_strongly(whole, m, name);
                    assert(whole[m] == stream[m]);
                    assert(claims(stream, m, name));
                    let g = global_names(stream).index_of(name);
                    assert(wins(stream, old_origin[g], global_names(stream)[g]));
                    assert(false);
                }
                // Every other name keeps the symbol it resolved to.
                assert forall|g: int| 0 <= g < globals.len() implies {
                    &&& wins(next, #[trigger] origin[g], global_names(next)[g])
                    &&& globals[g]@ == resolved(places, next[origin[g]])
                } by {
                    let other = global_names(next)[g];
                    if other != name || is_local(symbol@) {
                        assert(g < before.len());
                        assert(origin[g] == old_origin[g]);
                        assert(globals[g] == before[g]);
                        assert(wins(stream, old_origin[g], other));
                        assert forall|m: int| #[trigger] claims(next, m, other) implies strength(
                            next[m].symbol,
                        ) < strength(next[origin[g]].symbol) || (strength(next[m].symbol)
                            == strength(next[origin[g]].symbol) && origin[g] <= m) by {
                            if m < n {
                                assert(claims(stream, m, other));
                            }
                        }
                    } else {
                        lemma_global_names_complete(next, name);
                        assert(claims(next, n, name));
                        lemma_name_index(global_names(next), g);
                    }
                }
                assert forall|a: int, b: int| 0 <= a < i && 0 <= b < rows[a].len() implies (
                #[trigger] bindings[a][b])@ == symbol_id(next, row_start(rows, a) + b) by {
                    lemma_row_item_in_range(rows, a, i as int, b);
                    lemma_symbol_id_stable(stream, occurrence, row_start(rows, a) + b);
                }
                assert forall|b: int| 0 <= b < s + 1 implies (#[trigger] row[b])@ == symbol_id(
                    next,
                    row_start(rows, i as int) + b,
                ) by {
                    if b < s {
                        lemma_symbol_id_stable(stream, occurrence, row_start(rows, i as int) + b);
                    }
                }
            }
            s += 1;
        }
        bindings.push(row);
        i += 1;
    }
    let table = GlobalSymbolTable { locals, globals, bindings };
    proof {
        assert forall|g: int| 0 <= g < table.globals.len() implies #[trigger] table@.globals[g]
            == symbol_table(objects, places).globals[g] by {
            lemma_winner_is(whole, origin[g], global_names(whole)[g]);
        }
        assert(table@.globals =~= symbol_table(objects, places).globals);
        assert(table@.locals =~= symbol_table(objects, places).locals);
        assert forall|a: int| 0 <= a < table.bindings.len() implies #[trigger] table@.bindings[a]
            == symbol_table(objects, places).bindings[a] by {
            assert(table@.bindings[a] =~= symbol_table(objects, places).bindings[a]);
        }
        assert(table@.bindings =~= symbol_table(objects, places).bindings);
        assert(!has_duplicate(whole)) by {
            if has_duplicate(whole) {
                let k = choose|k: int| is_duplicate(whole, k);
                assert(false);
            }
        }
    }
    Ok(table)
}

} // verus!
