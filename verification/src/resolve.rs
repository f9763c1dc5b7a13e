//! What resolving symbols means: which symbols the linked object has, which
//! definition each global name resolves to, and when two definitions clash.

use vstd::prelude::*;
use crate::layout::PlacementView;
use crate::model::{Binding, DefinitionView, InputObjectView, SymbolView};
use crate::stream::{concat, row_start};

verus! {

/// A symbol together with the place where a link met it: symbol `index` of
/// object `input`.
pub struct Occurrence {
    pub input: nat,
    pub index: nat,
    pub symbol: SymbolView,
}

/// Where a symbol of the linked object lives.
pub enum LocationView {
    Defined { section: nat, offset: nat },
    Undefined,
    Common,
}

/// A symbol of the linked object, as the contracts speak of it.
pub struct ResolvedSymbolView {
    pub name: Seq<char>,
    pub binding: Binding,
    pub location: LocationView,
    pub input: nat,
    pub index: nat,
}

/// A symbol of the linked object: local number `0`, or global number `0`.
pub enum SymbolIdView {
    Local(nat),
    Global(nat),
}

/// A symbol table, as the contracts speak of it.
pub struct SymbolTableView {
    pub locals: Seq<ResolvedSymbolView>,
    pub globals: Seq<ResolvedSymbolView>,
    pub bindings: Seq<Seq<SymbolIdView>>,
}

/// Why a link stopped, as the contracts speak of it.
pub enum LinkErrorView {
    DuplicateDefinition { symbol: Seq<char>, first_input: Seq<char>, second_input: Seq<char> },
    UndefinedSymbol { symbol: Seq<char>, input: Seq<char> },
}

/// The symbols of object `i`, each with its place.
pub open spec fn occurrences_of(object: InputObjectView, i: int) -> Seq<Occurrence> {
    Seq::new(
        object.symbols.len(),
        |s: int| Occurrence { input: i as nat, index: s as nat, symbol: object.symbols[s] },
    )
}

/// Symbol `s` of object `i`, with its place.
pub open spec fn occurrence_at(inputs: Seq<InputObjectView>, i: int, s: int) -> Occurrence {
    occurrences_of(inputs[i], i)[s]
}

/// The symbols of the objects, one row for each object.
pub open spec fn symbol_rows(inputs: Seq<InputObjectView>) -> Seq<Seq<Occurrence>> {
    Seq::new(inputs.len(), |i: int| occurrences_of(inputs[i], i))
}

/// The symbols of all objects, in the order in which a link meets them.
pub open spec fn all_symbols(inputs: Seq<InputObjectView>) -> Seq<Occurrence> {
    concat(symbol_rows(inputs))
}

/// How many symbols the objects before object `i` have.
pub open spec fn symbol_base(inputs: Seq<InputObjectView>, i: int) -> int {
    row_start(symbol_rows(inputs), i)
}

/// Where a definition lives once the sections of its object have been
/// placed as `row` says: in the section's output section, at the section's
/// offset plus its own.
pub open spec fn relocate(row: Seq<PlacementView>, definition: DefinitionView) -> LocationView {
    match definition {
        DefinitionView::Defined { section, offset } => {
            let placement = row[section as int];
            LocationView::Defined { section: placement.output, offset: placement.offset + offset }
        },
        DefinitionView::Undefined => LocationView::Undefined,
        DefinitionView::Common => LocationView::Common,
    }
}

/// Where the symbol lives once the sections of its object are placed.
pub open spec fn locate(
    placements: Seq<Seq<PlacementView>>,
    occurrence: Occurrence,
) -> LocationView {
    relocate(placements[occurrence.input as int], occurrence.symbol.definition)
}

/// The symbol of the linked object that is made from `occurrence`.
pub open spec fn resolved(
    placements: Seq<Seq<PlacementView>>,
    occurrence: Occurrence,
) -> ResolvedSymbolView {
    ResolvedSymbolView {
        name: occurrence.symbol.name,
        binding: occurrence.symbol.binding,
        location: locate(placements, occurrence),
        input: occurrence.input,
        index: occurrence.index,
    }
}

/// A local symbol: one that only its own object sees.
pub open spec fn is_local(symbol: SymbolView) -> bool {
    symbol.binding == Binding::Local
}

/// A strong definition: global, and defined in a section.
pub open spec fn is_strong(symbol: SymbolView) -> bool {
    symbol.binding == Binding::Global && symbol.definition is Defined
}

/// A weak definition: weak, and defined in a section.
pub open spec fn is_weak_definition(symbol: SymbolView) -> bool {
    symbol.binding == Binding::Weak && symbol.definition is Defined
}

/// How strongly a symbol that is not local claims its name: a strong
/// definition before a weak one, a weak one before a common symbol, and a
/// common symbol before a mere reference.
pub open spec fn strength(symbol: SymbolView) -> nat {
    match symbol.definition {
        DefinitionView::Defined { .. } => if symbol.binding == Binding::Global {
            3
        } else {
            2
        },
        DefinitionView::Common => 1,
        DefinitionView::Undefined => 0,
    }
}

/// The strength of a symbol of the linked object, told by its binding and
/// by where it lives; it is that of the symbol it was made from.
pub open spec fn claim_strength(binding: Binding, location: LocationView) -> nat {
    match location {
        LocationView::Defined { .. } => if binding == Binding::Global {
            3
        } else {
            2
        },
        LocationView::Common => 1,
        LocationView::Undefined => 0,
    }
}

/// The local symbols of `stream`, in order.
pub open spec fn local_symbols(stream: Seq<Occurrence>) -> Seq<Occurrence>
    decreases stream.len(),
{
    if stream.len() == 0 {
        Seq::empty()
    } else if is_local(stream.last().symbol) {
        local_symbols(stream.drop_last()).push(stream.last())
    } else {
        local_symbols(stream.drop_last())
    }
}

/// The distinct names of the symbols of `stream` that are not local, each
/// where it first occurs.
pub open spec fn global_names(stream: Seq<Occurrence>) -> Seq<Seq<char>>
    decreases stream.len(),
{
    if stream.len() == 0 {
        Seq::empty()
    } else {
        let before = global_names(stream.drop_last());
        if is_local(stream.last().symbol) || before.contains(stream.last().symbol.name) {
            before
        } else {
            before.push(stream.last().symbol.name)
        }
    }
}

/// Symbol `n` of `stream` is not local and bears `name`.
pub open spec fn claims(stream: Seq<Occurrence>, n: int, name: Seq<char>) -> bool {
    0 <= n < stream.len() && !is_local(stream[n].symbol) && stream[n].symbol.name == name
}

/// Symbol `n` of `stream` is the one that `name` resolves to: none that
/// claims the name is stronger, and none of equal strength comes before it.
pub open spec fn wins(stream: Seq<Occurrence>, n: int, name: Seq<char>) -> bool {
    &&& claims(stream, n, name)
    &&& forall|m: int| #[trigger]
        claims(stream, m, name) ==> strength(stream[m].symbol) < strength(stream[n].symbol) || (
        strength(stream[m].symbol) == strength(stream[n].symbol) && n <= m)
}

/// The index in `stream` of the symbol that `name` resolves to.
pub open spec fn winner(stream: Seq<Occurrence>, name: Seq<char>) -> int {
    choose|n: int| wins(stream, n, name)
}

/// Symbol `n` of `stream` is a strong definition of `name`.
pub open spec fn defines_strongly(stream: Seq<Occurrence>, n: int, name: Seq<char>) -> bool {
    0 <= n < stream.len() && is_strong(stream[n].symbol) && stream[n].symbol.name == name
}

/// Symbol `n` of `stream` is a strong definition of a name that an earlier
/// symbol defines strongly too.
pub open spec fn is_duplicate(stream: Seq<Occurrence>, n: int) -> bool {
    &&& 0 <= n < stream.len()
    &&& is_strong(stream[n].symbol)
    &&& exists|m: int| 0 <= m < n && #[trigger] defines_strongly(stream, m, stream[n].symbol.name)
}

/// Some name has two strong definitions.
pub open spec fn has_duplicate(stream: Seq<Occurrence>) -> bool {
    exists|n: int| is_duplicate(stream, n)
}

/// Symbol `n` is the first at which a link finds a name defined twice.
pub open spec fn is_first_duplicate(stream: Seq<Occurrence>, n: int) -> bool {
    &&& is_duplicate(stream, n)
    &&& forall|k: int| 0 <= k < n ==> !is_duplicate(stream, k)
}

/// The index in `stream` of the first symbol at which a link finds a name
/// defined twice.
pub open spec fn first_duplicate(stream: Seq<Occurrence>) -> int {
    choose|n: int| is_first_duplicate(stream, n)
}

/// The strong definition that the duplicate at `n` clashes with.
pub open spec fn earlier_definition(stream: Seq<Occurrence>, n: int) -> int {
    choose|m: int| 0 <= m < n && defines_strongly(stream, m, stream[n].symbol.name)
}

/// What a link reports of the first name it finds defined twice: the name,
/// the object of the earlier definition, and the object of the later one.
pub open spec fn duplicate_error(inputs: Seq<InputObjectView>) -> LinkErrorView {
    let stream = all_symbols(inputs);
    let second = first_duplicate(stream);
    let first = earlier_definition(stream, second);
    LinkErrorView::DuplicateDefinition {
        symbol: stream[second].symbol.name,
        first_input: inputs[stream[first].input as int].name,
        second_input: inputs[stream[second].input as int].name,
    }
}

/// The symbol of the linked object that symbol `n` of `stream` becomes: a
/// local symbol keeps its rank among the local symbols, any other becomes
/// the global symbol of its name.
pub open spec fn symbol_id(stream: Seq<Occurrence>, n: int) -> SymbolIdView {
    if is_local(stream[n].symbol) {
        SymbolIdView::Local(local_symbols(stream.take(n)).len())
    } else {
        SymbolIdView::Global(global_names(stream).index_of(stream[n].symbol.name) as nat)
    }
}

/// The symbol table of the linked object: the local symbols of all objects
/// in order, one global symbol for each name in order of first occurrence,
/// and for symbol `s` of object `i` what it became, at `bindings[i][s]`.
pub open spec fn symbol_table(
    inputs: Seq<InputObjectView>,
    placements: Seq<Seq<PlacementView>>,
) -> SymbolTableView {
    let stream = all_symbols(inputs);
    let locals = local_symbols(stream);
    let names = global_names(stream);
    SymbolTableView {
        locals: Seq::new(locals.len(), |k: int| resolved(placements, locals[k])),
        globals: Seq::new(
            names.len(),
            |g: int| resolved(placements, stream[winner(stream, names[g])]),
        ),
        bindings: Seq::new(
            inputs.len(),
            |i: int|
                Seq::new(
                    inputs[i].symbols.len(),
                    |s: int| symbol_id(stream, symbol_base(inputs, i) + s),
                ),
        ),
    }
}

/// What resolving gives: the symbol table, or the first clash of two strong
/// definitions.
pub open spec fn resolve_symbols(
    inputs: Seq<InputObjectView>,
    placements: Seq<Seq<PlacementView>>,
) -> Result<SymbolTableView, LinkErrorView> {
    if has_duplicate(all_symbols(inputs)) {
        Err(duplicate_error(inputs))
    } else {
        Ok(symbol_table(inputs, placements))
    }
}

/// The placements have the shape of the objects, and no section is placed
/// so far out that its end leaves `u64`.
pub open spec fn placements_cover(
    inputs: Seq<InputObjectView>,
    placements: Seq<Seq<PlacementView>>,
) -> bool {
    &&& placements.len() == inputs.len()
    &&& forall|i: int|
        0 <= i < inputs.len() ==> (#[trigger] placements[i]).len() == inputs[i].sections.len()
    &&& forall|i: int, j: int|
        0 <= i < inputs.len() && 0 <= j < inputs[i].sections.len() ==> (
        #[trigger] placements[i][j]).offset + inputs[i].sections[j].size <= u64::MAX
}

/// One more symbol adds to the local symbols where it is local.
pub proof fn lemma_local_symbols_push(stream: Seq<Occurrence>, occurrence: Occurrence)
    ensures
        local_symbols(stream.push(occurrence)) == if is_local(occurrence.symbol) {
            local_symbols(stream).push(occurrence)
        } else {
            local_symbols(stream)
        },
{
    assert(stream.push(occurrence).drop_last() =~= stream);
}

/// One more symbol adds its name where it is not local and the name is new.
pub proof fn lemma_global_names_push(stream: Seq<Occurrence>, occurrence: Occurrence)
    ensures
        global_names(stream.push(occurrence)) == if is_local(occurrence.symbol) || global_names(
            stream,
        ).contains(occurrence.symbol.name) {
            global_names(stream)
        } else {
            global_names(stream).push(occurrence.symbol.name)
        },
{
    assert(stream.push(occurrence).drop_last() =~= stream);
}

/// No name occurs twice among the global names of a stream.
pub proof fn lemma_global_names_distinct(stream: Seq<Occurrence>)
    ensures
        global_names(stream).no_duplicates(),
    decreases stream.len(),
{
    if stream.len() > 0 {
        lemma_global_names_distinct(stream.drop_last());
    }
}

/// The global names of a stream are the names that its symbols claim.
pub proof fn lemma_global_names_complete(stream: Seq<Occurrence>, name: Seq<char>)
    ensures
        global_names(stream).contains(name) <==> exists|n: int| #[trigger] claims(stream, n, name),
    decreases stream.len(),
{
    if stream.len() > 0 {
        let front = stream.drop_last();
        let last = stream.last();
        lemma_global_names_complete(front, name);
        lemma_global_names_push(front, last);
        assert(front.push(last) =~= stream);
        let before = global_names(front);
        if global_names(stream).contains(name) {
            if before.contains(name) {
                let n = choose|n: int| #[trigger] claims(front, n, name);
                assert(claims(stream, n, name));
            } else {
                let names = global_names(stream);
                let g = choose|g: int| 0 <= g < names.len() && names[g] == name;
                if g < before.len() {
                    assert(before[g] == name);
                }
                assert(claims(stream, stream.len() - 1, name));
            }
        }
        if exists|n: int| #[trigger] claims(stream, n, name) {
            let n = choose|n: int| #[trigger] claims(stream, n, name);
            if n < front.len() {
                assert(claims(front, n, name));
                let g = choose|g: int| 0 <= g < before.len() && before[g] == name;
                assert(global_names(stream)[g] == name);
            } else if !before.contains(name) {
                assert(global_names(stream)[before.len() as int] == name);
            }
        }
    }
}

/// Where no name occurs twice, each name stands at its own index.
pub proof fn lemma_name_index(names: Seq<Seq<char>>, g: int)
    requires
        names.no_duplicates(),
        0 <= g < names.len(),
    ensures
        names.index_of(names[g]) == g,
{
    let i = names.index_of(names[g]);
    assert(0 <= i < names.len() && names[i] == names[g]);
}

/// A name resolves to one symbol only.
pub proof fn lemma_winner_unique(stream: Seq<Occurrence>, a: int, b: int, name: Seq<char>)
    requires
        wins(stream, a, name),
        wins(stream, b, name),
    ensures
        a == b,
{
    assert(claims(stream, a, name));
    assert(claims(stream, b, name));
}

/// The symbol that wins a name is the one that the name resolves to.
pub proof fn lemma_winner_is(stream: Seq<Occurrence>, n: int, name: Seq<char>)
    requires
        wins(stream, n, name),
    ensures
        winner(stream, name) == n,
{
    lemma_winner_unique(stream, n, winner(stream, name), name);
}

/// What a symbol became does not change as a link goes on.
pub proof fn lemma_symbol_id_stable(stream: Seq<Occurrence>, occurrence: Occurrence, n: int)
    requires
        0 <= n < stream.len(),
    ensures
        symbol_id(stream.push(occurrence), n) == symbol_id(stream, n),
{
    let next = stream.push(occurrence);
    assert(next.take(n) =~= stream.take(n));
    if !is_local(stream[n].symbol) {
        let name = stream[n].symbol.name;
        lemma_global_names_push(stream, occurrence);
        lemma_global_names_distinct(stream);
        lemma_global_names_distinct(next);
        lemma_global_names_complete(stream, name);
        assert(claims(stream, n, name));
        let g = global_names(stream).index_of(name);
        assert(0 <= g < global_names(stream).len() && global_names(stream)[g] == name);
        assert(global_names(next)[g] == name);
        lemma_name_index(global_names(next), g);
    }
}

/// The first duplicate and the definition it clashes with are what a link
/// reports.
pub proof fn lemma_first_duplicate_is(stream: Seq<Occurrence>, first: int, second: int)
    requires
        0 <= first < second,
        defines_strongly(stream, first, stream[second].symbol.name),
        is_first_duplicate(stream, second),
    ensures
        has_duplicate(stream),
        first_duplicate(stream) == second,
        earlier_definition(stream, second) == first,
{
    let n = first_duplicate(stream);
    assert(is_first_duplicate(stream, n));
    let name = stream[second].symbol.name;
    let m = earlier_definition(stream, second);
    assert(0 <= m < second && defines_strongly(stream, m, name));
    if m < first {
        assert(defines_strongly(stream, m, stream[first].symbol.name));
        assert(is_duplicate(stream, first));
    } else if first < m {
        assert(defines_strongly(stream, first, stream[m].symbol.name));
        assert(is_duplicate(stream, m));
    }
}

/// A local symbol has a rank below the number of local symbols, and the name
/// of any other symbol stands among the global names.
pub proof fn lemma_symbol_id_in_range(stream: Seq<Occurrence>, n: int)
    requires
        0 <= n < stream.len(),
    ensures
        match symbol_id(stream, n) {
            SymbolIdView::Local(k) => k < local_symbols(stream).len(),
            SymbolIdView::Global(g) => {
                &&& g < global_names(stream).len()
                &&& global_names(stream)[g as int] == stream[n].symbol.name
            },
        },
    decreases stream.len(),
{
    let front = stream.drop_last();
    assert(front.push(stream.last()) =~= stream);
    lemma_local_symbols_push(front, stream.last());
    if is_local(stream[n].symbol) {
        if n < front.len() {
            assert(front.take(n) =~= stream.take(n));
            lemma_symbol_id_in_range(front, n);
        } else {
            assert(stream.take(n) =~= front);
        }
    } else {
        lemma_global_names_complete(stream, stream[n].symbol.name);
        assert(claims(stream, n, stream[n].symbol.name));
    }
}

/// Local symbol `n` of `stream` is the local symbol of its rank.
pub proof fn lemma_local_rank(stream: Seq<Occurrence>, n: int)
    requires
        0 <= n < stream.len(),
        is_local(stream[n].symbol),
    ensures
        local_symbols(stream.take(n)).len() < local_symbols(
            stream,
        ).len(),
        local_symbols(stream)[local_symbols(
            stream.take(n),
        ).len() as int] == stream[n],
    decreases stream.len(),
{
    let front = stream.drop_last();
    assert(front.push(stream.last()) =~= stream);
    lemma_local_symbols_push(front, stream.last());
    if n < front.len() {
        assert(front.take(n) =~= stream.take(n));
        lemma_local_rank(front, n);
    } else {
        assert(stream.take(n) =~= front);
    }
}

/// A name that some symbol claims resolves to a symbol that claims it.
pub proof fn lemma_some_claim_wins(stream: Seq<Occurrence>, name: Seq<char>)
    requires
        exists|n: int| #[trigger] claims(stream, n, name),
    ensures
        wins(stream, winner(stream, name), name),
    decreases stream.len(),
{
    let front = stream.drop_last();
    let last = stream.last();
    let n = stream.len() - 1;
    assert(front.push(last) =~= stream);
    if exists|m: int| #[trigger] claims(front, m, name) {
        lemma_some_claim_wins(front, name);
        let w = winner(front, name);
        if claims(stream, n, name) && strength(last.symbol) > strength(front[w].symbol) {
            assert forall|m: int| #[trigger] claims(stream, m, name) implies strength(
                stream[m].symbol,
            ) < strength(stream[n].symbol) || (strength(stream[m].symbol) == strength(
                stream[n].symbol,
            ) && n <= m) by {
                if m < n {
                    assert(claims(front, m, name));
                }
            }
            assert(wins(stream, n, name));
        } else {
            assert forall|m: int| #[trigger] claims(stream, m, name) implies strength(
                stream[m].symbol,
            ) < strength(stream[w].symbol) || (strength(stream[m].symbol) == strength(
                stream[w].symbol,
            ) && w <= m) by {
                if m < n {
                    assert(claims(front, m, name));
                }
            }
            assert(claims(front, w, name));
            assert(wins(stream, w, name));
        }
    } else {
        let c = choose|c: int| #[trigger] claims(stream, c, name);
        if c < n {
            assert(claims(front, c, name));
        }
        assert forall|m: int| #[trigger] claims(stream, m, name) implies m == n by {
            if m < n {
                assert(claims(front, m, name));
            }
        }
        assert(wins(stream, n, name));
    }
}

} // verus!
