//! What resolving and rewriting guarantee: which definition a name
//! resolves to, what becomes of each symbol, and what stops a link.

use vstd::prelude::*;
use crate::layout::{PlacementView, placement_map};
use crate::link::linked;
use crate::model::InputObjectView;
use crate::relocation::{
    Site, all_relocations, has_unresolved, is_unresolved, lookup, object_rows, site_rows, target,
};
use crate::resolve::{
    LinkErrorView, Occurrence, SymbolIdView, SymbolTableView, all_symbols, claims,
    defines_strongly, global_names, has_duplicate, is_duplicate, is_local, is_strong,
    is_weak_definition, lemma_global_names_complete, lemma_global_names_distinct,
    lemma_local_rank, lemma_some_claim_wins, lemma_symbol_id_in_range, lemma_winner_is,
    occurrence_at, relocate, resolve_symbols, resolved, strength, symbol_base, symbol_id,
    symbol_rows, symbol_table, winner,
};
use crate::stream::{
    concat, lemma_concat_index, lemma_concat_locate, lemma_row_item_in_range, row_start,
    stands_at,
};

verus! {

/// The only strong definition of a name is what the name resolves to,
/// wherever weaker claims to the name stand, before it or after it.
pub proof fn lemma_strong_definition_wins(stream: Seq<Occurrence>, d: int, name: Seq<char>)
    requires
        defines_strongly(stream, d, name),
        forall|m: int| #[trigger] defines_strongly(stream, m, name) ==> m == d,
    ensures
        winner(stream, name) == d,
{
    assert forall|m: int| #[trigger] claims(stream, m, name) implies strength(stream[m].symbol)
        < strength(stream[d].symbol) || (strength(stream[m].symbol) == strength(stream[d].symbol)
        && d <= m) by {
        if strength(stream[m].symbol) == 3 {
            assert(defines_strongly(stream, m, name));
        }
    }
    assert(claims(stream, d, name));
    lemma_winner_is(stream, d, name);
}

/// Where a name has no strong definition, it resolves to the first of its
/// weak definitions.
pub proof fn lemma_first_weak_definition_wins(stream: Seq<Occurrence>, w: int, name: Seq<char>)
    requires
        claims(stream, w, name),
        is_weak_definition(stream[w].symbol),
        forall|m: int| !defines_strongly(stream, m, name),
        forall|m: int| 0 <= m < w && #[trigger] claims(stream, m, name) ==> !is_weak_definition(
            stream[m].symbol,
        ),
    ensures
        winner(stream, name) == w,
{
    assert forall|m: int| #[trigger] claims(stream, m, name) implies strength(stream[m].symbol)
        < strength(stream[w].symbol) || (strength(stream[m].symbol) == strength(stream[w].symbol)
        && w <= m) by {
        assert(!defines_strongly(stream, m, name));
    }
    lemma_winner_is(stream, w, name);
}

/// Symbol `s` of object `i` is the only strong definition of its name.
pub open spec fn defines_alone(inputs: Seq<InputObjectView>, i: int, s: int) -> bool {
    &&& 0 <= i < inputs.len()
    &&& 0 <= s < inputs[i].symbols.len()
    &&& is_strong(inputs[i].symbols[s])
    &&& forall|j: int, t: int|
        0 <= j < inputs.len() && 0 <= t < inputs[j].symbols.len() && is_strong(
            #[trigger] inputs[j].symbols[t],
        ) && inputs[j].symbols[t].name == inputs[i].symbols[s].name ==> j == i && t == s
}

/// A name that exactly one symbol defines strongly resolves, for every
/// object that refers to it, to that definition: to the output section in
/// which the defining section was placed, at the section's offset plus the
/// symbol's own. The symbol table is handed on unless some other name is
/// defined strongly twice.
pub proof fn lemma_reference_resolves_to_definition(
    inputs: Seq<InputObjectView>,
    placements: Seq<Seq<PlacementView>>,
    definer: int,
    defined: int,
    user: int,
    used: int,
)
    requires
        defines_alone(inputs, definer, defined),
        0 <= user < inputs.len(),
        0 <= used < inputs[user].symbols.len(),
        !is_local(inputs[user].symbols[used]),
        inputs[user].symbols[used].name == inputs[definer].symbols[defined].name,
    ensures
        lookup(
            symbol_table(inputs, placements),
            symbol_table(inputs, placements).bindings[user][used],
        ) == resolved(placements, occurrence_at(inputs, definer, defined)),
        lookup(
            symbol_table(inputs, placements),
            symbol_table(inputs, placements).bindings[user][used],
        ).location == relocate(placements[definer], inputs[definer].symbols[defined].definition),
        !has_duplicate(all_symbols(inputs)) ==> resolve_symbols(inputs, placements) == Ok::<
            SymbolTableView,
            LinkErrorView,
        >(symbol_table(inputs, placements)),
{
    let stream = all_symbols(inputs);
    let rows = symbol_rows(inputs);
    let name = inputs[definer].symbols[defined].name;
    let d = symbol_base(inputs, definer) + defined;
    let u = symbol_base(inputs, user) + used;
    lemma_concat_index(rows, definer, defined);
    lemma_concat_index(rows, user, used);
    assert(defines_strongly(stream, d, name));
    assert forall|m: int| #[trigger] defines_strongly(stream, m, name) implies m == d by {
        lemma_concat_locate(rows, m);
        let (j, t) = choose|j: int, t: int| stands_at(rows, j, t, m);
        lemma_concat_index(rows, j, t);
        assert(is_strong(inputs[j].symbols[t]));
    }
    lemma_strong_definition_wins(stream, d, name);
    lemma_symbol_id_in_range(stream, u);
}

/// A local symbol is copied for its own object alone: what it becomes is a
/// local symbol of the linked object, made from it and from no other.
pub proof fn lemma_local_symbol_is_copied(
    inputs: Seq<InputObjectView>,
    placements: Seq<Seq<PlacementView>>,
    i: int,
    s: int,
)
    requires
        0 <= i < inputs.len(),
        0 <= s < inputs[i].symbols.len(),
        is_local(inputs[i].symbols[s]),
    ensures
        symbol_table(inputs, placements).bindings[i][s] is Local,
        lookup(symbol_table(inputs, placements), symbol_table(inputs, placements).bindings[i][s])
            == resolved(placements, occurrence_at(inputs, i, s)),
{
    let stream = all_symbols(inputs);
    lemma_concat_index(symbol_rows(inputs), i, s);
    lemma_local_rank(stream, symbol_base(inputs, i) + s);
}

/// Every global symbol of the linked object bears a name of its own, and
/// every symbol that is not local becomes the global symbol of its name.
pub proof fn lemma_one_global_symbol_per_name(
    inputs: Seq<InputObjectView>,
    placements: Seq<Seq<PlacementView>>,
)
    ensures
        forall|g: int, h: int|
            0 <= g < h < symbol_table(inputs, placements).globals.len() ==> symbol_table(
                inputs,
                placements,
            ).globals[g].name != symbol_table(inputs, placements).globals[h].name,
        forall|i: int, s: int|
            0 <= i < inputs.len() && 0 <= s < inputs[i].symbols.len() && !is_local(
                inputs[i].symbols[s],
            ) ==> {
                &&& (#[trigger] symbol_table(inputs, placements).bindings[i][s]) is Global
                &&& lookup(
                    symbol_table(inputs, placements),
                    symbol_table(inputs, placements).bindings[i][s],
                ).name == inputs[i].symbols[s].name
            },
{
    let stream = all_symbols(inputs);
    let table = symbol_table(inputs, placements);
    let names = global_names(stream);
    lemma_global_names_distinct(stream);
    assert forall|g: int| 0 <= g < names.len() implies (#[trigger] table.globals[g]).name
        == names[g] by {
        lemma_global_names_complete(stream, names[g]);
        lemma_some_claim_wins(stream, names[g]);
    }
    assert forall|i: int, s: int|
        0 <= i < inputs.len() && 0 <= s < inputs[i].symbols.len() && !is_local(
            inputs[i].symbols[s],
        ) implies {
        &&& (#[trigger] table.bindings[i][s]) is Global
        &&& lookup(table, table.bindings[i][s]).name == inputs[i].symbols[s].name
    } by {
        lemma_concat_index(symbol_rows(inputs), i, s);
        lemma_symbol_id_in_range(stream, symbol_base(inputs, i) + s);
    }
}

/// Two strong definitions of one name stop the link: it hands on no linked
/// object, and says that the name is defined twice.
pub proof fn lemma_duplicate_definition_stops(
    inputs: Seq<InputObjectView>,
    first: int,
    first_symbol: int,
    second: int,
    second_symbol: int,
)
    requires
        0 <= first < inputs.len(),
        0 <= first_symbol < inputs[first].symbols.len(),
        0 <= second < inputs.len(),
        0 <= second_symbol < inputs[second].symbols.len(),
        first != second || first_symbol != second_symbol,
        is_strong(inputs[first].symbols[first_symbol]),
        is_strong(inputs[second].symbols[second_symbol]),
        inputs[first].symbols[first_symbol].name == inputs[second].symbols[second_symbol].name,
    ensures
        linked(inputs) is Err,
        linked(inputs)->Err_0 is DuplicateDefinition,
{
    let stream = all_symbols(inputs);
    let rows = symbol_rows(inputs);
    let name = inputs[first].symbols[first_symbol].name;
    let a = symbol_base(inputs, first) + first_symbol;
    let b = symbol_base(inputs, second) + second_symbol;
    lemma_concat_index(rows, first, first_symbol);
    lemma_concat_index(rows, second, second_symbol);
    if first == second {
    } else if first < second {
        lemma_row_item_in_range(rows, first, second, first_symbol);
    } else {
        lemma_row_item_in_range(rows, second, first, second_symbol);
    }
    assert(a != b);
    if a < b {
        assert(defines_strongly(stream, a, stream[b].symbol.name));
        assert(is_duplicate(stream, b));
    } else {
        assert(defines_strongly(stream, b, stream[a].symbol.name));
        assert(is_duplicate(stream, a));
    }
}

/// A relocation that refers to a name without a definition stops the link,
/// where no name is defined strongly twice: it hands on no linked object,
/// and says that a symbol is undefined.
///
/// The name has no definition when the symbol referred to is local and
/// undefined itself, or is not local and every symbol of every object that
/// claims its name is undefined.
pub proof fn lemma_undefined_reference_stops(inputs: Seq<InputObjectView>, i: int, j: int, r: int)
    requires
        0 <= i < inputs.len(),
        0 <= j < inputs[i].sections.len(),
        0 <= r < inputs[i].sections[j].relocations.len(),
        inputs[i].sections[j].relocations[r].symbol < inputs[i].symbols.len(),
        !has_duplicate(all_symbols(inputs)),
        ({
            let symbol = inputs[i].symbols[inputs[i].sections[j].relocations[r].symbol as int];
            if is_local(symbol) {
                symbol.definition is Undefined
            } else {
                forall|n: int| #[trigger]
                    claims(all_symbols(inputs), n, symbol.name) ==> all_symbols(
                        inputs,
                    )[n].symbol.definition is Undefined
            }
        }),
    ensures
        linked(inputs) is Err,
        linked(inputs)->Err_0 is UndefinedSymbol,
{
    let placements = placement_map(inputs);
    let table = symbol_table(inputs, placements);
    let stream = all_symbols(inputs);
    let s = inputs[i].sections[j].relocations[r].symbol as int;
    let symbol = inputs[i].symbols[s];
    let n = symbol_base(inputs, i) + s;
    lemma_concat_index(symbol_rows(inputs), i, s);
    lemma_symbol_id_in_range(stream, n);
    match symbol_id(stream, n) {
        SymbolIdView::Local(k) => {
            lemma_local_rank(stream, n);
        },
        SymbolIdView::Global(g) => {
            assert(claims(stream, n, symbol.name));
            lemma_some_claim_wins(stream, symbol.name);
            let w = winner(stream, symbol.name);
            assert(claims(stream, w, symbol.name));
        },
    }
    let sites = all_relocations(inputs);
    let inner = site_rows(inputs[i], i);
    lemma_concat_index(inner, j, r);
    let k = row_start(inner, j) + r;
    assert(object_rows(inputs)[i] == concat(inner));
    lemma_concat_index(object_rows(inputs), i, k);
    let at = row_start(object_rows(inputs), i) + k;
    assert(sites[at] == inner[j][r]);
    assert(target(table, sites[at]) == table.bindings[i][s]);
    assert(is_unresolved(table, sites[at]));
    assert(has_unresolved(sites, table));
}

/// Symbols `a` of object `i` and `b` of object `j` are two strong
/// definitions of one name.
pub open spec fn clash(inputs: Seq<InputObjectView>, i: int, a: int, j: int, b: int) -> bool {
    &&& 0 <= i < inputs.len() && 0 <= a < inputs[i].symbols.len()
    &&& 0 <= j < inputs.len() && 0 <= b < inputs[j].symbols.len()
    &&& i != j || a != b
    &&& is_strong(inputs[i].symbols[a])
    &&& is_strong(inputs[j].symbols[b])
    &&& inputs[i].symbols[a].name == inputs[j].symbols[b].name
}

/// Relocation `r` of section `j` of object `i` refers to a symbol that
/// `table` holds to be undefined.
pub open spec fn dangles(
    inputs: Seq<InputObjectView>,
    table: SymbolTableView,
    i: int,
    j: int,
    r: int,
) -> bool {
    &&& 0 <= i < inputs.len()
    &&& 0 <= j < inputs[i].sections.len()
    &&& 0 <= r < inputs[i].sections[j].relocations.len()
    &&& lookup(
        table,
        table.bindings[i][inputs[i].sections[j].relocations[r].symbol as int],
    ).location is Undefined
}

/// A link finds a name defined twice exactly when two symbols of its objects
/// are strong definitions of one name.
pub proof fn lemma_duplicates_are_clashes(inputs: Seq<InputObjectView>)
    ensures
        has_duplicate(all_symbols(inputs)) <==> exists|i: int, a: int, j: int, b: int|
            clash(inputs, i, a, j, b),
{
    let stream = all_symbols(inputs);
    let rows = symbol_rows(inputs);
    if has_duplicate(stream) {
        let n = choose|n: int| is_duplicate(stream, n);
        let name = stream[n].symbol.name;
        let m = choose|m: int| 0 <= m < n && #[trigger] defines_strongly(stream, m, name);
        lemma_concat_locate(rows, n);
        lemma_concat_locate(rows, m);
        let (j, b) = choose|j: int, b: int| stands_at(rows, j, b, n);
        let (i, a) = choose|i: int, a: int| stands_at(rows, i, a, m);
        lemma_concat_index(rows, j, b);
        lemma_concat_index(rows, i, a);
        assert(clash(inputs, i, a, j, b));
    }
    if exists|i: int, a: int, j: int, b: int| clash(inputs, i, a, j, b) {
        let (i, a, j, b) = choose|i: int, a: int, j: int, b: int| clash(inputs, i, a, j, b);
        lemma_duplicate_definition_stops(inputs, i, a, j, b);
    }
}

/// A link finds a relocation without a target exactly when a relocation of
/// its objects refers to a symbol that the table holds to be undefined.
pub proof fn lemma_unresolved_are_dangling(inputs: Seq<InputObjectView>, table: SymbolTableView)
    ensures
        has_unresolved(all_relocations(inputs), table) <==> exists|i: int, j: int, r: int|
            dangles(inputs, table, i, j, r),
{
    let sites = all_relocations(inputs);
    let rows = object_rows(inputs);
    if has_unresolved(sites, table) {
        let n = choose|n: int| 0 <= n < sites.len() && is_unresolved(table, #[trigger] sites[n]);
        lemma_concat_locate(rows, n);
        let (i, k) = choose|i: int, k: int| stands_at(rows, i, k, n);
        lemma_concat_index(rows, i, k);
        let inner = site_rows(inputs[i], i);
        assert(rows[i] == concat(inner));
        lemma_concat_locate(inner, k);
        let (j, r) = choose|j: int, r: int| stands_at(inner, j, r, k);
        lemma_concat_index(inner, j, r);
        assert(sites[n] == inner[j][r]);
        assert(dangles(inputs, table, i, j, r));
    }
    if exists|i: int, j: int, r: int| dangles(inputs, table, i, j, r) {
        let (i, j, r) = choose|i: int, j: int, r: int| dangles(inputs, table, i, j, r);
        lemma_site_in_stream(inputs, i, j, r);
        let n = site_index(inputs, i, j, r);
        assert(is_unresolved(table, sites[n]));
    }
}

/// Where relocation `r` of section `j` of object `i` stands among the
/// relocations of all objects.
pub open spec fn site_index(inputs: Seq<InputObjectView>, i: int, j: int, r: int) -> int {
    row_start(object_rows(inputs), i) + row_start(site_rows(inputs[i], i), j) + r
}

/// Every relocation of every object is met by a link.
pub proof fn lemma_site_in_stream(inputs: Seq<InputObjectView>, i: int, j: int, r: int)
    requires
        0 <= i < inputs.len(),
        0 <= j < inputs[i].sections.len(),
        0 <= r < inputs[i].sections[j].relocations.len(),
    ensures
        0 <= site_index(inputs, i, j, r) < all_relocations(inputs).len(),
        all_relocations(inputs)[site_index(inputs, i, j, r)] == (Site {
            input: i as nat,
            section: j as nat,
            relocation: inputs[i].sections[j].relocations[r],
        }),
{
    let inner = site_rows(inputs[i], i);
    lemma_concat_index(inner, j, r);
    assert(object_rows(inputs)[i] == concat(inner));
    lemma_concat_index(object_rows(inputs), i, row_start(inner, j) + r);
}

/// A link hands on a linked object exactly when no two symbols are strong
/// definitions of one name and no relocation refers to a symbol that is
/// left undefined.
pub proof fn lemma_link_succeeds_exactly_when(inputs: Seq<InputObjectView>)
    ensures
        linked(inputs) is Ok <==> {
            &&& !exists|i: int, a: int, j: int, b: int| clash(inputs, i, a, j, b)
            &&& !exists|i: int, j: int, r: int|
                dangles(inputs, symbol_table(inputs, placement_map(inputs)), i, j, r)
        },
{
    lemma_duplicates_are_clashes(inputs);
    lemma_unresolved_are_dangling(inputs, symbol_table(inputs, placement_map(inputs)));
}

} // verus!
