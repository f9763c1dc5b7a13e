use partial_link::link::link;
use partial_link::merge::{merge_sections, Placement};
use partial_link::model::{Binding, Definition, InputObject, Section, SectionKind, Symbol};
use partial_link::symbols::{
    build_symbol_table, GlobalSymbolTable, LinkError, Location, ResolvedSymbol, SymbolId,
};

fn text(size: usize) -> Section {
    Section {
        name: ".text".to_string(),
        kind: SectionKind::Code,
        align: 1,
        size: size as u64,
        data: vec![0; size],
        relocations: vec![],
    }
}

fn data(size: usize) -> Section {
    Section {
        name: ".data".to_string(),
        kind: SectionKind::Data,
        align: 4,
        size: size as u64,
        data: vec![0; size],
        relocations: vec![],
    }
}

fn symbol(name: &str, binding: Binding, definition: Definition) -> Symbol {
    Symbol { name: name.to_string(), binding, definition }
}

fn defined(section: usize, offset: u64) -> Definition {
    Definition::Defined { section, offset }
}

fn object(name: &str, sections: Vec<Section>, symbols: Vec<Symbol>) -> InputObject {
    InputObject { name: name.to_string(), sections, symbols }
}

fn table_of(inputs: &Vec<InputObject>) -> Result<GlobalSymbolTable, LinkError> {
    let layout = merge_sections(inputs);
    build_symbol_table(inputs, &layout.placements)
}

#[test]
fn no_symbols_give_an_empty_table() {
    let table = table_of(&vec![object("a.o", vec![text(1)], vec![])]).unwrap();
    assert_eq!(table.locals, vec![]);
    assert_eq!(table.globals, vec![]);
    assert_eq!(table.bindings, vec![vec![]]);
}

#[test]
fn a_definition_moves_with_its_section() {
    let a = object("a.o", vec![text(10)], vec![]);
    let b = object(
        "b.o",
        vec![data(4), text(6)],
        vec![
            symbol("f", Binding::Global, defined(1, 2)),
            symbol("d", Binding::Global, defined(0, 4)),
        ],
    );
    let table = table_of(&vec![a, b]).unwrap();
    assert_eq!(
        table.globals,
        vec![
            ResolvedSymbol {
                name: "f".to_string(),
                binding: Binding::Global,
                location: Location::Defined { section: 0, offset: 12 },
                input: 1,
                index: 0,
            },
            ResolvedSymbol {
                name: "d".to_string(),
                binding: Binding::Global,
                location: Location::Defined { section: 1, offset: 4 },
                input: 1,
                index: 1,
            },
        ]
    );
    assert_eq!(table.bindings, vec![vec![], vec![SymbolId::Global(0), SymbolId::Global(1)]]);
}

#[test]
fn a_table_follows_the_placements_it_is_given() {
    let a = object("a.o", vec![text(8)], vec![symbol("f", Binding::Global, defined(0, 3))]);
    let placements = vec![vec![Placement { output: 5, offset: 100 }]];
    let table = build_symbol_table(&vec![a], &placements).unwrap();
    assert_eq!(table.globals[0].location, Location::Defined { section: 5, offset: 103 });
}

#[test]
fn local_symbols_are_copied_in_order_and_never_merged() {
    let a = object(
        "a.o",
        vec![text(4)],
        vec![
            symbol("tmp", Binding::Local, defined(0, 1)),
            symbol("f", Binding::Global, defined(0, 0)),
            symbol("tmp", Binding::Local, defined(0, 2)),
        ],
    );
    let b = object("b.o", vec![text(4)], vec![symbol("tmp", Binding::Local, defined(0, 3))]);
    let table = table_of(&vec![a, b]).unwrap();
    let locals: Vec<(usize, usize, Location)> =
        table.locals.iter().map(|s| (s.input, s.index, s.location)).collect();
    assert_eq!(
        locals,
        vec![
            (0, 0, Location::Defined { section: 0, offset: 1 }),
            (0, 2, Location::Defined { section: 0, offset: 2 }),
            (1, 0, Location::Defined { section: 0, offset: 7 }),
        ]
    );
    assert!(table.locals.iter().all(|s| s.name == "tmp" && s.binding == Binding::Local));
    assert_eq!(table.globals.len(), 1);
    assert_eq!(
        table.bindings,
        vec![
            vec![SymbolId::Local(0), SymbolId::Global(0), SymbolId::Local(1)],
            vec![SymbolId::Local(2)],
        ]
    );
}

#[test]
fn a_local_symbol_does_not_clash_with_a_global_of_its_name() {
    let a = object("a.o", vec![text(4)], vec![symbol("f", Binding::Local, defined(0, 0))]);
    let b = object("b.o", vec![text(4)], vec![symbol("f", Binding::Global, defined(0, 0))]);
    let c = object("c.o", vec![text(4)], vec![symbol("f", Binding::Local, defined(0, 0))]);
    let table = table_of(&vec![a, b, c]).unwrap();
    assert_eq!(table.locals.len(), 2);
    assert_eq!(table.globals.len(), 1);
    assert_eq!(table.globals[0].input, 1);
}

#[test]
fn a_reference_resolves_to_the_only_strong_definition() {
    let user = || {
        object("user.o", vec![text(4)], vec![symbol("f", Binding::Global, Definition::Undefined)])
    };
    let definer =
        || object("def.o", vec![text(8)], vec![symbol("f", Binding::Global, defined(0, 5))]);

    let table = table_of(&vec![user(), definer()]).unwrap();
    assert_eq!(table.globals.len(), 1);
    assert_eq!(table.globals[0].location, Location::Defined { section: 0, offset: 9 });
    assert_eq!(table.globals[0].input, 1);
    assert_eq!(table.bindings, vec![vec![SymbolId::Global(0)], vec![SymbolId::Global(0)]]);

    let table = table_of(&vec![definer(), user()]).unwrap();
    assert_eq!(table.globals[0].location, Location::Defined { section: 0, offset: 5 });
    assert_eq!(table.globals[0].input, 0);
    assert_eq!(table.bindings, vec![vec![SymbolId::Global(0)], vec![SymbolId::Global(0)]]);
}

#[test]
fn linking_twice_gives_the_same_object() {
    let inputs = vec![
        object(
            "a.o",
            vec![text(3), data(5)],
            vec![
                symbol("f", Binding::Global, defined(0, 1)),
                symbol("w", Binding::Weak, defined(1, 0)),
                symbol("l", Binding::Local, defined(1, 2)),
            ],
        ),
        object(
            "b.o",
            vec![data(2), text(9)],
            vec![
                symbol("w", Binding::Global, defined(1, 4)),
                symbol("f", Binding::Global, Definition::Undefined),
            ],
        ),
    ];
    assert_eq!(link(&inputs), link(&inputs));
    assert!(link(&inputs).is_ok());
}

#[test]
fn a_later_strong_definition_overrides_a_weak_one() {
    let a = object("a.o", vec![text(4)], vec![symbol("f", Binding::Weak, defined(0, 1))]);
    let b = object("b.o", vec![text(4)], vec![symbol("f", Binding::Global, defined(0, 2))]);
    let table = table_of(&vec![a, b]).unwrap();
    assert_eq!(
        table.globals,
        vec![ResolvedSymbol {
            name: "f".to_string(),
            binding: Binding::Global,
            location: Location::Defined { section: 0, offset: 6 },
            input: 1,
            index: 0,
        }]
    );
}

#[test]
fn an_earlier_strong_definition_overrides_a_weak_one() {
    let a = object("a.o", vec![text(4)], vec![symbol("f", Binding::Global, defined(0, 1))]);
    let b = object("b.o", vec![text(4)], vec![symbol("f", Binding::Weak, defined(0, 2))]);
    let table = table_of(&vec![a, b]).unwrap();
    assert_eq!(
        table.globals,
        vec![ResolvedSymbol {
            name: "f".to_string(),
            binding: Binding::Global,
            location: Location::Defined { section: 0, offset: 1 },
            input: 0,
            index: 0,
        }]
    );
}

#[test]
fn a_strong_definition_between_weak_ones_wins() {
    let a = object("a.o", vec![text(4)], vec![symbol("f", Binding::Weak, defined(0, 0))]);
    let b = object("b.o", vec![text(4)], vec![symbol("f", Binding::Global, defined(0, 0))]);
    let c = object("c.o", vec![text(4)], vec![symbol("f", Binding::Weak, defined(0, 0))]);
    let table = table_of(&vec![a, b, c]).unwrap();
    assert_eq!(table.globals.len(), 1);
    assert_eq!(table.globals[0].input, 1);
    assert_eq!(table.globals[0].binding, Binding::Global);
    assert_eq!(table.globals[0].location, Location::Defined { section: 0, offset: 4 });
}

#[test]
fn of_two_weak_definitions_the_first_wins() {
    let a = object("a.o", vec![text(4)], vec![symbol("f", Binding::Global, Definition::Undefined)]);
    let b = object("b.o", vec![text(4)], vec![symbol("f", Binding::Weak, defined(0, 1))]);
    let c = object("c.o", vec![text(4)], vec![symbol("f", Binding::Weak, defined(0, 2))]);
    let table = table_of(&vec![a, b, c]).unwrap();
    assert_eq!(
        table.globals,
        vec![ResolvedSymbol {
            name: "f".to_string(),
            binding: Binding::Weak,
            location: Location::Defined { section: 0, offset: 5 },
            input: 1,
            index: 0,
        }]
    );
}

#[test]
fn a_name_without_a_definition_stays_undefined() {
    let a = object("a.o", vec![], vec![symbol("f", Binding::Global, Definition::Undefined)]);
    let b = object("b.o", vec![], vec![symbol("f", Binding::Weak, Definition::Undefined)]);
    let table = table_of(&vec![a, b]).unwrap();
    assert_eq!(
        table.globals,
        vec![ResolvedSymbol {
            name: "f".to_string(),
            binding: Binding::Global,
            location: Location::Undefined,
            input: 0,
            index: 0,
        }]
    );
}

#[test]
fn a_common_symbol_yields_to_a_definition_and_beats_a_reference() {
    let reference =
        || object("r.o", vec![], vec![symbol("v", Binding::Global, Definition::Undefined)]);
    let common = || object("c.o", vec![], vec![symbol("v", Binding::Global, Definition::Common)]);
    let weak = || object("w.o", vec![data(4)], vec![symbol("v", Binding::Weak, defined(0, 0))]);

    let table = table_of(&vec![reference(), common(), common()]).unwrap();
    assert_eq!(table.globals.len(), 1);
    assert_eq!(table.globals[0].location, Location::Common);
    assert_eq!(table.globals[0].input, 1);

    let table = table_of(&vec![common(), weak()]).unwrap();
    assert_eq!(table.globals[0].location, Location::Defined { section: 0, offset: 0 });
    assert_eq!(table.globals[0].input, 1);
}

#[test]
fn global_symbols_come_in_order_of_first_occurrence() {
    let a = object(
        "a.o",
        vec![text(4)],
        vec![
            symbol("z", Binding::Global, Definition::Undefined),
            symbol("a", Binding::Global, defined(0, 0)),
        ],
    );
    let b = object(
        "b.o",
        vec![text(4)],
        vec![
            symbol("m", Binding::Weak, defined(0, 0)),
            symbol("z", Binding::Global, defined(0, 1)),
        ],
    );
    let table = table_of(&vec![a, b]).unwrap();
    let names: Vec<&str> = table.globals.iter().map(|s| s.name.as_str()).collect();
    assert_eq!(names, vec!["z", "a", "m"]);
    assert_eq!(
        table.bindings,
        vec![
            vec![SymbolId::Global(0), SymbolId::Global(1)],
            vec![SymbolId::Global(2), SymbolId::Global(0)],
        ]
    );
}

#[test]
fn two_strong_definitions_are_reported_with_both_objects() {
    let a = object("first.o", vec![text(4)], vec![symbol("f", Binding::Global, defined(0, 0))]);
    let b = object("middle.o", vec![text(4)], vec![symbol("f", Binding::Weak, defined(0, 0))]);
    let c = object("last.o", vec![text(4)], vec![symbol("f", Binding::Global, defined(0, 0))]);
    assert_eq!(
        table_of(&vec![a, b, c]),
        Err(LinkError::DuplicateDefinition {
            symbol: "f".to_string(),
            first_input: "first.o".to_string(),
            second_input: "last.o".to_string(),
        })
    );
}

#[test]
fn the_first_clash_met_is_the_one_reported() {
    let a = object(
        "a.o",
        vec![text(4)],
        vec![
            symbol("x", Binding::Global, defined(0, 0)),
            symbol("y", Binding::Global, defined(0, 1)),
        ],
    );
    let b = object(
        "b.o",
        vec![text(4)],
        vec![
            symbol("y", Binding::Global, defined(0, 0)),
            symbol("x", Binding::Global, defined(0, 1)),
        ],
    );
    assert_eq!(
        table_of(&vec![a, b]),
        Err(LinkError::DuplicateDefinition {
            symbol: "y".to_string(),
            first_input: "a.o".to_string(),
            second_input: "b.o".to_string(),
        })
    );
}

#[test]
fn one_object_may_clash_with_itself() {
    let a = object(
        "a.o",
        vec![text(4)],
        vec![
            symbol("f", Binding::Global, defined(0, 0)),
            symbol("f", Binding::Global, defined(0, 2)),
        ],
    );
    assert_eq!(
        table_of(&vec![a]),
        Err(LinkError::DuplicateDefinition {
            symbol: "f".to_string(),
            first_input: "a.o".to_string(),
            second_input: "a.o".to_string(),
        })
    );
}

#[test]
fn two_weak_definitions_do_not_clash() {
    let a = object("a.o", vec![text(4)], vec![symbol("f", Binding::Weak, defined(0, 0))]);
    let b = object("b.o", vec![text(4)], vec![symbol("f", Binding::Weak, defined(0, 0))]);
    assert!(table_of(&vec![a, b]).is_ok());
}

#[test]
fn a_table_is_looked_up_by_name_and_by_id() {
    let a = object(
        "a.o",
        vec![text(4)],
        vec![
            symbol("l", Binding::Local, defined(0, 1)),
            symbol("f", Binding::Global, defined(0, 2)),
            symbol("g", Binding::Weak, defined(0, 3)),
        ],
    );
    let table = table_of(&vec![a]).unwrap();
    assert_eq!(table.global_named(&"f".to_string()), Some(0));
    assert_eq!(table.global_named(&"g".to_string()), Some(1));
    assert_eq!(table.global_named(&"l".to_string()), None);
    assert_eq!(table.global_named(&"".to_string()), None);
    assert_eq!(table.symbol(SymbolId::Local(0)).unwrap().name, "l");
    assert_eq!(table.symbol(SymbolId::Global(1)).unwrap().name, "g");
    assert_eq!(table.symbol(SymbolId::Global(1)), Some(&table.globals[1]));
    assert_eq!(table.symbol(SymbolId::Local(1)), None);
    assert_eq!(table.symbol(SymbolId::Global(2)), None);
}
