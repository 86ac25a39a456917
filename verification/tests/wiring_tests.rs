use vertical::assemble::assemble_circuits;
use vertical::composer::{number_icons, BlueprintComposer, CompileError};
use vertical::entity::{ConnectionData, Entity, Icon, SignalID};
use vertical::codegen::generate_entities;
use vertical::inject::{add_entry, wire_circuit, wire_entities};
use vertical::netindex::NetworkIndex;
use vertical::reach::ReachError;
use vertical::resolver::resolve_references;
use vertical::types::{
    Arithmetic, ConstantItem, Expr, Signal, SignalIDType, SignalOrConstant, Statement, Wire,
    WireColor,
};
use vertical::wiring::{Circuit, CircuitConnection, WiringCreator};

fn text(s: &str) -> String {
    s.to_string()
}

fn shape(expr: Expr, out: &[&str], wires: &[(&str, WireColor)]) -> Statement {
    Statement {
        wires: if wires.is_empty() {
            None
        } else {
            Some(wires.iter().map(|(loc, color)| Wire { loc: text(loc), color: *color }).collect())
        },
        expr,
        out: if out.is_empty() { None } else { Some(out.iter().map(|name| text(name)).collect()) },
    }
}

fn unit(out: &[&str], wires: &[(&str, WireColor)]) -> Statement {
    let expr = Expr::Arithmetic(Arithmetic {
        left: SignalOrConstant::Constant(1),
        op: text("+"),
        right: SignalOrConstant::Constant(2),
        out: Signal { type_: text("item"), name: text("coal") },
    });
    shape(expr, out, wires)
}

fn constant(out: &[&str], wires: &[(&str, WireColor)]) -> Statement {
    let items = vec![ConstantItem {
        signal: Signal { type_: text("virtual"), name: text("signal-A") },
        count: 1,
    }];
    shape(Expr::Constant(items), out, wires)
}

fn pole(idx: usize, conn_point: usize) -> CircuitConnection {
    CircuitConnection { idx, conn_point }
}

fn peer(entity_id: usize, circuit_id: usize) -> ConnectionData {
    ConnectionData { entity_id, circuit_id }
}

fn units(n: usize) -> Vec<Entity> {
    let stmts: Vec<Statement> = (0..n).map(|_| unit(&[], &[])).collect();
    generate_entities(&stmts).unwrap()
}

fn link_count(entities: &Vec<Entity>) -> usize {
    let ends: usize = entities
        .iter()
        .map(|e| {
            e.connections.first.red.len()
                + e.connections.first.green.len()
                + e.connections.second.red.len()
                + e.connections.second.green.len()
        })
        .sum();
    ends / 2
}

#[test]
fn network_index_keeps_the_last_number() {
    let index = NetworkIndex::new();
    assert_eq!(index.get(&text("L0")), None);
    let index = index.insert(&text("L0"), 3).insert(&text("U1"), 4);
    assert_eq!(index.get(&text("L0")), Some(3));
    assert_eq!(index.get(&text("U1")), Some(4));
    let index = index.insert(&text("L0"), 9);
    assert_eq!(index.get(&text("L0")), Some(9));
    assert_eq!(index.get(&text("U1")), Some(4));
    assert_eq!(index.get(&text("U0")), None);
}

#[test]
fn constant_and_wired_unit_form_one_red_circuit() {
    let stmts = vec![constant(&["a"], &[]), unit(&[], &[("a", WireColor::Red)])];
    let expected =
        vec![Circuit { color: WireColor::Red, connections: vec![pole(0, 1), pole(1, 1)] }];
    assert_eq!(stmts.create_wiring(), Ok(expected.clone()));
    assert_eq!(assemble_circuits(&stmts, &resolve_references(&stmts)), expected);
    let blueprint = stmts.create_blueprint("one link", Vec::new()).unwrap();
    assert_eq!(blueprint.entities[0].connections.first.red, vec![peer(2, 1)]);
    assert_eq!(blueprint.entities[1].connections.first.red, vec![peer(1, 1)]);
    assert_eq!(link_count(&blueprint.entities), 1);
}

#[test]
fn output_pole_of_a_unit_with_two_poles_is_pole_two() {
    let stmts = vec![unit(&["a"], &[]), unit(&[], &[("a", WireColor::Green)])];
    let expected =
        vec![Circuit { color: WireColor::Green, connections: vec![pole(0, 2), pole(1, 1)] }];
    assert_eq!(stmts.create_wiring(), Ok(expected));
}

#[test]
fn statements_without_links_make_no_circuit() {
    let stmts = vec![unit(&["a"], &[]), unit(&["b"], &[]), constant(&[], &[])];
    assert_eq!(stmts.create_wiring(), Ok(Vec::new()));
    assert_eq!(Vec::<Statement>::new().create_wiring(), Ok(Vec::new()));
}

#[test]
fn names_chained_over_three_statements_make_a_path() {
    let stmts = vec![
        unit(&["x"], &[]),
        unit(&["y"], &[("x", WireColor::Red)]),
        unit(&[], &[("y", WireColor::Red)]),
    ];
    let circuits = stmts.create_wiring().unwrap();
    assert_eq!(
        circuits,
        vec![
            Circuit { color: WireColor::Red, connections: vec![pole(0, 2), pole(1, 1)] },
            Circuit { color: WireColor::Red, connections: vec![pole(1, 2), pole(2, 1)] },
        ]
    );
    let blueprint = stmts.create_blueprint("path", Vec::new()).unwrap();
    let e = &blueprint.entities;
    assert_eq!(link_count(e), 2);
    assert_eq!(e[0].connections.second.red, vec![peer(2, 1)]);
    assert_eq!(e[1].connections.first.red, vec![peer(1, 2)]);
    assert_eq!(e[1].connections.second.red, vec![peer(3, 1)]);
    assert_eq!(e[2].connections.first.red, vec![peer(2, 2)]);
    assert!(e[0].connections.first.red.is_empty());
    assert!(e[2].connections.second.red.is_empty());
}

#[test]
fn constants_chained_over_three_statements_share_their_single_pole() {
    let stmts = vec![
        constant(&["x"], &[]),
        constant(&["y"], &[("x", WireColor::Red)]),
        constant(&[], &[("y", WireColor::Red)]),
    ];
    let blueprint = stmts.create_blueprint("path", Vec::new()).unwrap();
    let e = &blueprint.entities;
    assert_eq!(link_count(e), 2);
    assert_eq!(e[0].connections.first.red, vec![peer(2, 1)]);
    assert_eq!(e[1].connections.first.red, vec![peer(1, 1), peer(3, 1)]);
    assert_eq!(e[2].connections.first.red, vec![peer(2, 1)]);
    for entity in e {
        assert!(entity.connections.second.red.is_empty());
        assert!(entity.connections.second.green.is_empty());
        assert!(entity.connections.first.green.is_empty());
    }
}

#[test]
fn one_name_shared_by_three_statements_makes_a_chain_of_two_links() {
    let stmts = vec![
        unit(&["x"], &[]),
        unit(&[], &[("x", WireColor::Red)]),
        unit(&[], &[("x", WireColor::Red)]),
    ];
    let circuits = stmts.create_wiring().unwrap();
    assert_eq!(
        circuits,
        vec![Circuit {
            color: WireColor::Red,
            connections: vec![pole(0, 2), pole(1, 1), pole(2, 1)]
        }]
    );
    let blueprint = stmts.create_blueprint("chain", Vec::new()).unwrap();
    let e = &blueprint.entities;
    assert_eq!(link_count(e), 2);
    assert_eq!(e[0].connections.second.red, vec![peer(2, 1)]);
    assert_eq!(e[1].connections.first.red, vec![peer(1, 2), peer(3, 1)]);
    assert_eq!(e[2].connections.first.red, vec![peer(2, 1)]);
}

#[test]
fn red_circuits_come_before_green_ones() {
    let stmts = vec![
        unit(&["a"], &[]),
        unit(&["b"], &[("a", WireColor::Green)]),
        unit(&[], &[("b", WireColor::Red), ("a", WireColor::Green)]),
        unit(&[], &[("L0", WireColor::Red)]),
    ];
    let circuits = stmts.create_wiring().unwrap();
    assert_eq!(
        circuits,
        vec![
            Circuit { color: WireColor::Red, connections: vec![pole(0, 2), pole(3, 1)] },
            Circuit { color: WireColor::Red, connections: vec![pole(1, 2), pole(2, 1)] },
            Circuit {
                color: WireColor::Green,
                connections: vec![pole(0, 2), pole(1, 1), pole(2, 1)]
            },
        ]
    );
}

#[test]
fn wire_from_output_to_own_input() {
    let stmts = vec![unit(&[], &[("L0", WireColor::Red)])];
    let circuits = stmts.create_wiring().unwrap();
    assert_eq!(
        circuits,
        vec![Circuit { color: WireColor::Red, connections: vec![pole(0, 1), pole(0, 2)] }]
    );
    let blueprint = stmts.create_blueprint("loop", Vec::new()).unwrap();
    assert_eq!(blueprint.entities[0].connections.first.red, vec![peer(1, 2)]);
    assert_eq!(blueprint.entities[0].connections.second.red, vec![peer(1, 1)]);
}

#[test]
fn entry_is_appended_at_the_source() {
    let mut entities = units(3);
    add_entry(&mut entities, WireColor::Red, pole(0, 2), pole(2, 1));
    assert_eq!(entities[0].connections.second.red, vec![peer(3, 1)]);
    assert!(entities[2].connections.first.red.is_empty());
    add_entry(&mut entities, WireColor::Red, pole(0, 2), pole(1, 2));
    assert_eq!(entities[0].connections.second.red, vec![peer(3, 1), peer(2, 2)]);
    add_entry(&mut entities, WireColor::Green, pole(0, 1), pole(1, 1));
    assert_eq!(entities[0].connections.first.green, vec![peer(2, 1)]);
    assert!(entities[0].connections.first.red.is_empty());
    assert!(entities[0].connections.second.green.is_empty());
    assert_eq!(entities[1], units(3)[1]);
}

#[test]
fn circuit_of_four_members_is_wired_with_three_links() {
    let mut entities = units(4);
    let circuit = Circuit {
        color: WireColor::Green,
        connections: vec![pole(0, 2), pole(1, 1), pole(2, 1), pole(3, 2)],
    };
    wire_circuit(&mut entities, &circuit);
    assert_eq!(link_count(&entities), 3);
    assert_eq!(entities[0].connections.second.green, vec![peer(2, 1)]);
    assert_eq!(entities[1].connections.first.green, vec![peer(1, 2), peer(3, 1)]);
    assert_eq!(entities[2].connections.first.green, vec![peer(2, 1), peer(4, 2)]);
    assert_eq!(entities[3].connections.second.green, vec![peer(3, 1)]);
}

#[test]
fn circuit_of_one_or_no_member_is_not_wired() {
    let mut entities = units(2);
    wire_circuit(&mut entities, &Circuit { color: WireColor::Red, connections: Vec::new() });
    wire_circuit(&mut entities, &Circuit { color: WireColor::Red, connections: vec![pole(1, 1)] });
    assert_eq!(entities, units(2));
}

#[test]
fn circuits_are_wired_in_order() {
    let mut entities = units(3);
    let circuits = vec![
        Circuit { color: WireColor::Red, connections: vec![pole(0, 2), pole(1, 1)] },
        Circuit { color: WireColor::Red, connections: vec![pole(2, 1), pole(1, 1)] },
        Circuit { color: WireColor::Green, connections: vec![pole(1, 1), pole(0, 2)] },
    ];
    wire_entities(&mut entities, &circuits);
    assert_eq!(entities[0].connections.second.red, vec![peer(2, 1)]);
    assert_eq!(entities[1].connections.first.red, vec![peer(1, 2), peer(3, 1)]);
    assert_eq!(entities[2].connections.first.red, vec![peer(2, 1)]);
    assert_eq!(entities[1].connections.first.green, vec![peer(1, 2)]);
    assert_eq!(entities[0].connections.second.green, vec![peer(2, 1)]);
    assert_eq!(link_count(&entities), 3);
}

#[test]
fn icons_are_numbered_from_one() {
    let signals = vec![
        SignalID { name: text("coal"), type_: SignalIDType::Item },
        SignalID { name: text("water"), type_: SignalIDType::Fluid },
    ];
    assert_eq!(
        number_icons(&signals),
        vec![
            Icon { index: 1, signal: signals[0].clone() },
            Icon { index: 2, signal: signals[1].clone() },
        ]
    );
    assert_eq!(number_icons(&Vec::new()), Vec::new());
}

#[test]
fn blueprint_has_label_icons_and_units() {
    let stmts = vec![constant(&["a"], &[]), unit(&[], &[("a", WireColor::Red)])];
    let icon = SignalID { name: text("signal-A"), type_: SignalIDType::Virtual };
    let blueprint = stmts.create_blueprint("Blueprint", vec![icon.clone()]).unwrap();
    assert_eq!(blueprint.label, "Blueprint");
    assert_eq!(blueprint.icons, vec![Icon { index: 1, signal: icon }]);
    let mut expected = generate_entities(&stmts).unwrap();
    expected[0].connections.first.red.push(peer(2, 1));
    expected[1].connections.first.red.push(peer(1, 1));
    assert_eq!(blueprint.entities, expected);
}

#[test]
fn unknown_signal_type_is_a_compile_error() {
    let bad = Expr::Constant(vec![ConstantItem {
        signal: Signal { type_: text("gas"), name: text("steam") },
        count: 1,
    }]);
    let stmts = vec![unit(&[], &[]), shape(bad, &[], &[])];
    let error = stmts.create_blueprint("bad", Vec::new()).unwrap_err();
    assert_eq!(error, CompileError::InvalidSignalType { statement: 1, type_: text("gas") });
    assert_eq!(error.message(), "invalid signal type");
    assert!(stmts.create_wiring().is_ok());
}

#[test]
fn wire_out_of_reach_is_a_compile_error() {
    let mut stmts: Vec<Statement> = (0..8).map(|_| unit(&[], &[])).collect();
    stmts[0] = unit(&["a"], &[]);
    stmts[7] = unit(&[], &[("a", WireColor::Green)]);
    let error = stmts.create_blueprint("far", Vec::new()).unwrap_err();
    assert_eq!(
        error,
        CompileError::Unreachable(ReachError {
            location: text("U7"),
            color: WireColor::Green,
            network: text("L0"),
            index: 7,
            previous: 0,
        })
    );
    assert_eq!(error.message(), "wires cannot reach long enough");
}

#[test]
fn unknown_signal_type_is_reported_before_a_wire_out_of_reach() {
    let mut stmts: Vec<Statement> = (0..8).map(|_| unit(&[], &[])).collect();
    stmts[0] = unit(&["a"], &[]);
    stmts[7] = shape(
        Expr::Constant(vec![ConstantItem {
            signal: Signal { type_: text("gas"), name: text("steam") },
            count: 1,
        }]),
        &[],
        &[("a", WireColor::Green)],
    );
    assert_eq!(
        stmts.create_blueprint("both", Vec::new()),
        Err(CompileError::InvalidSignalType { statement: 7, type_: text("gas") })
    );
    assert!(stmts.create_wiring().is_err());
}
