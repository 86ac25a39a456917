use vertical::refmap::ReferenceMap;
use vertical::resolver::{
    input_names_of, output_names_of, resolve_color, resolve_references, References,
};
use vertical::types::{Arithmetic, Expr, Signal, SignalOrConstant, Statement, Wire, WireColor};

fn text(s: &str) -> String {
    s.to_string()
}

fn unit(out: &[&str], wires: &[(&str, WireColor)]) -> Statement {
    let expr = Expr::Arithmetic(Arithmetic {
        left: SignalOrConstant::Constant(1),
        op: text("+"),
        right: SignalOrConstant::Constant(2),
        out: Signal { type_: text("item"), name: text("coal") },
    });
    Statement {
        wires: if wires.is_empty() {
            None
        } else {
            Some(wires.iter().map(|(loc, color)| Wire { loc: text(loc), color: *color }).collect())
        },
        expr,
        out: if out.is_empty() { None } else { Some(out.iter().map(|name| text(name)).collect()) },
    }
}

fn network(refs: &References, name: &str, color: WireColor) -> String {
    refs.canonical(&text(name), color).unwrap()
}

#[test]
fn reference_map_starts_empty() {
    let map = ReferenceMap::new();
    assert_eq!(map.get(&text("a")), None);
    assert_eq!(map.get(&text("")), None);
}

#[test]
fn reference_map_records_a_new_name() {
    let map = ReferenceMap::new().assign(&text("a"), &text("L0"));
    assert_eq!(map.get(&text("a")), Some(text("L0")));
    assert_eq!(map.get(&text("L0")), None);
}

#[test]
fn reference_map_moves_the_old_network_on_overwrite() {
    let map = ReferenceMap::new()
        .assign(&text("L0"), &text("L0"))
        .assign(&text("a"), &text("L0"))
        .assign(&text("L1"), &text("L1"))
        .assign(&text("b"), &text("L1"))
        .assign(&text("c"), &text("L1"))
        .assign(&text("b"), &text("L0"));
    assert_eq!(map.get(&text("L0")), Some(text("L0")));
    assert_eq!(map.get(&text("a")), Some(text("L0")));
    assert_eq!(map.get(&text("b")), Some(text("L0")));
    assert_eq!(map.get(&text("L1")), Some(text("L0")));
    assert_eq!(map.get(&text("c")), Some(text("L0")));
}

#[test]
fn reference_map_overwrite_with_same_network_changes_nothing() {
    let map = ReferenceMap::new()
        .assign(&text("L0"), &text("L0"))
        .assign(&text("a"), &text("L0"))
        .assign(&text("L1"), &text("L1"))
        .assign(&text("a"), &text("L0"));
    assert_eq!(map.get(&text("L0")), Some(text("L0")));
    assert_eq!(map.get(&text("a")), Some(text("L0")));
    assert_eq!(map.get(&text("L1")), Some(text("L1")));
}

#[test]
fn pole_names_in_order() {
    let stmt = unit(
        &["a", "b"],
        &[("x", WireColor::Red), ("y", WireColor::Green), ("z", WireColor::Red)],
    );
    assert_eq!(output_names_of(&stmt, 4), vec![text("L4"), text("a"), text("b")]);
    assert_eq!(input_names_of(&stmt, 4, WireColor::Red), vec![text("U4"), text("x"), text("z")]);
    assert_eq!(input_names_of(&stmt, 4, WireColor::Green), vec![text("U4"), text("y")]);
    let bare = unit(&[], &[]);
    assert_eq!(output_names_of(&bare, 0), vec![text("L0")]);
    assert_eq!(input_names_of(&bare, 0, WireColor::Red), vec![text("U0")]);
}

#[test]
fn poles_without_names_are_their_own_networks() {
    let refs = resolve_references(&vec![unit(&[], &[]), unit(&[], &[])]);
    for color in [WireColor::Red, WireColor::Green] {
        assert_eq!(network(&refs, "L0", color), "L0");
        assert_eq!(network(&refs, "U0", color), "U0");
        assert_eq!(network(&refs, "L1", color), "L1");
        assert_eq!(network(&refs, "U1", color), "U1");
        assert_eq!(refs.canonical(&text("a"), color), None);
        assert_eq!(refs.canonical(&text("L2"), color), None);
    }
}

#[test]
fn empty_list_resolves_nothing() {
    let refs = resolve_references(&Vec::new());
    assert_eq!(refs.canonical(&text("L0"), WireColor::Red), None);
    assert_eq!(refs.canonical(&text("U0"), WireColor::Green), None);
}

#[test]
fn wire_joins_the_network_of_a_name() {
    let stmts = vec![unit(&["a"], &[]), unit(&[], &[("a", WireColor::Red)])];
    let refs = resolve_references(&stmts);
    assert_eq!(network(&refs, "L0", WireColor::Red), "L0");
    assert_eq!(network(&refs, "a", WireColor::Red), "L0");
    assert_eq!(network(&refs, "U1", WireColor::Red), "L0");
    assert_eq!(network(&refs, "L1", WireColor::Red), "L1");
    assert_eq!(network(&refs, "U0", WireColor::Red), "U0");
    assert_eq!(network(&refs, "a", WireColor::Green), "L0");
    assert_eq!(network(&refs, "U1", WireColor::Green), "U1");
}

#[test]
fn colors_are_resolved_independently() {
    let stmts = vec![
        unit(&["a"], &[]),
        unit(&["b"], &[("a", WireColor::Green)]),
        unit(&[], &[("b", WireColor::Red), ("a", WireColor::Green)]),
    ];
    let red = resolve_color(&stmts, WireColor::Red);
    let green = resolve_color(&stmts, WireColor::Green);
    assert_eq!(red.get(&text("U1")), Some(text("U1")));
    assert_eq!(red.get(&text("U2")), Some(text("L1")));
    assert_eq!(red.get(&text("b")), Some(text("L1")));
    assert_eq!(green.get(&text("U1")), Some(text("L0")));
    assert_eq!(green.get(&text("U2")), Some(text("L0")));
    assert_eq!(green.get(&text("b")), Some(text("L1")));
    let refs = resolve_references(&stmts);
    for name in ["L0", "U0", "L1", "U1", "L2", "U2", "a", "b"] {
        assert_eq!(refs.red.get(&text(name)), red.get(&text(name)));
        assert_eq!(refs.green.get(&text(name)), green.get(&text(name)));
    }
}

#[test]
fn two_networks_merge_when_one_pole_names_both() {
    let stmts = vec![
        unit(&["a"], &[]),
        unit(&["b"], &[]),
        unit(&[], &[("a", WireColor::Red), ("b", WireColor::Red)]),
    ];
    let refs = resolve_references(&stmts);
    for name in ["L0", "a", "L1", "b", "U2"] {
        assert_eq!(network(&refs, name, WireColor::Red), "L0");
    }
    assert_eq!(network(&refs, "L2", WireColor::Red), "L2");
    assert_eq!(network(&refs, "L1", WireColor::Green), "L1");
    assert_eq!(network(&refs, "b", WireColor::Green), "L1");
}

#[test]
fn output_and_input_pole_naming_the_same_networks() {
    let stmts = vec![
        unit(&["a"], &[]),
        unit(&["b"], &[]),
        unit(&["a", "b"], &[("b", WireColor::Red)]),
    ];
    let refs = resolve_references(&stmts);
    for name in ["L0", "a", "L1", "b", "L2", "U2"] {
        assert_eq!(network(&refs, name, WireColor::Red), "L1");
    }
    assert_eq!(network(&refs, "U0", WireColor::Red), "U0");
    assert_eq!(network(&refs, "U1", WireColor::Red), "U1");
    for name in ["L0", "a", "L1", "b", "L2"] {
        assert_eq!(network(&refs, name, WireColor::Green), "L0");
    }
    assert_eq!(network(&refs, "U2", WireColor::Green), "U2");
}

#[test]
fn wire_to_own_output_joins_both_poles() {
    let refs = resolve_references(&vec![unit(&[], &[("L0", WireColor::Red)])]);
    assert_eq!(network(&refs, "L0", WireColor::Red), "U0");
    assert_eq!(network(&refs, "U0", WireColor::Red), "U0");
    assert_eq!(network(&refs, "L0", WireColor::Green), "L0");
    assert_eq!(network(&refs, "U0", WireColor::Green), "U0");
}

#[test]
fn wire_to_a_later_line_is_found_by_that_line() {
    let stmts = vec![unit(&[], &[("L2", WireColor::Green)]), unit(&[], &[]), unit(&["z"], &[])];
    let refs = resolve_references(&stmts);
    assert_eq!(network(&refs, "U0", WireColor::Green), "U0");
    assert_eq!(network(&refs, "L2", WireColor::Green), "U0");
    assert_eq!(network(&refs, "z", WireColor::Green), "U0");
    assert_eq!(network(&refs, "L2", WireColor::Red), "L2");
    assert_eq!(network(&refs, "z", WireColor::Red), "L2");
}

#[test]
fn linked_names_share_a_network_in_either_order() {
    let forward = resolve_references(&vec![unit(&["x"], &[]), unit(&[], &[("x", WireColor::Red)])]);
    assert_eq!(network(&forward, "L0", WireColor::Red), network(&forward, "U1", WireColor::Red));
    assert_eq!(network(&forward, "x", WireColor::Red), network(&forward, "U1", WireColor::Red));
    let backward =
        resolve_references(&vec![unit(&[], &[("x", WireColor::Red)]), unit(&["x"], &[])]);
    assert_eq!(network(&backward, "U0", WireColor::Red), network(&backward, "L1", WireColor::Red));
    assert_eq!(network(&backward, "x", WireColor::Red), network(&backward, "L1", WireColor::Red));
    assert_ne!(network(&backward, "L0", WireColor::Red), network(&backward, "L1", WireColor::Red));
}

#[test]
fn names_linked_through_others_share_a_network() {
    let stmts = vec![
        unit(&["a"], &[]),
        unit(&["b"], &[]),
        unit(&["c"], &[]),
        unit(&[], &[("b", WireColor::Green), ("c", WireColor::Green)]),
        unit(&[], &[("a", WireColor::Green), ("b", WireColor::Green)]),
    ];
    let refs = resolve_references(&stmts);
    let expected = network(&refs, "a", WireColor::Green);
    for name in ["L0", "a", "L1", "b", "L2", "c", "U3", "U4"] {
        assert_eq!(network(&refs, name, WireColor::Green), expected);
    }
    assert_ne!(network(&refs, "a", WireColor::Red), network(&refs, "b", WireColor::Red));
    assert_ne!(network(&refs, "U3", WireColor::Green), network(&refs, "L3", WireColor::Green));
}

#[test]
fn resolution_is_flat() {
    let stmts = vec![
        unit(&["a"], &[("L3", WireColor::Red)]),
        unit(&["b"], &[("a", WireColor::Green)]),
        unit(&["a", "b"], &[("b", WireColor::Red), ("c", WireColor::Green)]),
        unit(&["c", "U0"], &[("a", WireColor::Red), ("L3", WireColor::Green)]),
        unit(&[], &[("L4", WireColor::Red), ("U3", WireColor::Red), ("c", WireColor::Green)]),
    ];
    let refs = resolve_references(&stmts);
    let names = [
        "L0", "U0", "L1", "U1", "L2", "U2", "L3", "U3", "L4", "U4", "a", "b", "c",
    ];
    for color in [WireColor::Red, WireColor::Green] {
        for name in names {
            let root = network(&refs, name, color);
            assert_eq!(refs.canonical(&root, color), Some(root.clone()));
        }
    }
}
