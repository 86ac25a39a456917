use vertical::reach::{check_reach, ReachError, REACH};
use vertical::resolver::resolve_references;
use vertical::types::{Arithmetic, Expr, Signal, SignalOrConstant, Statement, Wire, WireColor};
use vertical::wiring::WiringCreator;

fn text(s: &str) -> String {
    s.to_string()
}

fn unit(out: &[&str], wires: &[(&str, WireColor)]) -> Statement {
    let expr = Expr::Arithmetic(Arithmetic {
        left: SignalOrConstant::Constant(1),
        op: text("+"),
        right: SignalOrConstant::Constant(2),
        out: Signal { type_: text("item"), name: text("coal") },
    });
    Statement {
        wires: if wires.is_empty() {
            None
        } else {
            Some(wires.iter().map(|(loc, color)| Wire { loc: text(loc), color: *color }).collect())
        },
        expr,
        out: if out.is_empty() { None } else { Some(out.iter().map(|name| text(name)).collect()) },
    }
}

fn spaced(gap: usize, color: WireColor) -> Vec<Statement> {
    let mut stmts = vec![unit(&["a"], &[])];
    for _ in 1..gap {
        stmts.push(unit(&[], &[]));
    }
    stmts.push(unit(&[], &[("a", color)]));
    stmts
}

fn check(stmts: &Vec<Statement>) -> Result<(), ReachError> {
    check_reach(stmts, &resolve_references(stmts))
}

#[test]
fn reach_is_five_statements() {
    assert_eq!(REACH, 5);
}

#[test]
fn lists_without_shared_networks_pass() {
    assert_eq!(check(&Vec::new()), Ok(()));
    let stmts: Vec<Statement> = (0..20).map(|_| unit(&[], &[])).collect();
    assert_eq!(check(&stmts), Ok(()));
}

#[test]
fn wire_over_seven_statements_cannot_reach() {
    let stmts = spaced(7, WireColor::Green);
    assert_eq!(stmts.len(), 8);
    let expected = ReachError {
        location: text("U7"),
        color: WireColor::Green,
        network: text("L0"),
        index: 7,
        previous: 0,
    };
    assert_eq!(check(&stmts), Err(expected.clone()));
    assert_eq!(stmts.create_wiring(), Err(expected));
}

#[test]
fn wire_over_five_statements_reaches() {
    for gap in 1..=5 {
        assert_eq!(check(&spaced(gap, WireColor::Red)), Ok(()));
        assert_eq!(check(&spaced(gap, WireColor::Green)), Ok(()));
    }
}

#[test]
fn wire_over_six_statements_cannot_reach() {
    let expected = ReachError {
        location: text("U6"),
        color: WireColor::Red,
        network: text("L0"),
        index: 6,
        previous: 0,
    };
    assert_eq!(check(&spaced(6, WireColor::Red)), Err(expected));
}

#[test]
fn a_use_in_between_shortens_the_span() {
    let mut stmts = spaced(8, WireColor::Red);
    stmts[4] = unit(&[], &[("a", WireColor::Red)]);
    assert_eq!(check(&stmts), Ok(()));
    assert!(stmts.create_wiring().is_ok());
}

#[test]
fn a_use_on_the_other_color_does_not_shorten_the_span() {
    let mut stmts = spaced(8, WireColor::Red);
    stmts[4] = unit(&[], &[("a", WireColor::Green)]);
    let expected = ReachError {
        location: text("U8"),
        color: WireColor::Red,
        network: text("L0"),
        index: 8,
        previous: 0,
    };
    assert_eq!(check(&stmts), Err(expected));
}

#[test]
fn the_first_violation_is_reported() {
    let mut stmts = spaced(6, WireColor::Green);
    stmts[0] = unit(&["a", "b"], &[]);
    stmts.push(unit(&[], &[("b", WireColor::Red)]));
    let expected = ReachError {
        location: text("U6"),
        color: WireColor::Green,
        network: text("L0"),
        index: 6,
        previous: 0,
    };
    assert_eq!(check(&stmts), Err(expected));
}

#[test]
fn a_name_given_again_counts_as_a_use() {
    let mut stmts = spaced(7, WireColor::Red);
    stmts[3] = unit(&["a"], &[]);
    assert_eq!(check(&stmts), Ok(()));
}

#[test]
fn the_named_location_is_reported_when_it_is_used_first() {
    let mut stmts: Vec<Statement> = (0..8).map(|_| unit(&[], &[])).collect();
    stmts[0] = unit(&["a"], &[]);
    stmts[7] = unit(&["a"], &[]);
    let expected = ReachError {
        location: text("L7"),
        color: WireColor::Red,
        network: text("L0"),
        index: 7,
        previous: 0,
    };
    assert_eq!(check(&stmts), Err(expected));
}
