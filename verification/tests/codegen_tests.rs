use vertical::codegen::{
    arithmetic_conditions, constant_filters, control_behavior, decider_conditions,
    generate_entities, generate_entity, operand, signal_id, translate_comparator,
};
use vertical::entity::{ControlBehavior, EntityKind, Operand, Position, SignalID};
use vertical::labels::{input_line, output_line};
use vertical::types::{
    Arithmetic, ConstantItem, Decider, Expr, InvalidSignalType, Signal, SignalIDType,
    SignalOrConstant, Statement,
};

fn signal(type_: &str, name: &str) -> Signal {
    Signal { type_: type_.to_string(), name: name.to_string() }
}

fn decider(op: &str) -> Decider {
    Decider {
        left: signal("item", "iron-plate"),
        op: op.to_string(),
        right: SignalOrConstant::Constant(10),
        out: signal("virtual", "signal-A"),
        copy_count: true,
    }
}

fn constant(items: Vec<ConstantItem>) -> Statement {
    Statement { wires: None, expr: Expr::Constant(items), out: None }
}

#[test]
fn line_labels_are_letter_and_decimal_index() {
    assert_eq!(output_line(0), "L0");
    assert_eq!(input_line(0), "U0");
    assert_eq!(output_line(7), "L7");
    assert_eq!(input_line(10), "U10");
    assert_eq!(output_line(123), "L123");
    assert_eq!(input_line(9007), "U9007");
    assert_eq!(output_line(100), "L100");
}

#[test]
fn type_tags_map_to_signal_kinds() {
    assert_eq!(signal("item", "a").type_as_enum(), Ok(SignalIDType::Item));
    assert_eq!(signal("fluid", "a").type_as_enum(), Ok(SignalIDType::Fluid));
    assert_eq!(signal("virtual", "a").type_as_enum(), Ok(SignalIDType::Virtual));
}

#[test]
fn unknown_type_tag_is_an_error_with_the_tag() {
    assert_eq!(
        signal("gas", "steam").type_as_enum(),
        Err(InvalidSignalType { type_: "gas".to_string() })
    );
    assert_eq!(
        signal("", "steam").type_as_enum(),
        Err(InvalidSignalType { type_: "".to_string() })
    );
    assert_eq!(
        signal("Item", "steam").type_as_enum(),
        Err(InvalidSignalType { type_: "Item".to_string() })
    );
}

#[test]
fn comparator_table() {
    assert_eq!(translate_comparator(&"==".to_string()), "=");
    assert_eq!(translate_comparator(&"<=".to_string()), "\u{2264}");
    assert_eq!(translate_comparator(&">=".to_string()), "\u{2265}");
    assert_eq!(translate_comparator(&"/=".to_string()), "\u{2260}");
    assert_eq!(translate_comparator(&"!=".to_string()), "\u{2260}");
    assert_eq!(translate_comparator(&"~=".to_string()), "\u{2260}");
    assert_eq!(translate_comparator(&"<".to_string()), "<");
    assert_eq!(translate_comparator(&">".to_string()), ">");
    assert_eq!(translate_comparator(&"=".to_string()), "=");
    assert_eq!(translate_comparator(&"".to_string()), "");
}

#[test]
fn decider_comparator_is_translated_or_passed_through() {
    let at_least = decider_conditions(&decider(">=")).unwrap();
    assert_eq!(at_least.comparator, "\u{2265}");
    let unknown = decider_conditions(&decider("xyz")).unwrap();
    assert_eq!(unknown.comparator, "xyz");
}

#[test]
fn decider_statement_emits_translated_comparator() {
    let stmts = vec![
        Statement { wires: None, expr: Expr::Decider(decider(">=")), out: None },
        Statement { wires: None, expr: Expr::Decider(decider("xyz")), out: None },
    ];
    let entities = generate_entities(&stmts).unwrap();
    match &entities[0].control_behavior {
        ControlBehavior::Decider(conditions) => assert_eq!(conditions.comparator, "\u{2265}"),
        other => panic!("not a decider: {:?}", other),
    }
    match &entities[1].control_behavior {
        ControlBehavior::Decider(conditions) => assert_eq!(conditions.comparator, "xyz"),
        other => panic!("not a decider: {:?}", other),
    }
}

#[test]
fn decider_fields_pass_through() {
    let conditions = decider_conditions(&decider("<")).unwrap();
    assert_eq!(
        conditions.first_signal,
        SignalID { name: "iron-plate".to_string(), type_: SignalIDType::Item }
    );
    assert_eq!(conditions.second, Operand::Constant(10));
    assert_eq!(
        conditions.output_signal,
        SignalID { name: "signal-A".to_string(), type_: SignalIDType::Virtual }
    );
    assert!(conditions.copy_count_from_input);
    let mut other = decider("<");
    other.copy_count = false;
    other.right = SignalOrConstant::Signal(signal("fluid", "water"));
    let conditions = decider_conditions(&other).unwrap();
    assert!(!conditions.copy_count_from_input);
    assert_eq!(
        conditions.second,
        Operand::Signal(SignalID { name: "water".to_string(), type_: SignalIDType::Fluid })
    );
}

#[test]
fn arithmetic_fields_pass_through() {
    let a = Arithmetic {
        left: SignalOrConstant::Signal(signal("item", "coal")),
        op: "*".to_string(),
        right: SignalOrConstant::Constant(-3),
        out: signal("virtual", "signal-B"),
    };
    let conditions = arithmetic_conditions(&a).unwrap();
    assert_eq!(
        conditions.first,
        Operand::Signal(SignalID { name: "coal".to_string(), type_: SignalIDType::Item })
    );
    assert_eq!(conditions.operation, "*");
    assert_eq!(conditions.second, Operand::Constant(-3));
    assert_eq!(
        conditions.output_signal,
        SignalID { name: "signal-B".to_string(), type_: SignalIDType::Virtual }
    );
}

#[test]
fn arithmetic_reports_first_bad_tag_in_order() {
    let a = Arithmetic {
        left: SignalOrConstant::Signal(signal("one", "x")),
        op: "+".to_string(),
        right: SignalOrConstant::Signal(signal("two", "y")),
        out: signal("three", "z"),
    };
    assert_eq!(arithmetic_conditions(&a), Err(InvalidSignalType { type_: "one".to_string() }));
    let b = Arithmetic {
        left: SignalOrConstant::Constant(1),
        op: "+".to_string(),
        right: SignalOrConstant::Signal(signal("two", "y")),
        out: signal("three", "z"),
    };
    assert_eq!(arithmetic_conditions(&b), Err(InvalidSignalType { type_: "two".to_string() }));
    let c = Arithmetic {
        left: SignalOrConstant::Constant(1),
        op: "+".to_string(),
        right: SignalOrConstant::Constant(2),
        out: signal("three", "z"),
    };
    assert_eq!(arithmetic_conditions(&c), Err(InvalidSignalType { type_: "three".to_string() }));
}

#[test]
fn decider_reports_first_bad_tag_in_order() {
    let mut d = decider("<");
    d.left = signal("one", "x");
    d.out = signal("three", "z");
    assert_eq!(decider_conditions(&d), Err(InvalidSignalType { type_: "one".to_string() }));
    let mut d = decider("<");
    d.right = SignalOrConstant::Signal(signal("two", "y"));
    d.out = signal("three", "z");
    assert_eq!(decider_conditions(&d), Err(InvalidSignalType { type_: "two".to_string() }));
}

#[test]
fn operand_and_signal_conversion() {
    assert_eq!(operand(&SignalOrConstant::Constant(5)), Ok(Operand::Constant(5)));
    assert_eq!(
        operand(&SignalOrConstant::Signal(signal("fluid", "water"))),
        Ok(Operand::Signal(SignalID { name: "water".to_string(), type_: SignalIDType::Fluid }))
    );
    assert_eq!(
        operand(&SignalOrConstant::Signal(signal("gas", "steam"))),
        Err(InvalidSignalType { type_: "gas".to_string() })
    );
    assert_eq!(
        signal_id(&signal("item", "coal")),
        Ok(SignalID { name: "coal".to_string(), type_: SignalIDType::Item })
    );
}

#[test]
fn constant_filters_are_numbered_from_one() {
    let items = vec![
        ConstantItem { signal: signal("item", "coal"), count: 5 },
        ConstantItem { signal: signal("fluid", "water"), count: -7 },
        ConstantItem { signal: signal("virtual", "signal-A"), count: 0 },
    ];
    let filters = constant_filters(&items).unwrap();
    assert_eq!(filters.len(), 3);
    assert_eq!(filters[0].index, 1);
    assert_eq!(filters[1].index, 2);
    assert_eq!(filters[2].index, 3);
    assert_eq!(filters[0].count, 5);
    assert_eq!(filters[1].count, -7);
    assert_eq!(filters[2].count, 0);
    assert_eq!(filters[1].signal, SignalID { name: "water".to_string(), type_: SignalIDType::Fluid });
    assert_eq!(constant_filters(&Vec::new()), Ok(Vec::new()));
}

#[test]
fn constant_filters_report_first_bad_tag() {
    let items = vec![
        ConstantItem { signal: signal("item", "coal"), count: 5 },
        ConstantItem { signal: signal("gas", "steam"), count: 1 },
        ConstantItem { signal: signal("plasma", "sun"), count: 1 },
    ];
    assert_eq!(constant_filters(&items), Err(InvalidSignalType { type_: "gas".to_string() }));
}

#[test]
fn constant_control_is_switched_on() {
    let expr = Expr::Constant(vec![ConstantItem { signal: signal("item", "coal"), count: 5 }]);
    match control_behavior(&expr).unwrap() {
        ControlBehavior::Constant { filters, is_on } => {
            assert!(is_on);
            assert_eq!(filters.len(), 1);
        },
        other => panic!("not a constant: {:?}", other),
    }
}

#[test]
fn unit_number_kind_and_position() {
    let stmt = Statement { wires: None, expr: Expr::Decider(decider("<")), out: None };
    let entity = generate_entity(&stmt, 3).unwrap();
    assert_eq!(entity.entity_number, 4);
    assert_eq!(entity.kind, EntityKind::DeciderCombinator);
    assert_eq!(entity.position, Position { half_x: 1, half_y: 14 });
    assert!(entity.connections.first.red.is_empty());
    assert!(entity.connections.first.green.is_empty());
    assert!(entity.connections.second.red.is_empty());
    assert!(entity.connections.second.green.is_empty());
    let first = generate_entity(&constant(Vec::new()), 0).unwrap();
    assert_eq!(first.entity_number, 1);
    assert_eq!(first.kind, EntityKind::ConstantCombinator);
    assert_eq!(first.position, Position { half_x: 1, half_y: 2 });
}

#[test]
fn units_follow_statement_order() {
    let arithmetic = Arithmetic {
        left: SignalOrConstant::Constant(1),
        op: "+".to_string(),
        right: SignalOrConstant::Constant(2),
        out: signal("item", "coal"),
    };
    let stmts = vec![
        constant(Vec::new()),
        Statement { wires: None, expr: Expr::Arithmetic(arithmetic), out: None },
        Statement { wires: None, expr: Expr::Decider(decider("==")), out: None },
    ];
    let entities = generate_entities(&stmts).unwrap();
    assert_eq!(entities.len(), 3);
    assert_eq!(entities[0].kind, EntityKind::ConstantCombinator);
    assert_eq!(entities[1].kind, EntityKind::ArithmeticCombinator);
    assert_eq!(entities[2].kind, EntityKind::DeciderCombinator);
    for (i, entity) in entities.iter().enumerate() {
        assert_eq!(entity.entity_number, i + 1);
        assert_eq!(entity.position.half_x, 1);
        assert_eq!(entity.position.half_y, 4 * (i as u128) + 2);
    }
    assert_eq!(generate_entities(&Vec::new()), Ok(Vec::new()));
}

#[test]
fn units_report_first_statement_with_bad_tag() {
    let mut bad = decider("<");
    bad.out = signal("gas", "steam");
    let mut worse = decider("<");
    worse.left = signal("plasma", "sun");
    let stmts = vec![
        constant(Vec::new()),
        Statement { wires: None, expr: Expr::Decider(bad), out: None },
        Statement { wires: None, expr: Expr::Decider(worse), out: None },
    ];
    assert_eq!(
        generate_entities(&stmts),
        Err((1, InvalidSignalType { type_: "gas".to_string() }))
    );
}

#[test]
fn prototype_names() {
    assert_eq!(EntityKind::ArithmeticCombinator.prototype(), "arithmetic-combinator");
    assert_eq!(EntityKind::DeciderCombinator.prototype(), "decider-combinator");
    assert_eq!(EntityKind::ConstantCombinator.prototype(), "constant-combinator");
}
