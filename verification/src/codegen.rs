//! Unit generation: one unit per statement, without its links.

use vstd::prelude::*;
use vstd::string::*;
use crate::entity::{
    views_of, ArithmeticConditions, ArithmeticConditionsView, ConnectionPoint,
    ConnectionPointView, ConstantCombinatorFilter, ConstantCombinatorFilterView, ControlBehavior,
    ControlBehaviorView, DeciderConditions, DeciderConditionsView, Entity, EntityConnections,
    EntityConnectionsView, EntityKind, EntityView, Operand, OperandView, Position, SignalID,
    SignalIDView,
};
use crate::types::{
    text_is, Arithmetic, ConstantItem, Decider, Expr, InvalidSignalType, Signal,
    SignalOrConstant, Statement,
};

verus! {

/// The comparator that a unit carries for the comparator `op` of a
/// statement: the two-character comparisons become single symbols, anything
/// else is kept as it is.
pub open spec fn comparator_symbol(op: Seq<char>) -> Seq<char> {
    if op == "=="@ {
        "="@
    } else if op == "<="@ {
        "≤"@
    } else if op == ">="@ {
        "≥"@
    } else if op == "/="@ || op == "!="@ || op == "~="@ {
        "≠"@
    } else {
        op
    }
}

/// The comparator that a unit carries for the comparator `op` of a statement.
pub fn translate_comparator(op: &String) -> (symbol: String)
    ensures
        symbol@ == comparator_symbol(op@),
{
    if text_is(op, "==") {
        String::from_str("=")
    } else if text_is(op, "<=") {
        String::from_str("≤")
    } else if text_is(op, ">=") {
        String::from_str("≥")
    } else if text_is(op, "/=") || text_is(op, "!=") || text_is(op, "~=") {
        String::from_str("≠")
    } else {
        op.clone()
    }
}

/// The signal of a unit for a signal of a statement, or the type tag that is
/// not recognised.
pub open spec fn signal_model(signal: Signal) -> Result<SignalIDView, Seq<char>> {
    match signal.kind() {
        Some(kind) => Ok(SignalIDView { name: signal.name@, type_: kind }),
        None => Err(signal.type_@),
    }
}

/// The operand of a unit for an operand of a statement.
pub open spec fn operand_model(operand: SignalOrConstant) -> Result<OperandView, Seq<char>> {
    match operand {
        SignalOrConstant::Signal(signal) => match signal_model(signal) {
            Ok(id) => Ok(OperandView::Signal(id)),
            Err(tag) => Err(tag),
        },
        SignalOrConstant::Constant(number) => Ok(OperandView::Constant(number)),
    }
}

/// The control data of an arithmetic combinator: operands, operator and
/// output pass through. The first unrecognised type tag among left operand,
/// right operand and output, in that order, is an error.
pub open spec fn arithmetic_model(a: Arithmetic) -> Result<ArithmeticConditionsView, Seq<char>> {
    match operand_model(a.left) {
        Err(tag) => Err(tag),
        Ok(first) => match operand_model(a.right) {
            Err(tag) => Err(tag),
            Ok(second) => match signal_model(a.out) {
                Err(tag) => Err(tag),
                Ok(output_signal) => Ok(
                    ArithmeticConditionsView { first, operation: a.op@, second, output_signal },
                ),
            },
        },
    }
}

/// The control data of a decider combinator: signals and operand pass
/// through, the comparator is translated. The first unrecognised type tag
/// among left signal, right operand and output, in that order, is an error.
pub open spec fn decider_model(d: Decider) -> Result<DeciderConditionsView, Seq<char>> {
    match signal_model(d.left) {
        Err(tag) => Err(tag),
        Ok(first_signal) => match operand_model(d.right) {
            Err(tag) => Err(tag),
            Ok(second) => match signal_model(d.out) {
                Err(tag) => Err(tag),
                Ok(output_signal) => Ok(
                    DeciderConditionsView {
                        first_signal,
                        comparator: comparator_symbol(d.op@),
                        second,
                        output_signal,
                        copy_count_from_input: d.copy_count,
                    },
                ),
            },
        },
    }
}

/// The filter slots of a constant combinator: one per item, in order,
/// numbered from one. The first unrecognised type tag is an error.
pub open spec fn filters_model(items: Seq<ConstantItem>) -> Result<
    Seq<ConstantCombinatorFilterView>,
    Seq<char>,
>
    decreases items.len(),
{
    if items.len() == 0 {
        Ok(Seq::empty())
    } else {
        match filters_model(items.drop_last()) {
            Err(tag) => Err(tag),
            Ok(filters) => match signal_model(items.last().signal) {
                Err(tag) => Err(tag),
                Ok(signal) => Ok(
                    filters.push(
                        ConstantCombinatorFilterView {
                            signal,
                            index: items.len() as usize,
                            count: items.last().count,
                        },
                    ),
                ),
            },
        }
    }
}

/// The control data of the unit of an expression.
pub open spec fn control_model(expr: Expr) -> Result<ControlBehaviorView, Seq<char>> {
    match expr {
        Expr::Arithmetic(a) => match arithmetic_model(a) {
            Ok(conditions) => Ok(ControlBehaviorView::Arithmetic(conditions)),
            Err(tag) => Err(tag),
        },
        Expr::Decider(d) => match decider_model(d) {
            Ok(conditions) => Ok(ControlBehaviorView::Decider(conditions)),
            Err(tag) => Err(tag),
        },
        Expr::Constant(items) => match filters_model(items@) {
            Ok(filters) => Ok(ControlBehaviorView::Constant { filters, is_on: true }),
            Err(tag) => Err(tag),
        },
    }
}

/// The kind of the unit of an expression.
pub open spec fn kind_model(expr: Expr) -> EntityKind {
    match expr {
        Expr::Arithmetic(_) => EntityKind::ArithmeticCombinator,
        Expr::Decider(_) => EntityKind::DeciderCombinator,
        Expr::Constant(_) => EntityKind::ConstantCombinator,
    }
}

/// Where the unit of statement `idx` stands: the units form a vertical line,
/// unit `idx` at `(0.5, 2 * idx + 1)`.
pub open spec fn position_model(idx: nat) -> Position {
    Position { half_x: 1, half_y: (4 * idx + 2) as u128 }
}

/// A unit that no link is attached to.
pub open spec fn no_connections() -> EntityConnectionsView {
    EntityConnectionsView {
        first: ConnectionPointView { red: Seq::empty(), green: Seq::empty() },
        second: ConnectionPointView { red: Seq::empty(), green: Seq::empty() },
    }
}

/// The unit of statement `idx`, without links.
pub open spec fn entity_model(stmt: Statement, idx: nat) -> Result<EntityView, Seq<char>> {
    match control_model(stmt.expr) {
        Err(tag) => Err(tag),
        Ok(control_behavior) => Ok(
            EntityView {
                entity_number: (idx + 1) as usize,
                kind: kind_model(stmt.expr),
                position: position_model(idx),
                control_behavior,
                connections: no_connections(),
            },
        ),
    }
}

/// The units of the first `n` statements, or the index of the first
/// statement with a type tag that is not recognised, and that tag.
pub open spec fn entities_model(stmts: Seq<Statement>, n: nat) -> Result<
    Seq<EntityView>,
    (nat, Seq<char>),
>
    decreases n,
{
    if n == 0 {
        Ok(Seq::empty())
    } else {
        match entities_model(stmts, (n - 1) as nat) {
            Err(e) => Err(e),
            Ok(entities) => match entity_model(stmts[n - 1], (n - 1) as nat) {
                Err(tag) => Err(((n - 1) as nat, tag)),
                Ok(entity) => Ok(entities.push(entity)),
            },
        }
    }
}

/// The signal of a unit for a signal of a statement.
pub fn signal_id(signal: &Signal) -> (r: Result<SignalID, InvalidSignalType>)
    ensures
        match r {
            Ok(id) => signal_model(*signal) == Ok::<SignalIDView, Seq<char>>(id@),
            Err(e) => signal_model(*signal) == Err::<SignalIDView, Seq<char>>(e.type_@),
        },
{
    match signal.type_as_enum() {
        Ok(kind) => Ok(SignalID { name: signal.name.clone(), type_: kind }),
        Err(e) => Err(e),
    }
}

/// The operand of a unit for an operand of a statement.
pub fn operand(value: &SignalOrConstant) -> (r: Result<Operand, InvalidSignalType>)
    ensures
        match r {
            Ok(o) => operand_model(*value) == Ok::<OperandView, Seq<char>>(o@),
            Err(e) => operand_model(*value) == Err::<OperandView, Seq<char>>(e.type_@),
        },
{
    match value {
        SignalOrConstant::Signal(signal) => match signal_id(signal) {
            Ok(id) => Ok(Operand::Signal(id)),
            Err(e) => Err(e),
        },
        SignalOrConstant::Constant(number) => Ok(Operand::Constant(*number)),
    }
}

/// The control data of an arithmetic combinator.
pub fn arithmetic_conditions(a: &Arithmetic) -> (r: Result<
    ArithmeticConditions,
    InvalidSignalType,
>)
    ensures
        match r {
            Ok(c) => arithmetic_model(*a) == Ok::<ArithmeticConditionsView, Seq<char>>(c@),
            Err(e) => arithmetic_model(*a) == Err::<ArithmeticConditionsView, Seq<char>>(e.type_@),
        },
{
    let first = match operand(&a.left) {
        Ok(o) => o,
        Err(e) => {
            return Err(e);
        },
    };
    let second = match operand(&a.right) {
        Ok(o) => o,
        Err(e) => {
            return Err(e);
        },
    };
    let output_signal = match signal_id(&a.out) {
        Ok(id) => id,
        Err(e) => {
            return Err(e);
        },
    };
    Ok(ArithmeticConditions { first, operation: a.op.clone(), second, output_signal })
}

/// The control data of a decider combinator.
pub fn decider_conditions(d: &Decider) -> (r: Result<DeciderConditions, InvalidSignalType>)
    ensures
        match r {
            Ok(c) => decider_model(*d) == Ok::<DeciderConditionsView, Seq<char>>(c@),
            Err(e) => decider_model(*d) == Err::<DeciderConditionsView, Seq<char>>(e.type_@),
        },
{
    let first_signal = match signal_id(&d.left) {
        Ok(id) => id,
        Err(e) => {
            return Err(e);
        },
    };
    let second = match operand(&d.right) {
        Ok(o) => o,
        Err(e) => {
            return Err(e);
        },
    };
    let output_signal = match signal_id(&d.out) {
        Ok(id) => id,
        Err(e) => {
            return Err(e);
        },
    };
    Ok(
        DeciderConditions {
            first_signal,
            comparator: translate_comparator(&d.op),
            second,
            output_signal,
            copy_count_from_input: d.copy_count,
        },
    )
}

/// The filter slots of a constant combinator.
pub fn constant_filters(items: &Vec<ConstantItem>) -> (r: Result<
    Vec<ConstantCombinatorFilter>,
    InvalidSignalType,
>)
    ensures
        match r {
            Ok(f) => filters_model(items@) == Ok::<Seq<ConstantCombinatorFilterView>, Seq<char>>(
                views_of(f@),
            ),
            Err(e) => filters_model(items@) == Err::<Seq<ConstantCombinatorFilterView>, Seq<char>>(
                e.type_@,
            ),
        },
{
    let mut filters: Vec<ConstantCombinatorFilter> = Vec::new();
    let mut i: usize = 0;
    proof {
        assert(views_of(filters@) =~= Seq::<ConstantCombinatorFilterView>::empty());
    }
    while i < items.len()
        invariant
            i <= items.len(),
            filters_model(items@.take(i as int)) == Ok::<
                Seq<ConstantCombinatorFilterView>,
                Seq<char>,
            >(views_of(filters@)),
        decreases items.len() - i,
    {
        proof {
            assert(items@.take(i + 1).drop_last() =~= items@.take(i as int));
        }
        match signal_id(&items[i].signal) {
            Ok(signal) => {
                let ghost before = views_of(filters@);
                let filter = ConstantCombinatorFilter { signal, index: i + 1, count: items[i].count };
                filters.push(filter);
                proof {
                    assert(views_of(filters@) =~= before.push(filter@));
                }
            },
            Err(e) => {
                proof {
                    lemma_filters_error_stays(items@, i + 1);
                }
                return Err(e);
            },
        }
        i += 1;
    }
    proof {
        assert(items@.take(i as int) =~= items@);
    }
    Ok(filters)
}

/// An error among the first `n` items is the error of the whole list.
proof fn lemma_filters_error_stays(items: Seq<ConstantItem>, n: int)
    requires
        0 <= n <= items.len(),
        filters_model(items.take(n)) is Err,
    ensures
        filters_model(items) == filters_model(items.take(n)),
    decreases items.len(),
{
    if n < items.len() {
        assert(items.drop_last().take(n) =~= items.take(n));
        lemma_filters_error_stays(items.drop_last(), n);
    } else {
        assert(items.take(n) =~= items);
    }
}

/// The control data of the unit of an expression.
pub fn control_behavior(expr: &Expr) -> (r: Result<ControlBehavior, InvalidSignalType>)
    ensures
        match r {
            Ok(c) => control_model(*expr) == Ok::<ControlBehaviorView, Seq<char>>(c@),
            Err(e) => control_model(*expr) == Err::<ControlBehaviorView, Seq<char>>(e.type_@),
        },
{
    match expr {
        Expr::Arithmetic(a) => match arithmetic_conditions(a) {
            Ok(conditions) => Ok(ControlBehavior::Arithmetic(conditions)),
            Err(e) => Err(e),
        },
        Expr::Decider(d) => match decider_conditions(d) {
            Ok(conditions) => Ok(ControlBehavior::Decider(conditions)),
            Err(e) => Err(e),
        },
        Expr::Constant(items) => match constant_filters(items) {
            Ok(filters) => Ok(ControlBehavior::Constant { filters, is_on: true }),
            Err(e) => Err(e),
        },
    }
}

/// The unit of statement `idx`, without links: its number is `idx + 1`, its
/// kind that of the statement, its place `(0.5, 2 * idx + 1)`. A type tag
/// that is not recognised is an error.
pub fn generate_entity(stmt: &Statement, idx: usize) -> (r: Result<Entity, InvalidSignalType>)
    requires
        idx < usize::MAX,
    ensures
        match r {
            Ok(entity) => entity_model(*stmt, idx as nat) == Ok::<EntityView, Seq<char>>(entity@),
            Err(e) => entity_model(*stmt, idx as nat) == Err::<EntityView, Seq<char>>(e.type_@),
        },
{
    let control_behavior = match control_behavior(&stmt.expr) {
        Ok(c) => c,
        Err(e) => {
            return Err(e);
        },
    };
    let kind = match &stmt.expr {
        Expr::Arithmetic(_) => EntityKind::ArithmeticCombinator,
        Expr::Decider(_) => EntityKind::DeciderCombinator,
        Expr::Constant(_) => EntityKind::ConstantCombinator,
    };
    let row: u128 = idx as u128;
    let entity = Entity {
        entity_number: idx + 1,
        kind,
        position: Position { half_x: 1, half_y: 4 * row + 2 },
        control_behavior,
        connections: EntityConnections {
            first: ConnectionPoint { red: Vec::new(), green: Vec::new() },
            second: ConnectionPoint { red: Vec::new(), green: Vec::new() },
        },
    };
    Ok(entity)
}

/// The units of a statement list, without links: one unit per statement, in
/// order. The first statement with a type tag that is not recognised is
/// reported with its index and the tag.
pub fn generate_entities(stmts: &Vec<Statement>) -> (r: Result<Vec<Entity>, (usize, InvalidSignalType)>)
    ensures
        match r {
            Ok(entities) => entities.len() == stmts.len() && entities_model(
                stmts@,
                stmts.len() as nat,
            ) == Ok::<Seq<EntityView>, (nat, Seq<char>)>(views_of(entities@)),
            Err((statement, e)) => entities_model(stmts@, stmts.len() as nat) == Err::<
                Seq<EntityView>,
                (nat, Seq<char>),
            >((statement as nat, e.type_@)),
        },
{
    let mut entities: Vec<Entity> = Vec::new();
    let mut idx: usize = 0;
    proof {
        assert(views_of(entities@) =~= Seq::<EntityView>::empty());
    }
    while idx < stmts.len()
        invariant
            idx <= stmts.len(),
            entities.len() == idx,
            entities_model(stmts@, idx as nat) == Ok::<Seq<EntityView>, (nat, Seq<char>)>(
                views_of(entities@),
            ),
        decreases stmts.len() - idx,
    {
        match generate_entity(&stmts[idx], idx) {
            Ok(entity) => {
                let ghost before = views_of(entities@);
                entities.push(entity);
                proof {
                    assert(views_of(entities@) =~= before.push(entity@));
                }
            },
            Err(e) => {
                proof {
                    lemma_entities_error_stays(stmts@, (idx + 1) as nat, stmts.len() as nat);
                }
                return Err((idx, e));
            },
        }
        idx += 1;
    }
    Ok(entities)
}

/// An error among the first `n` statements is the error of every longer
/// prefix.
proof fn lemma_entities_error_stays(stmts: Seq<Statement>, n: nat, longer: nat)
    requires
        n <= longer,
        entities_model(stmts, n) is Err,
    ensures
        entities_model(stmts, longer) == entities_model(stmts, n),
    decreases longer,
{
    if n < longer {
        lemma_entities_error_stays(stmts, n, (longer - 1) as nat);
    }
}

} // verus!
