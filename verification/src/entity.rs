//! The generated units: what a statement list compiles to.
//!
//! Every type that holds text has a view in which the text is a sequence of
//! characters; the contracts of the compiler speak of those views.

use vstd::prelude::*;
use vstd::string::*;
use crate::types::SignalIDType;

verus! {

/// The views of the items of a sequence.
pub open spec fn views_of<T: View>(items: Seq<T>) -> Seq<T::V> {
    Seq::new(items.len(), |i: int| items[i]@)
}

/// A signal of a generated unit.
#[derive(Debug, Clone, PartialEq, Eq)]
pub struct SignalID {
    pub name: String,
    pub type_: SignalIDType,
}

/// [`SignalID`] with every text as a sequence of characters.
pub struct SignalIDView {
    pub name: Seq<char>,
    pub type_: SignalIDType,
}

impl View for SignalID {
    type V = SignalIDView;

    open spec fn view(&self) -> SignalIDView {
        SignalIDView { name: self.name@, type_: self.type_ }
    }
}

/// An operand of a generated unit: a signal or a literal.
#[derive(Debug, Clone, PartialEq, Eq)]
pub enum Operand {
    Signal(SignalID),
    Constant(i32),
}

/// [`Operand`] with every text as a sequence of characters.
pub enum OperandView {
    Signal(SignalIDView),
    Constant(i32),
}

impl View for Operand {
    type V = OperandView;

    open spec fn view(&self) -> OperandView {
        match self {
            Operand::Signal(signal) => OperandView::Signal(signal@),
            Operand::Constant(number) => OperandView::Constant(*number),
        }
    }
}

/// The control data of an arithmetic combinator.
#[derive(Debug, Clone, PartialEq, Eq)]
pub struct ArithmeticConditions {
    pub first: Operand,
    pub operation: String,
    pub second: Operand,
    pub output_signal: SignalID,
}

/// [`ArithmeticConditions`] with every text as a sequence of characters.
pub struct ArithmeticConditionsView {
    pub first: OperandView,
    pub operation: Seq<char>,
    pub second: OperandView,
    pub output_signal: SignalIDView,
}

impl View for ArithmeticConditions {
    type V = ArithmeticConditionsView;

    open spec fn view(&self) -> ArithmeticConditionsView {
        ArithmeticConditionsView {
            first: self.first@,
            operation: self.operation@,
            second: self.second@,
            output_signal: self.output_signal@,
        }
    }
}

/// The control data of a decider combinator.
#[derive(Debug, Clone, PartialEq, Eq)]
pub struct DeciderConditions {
    pub first_signal: SignalID,
    pub comparator: String,
    pub second: Operand,
    pub output_signal: SignalID,
    pub copy_count_from_input: bool,
}

/// [`DeciderConditions`] with every text as a sequence of characters.
pub struct DeciderConditionsView {
    pub first_signal: SignalIDView,
    pub comparator: Seq<char>,
    pub second: OperandView,
    pub output_signal: SignalIDView,
    pub copy_count_from_input: bool,
}

impl View for DeciderConditions {
    type V = DeciderConditionsView;

    open spec fn view(&self) -> DeciderConditionsView {
        DeciderConditionsView {
            first_signal: self.first_signal@,
            comparator: self.comparator@,
            second: self.second@,
            output_signal: self.output_signal@,
            copy_count_from_input: self.copy_count_from_input,
        }
    }
}

/// One filter slot of a constant combinator. Slots are numbered from one.
#[derive(Debug, Clone, PartialEq, Eq)]
pub struct ConstantCombinatorFilter {
    pub signal: SignalID,
    pub index: usize,
    pub count: i32,
}

/// [`ConstantCombinatorFilter`] with every text as a sequence of characters.
pub struct ConstantCombinatorFilterView {
    pub signal: SignalIDView,
    pub index: usize,
    pub count: i32,
}

impl View for ConstantCombinatorFilter {
    type V = ConstantCombinatorFilterView;

    open spec fn view(&self) -> ConstantCombinatorFilterView {
        ConstantCombinatorFilterView { signal: self.signal@, index: self.index, count: self.count }
    }
}

/// The control data of a generated unit, by the kind of the unit.
#[derive(Debug, Clone, PartialEq, Eq)]
pub enum ControlBehavior {
    Arithmetic(ArithmeticConditions),
    Decider(DeciderConditions),
    Constant { filters: Vec<ConstantCombinatorFilter>, is_on: bool },
}

/// [`ControlBehavior`] with every text and every list as a sequence.
pub enum ControlBehaviorView {
    Arithmetic(ArithmeticConditionsView),
    Decider(DeciderConditionsView),
    Constant { filters: Seq<ConstantCombinatorFilterView>, is_on: bool },
}

impl View for ControlBehavior {
    type V = ControlBehaviorView;

    open spec fn view(&self) -> ControlBehaviorView {
        match self {
            ControlBehavior::Arithmetic(conditions) => ControlBehaviorView::Arithmetic(conditions@),
            ControlBehavior::Decider(conditions) => ControlBehaviorView::Decider(conditions@),
            ControlBehavior::Constant { filters, is_on } => ControlBehaviorView::Constant {
                filters: views_of(filters@),
                is_on: *is_on,
            },
        }
    }
}

/// The kind of a generated unit.
#[derive(Debug, Clone, Copy, PartialEq, Eq, Hash, Structural)]
pub enum EntityKind {
    ArithmeticCombinator,
    DeciderCombinator,
    ConstantCombinator,
}

impl EntityKind {
    /// The name under which the game knows units of this kind.
    pub open spec fn prototype_name(self) -> Seq<char> {
        match self {
            EntityKind::ArithmeticCombinator => "arithmetic-combinator"@,
            EntityKind::DeciderCombinator => "decider-combinator"@,
            EntityKind::ConstantCombinator => "constant-combinator"@,
        }
    }

    /// The name under which the game knows units of this kind.
    pub fn prototype(&self) -> (name: String)
        ensures
            name@ == self.prototype_name(),
    {
        match self {
            EntityKind::ArithmeticCombinator => String::from_str("arithmetic-combinator"),
            EntityKind::DeciderCombinator => String::from_str("decider-combinator"),
            EntityKind::ConstantCombinator => String::from_str("constant-combinator"),
        }
    }
}

/// Where a unit stands, in half tiles: a unit whose centre is at tile
/// coordinates `(x, y)` has `half_x == 2 * x` and `half_y == 2 * y`.
#[derive(Debug, Clone, Copy, PartialEq, Eq, Hash, Structural)]
pub struct Position {
    pub half_x: u128,
    pub half_y: u128,
}

/// One end of a link, seen from the other end: the number of the peer unit
/// and the pole of the peer that the link is attached to.
#[derive(Debug, Clone, Copy, PartialEq, Eq, Hash, Structural)]
pub struct ConnectionData {
    pub entity_id: usize,
    pub circuit_id: usize,
}

/// The links attached to one pole of a unit, by colour, in the order in which
/// they were attached.
#[derive(Debug, Clone, PartialEq, Eq)]
pub struct ConnectionPoint {
    pub red: Vec<ConnectionData>,
    pub green: Vec<ConnectionData>,
}

/// [`ConnectionPoint`] with its lists as sequences.
pub struct ConnectionPointView {
    pub red: Seq<ConnectionData>,
    pub green: Seq<ConnectionData>,
}

impl View for ConnectionPoint {
    type V = ConnectionPointView;

    open spec fn view(&self) -> ConnectionPointView {
        ConnectionPointView { red: self.red@, green: self.green@ }
    }
}

/// The links of a unit: those of pole 1 and those of pole 2.
#[derive(Debug, Clone, PartialEq, Eq)]
pub struct EntityConnections {
    pub first: ConnectionPoint,
    pub second: ConnectionPoint,
}

/// [`EntityConnections`] with its lists as sequences.
pub struct EntityConnectionsView {
    pub first: ConnectionPointView,
    pub second: ConnectionPointView,
}

impl View for EntityConnections {
    type V = EntityConnectionsView;

    open spec fn view(&self) -> EntityConnectionsView {
        EntityConnectionsView { first: self.first@, second: self.second@ }
    }
}

/// A generated unit. Units are numbered from one, in the order of their
/// statements.
#[derive(Debug, Clone, PartialEq, Eq)]
pub struct Entity {
    pub entity_number: usize,
    pub kind: EntityKind,
    pub position: Position,
    pub control_behavior: ControlBehavior,
    pub connections: EntityConnections,
}

/// [`Entity`] with every text and every list as a sequence.
pub struct EntityView {
    pub entity_number: usize,
    pub kind: EntityKind,
    pub position: Position,
    pub control_behavior: ControlBehaviorView,
    pub connections: EntityConnectionsView,
}

impl View for Entity {
    type V = EntityView;

    open spec fn view(&self) -> EntityView {
        EntityView {
            entity_number: self.entity_number,
            kind: self.kind,
            position: self.position,
            control_behavior: self.control_behavior@,
            connections: self.connections@,
        }
    }
}

/// A display icon of a blueprint. Icons are numbered from one.
#[derive(Debug, Clone, PartialEq, Eq)]
pub struct Icon {
    pub index: usize,
    pub signal: SignalID,
}

/// [`Icon`] with every text as a sequence of characters.
pub struct IconView {
    pub index: usize,
    pub signal: SignalIDView,
}

impl View for Icon {
    type V = IconView;

    open spec fn view(&self) -> IconView {
        IconView { index: self.index, signal: self.signal@ }
    }
}

/// A labelled set of generated units with their links.
#[derive(Debug, Clone, PartialEq, Eq)]
pub struct Blueprint {
    pub label: String,
    pub icons: Vec<Icon>,
    pub entities: Vec<Entity>,
}

/// [`Blueprint`] with every text and every list as a sequence.
pub struct BlueprintView {
    pub label: Seq<char>,
    pub icons: Seq<IconView>,
    pub entities: Seq<EntityView>,
}

impl View for Blueprint {
    type V = BlueprintView;

    open spec fn view(&self) -> BlueprintView {
        BlueprintView {
            label: self.label@,
            icons: views_of(self.icons@),
            entities: views_of(self.entities@),
        }
    }
}

} // verus!
