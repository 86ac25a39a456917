//! Composition: from a statement list to a blueprint.

use vstd::prelude::*;
use vstd::string::*;
use crate::assemble::lemma_circuits_fit;
use crate::codegen::{entities_model, generate_entities};
use crate::entity::{views_of, Blueprint, BlueprintView, Icon, IconView, SignalID};
use crate::inject::{with_circuits, wire_entities};
use crate::reach::{ReachError, ReachErrorView};
use crate::resolver::resolve_both;
use crate::types::Statement;
use crate::wiring::{wiring_model, WiringCreator};

verus! {

/// Why a statement list does not compile.
#[derive(Debug, Clone, PartialEq, Eq)]
pub enum CompileError {
    /// A signal of statement `statement` has the type tag `type_`, which is
    /// none of `item`, `fluid` and `virtual`.
    InvalidSignalType { statement: usize, type_: String },
    /// A wire would have to span more statements than it can reach.
    Unreachable(ReachError),
}

/// [`CompileError`] with every text as a sequence of characters.
pub enum CompileErrorView {
    InvalidSignalType { statement: usize, type_: Seq<char> },
    Unreachable(ReachErrorView),
}

impl View for CompileError {
    type V = CompileErrorView;

    open spec fn view(&self) -> CompileErrorView {
        match self {
            CompileError::InvalidSignalType { statement, type_ } => {
                CompileErrorView::InvalidSignalType { statement: *statement, type_: type_@ }
            },
            CompileError::Unreachable(e) => CompileErrorView::Unreachable(e@),
        }
    }
}

impl CompileError {
    /// A short description of the error.
    pub fn message(&self) -> (text: String)
        ensures
            text@ == match self {
                CompileError::InvalidSignalType { .. } => "invalid signal type"@,
                CompileError::Unreachable(_) => "wires cannot reach long enough"@,
            },
    {
        match self {
            CompileError::InvalidSignalType { .. } => String::from_str("invalid signal type"),
            CompileError::Unreachable(_) => String::from_str("wires cannot reach long enough"),
        }
    }
}

/// The icons of a blueprint: the signals in order, numbered from one.
pub open spec fn icons_model(signals: Seq<SignalID>) -> Seq<IconView> {
    Seq::new(signals.len(), |i: int| IconView { index: (i + 1) as usize, signal: signals[i]@ })
}

/// The blueprint of a statement list: the units of the statements with the
/// links of the circuits, under the given label and icons. A type tag that
/// is not recognised is the error before a wire that cannot reach.
pub open spec fn blueprint_model(
    stmts: Seq<Statement>,
    name: Seq<char>,
    icons: Seq<SignalID>,
) -> Result<BlueprintView, CompileErrorView> {
    match entities_model(stmts, stmts.len()) {
        Err((statement, tag)) => Err(
            CompileErrorView::InvalidSignalType { statement: statement as usize, type_: tag },
        ),
        Ok(units) => match wiring_model(stmts) {
            Err(e) => Err(CompileErrorView::Unreachable(e)),
            Ok(circuits) => Ok(
                BlueprintView {
                    label: name,
                    icons: icons_model(icons),
                    entities: with_circuits(units, circuits, circuits.len()),
                },
            ),
        },
    }
}

/// Numbers the icons from one.
pub fn number_icons(signals: &Vec<SignalID>) -> (icons: Vec<Icon>)
    ensures
        views_of(icons@) == icons_model(signals@),
{
    let mut icons: Vec<Icon> = Vec::new();
    let mut i: usize = 0;
    while i < signals.len()
        invariant
            i <= signals.len(),
            icons.len() == i,
            forall|j: int| 0 <= j < i ==> (#[trigger] icons[j])@ == icons_model(signals@)[j],
        decreases signals.len() - i,
    {
        let signal = SignalID { name: signals[i].name.clone(), type_: signals[i].type_ };
        icons.push(Icon { index: i + 1, signal });
        i += 1;
    }
    proof {
        assert(views_of(icons@) =~= icons_model(signals@));
    }
    icons
}

/// Makes the blueprint of a statement list.
pub trait BlueprintComposer {
    fn create_blueprint(&self, name: &str, icons: Vec<SignalID>) -> Result<Blueprint, CompileError>;
}

impl BlueprintComposer for Vec<Statement> {
    /// Generates the unit of every statement, makes the circuits and writes
    /// their links into the units. The blueprint carries `name` as its label
    /// and `icons`, numbered from one, as its icons.
    fn create_blueprint(&self, name: &str, icons: Vec<SignalID>) -> (r: Result<
        Blueprint,
        CompileError,
    >)
        ensures
            match r {
                Ok(blueprint) => blueprint_model(self@, name@, icons@) == Ok::<
                    BlueprintView,
                    CompileErrorView,
                >(blueprint@),
                Err(e) => blueprint_model(self@, name@, icons@) == Err::<
                    BlueprintView,
                    CompileErrorView,
                >(e@),
            },
    {
        let icons = number_icons(&icons);
        let mut entities = match generate_entities(self) {
            Ok(entities) => entities,
            Err((statement, e)) => {
                return Err(CompileError::InvalidSignalType { statement, type_: e.type_ });
            },
        };
        let circuits = match self.create_wiring() {
            Ok(circuits) => circuits,
            Err(e) => {
                return Err(CompileError::Unreachable(e));
            },
        };
        proof {
            lemma_circuits_fit(self@, resolve_both(self@));
        }
        wire_entities(&mut entities, &circuits);
        Ok(Blueprint { label: String::from_str(name), icons, entities })
    }
}

} // verus!
