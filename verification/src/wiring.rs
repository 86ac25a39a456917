//! Circuits: the groups of poles that share one network.

use vstd::prelude::*;
use crate::assemble::{assemble_circuits, circuits_of};
use crate::entity::views_of;
use crate::reach::{check_reach, reach_model, usages, within_reach, ReachError, ReachErrorView};
use crate::resolver::{resolve_both, resolve_references};
use crate::types::{Statement, WireColor};

verus! {

/// One pole of one statement.
#[derive(Debug, Clone, Copy, PartialEq, Eq, Hash, Structural)]
pub struct CircuitConnection {
    /// The index of the statement.
    pub idx: usize,
    /// 1 for the input pole (the U side), 2 for the output pole (the L side).
    pub conn_point: usize,
}

/// The poles of one network of one colour, in the order of their statements.
#[derive(Debug, Clone, PartialEq, Eq)]
pub struct Circuit {
    pub color: WireColor,
    pub connections: Vec<CircuitConnection>,
}

/// [`Circuit`] with its members as a sequence.
pub struct CircuitView {
    pub color: WireColor,
    pub connections: Seq<CircuitConnection>,
}

impl View for Circuit {
    type V = CircuitView;

    open spec fn view(&self) -> CircuitView {
        CircuitView { color: self.color, connections: self.connections@ }
    }
}

impl CircuitConnection {
    /// The pole is one of the two poles of one of `units` statements.
    pub open spec fn fits(&self, units: nat) -> bool {
        self.idx < units && (self.conn_point == 1 || self.conn_point == 2)
    }
}

impl CircuitView {
    /// Every member is a pole of one of `units` statements.
    pub open spec fn fits(&self, units: nat) -> bool {
        forall|k: int| 0 <= k < self.connections.len() ==> (#[trigger] self.connections[k]).fits(units)
    }
}

/// The circuits of a statement list, or the first wire that cannot reach.
pub open spec fn wiring_model(stmts: Seq<Statement>) -> Result<Seq<CircuitView>, ReachErrorView> {
    let nets = resolve_both(stmts);
    match reach_model(nets, usages(stmts, stmts.len())) {
        Ok(()) => Ok(circuits_of(stmts, nets)),
        Err(e) => Err(e),
    }
}

/// Makes the circuits of a statement list.
pub trait WiringCreator {
    fn create_wiring(&self) -> Result<Vec<Circuit>, ReachError>;
}

impl WiringCreator for Vec<Statement> {
    /// Resolves the references of the statements, checks that every wire can
    /// reach and assembles the circuits. Where a wire cannot reach, the
    /// first such wire is the error and no circuit is made.
    fn create_wiring(&self) -> (r: Result<Vec<Circuit>, ReachError>)
        ensures
            r is Ok <==> within_reach(resolve_both(self@), usages(self@, self.len() as nat)),
            match r {
                Ok(circuits) => wiring_model(self@) == Ok::<Seq<CircuitView>, ReachErrorView>(
                    views_of(circuits@),
                ),
                Err(e) => wiring_model(self@) == Err::<Seq<CircuitView>, ReachErrorView>(e@),
            },
    {
        let refs = resolve_references(self);
        match check_reach(self, &refs) {
            Ok(()) => Ok(assemble_circuits(self, &refs)),
            Err(e) => Err(e),
        }
    }
}

} // verus!
