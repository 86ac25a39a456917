//! Compiles an ordered list of combinator statements into generated units and
//! the wire links between them.
//!
//! Every statement describes one arithmetic, decider or constant combinator,
//! the wires bound to its input pole and the names given to its output pole.
//! Compilation resolves names and line references into circuit networks,
//! checks that no wire has to span more statements than it can reach,
//! assembles the chain of links of every network and writes those links into
//! the generated units.

pub mod types;
pub mod labels;
pub mod entity;
pub mod codegen;
pub mod wiring;
pub mod inject;
pub mod refmap;
pub mod netindex;
pub mod resolver;
pub mod resolver_laws;
pub mod reach;
pub mod assemble;
pub mod composer;

pub use composer::BlueprintComposer;
pub use wiring::WiringCreator;
