//! A small digital-logic simulation core: fixed-width signal values with a
//! width-aware merge, a block/connection/wire runtime graph, an instantiator
//! that builds the graph from a declarative circuit description, and a
//! per-tick propagator that drives wire outputs from wire inputs.

pub mod block_label;
pub mod circuit;
pub mod definition;
pub mod graph;
pub mod instantiate;
pub mod signal;

pub use block_label::BlockLabelBundle;
pub use circuit::CircuitGraph;
pub use definition::BlockDefinition;
pub use definition::ConnectionDefinition;
pub use definition::ConnectionDefinitionRef;
pub use definition::WireDefinition;
pub use graph::Block;
pub use graph::Connection;
pub use graph::Role;
pub use graph::Wire;
pub use instantiate::instantiate;
pub use signal::ConnectionValues;
