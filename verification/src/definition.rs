//! The declarative, recursively nested description of a circuit.
//!
//! A `BlockDefinition` is purely descriptive: it carries no runtime
//! references. All linkage between wires and connections is by
//! `(parent_block id, local connection id)` pairs, resolved when the
//! definition is instantiated into a live block.

use vstd::prelude::*;
use crate::signal::ConnectionValues;

verus! {

/// One endpoint of a declared wire: the id of the block whose connection is
/// meant, and the connection's id local to that block.
#[derive(Clone, Copy, Debug)]
pub struct ConnectionDefinitionRef {
    pub parent_block: usize,
    pub id: usize,
}

/// A declared connection: its id, local to the declaring block, and its
/// initial signal value (which also fixes the connection's width).
#[derive(Clone, Copy, Debug)]
pub struct ConnectionDefinition {
    pub id: usize,
    pub value: ConnectionValues,
}

/// A declared wire: the list of endpoints it joins.
#[derive(Debug)]
pub struct WireDefinition {
    pub connections: Vec<ConnectionDefinitionRef>,
}

/// The description of one block: its identity, a display name and size (kept
/// for the renderer, uninterpreted here), nested inner blocks, the wires
/// declared at this level, and the declared input and output connections.
#[derive(Debug)]
pub struct BlockDefinition {
    pub id: usize,
    pub size_x: i32,
    pub size_y: i32,
    pub name: String,
    pub inner_blocks: Vec<BlockDefinition>,
    pub wires: Vec<WireDefinition>,
    pub inputs: Vec<ConnectionDefinition>,
    pub outputs: Vec<ConnectionDefinition>,
}

} // verus!
