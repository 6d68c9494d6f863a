//! Structured compilation diagnostics.
//!
//! Every failure mode of graph editing and compilation is reported as a
//! structured error carrying the error kind, the offending node id and slot
//! name where applicable, and — for cycles — the full cycle path. No error
//! is ever downgraded: a graph either compiles fully or not at all.

use vstd::prelude::*;

verus! {

/// A structured error from graph editing or compilation.
#[derive(Clone, Debug, PartialEq)]
pub enum CompileError {
    /// `add_node` was given an operation tag the registry does not declare,
    /// or literal inputs that do not fit the operation's declared signature.
    InvalidSignature { operation: String },
    /// A node id that is not present in the graph.
    UnknownNode { node: usize },
    /// A slot name that the named node does not declare.
    UnknownSlot { node: usize, slot: String },
    /// A binding whose value type is not assignable to the slot's type.
    TypeMismatch { node: usize, slot: String, expected: super::value::ValueType, found: super::value::ValueType },
    /// A connection to an input slot that already has a binding.
    SlotAlreadyBound { node: usize, slot: String },
    /// A dependency cycle among nodes reachable from an output. The path
    /// lists the nodes of one cycle in dependency order: each node depends
    /// on the next, and the last depends on the first.
    CycleDetected { path: Vec<usize> },
    /// A required input slot of a node reachable from an output that has
    /// neither a literal nor a connection bound to it. Every declared
    /// input slot is required: signatures carry no default values, so an
    /// unbound slot on a retained node always fails compilation.
    UnresolvedRequiredInput { node: usize, slot: String },
}

} // verus!
