//! A compiler that turns a directed graph of mesh-editing operation nodes
//! into a sequential program for an external scripting runtime.
//!
//! The crate is organised leaf-first: [`value`] holds the typed value
//! universe nodes exchange and the assignability rules between value
//! types; [`graph`] holds the graph data model — operation signatures,
//! nodes, input bindings — and the editing operations that keep a graph
//! well formed; [`order`] defines the dependency relation, paths, cycles
//! and reachability from the output set, with the lemmas relating a
//! dependency-ordered plan to them; [`resolver`] turns a graph into an
//! execution plan by depth-first traversal with three-colour marking;
//! [`emitter`] walks the plan and emits one statement per node; and
//! [`compiler`] ties the two into `compile`, the sole entry point, whose
//! contract also carries the compiler's laws. [`diagnostics`] holds the
//! structured errors all of them report.

pub mod value;

pub mod diagnostics;

pub mod graph;

pub mod order;

pub mod resolver;

pub mod emitter;

pub mod compiler;
