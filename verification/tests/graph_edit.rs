//! Tests of graph editing: node construction, connections, literals and
//! output marking, with their validation errors.

use blackjack_engine::diagnostics::CompileError;
use blackjack_engine::graph::{Graph, OpRegistry, OpSignature, SlotSig};
use blackjack_engine::value::{Value, ValueType};

fn slot(name: &str, ty: ValueType) -> SlotSig {
    SlotSig { name: name.to_string(), ty }
}

fn sig(op: &str, inputs: Vec<SlotSig>, outputs: Vec<SlotSig>) -> OpSignature {
    OpSignature { operation: op.to_string(), inputs, outputs }
}

fn registry() -> OpRegistry {
    OpRegistry {
        ops: vec![
            sig("make_cube", vec![slot("size", ValueType::Scalar)], vec![slot(
                "out_mesh",
                ValueType::MeshRef,
            )]),
            sig(
                "subdivide",
                vec![slot("mesh", ValueType::MeshRef), slot("iterations", ValueType::Scalar)],
                vec![slot("out_mesh", ValueType::MeshRef)],
            ),
            sig("repeat", vec![slot("count", ValueType::Integer)], vec![slot(
                "out_mesh",
                ValueType::MeshRef,
            )]),
        ],
    }
}

fn scalar(x: f64) -> Value {
    Value::Scalar { bits: x.to_bits() }
}

fn lit(name: &str, v: Value) -> (String, Value) {
    (name.to_string(), v)
}

#[test]
fn mesh_to_scalar_connection_rejected_and_graph_unchanged() {
    let mut g = Graph::new(registry());
    let cube = g
        .add_node(&"make_cube".to_string(), &vec![lit("size", scalar(1.0))])
        .unwrap();
    let sub = g.add_node(&"subdivide".to_string(), &vec![]).unwrap();
    let before = g.clone();
    match g.connect(cube, &"out_mesh".to_string(), sub, &"iterations".to_string()) {
        Err(CompileError::TypeMismatch { node, slot, expected, found }) => {
            assert_eq!(node, sub);
            assert_eq!(slot, "iterations");
            assert_eq!(expected, ValueType::Scalar);
            assert_eq!(found, ValueType::MeshRef);
        },
        other => panic!("expected TypeMismatch, got {:?}", other),
    }
    assert_eq!(g, before);
}

#[test]
fn connect_unknown_node_rejected() {
    let mut g = Graph::new(registry());
    let cube = g
        .add_node(&"make_cube".to_string(), &vec![lit("size", scalar(1.0))])
        .unwrap();
    match g.connect(cube, &"out_mesh".to_string(), 7, &"mesh".to_string()) {
        Err(CompileError::UnknownNode { node }) => assert_eq!(node, 7),
        other => panic!("expected UnknownNode, got {:?}", other),
    }
}

#[test]
fn connect_unknown_slot_rejected() {
    let mut g = Graph::new(registry());
    let cube = g
        .add_node(&"make_cube".to_string(), &vec![lit("size", scalar(1.0))])
        .unwrap();
    let sub = g.add_node(&"subdivide".to_string(), &vec![]).unwrap();
    match g.connect(cube, &"no_such_slot".to_string(), sub, &"mesh".to_string()) {
        Err(CompileError::UnknownSlot { node, slot }) => {
            assert_eq!(node, cube);
            assert_eq!(slot, "no_such_slot");
        },
        other => panic!("expected UnknownSlot, got {:?}", other),
    }
}

#[test]
fn connect_already_bound_slot_rejected() {
    let mut g = Graph::new(registry());
    let cube_a = g
        .add_node(&"make_cube".to_string(), &vec![lit("size", scalar(1.0))])
        .unwrap();
    let cube_b = g
        .add_node(&"make_cube".to_string(), &vec![lit("size", scalar(2.0))])
        .unwrap();
    let sub = g.add_node(&"subdivide".to_string(), &vec![]).unwrap();
    g.connect(cube_a, &"out_mesh".to_string(), sub, &"mesh".to_string()).unwrap();
    match g.connect(cube_b, &"out_mesh".to_string(), sub, &"mesh".to_string()) {
        Err(CompileError::SlotAlreadyBound { node, slot }) => {
            assert_eq!(node, sub);
            assert_eq!(slot, "mesh");
        },
        other => panic!("expected SlotAlreadyBound, got {:?}", other),
    }
}

#[test]
fn set_literal_overwrites_prior_binding() {
    let mut g = Graph::new(registry());
    let cube = g
        .add_node(&"make_cube".to_string(), &vec![lit("size", scalar(1.0))])
        .unwrap();
    g.set_literal(cube, &"size".to_string(), scalar(4.0)).unwrap();
    let before = g.clone();
    g.set_literal(cube, &"size".to_string(), scalar(4.0)).unwrap();
    assert_eq!(g, before);
}

#[test]
fn set_literal_type_mismatch_rejected() {
    let mut g = Graph::new(registry());
    let cube = g
        .add_node(&"make_cube".to_string(), &vec![lit("size", scalar(1.0))])
        .unwrap();
    let before = g.clone();
    match g.set_literal(cube, &"size".to_string(), Value::Text { text: "two".to_string() }) {
        Err(CompileError::TypeMismatch { node, slot, expected, found }) => {
            assert_eq!(node, cube);
            assert_eq!(slot, "size");
            assert_eq!(expected, ValueType::Scalar);
            assert_eq!(found, ValueType::Text);
        },
        other => panic!("expected TypeMismatch, got {:?}", other),
    }
    assert_eq!(g, before);
}

#[test]
fn integer_literal_widens_to_scalar_slot() {
    let mut g = Graph::new(registry());
    let cube = g
        .add_node(&"make_cube".to_string(), &vec![lit("size", Value::Integer { value: 2 })])
        .unwrap();
    g.set_literal(cube, &"size".to_string(), Value::Integer { value: 3 }).unwrap();
}

#[test]
fn scalar_literal_does_not_narrow_to_integer_slot() {
    let mut g = Graph::new(registry());
    let rep = g.add_node(&"repeat".to_string(), &vec![]).unwrap();
    match g.set_literal(rep, &"count".to_string(), scalar(2.0)) {
        Err(CompileError::TypeMismatch { .. }) => {},
        other => panic!("expected TypeMismatch, got {:?}", other),
    }
}

#[test]
fn add_node_unknown_operation_rejected() {
    let mut g = Graph::new(registry());
    match g.add_node(&"no_such_op".to_string(), &vec![]) {
        Err(CompileError::InvalidSignature { operation }) => {
            assert_eq!(operation, "no_such_op");
        },
        other => panic!("expected InvalidSignature, got {:?}", other),
    }
}

#[test]
fn add_node_undeclared_slot_rejected() {
    let mut g = Graph::new(registry());
    let before = g.clone();
    match g.add_node(&"make_cube".to_string(), &vec![lit("radius", scalar(1.0))]) {
        Err(CompileError::InvalidSignature { .. }) => {},
        other => panic!("expected InvalidSignature, got {:?}", other),
    }
    assert_eq!(g, before);
}

#[test]
fn add_node_wrong_literal_type_rejected() {
    let mut g = Graph::new(registry());
    match g.add_node(
        &"make_cube".to_string(),
        &vec![lit("size", Value::Text { text: "big".to_string() })],
    ) {
        Err(CompileError::InvalidSignature { .. }) => {},
        other => panic!("expected InvalidSignature, got {:?}", other),
    }
}

#[test]
fn add_node_duplicate_literal_slot_rejected() {
    let mut g = Graph::new(registry());
    match g.add_node(
        &"make_cube".to_string(),
        &vec![lit("size", scalar(1.0)), lit("size", scalar(2.0))],
    ) {
        Err(CompileError::InvalidSignature { .. }) => {},
        other => panic!("expected InvalidSignature, got {:?}", other),
    }
}

#[test]
fn mark_output_unknown_slot_rejected() {
    let mut g = Graph::new(registry());
    let cube = g
        .add_node(&"make_cube".to_string(), &vec![lit("size", scalar(1.0))])
        .unwrap();
    match g.mark_output(cube, &"no_such_slot".to_string()) {
        Err(CompileError::UnknownSlot { node, slot }) => {
            assert_eq!(node, cube);
            assert_eq!(slot, "no_such_slot");
        },
        other => panic!("expected UnknownSlot, got {:?}", other),
    }
}
