//! End-to-end tests of the graph-to-program compiler.

use blackjack_engine::compiler::compile;
use blackjack_engine::diagnostics::CompileError;
use blackjack_engine::emitter::{Arg, CompiledProgram, ProgramOutput};
use blackjack_engine::graph::{Graph, OpRegistry, OpSignature, SlotSig};
use blackjack_engine::value::{Value, ValueType, Vector3Bits};

fn slot(name: &str, ty: ValueType) -> SlotSig {
    SlotSig { name: name.to_string(), ty }
}

fn sig(op: &str, inputs: Vec<SlotSig>, outputs: Vec<SlotSig>) -> OpSignature {
    OpSignature { operation: op.to_string(), inputs, outputs }
}

fn registry() -> OpRegistry {
    OpRegistry {
        ops: vec![
            sig("make_cube", vec![slot("size", ValueType::Scalar)], vec![slot(
                "out_mesh",
                ValueType::MeshRef,
            )]),
            sig(
                "translate",
                vec![slot("mesh", ValueType::MeshRef), slot("offset", ValueType::Vector3)],
                vec![slot("out_mesh", ValueType::MeshRef)],
            ),
            sig(
                "merge",
                vec![slot("mesh_a", ValueType::MeshRef), slot("mesh_b", ValueType::MeshRef)],
                vec![slot("out_mesh", ValueType::MeshRef)],
            ),
            sig("passthrough", vec![slot("mesh", ValueType::MeshRef)], vec![slot(
                "out_mesh",
                ValueType::MeshRef,
            )]),
            sig(
                "subdivide",
                vec![slot("mesh", ValueType::MeshRef), slot("iterations", ValueType::Scalar)],
                vec![slot("out_mesh", ValueType::MeshRef)],
            ),
            sig(
                "split",
                vec![slot("mesh", ValueType::MeshRef)],
                vec![slot("left", ValueType::MeshRef), slot("right", ValueType::MeshRef)],
            ),
            sig("orphan_op", vec![], vec![slot("out_mesh", ValueType::MeshRef)]),
        ],
    }
}

fn scalar(x: f64) -> Value {
    Value::Scalar { bits: x.to_bits() }
}

fn vector(x: f32, y: f32, z: f32) -> Value {
    Value::Vector3 {
        vector: Vector3Bits { x: x.to_bits(), y: y.to_bits(), z: z.to_bits() },
    }
}

fn lit(name: &str, v: Value) -> (String, Value) {
    (name.to_string(), v)
}

fn ok_compile(g: &Graph) -> CompiledProgram {
    match compile(g) {
        Ok(prog) => prog,
        Err(e) => panic!("expected successful compile, got {:?}", e),
    }
}

#[test]
fn literal_round_trip() {
    let mut g = Graph::new(registry());
    let n = g
        .add_node(&"make_cube".to_string(), &vec![lit("size", scalar(2.0))])
        .unwrap();
    g.mark_output(n, &"out_mesh".to_string()).unwrap();
    let prog = ok_compile(&g);
    assert_eq!(prog.statements.len(), 1);
    assert_eq!(prog.statements[0].node, n);
    assert_eq!(prog.statements[0].operation, "make_cube");
    assert_eq!(prog.statements[0].args, vec![Arg::Literal { value: scalar(2.0) }]);
    assert_eq!(prog.statements[0].output_count, 1);
    assert_eq!(prog.results, vec![ProgramOutput { statement: 0, output: 0 }]);
}

#[test]
fn self_loop_reported_as_one_element_cycle() {
    let mut g = Graph::new(registry());
    let n = g.add_node(&"passthrough".to_string(), &vec![]).unwrap();
    g.connect(n, &"out_mesh".to_string(), n, &"mesh".to_string()).unwrap();
    g.mark_output(n, &"out_mesh".to_string()).unwrap();
    match compile(&g) {
        Err(CompileError::CycleDetected { path }) => assert_eq!(path, vec![n]),
        other => panic!("expected CycleDetected, got {:?}", other),
    }
}

#[test]
fn two_node_cycle_reported_with_valid_path() {
    let mut g = Graph::new(registry());
    let a = g.add_node(&"passthrough".to_string(), &vec![]).unwrap();
    let b = g.add_node(&"passthrough".to_string(), &vec![]).unwrap();
    g.connect(b, &"out_mesh".to_string(), a, &"mesh".to_string()).unwrap();
    g.connect(a, &"out_mesh".to_string(), b, &"mesh".to_string()).unwrap();
    g.mark_output(a, &"out_mesh".to_string()).unwrap();
    match compile(&g) {
        Err(CompileError::CycleDetected { path }) => {
            assert_eq!(path.len(), 2);
            assert!(path.contains(&a) && path.contains(&b));
        },
        other => panic!("expected CycleDetected, got {:?}", other),
    }
}

#[test]
fn dead_node_never_emitted() {
    let mut g = Graph::new(registry());
    let cube = g
        .add_node(&"make_cube".to_string(), &vec![lit("size", scalar(1.0))])
        .unwrap();
    let orphan = g.add_node(&"orphan_op".to_string(), &vec![]).unwrap();
    let orphan_user = g.add_node(&"passthrough".to_string(), &vec![]).unwrap();
    g.connect(orphan, &"out_mesh".to_string(), orphan_user, &"mesh".to_string())
        .unwrap();
    g.mark_output(cube, &"out_mesh".to_string()).unwrap();
    let prog = ok_compile(&g);
    assert_eq!(prog.statements.len(), 1);
    assert!(prog.statements.iter().all(|s| s.operation != "orphan_op"));
    assert!(prog.statements.iter().all(|s| s.node != orphan && s.node != orphan_user));
}

#[test]
fn fanout_emitted_once_and_shared() {
    let mut g = Graph::new(registry());
    let cube = g
        .add_node(&"make_cube".to_string(), &vec![lit("size", scalar(3.0))])
        .unwrap();
    let p1 = g.add_node(&"passthrough".to_string(), &vec![]).unwrap();
    let p2 = g.add_node(&"passthrough".to_string(), &vec![]).unwrap();
    g.connect(cube, &"out_mesh".to_string(), p1, &"mesh".to_string()).unwrap();
    g.connect(cube, &"out_mesh".to_string(), p2, &"mesh".to_string()).unwrap();
    g.mark_output(p1, &"out_mesh".to_string()).unwrap();
    g.mark_output(p2, &"out_mesh".to_string()).unwrap();
    let prog = ok_compile(&g);
    let cube_statements: Vec<usize> = prog
        .statements
        .iter()
        .enumerate()
        .filter(|(_, s)| s.node == cube)
        .map(|(i, _)| i)
        .collect();
    assert_eq!(cube_statements.len(), 1);
    let cube_index = cube_statements[0];
    let arg_of = |node: usize| -> Arg {
        let s = prog.statements.iter().find(|s| s.node == node).unwrap();
        s.args[0].clone()
    };
    assert_eq!(arg_of(p1), Arg::Binding { statement: cube_index, output: 0 });
    assert_eq!(arg_of(p2), Arg::Binding { statement: cube_index, output: 0 });
}

#[test]
fn diamond_compiles_in_dependency_order() {
    let mut g = Graph::new(registry());
    let a = g
        .add_node(&"make_cube".to_string(), &vec![lit("size", scalar(1.0))])
        .unwrap();
    let b = g
        .add_node(&"translate".to_string(), &vec![lit("offset", vector(1.0, 0.0, 0.0))])
        .unwrap();
    let c = g
        .add_node(&"translate".to_string(), &vec![lit("offset", vector(0.0, 1.0, 0.0))])
        .unwrap();
    let d = g.add_node(&"merge".to_string(), &vec![]).unwrap();
    g.connect(a, &"out_mesh".to_string(), b, &"mesh".to_string()).unwrap();
    g.connect(a, &"out_mesh".to_string(), c, &"mesh".to_string()).unwrap();
    g.connect(b, &"out_mesh".to_string(), d, &"mesh_a".to_string()).unwrap();
    g.connect(c, &"out_mesh".to_string(), d, &"mesh_b".to_string()).unwrap();
    g.mark_output(d, &"out_mesh".to_string()).unwrap();
    let prog = ok_compile(&g);
    assert_eq!(prog.statements.len(), 4);
    let pos = |node: usize| prog.statements.iter().position(|s| s.node == node).unwrap();
    assert!(pos(a) < pos(b));
    assert!(pos(a) < pos(c));
    assert!(pos(b) < pos(d));
    assert!(pos(c) < pos(d));
    assert_eq!(prog.results, vec![ProgramOutput { statement: pos(d), output: 0 }]);
}

#[test]
fn multi_output_reference_indexes_declared_position() {
    let mut g = Graph::new(registry());
    let cube = g
        .add_node(&"make_cube".to_string(), &vec![lit("size", scalar(1.0))])
        .unwrap();
    let sp = g.add_node(&"split".to_string(), &vec![]).unwrap();
    let user = g.add_node(&"passthrough".to_string(), &vec![]).unwrap();
    g.connect(cube, &"out_mesh".to_string(), sp, &"mesh".to_string()).unwrap();
    g.connect(sp, &"right".to_string(), user, &"mesh".to_string()).unwrap();
    g.mark_output(user, &"out_mesh".to_string()).unwrap();
    let prog = ok_compile(&g);
    let pos = |node: usize| prog.statements.iter().position(|s| s.node == node).unwrap();
    assert_eq!(prog.statements[pos(sp)].output_count, 2);
    assert_eq!(
        prog.statements[pos(user)].args[0],
        Arg::Binding { statement: pos(sp), output: 1 }
    );
}

#[test]
fn unresolved_required_input_reported() {
    let mut g = Graph::new(registry());
    let n = g
        .add_node(&"subdivide".to_string(), &vec![lit("iterations", scalar(2.0))])
        .unwrap();
    g.mark_output(n, &"out_mesh".to_string()).unwrap();
    match compile(&g) {
        Err(CompileError::UnresolvedRequiredInput { node, slot }) => {
            assert_eq!(node, n);
            assert_eq!(slot, "mesh");
        },
        other => panic!("expected UnresolvedRequiredInput, got {:?}", other),
    }
}

#[test]
fn no_marked_outputs_yields_empty_program() {
    let mut g = Graph::new(registry());
    g.add_node(&"make_cube".to_string(), &vec![lit("size", scalar(1.0))])
        .unwrap();
    let prog = ok_compile(&g);
    assert!(prog.statements.is_empty());
    assert!(prog.results.is_empty());
}

#[test]
fn mark_output_is_idempotent() {
    let mut g = Graph::new(registry());
    let n = g
        .add_node(&"make_cube".to_string(), &vec![lit("size", scalar(1.0))])
        .unwrap();
    g.mark_output(n, &"out_mesh".to_string()).unwrap();
    g.mark_output(n, &"out_mesh".to_string()).unwrap();
    let prog = ok_compile(&g);
    assert_eq!(prog.results.len(), 1);
}

#[test]
fn results_follow_marking_order() {
    let mut g = Graph::new(registry());
    let a = g
        .add_node(&"make_cube".to_string(), &vec![lit("size", scalar(1.0))])
        .unwrap();
    let b = g
        .add_node(&"make_cube".to_string(), &vec![lit("size", scalar(2.0))])
        .unwrap();
    g.mark_output(b, &"out_mesh".to_string()).unwrap();
    g.mark_output(a, &"out_mesh".to_string()).unwrap();
    let prog = ok_compile(&g);
    let pos = |node: usize| prog.statements.iter().position(|s| s.node == node).unwrap();
    assert_eq!(
        prog.results,
        vec![
            ProgramOutput { statement: pos(b), output: 0 },
            ProgramOutput { statement: pos(a), output: 0 },
        ]
    );
}
