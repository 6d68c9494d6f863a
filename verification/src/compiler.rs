//! The compiler's sole entry point, `compile`, and the laws it obeys.
//!
//! `compile` resolves a graph into a dependency-ordered plan and emits the
//! sequential program for it. It either fully succeeds or produces no
//! program: on failure it reports a structured error and nothing else.

use vstd::prelude::*;

use crate::diagnostics::CompileError;
use crate::emitter::{
    emit, prog_plan, program_matches, stmt_matches, arg_matches, Arg, CompiledProgram,
};
use crate::graph::Graph;
use crate::order::{
    acyclic, binding_connects_to, has_reachable_cycle, inputs_bound, is_cycle, plan_valid,
    reachable, reachable_inputs_bound,
};
use crate::resolver::resolve;

verus! {

/// What each compile-time failure certifies of the graph: a reported cycle
/// really is a cycle among reachable nodes, and a reported unresolved input
/// really is an unbound input slot of a reachable node. No other error
/// arises at compile time.
pub open spec fn error_justified(g: Graph, e: CompileError) -> bool {
    match e {
        CompileError::CycleDetected { path } => is_cycle(g, path@) && reachable(g, path@[0]),
        CompileError::UnresolvedRequiredInput { node, slot } => {
            &&& (node as int) < g.nodes@.len()
            &&& reachable(g, node)
            &&& !inputs_bound(g, node)
            &&& exists|k: int|
                {
                    &&& 0 <= k < g.nodes@[node as int].inputs@.len()
                    &&& (#[trigger] g.nodes@[node as int].inputs@[k]).name@ == slot@
                    &&& g.nodes@[node as int].inputs@[k].binding is None
                }
        },
        _ => false,
    }
}

/// Compiles a graph into a sequential program for the external runtime.
///
/// On success the program's statements list exactly the nodes reachable
/// from the marked outputs, each exactly once, each after all of its
/// connection sources — so the executed program runs every retained
/// operation exactly once, in dependency order, and no operation observes
/// a value from a node not yet run. On any acyclic, fully bound graph
/// compilation is guaranteed to succeed; a graph with a cycle among its
/// reachable, fully bound nodes is guaranteed to be rejected with
/// `CycleDetected`.
pub fn compile(graph: &Graph) -> (r: Result<CompiledProgram, CompileError>)
    requires
        graph.wf(),
    ensures
        match r {
            Ok(prog) => plan_valid(*graph, prog_plan(prog)) && program_matches(
                *graph,
                prog_plan(prog),
                prog,
            ),
            Err(e) => error_justified(*graph, e),
        },
        (acyclic(*graph) && reachable_inputs_bound(*graph)) ==> r is Ok,
        (has_reachable_cycle(*graph) && reachable_inputs_bound(*graph)) ==> r matches Err(
            CompileError::CycleDetected { .. },
        ),
        r is Ok ==> !has_reachable_cycle(*graph),
{
    let plan = match resolve(graph) {
        Ok(plan) => plan,
        Err(e) => {
            return Err(e);
        },
    };
    let prog = emit(graph, &plan);
    proof {
        assert forall|i: int| 0 <= i < prog.statements@.len() implies #[trigger] prog_plan(
            prog,
        )[i] == plan.order@[i] by {
            assert(stmt_matches(*graph, plan.order@, i, prog.statements@[i]));
        }
        assert(prog_plan(prog) =~= plan.order@);
    }
    Ok(prog)
}

/// Dead-node elimination: a node unreachable from every marked output
/// never appears in the emitted program.
pub proof fn lemma_dead_node_excluded(g: Graph, prog: CompiledProgram, n: usize)
    requires
        plan_valid(g, prog_plan(prog)),
        !reachable(g, n),
    ensures
        forall|i: int|
            0 <= i < prog.statements@.len() ==> (#[trigger] prog.statements@[i]).node != n,
{
    assert forall|i: int| 0 <= i < prog.statements@.len() implies (
    #[trigger] prog.statements@[i]).node != n by {
        assert(prog_plan(prog)[i] == prog.statements@[i].node);
        assert(reachable(g, prog_plan(prog)[i]));
    }
}

/// The statement index an argument refers to, or a sentinel for literals.
pub open spec fn arg_statement(a: Arg) -> int {
    match a {
        Arg::Binding { statement, .. } => statement as int,
        Arg::Literal { .. } => -1,
    }
}

/// Fan-out sharing: a source node consumed by two downstream inputs is
/// emitted as one single statement, and both consumers' arguments
/// reference that same generated binding.
pub proof fn lemma_fanout_shared(
    g: Graph,
    prog: CompiledProgram,
    i1: int,
    k1: int,
    i2: int,
    k2: int,
    src: usize,
)
    requires
        plan_valid(g, prog_plan(prog)),
        program_matches(g, prog_plan(prog), prog),
        0 <= i1 < prog.statements@.len(),
        0 <= i2 < prog.statements@.len(),
        0 <= k1 < g.nodes@[prog.statements@[i1].node as int].inputs@.len(),
        0 <= k2 < g.nodes@[prog.statements@[i2].node as int].inputs@.len(),
        binding_connects_to(g.nodes@[prog.statements@[i1].node as int].inputs@[k1].binding, src),
        binding_connects_to(g.nodes@[prog.statements@[i2].node as int].inputs@[k2].binding, src),
    ensures
        prog.statements@[i1].args@[k1] is Binding,
        prog.statements@[i2].args@[k2] is Binding,
        arg_statement(prog.statements@[i1].args@[k1]) == arg_statement(
            prog.statements@[i2].args@[k2],
        ),
        prog_plan(prog)[arg_statement(prog.statements@[i1].args@[k1])] == src,
        forall|j: int|
            0 <= j < prog.statements@.len() && (#[trigger] prog.statements@[j]).node == src ==> j
                == arg_statement(prog.statements@[i1].args@[k1]),
{
    let plan = prog_plan(prog);
    assert(stmt_matches(g, plan, i1, prog.statements@[i1]));
    assert(stmt_matches(g, plan, i2, prog.statements@[i2]));
    assert(plan[i1] == prog.statements@[i1].node);
    assert(plan[i2] == prog.statements@[i2].node);
    let n1 = g.nodes@[plan[i1] as int];
    let n2 = g.nodes@[plan[i2] as int];
    assert(arg_matches(plan, i1, n1.inputs@[k1].binding, prog.statements@[i1].args@[k1]));
    assert(arg_matches(plan, i2, n2.inputs@[k2].binding, prog.statements@[i2].args@[k2]));
    let s1 = arg_statement(prog.statements@[i1].args@[k1]);
    let s2 = arg_statement(prog.statements@[i2].args@[k2]);
    assert(plan[s1] == src && 0 <= s1 < plan.len());
    assert(plan[s2] == src && 0 <= s2 < plan.len());
    if s1 != s2 {
        if s1 < s2 {
            assert(plan[s1] != plan[s2]);
        } else {
            assert(plan[s2] != plan[s1]);
        }
    }
    assert forall|j: int|
        0 <= j < prog.statements@.len() && (#[trigger] prog.statements@[j]).node == src implies j
        == s1 by {
        assert(plan[j] == src);
        if j != s1 {
            if j < s1 {
                assert(plan[j] != plan[s1]);
            } else {
                assert(plan[s1] != plan[j]);
            }
        }
    }
}

} // verus!
