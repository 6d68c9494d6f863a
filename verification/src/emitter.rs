//! The program emitter: walks a resolved execution plan and emits one
//! statement per node, in plan order.
//!
//! Each statement binds a generated variable (its own index) to the result
//! of invoking one operation. Arguments are either literal values or
//! references to the binding emitted for a connection's source node —
//! guaranteed already emitted by plan ordering — indexed by the declared
//! output-slot position for multi-output nodes. After all statements, the
//! program designates one result per marked output, in marking order.
//!
//! The program is emitted in structural form; printing it in the external
//! runtime's concrete syntax is the embedder's job, at the boundary where
//! literal bit patterns become numerals again.

use vstd::prelude::*;

use crate::graph::{Graph, InputBinding};
use crate::order::{
    dep_edge, binding_connects_to, inputs_bound, plan_contains, plan_distinct, plan_ordered,
    plan_nodes_ok, plan_has_outputs,
};
use crate::resolver::ExecutionPlan;
use crate::value::Value;

verus! {

/// One resolved argument of an emitted call.
#[derive(Clone, Debug, PartialEq)]
pub enum Arg {
    /// A literal value, taken from the node's literal binding.
    Literal { value: Value },
    /// The output at declared position `output` of the binding generated
    /// by the statement at index `statement`.
    Binding { statement: usize, output: usize },
}

/// One emitted statement: invoke `operation` with `args`, binding its
/// `output_count` outputs to this statement's index.
#[derive(Debug, PartialEq)]
pub struct Statement {
    /// The graph node this statement evaluates.
    pub node: usize,
    /// The operation tag to invoke, exactly as registered.
    pub operation: String,
    /// The resolved arguments, in declared input-slot order.
    pub args: Vec<Arg>,
    /// How many outputs the invocation binds.
    pub output_count: usize,
}

/// One designated result of the program.
#[derive(Clone, Copy, Debug, PartialEq, Eq, Structural)]
pub struct ProgramOutput {
    pub statement: usize,
    pub output: usize,
}

/// The emitted sequential program: statements in dependency order plus the
/// designated results, in the order the outputs were marked.
#[derive(Debug, PartialEq)]
pub struct CompiledProgram {
    pub statements: Vec<Statement>,
    pub results: Vec<ProgramOutput>,
}

/// The argument emitted for one input binding of the statement at plan
/// position `i`: the literal itself, or a reference to the earlier
/// statement that evaluates the connection's source.
pub open spec fn arg_matches(plan: Seq<usize>, i: int, b: Option<InputBinding>, a: Arg) -> bool {
    match b {
        Some(InputBinding::Literal { value }) => a == (Arg::Literal { value }),
        Some(InputBinding::Connection { node, output }) => match a {
            Arg::Binding { statement, output: o } => {
                &&& o == output
                &&& 0 <= (statement as int) < i
                &&& plan[statement as int] == node
            },
            _ => false,
        },
        None => false,
    }
}

/// The statement at plan position `i` faithfully renders its node: same
/// operation tag, one argument per declared input in order, one generated
/// binding per declared output.
pub open spec fn stmt_matches(g: Graph, plan: Seq<usize>, i: int, s: Statement) -> bool {
    let n = g.nodes@[plan[i] as int];
    &&& s.node == plan[i]
    &&& s.operation@ == n.operation@
    &&& s.output_count == n.outputs@.len()
    &&& s.args@.len() == n.inputs@.len()
    &&& (forall|k: int|
        0 <= k < n.inputs@.len() ==> arg_matches(plan, i, n.inputs@[k].binding, #[trigger] s.args@[k]))
}

/// The designated results list one entry per marked output, in marking
/// order, each referencing the statement of its node and the declared
/// output position.
pub open spec fn results_match(g: Graph, plan: Seq<usize>, results: Seq<ProgramOutput>) -> bool {
    &&& results.len() == g.outputs@.len()
    &&& (forall|t: int|
        0 <= t < g.outputs@.len() ==> {
            let pr = #[trigger] results[t];
            &&& 0 <= (pr.statement as int) < plan.len()
            &&& plan[pr.statement as int] == g.outputs@[t].node
            &&& pr.output == g.outputs@[t].output
        })
}

/// The whole program faithfully renders the graph along the plan.
pub open spec fn program_matches(g: Graph, plan: Seq<usize>, prog: CompiledProgram) -> bool {
    &&& prog.statements@.len() == plan.len()
    &&& (forall|i: int|
        0 <= i < plan.len() ==> stmt_matches(g, plan, i, #[trigger] prog.statements@[i]))
    &&& results_match(g, plan, prog.results@)
}

/// The plan a program embodies: the node each statement evaluates.
pub open spec fn prog_plan(prog: CompiledProgram) -> Seq<usize> {
    prog.statements@.map_values(|s: Statement| s.node)
}

/// Emits the sequential program for a resolved plan.
#[verifier::loop_isolation(false)]
pub fn emit(g: &Graph, plan: &ExecutionPlan) -> (prog: CompiledProgram)
    requires
        g.wf(),
        plan_distinct(plan.order@),
        plan_ordered(*g, plan.order@),
        plan_nodes_ok(*g, plan.order@),
        plan_has_outputs(*g, plan.order@),
    ensures
        program_matches(*g, plan.order@, prog),
{
    let n_nodes = g.nodes.len();
    // Statement index of each planned node, filled in as statements are
    // emitted; a source's entry is always filled before it is read,
    // because the plan places sources first.
    let mut pos: Vec<usize> = Vec::new();
    let mut m: usize = 0;
    while m < n_nodes
        invariant
            m <= n_nodes,
            pos@.len() == m,
        decreases n_nodes - m,
    {
        pos.push(0);
        m += 1;
    }
    let mut statements: Vec<Statement> = Vec::new();
    let mut i: usize = 0;
    while i < plan.order.len()
        invariant
            i <= plan.order@.len(),
            pos@.len() == g.nodes@.len(),
            statements@.len() == i,
            forall|j: int| 0 <= j < i ==> pos@[(#[trigger] plan.order@[j]) as int] == j,
            forall|j: int|
                0 <= j < i ==> stmt_matches(*g, plan.order@, j, #[trigger] statements@[j]),
        decreases plan.order@.len() - i,
    {
        let node_id = plan.order[i];
        proof {
            assert(plan.order@[i as int] == node_id);
            assert((node_id as int) < g.nodes@.len());
            assert(g.node_wf(g.nodes@[node_id as int]));
            assert(inputs_bound(*g, node_id));
        }
        let node = &g.nodes[node_id];
        let mut args: Vec<Arg> = Vec::new();
        let mut k: usize = 0;
        while k < node.inputs.len()
            invariant
                k <= node.inputs@.len(),
                args@.len() == k,
                forall|k2: int|
                    0 <= k2 < k ==> arg_matches(
                        plan.order@,
                        i as int,
                        node.inputs@[k2].binding,
                        #[trigger] args@[k2],
                    ),
            decreases node.inputs@.len() - k,
        {
            match &node.inputs[k].binding {
                Some(InputBinding::Literal { value }) => {
                    args.push(Arg::Literal { value: value.duplicate() });
                },
                Some(InputBinding::Connection { node: src, output }) => {
                    let s = *src;
                    proof {
                        assert(binding_connects_to(node.inputs@[k as int].binding, s));
                        assert(dep_edge(*g, node_id, s));
                        assert(dep_edge(*g, plan.order@[i as int], s));
                        let j = choose|j: int| 0 <= j < i && plan.order@[j] == s;
                        assert(pos@[s as int] == j);
                        assert((s as int) < g.nodes@.len());
                    }
                    let st = pos[s];
                    args.push(Arg::Binding { statement: st, output: *output });
                },
                None => {
                    proof {
                        assert(node.inputs@[k as int].binding is Some);
                        assert(false);
                    }
                    args.push(Arg::Binding { statement: 0, output: 0 });
                },
            }
            k += 1;
        }
        let stmt = Statement {
            node: node_id,
            operation: node.operation.clone(),
            args,
            output_count: node.outputs.len(),
        };
        statements.push(stmt);
        pos[node_id] = i;
        proof {
            assert(stmt_matches(*g, plan.order@, i as int, statements@[i as int]));
            assert forall|j: int| 0 <= j < i + 1 implies pos@[(#[trigger] plan.order@[j]) as int]
                == j by {
                if j < i {
                    assert(plan.order@[j] != plan.order@[i as int]);
                }
            }
        }
        i += 1;
    }
    let mut results: Vec<ProgramOutput> = Vec::new();
    let mut t: usize = 0;
    while t < g.outputs.len()
        invariant
            t <= g.outputs@.len(),
            results@.len() == t,
            forall|t2: int|
                0 <= t2 < t ==> {
                    let pr = #[trigger] results@[t2];
                    &&& 0 <= (pr.statement as int) < plan.order@.len()
                    &&& plan.order@[pr.statement as int] == g.outputs@[t2].node
                    &&& pr.output == g.outputs@[t2].output
                },
        decreases g.outputs@.len() - t,
    {
        let oref = g.outputs[t];
        proof {
            assert(g.outputs@[t as int] == oref);
            assert(plan_contains(plan.order@, oref.node));
            let j = choose|j: int| 0 <= j < plan.order@.len() && plan.order@[j] == oref.node;
            assert(pos@[oref.node as int] == j);
            assert((oref.node as int) < g.nodes@.len());
        }
        let st = pos[oref.node];
        results.push(ProgramOutput { statement: st, output: oref.output });
        t += 1;
    }
    CompiledProgram { statements, results }
}

} // verus!
