//! The dependency relation over nodes, paths, cycles and reachability from
//! the output set, and what it means for a linear ordering of nodes to be a
//! valid execution plan.
//!
//! Everything here is specification: the resolver produces plans, and the
//! lemmas below relate a dependency-ordered plan to reachability and to the
//! absence of cycles among the nodes it covers.

use vstd::prelude::*;

use crate::graph::{Graph, InputBinding};

verus! {

/// The binding connects its slot to an output of node `src`.
pub open spec fn binding_connects_to(b: Option<InputBinding>, src: usize) -> bool {
    match b {
        Some(InputBinding::Connection { node, .. }) => node == src,
        _ => false,
    }
}

/// Node `a` depends directly on node `b`: some input slot of `a` is
/// connected to an output of `b`.
pub open spec fn dep_edge(g: Graph, a: usize, b: usize) -> bool {
    &&& (a as int) < g.nodes@.len()
    &&& exists|k: int|
        0 <= k < g.nodes@[a as int].inputs@.len() && binding_connects_to(
            (#[trigger] g.nodes@[a as int].inputs@[k]).binding,
            b,
        )
}

/// A non-empty path along dependency edges: each node depends on the next.
pub open spec fn is_dep_path(g: Graph, p: Seq<usize>) -> bool {
    p.len() >= 1 && (forall|i: int| 0 <= i < p.len() - 1 ==> dep_edge(g, #[trigger] p[i], p[i + 1]))
}

/// A dependency cycle: a path whose last node depends on its first. A
/// self-loop is the one-element cycle.
pub open spec fn is_cycle(g: Graph, p: Seq<usize>) -> bool {
    is_dep_path(g, p) && dep_edge(g, p[p.len() - 1], p[0])
}

/// No dependency cycle exists anywhere in the graph.
pub open spec fn acyclic(g: Graph) -> bool {
    forall|p: Seq<usize>| !is_cycle(g, p)
}

/// Some marked output slot lives on node `n`.
pub open spec fn is_output_node(g: Graph, n: usize) -> bool {
    exists|t: int| 0 <= t < g.outputs@.len() && (#[trigger] g.outputs@[t]).node == n
}

/// Node `n` is reachable from the output set along dependency edges.
pub open spec fn reachable(g: Graph, n: usize) -> bool {
    exists|p: Seq<usize>|
        is_dep_path(g, p) && is_output_node(g, p[0]) && p[p.len() - 1] == n
}

/// Every input slot of node `n` has a binding.
pub open spec fn inputs_bound(g: Graph, n: usize) -> bool {
    forall|k: int|
        0 <= k < g.nodes@[n as int].inputs@.len() ==> (#[trigger] g.nodes@[n as int].inputs@[k]).binding is Some
}

/// Every node reachable from an output has all of its inputs bound.
pub open spec fn reachable_inputs_bound(g: Graph) -> bool {
    forall|n: usize| reachable(g, n) ==> inputs_bound(g, n)
}

/// Some cycle lies among the nodes reachable from an output.
pub open spec fn has_reachable_cycle(g: Graph) -> bool {
    exists|p: Seq<usize>| is_cycle(g, p) && reachable(g, p[0])
}

/// Node `n` appears in the plan.
pub open spec fn plan_contains(plan: Seq<usize>, n: usize) -> bool {
    exists|i: int| 0 <= i < plan.len() && plan[i] == n
}

/// No node appears twice: fan-out is shared, never re-evaluated.
pub open spec fn plan_distinct(plan: Seq<usize>) -> bool {
    forall|i1: int, i2: int| 0 <= i1 < i2 < plan.len() ==> plan[i1] != plan[i2]
}

/// Every dependency of a plan node appears earlier in the plan.
pub open spec fn plan_ordered(g: Graph, plan: Seq<usize>) -> bool {
    forall|i: int, b: usize|
        0 <= i < plan.len() && #[trigger] dep_edge(g, plan[i], b) ==> exists|j: int|
            0 <= j < i && plan[j] == b
}

/// Every plan node exists, is reachable from an output, and has all of its
/// inputs bound.
pub open spec fn plan_nodes_ok(g: Graph, plan: Seq<usize>) -> bool {
    forall|i: int|
        0 <= i < plan.len() ==> {
            let n = #[trigger] plan[i];
            &&& (n as int) < g.nodes@.len()
            &&& reachable(g, n)
            &&& inputs_bound(g, n)
        }
}

/// Every node carrying a marked output appears in the plan.
pub open spec fn plan_has_outputs(g: Graph, plan: Seq<usize>) -> bool {
    forall|t: int|
        0 <= t < g.outputs@.len() ==> plan_contains(plan, (#[trigger] g.outputs@[t]).node)
}

/// Every node reachable from an output appears in the plan.
pub open spec fn plan_complete(g: Graph, plan: Seq<usize>) -> bool {
    forall|n: usize| reachable(g, n) ==> plan_contains(plan, n)
}

/// A valid execution plan: it lists exactly the nodes reachable from the
/// output set, each exactly once, each after all of its dependencies, and
/// each with all of its inputs bound.
pub open spec fn plan_valid(g: Graph, plan: Seq<usize>) -> bool {
    &&& plan_distinct(plan)
    &&& plan_ordered(g, plan)
    &&& plan_nodes_ok(g, plan)
    &&& plan_has_outputs(g, plan)
    &&& plan_complete(g, plan)
}

/// A node carrying a marked output is reachable by the one-node path.
pub proof fn lemma_output_reachable(g: Graph, n: usize)
    requires
        is_output_node(g, n),
    ensures
        reachable(g, n),
{
    let p = seq![n];
    assert(is_dep_path(g, p));
    assert(p[p.len() - 1] == n);
}

/// Reachability follows dependency edges forward.
pub proof fn lemma_reachable_step(g: Graph, a: usize, b: usize)
    requires
        reachable(g, a),
        dep_edge(g, a, b),
    ensures
        reachable(g, b),
{
    let p = choose|p: Seq<usize>|
        is_dep_path(g, p) && is_output_node(g, p[0]) && p[p.len() - 1] == a;
    let q = p.push(b);
    assert forall|i: int| 0 <= i < q.len() - 1 implies dep_edge(g, #[trigger] q[i], q[i + 1]) by {
        if i < p.len() - 1 {
            assert(q[i] == p[i] && q[i + 1] == p[i + 1]);
        } else {
            assert(q[i] == a && q[i + 1] == b);
        }
    }
    assert(is_dep_path(g, q));
    assert(q[0] == p[0]);
    assert(q[q.len() - 1] == b);
}

/// A dependency-closed plan contains the end of every dependency path that
/// starts inside it.
pub proof fn lemma_path_end_in_plan(g: Graph, plan: Seq<usize>, p: Seq<usize>)
    requires
        plan_ordered(g, plan),
        is_dep_path(g, p),
        plan_contains(plan, p[0]),
    ensures
        plan_contains(plan, p[p.len() - 1]),
    decreases p.len(),
{
    if p.len() > 1 {
        assert(dep_edge(g, p[0], p[1]));
        let i = choose|i: int| 0 <= i < plan.len() && plan[i] == p[0];
        assert(dep_edge(g, plan[i], p[1]));
        let q = p.subrange(1, p.len() as int);
        assert forall|i2: int| 0 <= i2 < q.len() - 1 implies dep_edge(
            g,
            #[trigger] q[i2],
            q[i2 + 1],
        ) by {
            assert(q[i2] == p[i2 + 1] && q[i2 + 1] == p[i2 + 2]);
        }
        assert(plan_contains(plan, q[0]));
        lemma_path_end_in_plan(g, plan, q);
        assert(q[q.len() - 1] == p[p.len() - 1]);
    }
}

/// A plan that is dependency-closed and covers the output nodes covers
/// everything reachable from them.
pub proof fn lemma_reachable_in_plan(g: Graph, plan: Seq<usize>)
    requires
        plan_ordered(g, plan),
        plan_has_outputs(g, plan),
    ensures
        plan_complete(g, plan),
{
    assert forall|n: usize| reachable(g, n) implies plan_contains(plan, n) by {
        let p = choose|p: Seq<usize>|
            is_dep_path(g, p) && is_output_node(g, p[0]) && p[p.len() - 1] == n;
        let t = choose|t: int| 0 <= t < g.outputs@.len() && (#[trigger] g.outputs@[t]).node == p[0];
        assert(plan_contains(plan, g.outputs@[t].node));
        lemma_path_end_in_plan(g, plan, p);
    }
}

/// The position of node `n` in the plan.
spec fn plan_pos(plan: Seq<usize>, n: usize) -> int {
    choose|i: int| 0 <= i < plan.len() && plan[i] == n
}

/// In a distinct, dependency-ordered plan, positions strictly decrease
/// along any dependency path that starts inside the plan.
proof fn lemma_path_pos_decreases(g: Graph, plan: Seq<usize>, p: Seq<usize>, i: int)
    requires
        plan_distinct(plan),
        plan_ordered(g, plan),
        is_dep_path(g, p),
        plan_contains(plan, p[0]),
        0 <= i < p.len(),
    ensures
        plan_contains(plan, p[i]),
        0 <= plan_pos(plan, p[i]) < plan.len(),
        plan[plan_pos(plan, p[i])] == p[i],
        plan_pos(plan, p[i]) <= plan_pos(plan, p[0]) - i,
    decreases i,
{
    if i == 0 {
        assert(0 <= plan_pos(plan, p[0]) < plan.len() && plan[plan_pos(plan, p[0])] == p[0]);
    } else {
        lemma_path_pos_decreases(g, plan, p, i - 1);
        let prev = plan_pos(plan, p[i - 1]);
        assert(dep_edge(g, p[i - 1], p[i]));
        assert(dep_edge(g, plan[prev], p[i]));
        let j = choose|j: int| 0 <= j < prev && plan[j] == p[i];
        assert(plan_contains(plan, p[i]));
        let pos = plan_pos(plan, p[i]);
        assert(0 <= pos < plan.len() && plan[pos] == p[i]);
        if pos != j {
            if pos < j {
                assert(plan[pos] != plan[j]);
            } else {
                assert(plan[j] != plan[pos]);
            }
        }
        assert(pos == j);
    }
}

/// A valid plan rules out any cycle among reachable nodes: positions would
/// have to strictly decrease all the way around the cycle.
pub proof fn lemma_plan_no_reachable_cycle(g: Graph, plan: Seq<usize>)
    requires
        plan_distinct(plan),
        plan_ordered(g, plan),
        plan_complete(g, plan),
    ensures
        !has_reachable_cycle(g),
{
    if has_reachable_cycle(g) {
        let p = choose|p: Seq<usize>| is_cycle(g, p) && reachable(g, p[0]);
        assert(plan_contains(plan, p[0]));
        let l = p.len() as int;
        lemma_path_pos_decreases(g, plan, p, l - 1);
        let last = plan_pos(plan, p[l - 1]);
        let first = plan_pos(plan, p[0]);
        assert(last <= first - (l - 1));
        assert(dep_edge(g, p[l - 1], p[0]));
        assert(dep_edge(g, plan[last], p[0]));
        let j = choose|j: int| 0 <= j < last && plan[j] == p[0];
        if j != first {
            if j < first {
                assert(plan[j] != plan[first]);
            } else {
                assert(plan[first] != plan[j]);
            }
        }
        assert(j == first);
        assert(first < last);
        assert(false);
    }
}

} // verus!
