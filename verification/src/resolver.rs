//! The dependency resolver: turns a graph into an execution plan by
//! depth-first traversal from every output-marked node, visiting each
//! node's connection sources before the node itself.
//!
//! Three-colour marking detects cycles: meeting an in-progress node during
//! traversal signals `CycleDetected`, and the reported cycle is the slice
//! of the traversal stack from that node to the top. Each node is emitted
//! at most once however many consumers it has (memoisation), and nodes
//! unreachable from any output are never visited at all (dead-code
//! elimination). A graph with no marked outputs yields an empty plan.

use vstd::prelude::*;

use crate::diagnostics::CompileError;
use crate::graph::{Graph, InputBinding};
use crate::order::{
    dep_edge, is_dep_path, is_cycle, acyclic, is_output_node, reachable, inputs_bound,
    reachable_inputs_bound, has_reachable_cycle, plan_contains, plan_distinct, plan_ordered,
    plan_nodes_ok, plan_has_outputs, plan_complete, plan_valid, binding_connects_to,
    lemma_output_reachable, lemma_reachable_step, lemma_reachable_in_plan,
    lemma_plan_no_reachable_cycle,
};

verus! {

/// An ordered sequence of node ids such that every node appears after all
/// nodes it depends on. Ephemeral: recomputed for each compile request.
#[derive(Debug)]
pub struct ExecutionPlan {
    pub order: Vec<usize>,
}

/// Three-colour marking of one node during traversal.
#[derive(Clone, Copy, Debug, PartialEq, Eq, Structural)]
enum Mark {
    /// Not yet seen.
    Unvisited,
    /// On the traversal stack.
    InProgress,
    /// Emitted into the plan.
    Done,
}

/// One frame of the explicit traversal stack: a node and the index of the
/// next input slot of it to examine.
struct Frame {
    node: usize,
    child: usize,
}

/// Every frame names an existing, reachable node and its child index stays
/// within that node's input count.
spec fn stack_nodes_ok(g: Graph, stack: Seq<Frame>) -> bool {
    forall|i: int|
        0 <= i < stack.len() ==> {
            let f = #[trigger] stack[i];
            &&& (f.node as int) < g.nodes@.len()
            &&& f.child <= g.nodes@[f.node as int].inputs@.len()
            &&& reachable(g, f.node)
        }
}

/// Consecutive stack frames are linked by dependency edges.
spec fn stack_chain(g: Graph, stack: Seq<Frame>) -> bool {
    forall|i: int|
        0 <= i < stack.len() - 1 ==> dep_edge(g, (#[trigger] stack[i]).node, stack[i + 1].node)
}

/// No node sits on the stack twice.
spec fn stack_distinct(stack: Seq<Frame>) -> bool {
    forall|i1: int, i2: int|
        0 <= i1 < i2 < stack.len() ==> (#[trigger] stack[i1]).node != (#[trigger] stack[i2]).node
}

/// Node `m` sits on the stack.
spec fn on_stack(stack: Seq<Frame>, m: usize) -> bool {
    exists|i: int| 0 <= i < stack.len() && (#[trigger] stack[i]).node == m
}

/// The in-progress nodes are exactly the stack nodes.
spec fn inprogress_iff_on_stack(marks: Seq<Mark>, stack: Seq<Frame>) -> bool {
    forall|m: int|
        0 <= m < marks.len() ==> ((#[trigger] marks[m]) is InProgress <==> on_stack(
            stack,
            m as usize,
        ))
}

/// The done nodes are exactly the plan nodes.
spec fn done_iff_plan(marks: Seq<Mark>, plan: Seq<usize>) -> bool {
    forall|m: int|
        0 <= m < marks.len() ==> ((#[trigger] marks[m]) is Done <==> plan_contains(
            plan,
            m as usize,
        ))
}

/// Every input slot of `f.node` below `f.child` has been examined: it is
/// bound, and a connection source is either already done or is the node
/// pushed directly above this frame.
spec fn frame_children_ok(g: Graph, marks: Seq<Mark>, f: Frame, next: Option<usize>) -> bool {
    forall|c: int|
        0 <= c < f.child ==> {
            let b = (#[trigger] g.nodes@[f.node as int].inputs@[c]).binding;
            &&& b is Some
            &&& match b {
                Some(InputBinding::Connection { node, .. }) => (marks[node as int] is Done)
                    || next == Some(node),
                _ => true,
            }
        }
}

/// `frame_children_ok` for every frame, taking the frame above as `next`.
spec fn stack_children_done(g: Graph, marks: Seq<Mark>, stack: Seq<Frame>) -> bool {
    forall|i: int|
        0 <= i < stack.len() ==> frame_children_ok(
            g,
            marks,
            #[trigger] stack[i],
            if i + 1 < stack.len() {
                Some(stack[i + 1].node)
            } else {
                None
            },
        )
}

/// No node is marked in-progress.
spec fn no_inprogress(marks: Seq<Mark>) -> bool {
    forall|m: int| 0 <= m < marks.len() ==> !((#[trigger] marks[m]) is InProgress)
}

/// How many nodes are still unvisited: the first component of the
/// traversal's termination measure.
spec fn count_unvisited(marks: Seq<Mark>) -> nat
    decreases marks.len(),
{
    if marks.len() == 0 {
        0
    } else {
        count_unvisited(marks.drop_last()) + if marks.last() is Unvisited {
            1nat
        } else {
            0nat
        }
    }
}

/// How many input slots of one frame remain to examine.
spec fn frame_rem(g: Graph, f: Frame) -> nat {
    let len = g.nodes@[f.node as int].inputs@.len();
    if f.child <= len {
        (len - f.child) as nat
    } else {
        0
    }
}

/// How many input slots remain to examine over the whole stack: the second
/// component of the traversal's termination measure.
spec fn sum_remaining(g: Graph, stack: Seq<Frame>) -> nat
    decreases stack.len(),
{
    if stack.len() == 0 {
        0
    } else {
        sum_remaining(g, stack.drop_last()) + frame_rem(g, stack.last())
    }
}

/// Updating one mark changes the unvisited count by exactly the difference
/// the two marks make.
proof fn lemma_count_unvisited_update(marks: Seq<Mark>, i: int, v: Mark)
    requires
        0 <= i < marks.len(),
    ensures
        count_unvisited(marks.update(i, v)) as int == count_unvisited(marks) as int - (
        if marks[i] is Unvisited {
            1int
        } else {
            0int
        }) + (
        if v is Unvisited {
            1int
        } else {
            0int
        }),
    decreases marks.len(),
{
    let m2 = marks.update(i, v);
    if i == marks.len() - 1 {
        assert(m2.drop_last() =~= marks.drop_last());
        assert(m2.last() == v);
    } else {
        assert(m2.drop_last() =~= marks.drop_last().update(i, v));
        assert(m2.last() == marks.last());
        lemma_count_unvisited_update(marks.drop_last(), i, v);
        assert(marks.drop_last()[i] == marks[i]);
    }
}

/// Replacing the top frame changes the remaining-slot sum by exactly the
/// difference the two frames make.
proof fn lemma_sum_update_last(g: Graph, st: Seq<Frame>, f: Frame)
    requires
        st.len() >= 1,
    ensures
        sum_remaining(g, st.update(st.len() - 1, f)) as int == sum_remaining(g, st) as int
            - frame_rem(g, st.last()) + frame_rem(g, f),
{
    let st2 = st.update(st.len() - 1, f);
    assert(st2.drop_last() =~= st.drop_last());
    assert(st2.last() == f);
}

/// Popping the top frame removes exactly its remaining slots from the sum.
proof fn lemma_sum_pop(g: Graph, st: Seq<Frame>)
    requires
        st.len() >= 1,
    ensures
        sum_remaining(g, st.subrange(0, st.len() - 1)) as int == sum_remaining(g, st) as int
            - frame_rem(g, st.last()),
{
    assert(st.subrange(0, st.len() - 1) =~= st.drop_last());
}

/// Builds the reported cycle once the traversal meets the in-progress node
/// `s` again: the slice of the stack from `s`'s frame to the top, whose
/// last node depends on `s`.
#[verifier::loop_isolation(false)]
fn extract_cycle(g: &Graph, stack: &Vec<Frame>, s: usize) -> (path: Vec<usize>)
    requires
        stack@.len() >= 1,
        stack_nodes_ok(*g, stack@),
        stack_chain(*g, stack@),
        on_stack(stack@, s),
        dep_edge(*g, stack@[stack@.len() - 1].node, s),
    ensures
        is_cycle(*g, path@),
        reachable(*g, path@[0]),
{
    proof {
        vstd::std_specs::vec::axiom_spec_len(stack);
    }
    let mut pstart: usize = 0;
    while stack[pstart].node != s
        invariant
            pstart < stack@.len(),
            exists|i: int| pstart <= i < stack@.len() && (#[trigger] stack@[i]).node == s,
        decreases stack@.len() - pstart,
    {
        proof {
            let iw = choose|i: int|
                pstart <= i < stack@.len() && (#[trigger] stack@[i]).node == s;
            assert(iw != pstart);
        }
        pstart += 1;
    }
    let mut path: Vec<usize> = Vec::new();
    let mut q = pstart;
    while q < stack.len()
        invariant
            pstart <= q <= stack@.len(),
            path@.len() == q - pstart,
            forall|i: int| 0 <= i < path@.len() ==> #[trigger] path@[i] == stack@[pstart + i].node,
        decreases stack@.len() - q,
    {
        path.push(stack[q].node);
        q += 1;
    }
    proof {
        assert(path@.len() == stack@.len() - pstart);
        assert(path@[0] == s);
        assert(path@[path@.len() - 1] == stack@[stack@.len() - 1].node);
        assert forall|i: int| 0 <= i < path@.len() - 1 implies dep_edge(
            *g,
            #[trigger] path@[i],
            path@[i + 1],
        ) by {
            assert(path@[i] == stack@[pstart + i].node);
            assert(path@[i + 1] == stack@[pstart + i + 1].node);
            assert(dep_edge(*g, (stack@[pstart + i]).node, stack@[pstart + i + 1].node));
        }
        assert(is_dep_path(*g, path@));
        assert(is_cycle(*g, path@));
        assert(reachable(*g, path@[0]));
    }
    path
}

/// Depth-first traversal from one output-marked root. Extends the plan
/// with every node reachable from `root` that is not already planned, in
/// dependency order, or reports the cycle or unbound input it runs into.
#[verifier::loop_isolation(false)]
#[verifier::rlimit(100)]
fn visit_root(g: &Graph, root: usize, marks: &mut Vec<Mark>, plan: &mut Vec<usize>) -> (r: Result<
    (),
    CompileError,
>)
    requires
        g.wf(),
        (root as int) < g.nodes@.len(),
        is_output_node(*g, root),
        old(marks)@.len() == g.nodes@.len(),
        no_inprogress(old(marks)@),
        done_iff_plan(old(marks)@, old(plan)@),
        plan_distinct(old(plan)@),
        plan_ordered(*g, old(plan)@),
        plan_nodes_ok(*g, old(plan)@),
    ensures
        match r {
            Ok(_) => {
                &&& final(marks)@.len() == g.nodes@.len()
                &&& no_inprogress(final(marks)@)
                &&& done_iff_plan(final(marks)@, final(plan)@)
                &&& plan_distinct(final(plan)@)
                &&& plan_ordered(*g, final(plan)@)
                &&& plan_nodes_ok(*g, final(plan)@)
                &&& final(marks)@[root as int] is Done
                &&& (forall|m: int|
                    0 <= m < g.nodes@.len() && (#[trigger] old(marks)@[m]) is Done
                        ==> final(marks)@[m] is Done)
            },
            Err(e) => match e {
                CompileError::CycleDetected { path } => is_cycle(*g, path@) && reachable(
                    *g,
                    path@[0],
                ),
                CompileError::UnresolvedRequiredInput { node, slot } => {
                    &&& (node as int) < g.nodes@.len()
                    &&& reachable(*g, node)
                    &&& !inputs_bound(*g, node)
                    &&& exists|k: int|
                        {
                            &&& 0 <= k < g.nodes@[node as int].inputs@.len()
                            &&& (#[trigger] g.nodes@[node as int].inputs@[k]).name@ == slot@
                            &&& g.nodes@[node as int].inputs@[k].binding is None
                        }
                },
                _ => false,
            },
        },
{
    if marks[root] == Mark::Done {
        return Ok(());
    }
    proof {
        lemma_output_reachable(*g, root);
    }
    let mut stack: Vec<Frame> = Vec::new();
    stack.push(Frame { node: root, child: 0 });
    marks[root] = Mark::InProgress;
    proof {
        vstd::std_specs::vec::axiom_spec_len(&g.nodes);
        assert(g.nodes@.len() <= usize::MAX);
        assert(stack@[0] == Frame { node: root, child: 0 });
        assert(on_stack(stack@, root));
        assert forall|m: int| 0 <= m < marks@.len() implies ((#[trigger] marks@[m]) is InProgress
            <==> on_stack(stack@, m as usize)) by {
            if on_stack(stack@, m as usize) {
                let i = choose|i: int|
                    0 <= i < stack@.len() && (#[trigger] stack@[i]).node == m as usize;
                assert(i == 0);
                assert(m as usize == root);
                assert(m == root as int);
            }
            if m == root as int {
                assert(marks@[m] is InProgress);
            } else {
                assert(marks@[m] == old(marks)@[m]);
            }
        }
    }
    while stack.len() != 0
        invariant
            marks@.len() == g.nodes@.len(),
            stack_nodes_ok(*g, stack@),
            stack_chain(*g, stack@),
            stack_distinct(stack@),
            inprogress_iff_on_stack(marks@, stack@),
            stack_children_done(*g, marks@, stack@),
            done_iff_plan(marks@, plan@),
            plan_distinct(plan@),
            plan_ordered(*g, plan@),
            plan_nodes_ok(*g, plan@),
            forall|m: int|
                0 <= m < g.nodes@.len() && (#[trigger] old(marks)@[m]) is Done ==> marks@[m] is Done,
            marks@[root as int] is Done || on_stack(stack@, root),
        decreases count_unvisited(marks@), sum_remaining(*g, stack@), stack@.len(),
    {
        let ghost st_begin = stack@;
        let ghost marks_begin = marks@;
        let ghost plan_begin = plan@;
        let top = stack.len() - 1;
        let n = stack[top].node;
        let c = stack[top].child;
        proof {
            assert(stack@[top as int].node == n);
            assert(g.node_wf(g.nodes@[n as int]));
        }
        if c < g.nodes[n].inputs.len() {
            match &g.nodes[n].inputs[c].binding {
                None => {
                    let slot = g.nodes[n].inputs[c].name.clone();
                    proof {
                        assert(g.nodes@[n as int].inputs@[c as int].binding is None);
                        assert(!inputs_bound(*g, n));
                        assert(stack@[top as int].node == n);
                        assert(reachable(*g, n));
                        assert(g.nodes@[n as int].inputs@[c as int].name@ == slot@);
                    }
                    return Err(CompileError::UnresolvedRequiredInput { node: n, slot });
                },
                Some(InputBinding::Literal { .. }) => {
                    stack[top] = Frame { node: n, child: c + 1 };
                    proof {
                        lemma_after_advance(*g, marks@, st_begin, stack@, top as int, c as int);
                        lemma_sum_update_last(
                            *g,
                            st_begin,
                            Frame { node: n, child: (c + 1) as usize },
                        );
                        assert(sum_remaining(*g, stack@) < sum_remaining(*g, st_begin));
                    }
                },
                Some(InputBinding::Connection { node: src, .. }) => {
                    let s = *src;
                    proof {
                        assert(binding_connects_to(
                            g.nodes@[n as int].inputs@[c as int].binding,
                            s,
                        ));
                        assert(dep_edge(*g, n, s));
                        assert((s as int) < g.nodes@.len());
                    }
                    let mk = marks[s];
                    if mk == Mark::Done {
                        stack[top] = Frame { node: n, child: c + 1 };
                        proof {
                            lemma_after_advance(*g, marks@, st_begin, stack@, top as int, c as int);
                            lemma_sum_update_last(
                                *g,
                                st_begin,
                                Frame { node: n, child: (c + 1) as usize },
                            );
                            assert(sum_remaining(*g, stack@) < sum_remaining(*g, st_begin));
                        }
                    } else if mk == Mark::InProgress {
                        // `s` is on the stack: the slice from its frame to
                        // the top, which depends on `s` again, is a cycle.
                        proof {
                            assert(stack@[stack@.len() - 1].node == n);
                        }
                        let path = extract_cycle(g, &stack, s);
                        return Err(CompileError::CycleDetected { path });
                    } else {
                        // Unvisited: descend into the source first.
                        proof {
                            assert(reachable(*g, n));
                            lemma_reachable_step(*g, n, s);
                        }
                        stack[top] = Frame { node: n, child: c + 1 };
                        let ghost mid = stack@;
                        marks[s] = Mark::InProgress;
                        stack.push(Frame { node: s, child: 0 });
                        proof {
                            lemma_after_push(
                                *g,
                                marks_begin,
                                marks@,
                                st_begin,
                                mid,
                                stack@,
                                top as int,
                                c as int,
                                s,
                            );
                            lemma_count_unvisited_update(marks_begin, s as int, Mark::InProgress);
                            assert(count_unvisited(marks@) < count_unvisited(marks_begin));
                        }
                    }
                },
            }
        } else {
            // Every input examined: retire the node into the plan.
            let _popped = stack.pop();
            marks[n] = Mark::Done;
            plan.push(n);
            proof {
                lemma_after_pop(*g, marks_begin, marks@, st_begin, stack@, plan_begin, plan@, n);
                lemma_count_unvisited_update(marks_begin, n as int, Mark::Done);
                assert(count_unvisited(marks@) == count_unvisited(marks_begin));
                lemma_sum_pop(*g, st_begin);
                assert(frame_rem(*g, st_begin.last()) == 0);
                assert(sum_remaining(*g, stack@) == sum_remaining(*g, st_begin));
                assert(stack@.len() < st_begin.len());
            }
        }
    }
    Ok(())
}

/// Invariant maintenance for advancing the top frame's child index without
/// changing marks or the set of stack nodes (literal child, or connection
/// to an already-done node).
proof fn lemma_after_advance(
    g: Graph,
    marks: Seq<Mark>,
    st0: Seq<Frame>,
    st1: Seq<Frame>,
    top: int,
    c: int,
)
    requires
        top == st0.len() - 1,
        0 <= top,
        st1 =~= st0.update(top, Frame { node: st0[top].node, child: (c + 1) as usize }),
        st0[top].child == c,
        c < g.nodes@[st0[top].node as int].inputs@.len(),
        stack_nodes_ok(g, st0),
        stack_chain(g, st0),
        stack_distinct(st0),
        inprogress_iff_on_stack(marks, st0),
        stack_children_done(g, marks, st0),
        g.nodes@[st0[top].node as int].inputs@[c].binding is Some,
        match g.nodes@[st0[top].node as int].inputs@[c].binding {
            Some(InputBinding::Connection { node, .. }) => marks[node as int] is Done,
            _ => true,
        },
    ensures
        stack_nodes_ok(g, st1),
        stack_chain(g, st1),
        stack_distinct(st1),
        inprogress_iff_on_stack(marks, st1),
        stack_children_done(g, marks, st1),
{
    assert forall|m: int| 0 <= m < marks.len() implies ((#[trigger] marks[m]) is InProgress
        <==> on_stack(st1, m as usize)) by {
        assert forall|i: int| 0 <= i < st0.len() implies st1[i].node == st0[i].node by {}
        if on_stack(st0, m as usize) {
            let i = choose|i: int| 0 <= i < st0.len() && (#[trigger] st0[i]).node == m as usize;
            assert(st1[i].node == m as usize);
            assert(on_stack(st1, m as usize));
        }
        if on_stack(st1, m as usize) {
            let i = choose|i: int| 0 <= i < st1.len() && (#[trigger] st1[i]).node == m as usize;
            assert(st0[i].node == m as usize);
            assert(on_stack(st0, m as usize));
        }
    }
    assert forall|i: int| 0 <= i < st1.len() implies frame_children_ok(
        g,
        marks,
        #[trigger] st1[i],
        if i + 1 < st1.len() {
            Some(st1[i + 1].node)
        } else {
            None
        },
    ) by {
        if i < top {
            assert(st1[i] == st0[i]);
            assert(frame_children_ok(
                g,
                marks,
                st0[i],
                if i + 1 < st0.len() {
                    Some(st0[i + 1].node)
                } else {
                    None
                },
            ));
            assert(st1[i + 1].node == st0[i + 1].node);
        } else {
            let f0 = st0[top];
            let f1 = st1[top];
            assert(frame_children_ok(g, marks, f0, None));
            assert forall|c2: int| 0 <= c2 < f1.child implies {
                let b = (#[trigger] g.nodes@[f1.node as int].inputs@[c2]).binding;
                &&& b is Some
                &&& match b {
                    Some(InputBinding::Connection { node, .. }) => (marks[node as int] is Done)
                        || None::<usize> == Some(node),
                    _ => true,
                }
            } by {
                if c2 < c {
                    assert(frame_children_ok(g, marks, f0, None));
                }
            }
        }
    }
}

/// Invariant maintenance for pushing a fresh frame for an unvisited
/// connection source.
proof fn lemma_after_push(
    g: Graph,
    marks_entry: Seq<Mark>,
    marks: Seq<Mark>,
    st0: Seq<Frame>,
    mid: Seq<Frame>,
    st1: Seq<Frame>,
    top: int,
    c: int,
    s: usize,
)
    requires
        g.wf(),
        g.nodes@.len() <= usize::MAX,
        top == st0.len() - 1,
        0 <= top,
        marks.len() == g.nodes@.len(),
        marks_entry.len() == g.nodes@.len(),
        mid =~= st0.update(top, Frame { node: st0[top].node, child: (c + 1) as usize }),
        st1 =~= mid.push(Frame { node: s, child: 0 }),
        st0[top].child == c,
        c < g.nodes@[st0[top].node as int].inputs@.len(),
        binding_connects_to(g.nodes@[st0[top].node as int].inputs@[c].binding, s),
        (s as int) < g.nodes@.len(),
        marks =~= marks_entry.update(s as int, Mark::InProgress),
        !(marks_entry[s as int] is InProgress),
        !(marks_entry[s as int] is Done),
        reachable(g, s),
        stack_nodes_ok(g, st0),
        stack_chain(g, st0),
        stack_distinct(st0),
        inprogress_iff_on_stack(marks_entry, st0),
        stack_children_done(g, marks_entry, st0),
    ensures
        stack_nodes_ok(g, st1),
        stack_chain(g, st1),
        stack_distinct(st1),
        inprogress_iff_on_stack(marks, st1),
        stack_children_done(g, marks, st1),
{
    let n = st0[top].node;
    assert(dep_edge(g, n, s));
    assert(marks_entry.len() == marks.len());
    assert(st1.len() == st0.len() + 1);
    assert(st1[st1.len() - 1] == Frame { node: s, child: 0 });
    assert(mid[top] == Frame { node: st0[top].node, child: (c + 1) as usize });
    assert(forall|i: int| 0 <= i < st0.len() ==> #[trigger] st1[i] == mid[i]);
    assert(forall|i: int| 0 <= i < st0.len() && i != top ==> #[trigger] mid[i] == st0[i]);
    assert(forall|i: int| 0 <= i < st0.len() ==> (#[trigger] st1[i]).node == st0[i].node);
    // The new node was not on the stack before.
    assert(marks_entry[s as int] is InProgress <==> on_stack(st0, s));
    assert(!on_stack(st0, s));
    assert forall|i: int| 0 <= i < st1.len() - 1 implies dep_edge(
        g,
        (#[trigger] st1[i]).node,
        st1[i + 1].node,
    ) by {
        if i < top {
            assert(st1[i].node == st0[i].node && st1[i + 1].node == st0[i + 1].node);
            assert(dep_edge(g, st0[i].node, st0[i + 1].node));
        } else {
            assert(st1[i].node == n && st1[i + 1].node == s);
        }
    }
    assert forall|i1: int, i2: int| 0 <= i1 < i2 < st1.len() implies (#[trigger] st1[i1]).node != (
    #[trigger] st1[i2]).node by {
        if i2 < st1.len() - 1 {
            assert(st1[i1].node == st0[i1].node && st1[i2].node == st0[i2].node);
        } else {
            assert(st1[i2].node == s);
            assert(st1[i1].node == st0[i1].node);
            if st0[i1].node == s {
                assert(on_stack(st0, s));
            }
        }
    }
    assert forall|m: int| 0 <= m < marks.len() implies ((#[trigger] marks[m]) is InProgress
        <==> on_stack(st1, m as usize)) by {
        if m == s as int {
            assert(st1[st1.len() - 1].node == s);
            assert(on_stack(st1, s));
        } else {
            if on_stack(st0, m as usize) {
                let i = choose|i: int| 0 <= i < st0.len() && (#[trigger] st0[i]).node == m as usize;
                assert(st1[i].node == m as usize);
                assert(on_stack(st1, m as usize));
            }
            if on_stack(st1, m as usize) {
                let i = choose|i: int| 0 <= i < st1.len() && (#[trigger] st1[i]).node == m as usize;
                if i == st1.len() - 1 {
                    assert(st1[i].node == s);
                    assert(m as usize == s);
                    assert(m == s as int);
                    assert(false);
                }
                assert(st0[i].node == m as usize);
                assert(on_stack(st0, m as usize));
            }
        }
    }
    assert forall|i: int| 0 <= i < st1.len() implies frame_children_ok(
        g,
        marks,
        #[trigger] st1[i],
        if i + 1 < st1.len() {
            Some(st1[i + 1].node)
        } else {
            None
        },
    ) by {
        if i < top {
            assert(st1[i] == st0[i]);
            assert(frame_children_ok(
                g,
                marks,
                st0[i],
                if i + 1 < st0.len() {
                    Some(st0[i + 1].node)
                } else {
                    None
                },
            ));
            assert(st1[i + 1].node == st0[i + 1].node);
            assert forall|c2: int| 0 <= c2 < st1[i].child implies {
                let b = (#[trigger] g.nodes@[st1[i].node as int].inputs@[c2]).binding;
                &&& b is Some
                &&& match b {
                    Some(InputBinding::Connection { node, .. }) => (marks[node as int] is Done)
                        || Some(st1[i + 1].node) == Some(node),
                    _ => true,
                }
            } by {
                let b = g.nodes@[st0[i].node as int].inputs@[c2].binding;
                match b {
                    Some(InputBinding::Connection { node, .. }) => {
                        if marks_entry[node as int] is Done {
                            assert(node != s);
                            assert(marks[node as int] is Done);
                        }
                    },
                    _ => {},
                }
            }
        } else if i == top {
            let f0 = st0[top];
            assert(frame_children_ok(g, marks, st0[top], None) || true);
            assert forall|c2: int| 0 <= c2 < st1[top].child implies {
                let b = (#[trigger] g.nodes@[st1[top].node as int].inputs@[c2]).binding;
                &&& b is Some
                &&& match b {
                    Some(InputBinding::Connection { node, .. }) => (marks[node as int] is Done)
                        || Some(st1[top + 1].node) == Some(node),
                    _ => true,
                }
            } by {
                if c2 < c {
                    assert(frame_children_ok(g, marks_entry, f0, None));
                    let b = g.nodes@[f0.node as int].inputs@[c2].binding;
                    match b {
                        Some(InputBinding::Connection { node, .. }) => {
                            assert(marks_entry[node as int] is Done);
                            assert(node != s);
                            assert(marks[node as int] is Done);
                        },
                        _ => {},
                    }
                } else {
                    assert(c2 == c);
                    assert(st1[top + 1].node == s);
                }
            }
        } else {
            assert(st1[i].child == 0);
        }
    }
}

/// Invariant maintenance for retiring the top frame into the plan.
proof fn lemma_after_pop(
    g: Graph,
    marks_entry: Seq<Mark>,
    marks: Seq<Mark>,
    st0: Seq<Frame>,
    st1: Seq<Frame>,
    plan0: Seq<usize>,
    plan1: Seq<usize>,
    n: usize,
)
    requires
        g.wf(),
        g.nodes@.len() <= usize::MAX,
        marks.len() == g.nodes@.len(),
        marks_entry.len() == g.nodes@.len(),
        st0.len() >= 1,
        st0[st0.len() - 1].node == n,
        st0[st0.len() - 1].child == g.nodes@[n as int].inputs@.len(),
        st1 =~= st0.subrange(0, st0.len() - 1),
        marks =~= marks_entry.update(n as int, Mark::Done),
        plan1 =~= plan0.push(n),
        stack_nodes_ok(g, st0),
        stack_chain(g, st0),
        stack_distinct(st0),
        inprogress_iff_on_stack(marks_entry, st0),
        stack_children_done(g, marks_entry, st0),
        done_iff_plan(marks_entry, plan0),
        plan_distinct(plan0),
        plan_ordered(g, plan0),
        plan_nodes_ok(g, plan0),
    ensures
        stack_nodes_ok(g, st1),
        stack_chain(g, st1),
        stack_distinct(st1),
        inprogress_iff_on_stack(marks, st1),
        stack_children_done(g, marks, st1),
        done_iff_plan(marks, plan1),
        plan_distinct(plan1),
        plan_ordered(g, plan1),
        plan_nodes_ok(g, plan1),
{
    let top = st0.len() - 1;
    assert(marks_entry[n as int] is InProgress) by {
        assert(st0[top].node == n);
        assert(on_stack(st0, n));
    }
    assert(!plan_contains(plan0, n)) by {
        assert(!(marks_entry[n as int] is Done));
    }
    // The node's inputs are all bound, and its connection sources are done.
    assert(frame_children_ok(g, marks_entry, st0[top], None));
    assert(inputs_bound(g, n)) by {
        assert forall|k: int| 0 <= k < g.nodes@[n as int].inputs@.len() implies (
        #[trigger] g.nodes@[n as int].inputs@[k]).binding is Some by {
            assert(frame_children_ok(g, marks_entry, st0[top], None));
        }
    }
    assert forall|b: usize| #[trigger] dep_edge(g, n, b) implies exists|j: int|
        0 <= j < plan0.len() && plan0[j] == b by {
        let k = choose|k: int|
            0 <= k < g.nodes@[n as int].inputs@.len() && binding_connects_to(
                (#[trigger] g.nodes@[n as int].inputs@[k]).binding,
                b,
            );
        assert(marks_entry[b as int] is Done || None::<usize> == Some(b));
        assert(plan_contains(plan0, b));
    }
    // Plan properties after the push.
    assert forall|i1: int, i2: int| 0 <= i1 < i2 < plan1.len() implies plan1[i1] != plan1[i2] by {
        if i2 < plan0.len() {
        } else {
            assert(plan1[i2] == n);
            assert(plan1[i1] == plan0[i1]);
            if plan0[i1] == n {
                assert(plan_contains(plan0, n));
            }
        }
    }
    assert forall|i: int, b: usize|
        0 <= i < plan1.len() && #[trigger] dep_edge(g, plan1[i], b) implies exists|j: int|
        0 <= j < i && plan1[j] == b by {
        if i < plan0.len() {
            assert(plan1[i] == plan0[i]);
            let j = choose|j: int| 0 <= j < i && plan0[j] == b;
            assert(plan1[j] == b);
        } else {
            assert(plan1[i] == n);
            let j = choose|j: int| 0 <= j < plan0.len() && plan0[j] == b;
            assert(plan1[j] == b);
        }
    }
    assert forall|i: int| 0 <= i < plan1.len() implies {
        let m = #[trigger] plan1[i];
        &&& (m as int) < g.nodes@.len()
        &&& reachable(g, m)
        &&& inputs_bound(g, m)
    } by {
        if i < plan0.len() {
            assert(plan1[i] == plan0[i]);
        } else {
            assert(plan1[i] == n);
            assert(reachable(g, n)) by {
                assert(stack_nodes_ok(g, st0));
                assert(st0[top].node == n);
            }
        }
    }
    // done <==> planned, after marking n done.
    assert forall|m: int| 0 <= m < marks.len() implies ((#[trigger] marks[m]) is Done
        <==> plan_contains(plan1, m as usize)) by {
        if m == n as int {
            assert(plan1[plan1.len() - 1] == n);
            assert(plan_contains(plan1, n));
        } else {
            if plan_contains(plan0, m as usize) {
                let j = choose|j: int| 0 <= j < plan0.len() && plan0[j] == m as usize;
                assert(plan1[j] == m as usize);
                assert(plan_contains(plan1, m as usize));
            }
            if plan_contains(plan1, m as usize) {
                let j = choose|j: int| 0 <= j < plan1.len() && (#[trigger] plan1[j]) == m as usize;
                if j == plan1.len() - 1 {
                    assert(plan1[j] == n);
                    assert(m as usize == n);
                    assert(m == n as int);
                    assert(false);
                }
                assert(plan0[j] == m as usize);
                assert(plan_contains(plan0, m as usize));
            }
        }
    }
    // in-progress <==> on the shortened stack.
    assert forall|m: int| 0 <= m < marks.len() implies ((#[trigger] marks[m]) is InProgress
        <==> on_stack(st1, m as usize)) by {
        if m == n as int {
            if on_stack(st1, n) {
                let i = choose|i: int| 0 <= i < st1.len() && (#[trigger] st1[i]).node == n;
                assert(st0[i].node == n);
                assert(st0[top].node == n);
                assert(false);
            }
        } else {
            if on_stack(st0, m as usize) && marks_entry[m] is InProgress {
                let i = choose|i: int| 0 <= i < st0.len() && (#[trigger] st0[i]).node == m as usize;
                if i == top {
                    assert(st0[i].node == n);
                    assert(m as usize == n);
                    assert(m == n as int);
                    assert(false);
                }
                assert(st1[i].node == m as usize);
                assert(on_stack(st1, m as usize));
            }
            if on_stack(st1, m as usize) {
                let i = choose|i: int| 0 <= i < st1.len() && (#[trigger] st1[i]).node == m as usize;
                assert(st0[i].node == m as usize);
                assert(on_stack(st0, m as usize));
            }
        }
    }
    // children of remaining frames: the former top's predecessor now sees
    // its pushed child done; everything else is unchanged.
    assert forall|i: int| 0 <= i < st1.len() implies frame_children_ok(
        g,
        marks,
        #[trigger] st1[i],
        if i + 1 < st1.len() {
            Some(st1[i + 1].node)
        } else {
            None
        },
    ) by {
        assert(st1[i] == st0[i]);
        assert(frame_children_ok(
            g,
            marks_entry,
            st0[i],
            if i + 1 < st0.len() {
                Some(st0[i + 1].node)
            } else {
                None
            },
        ));
        assert forall|c2: int| 0 <= c2 < st1[i].child implies {
            let b = (#[trigger] g.nodes@[st1[i].node as int].inputs@[c2]).binding;
            &&& b is Some
            &&& match b {
                Some(InputBinding::Connection { node, .. }) => (marks[node as int] is Done) || (
                if i + 1 < st1.len() {
                    Some(st1[i + 1].node)
                } else {
                    None
                } == Some(node)),
                _ => true,
            }
        } by {
            let b = g.nodes@[st0[i].node as int].inputs@[c2].binding;
            match b {
                Some(InputBinding::Connection { node, .. }) => {
                    if marks_entry[node as int] is Done {
                        assert(marks[node as int] is Done);
                    } else if i + 1 < st0.len() && node == st0[i + 1].node {
                        if i + 1 == top {
                            assert(node == n);
                            assert(marks[node as int] is Done);
                        } else {
                            assert(st1[i + 1].node == st0[i + 1].node);
                        }
                    }
                },
                _ => {},
            }
        }
    }
}

/// Resolves a graph into an execution plan, or reports the first cycle or
/// unbound required input found among the nodes reachable from an output.
#[verifier::loop_isolation(false)]
pub fn resolve(g: &Graph) -> (r: Result<ExecutionPlan, CompileError>)
    requires
        g.wf(),
    ensures
        match r {
            Ok(plan) => plan_valid(*g, plan.order@),
            Err(e) => match e {
                CompileError::CycleDetected { path } => is_cycle(*g, path@) && reachable(
                    *g,
                    path@[0],
                ),
                CompileError::UnresolvedRequiredInput { node, slot } => {
                    &&& (node as int) < g.nodes@.len()
                    &&& reachable(*g, node)
                    &&& !inputs_bound(*g, node)
                    &&& exists|k: int|
                        {
                            &&& 0 <= k < g.nodes@[node as int].inputs@.len()
                            &&& (#[trigger] g.nodes@[node as int].inputs@[k]).name@ == slot@
                            &&& g.nodes@[node as int].inputs@[k].binding is None
                        }
                },
                _ => false,
            },
        },
        acyclic(*g) && reachable_inputs_bound(*g) ==> r is Ok,
        has_reachable_cycle(*g) && reachable_inputs_bound(*g) ==> r matches Err(
            CompileError::CycleDetected { .. },
        ),
        r is Ok ==> !has_reachable_cycle(*g),
{
    let mut marks: Vec<Mark> = Vec::new();
    let mut i: usize = 0;
    while i < g.nodes.len()
        invariant
            i <= g.nodes@.len(),
            marks@.len() == i,
            forall|m: int| 0 <= m < i ==> (#[trigger] marks@[m]) is Unvisited,
        decreases g.nodes@.len() - i,
    {
        marks.push(Mark::Unvisited);
        i += 1;
    }
    let mut plan: Vec<usize> = Vec::new();
    let mut t: usize = 0;
    while t < g.outputs.len()
        invariant
            t <= g.outputs@.len(),
            marks@.len() == g.nodes@.len(),
            no_inprogress(marks@),
            done_iff_plan(marks@, plan@),
            plan_distinct(plan@),
            plan_ordered(*g, plan@),
            plan_nodes_ok(*g, plan@),
            forall|t2: int|
                0 <= t2 < t ==> marks@[(#[trigger] g.outputs@[t2]).node as int] is Done,
        decreases g.outputs@.len() - t,
    {
        let root = g.outputs[t].node;
        proof {
            assert(g.outputs@[t as int].node == root);
            assert(is_output_node(*g, root));
        }
        match visit_root(g, root, &mut marks, &mut plan) {
            Ok(_) => {},
            Err(e) => {
                proof {
                    match &e {
                        CompileError::CycleDetected { path } => {
                            assert(is_cycle(*g, path@) && reachable(*g, path@[0]));
                            assert(!acyclic(*g));
                            assert(has_reachable_cycle(*g));
                        },
                        CompileError::UnresolvedRequiredInput { node, .. } => {
                            assert(reachable(*g, *node) && !inputs_bound(*g, *node));
                            assert(!reachable_inputs_bound(*g));
                        },
                        _ => {},
                    }
                }
                return Err(e);
            },
        }
        t += 1;
    }
    proof {
        assert forall|t2: int| 0 <= t2 < g.outputs@.len() implies plan_contains(
            plan@,
            (#[trigger] g.outputs@[t2]).node,
        ) by {
            assert(marks@[g.outputs@[t2].node as int] is Done);
        }
        lemma_reachable_in_plan(*g, plan@);
        lemma_plan_no_reachable_cycle(*g, plan@);
    }
    Ok(ExecutionPlan { order: plan })
}

} // verus!
