//! The graph data model: operation signatures, nodes, input bindings, and
//! the editing operations that keep a graph well formed.
//!
//! A graph is an arena of nodes indexed by stable integer ids; connections
//! are id pairs, never references, so a cyclic graph can exist as *data*
//! and be rejected by the resolver rather than being made unrepresentable.
//! Editing validates each binding locally (slot existence, type
//! assignability, single binding per slot); whole-graph properties such as
//! acyclicity are deferred to compilation.

use vstd::prelude::*;

use crate::diagnostics::CompileError;
use crate::value::{Value, ValueType, is_assignable, value_type_of, assignable};

verus! {

/// A named, typed slot in an operation signature.
#[derive(Clone, Debug, PartialEq)]
pub struct SlotSig {
    pub name: String,
    pub ty: ValueType,
}

/// The declared signature of one operation: its tag and its ordered input
/// and output slots.
#[derive(Clone, Debug, PartialEq)]
pub struct OpSignature {
    pub operation: String,
    pub inputs: Vec<SlotSig>,
    pub outputs: Vec<SlotSig>,
}

/// The registry of operations a graph may instantiate: a mapping from
/// operation tag to signature, owned by the external operation library's
/// bindings and treated here as plain data.
#[derive(Clone, Debug, PartialEq)]
pub struct OpRegistry {
    pub ops: Vec<OpSignature>,
}

/// What an input slot is bound to: a literal value, or a connection to an
/// output slot (by declared position) of another node.
#[derive(Clone, Debug, PartialEq)]
pub enum InputBinding {
    Literal { value: Value },
    Connection { node: usize, output: usize },
}

/// One input slot of a node: its declared name and type, and its binding
/// if any. A slot has at most one binding; fan-in is forbidden.
#[derive(Clone, Debug, PartialEq)]
pub struct InputSlot {
    pub name: String,
    pub ty: ValueType,
    pub binding: Option<InputBinding>,
}

/// One operation instance in the graph.
#[derive(Clone, Debug, PartialEq)]
pub struct Node {
    pub operation: String,
    pub inputs: Vec<InputSlot>,
    pub outputs: Vec<SlotSig>,
}

/// A reference to one output slot (by declared position) of one node,
/// marked as an externally visible result of the program.
#[derive(Clone, Copy, Debug, PartialEq, Eq, Structural)]
pub struct OutputRef {
    pub node: usize,
    pub output: usize,
}

/// A directed graph of operation nodes plus the designated output slots.
#[derive(Clone, Debug, PartialEq)]
pub struct Graph {
    pub registry: OpRegistry,
    pub nodes: Vec<Node>,
    pub outputs: Vec<OutputRef>,
}

impl OpSignature {
    /// Slot names within a signature are unique: the signature is a mapping
    /// from slot name to type.
    pub open spec fn wf(self) -> bool {
        &&& (forall|j1: int, j2: int|
            0 <= j1 < j2 < self.inputs@.len() ==> self.inputs@[j1].name@ != self.inputs@[j2].name@)
        &&& (forall|j1: int, j2: int|
            0 <= j1 < j2 < self.outputs@.len() ==> self.outputs@[j1].name@ != self.outputs@[j2].name@)
    }
}

impl OpRegistry {
    /// Operation tags are unique and every signature is well formed: the
    /// registry is a mapping from operation tag to signature.
    pub open spec fn wf(self) -> bool {
        &&& (forall|i1: int, i2: int|
            0 <= i1 < i2 < self.ops@.len() ==> self.ops@[i1].operation@ != self.ops@[i2].operation@)
        &&& (forall|i: int| 0 <= i < self.ops@.len() ==> (#[trigger] self.ops@[i]).wf())
    }
}

/// `i` is the position of the signature for operation `op` in the registry.
pub open spec fn sig_pos(reg: OpRegistry, op: Seq<char>, i: int) -> bool {
    0 <= i < reg.ops@.len() && reg.ops@[i].operation@ == op
}

/// Some signature in the registry carries operation tag `op`.
pub open spec fn has_sig(reg: OpRegistry, op: Seq<char>) -> bool {
    exists|i: int| sig_pos(reg, op, i)
}

/// `j` is the position of the slot named `name` in a slot list.
pub open spec fn slot_pos(slots: Seq<SlotSig>, name: Seq<char>, j: int) -> bool {
    0 <= j < slots.len() && slots[j].name@ == name
}

/// Some slot in the list is named `name`.
pub open spec fn has_slot(slots: Seq<SlotSig>, name: Seq<char>) -> bool {
    exists|j: int| slot_pos(slots, name, j)
}

/// `k` is the position of the input slot named `name` on node `n`.
pub open spec fn input_pos(n: Node, name: Seq<char>, k: int) -> bool {
    0 <= k < n.inputs@.len() && n.inputs@[k].name@ == name
}

/// Some input slot of node `n` is named `name`.
pub open spec fn has_input_slot(n: Node, name: Seq<char>) -> bool {
    exists|k: int| input_pos(n, name, k)
}

/// Some output slot of node `n` is named `name`.
pub open spec fn has_output_slot(n: Node, name: Seq<char>) -> bool {
    has_slot(n.outputs@, name)
}

impl Graph {
    /// A binding is well formed for a slot of type `ty` when a literal's
    /// value type is assignable to `ty`, and a connection points at an
    /// existing node and declared output whose type is assignable to `ty`.
    pub open spec fn binding_wf(self, b: InputBinding, ty: ValueType) -> bool {
        match b {
            InputBinding::Literal { value } => is_assignable(value_type_of(value), ty),
            InputBinding::Connection { node, output } => {
                &&& (node as int) < self.nodes@.len()
                &&& (output as int) < self.nodes@[node as int].outputs@.len()
                &&& is_assignable(self.nodes@[node as int].outputs@[output as int].ty, ty)
            },
        }
    }

    /// A node is well formed when its slot names are unique and each bound
    /// input has a well-formed binding.
    pub open spec fn node_wf(self, n: Node) -> bool {
        &&& (forall|k1: int, k2: int|
            0 <= k1 < k2 < n.inputs@.len() ==> n.inputs@[k1].name@ != n.inputs@[k2].name@)
        &&& (forall|j1: int, j2: int|
            0 <= j1 < j2 < n.outputs@.len() ==> n.outputs@[j1].name@ != n.outputs@[j2].name@)
        &&& (forall|k: int| 0 <= k < n.inputs@.len() ==>
            match (#[trigger] n.inputs@[k]).binding {
                Some(b) => self.binding_wf(b, n.inputs@[k].ty),
                None => true,
            })
    }

    /// Whole-graph well-formedness: the registry is a mapping, every node
    /// is well formed, every marked output names an existing node and
    /// declared output slot, and no output slot is marked twice.
    pub open spec fn wf(self) -> bool {
        &&& self.registry.wf()
        &&& (forall|i: int| 0 <= i < self.nodes@.len() ==> self.node_wf(#[trigger] self.nodes@[i]))
        &&& (forall|t: int| 0 <= t < self.outputs@.len() ==> {
            let o = #[trigger] self.outputs@[t];
            (o.node as int) < self.nodes@.len()
                && (o.output as int) < self.nodes@[o.node as int].outputs@.len()
        })
        &&& (forall|t1: int, t2: int|
            0 <= t1 < t2 < self.outputs@.len() ==> self.outputs@[t1] != self.outputs@[t2])
    }
}

/// A supplied literal fits the signature: a declared input slot carries its
/// name and the value's type is assignable to that slot's type.
pub open spec fn literal_ok(sig: OpSignature, name: Seq<char>, v: Value) -> bool {
    exists|j: int| slot_pos(sig.inputs@, name, j) && is_assignable(value_type_of(v), sig.inputs@[j].ty)
}

/// The supplied literal inputs fit the signature: each fits its declared
/// slot and no slot name is supplied twice.
pub open spec fn literals_valid(sig: OpSignature, lits: Seq<(String, Value)>) -> bool {
    &&& (forall|k: int| 0 <= k < lits.len() ==> literal_ok(sig, (#[trigger] lits[k]).0@, lits[k].1))
    &&& (forall|k1: int, k2: int| 0 <= k1 < k2 < lits.len() ==> lits[k1].0@ != lits[k2].0@)
}

/// `add_node` succeeds exactly when the registry declares the operation and
/// the supplied literal inputs fit its signature.
pub open spec fn add_node_valid(reg: OpRegistry, op: Seq<char>, lits: Seq<(String, Value)>) -> bool {
    exists|i: int| sig_pos(reg, op, i) && literals_valid(reg.ops@[i], lits)
}

/// The binding that a freshly added node carries on the slot named `name`:
/// the supplied literal of that name if there is one, otherwise nothing.
pub open spec fn bound_literal(lits: Seq<(String, Value)>, name: Seq<char>) -> Option<InputBinding> {
    if exists|k: int| 0 <= k < lits.len() && (#[trigger] lits[k]).0@ == name {
        let k = choose|k: int| 0 <= k < lits.len() && (#[trigger] lits[k]).0@ == name;
        Some(InputBinding::Literal { value: lits[k].1 })
    } else {
        None
    }
}

/// A freshly added node instantiates the signature: same operation tag,
/// the declared slots in declared order, and each input bound to its
/// supplied literal or left unbound.
pub open spec fn node_from_sig(n: Node, sig: OpSignature, lits: Seq<(String, Value)>) -> bool {
    &&& n.operation@ == sig.operation@
    &&& n.outputs@ == sig.outputs@
    &&& n.inputs@.len() == sig.inputs@.len()
    &&& (forall|j: int| 0 <= j < sig.inputs@.len() ==> {
        let s = #[trigger] n.inputs@[j];
        &&& s.name == sig.inputs@[j].name
        &&& s.ty == sig.inputs@[j].ty
        &&& s.binding == bound_literal(lits, sig.inputs@[j].name@)
    })
}

/// First slot of a list whose name equals `name`, if any.
fn find_slot(slots: &Vec<SlotSig>, name: &String) -> (r: Option<usize>)
    ensures
        match r {
            Some(j) => slot_pos(slots@, name@, j as int),
            None => !has_slot(slots@, name@),
        },
{
    let mut j: usize = 0;
    while j < slots.len()
        invariant
            j <= slots@.len(),
            forall|j2: int| 0 <= j2 < j ==> slots@[j2].name@ != name@,
        decreases slots@.len() - j,
    {
        if slots[j].name == *name {
            return Some(j);
        }
        j += 1;
    }
    None
}

/// First input slot of a node whose name equals `name`, if any.
fn find_input(n: &Node, name: &String) -> (r: Option<usize>)
    ensures
        match r {
            Some(k) => input_pos(*n, name@, k as int),
            None => !has_input_slot(*n, name@),
        },
{
    let mut k: usize = 0;
    while k < n.inputs.len()
        invariant
            k <= n.inputs@.len(),
            forall|k2: int| 0 <= k2 < k ==> n.inputs@[k2].name@ != name@,
        decreases n.inputs@.len() - k,
    {
        if n.inputs[k].name == *name {
            return Some(k);
        }
        k += 1;
    }
    None
}

/// First signature of the registry whose operation tag equals `op`, if any.
fn find_sig(reg: &OpRegistry, op: &String) -> (r: Option<usize>)
    ensures
        match r {
            Some(i) => sig_pos(*reg, op@, i as int),
            None => !has_sig(*reg, op@),
        },
{
    let mut i: usize = 0;
    while i < reg.ops.len()
        invariant
            i <= reg.ops@.len(),
            forall|i2: int| 0 <= i2 < i ==> reg.ops@[i2].operation@ != op@,
        decreases reg.ops@.len() - i,
    {
        if reg.ops[i].operation == *op {
            return Some(i);
        }
        i += 1;
    }
    None
}

/// First supplied literal whose slot name equals `name`, if any.
fn find_literal(lits: &Vec<(String, Value)>, name: &String) -> (r: Option<usize>)
    ensures
        match r {
            Some(k) => 0 <= k < lits@.len() && lits@[k as int].0@ == name@,
            None => forall|k: int| 0 <= k < lits@.len() ==> (#[trigger] lits@[k]).0@ != name@,
        },
{
    let mut k: usize = 0;
    while k < lits.len()
        invariant
            k <= lits@.len(),
            forall|k2: int| 0 <= k2 < k ==> (#[trigger] lits@[k2]).0@ != name@,
        decreases lits@.len() - k,
    {
        if lits[k].0 == *name {
            return Some(k);
        }
        k += 1;
    }
    None
}

/// An exact copy of a slot list.
fn clone_slots(slots: &Vec<SlotSig>) -> (r: Vec<SlotSig>)
    ensures
        r@ == slots@,
{
    let mut r: Vec<SlotSig> = Vec::new();
    let mut j: usize = 0;
    while j < slots.len()
        invariant
            j <= slots@.len(),
            r@.len() == j,
            forall|j2: int| 0 <= j2 < j ==> r@[j2] == slots@[j2],
        decreases slots@.len() - j,
    {
        let s = &slots[j];
        r.push(SlotSig { name: s.name.clone(), ty: s.ty });
        j += 1;
    }
    proof {
        assert(r@ =~= slots@);
    }
    r
}

impl Graph {
    /// An empty graph over the given operation registry.
    ///
    /// The registry must be a mapping: unique operation tags, unique slot
    /// names within each signature.
    pub fn new(registry: OpRegistry) -> (g: Graph)
        requires
            registry.wf(),
        ensures
            g.wf(),
            g.registry == registry,
            g.nodes@.len() == 0,
            g.outputs@.len() == 0,
    {
        Graph { registry, nodes: Vec::new(), outputs: Vec::new() }
    }

    /// Constructs a node of the given operation with the given literal
    /// inputs and returns its id.
    ///
    /// Fails with `InvalidSignature` — leaving the graph unchanged — exactly
    /// when the operation tag is not registered, a supplied slot name is not
    /// declared by the signature, a supplied value's type is not assignable
    /// to its slot's type, or a slot name is supplied twice.
    #[verifier::loop_isolation(false)]
    pub fn add_node(&mut self, operation: &String, literals: &Vec<(String, Value)>) -> (r: Result<
        usize,
        CompileError,
    >)
        requires
            old(self).wf(),
        ensures
            final(self).wf(),
            final(self).registry == old(self).registry,
            match r {
                Ok(id) => {
                    &&& add_node_valid(old(self).registry, operation@, literals@)
                    &&& id == old(self).nodes@.len()
                    &&& final(self).nodes@.len() == old(self).nodes@.len() + 1
                    &&& (forall|i: int|
                        0 <= i < old(self).nodes@.len() ==> final(self).nodes@[i] == old(
                            self,
                        ).nodes@[i])
                    &&& (exists|si: int|
                        sig_pos(old(self).registry, operation@, si) && node_from_sig(
                            final(self).nodes@[id as int],
                            old(self).registry.ops@[si],
                            literals@,
                        ))
                    &&& final(self).outputs == old(self).outputs
                },
                Err(e) => {
                    &&& *final(self) == *old(self)
                    &&& e matches CompileError::InvalidSignature { .. }
                    &&& !add_node_valid(old(self).registry, operation@, literals@)
                },
            },
    {
        let si = match find_sig(&self.registry, operation) {
            Some(si) => si,
            None => {
                return Err(CompileError::InvalidSignature { operation: operation.clone() });
            },
        };
        // No slot name may be supplied twice.
        let mut k: usize = 0;
        while k < literals.len()
            invariant
                k <= literals@.len(),
                forall|k1: int, k2: int|
                    0 <= k1 < k2 < k ==> literals@[k1].0@ != literals@[k2].0@,
            decreases literals@.len() - k,
        {
            let mut k2: usize = 0;
            while k2 < k
                invariant
                    k2 <= k < literals@.len(),
                    forall|k1: int| 0 <= k1 < k2 ==> literals@[k1].0@ != literals@[k as int].0@,
                decreases k - k2,
            {
                if literals[k2].0 == literals[k].0 {
                    proof {
                        assert(literals@[k2 as int].0@ == literals@[k as int].0@);
                        assert forall|i: int|
                            !(sig_pos(self.registry, operation@, i) && literals_valid(
                                self.registry.ops@[i],
                                literals@,
                            )) by {
                            if 0 <= i < self.registry.ops@.len() {
                                assert(!literals_valid(self.registry.ops@[i], literals@));
                            }
                        }
                    }
                    return Err(CompileError::InvalidSignature { operation: operation.clone() });
                }
                k2 += 1;
            }
            k += 1;
        }
        // Each supplied literal must name a declared slot and fit its type.
        let node = {
            let sig = &self.registry.ops[si];
            let mut k: usize = 0;
            while k < literals.len()
                invariant
                    k <= literals@.len(),
                    forall|k1: int|
                        0 <= k1 < k ==> literal_ok(*sig, (#[trigger] literals@[k1]).0@, literals@[k1].1),
                decreases literals@.len() - k,
            {
                match find_slot(&sig.inputs, &literals[k].0) {
                    Some(j) => {
                        if !assignable(literals[k].1.value_type(), sig.inputs[j].ty) {
                            proof {
                                assert forall|j2: int|
                                    slot_pos(sig.inputs@, literals@[k as int].0@, j2) implies !is_assignable(
                                    value_type_of(literals@[k as int].1),
                                    sig.inputs@[j2].ty,
                                ) by {
                                    assert(j2 == j as int);
                                }
                                assert(!literal_ok(
                                    *sig,
                                    literals@[k as int].0@,
                                    literals@[k as int].1,
                                ));
                                assert(!literals_valid(*sig, literals@));
                                lemma_add_node_invalid(*self, operation@, literals@, si as int);
                            }
                            return Err(
                                CompileError::InvalidSignature { operation: operation.clone() },
                            );
                        }
                    },
                    None => {
                        proof {
                            assert(!literal_ok(*sig, literals@[k as int].0@, literals@[k as int].1));
                            assert(!literals_valid(*sig, literals@));
                            lemma_add_node_invalid(*self, operation@, literals@, si as int);
                        }
                        return Err(CompileError::InvalidSignature { operation: operation.clone() });
                    },
                }
                k += 1;
            }
            // Build the node's input slots from the signature, binding the
            // supplied literals to their slots.
            let mut inputs: Vec<InputSlot> = Vec::new();
            let mut j: usize = 0;
            while j < sig.inputs.len()
                invariant
                    j <= sig.inputs@.len(),
                    inputs@.len() == j,
                    forall|j2: int| 0 <= j2 < j ==> {
                        let s = #[trigger] inputs@[j2];
                        &&& s.name == sig.inputs@[j2].name
                        &&& s.ty == sig.inputs@[j2].ty
                        &&& s.binding == bound_literal(literals@, sig.inputs@[j2].name@)
                    },
                decreases sig.inputs@.len() - j,
            {
                let decl = &sig.inputs[j];
                let binding: Option<InputBinding> = match find_literal(literals, &decl.name) {
                    Some(k) => {
                        proof {
                            let nm = decl.name@;
                            let kc = choose|kc: int|
                                0 <= kc < literals@.len() && (#[trigger] literals@[kc]).0@ == nm;
                            assert(literals@[k as int].0@ == nm);
                            assert(kc == k as int);
                        }
                        Some(InputBinding::Literal { value: literals[k].1.duplicate() })
                    },
                    None => None,
                };
                inputs.push(InputSlot { name: decl.name.clone(), ty: decl.ty, binding });
                j += 1;
            }
            Node {
                operation: operation.clone(),
                inputs,
                outputs: clone_slots(&sig.outputs),
            }
        };
        let id = self.nodes.len();
        proof {
            let g0 = *old(self);
            let sig = g0.registry.ops@[si as int];
            assert(node_from_sig(node, sig, literals@));
            assert(literals_valid(sig, literals@));
            assert(add_node_valid(g0.registry, operation@, literals@));
        }
        self.nodes.push(node);
        proof {
            let gf = *self;
            let g0 = *old(self);
            // The new node's bindings are literals that were checked
            // assignable; every old node is unchanged, and no node's output
            // list changed, so every binding stays well formed.
            assert(forall|i: int|
                0 <= i < gf.nodes@.len() ==> (#[trigger] gf.nodes@[i]).outputs@ == (
                if i < g0.nodes@.len() {
                    g0.nodes@[i].outputs@
                } else {
                    gf.nodes@[i].outputs@
                }));
            assert forall|i: int| 0 <= i < gf.nodes@.len() implies gf.node_wf(
                #[trigger] gf.nodes@[i],
            ) by {
                if i < g0.nodes@.len() {
                    assert(g0.node_wf(g0.nodes@[i]));
                    let n = gf.nodes@[i];
                    assert forall|k: int| 0 <= k < n.inputs@.len() implies match (
                    #[trigger] n.inputs@[k]).binding {
                        Some(b) => gf.binding_wf(b, n.inputs@[k].ty),
                        None => true,
                    } by {
                        assert(g0.node_wf(n));
                    }
                } else {
                    let n = gf.nodes@[i];
                    let sig = g0.registry.ops@[si as int];
                    assert(node_from_sig(n, sig, literals@));
                    assert forall|k1: int, k2: int|
                        0 <= k1 < k2 < n.inputs@.len() implies n.inputs@[k1].name@
                        != n.inputs@[k2].name@ by {
                        assert(sig.wf());
                        assert(n.inputs@[k1].name == sig.inputs@[k1].name);
                        assert(n.inputs@[k2].name == sig.inputs@[k2].name);
                    }
                    assert forall|k: int| 0 <= k < n.inputs@.len() implies match (
                    #[trigger] n.inputs@[k]).binding {
                        Some(b) => gf.binding_wf(b, n.inputs@[k].ty),
                        None => true,
                    } by {
                        let nm = sig.inputs@[k].name@;
                        if exists|kk: int|
                            0 <= kk < literals@.len() && (#[trigger] literals@[kk]).0@ == nm {
                            let kk = choose|kk: int|
                                0 <= kk < literals@.len() && (#[trigger] literals@[kk]).0@ == nm;
                            assert(literal_ok(sig, nm, literals@[kk].1));
                            let j2 = choose|j2: int|
                                slot_pos(sig.inputs@, nm, j2) && is_assignable(
                                    value_type_of(literals@[kk].1),
                                    sig.inputs@[j2].ty,
                                );
                            assert(sig.wf());
                            assert(j2 == k);
                        }
                    }
                }
            }
        }
        Ok(id)
    }

    /// Binds the output slot `source_slot` of node `source` to the input
    /// slot `target_slot` of node `target`.
    ///
    /// Fails — leaving the graph unchanged — with `UnknownNode` when either
    /// id is absent, `UnknownSlot` when either slot name is not declared,
    /// `TypeMismatch` when the output's type is not assignable to the
    /// input's, and `SlotAlreadyBound` when the input already has a binding.
    pub fn connect(
        &mut self,
        source: usize,
        source_slot: &String,
        target: usize,
        target_slot: &String,
    ) -> (r: Result<(), CompileError>)
        requires
            old(self).wf(),
        ensures
            final(self).wf(),
            r is Err ==> *final(self) == *old(self),
            (r matches Err(e) && e matches CompileError::UnknownNode { .. }) <==> !(
            (source as int) < old(self).nodes@.len() && (target as int) < old(self).nodes@.len()),
            (r matches Err(e) && e matches CompileError::UnknownSlot { .. }) <==> {
                &&& (source as int) < old(self).nodes@.len()
                &&& (target as int) < old(self).nodes@.len()
                &&& !(has_output_slot(old(self).nodes@[source as int], source_slot@)
                    && has_input_slot(old(self).nodes@[target as int], target_slot@))
            },
            (r matches Err(e) && e matches CompileError::TypeMismatch { .. }) <==> {
                &&& (source as int) < old(self).nodes@.len()
                &&& (target as int) < old(self).nodes@.len()
                &&& exists|j: int, k: int|
                    {
                        &&& slot_pos(old(self).nodes@[source as int].outputs@, source_slot@, j)
                        &&& input_pos(old(self).nodes@[target as int], target_slot@, k)
                        &&& !is_assignable(
                            old(self).nodes@[source as int].outputs@[j].ty,
                            old(self).nodes@[target as int].inputs@[k].ty,
                        )
                    }
            },
            (r matches Err(e) && e matches CompileError::SlotAlreadyBound { .. }) <==> {
                &&& (source as int) < old(self).nodes@.len()
                &&& (target as int) < old(self).nodes@.len()
                &&& exists|j: int, k: int|
                    {
                        &&& slot_pos(old(self).nodes@[source as int].outputs@, source_slot@, j)
                        &&& input_pos(old(self).nodes@[target as int], target_slot@, k)
                        &&& is_assignable(
                            old(self).nodes@[source as int].outputs@[j].ty,
                            old(self).nodes@[target as int].inputs@[k].ty,
                        )
                        &&& old(self).nodes@[target as int].inputs@[k].binding is Some
                    }
            },
            r is Ok <==> {
                &&& (source as int) < old(self).nodes@.len()
                &&& (target as int) < old(self).nodes@.len()
                &&& exists|j: int, k: int|
                    {
                        &&& slot_pos(old(self).nodes@[source as int].outputs@, source_slot@, j)
                        &&& input_pos(old(self).nodes@[target as int], target_slot@, k)
                        &&& is_assignable(
                            old(self).nodes@[source as int].outputs@[j].ty,
                            old(self).nodes@[target as int].inputs@[k].ty,
                        )
                        &&& old(self).nodes@[target as int].inputs@[k].binding is None
                    }
            },
            r is Ok ==> {
                &&& final(self).registry == old(self).registry
                &&& final(self).outputs == old(self).outputs
                &&& final(self).nodes@.len() == old(self).nodes@.len()
                &&& (forall|i: int|
                    0 <= i < old(self).nodes@.len() && i != target ==> final(self).nodes@[i] == old(
                        self,
                    ).nodes@[i])
                &&& exists|j: int, k: int|
                    {
                        &&& slot_pos(old(self).nodes@[source as int].outputs@, source_slot@, j)
                        &&& input_pos(old(self).nodes@[target as int], target_slot@, k)
                        &&& node_with_binding(
                            final(self).nodes@[target as int],
                            old(self).nodes@[target as int],
                            k,
                            Some(InputBinding::Connection { node: source, output: j as usize }),
                        )
                    }
            },
    {
        if source >= self.nodes.len() {
            return Err(CompileError::UnknownNode { node: source });
        }
        if target >= self.nodes.len() {
            return Err(CompileError::UnknownNode { node: target });
        }
        let j = match find_slot(&self.nodes[source].outputs, source_slot) {
            Some(j) => j,
            None => {
                return Err(CompileError::UnknownSlot { node: source, slot: source_slot.clone() });
            },
        };
        let k = match find_input(&self.nodes[target], target_slot) {
            Some(k) => k,
            None => {
                return Err(CompileError::UnknownSlot { node: target, slot: target_slot.clone() });
            },
        };
        let found = self.nodes[source].outputs[j].ty;
        let expected = self.nodes[target].inputs[k].ty;
        if !assignable(found, expected) {
            proof {
                lemma_slot_witness_unique(*old(self), source, source_slot@, target, target_slot@, j as int, k as int);
            }
            return Err(
                CompileError::TypeMismatch {
                    node: target,
                    slot: target_slot.clone(),
                    expected,
                    found,
                },
            );
        }
        if self.nodes[target].inputs[k].binding.is_some() {
            proof {
                lemma_slot_witness_unique(*old(self), source, source_slot@, target, target_slot@, j as int, k as int);
            }
            return Err(CompileError::SlotAlreadyBound { node: target, slot: target_slot.clone() });
        }
        proof {
            lemma_slot_witness_unique(*old(self), source, source_slot@, target, target_slot@, j as int, k as int);
        }
        self.nodes[target].inputs[k].binding = Some(
            InputBinding::Connection { node: source, output: j },
        );
        proof {
            lemma_binding_update_preserves_wf(
                *old(self),
                *self,
                target,
                k as int,
                Some(InputBinding::Connection { node: source, output: j }),
            );
        }
        Ok(())
    }

    /// Binds the literal `value` to the input slot `slot` of node `node`,
    /// overwriting any prior binding on that slot.
    ///
    /// Fails — leaving the graph unchanged — with `UnknownNode` when the id
    /// is absent, `UnknownSlot` when the slot name is not declared, and
    /// `TypeMismatch` when the value's type is not assignable to the slot's.
    pub fn set_literal(&mut self, node: usize, slot: &String, value: Value) -> (r: Result<
        (),
        CompileError,
    >)
        requires
            old(self).wf(),
        ensures
            final(self).wf(),
            r is Err ==> *final(self) == *old(self),
            (r matches Err(e) && e matches CompileError::UnknownNode { .. }) <==> !((node as int)
                < old(self).nodes@.len()),
            (r matches Err(e) && e matches CompileError::UnknownSlot { .. }) <==> {
                &&& (node as int) < old(self).nodes@.len()
                &&& !has_input_slot(old(self).nodes@[node as int], slot@)
            },
            (r matches Err(e) && e matches CompileError::TypeMismatch { .. }) <==> {
                &&& (node as int) < old(self).nodes@.len()
                &&& exists|k: int|
                    input_pos(old(self).nodes@[node as int], slot@, k) && !is_assignable(
                        value_type_of(value),
                        old(self).nodes@[node as int].inputs@[k].ty,
                    )
            },
            r is Ok <==> ((node as int) < old(self).nodes@.len() && exists|k: int|
                input_pos(old(self).nodes@[node as int], slot@, k) && is_assignable(
                    value_type_of(value),
                    old(self).nodes@[node as int].inputs@[k].ty,
                )),
            r is Ok ==> {
                &&& final(self).registry == old(self).registry
                &&& final(self).outputs == old(self).outputs
                &&& final(self).nodes@.len() == old(self).nodes@.len()
                &&& (forall|i: int|
                    0 <= i < old(self).nodes@.len() && i != node ==> final(self).nodes@[i] == old(
                        self,
                    ).nodes@[i])
                &&& exists|k: int|
                    input_pos(old(self).nodes@[node as int], slot@, k) && node_with_binding(
                        final(self).nodes@[node as int],
                        old(self).nodes@[node as int],
                        k,
                        Some(InputBinding::Literal { value }),
                    )
            },
    {
        if node >= self.nodes.len() {
            return Err(CompileError::UnknownNode { node });
        }
        let k = match find_input(&self.nodes[node], slot) {
            Some(k) => k,
            None => {
                return Err(CompileError::UnknownSlot { node, slot: slot.clone() });
            },
        };
        let expected = self.nodes[node].inputs[k].ty;
        if !assignable(value.value_type(), expected) {
            proof {
                lemma_input_witness_unique(*old(self), node, slot@, k as int);
            }
            return Err(
                CompileError::TypeMismatch {
                    node,
                    slot: slot.clone(),
                    expected,
                    found: value.value_type(),
                },
            );
        }
        proof {
            lemma_input_witness_unique(*old(self), node, slot@, k as int);
        }
        let b = Some(InputBinding::Literal { value });
        let ghost bg = b;
        self.nodes[node].inputs[k].binding = b;
        proof {
            lemma_binding_update_preserves_wf(*old(self), *self, node, k as int, bg);
        }
        Ok(())
    }

    /// Marks the output slot `slot` of node `node` as an externally visible
    /// result. Idempotent: marking a slot that is already marked leaves the
    /// graph unchanged.
    ///
    /// Fails — leaving the graph unchanged — with `UnknownNode` when the id
    /// is absent and `UnknownSlot` when the slot name is not declared.
    #[verifier::loop_isolation(false)]
    pub fn mark_output(&mut self, node: usize, slot: &String) -> (r: Result<(), CompileError>)
        requires
            old(self).wf(),
        ensures
            final(self).wf(),
            r is Err ==> *final(self) == *old(self),
            (r matches Err(e) && e matches CompileError::UnknownNode { .. }) <==> !((node as int)
                < old(self).nodes@.len()),
            (r matches Err(e) && e matches CompileError::UnknownSlot { .. }) <==> {
                &&& (node as int) < old(self).nodes@.len()
                &&& !has_output_slot(old(self).nodes@[node as int], slot@)
            },
            r is Ok <==> ((node as int) < old(self).nodes@.len() && has_output_slot(
                old(self).nodes@[node as int],
                slot@,
            )),
            r is Ok ==> {
                &&& final(self).registry == old(self).registry
                &&& final(self).nodes == old(self).nodes
                &&& exists|j: int|
                    {
                        &&& slot_pos(old(self).nodes@[node as int].outputs@, slot@, j)
                        &&& if old(self).outputs@.contains(
                            OutputRef { node, output: j as usize },
                        ) {
                            final(self).outputs == old(self).outputs
                        } else {
                            final(self).outputs@ == old(self).outputs@.push(
                                OutputRef { node, output: j as usize },
                            )
                        }
                    }
            },
    {
        if node >= self.nodes.len() {
            return Err(CompileError::UnknownNode { node });
        }
        let j = match find_slot(&self.nodes[node].outputs, slot) {
            Some(j) => j,
            None => {
                return Err(CompileError::UnknownSlot { node, slot: slot.clone() });
            },
        };
        let oref = OutputRef { node, output: j };
        let mut t: usize = 0;
        while t < self.outputs.len()
            invariant
                t <= self.outputs@.len(),
                forall|t2: int| 0 <= t2 < t ==> self.outputs@[t2] != oref,
            decreases self.outputs@.len() - t,
        {
            if self.outputs[t] == oref {
                proof {
                    assert(self.outputs@[t as int] == oref);
                    assert(self.outputs@.contains(oref));
                }
                return Ok(());
            }
            t += 1;
        }
        proof {
            assert(!self.outputs@.contains(oref));
        }
        self.outputs.push(oref);
        Ok(())
    }
}

/// The target node after a binding update: the same node with input `k`'s
/// binding replaced and everything else unchanged.
pub open spec fn node_with_binding(nf: Node, n0: Node, k: int, b: Option<InputBinding>) -> bool {
    &&& nf.operation == n0.operation
    &&& nf.outputs == n0.outputs
    &&& nf.inputs@.len() == n0.inputs@.len()
    &&& (forall|k2: int| 0 <= k2 < n0.inputs@.len() && k2 != k ==> nf.inputs@[k2] == n0.inputs@[k2])
    &&& nf.inputs@[k].name == n0.inputs@[k].name
    &&& nf.inputs@[k].ty == n0.inputs@[k].ty
    &&& nf.inputs@[k].binding == b
}

/// With unique operation tags, a signature that rejects the supplied
/// literals rules out `add_node_valid` entirely.
proof fn lemma_add_node_invalid(g: Graph, op: Seq<char>, lits: Seq<(String, Value)>, si: int)
    requires
        g.registry.wf(),
        sig_pos(g.registry, op, si),
        !literals_valid(g.registry.ops@[si], lits),
    ensures
        !add_node_valid(g.registry, op, lits),
{
    assert forall|i: int|
        !(sig_pos(g.registry, op, i) && literals_valid(g.registry.ops@[i], lits)) by {
        if sig_pos(g.registry, op, i) && i != si {
            if i < si {
                assert(g.registry.ops@[i].operation@ != g.registry.ops@[si].operation@);
            } else {
                assert(g.registry.ops@[si].operation@ != g.registry.ops@[i].operation@);
            }
        }
    }
}

/// With unique slot names, the found output and input positions are the
/// only ones carrying those names.
proof fn lemma_slot_witness_unique(
    g: Graph,
    source: usize,
    source_slot: Seq<char>,
    target: usize,
    target_slot: Seq<char>,
    j: int,
    k: int,
)
    requires
        g.wf(),
        (source as int) < g.nodes@.len(),
        (target as int) < g.nodes@.len(),
        slot_pos(g.nodes@[source as int].outputs@, source_slot, j),
        input_pos(g.nodes@[target as int], target_slot, k),
    ensures
        forall|j2: int|
            slot_pos(g.nodes@[source as int].outputs@, source_slot, j2) ==> j2 == j,
        forall|k2: int| input_pos(g.nodes@[target as int], target_slot, k2) ==> k2 == k,
{
    assert(g.node_wf(g.nodes@[source as int]));
    assert(g.node_wf(g.nodes@[target as int]));
}

/// With unique slot names, the found input position is the only one
/// carrying that name.
proof fn lemma_input_witness_unique(g: Graph, node: usize, slot: Seq<char>, k: int)
    requires
        g.wf(),
        (node as int) < g.nodes@.len(),
        input_pos(g.nodes@[node as int], slot, k),
    ensures
        forall|k2: int| input_pos(g.nodes@[node as int], slot, k2) ==> k2 == k,
{
    assert(g.node_wf(g.nodes@[node as int]));
}

/// Replacing one binding with a well-formed one preserves whole-graph
/// well-formedness: no node's output list changes, so every other binding
/// stays well formed.
proof fn lemma_binding_update_preserves_wf(
    g0: Graph,
    gf: Graph,
    target: usize,
    k: int,
    b: Option<InputBinding>,
)
    requires
        g0.wf(),
        gf.registry == g0.registry,
        gf.outputs == g0.outputs,
        gf.nodes@.len() == g0.nodes@.len(),
        (target as int) < g0.nodes@.len(),
        0 <= k < g0.nodes@[target as int].inputs@.len(),
        forall|i: int|
            0 <= i < g0.nodes@.len() && i != target ==> gf.nodes@[i] == g0.nodes@[i],
        node_with_binding(gf.nodes@[target as int], g0.nodes@[target as int], k, b),
        match b {
            Some(bb) => gf.binding_wf(bb, g0.nodes@[target as int].inputs@[k].ty),
            None => true,
        },
    ensures
        gf.wf(),
{
    assert(forall|i: int|
        0 <= i < gf.nodes@.len() ==> (#[trigger] gf.nodes@[i]).outputs == g0.nodes@[i].outputs);
    assert forall|i: int| 0 <= i < gf.nodes@.len() implies gf.node_wf(#[trigger] gf.nodes@[i]) by {
        assert(g0.node_wf(g0.nodes@[i]));
        let n = gf.nodes@[i];
        let n0 = g0.nodes@[i];
        assert forall|k1: int, k2: int|
            0 <= k1 < k2 < n.inputs@.len() implies n.inputs@[k1].name@ != n.inputs@[k2].name@ by {
            assert(n.inputs@[k1].name == n0.inputs@[k1].name);
            assert(n.inputs@[k2].name == n0.inputs@[k2].name);
        }
        assert forall|kk: int| 0 <= kk < n.inputs@.len() implies match (
        #[trigger] n.inputs@[kk]).binding {
            Some(bb) => gf.binding_wf(bb, n.inputs@[kk].ty),
            None => true,
        } by {
            if i == target && kk == k {
            } else {
                assert(n.inputs@[kk] == n0.inputs@[kk]);
                match n0.inputs@[kk].binding {
                    Some(bb) => {
                        assert(g0.binding_wf(bb, n0.inputs@[kk].ty));
                        match bb {
                            InputBinding::Connection { node, output } => {
                                assert(gf.nodes@[node as int].outputs == g0.nodes@[
                                    node as int].outputs);
                            },
                            InputBinding::Literal { .. } => {},
                        }
                    },
                    None => {},
                }
            }
        }
    }
}

} // verus!
