//! An in-process sea-of-nodes graph. Nodes live in an arena and are named
//! by their index; a node knows its kind, its mode, the block it belongs
//! to and the nodes it depends on.
use vstd::prelude::*;
use vstd::slice::slice_to_vec;

verus! {

/// The index of a node in its graph.
pub type NodeId = usize;

/// The index of an entity in the entity table of a graph.
pub type EntityId = usize;

/// What sort of value a node produces.
#[derive(Debug, Copy, Clone, PartialEq, Eq, Structural)]
pub enum Mode {
    /// Memory.
    M,
    /// Control flow.
    X,
    /// A tuple of values, taken apart by projections.
    T,
    /// A basic block.
    BB,
    /// A 32-bit signed integer.
    Is,
    /// A byte, which also holds booleans.
    Bu,
    /// A pointer.
    P,
    /// An internal truth value, as comparisons produce it.
    B,
    /// No value that can be used.
    Bad,
}

/// How the two sides of a comparison relate.
#[derive(Debug, Copy, Clone, PartialEq, Eq, Structural)]
pub enum Relation {
    False,
    Equal,
    Less,
    Greater,
    LessEqual,
    GreaterEqual,
    LessGreater,
    True,
}

/// A value known at compile time, as an element of the lattice that
/// constant folding works on.
#[derive(Debug, Copy, Clone, PartialEq, Eq, Structural)]
pub enum Tarval {
    /// Nothing is known yet.
    Unknown,
    /// A 32-bit integer, kept in 64 bits.
    Int(i64),
    /// A truth value.
    Bool(bool),
    /// More than one value is possible.
    Bad,
}

impl Tarval {
    /// The integer `v` as a MiniJava `int` constant.
    pub fn mj_int(v: i64) -> (t: Tarval)
        ensures
            t == Tarval::Int(v),
    {
        Tarval::Int(v)
    }

    /// The value is the truth value `b`.
    pub fn is_bool_val(&self, b: bool) -> (r: bool)
        ensures
            r == (*self == Tarval::Bool(b)),
    {
        match self {
            Tarval::Bool(v) => *v == b,
            _ => false,
        }
    }

    /// The least value above both: equal values join to themselves,
    /// `Unknown` is below everything, and different values join to `Bad`.
    pub fn join(self, other: Tarval) -> (t: Tarval)
        ensures
            t == spec_join(self, other),
    {
        match (self, other) {
            (Tarval::Unknown, o) => o,
            (s, Tarval::Unknown) => s,
            (Tarval::Int(a), Tarval::Int(b)) => if a == b {
                Tarval::Int(a)
            } else {
                Tarval::Bad
            },
            (Tarval::Bool(a), Tarval::Bool(b)) => if a == b {
                Tarval::Bool(a)
            } else {
                Tarval::Bad
            },
            _ => Tarval::Bad,
        }
    }
}

/// The join of two lattice values.
pub open spec fn spec_join(a: Tarval, b: Tarval) -> Tarval {
    if a == Tarval::Unknown {
        b
    } else if b == Tarval::Unknown {
        a
    } else if a == b && a != Tarval::Bad {
        a
    } else {
        Tarval::Bad
    }
}

/// The kinds of node, with what a node of the kind carries besides its
/// operands.
#[derive(Debug, Copy, Clone, PartialEq, Eq, Structural)]
pub enum NodeKind {
    /// The start of the method. Operands: none.
    Start,
    /// The end of the method. Operands: none.
    End,
    /// A basic block. Operands: the control flow that enters it.
    Block,
    /// A constant.
    Const(Tarval),
    /// The address of an entity.
    Address(EntityId),
    /// Operands: left, right.
    Add,
    /// Operands: left, right.
    Sub,
    /// Operands: left, right.
    Mul,
    /// Operands: memory, left, right. The result is a projection.
    Div,
    /// Operands: memory, left, right. The result is a projection.
    Mod,
    /// Operands: left, right.
    And,
    /// Operands: left, right.
    Or,
    /// Operands: left, right.
    Eor,
    /// Operands: the operand.
    Not,
    /// Operands: the operand.
    Minus,
    /// Operands: the operand.
    Conv,
    /// Operands: left, right.
    Cmp(Relation),
    /// Operands: the selector.
    Cond,
    /// Operands: one value for each way into its block, in the order of
    /// the block's operands.
    Phi,
    /// Operands: none.
    Jmp,
    /// Operands: memory, then the results.
    Return,
    /// Operands: memory, the callee, then the arguments.
    Call,
    /// The address of a field. Operands: the object.
    Member(EntityId),
    /// The address of an array element of the given size in bytes.
    /// Operands: the array, the index.
    Sel(u32),
    /// Operands: memory, the address.
    Load,
    /// Operands: memory, the address, the value.
    Store,
    /// One component of its operand, by number.
    Proj(u32),
    /// A value that is not known.
    Unknown,
    /// A node that was removed.
    Bad,
}

/// Which component of Start a projection takes: memory.
pub const PN_START_M: u32 = 0;
/// Which component of Start a projection takes: the arguments.
pub const PN_START_T_ARGS: u32 = 2;
/// Which component of Cond a projection takes: the way taken when false.
pub const PN_COND_FALSE: u32 = 0;
/// Which component of Cond a projection takes: the way taken when true.
pub const PN_COND_TRUE: u32 = 1;
/// Which component of Div or Mod a projection takes: the result.
pub const PN_DIV_RES: u32 = 1;
/// Which component of Call a projection takes: the results.
pub const PN_CALL_T_RESULT: u32 = 1;
/// Which component of Load a projection takes: the result.
pub const PN_LOAD_RES: u32 = 1;

/// What a projection stands for, as its number and the node it projects
/// from decide.
#[derive(Debug, Copy, Clone, PartialEq, Eq, Structural)]
pub enum ProjKind {
    /// The memory that the method starts with.
    StartM,
    /// The tuple of the method's arguments.
    StartTArgs,
    /// Argument number `.0` of the method.
    StartTArgsArg(u32),
    /// The way taken when the condition is false.
    CondFalse,
    /// The way taken when the condition is true.
    CondTrue,
    /// The result of a division.
    DivRes,
    /// The result of a remainder.
    ModRes,
    /// The tuple of a call's results.
    CallTResult,
    /// Result number `.0` of a call.
    CallTResultArg(u32),
    /// The value that a load reads.
    LoadRes,
    /// Any other projection.
    Other,
}

/// Something that has a name in the object file: a class, a field or a
/// method.
#[derive(Debug, Clone)]
pub struct Entity {
    /// The name under which the linker knows it.
    pub ld_name: Vec<u8>,
    pub kind: EntityKind,
}

#[derive(Debug, Copy, Clone, PartialEq, Eq, Structural)]
pub enum EntityKind {
    Class,
    /// A field, with its offset in bytes from the start of the object.
    Field { offset: i32 },
    /// A method, with the number of its parameters and of its results.
    Method { n_params: usize, n_res: usize },
}

/// One node of the graph.
#[derive(Debug, Clone)]
pub struct NodeData {
    pub kind: NodeKind,
    pub mode: Mode,
    /// The block that the node belongs to. A block belongs to itself.
    pub block: NodeId,
    /// The nodes that this one depends on.
    pub ins: Vec<NodeId>,
}

/// The graph of one method.
#[derive(Debug, Clone)]
pub struct Graph {
    pub nodes: Vec<NodeData>,
    pub entities: Vec<Entity>,
    pub start_block: NodeId,
    pub end_block: NodeId,
    /// The nodes that are kept although nothing that reaches the end
    /// block may use them, such as the blocks of a loop that is never
    /// left.
    pub keep_alive: Vec<NodeId>,
}

/// A node of kind `kind` may have `n` operands.
pub open spec fn arity_ok(kind: NodeKind, n: int) -> bool {
    match kind {
        NodeKind::Start | NodeKind::Const(_) | NodeKind::Address(_) | NodeKind::Jmp
        | NodeKind::Unknown | NodeKind::Bad => n == 0,
        NodeKind::End | NodeKind::Block | NodeKind::Phi => true,
        NodeKind::Add | NodeKind::Sub | NodeKind::Mul | NodeKind::And | NodeKind::Or
        | NodeKind::Eor | NodeKind::Cmp(_) | NodeKind::Sel(_) | NodeKind::Load => n == 2,
        NodeKind::Div | NodeKind::Mod | NodeKind::Store => n == 3,
        NodeKind::Not | NodeKind::Minus | NodeKind::Conv | NodeKind::Cond | NodeKind::Member(_)
        | NodeKind::Proj(_) => n == 1,
        NodeKind::Return => n >= 1,
        NodeKind::Call => n >= 2,
    }
}

/// The entity that a node of kind `kind` names lies in a table of `n`
/// entities.
pub open spec fn entity_ok(kind: NodeKind, n: int) -> bool {
    match kind {
        NodeKind::Address(e) | NodeKind::Member(e) => e < n,
        _ => true,
    }
}

impl Graph {
    /// Node `n` alone is well formed: its block is a block, its operands
    /// exist and are as many as its kind asks for, and a phi has one
    /// operand for each way into its block.
    pub open spec fn node_wf(&self, n: int) -> bool {
        let d = self.nodes@[n];
        &&& d.block < self.nodes@.len()
        &&& self.nodes@[d.block as int].kind == NodeKind::Block
        &&& (d.kind == NodeKind::Block ==> d.block == n)
        &&& forall|i: int| 0 <= i < d.ins@.len() ==> #[trigger] d.ins@[i] < self.nodes@.len()
        &&& arity_ok(d.kind, d.ins@.len() as int)
        &&& entity_ok(d.kind, self.entities@.len() as int)
        &&& (d.kind == NodeKind::Phi ==> d.ins@.len() == self.nodes@[d.block as int].ins@.len())
    }

    /// Every node is well formed, and the start and end blocks are blocks.
    pub open spec fn wf(&self) -> bool {
        &&& self.start_block < self.nodes@.len()
        &&& self.end_block < self.nodes@.len()
        &&& self.nodes@[self.start_block as int].kind == NodeKind::Block
        &&& self.nodes@[self.end_block as int].kind == NodeKind::Block
        &&& forall|n: int| 0 <= n < self.nodes@.len() ==> #[trigger] self.node_wf(n)
        &&& forall|i: int|
            0 <= i < self.keep_alive@.len() ==> #[trigger] self.keep_alive@[i] < self.nodes@.len()
    }

    /// The kind of node `n`.
    pub open spec fn spec_kind(&self, n: NodeId) -> NodeKind {
        self.nodes@[n as int].kind
    }

    /// The operands of node `n`.
    pub open spec fn spec_ins(&self, n: NodeId) -> Seq<NodeId> {
        self.nodes@[n as int].ins@
    }

    /// The block of node `n`.
    pub open spec fn spec_block(&self, n: NodeId) -> NodeId {
        self.nodes@[n as int].block
    }

    /// The mode of node `n`.
    pub open spec fn spec_mode(&self, n: NodeId) -> Mode {
        self.nodes@[n as int].mode
    }

    /// Node `m` uses node `n`: as an operand, or, where `n` is a block, as
    /// the block it belongs to.
    pub open spec fn uses(&self, m: NodeId, n: NodeId) -> bool {
        self.spec_ins(m).contains(n) || (m != n && self.spec_block(m) == n)
    }

    /// A graph with an empty start block and an empty end block.
    pub fn new(entities: Vec<Entity>) -> (g: Graph)
        ensures
            g.wf(),
            g.nodes@.len() == 2,
            g.start_block == 0,
            g.end_block == 1,
            g.spec_ins(0).len() == 0,
            g.spec_ins(1).len() == 0,
            g.entities == entities,
            g.keep_alive@.len() == 0,
    {
        let mut nodes: Vec<NodeData> = Vec::new();
        nodes.push(NodeData { kind: NodeKind::Block, mode: Mode::BB, block: 0, ins: Vec::new() });
        nodes.push(NodeData { kind: NodeKind::Block, mode: Mode::BB, block: 1, ins: Vec::new() });
        let g = Graph { nodes, entities, start_block: 0, end_block: 1, keep_alive: Vec::new() };
        assert(g.node_wf(0));
        assert(g.node_wf(1));
        g
    }

    /// The number of nodes.
    pub fn len(&self) -> (n: usize)
        ensures
            n == self.nodes@.len(),
    {
        self.nodes.len()
    }

    pub fn kind(&self, n: NodeId) -> (k: NodeKind)
        requires
            n < self.nodes@.len(),
        ensures
            k == self.spec_kind(n),
    {
        self.nodes[n].kind
    }

    pub fn mode(&self, n: NodeId) -> (m: Mode)
        requires
            n < self.nodes@.len(),
        ensures
            m == self.spec_mode(n),
    {
        self.nodes[n].mode
    }

    /// The block that node `n` belongs to.
    pub fn block_of(&self, n: NodeId) -> (b: NodeId)
        requires
            self.wf(),
            n < self.nodes@.len(),
        ensures
            b == self.spec_block(n),
            b < self.nodes@.len(),
            self.spec_kind(b) == NodeKind::Block,
    {
        assert(self.node_wf(n as int));
        self.nodes[n].block
    }

    /// The operands of node `n`.
    pub fn in_nodes(&self, n: NodeId) -> (ins: &Vec<NodeId>)
        requires
            self.wf(),
            n < self.nodes@.len(),
        ensures
            ins@ == self.spec_ins(n),
            forall|i: int| 0 <= i < ins@.len() ==> #[trigger] ins@[i] < self.nodes@.len(),
            arity_ok(self.spec_kind(n), ins@.len() as int),
    {
        assert(self.node_wf(n as int));
        &self.nodes[n].ins
    }

    /// Operand number `i` of node `n`.
    pub fn in_node(&self, n: NodeId, i: usize) -> (m: NodeId)
        requires
            self.wf(),
            n < self.nodes@.len(),
            i < self.spec_ins(n).len(),
        ensures
            m == self.spec_ins(n)[i as int],
            m < self.nodes@.len(),
    {
        assert(self.node_wf(n as int));
        self.nodes[n].ins[i]
    }

    /// Whether `v` occurs in `s`.
    pub fn contains_id(s: &Vec<NodeId>, v: NodeId) -> (r: bool)
        ensures
            r == s@.contains(v),
    {
        let mut i: usize = 0;
        while i < s.len()
            invariant
                i <= s@.len(),
                forall|k: int| 0 <= k < i ==> s@[k] != v,
            decreases s@.len() - i,
        {
            if s[i] == v {
                return true;
            }
            i += 1;
        }
        false
    }

    /// The nodes that use node `n`, in the order of their indices.
    pub fn out_nodes(&self, n: NodeId) -> (outs: Vec<NodeId>)
        requires
            n < self.nodes@.len(),
        ensures
            forall|i: int| 0 <= i < outs@.len() ==> #[trigger] outs@[i] < self.nodes@.len(),
            forall|m: NodeId|
                outs@.contains(m) <==> m < self.nodes@.len() && #[trigger] self.uses(m, n),
            forall|i: int, j: int| 0 <= i < j < outs@.len() ==> outs@[i] < outs@[j],
    {
        let mut outs: Vec<NodeId> = Vec::new();
        let mut m: usize = 0;
        while m < self.nodes.len()
            invariant
                m <= self.nodes@.len(),
                n < self.nodes@.len(),
                forall|i: int| 0 <= i < outs@.len() ==> #[trigger] outs@[i] < m,
                forall|k: NodeId| outs@.contains(k) <==> k < m && #[trigger] self.uses(k, n),
                forall|i: int, j: int| 0 <= i < j < outs@.len() ==> outs@[i] < outs@[j],
            decreases self.nodes@.len() - m,
        {
            let used = Self::contains_id(&self.nodes[m].ins, n) || (m != n && self.nodes[m].block
                == n);
            if used {
                let ghost before = outs@;
                outs.push(m);
                assert(outs@[before.len() as int] == m);
                assert forall|k: NodeId| outs@.contains(k) <==> k < m + 1 && #[trigger] self.uses(
                    k,
                    n,
                ) by {
                    if outs@.contains(k) {
                        let i = choose|i: int| 0 <= i < outs@.len() && outs@[i] == k;
                        if i < before.len() {
                            assert(before[i] == k);
                            assert(before.contains(k));
                        }
                    }
                    if k < m + 1 && self.uses(k, n) {
                        if k < m {
                            assert(before.contains(k));
                            let i = choose|i: int| 0 <= i < before.len() && before[i] == k;
                            assert(outs@[i] == k);
                        }
                    }
                }
            }
            m += 1;
        }
        outs
    }

    /// Adds a node and returns its index. A block belongs to itself:
    /// `block` is not read for one.
    pub fn add_node(&mut self, kind: NodeKind, mode: Mode, block: NodeId, ins: Vec<NodeId>) -> (id:
        NodeId)
        requires
            old(self).wf(),
            old(self).nodes@.len() < usize::MAX,
            kind != NodeKind::Block ==> block < old(self).nodes@.len() && old(self).spec_kind(block)
                == NodeKind::Block,
            forall|i: int| 0 <= i < ins@.len() ==> #[trigger] ins@[i] < old(self).nodes@.len(),
            arity_ok(kind, ins@.len() as int),
            entity_ok(kind, old(self).entities@.len() as int),
            kind == NodeKind::Phi ==> ins@.len() == old(self).spec_ins(block).len(),
        ensures
            final(self).wf(),
            id == old(self).nodes@.len(),
            final(self).nodes@.len() == id + 1,
            final(self).nodes@.subrange(0, id as int) == old(self).nodes@,
            final(self).spec_kind(id) == kind,
            final(self).spec_mode(id) == mode,
            final(self).spec_ins(id) == ins@,
            final(self).spec_block(id) == (if kind == NodeKind::Block {
                id
            } else {
                block
            }),
            final(self).entities == old(self).entities,
            final(self).start_block == old(self).start_block,
            final(self).end_block == old(self).end_block,
            final(self).keep_alive == old(self).keep_alive,
    {
        let id = self.nodes.len();
        let b = if matches!(kind, NodeKind::Block) {
            id
        } else {
            block
        };
        self.nodes.push(NodeData { kind, mode, block: b, ins });
        assert(self.nodes@.subrange(0, id as int) =~= old(self).nodes@);
        assert forall|n: int| 0 <= n < self.nodes@.len() implies #[trigger] self.node_wf(n) by {
            if n < id {
                assert(old(self).node_wf(n));
                assert(self.nodes@[n] == old(self).nodes@[n]);
            }
        }
        id
    }

    /// Adds one more way into a block. The block must not hold a phi yet,
    /// since a phi has one operand for each way in.
    pub fn add_block_pred(&mut self, block: NodeId, pred: NodeId)
        requires
            old(self).wf(),
            block < old(self).nodes@.len(),
            pred < old(self).nodes@.len(),
            old(self).spec_kind(block) == NodeKind::Block,
            forall|n: NodeId|
                n < old(self).nodes@.len() && #[trigger] old(self).spec_kind(n) == NodeKind::Phi
                    ==> old(self).spec_block(n) != block,
        ensures
            final(self).wf(),
            final(self).nodes@.len() == old(self).nodes@.len(),
            final(self).spec_ins(block) == old(self).spec_ins(block).push(pred),
            forall|n: NodeId|
                n < old(self).nodes@.len() && n != block ==> #[trigger] final(self).nodes@[n as int]
                    == old(self).nodes@[n as int],
            final(self).spec_kind(block) == NodeKind::Block,
            final(self).spec_block(block) == block,
            final(self).spec_mode(block) == old(self).spec_mode(block),
            final(self).entities == old(self).entities,
            final(self).start_block == old(self).start_block,
            final(self).end_block == old(self).end_block,
            final(self).keep_alive == old(self).keep_alive,
    {
        assert(self.node_wf(block as int));
        let len = self.nodes.len();
        let mut ins = slice_to_vec(self.nodes[block].ins.as_slice());
        ins.push(pred);
        let mode = self.nodes[block].mode;
        self.nodes.set(block, NodeData { kind: NodeKind::Block, mode, block, ins });
        assert forall|n: int| 0 <= n < self.nodes@.len() implies #[trigger] self.node_wf(n) by {
            assert(old(self).node_wf(n));
            if n != block {
                assert(self.nodes@[n] == old(self).nodes@[n]);
                let m = n as usize;
                assert(old(self).spec_kind(m) == NodeKind::Phi ==> old(self).spec_block(m) != block);
            }
        }
    }

    /// Gives node `n` the operands `ins` in place of those that it has. A
    /// block keeps the number of its operands, since the phis of the block
    /// have one operand for each.
    pub fn set_in_nodes(&mut self, n: NodeId, ins: Vec<NodeId>)
        requires
            old(self).wf(),
            n < old(self).nodes@.len(),
            forall|i: int| 0 <= i < ins@.len() ==> #[trigger] ins@[i] < old(self).nodes@.len(),
            arity_ok(old(self).spec_kind(n), ins@.len() as int),
            old(self).spec_kind(n) == NodeKind::Block || old(self).spec_kind(n) == NodeKind::Phi
                ==> ins@.len() == old(self).spec_ins(n).len(),
        ensures
            final(self).wf(),
            final(self).nodes@.len() == old(self).nodes@.len(),
            final(self).spec_ins(n) == ins@,
            final(self).spec_kind(n) == old(self).spec_kind(n),
            final(self).spec_block(n) == old(self).spec_block(n),
            final(self).spec_mode(n) == old(self).spec_mode(n),
            forall|m: NodeId|
                m < old(self).nodes@.len() && m != n ==> #[trigger] final(self).nodes@[m as int]
                    == old(self).nodes@[m as int],
            final(self).entities == old(self).entities,
            final(self).start_block == old(self).start_block,
            final(self).end_block == old(self).end_block,
            final(self).keep_alive == old(self).keep_alive,
    {
        assert(self.node_wf(n as int));
        let kind = self.nodes[n].kind;
        let mode = self.nodes[n].mode;
        let block = self.nodes[n].block;
        self.nodes.set(n, NodeData { kind, mode, block, ins });
        assert forall|m: int| 0 <= m < self.nodes@.len() implies #[trigger] self.node_wf(m) by {
            assert(old(self).node_wf(m));
            if m != n {
                assert(self.nodes@[m] == old(self).nodes@[m]);
            }
        }
    }

    /// Makes the address node `n` the address of entity `entity`.
    pub fn set_entity(&mut self, n: NodeId, entity: EntityId)
        requires
            old(self).wf(),
            n < old(self).nodes@.len(),
            old(self).spec_kind(n) is Address,
            entity < old(self).entities@.len(),
        ensures
            final(self).wf(),
            final(self).nodes@.len() == old(self).nodes@.len(),
            final(self).spec_kind(n) == NodeKind::Address(entity),
            final(self).spec_ins(n) == old(self).spec_ins(n),
            final(self).spec_block(n) == old(self).spec_block(n),
            final(self).spec_mode(n) == old(self).spec_mode(n),
            forall|m: NodeId|
                m < old(self).nodes@.len() && m != n ==> #[trigger] final(self).nodes@[m as int]
                    == old(self).nodes@[m as int],
            final(self).entities == old(self).entities,
            final(self).start_block == old(self).start_block,
            final(self).end_block == old(self).end_block,
            final(self).keep_alive == old(self).keep_alive,
    {
        assert(self.node_wf(n as int));
        let ins = slice_to_vec(self.nodes[n].ins.as_slice());
        let mode = self.nodes[n].mode;
        let block = self.nodes[n].block;
        self.nodes.set(n, NodeData { kind: NodeKind::Address(entity), mode, block, ins });
        assert forall|m: int| 0 <= m < self.nodes@.len() implies #[trigger] self.node_wf(m) by {
            assert(old(self).node_wf(m));
            if m != n {
                assert(self.nodes@[m] == old(self).nodes@[m]);
            }
        }
    }

    /// Replaces operand number `i` of node `n` by `value`.
    pub fn set_in_node(&mut self, n: NodeId, i: usize, value: NodeId)
        requires
            old(self).wf(),
            n < old(self).nodes@.len(),
            i < old(self).spec_ins(n).len(),
            value < old(self).nodes@.len(),
        ensures
            final(self).wf(),
            final(self).nodes@.len() == old(self).nodes@.len(),
            final(self).spec_ins(n) == old(self).spec_ins(n).update(i as int, value),
            final(self).spec_kind(n) == old(self).spec_kind(n),
            final(self).spec_block(n) == old(self).spec_block(n),
            final(self).spec_mode(n) == old(self).spec_mode(n),
            forall|m: NodeId|
                m < old(self).nodes@.len() && m != n ==> #[trigger] final(self).nodes@[m as int]
                    == old(self).nodes@[m as int],
            final(self).entities == old(self).entities,
            final(self).start_block == old(self).start_block,
            final(self).end_block == old(self).end_block,
            final(self).keep_alive == old(self).keep_alive,
    {
        assert(self.node_wf(n as int));
        let mut ins = slice_to_vec(self.nodes[n].ins.as_slice());
        ins.set(i, value);
        let kind = self.nodes[n].kind;
        let mode = self.nodes[n].mode;
        let block = self.nodes[n].block;
        self.nodes.set(n, NodeData { kind, mode, block, ins });
        assert forall|m: int| 0 <= m < self.nodes@.len() implies #[trigger] self.node_wf(m) by {
            assert(old(self).node_wf(m));
            if m != n {
                assert(self.nodes@[m] == old(self).nodes@[m]);
            }
        }
    }
}


/// `ins` with every occurrence of `old` replaced by `new`.
pub open spec fn replaced(ins: Seq<NodeId>, old: NodeId, new: NodeId) -> Seq<NodeId> {
    Seq::new(ins.len(), |i: int| if ins[i] == old {
        new
    } else {
        ins[i]
    })
}

/// The entries of `ins` at the positions at which `keep` holds, in order.
pub open spec fn kept(ins: Seq<NodeId>, keep: Seq<bool>) -> Seq<NodeId>
    decreases ins.len(),
{
    if ins.len() == 0 || keep.len() != ins.len() {
        Seq::empty()
    } else if keep.last() {
        kept(ins.drop_last(), keep.drop_last()).push(ins.last())
    } else {
        kept(ins.drop_last(), keep.drop_last())
    }
}

/// How many entries are kept depends on the positions alone.
pub proof fn lemma_kept_len(a: Seq<NodeId>, b: Seq<NodeId>, keep: Seq<bool>)
    requires
        a.len() == keep.len(),
        b.len() == keep.len(),
    ensures
        kept(a, keep).len() == kept(b, keep).len(),
    decreases keep.len(),
{
    if keep.len() > 0 {
        lemma_kept_len(a.drop_last(), b.drop_last(), keep.drop_last());
    }
}

/// What is kept was there before.
pub proof fn lemma_kept_bound(ins: Seq<NodeId>, keep: Seq<bool>, n: nat)
    requires
        forall|i: int| 0 <= i < ins.len() ==> #[trigger] ins[i] < n,
    ensures
        forall|i: int| 0 <= i < kept(ins, keep).len() ==> #[trigger] kept(ins, keep)[i] < n,
    decreases ins.len(),
{
    if ins.len() > 0 && keep.len() == ins.len() {
        lemma_kept_bound(ins.drop_last(), keep.drop_last(), n);
        let rest = kept(ins.drop_last(), keep.drop_last());
        assert forall|i: int| 0 <= i < kept(ins, keep).len() implies #[trigger] kept(ins, keep)[i]
            < n by {
            if i < rest.len() {
                assert(kept(ins, keep)[i] == rest[i]);
            } else {
                assert(kept(ins, keep)[i] == ins.last());
            }
        }
    }
}

impl Graph {
    /// Which of the operands `ins` are not removed nodes.
    pub open spec fn alive_mask(&self, ins: Seq<NodeId>) -> Seq<bool> {
        Seq::new(ins.len(), |i: int| self.spec_kind(ins[i]) != NodeKind::Bad)
    }

    /// Keeps node `n` although nothing may use it.
    pub fn keep_alive(&mut self, n: NodeId)
        requires
            old(self).wf(),
            n < old(self).nodes@.len(),
        ensures
            final(self).wf(),
            final(self).nodes == old(self).nodes,
            final(self).entities == old(self).entities,
            final(self).start_block == old(self).start_block,
            final(self).end_block == old(self).end_block,
            final(self).keep_alive@ == old(self).keep_alive@.push(n),
    {
        self.keep_alive.push(n);
        assert forall|m: int| 0 <= m < self.nodes@.len() implies #[trigger] self.node_wf(m) by {
            assert(old(self).node_wf(m));
        }
    }

    /// Removes node `n`, which is not a block: it becomes a node without
    /// operands that stands for nothing.
    pub fn mark_as_bad(&mut self, n: NodeId)
        requires
            old(self).wf(),
            n < old(self).nodes@.len(),
            old(self).spec_kind(n) != NodeKind::Block,
        ensures
            final(self).wf(),
            final(self).nodes@.len() == old(self).nodes@.len(),
            final(self).spec_kind(n) == NodeKind::Bad,
            final(self).spec_mode(n) == Mode::Bad,
            final(self).spec_ins(n).len() == 0,
            final(self).spec_block(n) == old(self).spec_block(n),
            forall|m: NodeId|
                m < old(self).nodes@.len() && m != n ==> #[trigger] final(self).nodes@[m as int]
                    == old(self).nodes@[m as int],
            final(self).entities == old(self).entities,
            final(self).start_block == old(self).start_block,
            final(self).end_block == old(self).end_block,
            final(self).keep_alive == old(self).keep_alive,
    {
        assert(self.node_wf(n as int));
        let block = self.nodes[n].block;
        self.nodes.set(n, NodeData { kind: NodeKind::Bad, mode: Mode::Bad, block, ins: Vec::new() });
        assert forall|m: int| 0 <= m < self.nodes@.len() implies #[trigger] self.node_wf(m) by {
            assert(old(self).node_wf(m));
            if m != n {
                assert(self.nodes@[m] == old(self).nodes@[m]);
            }
        }
    }

    /// Makes every node that uses `old` as an operand use `new` instead.
    pub fn exchange(&mut self, old_node: NodeId, new_node: NodeId)
        requires
            old(self).wf(),
            old_node < old(self).nodes@.len(),
            new_node < old(self).nodes@.len(),
        ensures
            final(self).wf(),
            final(self).nodes@.len() == old(self).nodes@.len(),
            forall|m: NodeId|
                m < old(self).nodes@.len() ==> {
                    &&& #[trigger] final(self).spec_kind(m) == old(self).spec_kind(m)
                    &&& final(self).spec_mode(m) == old(self).spec_mode(m)
                    &&& final(self).spec_block(m) == old(self).spec_block(m)
                    &&& final(self).spec_ins(m) == replaced(old(self).spec_ins(m), old_node, new_node)
                },
            final(self).entities == old(self).entities,
            final(self).start_block == old(self).start_block,
            final(self).end_block == old(self).end_block,
            final(self).keep_alive == old(self).keep_alive,
    {
        let n = self.nodes.len();
        let mut m: usize = 0;
        while m < n
            invariant
                m <= n,
                n == self.nodes@.len(),
                n == old(self).nodes@.len(),
                old(self).wf(),
                new_node < n,
                self.entities == old(self).entities,
                self.start_block == old(self).start_block,
                self.end_block == old(self).end_block,
                self.keep_alive == old(self).keep_alive,
                forall|x: NodeId|
                    x < n ==> {
                        &&& #[trigger] self.spec_kind(x) == old(self).spec_kind(x)
                        &&& self.spec_mode(x) == old(self).spec_mode(x)
                        &&& self.spec_block(x) == old(self).spec_block(x)
                        &&& self.spec_ins(x) == (if x < m {
                            replaced(old(self).spec_ins(x), old_node, new_node)
                        } else {
                            old(self).spec_ins(x)
                        })
                    },
            decreases n - m,
        {
            let ghost g1 = *self;
            let len = self.nodes[m].ins.len();
            let mut ins: Vec<NodeId> = Vec::new();
            let mut k: usize = 0;
            while k < len
                invariant
                    m < n,
                    n == self.nodes@.len(),
                    len == self.nodes@[m as int].ins@.len(),
                    k <= len,
                    ins@.len() == k,
                    forall|j: int|
                        0 <= j < k ==> #[trigger] ins@[j] == (if self.nodes@[m as int].ins@[j]
                            == old_node {
                            new_node
                        } else {
                            self.nodes@[m as int].ins@[j]
                        }),
                decreases len - k,
            {
                let v = self.nodes[m].ins[k];
                ins.push(if v == old_node {
                    new_node
                } else {
                    v
                });
                k += 1;
            }
            assert(ins@ =~= replaced(self.nodes@[m as int].ins@, old_node, new_node));
            let kind = self.nodes[m].kind;
            let mode = self.nodes[m].mode;
            let block = self.nodes[m].block;
            let ghost before = self.nodes@;
            self.nodes.set(m, NodeData { kind, mode, block, ins });
            assert forall|x: NodeId| x < n implies {
                &&& #[trigger] self.spec_kind(x) == old(self).spec_kind(x)
                &&& self.spec_mode(x) == old(self).spec_mode(x)
                &&& self.spec_block(x) == old(self).spec_block(x)
                &&& self.spec_ins(x) == (if x < m + 1 {
                    replaced(old(self).spec_ins(x), old_node, new_node)
                } else {
                    old(self).spec_ins(x)
                })
            } by {
                assert(g1.spec_kind(x) == old(self).spec_kind(x));
                if x != m {
                    assert(self.nodes@[x as int] == before[x as int]);
                }
            }
            m += 1;
        }
        assert forall|x: int| 0 <= x < self.nodes@.len() implies #[trigger] self.node_wf(x) by {
            assert(old(self).node_wf(x));
            let xu = x as usize;
            assert(self.spec_kind(xu) == old(self).spec_kind(xu));
            let b = old(self).spec_block(xu);
            assert(self.spec_kind(b) == old(self).spec_kind(b));
            assert(self.spec_ins(b).len() == old(self).spec_ins(b).len());
            let d = self.nodes@[x];
            assert(d.ins@ == replaced(old(self).spec_ins(xu), old_node, new_node));
            assert forall|i: int| 0 <= i < d.ins@.len() implies #[trigger] d.ins@[i]
                < self.nodes@.len() by {
                assert(old(self).nodes@[x].ins@[i] < old(self).nodes@.len());
            }
        }
        assert(self.spec_kind(self.start_block) == old(self).spec_kind(self.start_block));
        assert(self.spec_kind(self.end_block) == old(self).spec_kind(self.end_block));
    }
}


impl Graph {
    /// The operands that node `m` has when the removed nodes are taken
    /// out of the graph: a block loses the ways in that are removed
    /// nodes, a phi loses the operands for those ways, and any other node
    /// keeps its operands.
    pub open spec fn cleaned_ins(&self, m: NodeId) -> Seq<NodeId> {
        if self.spec_kind(m) == NodeKind::Block {
            kept(self.spec_ins(m), self.alive_mask(self.spec_ins(m)))
        } else if self.spec_kind(m) == NodeKind::Phi {
            kept(self.spec_ins(m), self.alive_mask(self.spec_ins(self.spec_block(m))))
        } else {
            self.spec_ins(m)
        }
    }

    /// The entries of `ins` at the positions at which `by` holds a node
    /// that is not removed.
    fn filter_alive(&self, ins: &Vec<NodeId>, by: &Vec<NodeId>) -> (r: Vec<NodeId>)
        requires
            ins@.len() == by@.len(),
            forall|i: int| 0 <= i < by@.len() ==> #[trigger] by@[i] < self.nodes@.len(),
        ensures
            r@ == kept(ins@, self.alive_mask(by@)),
    {
        let mut r: Vec<NodeId> = Vec::new();
        let mut i: usize = 0;
        assert(ins@.subrange(0, 0) =~= Seq::<NodeId>::empty());
        while i < ins.len()
            invariant
                i <= ins@.len(),
                ins@.len() == by@.len(),
                forall|k: int| 0 <= k < by@.len() ==> #[trigger] by@[k] < self.nodes@.len(),
                r@ == kept(ins@.subrange(0, i as int), self.alive_mask(by@.subrange(0, i as int))),
            decreases ins@.len() - i,
        {
            proof {
                let a = ins@.subrange(0, i + 1);
                let b = by@.subrange(0, i + 1);
                assert(a.drop_last() =~= ins@.subrange(0, i as int));
                assert(self.alive_mask(b).drop_last() =~= self.alive_mask(by@.subrange(0, i as int)));
                assert(self.alive_mask(b).last() == (self.spec_kind(by@[i as int]) != NodeKind::Bad));
            }
            if !matches!(self.nodes[by[i]].kind, NodeKind::Bad) {
                r.push(ins[i]);
            }
            i += 1;
        }
        assert(ins@.subrange(0, i as int) =~= ins@);
        assert(by@.subrange(0, i as int) =~= by@);
        r
    }

    /// Takes the removed nodes out of the graph: no block is entered from
    /// one any more, and none is kept alive.
    pub fn remove_bads(&mut self)
        requires
            old(self).wf(),
        ensures
            final(self).wf(),
            final(self).nodes@.len() == old(self).nodes@.len(),
            forall|m: NodeId|
                m < old(self).nodes@.len() ==> {
                    &&& #[trigger] final(self).spec_kind(m) == old(self).spec_kind(m)
                    &&& final(self).spec_mode(m) == old(self).spec_mode(m)
                    &&& final(self).spec_block(m) == old(self).spec_block(m)
                    &&& final(self).spec_ins(m) == old(self).cleaned_ins(m)
                },
            final(self).keep_alive@ == kept(
                old(self).keep_alive@,
                old(self).alive_mask(old(self).keep_alive@),
            ),
            final(self).entities == old(self).entities,
            final(self).start_block == old(self).start_block,
            final(self).end_block == old(self).end_block,
    {
        let n = self.nodes.len();
        let mut nodes: Vec<NodeData> = Vec::new();
        let mut m: usize = 0;
        while m < n
            invariant
                m <= n,
                n == self.nodes@.len(),
                self.wf(),
                nodes@.len() == m,
                forall|x: int|
                    0 <= x < m ==> {
                        &&& (#[trigger] nodes@[x]).kind == self.nodes@[x].kind
                        &&& nodes@[x].mode == self.nodes@[x].mode
                        &&& nodes@[x].block == self.nodes@[x].block
                        &&& nodes@[x].ins@ == self.cleaned_ins(x as usize)
                    },
            decreases n - m,
        {
            assert(self.node_wf(m as int));
            let kind = self.nodes[m].kind;
            let mode = self.nodes[m].mode;
            let block = self.nodes[m].block;
            let ins = match kind {
                NodeKind::Block => self.filter_alive(&self.nodes[m].ins, &self.nodes[m].ins),
                NodeKind::Phi => {
                    assert(self.node_wf(block as int));
                    self.filter_alive(&self.nodes[m].ins, &self.nodes[block].ins)
                },
                _ => slice_to_vec(self.nodes[m].ins.as_slice()),
            };
            nodes.push(NodeData { kind, mode, block, ins });
            m += 1;
        }
        let keep_alive = self.filter_alive(&self.keep_alive, &self.keep_alive);
        proof {
            lemma_kept_bound(
                self.keep_alive@,
                self.alive_mask(self.keep_alive@),
                self.nodes@.len(),
            );
        }
        let ghost o = *self;
        self.nodes = nodes;
        self.keep_alive = keep_alive;
        proof {
            assert forall|x: int| 0 <= x < self.nodes@.len() implies #[trigger] self.node_wf(x) by {
                let xu = x as usize;
                assert(o.node_wf(x));
                let b = o.spec_block(xu);
                assert(o.node_wf(b as int));
                assert(self.nodes@[b as int].kind == o.nodes@[b as int].kind);
                let d = self.nodes@[x];
                assert(d.ins@ == o.cleaned_ins(xu));
                if o.spec_kind(xu) == NodeKind::Block {
                    lemma_kept_bound(o.spec_ins(xu), o.alive_mask(o.spec_ins(xu)), o.nodes@.len());
                } else if o.spec_kind(xu) == NodeKind::Phi {
                    lemma_kept_bound(o.spec_ins(xu), o.alive_mask(o.spec_ins(b)), o.nodes@.len());
                    lemma_kept_len(o.spec_ins(xu), o.spec_ins(b), o.alive_mask(o.spec_ins(b)));
                    assert(self.nodes@[b as int].ins@ == o.cleaned_ins(b));
                }
            }
            assert(self.nodes@[self.start_block as int].kind == o.nodes@[o.start_block as int].kind);
            assert(self.nodes@[self.end_block as int].kind == o.nodes@[o.end_block as int].kind);
        }
    }
}

} // verus!
