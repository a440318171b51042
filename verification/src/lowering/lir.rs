//! The low-level intermediate representation: a graph of basic blocks.
//! Each block holds a list of instructions and a set of pseudo-registers,
//! its value slots. Slots are numbered per block, and how a value flows
//! from a slot of one block to a slot of the next is written on the edge
//! between them.
//!
//! Blocks and edges live in two arenas of the graph and are named by
//! their index; a block lists its edges and an edge names its two blocks.
use crate::firm::graph::{Graph, NodeId, NodeKind, Tarval};
use crate::firm::nodes::{Block, Phi, Return};
use vstd::prelude::*;

verus! {

/// The index of a basic block in its graph.
pub type BlockId = usize;

/// The index of a control flow transfer in its graph.
pub type EdgeId = usize;

/// Whether a block holds a return, and whether that returns a value.
#[derive(Debug, Clone, Copy, PartialEq, Eq, Structural)]
pub enum BasicBlockReturns {
    No,
    Void(Return),
    Value(Return),
}

impl BasicBlockReturns {
    /// The return node, if the block holds one.
    pub fn as_option(self) -> (r: Option<Return>)
        ensures
            r == (match self {
                BasicBlockReturns::No => None,
                BasicBlockReturns::Void(n) => Some(n),
                BasicBlockReturns::Value(n) => Some(n),
            }),
    {
        match self {
            BasicBlockReturns::No => None,
            BasicBlockReturns::Void(r) | BasicBlockReturns::Value(r) => Some(r),
        }
    }
}

/// An abstract pseudo-register that holds one value.
#[derive(Debug, Clone, Copy, PartialEq, Eq, Structural)]
pub struct ValueSlot {
    /// The slot number. Unique per block, not globally.
    pub num: usize,
    /// The node whose value the slot holds.
    pub firm: NodeId,
    /// The block in which this slot is allocated.
    pub allocated_in: BlockId,
    /// The block in which the value of this slot originates.
    pub originates_in: BlockId,
    /// The block in which this value is used.
    pub terminates_in: BlockId,
}

/// A pseudo-register of a block. It holds one value, or one of several
/// that a phi selects from.
#[derive(Debug, Clone)]
pub enum MultiSlot {
    Single(ValueSlot),
    Multi { phi: Phi, slots: Vec<ValueSlot> },
}

/// A name for a pseudo-register: its block and its number there.
#[derive(Debug, Clone, Copy, PartialEq, Eq, Structural)]
pub struct SlotRef {
    pub block: BlockId,
    pub num: usize,
}

/// What an instruction reads or writes.
#[derive(Debug, Clone, Copy, PartialEq, Eq, Structural)]
pub enum Operand {
    Slot(SlotRef),
    /// An immediate 32-bit signed value.
    Imm(Tarval),
    /// An address relative to a slot.
    Addr { base: SlotRef, offset: isize },
    /// A parameter of the function. It can only be read.
    Param { idx: u32 },
}

#[derive(Debug, Clone, Copy, PartialEq, Eq, Structural)]
pub enum BinopKind {
    Add,
    Sub,
    /// Only signed integers are multiplied.
    Mul,
    And,
    Or,
}

#[derive(Debug, Clone, Copy, PartialEq, Eq, Structural)]
pub enum UnopKind {
    Neg,
    Not,
}

#[derive(Debug, Clone, Copy, PartialEq, Eq, Structural)]
pub enum DivKind {
    /// Unsigned.
    Div,
    /// Signed.
    IDiv,
}

/// The operations that work on one operand in place.
#[derive(Debug, Clone, Copy, PartialEq, Eq, Structural)]
pub enum BasicKind {
    Not,
    Neg,
}

/// The condition under which a conditional jump takes its first target.
#[derive(Debug, Clone, Copy, PartialEq, Eq, Structural)]
pub enum Cond {
    True,
    Equal,
    NotEqual,
    Less,
    LessEqual,
    Greater,
    GreaterEqual,
}

/// By how much an index is scaled when an address is computed.
#[derive(Debug, Clone, Copy, PartialEq, Eq, Structural)]
pub enum Stride {
    One,
    Two,
    Four,
    Eight,
}

/// What is added to the base of an address besides the offset.
#[derive(Debug, Clone, Copy, PartialEq, Eq, Structural)]
pub enum IndexComputation {
    Zero,
    Displacement(Operand, Stride),
}

/// An address in memory: `offset + base + index`.
#[derive(Debug, Clone, Copy, PartialEq, Eq, Structural)]
pub struct AddressComputation {
    pub offset: isize,
    pub base: Operand,
    pub index: IndexComputation,
}

/// One step of a block's body.
#[derive(Debug, Clone)]
pub enum Instruction {
    Binop { kind: BinopKind, src1: Operand, src2: Operand, dst: SlotRef },
    /// `dst` takes the quotient; the remainder is discarded.
    Div { kind: DivKind, src1: Operand, src2: Operand, dst: SlotRef },
    /// `dst` takes the remainder; the quotient is discarded.
    Mod { kind: DivKind, src1: Operand, src2: Operand, dst: SlotRef },
    Unop { kind: UnopKind, op: Operand },
    /// An operation on one operand in place.
    Basic { kind: BasicKind, op: Option<Operand> },
    Movq { src: Operand, dst: Operand },
    /// If `dst` is `None`, the result is not used.
    Call { func: Vec<u8>, args: Vec<Operand>, dst: Option<SlotRef> },
    LoadMem { src: AddressComputation, dst: SlotRef },
    StoreMem { src: Operand, dst: AddressComputation },
    /// Loads parameter number `idx` into `dst`.
    LoadParam { idx: usize, dst: Option<SlotRef> },
    Comment(Vec<u8>),
}

/// How control leaves a block.
#[derive(Debug, Clone, Copy, PartialEq, Eq, Structural)]
pub enum Leave {
    CondJmp { op: Cond, lhs: Operand, rhs: Operand, true_target: BlockId, false_target: BlockId },
    Jmp { target: BlockId },
    Return {
        value: Option<Operand>,
        /// The end block of the graph that this return leaves.
        end_block: BlockId,
    },
}

/// A copy of a value from a pseudo-register of one block into a value slot
/// of the next, as it has to happen when control moves along an edge.
#[derive(Debug, Clone, Copy, PartialEq, Eq, Structural)]
pub struct CopyPropagation {
    pub src: SlotRef,
    pub dst: ValueSlot,
}

/// The code of a block: the copies on entry, the body, the copies on
/// exit, and how control leaves.
#[derive(Debug, Clone)]
pub struct Code {
    pub copy_in: Vec<CopyPropagation>,
    pub body: Vec<Instruction>,
    pub copy_out: Vec<CopyPropagation>,
    pub leave: Vec<Leave>,
}

impl Default for Code {
    fn default() -> (c: Code)
        ensures
            c.copy_in@.len() == 0,
            c.body@.len() == 0,
            c.copy_out@.len() == 0,
            c.leave@.len() == 0,
    {
        Code { copy_in: Vec::new(), body: Vec::new(), copy_out: Vec::new(), leave: Vec::new() }
    }
}

/// A vertex of the graph of basic blocks.
#[derive(Debug, Clone)]
pub struct BasicBlock {
    /// The pseudo-registers of the block. Register `i` has number `i`.
    pub regs: Vec<MultiSlot>,
    /// The instructions of the block.
    pub code: Code,
    /// The control flow transfers into this block, in the order of the
    /// ways into the block it stands for.
    pub preds: Vec<EdgeId>,
    /// The control flow transfers out of this block.
    pub succs: Vec<EdgeId>,
    /// The block of the sea-of-nodes graph that this block stands for.
    pub firm: Block,
    pub returns: BasicBlockReturns,
}

/// An edge of the graph of basic blocks: control moves from `source` to
/// `target`, and each register transition says which pseudo-register of
/// the source flows into which value slot of the target. The transitions
/// of one edge have no order among them.
#[derive(Debug, Clone)]
pub struct ControlFlowTransfer {
    pub register_transitions: Vec<(SlotRef, ValueSlot)>,
    pub source: BlockId,
    pub target: BlockId,
}

/// The graph of basic blocks of one function.
#[derive(Debug, Clone)]
pub struct BlockGraph {
    pub firm: Graph,
    pub blocks: Vec<BasicBlock>,
    pub edges: Vec<ControlFlowTransfer>,
    pub head: BlockId,
    pub end_block: BlockId,
}

/// A function in the low-level representation.
#[derive(Debug, Clone)]
pub struct Function {
    /// The name under which the linker knows the function.
    pub name: Vec<u8>,
    pub nargs: usize,
    pub returns: bool,
    pub graph: BlockGraph,
}

/// A program in the low-level representation.
#[derive(Debug, Clone)]
pub struct LIR {
    pub functions: Vec<Function>,
}

/// Whether one of `slots` holds the value of node `v`.
pub fn slots_hold(slots: &Vec<ValueSlot>, v: NodeId) -> (r: bool)
    ensures
        r == exists|i: int| 0 <= i < slots@.len() && (#[trigger] slots@[i]).firm == v,
{
    let mut i: usize = 0;
    while i < slots.len()
        invariant
            i <= slots@.len(),
            forall|k: int| 0 <= k < i ==> (#[trigger] slots@[k]).firm != v,
        decreases slots@.len() - i,
    {
        if slots[i].firm == v {
            return true;
        }
        i += 1;
    }
    false
}

impl MultiSlot {
    /// The value slots of the pseudo-register.
    pub open spec fn spec_slots(self) -> Seq<ValueSlot> {
        match self {
            MultiSlot::Single(s) => seq![s],
            MultiSlot::Multi { slots, .. } => slots@,
        }
    }

    /// The pseudo-register holds the value of node `v` of graph `g`. A phi
    /// is held by the pseudo-register that was made for it, any other
    /// node by one that has a value slot for it.
    pub open spec fn holds(self, g: &Graph, v: NodeId) -> bool {
        match self {
            MultiSlot::Single(s) => s.firm == v,
            MultiSlot::Multi { phi, slots } => if g.spec_kind(v) == NodeKind::Phi {
                phi.0 == v
            } else {
                exists|i: int| 0 <= i < slots@.len() && (#[trigger] slots@[i]).firm == v
            },
        }
    }

    /// All value slots have number `num`, are allocated in block `b`, and
    /// name nodes of a graph of `n` nodes and blocks of a graph of `nb`
    /// blocks.
    pub open spec fn wf_at(self, b: BlockId, num: usize, n: nat, nb: nat) -> bool {
        &&& forall|i: int|
            0 <= i < self.spec_slots().len() ==> {
                let s = #[trigger] self.spec_slots()[i];
                &&& s.num == num
                &&& s.allocated_in == b
                &&& s.firm < n
                &&& s.originates_in < nb
                &&& s.terminates_in < nb
            }
        &&& self matches MultiSlot::Multi { phi, .. } ==> phi.0 < n
    }

    /// The number of the pseudo-register in its block.
    pub fn num(&self) -> (n: usize)
        requires
            self.spec_slots().len() > 0,
        ensures
            n == self.spec_slots()[0].num,
    {
        match self {
            MultiSlot::Single(slot) => slot.num,
            MultiSlot::Multi { slots, .. } => slots[0].num,
        }
    }

    /// The block in which the pseudo-register is allocated.
    pub fn allocated_in(&self) -> (b: BlockId)
        requires
            self.spec_slots().len() > 0,
        ensures
            b == self.spec_slots()[0].allocated_in,
    {
        match self {
            MultiSlot::Single(slot) => slot.allocated_in,
            MultiSlot::Multi { slots, .. } => slots[0].allocated_in,
        }
    }

    /// The node that the pseudo-register stands for: the value of a
    /// single slot, or the phi.
    pub fn firm(&self) -> (n: NodeId)
        ensures
            n == (match *self {
                MultiSlot::Single(s) => s.firm,
                MultiSlot::Multi { phi, .. } => phi.0,
            }),
    {
        match self {
            MultiSlot::Single(slot) => slot.firm,
            MultiSlot::Multi { phi, .. } => phi.0,
        }
    }

    /// Whether the pseudo-register holds the value of node `v`.
    pub fn holds_value(&self, g: &Graph, v: NodeId) -> (r: bool)
        requires
            v < g.nodes@.len(),
        ensures
            r == self.holds(g, v),
    {
        match self {
            MultiSlot::Single(slot) => slot.firm == v,
            MultiSlot::Multi { phi, slots } => {
                if matches!(g.kind(v), NodeKind::Phi) {
                    phi.0 == v
                } else {
                    slots_hold(slots, v)
                }
            },
        }
    }
}

/// The blocks stand for blocks of `firm`, in the order of their indices
/// there, and every block of `firm` has one.
pub open spec fn blocks_ok(firm: &Graph, blocks: Seq<BasicBlock>) -> bool {
    &&& forall|b: int|
        0 <= b < blocks.len() ==> (#[trigger] blocks[b]).firm.0 < firm.nodes@.len()
            && firm.spec_kind(blocks[b].firm.0) == NodeKind::Block
    &&& forall|a: int, b: int|
        0 <= a < b < blocks.len() ==> (#[trigger] blocks[a]).firm.0 < (#[trigger] blocks[b]).firm.0
    &&& forall|n: NodeId|
        n < firm.nodes@.len() && #[trigger] firm.spec_kind(n) == NodeKind::Block ==> exists|b: int|
            0 <= b < blocks.len() && (#[trigger] blocks[b]).firm.0 == n
}

/// Blocks and edges agree: an edge that a block lists as incoming has the
/// block as target, one that it lists as outgoing has it as source, and
/// every edge is listed by its source and by its target.
pub open spec fn links_ok(blocks: Seq<BasicBlock>, edges: Seq<ControlFlowTransfer>) -> bool {
    &&& forall|b: int, i: int|
        0 <= b < blocks.len() && 0 <= i < blocks[b].preds@.len() ==> {
            let e = #[trigger] blocks[b].preds@[i];
            e < edges.len() && edges[e as int].target == b
        }
    &&& forall|b: int, i: int|
        0 <= b < blocks.len() && 0 <= i < blocks[b].succs@.len() ==> {
            let e = #[trigger] blocks[b].succs@[i];
            e < edges.len() && edges[e as int].source == b
        }
    &&& forall|e: EdgeId|
        e < edges.len() ==> {
            let t = #[trigger] edges[e as int];
            &&& t.source < blocks.len()
            &&& t.target < blocks.len()
            &&& blocks[t.target as int].preds@.contains(e)
            &&& blocks[t.source as int].succs@.contains(e)
        }
}

/// Way number `k` into block `b` is mirrored: the block's incoming edge
/// number `k` comes from the block that the way comes from.
pub open spec fn way_mirrored(
    firm: &Graph,
    blocks: Seq<BasicBlock>,
    edges: Seq<ControlFlowTransfer>,
    b: int,
    k: int,
) -> bool {
    blocks[edges[blocks[b].preds@[k] as int].source as int].firm.0 == firm.spec_block(
        firm.spec_ins(blocks[b].firm.0)[k],
    )
}

/// The incoming edges of block `b` mirror the ways into the block that it
/// stands for, one for one and in order.
pub open spec fn block_mirrored(
    firm: &Graph,
    blocks: Seq<BasicBlock>,
    edges: Seq<ControlFlowTransfer>,
    b: int,
) -> bool {
    &&& blocks[b].preds@.len() == firm.spec_ins(blocks[b].firm.0).len()
    &&& forall|k: int|
        0 <= k < blocks[b].preds@.len() ==> #[trigger] way_mirrored(firm, blocks, edges, b, k)
}


/// The index of the block that stands for block `firm_block` of the
/// sea-of-nodes graph, if there is one.
pub fn find_block(blocks: &Vec<BasicBlock>, firm_block: NodeId) -> (r: Option<BlockId>)
    ensures
        r matches Some(b) ==> b < blocks@.len() && blocks@[b as int].firm.0 == firm_block,
        r is None ==> forall|b: int| 0 <= b < blocks@.len() ==> (#[trigger] blocks@[b]).firm.0 != firm_block,
{
    let mut b: usize = 0;
    while b < blocks.len()
        invariant
            b <= blocks@.len(),
            forall|k: int| 0 <= k < b ==> (#[trigger] blocks@[k]).firm.0 != firm_block,
        decreases blocks@.len() - b,
    {
        if blocks[b].firm.0 == firm_block {
            return Some(b);
        }
        b += 1;
    }
    None
}

/// Blocks `a` and `b` differ at most in their lists of edges.
pub open spec fn same_but_links(a: BasicBlock, b: BasicBlock) -> bool {
    &&& a.regs == b.regs
    &&& a.code == b.code
    &&& a.firm == b.firm
    &&& a.returns == b.returns
}

/// Adds an edge without register transitions from block `source` to block
/// `target`, and lists it in both.
fn add_edge(
    blocks: &mut Vec<BasicBlock>,
    edges: &mut Vec<ControlFlowTransfer>,
    source: BlockId,
    target: BlockId,
)
    requires
        links_ok(old(blocks)@, old(edges)@),
        source < old(blocks)@.len(),
        target < old(blocks)@.len(),
    ensures
        links_ok(final(blocks)@, final(edges)@),
        final(blocks)@.len() == old(blocks)@.len(),
        final(edges)@.len() == old(edges)@.len() + 1,
        final(edges)@.subrange(0, old(edges)@.len() as int) == old(edges)@,
        final(edges)@[old(edges)@.len() as int].source == source,
        final(edges)@[old(edges)@.len() as int].target == target,
        final(edges)@[old(edges)@.len() as int].register_transitions@.len() == 0,
        forall|b: int|
            0 <= b < old(blocks)@.len() ==> {
                &&& same_but_links(#[trigger] final(blocks)@[b], old(blocks)@[b])
                &&& final(blocks)@[b].preds@ == (if b == target {
                    old(blocks)@[b].preds@.push(old(edges)@.len() as usize)
                } else {
                    old(blocks)@[b].preds@
                })
                &&& final(blocks)@[b].succs@ == (if b == source {
                    old(blocks)@[b].succs@.push(old(edges)@.len() as usize)
                } else {
                    old(blocks)@[b].succs@
                })
            },
{
    let eid = edges.len();
    edges.push(ControlFlowTransfer { register_transitions: Vec::new(), source, target });
    blocks[source].succs.push(eid);
    blocks[target].preds.push(eid);
    assert(edges@.subrange(0, eid as int) =~= old(edges)@);
    assert forall|b: int, i: int| 0 <= b < blocks@.len() && 0 <= i < blocks@[b].preds@.len() implies {
        let e = #[trigger] blocks@[b].preds@[i];
        e < edges@.len() && edges@[e as int].target == b
    } by {
        if i < old(blocks)@[b].preds@.len() {
            let e = old(blocks)@[b].preds@[i];
            assert(e < old(edges)@.len());
            assert(edges@[e as int] == old(edges)@[e as int]);
        }
    }
    assert forall|b: int, i: int| 0 <= b < blocks@.len() && 0 <= i < blocks@[b].succs@.len() implies {
        let e = #[trigger] blocks@[b].succs@[i];
        e < edges@.len() && edges@[e as int].source == b
    } by {
        if i < old(blocks)@[b].succs@.len() {
            let e = old(blocks)@[b].succs@[i];
            assert(e < old(edges)@.len());
            assert(edges@[e as int] == old(edges)@[e as int]);
        }
    }
    assert forall|e: EdgeId| e < edges@.len() implies {
        let t = #[trigger] edges@[e as int];
        &&& t.source < blocks@.len()
        &&& t.target < blocks@.len()
        &&& blocks@[t.target as int].preds@.contains(e)
        &&& blocks@[t.source as int].succs@.contains(e)
    } by {
        let t = edges@[e as int];
        if e < eid {
            assert(t == old(edges)@[e as int]);
            let op = old(blocks)@[t.target as int].preds@;
            let i = choose|i: int| 0 <= i < op.len() && op[i] == e;
            assert(blocks@[t.target as int].preds@[i] == e);
            let os = old(blocks)@[t.source as int].succs@;
            let j = choose|j: int| 0 <= j < os.len() && os[j] == e;
            assert(blocks@[t.source as int].succs@[j] == e);
        } else {
            let np = blocks@[target as int].preds@;
            assert(np[np.len() - 1] == eid);
            let ns = blocks@[source as int].succs@;
            assert(ns[ns.len() - 1] == eid);
        }
    }
}

/// One empty block for each block of `firm`, in the order of their
/// indices there.
fn skeleton_blocks(firm: &Graph) -> (blocks: Vec<BasicBlock>)
    ensures
        skeleton_inv(firm, blocks@, Seq::empty(), 0, 0),
{
    let n = firm.len();
    let mut blocks: Vec<BasicBlock> = Vec::new();
    let mut id: usize = 0;
    while id < n
        invariant
            id <= n,
            n == firm.nodes@.len(),
            forall|b: int|
                0 <= b < blocks@.len() ==> {
                    &&& (#[trigger] blocks@[b]).firm.0 < id
                    &&& firm.spec_kind(blocks@[b].firm.0) == NodeKind::Block
                    &&& blocks@[b].regs@.len() == 0
                    &&& blocks@[b].preds@.len() == 0
                    &&& blocks@[b].succs@.len() == 0
                    &&& blocks@[b].returns == BasicBlockReturns::No
                },
            forall|a: int, b: int|
                0 <= a < b < blocks@.len() ==> (#[trigger] blocks@[a]).firm.0 < (
                #[trigger] blocks@[b]).firm.0,
            forall|m: NodeId|
                m < id && #[trigger] firm.spec_kind(m) == NodeKind::Block ==> exists|b: int|
                    0 <= b < blocks@.len() && (#[trigger] blocks@[b]).firm.0 == m,
        decreases n - id,
    {
        if matches!(firm.kind(id), NodeKind::Block) {
            let ghost before = blocks@;
            blocks.push(
                BasicBlock {
                    regs: Vec::new(),
                    code: Code::default(),
                    preds: Vec::new(),
                    succs: Vec::new(),
                    firm: Block(id),
                    returns: BasicBlockReturns::No,
                },
            );
            assert forall|m: NodeId|
                m < id + 1 && #[trigger] firm.spec_kind(m) == NodeKind::Block implies exists|
                b: int,
            |
                0 <= b < blocks@.len() && (#[trigger] blocks@[b]).firm.0 == m by {
                if m < id {
                    let b = choose|b: int|
                        0 <= b < before.len() && (#[trigger] before[b]).firm.0 == m;
                    assert(blocks@[b].firm.0 == m);
                } else {
                    assert(blocks@[before.len() as int].firm.0 == m);
                }
            }
        }
        id += 1;
    }
    proof {
        reveal(skeleton_inv);
    }
    blocks
}

/// What holds while the edges of the skeleton are made: the blocks before
/// block `t` are mirrored, those behind it have no incoming edge yet, and
/// of block `t` the first `k` ways are mirrored.
#[verifier::opaque]
pub open spec fn skeleton_inv(
    firm: &Graph,
    blocks: Seq<BasicBlock>,
    edges: Seq<ControlFlowTransfer>,
    t: int,
    k: int,
) -> bool {
    &&& blocks_ok(firm, blocks)
    &&& links_ok(blocks, edges)
    &&& forall|b: int|
        0 <= b < blocks.len() ==> (#[trigger] blocks[b]).regs@.len() == 0 && blocks[b].returns
            == BasicBlockReturns::No
    &&& forall|e: int| 0 <= e < edges.len() ==> (#[trigger] edges[e]).register_transitions@.len() == 0
    &&& forall|b: int| 0 <= b < t && b < blocks.len() ==> #[trigger] block_mirrored(firm, blocks, edges, b)
    &&& forall|b: int| t < b < blocks.len() ==> (#[trigger] blocks[b]).preds@.len() == 0
    &&& 0 <= t < blocks.len() ==> {
        &&& blocks[t].preds@.len() == k
        &&& forall|j: int| 0 <= j < k ==> #[trigger] way_mirrored(firm, blocks, edges, t, j)
    }
}

/// A way that was mirrored stays mirrored when an edge is added.
pub proof fn lemma_way_kept(
    firm: &Graph,
    old_blocks: Seq<BasicBlock>,
    old_edges: Seq<ControlFlowTransfer>,
    blocks: Seq<BasicBlock>,
    edges: Seq<ControlFlowTransfer>,
    b: int,
    j: int,
)
    requires
        links_ok(old_blocks, old_edges),
        blocks.len() == old_blocks.len(),
        old_edges.len() <= edges.len(),
        edges.subrange(0, old_edges.len() as int) == old_edges,
        forall|x: int| 0 <= x < old_blocks.len() ==> (#[trigger] blocks[x]).firm == old_blocks[x].firm,
        0 <= b < old_blocks.len(),
        0 <= j < old_blocks[b].preds@.len(),
        j < blocks[b].preds@.len(),
        blocks[b].preds@[j] == old_blocks[b].preds@[j],
        way_mirrored(firm, old_blocks, old_edges, b, j),
    ensures
        way_mirrored(firm, blocks, edges, b, j),
{
    let e = old_blocks[b].preds@[j];
    assert(e < old_edges.len());
    assert(edges.subrange(0, old_edges.len() as int)[e as int] == edges[e as int]);
    assert(old_edges[e as int].source < old_blocks.len());
}

/// Blocks that stand for all blocks of `firm` still do when only their
/// lists of edges change.
pub proof fn lemma_blocks_kept(firm: &Graph, old_blocks: Seq<BasicBlock>, blocks: Seq<BasicBlock>)
    requires
        blocks_ok(firm, old_blocks),
        blocks.len() == old_blocks.len(),
        forall|x: int| 0 <= x < old_blocks.len() ==> (#[trigger] blocks[x]).firm == old_blocks[x].firm,
    ensures
        blocks_ok(firm, blocks),
{
    assert forall|n: NodeId|
        n < firm.nodes@.len() && #[trigger] firm.spec_kind(n) == NodeKind::Block implies exists|
        b: int,
    |
        0 <= b < blocks.len() && (#[trigger] blocks[b]).firm.0 == n by {
        let b = choose|b: int| 0 <= b < old_blocks.len() && (#[trigger] old_blocks[b]).firm.0 == n;
        assert(blocks[b].firm.0 == n);
    }
    assert forall|a: int, b: int| 0 <= a < b < blocks.len() implies (#[trigger] blocks[a]).firm.0 < (
    #[trigger] blocks[b]).firm.0 by {
        assert(old_blocks[a].firm.0 < old_blocks[b].firm.0);
    }
    assert forall|b: int| 0 <= b < blocks.len() implies (#[trigger] blocks[b]).firm.0
        < firm.nodes@.len() && firm.spec_kind(blocks[b].firm.0) == NodeKind::Block by {
        assert(old_blocks[b].firm.0 < firm.nodes@.len());
    }
}

/// A block that was mirrored stays mirrored when an edge is added that
/// does not enter it.
pub proof fn lemma_block_kept(
    firm: &Graph,
    old_blocks: Seq<BasicBlock>,
    old_edges: Seq<ControlFlowTransfer>,
    blocks: Seq<BasicBlock>,
    edges: Seq<ControlFlowTransfer>,
    b: int,
)
    requires
        links_ok(old_blocks, old_edges),
        blocks.len() == old_blocks.len(),
        old_edges.len() <= edges.len(),
        edges.subrange(0, old_edges.len() as int) == old_edges,
        forall|x: int| 0 <= x < old_blocks.len() ==> (#[trigger] blocks[x]).firm == old_blocks[x].firm,
        0 <= b < old_blocks.len(),
        blocks[b].preds@ == old_blocks[b].preds@,
        block_mirrored(firm, old_blocks, old_edges, b),
    ensures
        block_mirrored(firm, blocks, edges, b),
{
    assert forall|j: int| 0 <= j < blocks[b].preds@.len() implies #[trigger] way_mirrored(
        firm,
        blocks,
        edges,
        b,
        j,
    ) by {
        assert(way_mirrored(firm, old_blocks, old_edges, b, j));
        lemma_way_kept(firm, old_blocks, old_edges, blocks, edges, b, j);
    }
}

/// The ways into a block that were mirrored stay so when one more edge
/// into the block is added, and the new edge mirrors the next way.
proof fn lemma_ways_grow(
    firm: &Graph,
    old_blocks: Seq<BasicBlock>,
    old_edges: Seq<ControlFlowTransfer>,
    blocks: Seq<BasicBlock>,
    edges: Seq<ControlFlowTransfer>,
    source: BlockId,
    t: int,
    k: int,
)
    requires
        links_ok(old_blocks, old_edges),
        blocks.len() == old_blocks.len(),
        edges.len() == old_edges.len() + 1,
        edges.subrange(0, old_edges.len() as int) == old_edges,
        edges[old_edges.len() as int].source == source,
        forall|x: int| 0 <= x < old_blocks.len() ==> (#[trigger] blocks[x]).firm == old_blocks[x].firm,
        0 <= t < old_blocks.len(),
        source < old_blocks.len(),
        old_blocks[t].preds@.len() == k,
        blocks[t].preds@ == old_blocks[t].preds@.push(old_edges.len() as usize),
        old_edges.len() <= usize::MAX,
        forall|j: int| 0 <= j < k ==> #[trigger] way_mirrored(firm, old_blocks, old_edges, t, j),
        old_blocks[source as int].firm.0 == firm.spec_block(firm.spec_ins(old_blocks[t].firm.0)[k]),
    ensures
        forall|j: int| 0 <= j < k + 1 ==> #[trigger] way_mirrored(firm, blocks, edges, t, j),
{
    assert forall|j: int| 0 <= j < k + 1 implies #[trigger] way_mirrored(firm, blocks, edges, t, j) by {
        if j < k {
            assert(way_mirrored(firm, old_blocks, old_edges, t, j));
            lemma_way_kept(firm, old_blocks, old_edges, blocks, edges, t, j);
        }
    }
}

proof fn lemma_skeleton_step(
    firm: &Graph,
    old_blocks: Seq<BasicBlock>,
    old_edges: Seq<ControlFlowTransfer>,
    blocks: Seq<BasicBlock>,
    edges: Seq<ControlFlowTransfer>,
    source: BlockId,
    t: BlockId,
    k: int,
)
    requires
        skeleton_inv(firm, old_blocks, old_edges, t as int, k),
        t < old_blocks.len(),
        source < old_blocks.len(),
        old_edges.len() < usize::MAX,
        0 <= k < firm.spec_ins(old_blocks[t as int].firm.0).len(),
        old_blocks[source as int].firm.0 == firm.spec_block(
            firm.spec_ins(old_blocks[t as int].firm.0)[k],
        ),
        links_ok(blocks, edges),
        blocks.len() == old_blocks.len(),
        edges.len() == old_edges.len() + 1,
        edges.subrange(0, old_edges.len() as int) == old_edges,
        edges[old_edges.len() as int].source == source,
        edges[old_edges.len() as int].target == t,
        edges[old_edges.len() as int].register_transitions@.len() == 0,
        forall|b: int|
            0 <= b < old_blocks.len() ==> {
                &&& same_but_links(#[trigger] blocks[b], old_blocks[b])
                &&& blocks[b].preds@ == (if b == t {
                    old_blocks[b].preds@.push(old_edges.len() as usize)
                } else {
                    old_blocks[b].preds@
                })
            },
    ensures
        skeleton_inv(firm, blocks, edges, t as int, k + 1),
{
    lemma_skeleton_parts(firm, old_blocks, old_edges, t as int, k);
    assert forall|b: int| 0 <= b < blocks.len() implies (#[trigger] blocks[b]).firm
        == old_blocks[b].firm && blocks[b].regs == old_blocks[b].regs && blocks[b].returns
        == old_blocks[b].returns && blocks[b].preds@ == (if b == t {
        old_blocks[b].preds@.push(old_edges.len() as usize)
    } else {
        old_blocks[b].preds@
    }) by {
        assert(same_but_links(blocks[b], old_blocks[b]));
    }
    lemma_blocks_kept(firm, old_blocks, blocks);
    assert forall|b: int| 0 <= b < t && b < blocks.len() implies #[trigger] block_mirrored(
        firm,
        blocks,
        edges,
        b,
    ) by {
        lemma_block_kept(firm, old_blocks, old_edges, blocks, edges, b);
    }
    lemma_ways_grow(firm, old_blocks, old_edges, blocks, edges, source, t as int, k);
    assert forall|e: int| 0 <= e < edges.len() implies (#[trigger] edges[e]).register_transitions@.len()
        == 0 by {
        if e < old_edges.len() {
            assert(edges.subrange(0, old_edges.len() as int)[e] == edges[e]);
        }
    }
    lemma_skeleton_assemble(firm, blocks, edges, t as int, k + 1);
}

/// The parts of the invariant of the skeleton together give the
/// invariant.
proof fn lemma_skeleton_assemble(
    firm: &Graph,
    blocks: Seq<BasicBlock>,
    edges: Seq<ControlFlowTransfer>,
    t: int,
    k: int,
)
    requires
        blocks_ok(firm, blocks),
        links_ok(blocks, edges),
        forall|b: int|
            0 <= b < blocks.len() ==> (#[trigger] blocks[b]).regs@.len() == 0 && blocks[b].returns
                == BasicBlockReturns::No,
        forall|e: int| 0 <= e < edges.len() ==> (#[trigger] edges[e]).register_transitions@.len() == 0,
        forall|b: int|
            0 <= b < t && b < blocks.len() ==> #[trigger] block_mirrored(firm, blocks, edges, b),
        forall|b: int| t < b < blocks.len() ==> (#[trigger] blocks[b]).preds@.len() == 0,
        0 <= t < blocks.len() ==> {
            &&& blocks[t].preds@.len() == k
            &&& forall|j: int| 0 <= j < k ==> #[trigger] way_mirrored(firm, blocks, edges, t, j)
        },
    ensures
        skeleton_inv(firm, blocks, edges, t, k),
{
    reveal(skeleton_inv);
}

/// What the invariant of the skeleton says, part by part.
proof fn lemma_skeleton_parts(
    firm: &Graph,
    blocks: Seq<BasicBlock>,
    edges: Seq<ControlFlowTransfer>,
    t: int,
    k: int,
)
    requires
        skeleton_inv(firm, blocks, edges, t, k),
    ensures
        blocks_ok(firm, blocks),
        links_ok(blocks, edges),
        forall|b: int|
            0 <= b < blocks.len() ==> (#[trigger] blocks[b]).regs@.len() == 0 && blocks[b].returns
                == BasicBlockReturns::No,
        forall|e: int| 0 <= e < edges.len() ==> (#[trigger] edges[e]).register_transitions@.len() == 0,
        forall|b: int|
            0 <= b < t && b < blocks.len() ==> #[trigger] block_mirrored(firm, blocks, edges, b),
        forall|b: int| t < b < blocks.len() ==> (#[trigger] blocks[b]).preds@.len() == 0,
        0 <= t < blocks.len() ==> {
            &&& blocks[t].preds@.len() == k
            &&& forall|j: int| 0 <= j < k ==> #[trigger] way_mirrored(firm, blocks, edges, t, j)
        },
{
    reveal(skeleton_inv);
}

proof fn lemma_skeleton_next(
    firm: &Graph,
    blocks: Seq<BasicBlock>,
    edges: Seq<ControlFlowTransfer>,
    t: int,
    k: int,
)
    requires
        skeleton_inv(firm, blocks, edges, t, k),
        0 <= t < blocks.len(),
        k == firm.spec_ins(blocks[t].firm.0).len(),
    ensures
        skeleton_inv(firm, blocks, edges, t + 1, 0),
{
    reveal(skeleton_inv);
    assert(block_mirrored(firm, blocks, edges, t));
}

/// While the skeleton is made, the blocks stand for all blocks of `firm`,
/// and blocks and edges agree.
proof fn lemma_skeleton_blocks(
    firm: &Graph,
    blocks: Seq<BasicBlock>,
    edges: Seq<ControlFlowTransfer>,
    t: int,
    k: int,
)
    requires
        skeleton_inv(firm, blocks, edges, t, k),
    ensures
        blocks_ok(firm, blocks),
        links_ok(blocks, edges),
{
    reveal(skeleton_inv);
}

/// The index of the block that stands for block `firm_block`, where every
/// block of `firm` has one.
fn find_known_block(firm: &Graph, blocks: &Vec<BasicBlock>, firm_block: NodeId) -> (b: BlockId)
    requires
        blocks_ok(firm, blocks@),
        firm_block < firm.nodes@.len(),
        firm.spec_kind(firm_block) == NodeKind::Block,
    ensures
        b < blocks@.len(),
        blocks@[b as int].firm.0 == firm_block,
{
    match find_block(blocks, firm_block) {
        Some(b) => b,
        None => {
            proof {
                let b = choose|b: int|
                    0 <= b < blocks@.len() && (#[trigger] blocks@[b]).firm.0 == firm_block;
                assert(false);
            }
            0
        },
    }
}

impl BlockGraph {
    /// Every value slot of every pseudo-register knows its number and its
    /// block, and names nodes and blocks that exist.
    pub open spec fn regs_ok(&self) -> bool {
        forall|b: BlockId, i: usize|
            b < self.blocks@.len() && i < self.blocks@[b as int].regs@.len() ==> (
            #[trigger] self.blocks@[b as int].regs@[i as int]).wf_at(
                b,
                i,
                self.firm.nodes@.len(),
                self.blocks@.len(),
            )
    }

    /// Register transition number `t` of edge `e` is sound: its source is
    /// a pseudo-register of the edge's source block, its target a value
    /// slot of the pseudo-register with its number in the edge's target
    /// block, and the source holds the value that the target takes.
    pub open spec fn transition_ok(&self, e: int, t: int) -> bool {
        let edge = self.edges@[e];
        let src = edge.register_transitions@[t].0;
        let tgt = edge.register_transitions@[t].1;
        &&& src.block == edge.source
        &&& src.num < self.blocks@[edge.source as int].regs@.len()
        &&& tgt.allocated_in == edge.target
        &&& tgt.num < self.blocks@[edge.target as int].regs@.len()
        &&& tgt.firm < self.firm.nodes@.len()
        &&& tgt.terminates_in < self.blocks@.len()
        &&& self.blocks@[edge.source as int].regs@[src.num as int].holds(&self.firm, tgt.firm)
        &&& self.blocks@[edge.target as int].regs@[tgt.num as int].spec_slots().contains(tgt)
    }

    /// Every register transition of every edge is sound.
    pub open spec fn transitions_ok(&self) -> bool {
        forall|e: int, t: int|
            0 <= e < self.edges@.len() && 0 <= t < self.edges@[e].register_transitions@.len()
                ==> #[trigger] self.transition_ok(e, t)
    }

    /// The invariant of the graph of basic blocks: it mirrors the control
    /// flow of the graph it was made from, blocks and edges agree, and
    /// slots and register transitions are sound.
    pub open spec fn wf(&self) -> bool {
        &&& self.firm.wf()
        &&& blocks_ok(&self.firm, self.blocks@)
        &&& links_ok(self.blocks@, self.edges@)
        &&& forall|b: int|
            0 <= b < self.blocks@.len() ==> #[trigger] block_mirrored(
                &self.firm,
                self.blocks@,
                self.edges@,
                b,
            )
        &&& self.head < self.blocks@.len()
        &&& self.end_block < self.blocks@.len()
        &&& self.blocks@[self.head as int].firm.0 == self.firm.start_block
        &&& self.blocks@[self.end_block as int].firm.0 == self.firm.end_block
        &&& self.regs_ok()
        &&& self.transitions_ok()
    }

    /// The graph of basic blocks that mirrors the blocks of `firm_graph`
    /// and the control flow between them: one block for each of its
    /// blocks, one edge for each way into a block, and no slots, register
    /// transitions or code yet.
    pub fn build_skeleton(firm_graph: Graph) -> (g: BlockGraph)
        requires
            firm_graph.wf(),
        ensures
            g.wf(),
            g.firm == firm_graph,
            forall|b: int|
                0 <= b < g.blocks@.len() ==> (#[trigger] g.blocks@[b]).regs@.len() == 0
                    && g.blocks@[b].returns == BasicBlockReturns::No,
            forall|e: int|
                0 <= e < g.edges@.len() ==> (#[trigger] g.edges@[e]).register_transitions@.len()
                    == 0,
    {
        let mut blocks = skeleton_blocks(&firm_graph);
        let mut edges: Vec<ControlFlowTransfer> = Vec::new();
        let nb = blocks.len();
        let mut t: usize = 0;
        while t < nb
            invariant
                t <= nb,
                nb == blocks@.len(),
                firm_graph.wf(),
                skeleton_inv(&firm_graph, blocks@, edges@, t as int, 0),
            decreases nb - t,
        {
            let firm_target = blocks[t].firm.0;
            proof {
                lemma_skeleton_blocks(&firm_graph, blocks@, edges@, t as int, 0);
            }
            let ways = firm_graph.in_nodes(firm_target);
            let mut k: usize = 0;
            while k < ways.len()
                invariant
                    t < nb,
                    nb == blocks@.len(),
                    k <= ways@.len(),
                    firm_graph.wf(),
                    ways@ == firm_graph.spec_ins(firm_target),
                    forall|i: int|
                        0 <= i < ways@.len() ==> #[trigger] ways@[i] < firm_graph.nodes@.len(),
                    firm_target == blocks@[t as int].firm.0,
                    skeleton_inv(&firm_graph, blocks@, edges@, t as int, k as int),
                decreases ways@.len() - k,
            {
                let firm_source = firm_graph.block_of(ways[k]);
                proof {
                    lemma_skeleton_blocks(&firm_graph, blocks@, edges@, t as int, k as int);
                }
                let source = find_known_block(&firm_graph, &blocks, firm_source);
                let ghost old_blocks = blocks@;
                let ghost old_edges = edges@;
                add_edge(&mut blocks, &mut edges, source, t);
                let ne = edges.len();
                proof {
                    lemma_skeleton_step(
                        &firm_graph,
                        old_blocks,
                        old_edges,
                        blocks@,
                        edges@,
                        source,
                        t,
                        k as int,
                    );
                    assert(same_but_links(blocks@[t as int], old_blocks[t as int]));
                }
                k += 1;
            }
            proof {
                lemma_skeleton_next(&firm_graph, blocks@, edges@, t as int, k as int);
            }
            t += 1;
        }
        proof {
            lemma_skeleton_blocks(&firm_graph, blocks@, edges@, t as int, 0);
        }
        let head = find_known_block(&firm_graph, &blocks, firm_graph.start_block);
        let end_block = find_known_block(&firm_graph, &blocks, firm_graph.end_block);
        let g = BlockGraph { firm: firm_graph, blocks, edges, head, end_block };
        proof {
            lemma_skeleton_done(&g);
        }
        g
    }

    /// The block that stands for block `firm_block` of the sea-of-nodes
    /// graph.
    pub fn get_block(&self, firm_block: Block) -> (b: BlockId)
        requires
            self.wf(),
            firm_block.0 < self.firm.nodes@.len(),
            self.firm.spec_kind(firm_block.0) == NodeKind::Block,
        ensures
            b < self.blocks@.len(),
            self.blocks@[b as int].firm == firm_block,
    {
        find_known_block(&self.firm, &self.blocks, firm_block.0)
    }

    /// The first edge into block `b` that comes from the block that
    /// stands for `cfg_pred`, if there is one.
    pub fn find_incoming_edge_from(&self, b: BlockId, cfg_pred: Block) -> (r: Option<EdgeId>)
        requires
            self.wf(),
            b < self.blocks@.len(),
        ensures
            r matches Some(e) ==> exists|i: int|
                {
                    &&& 0 <= i < self.blocks@[b as int].preds@.len()
                    &&& #[trigger] self.blocks@[b as int].preds@[i] == e
                    &&& self.blocks@[self.edges@[e as int].source as int].firm == cfg_pred
                    &&& forall|j: int|
                        0 <= j < i ==> self.blocks@[self.edges@[#[trigger] self.blocks@[b as int].preds@[j] as int].source as int].firm
                            != cfg_pred
                },
            r is None ==> forall|j: int|
                0 <= j < self.blocks@[b as int].preds@.len()
                    ==> self.blocks@[self.edges@[#[trigger] self.blocks@[b as int].preds@[j] as int].source as int].firm
                    != cfg_pred,
    {
        let preds = &self.blocks[b].preds;
        let mut i: usize = 0;
        while i < preds.len()
            invariant
                self.wf(),
                b < self.blocks@.len(),
                preds@ == self.blocks@[b as int].preds@,
                i <= preds@.len(),
                forall|j: int|
                    0 <= j < i ==> self.blocks@[self.edges@[#[trigger] self.blocks@[b as int].preds@[j] as int].source as int].firm
                        != cfg_pred,
            decreases preds@.len() - i,
        {
            let e = preds[i];
            assert(self.blocks@[b as int].preds@[i as int] == e);
            if self.blocks[self.edges[e].source].firm.0 == cfg_pred.0 {
                return Some(e);
            }
            i += 1;
        }
        None
    }
}


/// A finished skeleton is a well-formed graph of basic blocks without
/// slots and register transitions.
proof fn lemma_skeleton_done(g: &BlockGraph)
    requires
        g.firm.wf(),
        skeleton_inv(&g.firm, g.blocks@, g.edges@, g.blocks@.len() as int, 0),
        g.head < g.blocks@.len(),
        g.end_block < g.blocks@.len(),
        g.blocks@[g.head as int].firm.0 == g.firm.start_block,
        g.blocks@[g.end_block as int].firm.0 == g.firm.end_block,
    ensures
        g.wf(),
        forall|b: int|
            0 <= b < g.blocks@.len() ==> (#[trigger] g.blocks@[b]).regs@.len() == 0
                && g.blocks@[b].returns == BasicBlockReturns::No,
        forall|e: int|
            0 <= e < g.edges@.len() ==> (#[trigger] g.edges@[e]).register_transitions@.len() == 0,
{
    reveal(skeleton_inv);
}


/// Whether a register transition of `edge` ends in a value slot with
/// number `num`.
pub fn edge_targets_num(edge: &ControlFlowTransfer, num: usize) -> (r: bool)
    ensures
        r == exists|t: int|
            0 <= t < edge.register_transitions@.len() && (
            #[trigger] edge.register_transitions@[t]).1.num == num,
{
    let mut t: usize = 0;
    while t < edge.register_transitions.len()
        invariant
            t <= edge.register_transitions@.len(),
            forall|k: int| 0 <= k < t ==> (#[trigger] edge.register_transitions@[k]).1.num != num,
        decreases edge.register_transitions@.len() - t,
    {
        if edge.register_transitions[t].1.num == num {
            return true;
        }
        t += 1;
    }
    false
}

/// Whether a register transition of `edge` starts in the pseudo-register
/// with number `num`.
pub fn edge_sources_num(edge: &ControlFlowTransfer, num: usize) -> (r: bool)
    ensures
        r == exists|t: int|
            0 <= t < edge.register_transitions@.len() && (
            #[trigger] edge.register_transitions@[t]).0.num == num,
{
    let mut t: usize = 0;
    while t < edge.register_transitions.len()
        invariant
            t <= edge.register_transitions@.len(),
            forall|k: int| 0 <= k < t ==> (#[trigger] edge.register_transitions@[k]).0.num != num,
        decreases edge.register_transitions@.len() - t,
    {
        if edge.register_transitions[t].0.num == num {
            return true;
        }
        t += 1;
    }
    false
}

/// The outgoing edges of the blocks `order`, block by block.
pub open spec fn flatten_succs(blocks: Seq<BasicBlock>, order: Seq<BlockId>) -> Seq<EdgeId>
    decreases order.len(),
{
    if order.len() == 0 {
        Seq::empty()
    } else {
        flatten_succs(blocks, order.drop_last()) + blocks[order.last() as int].succs@
    }
}

/// The number of entries of `visited` that are not set.
pub open spec fn count_unset(visited: Seq<bool>) -> nat
    decreases visited.len(),
{
    if visited.len() == 0 {
        0
    } else {
        count_unset(visited.drop_last()) + if visited.last() {
            0nat
        } else {
            1nat
        }
    }
}

proof fn lemma_count_unset_update(visited: Seq<bool>, i: int)
    requires
        0 <= i < visited.len(),
        !visited[i],
    ensures
        count_unset(visited.update(i, true)) + 1 == count_unset(visited),
    decreases visited.len(),
{
    let u = visited.update(i, true);
    if i == visited.len() - 1 {
        assert(u.drop_last() =~= visited.drop_last());
    } else {
        assert(u.drop_last() =~= visited.drop_last().update(i, true));
        lemma_count_unset_update(visited.drop_last(), i);
    }
}

impl BlockGraph {
    /// Register transition `i` of edge `e` has a target slot number that
    /// another edge into the same block flows into as well. The copy then
    /// has to stand in the source block.
    pub open spec fn spec_must_copy_in_source(&self, e: EdgeId, i: int) -> bool {
        let edge = self.edges@[e as int];
        let num = edge.register_transitions@[i].1.num;
        let preds = self.blocks@[edge.target as int].preds@;
        exists|k: int, t: int|
            {
                &&& 0 <= k < preds.len()
                &&& preds[k] != e
                &&& 0 <= t < self.edges@[preds[k] as int].register_transitions@.len()
                &&& (#[trigger] self.edges@[preds[k] as int].register_transitions@[t]).1.num == num
            }
    }

    /// Register transition `i` of edge `e` has a source pseudo-register
    /// that another edge out of the same block flows out of as well. The
    /// copy then has to stand in the target block.
    pub open spec fn spec_must_copy_in_target(&self, e: EdgeId, i: int) -> bool {
        let edge = self.edges@[e as int];
        let num = edge.register_transitions@[i].0.num;
        let succs = self.blocks@[edge.source as int].succs@;
        exists|k: int, t: int|
            {
                &&& 0 <= k < succs.len()
                &&& succs[k] != e
                &&& 0 <= t < self.edges@[succs[k] as int].register_transitions@.len()
                &&& (#[trigger] self.edges@[succs[k] as int].register_transitions@[t]).0.num == num
            }
    }

    /// Do there exist several incoming flows for the target slot of
    /// register transition `flow_idx` of edge `e` in the target block?
    pub fn must_copy_in_source(&self, e: EdgeId, flow_idx: usize) -> (r: bool)
        requires
            self.wf(),
            e < self.edges@.len(),
            flow_idx < self.edges@[e as int].register_transitions@.len(),
        ensures
            r == self.spec_must_copy_in_source(e, flow_idx as int),
    {
        let num = self.edges[e].register_transitions[flow_idx].1.num;
        let target = self.edges[e].target;
        let preds = &self.blocks[target].preds;
        let mut k: usize = 0;
        while k < preds.len()
            invariant
                links_ok(self.blocks@, self.edges@),
                target < self.blocks@.len(),
                e < self.edges@.len(),
                flow_idx < self.edges@[e as int].register_transitions@.len(),
                num == self.edges@[e as int].register_transitions@[flow_idx as int].1.num,
                target == self.edges@[e as int].target,
                preds@ == self.blocks@[target as int].preds@,
                k <= preds@.len(),
                forall|j: int, t: int|
                    0 <= j < k && preds@[j] != e && 0 <= t
                        < self.edges@[preds@[j] as int].register_transitions@.len() ==> (
                    #[trigger] self.edges@[preds@[j] as int].register_transitions@[t]).1.num != num,
            decreases preds@.len() - k,
        {
            let other = preds[k];
            assert(self.blocks@[target as int].preds@[k as int] == other);
            if other != e && edge_targets_num(&self.edges[other], num) {
                proof {
                    let t = choose|t: int|
                        0 <= t < self.edges@[other as int].register_transitions@.len() && (
                        #[trigger] self.edges@[other as int].register_transitions@[t]).1.num == num;
                    let ps = self.blocks@[self.edges@[e as int].target as int].preds@;
                    assert(ps[k as int] != e && self.edges@[ps[k as int] as int].register_transitions@[t].1.num
                        == num);
                }
                return true;
            }
            k += 1;
        }
        false
    }

    /// Do there exist several outgoing flows for the source slot of
    /// register transition `flow_idx` of edge `e` in the source block?
    pub fn must_copy_in_target(&self, e: EdgeId, flow_idx: usize) -> (r: bool)
        requires
            self.wf(),
            e < self.edges@.len(),
            flow_idx < self.edges@[e as int].register_transitions@.len(),
        ensures
            r == self.spec_must_copy_in_target(e, flow_idx as int),
    {
        let num = self.edges[e].register_transitions[flow_idx].0.num;
        let source = self.edges[e].source;
        let succs = &self.blocks[source].succs;
        let mut k: usize = 0;
        while k < succs.len()
            invariant
                links_ok(self.blocks@, self.edges@),
                source < self.blocks@.len(),
                e < self.edges@.len(),
                flow_idx < self.edges@[e as int].register_transitions@.len(),
                num == self.edges@[e as int].register_transitions@[flow_idx as int].0.num,
                source == self.edges@[e as int].source,
                succs@ == self.blocks@[source as int].succs@,
                k <= succs@.len(),
                forall|j: int, t: int|
                    0 <= j < k && succs@[j] != e && 0 <= t
                        < self.edges@[succs@[j] as int].register_transitions@.len() ==> (
                    #[trigger] self.edges@[succs@[j] as int].register_transitions@[t]).0.num != num,
            decreases succs@.len() - k,
        {
            let other = succs[k];
            assert(self.blocks@[source as int].succs@[k as int] == other);
            if other != e && edge_sources_num(&self.edges[other], num) {
                proof {
                    let t = choose|t: int|
                        0 <= t < self.edges@[other as int].register_transitions@.len() && (
                        #[trigger] self.edges@[other as int].register_transitions@[t]).0.num == num;
                    let ss = self.blocks@[self.edges@[e as int].source as int].succs@;
                    assert(ss[k as int] != e && self.edges@[ss[k as int] as int].register_transitions@[t].0.num
                        == num);
                }
                return true;
            }
            k += 1;
        }
        false
    }

    /// The set `s` of blocks is closed under following edges forward.
    pub open spec fn closed_forward(&self, s: Set<BlockId>) -> bool {
        forall|e: EdgeId|
            e < self.edges@.len() && s.contains((#[trigger] self.edges@[e as int]).source)
                ==> s.contains(self.edges@[e as int].target)
    }

    /// Block `b` can be reached from the head along edges: it lies in
    /// every set of blocks that holds the head and is closed under
    /// following edges forward.
    pub open spec fn reachable(&self, b: BlockId) -> bool {
        forall|s: Set<BlockId>| s.contains(self.head) && #[trigger] self.closed_forward(s) ==> s.contains(b)
    }

    /// `order` lists the blocks that can be reached from the head, each
    /// once and the head first.
    pub open spec fn is_block_order(&self, order: Seq<BlockId>) -> bool {
        &&& order.len() > 0
        &&& order[0] == self.head
        &&& forall|i: int| 0 <= i < order.len() ==> #[trigger] order[i] < self.blocks@.len()
        &&& forall|i: int, j: int| 0 <= i < j < order.len() ==> order[i] != order[j]
        &&& forall|b: BlockId| order.contains(b) <==> b < self.blocks@.len() && self.reachable(b)
    }

    /// What going through the ways out of block `b` from way number `m` on
    /// makes of the marks `visited` and the list `order`: each block that
    /// a way leads to and that is not marked is marked and listed.
    pub open spec fn spec_targets(
        &self,
        visited: Seq<bool>,
        order: Seq<BlockId>,
        b: BlockId,
        m: nat,
    ) -> (Seq<bool>, Seq<BlockId>)
        decreases self.blocks@[b as int].succs@.len() - m,
    {
        let succs = self.blocks@[b as int].succs@;
        if m >= succs.len() {
            (visited, order)
        } else {
            let t = self.edges@[succs[m as int] as int].target;
            if t < visited.len() && !visited[t as int] {
                self.spec_targets(visited.update(t as int, true), order.push(t), b, m + 1)
            } else {
                self.spec_targets(visited, order, b, m + 1)
            }
        }
    }

    /// The list of blocks that the breadth-first walk gives when the
    /// blocks of `order` from number `i` on are still to be gone through.
    pub open spec fn spec_breadth_first(
        &self,
        visited: Seq<bool>,
        order: Seq<BlockId>,
        i: nat,
    ) -> Seq<BlockId>
        decreases 2 * count_unset(visited) + (order.len() - i),
    {
        if i >= order.len() {
            order
        } else {
            let r = self.spec_targets(visited, order, order[i as int], 0);
            if 2 * count_unset(r.0) + r.1.len() <= 2 * count_unset(visited) + order.len() && i
                < r.1.len() {
                self.spec_breadth_first(r.0, r.1, i + 1)
            } else {
                r.1
            }
        }
    }

    /// The blocks that can be reached from the head, in breadth-first
    /// order: the head, then the blocks that its ways out lead to, in the
    /// order of the ways, then those of the next block of the list, and
    /// so on; each block where it is met first.
    pub open spec fn spec_iter_blocks(&self) -> Seq<BlockId> {
        self.spec_breadth_first(
            Seq::new(self.blocks@.len(), |k: int| false).update(self.head as int, true),
            seq![self.head],
            0,
        )
    }

    /// All basic blocks that can be reached from the head, each once, in
    /// breadth-first order in the direction of control flow.
    pub fn iter_blocks(&self) -> (order: Vec<BlockId>)
        requires
            self.wf(),
        ensures
            self.is_block_order(order@),
            order@ == self.spec_iter_blocks(),
    {
        let nb = self.blocks.len();
        let mut visited: Vec<bool> = Vec::new();
        let mut c: usize = 0;
        while c < nb
            invariant
                c <= nb,
                visited@.len() == c,
                forall|k: int| 0 <= k < c ==> !visited@[k],
            decreases nb - c,
        {
            visited.push(false);
            c += 1;
        }
        let mut order: Vec<BlockId> = Vec::new();
        assert(visited@ =~= Seq::new(self.blocks@.len(), |k: int| false));
        visited.set(self.head, true);
        order.push(self.head);
        let mut i: usize = 0;
        assert(order@[0] == self.head);
        assert(order@ =~= seq![self.head]);
        while i < order.len()
            invariant
                self.spec_breadth_first(visited@, order@, i as nat) == self.spec_iter_blocks(),
                links_ok(self.blocks@, self.edges@),
                self.head < nb,
                nb == self.blocks@.len(),
                visited@.len() == nb,
                i <= order@.len(),
                order@.len() > 0,
                order@[0] == self.head,
                forall|j: int| 0 <= j < order@.len() ==> #[trigger] order@[j] < nb,
                forall|a: int, b: int| 0 <= a < b < order@.len() ==> order@[a] != order@[b],
                forall|b: int| 0 <= b < nb ==> (#[trigger] visited@[b] <==> order@.contains(b as usize)),
                forall|j: int| 0 <= j < order@.len() ==> self.reachable(#[trigger] order@[j]),
                forall|j: int, m: int|
                    0 <= j < i && 0 <= m < self.blocks@[order@[j] as int].succs@.len()
                        ==> visited@[self.edges@[#[trigger] self.blocks@[order@[j] as int].succs@[m] as int].target as int],
            decreases 2 * count_unset(visited@) + (order@.len() - i),
        {
            let b = order[i];
            let succs = &self.blocks[b].succs;
            let mut m: usize = 0;
            let ghost measure = 2 * count_unset(visited@) + (order@.len() - i);
            let ghost v_before = visited@;
            let ghost o_before = order@;
            while m < succs.len()
                invariant
                    self.spec_targets(visited@, order@, b, m as nat) == self.spec_targets(
                        v_before,
                        o_before,
                        b,
                        0,
                    ),
                    links_ok(self.blocks@, self.edges@),
                    self.head < nb,
                    nb == self.blocks@.len(),
                    visited@.len() == nb,
                    i < order@.len(),
                    b == order@[i as int],
                    b < nb,
                    succs@ == self.blocks@[b as int].succs@,
                    m <= succs@.len(),
                    order@[0] == self.head,
                    forall|j: int| 0 <= j < order@.len() ==> #[trigger] order@[j] < nb,
                    forall|a: int, b: int| 0 <= a < b < order@.len() ==> order@[a] != order@[b],
                    forall|b: int|
                        0 <= b < nb ==> (#[trigger] visited@[b] <==> order@.contains(b as usize)),
                    forall|j: int| 0 <= j < order@.len() ==> self.reachable(#[trigger] order@[j]),
                    forall|j: int, m: int|
                        0 <= j < i && 0 <= m < self.blocks@[order@[j] as int].succs@.len()
                            ==> visited@[self.edges@[#[trigger] self.blocks@[order@[j] as int].succs@[m] as int].target as int],
                    forall|k: int|
                        0 <= k < m ==> visited@[self.edges@[#[trigger] succs@[k] as int].target as int],
                    2 * count_unset(visited@) + (order@.len() - i) <= measure,
                decreases succs@.len() - m,
            {
                let e = succs[m];
                assert(self.blocks@[b as int].succs@[m as int] == e);
                let t = self.edges[e].target;
                if !visited[t] {
                    let ghost before = order@;
                    let ghost vbefore = visited@;
                    proof {
                        lemma_count_unset_update(visited@, t as int);
                        assert(self.reachable(t)) by {
                            assert forall|s: Set<BlockId>|
                                s.contains(self.head) && #[trigger] self.closed_forward(
                                    s,
                                ) implies s.contains(t) by {
                                assert(self.reachable(b));
                                assert(s.contains(b));
                                assert(self.edges@[e as int].source == b);
                            }
                        }
                    }
                    visited.set(t, true);
                    order.push(t);
                    proof {
                        assert(order@[before.len() as int] == t);
                        assert forall|x: int| 0 <= x < nb implies (#[trigger] visited@[x]
                            <==> order@.contains(x as usize)) by {
                            if x == t {
                                assert(order@.contains(t));
                            } else {
                                if vbefore[x] {
                                    assert(before.contains(x as usize));
                                    let w = choose|w: int| 0 <= w < before.len() && before[w] == x as usize;
                                    assert(order@[w] == x as usize);
                                }
                                if order@.contains(x as usize) {
                                    let w = choose|w: int| 0 <= w < order@.len() && order@[w] == x as usize;
                                    assert(w < before.len());
                                    assert(before[w] == x as usize);
                                    assert(before.contains(x as usize));
                                }
                            }
                        }
                        assert forall|p: int, q: int| 0 <= p < q < order@.len() implies order@[p]
                            != order@[q] by {
                            if q == before.len() {
                                if order@[p] == t {
                                    assert(before[p] == t);
                                    assert(before.contains(t));
                                }
                            } else {
                                assert(before[p] != before[q]);
                            }
                        }
                        assert forall|j: int| 0 <= j < order@.len() implies self.reachable(
                            #[trigger] order@[j],
                        ) by {
                            if j < before.len() {
                                assert(order@[j] == before[j]);
                            }
                        }
                    }
                }
                m += 1;
            }
            proof {
                assert(self.spec_targets(v_before, o_before, b, 0) == (visited@, order@));
                assert(self.spec_breadth_first(v_before, o_before, i as nat)
                    == self.spec_breadth_first(visited@, order@, (i + 1) as nat));
            }
            i += 1;
        }
        proof {
            let s = Set::new(|b: BlockId| order@.contains(b));
            assert(self.closed_forward(s)) by {
                assert forall|e: EdgeId|
                    e < self.edges@.len() && s.contains(
                        (#[trigger] self.edges@[e as int]).source,
                    ) implies s.contains(self.edges@[e as int].target) by {
                    let src = self.edges@[e as int].source;
                    let j = choose|j: int| 0 <= j < order@.len() && order@[j] == src;
                    let sl = self.blocks@[src as int].succs@;
                    assert(sl.contains(e));
                    let m = choose|m: int| 0 <= m < sl.len() && sl[m] == e;
                    assert(visited@[self.edges@[self.blocks@[order@[j] as int].succs@[m] as int].target as int]);
                }
            }
            assert(s.contains(self.head));
            assert forall|b: BlockId| order@.contains(b) <==> b < self.blocks@.len()
                && self.reachable(b) by {
                if order@.contains(b) {
                    let j = choose|j: int| 0 <= j < order@.len() && order@[j] == b;
                    assert(self.reachable(order@[j]));
                }
                if b < self.blocks@.len() && self.reachable(b) {
                    assert(s.contains(b));
                }
            }
        }
        order
    }

    /// All control flow transfers that leave a block which can be reached
    /// from the head: the outgoing edges of each such block, in the
    /// block's order, block by block in the order of `iter_blocks`.
    pub fn iter_control_flows(&self) -> (flows: Vec<EdgeId>)
        requires
            self.wf(),
        ensures
            flows@ == flatten_succs(self.blocks@, self.spec_iter_blocks()),
    {
        let order = self.iter_blocks();
        let mut flows: Vec<EdgeId> = Vec::new();
        let mut i: usize = 0;
        assert(order@.subrange(0, 0) =~= Seq::<BlockId>::empty());
        while i < order.len()
            invariant
                i <= order@.len(),
                forall|j: int| 0 <= j < order@.len() ==> #[trigger] order@[j] < self.blocks@.len(),
                flows@ == flatten_succs(self.blocks@, order@.subrange(0, i as int)),
            decreases order@.len() - i,
        {
            let b = order[i];
            let succs = &self.blocks[b].succs;
            let ghost before = flows@;
            let mut m: usize = 0;
            while m < succs.len()
                invariant
                    i < order@.len(),
                    b == order@[i as int],
                    b < self.blocks@.len(),
                    succs@ == self.blocks@[b as int].succs@,
                    m <= succs@.len(),
                    flows@ == before + succs@.subrange(0, m as int),
                decreases succs@.len() - m,
            {
                flows.push(succs[m]);
                assert(flows@ =~= before + succs@.subrange(0, m + 1));
                m += 1;
            }
            proof {
                assert(succs@.subrange(0, m as int) =~= succs@);
                assert(order@.subrange(0, i + 1).drop_last() =~= order@.subrange(0, i as int));
            }
            i += 1;
        }
        proof {
            assert(order@.subrange(0, i as int) =~= order@);
        }
        flows
    }
}

} // verus!
