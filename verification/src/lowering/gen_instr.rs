//! Instruction selection for one basic block: the nodes of the block are
//! visited operands first, and each is turned into the instruction that
//! computes it. What a node is turned into is decided from the graph and
//! from what was computed before it; the decision is then carried out.
use super::lir::{
    AddressComputation, BasicBlock, BinopKind, BlockGraph, BlockId, Code, Cond, DivKind,
    IndexComputation, Instruction, Leave, Operand, SlotRef, Stride, UnopKind,
};
use crate::firm::graph::{EntityId, EntityKind, Graph, NodeId, NodeKind, ProjKind, Relation};
use crate::firm::nodes::{
    is_sole_user, lemma_out_proj_is_spec, lemma_target_is_spec, out_proj, sole_user,
    spec_branch_target, spec_out_proj, spec_proj_kind, spec_target, target_block, Proj,
    cond_pn,
};
use crate::firm::graph::{PN_COND_FALSE, PN_COND_TRUE};
use super::slots::{block_extends, lemma_extends_is_refl};
use vstd::prelude::*;

verus! {

/// What is known of a node that was visited: it produced no value, or its
/// value stands in a pseudo-register.
#[derive(Debug, Clone, Copy, PartialEq, Eq, Structural)]
pub enum Computed {
    Void,
    Value(SlotRef),
}

/// Why a graph cannot be turned into instructions. Each of these is a
/// fault in the graph, not in the program that was compiled.
#[derive(Debug, Clone, Copy, PartialEq, Eq, Structural)]
pub enum LoweringError {
    /// A value would have to be copied both in the source and in the
    /// target of an edge.
    LostCopy,
    /// The value of the node is needed before it was computed.
    NotComputed(NodeId),
    /// The value of the node is needed, but the node produces none.
    NotAValue(NodeId),
    /// The node does not belong to the block that is to compute it.
    ForeignValue(NodeId),
    /// The return has more than one result.
    MultipleReturnValues(NodeId),
    /// The jump does not lead to a block.
    NoJumpTarget(NodeId),
    /// The comparison is not used by one conditional branch alone.
    CmpWithoutCond(NodeId),
    /// The conditional branch is not decided by a comparison.
    CondWithoutCmp(NodeId),
    /// The comparison has a relation that no conditional jump tests.
    UnsupportedRelation(NodeId),
    /// A way of the conditional branch does not lead to a block.
    NoBranchTarget(NodeId),
    /// The callee of the call is not the address of an entity.
    CallTargetNotAddress(NodeId),
    /// The callee of the call is not a method.
    CallTargetNotMethod(NodeId),
    /// The callee of the call has more than one result.
    TooManyResults(NodeId),
    /// The address is neither that of a field nor that of an array
    /// element.
    UnexpectedAddressNode(NodeId),
    /// The elements of the array have a size that no stride stands for.
    UnexpectedElementSize(NodeId),
}

impl Computed {
    /// The pseudo-register of the value. `node` is the node that the
    /// value is asked of.
    pub fn must_value(&self, node: NodeId) -> (r: Result<SlotRef, LoweringError>)
        ensures
            r == (match *self {
                Computed::Value(s) => Ok::<SlotRef, LoweringError>(s),
                Computed::Void => Err::<SlotRef, LoweringError>(LoweringError::NotAValue(node)),
            }),
    {
        match self {
            Computed::Value(vs) => Ok(*vs),
            Computed::Void => Err(LoweringError::NotAValue(node)),
        }
    }
}

/// The condition that a conditional jump tests for a relation.
pub open spec fn spec_cond_op(rel: Relation) -> Option<Cond> {
    match rel {
        Relation::True => Some(Cond::True),
        Relation::Equal => Some(Cond::Equal),
        Relation::LessGreater => Some(Cond::NotEqual),
        Relation::Less => Some(Cond::Less),
        Relation::LessEqual => Some(Cond::LessEqual),
        Relation::Greater => Some(Cond::Greater),
        Relation::GreaterEqual => Some(Cond::GreaterEqual),
        Relation::False => None,
    }
}

/// The condition that a conditional jump tests for a relation.
pub fn cond_op(rel: Relation) -> (r: Option<Cond>)
    ensures
        r == spec_cond_op(rel),
{
    match rel {
        Relation::True => Some(Cond::True),
        Relation::Equal => Some(Cond::Equal),
        Relation::LessGreater => Some(Cond::NotEqual),
        Relation::Less => Some(Cond::Less),
        Relation::LessEqual => Some(Cond::LessEqual),
        Relation::Greater => Some(Cond::Greater),
        Relation::GreaterEqual => Some(Cond::GreaterEqual),
        Relation::False => None,
    }
}

/// The stride that stands for elements of `size` bytes.
pub open spec fn spec_stride(size: u32) -> Option<Stride> {
    if size == 1 {
        Some(Stride::One)
    } else if size == 2 {
        Some(Stride::Two)
    } else if size == 4 {
        Some(Stride::Four)
    } else if size == 8 {
        Some(Stride::Eight)
    } else {
        None
    }
}

/// Node `n` is a projection that stands for an argument of the method.
pub open spec fn is_arg(firm: &Graph, n: NodeId) -> bool {
    firm.spec_kind(n) is Proj && spec_proj_kind(firm, n) is StartTArgsArg
}

/// The operand that stands for the value of node `n`: an immediate for a
/// constant, a parameter for an argument of the method, and else the
/// pseudo-register in which the value was computed.
pub open spec fn spec_operand(firm: &Graph, computed: Seq<Option<Computed>>, n: NodeId) -> Result<
    Operand,
    LoweringError,
> {
    if let NodeKind::Const(tv) = firm.spec_kind(n) {
        Ok(Operand::Imm(tv))
    } else if is_arg(firm, n) {
        Ok(Operand::Param { idx: spec_proj_kind(firm, n)->StartTArgsArg_0 })
    } else {
        match computed[n as int] {
            Some(Computed::Value(s)) => Ok(Operand::Slot(s)),
            Some(Computed::Void) => Err(LoweringError::NotAValue(n)),
            None => Err(LoweringError::NotComputed(n)),
        }
    }
}

/// The address that node `n` stands for: that of a field is the object
/// plus the field's offset, that of an array element is the array plus
/// the index scaled by the size of the elements.
pub open spec fn spec_address(firm: &Graph, computed: Seq<Option<Computed>>, n: NodeId) -> Result<
    AddressComputation,
    LoweringError,
> {
    match firm.spec_kind(n) {
        NodeKind::Member(ent) => match firm.entities@[ent as int].kind {
            EntityKind::Field { offset } => match spec_operand(firm, computed, firm.spec_ins(n)[0]) {
                Ok(base) => Ok(
                    AddressComputation {
                        offset: offset as isize,
                        base,
                        index: IndexComputation::Zero,
                    },
                ),
                Err(e) => Err(e),
            },
            _ => Err(LoweringError::UnexpectedAddressNode(n)),
        },
        NodeKind::Sel(size) => match spec_operand(firm, computed, firm.spec_ins(n)[0]) {
            Ok(base) => if size == 0 {
                Ok(AddressComputation { offset: 0, base, index: IndexComputation::Zero })
            } else {
                match spec_operand(firm, computed, firm.spec_ins(n)[1]) {
                    Ok(idx) => match spec_stride(size) {
                        Some(stride) => Ok(
                            AddressComputation {
                                offset: 0,
                                base,
                                index: IndexComputation::Displacement(idx, stride),
                            },
                        ),
                        None => Err(LoweringError::UnexpectedElementSize(n)),
                    },
                    Err(e) => Err(e),
                }
            },
            Err(e) => Err(e),
        },
        _ => Err(LoweringError::UnexpectedAddressNode(n)),
    }
}

/// The first error that the operands `ins[from..]` give, if any does.
pub open spec fn spec_args_error(
    firm: &Graph,
    computed: Seq<Option<Computed>>,
    ins: Seq<NodeId>,
    from: int,
) -> Option<LoweringError>
    decreases ins.len() - from,
{
    if from >= ins.len() {
        None
    } else {
        match spec_operand(firm, computed, ins[from]) {
            Err(e) => Some(e),
            Ok(_) => spec_args_error(firm, computed, ins, from + 1),
        }
    }
}

/// The operands `ins[from..]`, where none of them gives an error.
pub open spec fn spec_args(
    firm: &Graph,
    computed: Seq<Option<Computed>>,
    ins: Seq<NodeId>,
    from: int,
) -> Seq<Operand> {
    Seq::new(
        (ins.len() - from) as nat,
        |i: int| spec_operand(firm, computed, ins[from + i])->Ok_0,
    )
}

/// What is to be done for a node.
#[derive(Debug, Clone, Copy, PartialEq, Eq, Structural)]
pub enum Effect {
    /// Nothing: the node was computed before, or it is computed where it
    /// is used.
    Nothing,
    /// The node has the value of another node.
    Alias(Computed),
    /// The block is left.
    Leave(Leave),
    /// A comment without text, which stands for a node that gets no code.
    Comment,
    /// A call of the method `entity`.
    Call { entity: EntityId, has_res: bool },
    /// The node gets a pseudo-register but no instruction.
    Unknown,
    Binop { kind: BinopKind, src1: Operand, src2: Operand },
    Div { src1: Operand, src2: Operand },
    Mod { src1: Operand, src2: Operand },
    Unop { kind: UnopKind },
    Load { src: AddressComputation },
    Store { src: Operand, dst: AddressComputation },
}

impl BlockGraph {
    /// The index of the block that stands for block `fb` of the
    /// sea-of-nodes graph.
    pub open spec fn spec_block_index(&self, fb: NodeId) -> BlockId {
        choose|b: BlockId| b < self.blocks@.len() && self.blocks@[b as int].firm.0 == fb
    }

    /// `get_block` returns the index that `spec_block_index` names.
    pub proof fn lemma_block_index(&self, b: BlockId)
        requires
            self.wf(),
            b < self.blocks@.len(),
        ensures
            self.spec_block_index(self.blocks@[b as int].firm.0) == b,
    {
        let fb = self.blocks@[b as int].firm.0;
        let c = self.spec_block_index(fb);
        assert(c < self.blocks@.len() && self.blocks@[c as int].firm.0 == fb);
        if c < b {
            assert(self.blocks@[c as int].firm.0 < self.blocks@[b as int].firm.0);
        } else if b < c {
            assert(self.blocks@[b as int].firm.0 < self.blocks@[c as int].firm.0);
        }
    }
}

/// `eff` if node `node` belongs to the block that `block` stands for, and
/// else the error that it does not.
pub open spec fn own_value(g: &BlockGraph, block: BlockId, node: NodeId, eff: Effect) -> Result<
    Effect,
    LoweringError,
> {
    if g.firm.spec_block(node) == g.blocks@[block as int].firm.0 {
        Ok(eff)
    } else {
        Err(LoweringError::ForeignValue(node))
    }
}

/// What is to be done for an operation on the two operands `l` and `r`.
pub open spec fn two_operands(
    g: &BlockGraph,
    computed: Seq<Option<Computed>>,
    block: BlockId,
    node: NodeId,
    l: NodeId,
    r: NodeId,
    make: spec_fn(Operand, Operand) -> Effect,
) -> Result<Effect, LoweringError> {
    match spec_operand(&g.firm, computed, l) {
        Err(e) => Err(e),
        Ok(src1) => match spec_operand(&g.firm, computed, r) {
            Err(e) => Err(e),
            Ok(src2) => own_value(g, block, node, make(src1, src2)),
        },
    }
}

/// What is to be done for a conditional branch.
pub open spec fn cond_effect(g: &BlockGraph, computed: Seq<Option<Computed>>, node: NodeId) -> Result<
    Effect,
    LoweringError,
> {
    let firm = &g.firm;
    let sel = firm.spec_ins(node)[0];
    match firm.spec_kind(sel) {
        NodeKind::Cmp(rel) => match spec_cond_op(rel) {
            None => Err(LoweringError::UnsupportedRelation(node)),
            Some(op) => match spec_operand(firm, computed, firm.spec_ins(sel)[0]) {
                Err(e) => Err(e),
                Ok(lhs) => match spec_operand(firm, computed, firm.spec_ins(sel)[1]) {
                    Err(e) => Err(e),
                    Ok(rhs) => match (
                        spec_branch_target(firm, node, true),
                        spec_branch_target(firm, node, false),
                    ) {
                        (Some(t), Some(f)) => Ok(
                            Effect::Leave(
                                Leave::CondJmp {
                                    op,
                                    lhs,
                                    rhs,
                                    true_target: g.spec_block_index(t),
                                    false_target: g.spec_block_index(f),
                                },
                            ),
                        ),
                        _ => Err(LoweringError::NoBranchTarget(node)),
                    },
                },
            },
        },
        _ => Err(LoweringError::CondWithoutCmp(node)),
    }
}

/// What is to be done for a call.
pub open spec fn call_effect(
    g: &BlockGraph,
    computed: Seq<Option<Computed>>,
    block: BlockId,
    node: NodeId,
) -> Result<Effect, LoweringError> {
    let firm = &g.firm;
    match firm.spec_kind(firm.spec_ins(node)[1]) {
        NodeKind::Address(entity) => match firm.entities@[entity as int].kind {
            EntityKind::Method { n_res, .. } => match spec_args_error(
                firm,
                computed,
                firm.spec_ins(node),
                2,
            ) {
                Some(e) => Err(e),
                None => if n_res == 0 {
                    Ok(Effect::Call { entity, has_res: false })
                } else if n_res == 1 {
                    own_value(g, block, node, Effect::Call { entity, has_res: true })
                } else {
                    Err(LoweringError::TooManyResults(node))
                },
            },
            _ => Err(LoweringError::CallTargetNotMethod(node)),
        },
        _ => Err(LoweringError::CallTargetNotAddress(node)),
    }
}

/// What is to be done for node `node` when block `block` is turned into
/// instructions and `computed` says what was computed before.
pub open spec fn spec_effect(
    g: &BlockGraph,
    computed: Seq<Option<Computed>>,
    block: BlockId,
    node: NodeId,
) -> Result<Effect, LoweringError> {
    let firm = &g.firm;
    let ins = firm.spec_ins(node);
    if computed[node as int] is Some {
        Ok(Effect::Nothing)
    } else {
        match firm.spec_kind(node) {
            NodeKind::Start | NodeKind::Const(_) | NodeKind::Address(_) => Ok(Effect::Nothing),
            NodeKind::Add => two_operands(
                g,
                computed,
                block,
                node,
                ins[0],
                ins[1],
                |a: Operand, b: Operand| Effect::Binop { kind: BinopKind::Add, src1: a, src2: b },
            ),
            NodeKind::Sub => two_operands(
                g,
                computed,
                block,
                node,
                ins[0],
                ins[1],
                |a: Operand, b: Operand| Effect::Binop { kind: BinopKind::Sub, src1: a, src2: b },
            ),
            NodeKind::Mul => two_operands(
                g,
                computed,
                block,
                node,
                ins[0],
                ins[1],
                |a: Operand, b: Operand| Effect::Binop { kind: BinopKind::Mul, src1: a, src2: b },
            ),
            NodeKind::And => two_operands(
                g,
                computed,
                block,
                node,
                ins[0],
                ins[1],
                |a: Operand, b: Operand| Effect::Binop { kind: BinopKind::And, src1: a, src2: b },
            ),
            NodeKind::Or => two_operands(
                g,
                computed,
                block,
                node,
                ins[0],
                ins[1],
                |a: Operand, b: Operand| Effect::Binop { kind: BinopKind::Or, src1: a, src2: b },
            ),
            NodeKind::Div => two_operands(
                g,
                computed,
                block,
                node,
                ins[1],
                ins[2],
                |a: Operand, b: Operand| Effect::Div { src1: a, src2: b },
            ),
            NodeKind::Mod => two_operands(
                g,
                computed,
                block,
                node,
                ins[1],
                ins[2],
                |a: Operand, b: Operand| Effect::Mod { src1: a, src2: b },
            ),
            NodeKind::Not => own_value(g, block, node, Effect::Unop { kind: UnopKind::Not }),
            NodeKind::Minus => own_value(g, block, node, Effect::Unop { kind: UnopKind::Neg }),
            NodeKind::Return => if ins.len() > 2 {
                Err(LoweringError::MultipleReturnValues(node))
            } else if ins.len() == 2 {
                match spec_operand(firm, computed, ins[1]) {
                    Ok(op) => Ok(
                        Effect::Leave(Leave::Return { value: Some(op), end_block: g.end_block }),
                    ),
                    Err(e) => Err(e),
                }
            } else {
                Ok(Effect::Leave(Leave::Return { value: None, end_block: g.end_block }))
            },
            NodeKind::Jmp => match spec_target(firm, node) {
                Some(fb) => Ok(Effect::Leave(Leave::Jmp { target: g.spec_block_index(fb) })),
                None => Err(LoweringError::NoJumpTarget(node)),
            },
            NodeKind::Proj(_) => if spec_proj_kind(firm, node) is StartTArgsArg {
                Ok(Effect::Nothing)
            } else {
                match computed[ins[0] as int] {
                    Some(c) => Ok(Effect::Alias(c)),
                    None => Ok(Effect::Nothing),
                }
            },
            NodeKind::Cmp(_) => if exists|c: NodeId|
                is_sole_user(firm, c, node) && firm.spec_kind(c) == NodeKind::Cond {
                Ok(Effect::Nothing)
            } else {
                Err(LoweringError::CmpWithoutCond(node))
            },
            NodeKind::Cond => cond_effect(g, computed, node),
            NodeKind::Call => call_effect(g, computed, block, node),
            NodeKind::Unknown => own_value(g, block, node, Effect::Unknown),
            NodeKind::Load => match spec_address(firm, computed, ins[1]) {
                Ok(src) => own_value(g, block, node, Effect::Load { src }),
                Err(e) => Err(e),
            },
            NodeKind::Store => match spec_operand(firm, computed, ins[2]) {
                Err(e) => Err(e),
                Ok(src) => match spec_address(firm, computed, ins[1]) {
                    Err(e) => Err(e),
                    Ok(dst) => own_value(g, block, node, Effect::Store { src, dst }),
                },
            },
            _ => Ok(Effect::Comment),
        }
    }
}

/// The state of instruction selection for one block: the code made so
/// far, and for each node what was computed for it.
pub struct GenInstrBlock {
    pub code: Code,
    pub computed: Vec<Option<Computed>>,
}

impl GenInstrBlock {
    /// The state belongs to block `block` of graph `g`: it has an entry
    /// for each node, and each pseudo-register that it names is one of the
    /// block.
    pub open spec fn wf_for(&self, g: &BlockGraph, block: BlockId) -> bool {
        &&& self.computed@.len() == g.firm.nodes@.len()
        &&& forall|n: int|
            0 <= n < self.computed@.len() ==> (#[trigger] self.computed@[n] matches Some(
                Computed::Value(s),
            ) ==> s.block == block && s.num < g.blocks@[block as int].regs@.len())
    }

    /// Whether something was computed for the node.
    pub fn is_computed(&self, node: NodeId) -> (r: bool)
        requires
            node < self.computed@.len(),
        ensures
            r == (self.computed@[node as int] is Some),
    {
        self.computed[node].is_some()
    }

    /// What was computed for the node.
    pub fn must_computed(&self, node: NodeId) -> (r: Result<Computed, LoweringError>)
        requires
            node < self.computed@.len(),
        ensures
            r == (match self.computed@[node as int] {
                Some(c) => Ok::<Computed, LoweringError>(c),
                None => Err::<Computed, LoweringError>(LoweringError::NotComputed(node)),
            }),
    {
        match self.computed[node] {
            Some(c) => Ok(c),
            None => Err(LoweringError::NotComputed(node)),
        }
    }

    /// The pseudo-register in which the value of the node was computed.
    pub fn must_computed_slot(&self, node: NodeId) -> (r: Result<SlotRef, LoweringError>)
        requires
            node < self.computed@.len(),
        ensures
            r == (match self.computed@[node as int] {
                Some(Computed::Value(s)) => Ok::<SlotRef, LoweringError>(s),
                Some(Computed::Void) => Err::<SlotRef, LoweringError>(
                    LoweringError::NotAValue(node),
                ),
                None => Err::<SlotRef, LoweringError>(LoweringError::NotComputed(node)),
            }),
    {
        match self.must_computed(node) {
            Ok(c) => c.must_value(node),
            Err(e) => Err(e),
        }
    }

    /// The operand that stands for the value of the node.
    pub fn gen_operand_jit(&self, firm: &Graph, node: NodeId) -> (r: Result<Operand, LoweringError>)
        requires
            firm.wf(),
            node < firm.nodes@.len(),
            self.computed@.len() == firm.nodes@.len(),
        ensures
            r == spec_operand(firm, self.computed@, node),
    {
        match firm.kind(node) {
            NodeKind::Const(tv) => Ok(Operand::Imm(tv)),
            NodeKind::Proj(_) => match Proj(node).kind(firm) {
                ProjKind::StartTArgsArg(idx) => Ok(Operand::Param { idx }),
                _ => match self.must_computed_slot(node) {
                    Ok(s) => Ok(Operand::Slot(s)),
                    Err(e) => Err(e),
                },
            },
            _ => match self.must_computed_slot(node) {
                Ok(s) => Ok(Operand::Slot(s)),
                Err(e) => Err(e),
            },
        }
    }

    /// The address that the node stands for.
    pub fn gen_address_computation(&self, firm: &Graph, node: NodeId) -> (r: Result<
        AddressComputation,
        LoweringError,
    >)
        requires
            firm.wf(),
            node < firm.nodes@.len(),
            self.computed@.len() == firm.nodes@.len(),
        ensures
            r == spec_address(firm, self.computed@, node),
    {
        assert(firm.node_wf(node as int));
        match firm.kind(node) {
            NodeKind::Member(ent) => match firm.entities[ent].kind {
                EntityKind::Field { offset } => match self.gen_operand_jit(
                    firm,
                    firm.in_node(node, 0),
                ) {
                    Ok(base) => Ok(
                        AddressComputation {
                            offset: offset as isize,
                            base,
                            index: IndexComputation::Zero,
                        },
                    ),
                    Err(e) => Err(e),
                },
                _ => Err(LoweringError::UnexpectedAddressNode(node)),
            },
            NodeKind::Sel(size) => match self.gen_operand_jit(firm, firm.in_node(node, 0)) {
                Ok(base) => if size == 0 {
                    Ok(AddressComputation { offset: 0, base, index: IndexComputation::Zero })
                } else {
                    match self.gen_operand_jit(firm, firm.in_node(node, 1)) {
                        Ok(idx) => {
                            let stride = if size == 1 {
                                Stride::One
                            } else if size == 2 {
                                Stride::Two
                            } else if size == 4 {
                                Stride::Four
                            } else if size == 8 {
                                Stride::Eight
                            } else {
                                return Err(LoweringError::UnexpectedElementSize(node));
                            };
                            Ok(
                                AddressComputation {
                                    offset: 0,
                                    base,
                                    index: IndexComputation::Displacement(idx, stride),
                                },
                            )
                        },
                        Err(e) => Err(e),
                    }
                },
                Err(e) => Err(e),
            },
            _ => Err(LoweringError::UnexpectedAddressNode(node)),
        }
    }
}


/// The block that a branch goes to when its condition is `val`, if its
/// projection for that way exists and leads to a block.
pub fn branch_target(firm: &Graph, cond: NodeId, val: bool) -> (r: Option<NodeId>)
    requires
        firm.wf(),
        cond < firm.nodes@.len(),
    ensures
        r == spec_branch_target(firm, cond, val),
        r matches Some(b) ==> b < firm.nodes@.len() && firm.spec_kind(b) == NodeKind::Block,
{
    let pn = if val {
        PN_COND_TRUE
    } else {
        PN_COND_FALSE
    };
    let p = out_proj(firm, cond, pn);
    proof {
        lemma_out_proj_is_spec(firm, cond, pn, p);
    }
    match p {
        Some(proj) => {
            let t = target_block(firm, proj.0);
            proof {
                lemma_target_is_spec(firm, proj.0, t);
            }
            match t {
                Some(b) => Some(b.0),
                None => None,
            }
        },
        None => None,
    }
}

/// Instruction `i` is a call of the function named `func` with the
/// arguments `args` and the destination `dst`.
pub open spec fn is_call(i: Instruction, func: Seq<u8>, args: Seq<Operand>, dst: Option<SlotRef>) -> bool {
    i matches Instruction::Call { func: f, args: a, dst: d } && f@ == func && a@ == args && d == dst
}

/// State `n` is state `o` but that node `node` got the pseudo-register
/// that `n` names for it, which is one of block `block` of `g` and holds
/// the node's value.
pub open spec fn has_dst(
    o: &GenInstrBlock,
    n: &GenInstrBlock,
    g: &BlockGraph,
    block: BlockId,
    node: NodeId,
) -> bool {
    &&& n.computed@[node as int] matches Some(Computed::Value(d))
    &&& n.computed@ == o.computed@.update(node as int, n.computed@[node as int])
    &&& dst_of(n, node).block == block
    &&& dst_of(n, node).num < g.blocks@[block as int].regs@.len()
    &&& g.blocks@[block as int].regs@[dst_of(n, node).num as int].holds(&g.firm, node)
}

/// The pseudo-register that state `n` names for node `node`.
pub open spec fn dst_of(n: &GenInstrBlock, node: NodeId) -> SlotRef {
    n.computed@[node as int]->0->Value_0
}

/// The body of `n` is the body of `o` with instruction `i` behind it.
pub open spec fn body_grew(o: &GenInstrBlock, n: &GenInstrBlock, i: Instruction) -> bool {
    n.code.body@ == o.code.body@.push(i)
}

/// What the effect `effect` for node `node` makes of state `o` and graph
/// `og`: state `n` and graph `g`.
pub open spec fn applied(
    o: &GenInstrBlock,
    n: &GenInstrBlock,
    og: &BlockGraph,
    g: &BlockGraph,
    block: BlockId,
    node: NodeId,
    effect: Effect,
) -> bool {
    let d = dst_of(n, node);
    &&& n.code.copy_in == o.code.copy_in
    &&& n.code.copy_out == o.code.copy_out
    &&& match effect {
        Effect::Nothing => n.computed@ == o.computed@ && n.code.body == o.code.body && n.code.leave
            == o.code.leave && g == og,
        Effect::Alias(c) => n.computed@ == o.computed@.update(node as int, Some(c)) && n.code.body
            == o.code.body && n.code.leave == o.code.leave && g == og,
        Effect::Leave(l) => n.computed@ == o.computed@ && n.code.body == o.code.body
            && n.code.leave@ == o.code.leave@.push(l) && g == og,
        Effect::Comment => {
            &&& n.computed@ == o.computed@
            &&& n.code.leave == o.code.leave
            &&& g == og
            &&& n.code.body@.len() == o.code.body@.len() + 1
            &&& n.code.body@.drop_last() == o.code.body@
            &&& (n.code.body@.last() matches Instruction::Comment(text) && text@.len() == 0)
        },
        Effect::Call { entity, has_res } => {
            &&& n.code.leave == o.code.leave
            &&& n.code.body@.len() == o.code.body@.len() + 1
            &&& n.code.body@.drop_last() == o.code.body@
            &&& is_call(
                n.code.body@.last(),
                og.firm.entities@[entity as int].ld_name@,
                spec_args(&og.firm, o.computed@, og.firm.spec_ins(node), 2),
                if has_res {
                    Some(d)
                } else {
                    None
                },
            )
            &&& if has_res {
                has_dst(o, n, g, block, node)
            } else {
                n.computed@ == o.computed@.update(node as int, Some(Computed::Void)) && g == og
            }
        },
        Effect::Unknown => has_dst(o, n, g, block, node) && n.code.body == o.code.body
            && n.code.leave == o.code.leave,
        Effect::Binop { kind, src1, src2 } => has_dst(o, n, g, block, node) && n.code.leave
            == o.code.leave && body_grew(o, n, Instruction::Binop { kind, src1, src2, dst: d }),
        Effect::Div { src1, src2 } => has_dst(o, n, g, block, node) && n.code.leave == o.code.leave
            && body_grew(o, n, Instruction::Div { kind: DivKind::IDiv, src1, src2, dst: d }),
        Effect::Mod { src1, src2 } => has_dst(o, n, g, block, node) && n.code.leave == o.code.leave
            && body_grew(o, n, Instruction::Mod { kind: DivKind::IDiv, src1, src2, dst: d }),
        Effect::Unop { kind } => has_dst(o, n, g, block, node) && n.code.leave == o.code.leave
            && body_grew(o, n, Instruction::Unop { kind, op: Operand::Slot(d) }),
        Effect::Load { src } => has_dst(o, n, g, block, node) && n.code.leave == o.code.leave
            && body_grew(o, n, Instruction::LoadMem { src, dst: d }),
        Effect::Store { src, dst } => has_dst(o, n, g, block, node) && n.code.leave == o.code.leave
            && body_grew(o, n, Instruction::StoreMem { src, dst }),
    }
}

impl GenInstrBlock {
    /// The first error that the operands `ins[from..]` give, if any does.
    fn args_error(&self, firm: &Graph, ins: &Vec<NodeId>, from: usize) -> (r: Option<LoweringError>)
        requires
            firm.wf(),
            self.computed@.len() == firm.nodes@.len(),
            from <= ins@.len(),
            forall|i: int| 0 <= i < ins@.len() ==> #[trigger] ins@[i] < firm.nodes@.len(),
        ensures
            r == spec_args_error(firm, self.computed@, ins@, from as int),
    {
        let mut i: usize = from;
        while i < ins.len()
            invariant
                firm.wf(),
                self.computed@.len() == firm.nodes@.len(),
                from <= i <= ins@.len(),
                forall|k: int| 0 <= k < ins@.len() ==> #[trigger] ins@[k] < firm.nodes@.len(),
                spec_args_error(firm, self.computed@, ins@, from as int) == spec_args_error(
                    firm,
                    self.computed@,
                    ins@,
                    i as int,
                ),
            decreases ins@.len() - i,
        {
            match self.gen_operand_jit(firm, ins[i]) {
                Err(e) => {
                    return Some(e);
                },
                Ok(_) => {},
            }
            i += 1;
        }
        None
    }

    /// The operands `ins[from..]`, where none of them gives an error.
    fn args(&self, firm: &Graph, ins: &Vec<NodeId>, from: usize) -> (r: Vec<Operand>)
        requires
            firm.wf(),
            self.computed@.len() == firm.nodes@.len(),
            from <= ins@.len(),
            forall|i: int| 0 <= i < ins@.len() ==> #[trigger] ins@[i] < firm.nodes@.len(),
        ensures
            r@.len() == ins@.len() - from,
            forall|i: int|
                0 <= i < r@.len() ==> (spec_operand(firm, self.computed@, ins@[from + i]) is Ok
                    ==> #[trigger] r@[i] == spec_operand(firm, self.computed@, ins@[from + i])->Ok_0),
    {
        let mut v: Vec<Operand> = Vec::new();
        let mut i: usize = from;
        while i < ins.len()
            invariant
                firm.wf(),
                self.computed@.len() == firm.nodes@.len(),
                from <= i <= ins@.len(),
                forall|k: int| 0 <= k < ins@.len() ==> #[trigger] ins@[k] < firm.nodes@.len(),
                v@.len() == i - from,
                forall|k: int|
                    0 <= k < v@.len() ==> (spec_operand(firm, self.computed@, ins@[from + k]) is Ok
                        ==> #[trigger] v@[k] == spec_operand(
                        firm,
                        self.computed@,
                        ins@[from + k],
                    )->Ok_0),
            decreases ins@.len() - i,
        {
            match self.gen_operand_jit(firm, ins[i]) {
                Ok(op) => v.push(op),
                Err(_) => v.push(Operand::Param { idx: 0 }),
            }
            i += 1;
        }
        v
    }

    /// What is to be done for an operation on the two operands `l` and
    /// `r`, which `make` turns into the effect.
    fn decide_two(
        &self,
        g: &BlockGraph,
        block: BlockId,
        node: NodeId,
        l: NodeId,
        r: NodeId,
    ) -> (res: Result<(Operand, Operand), LoweringError>)
        requires
            g.wf(),
            block < g.blocks@.len(),
            node < g.firm.nodes@.len(),
            l < g.firm.nodes@.len(),
            r < g.firm.nodes@.len(),
            self.computed@.len() == g.firm.nodes@.len(),
        ensures
            forall|make: spec_fn(Operand, Operand) -> Effect|
                #[trigger] two_operands(g, self.computed@, block, node, l, r, make) == (match res {
                    Ok((a, b)) => Ok::<Effect, LoweringError>(make(a, b)),
                    Err(e) => Err::<Effect, LoweringError>(e),
                }),
    {
        let src1 = match self.gen_operand_jit(&g.firm, l) {
            Ok(o) => o,
            Err(e) => {
                return Err(e);
            },
        };
        let src2 = match self.gen_operand_jit(&g.firm, r) {
            Ok(o) => o,
            Err(e) => {
                return Err(e);
            },
        };
        if g.firm.block_of(node) == g.blocks[block].firm.0 {
            Ok((src1, src2))
        } else {
            Err(LoweringError::ForeignValue(node))
        }
    }

    /// `eff` if the node belongs to the block, and else the error that it
    /// does not.
    fn decide_own(g: &BlockGraph, block: BlockId, node: NodeId, eff: Effect) -> (res: Result<
        Effect,
        LoweringError,
    >)
        requires
            g.wf(),
            block < g.blocks@.len(),
            node < g.firm.nodes@.len(),
        ensures
            res == own_value(g, block, node, eff),
    {
        if g.firm.block_of(node) == g.blocks[block].firm.0 {
            Ok(eff)
        } else {
            Err(LoweringError::ForeignValue(node))
        }
    }

    /// What is to be done for a conditional branch.
    fn decide_cond(&self, g: &BlockGraph, node: NodeId) -> (res: Result<Effect, LoweringError>)
        requires
            g.wf(),
            node < g.firm.nodes@.len(),
            g.firm.spec_kind(node) == NodeKind::Cond,
            self.computed@.len() == g.firm.nodes@.len(),
        ensures
            res == cond_effect(g, self.computed@, node),
    {
        let firm = &g.firm;
        assert(firm.node_wf(node as int));
        let sel = firm.in_node(node, 0);
        assert(firm.node_wf(sel as int));
        match firm.kind(sel) {
            NodeKind::Cmp(rel) => {
                let op = match cond_op(rel) {
                    Some(op) => op,
                    None => {
                        return Err(LoweringError::UnsupportedRelation(node));
                    },
                };
                let lhs = match self.gen_operand_jit(firm, firm.in_node(sel, 0)) {
                    Ok(o) => o,
                    Err(e) => {
                        return Err(e);
                    },
                };
                let rhs = match self.gen_operand_jit(firm, firm.in_node(sel, 1)) {
                    Ok(o) => o,
                    Err(e) => {
                        return Err(e);
                    },
                };
                let t = branch_target(firm, node, true);
                let f = branch_target(firm, node, false);
                match (t, f) {
                    (Some(tb), Some(fb)) => {
                        let true_target = g.get_block(crate::firm::nodes::Block(tb));
                        let false_target = g.get_block(crate::firm::nodes::Block(fb));
                        proof {
                            g.lemma_block_index(true_target);
                            g.lemma_block_index(false_target);
                        }
                        Ok(Effect::Leave(Leave::CondJmp { op, lhs, rhs, true_target, false_target }))
                    },
                    _ => Err(LoweringError::NoBranchTarget(node)),
                }
            },
            _ => Err(LoweringError::CondWithoutCmp(node)),
        }
    }

    /// What is to be done for a call.
    fn decide_call(&self, g: &BlockGraph, block: BlockId, node: NodeId) -> (res: Result<
        Effect,
        LoweringError,
    >)
        requires
            g.wf(),
            block < g.blocks@.len(),
            node < g.firm.nodes@.len(),
            g.firm.spec_kind(node) == NodeKind::Call,
            self.computed@.len() == g.firm.nodes@.len(),
        ensures
            res == call_effect(g, self.computed@, block, node),
    {
        let firm = &g.firm;
        assert(firm.node_wf(node as int));
        let ptr = firm.in_node(node, 1);
        assert(firm.node_wf(ptr as int));
        match firm.kind(ptr) {
            NodeKind::Address(entity) => match firm.entities[entity].kind {
                EntityKind::Method { n_res, .. } => {
                    match self.args_error(firm, firm.in_nodes(node), 2) {
                        Some(e) => {
                            return Err(e);
                        },
                        None => {},
                    }
                    if n_res == 0 {
                        Ok(Effect::Call { entity, has_res: false })
                    } else if n_res == 1 {
                        Self::decide_own(g, block, node, Effect::Call { entity, has_res: true })
                    } else {
                        Err(LoweringError::TooManyResults(node))
                    }
                },
                _ => Err(LoweringError::CallTargetNotMethod(node)),
            },
            _ => Err(LoweringError::CallTargetNotAddress(node)),
        }
    }

    /// What is to be done for node `node` of block `block`.
    pub fn decide(&self, g: &BlockGraph, block: BlockId, node: NodeId) -> (res: Result<
        Effect,
        LoweringError,
    >)
        requires
            g.wf(),
            block < g.blocks@.len(),
            node < g.firm.nodes@.len(),
            self.computed@.len() == g.firm.nodes@.len(),
        ensures
            res == spec_effect(g, self.computed@, block, node),
    {
        let firm = &g.firm;
        if self.is_computed(node) {
            return Ok(Effect::Nothing);
        }
        assert(firm.node_wf(node as int));
        match firm.kind(node) {
            NodeKind::Start | NodeKind::Const(_) | NodeKind::Address(_) => Ok(Effect::Nothing),
            NodeKind::Add => match self.decide_two(
                g,
                block,
                node,
                firm.in_node(node, 0),
                firm.in_node(node, 1),
            ) {
                Ok((a, b)) => Ok(Effect::Binop { kind: BinopKind::Add, src1: a, src2: b }),
                Err(e) => Err(e),
            },
            NodeKind::Sub => match self.decide_two(
                g,
                block,
                node,
                firm.in_node(node, 0),
                firm.in_node(node, 1),
            ) {
                Ok((a, b)) => Ok(Effect::Binop { kind: BinopKind::Sub, src1: a, src2: b }),
                Err(e) => Err(e),
            },
            NodeKind::Mul => match self.decide_two(
                g,
                block,
                node,
                firm.in_node(node, 0),
                firm.in_node(node, 1),
            ) {
                Ok((a, b)) => Ok(Effect::Binop { kind: BinopKind::Mul, src1: a, src2: b }),
                Err(e) => Err(e),
            },
            NodeKind::And => match self.decide_two(
                g,
                block,
                node,
                firm.in_node(node, 0),
                firm.in_node(node, 1),
            ) {
                Ok((a, b)) => Ok(Effect::Binop { kind: BinopKind::And, src1: a, src2: b }),
                Err(e) => Err(e),
            },
            NodeKind::Or => match self.decide_two(
                g,
                block,
                node,
                firm.in_node(node, 0),
                firm.in_node(node, 1),
            ) {
                Ok((a, b)) => Ok(Effect::Binop { kind: BinopKind::Or, src1: a, src2: b }),
                Err(e) => Err(e),
            },
            NodeKind::Div => match self.decide_two(
                g,
                block,
                node,
                firm.in_node(node, 1),
                firm.in_node(node, 2),
            ) {
                Ok((a, b)) => Ok(Effect::Div { src1: a, src2: b }),
                Err(e) => Err(e),
            },
            NodeKind::Mod => match self.decide_two(
                g,
                block,
                node,
                firm.in_node(node, 1),
                firm.in_node(node, 2),
            ) {
                Ok((a, b)) => Ok(Effect::Mod { src1: a, src2: b }),
                Err(e) => Err(e),
            },
            NodeKind::Not => Self::decide_own(g, block, node, Effect::Unop { kind: UnopKind::Not }),
            NodeKind::Minus => Self::decide_own(
                g,
                block,
                node,
                Effect::Unop { kind: UnopKind::Neg },
            ),
            NodeKind::Return => {
                let ins = firm.in_nodes(node);
                if ins.len() > 2 {
                    Err(LoweringError::MultipleReturnValues(node))
                } else if ins.len() == 2 {
                    match self.gen_operand_jit(firm, ins[1]) {
                        Ok(op) => Ok(
                            Effect::Leave(
                                Leave::Return { value: Some(op), end_block: g.end_block },
                            ),
                        ),
                        Err(e) => Err(e),
                    }
                } else {
                    Ok(Effect::Leave(Leave::Return { value: None, end_block: g.end_block }))
                }
            },
            NodeKind::Jmp => {
                let t = target_block(firm, node);
                proof {
                    lemma_target_is_spec(firm, node, t);
                }
                match t {
                    Some(fb) => {
                        let target = g.get_block(fb);
                        proof {
                            g.lemma_block_index(target);
                        }
                        Ok(Effect::Leave(Leave::Jmp { target }))
                    },
                    None => Err(LoweringError::NoJumpTarget(node)),
                }
            },
            NodeKind::Proj(_) => match Proj(node).kind(firm) {
                ProjKind::StartTArgsArg(_) => Ok(Effect::Nothing),
                _ => match self.computed[firm.in_node(node, 0)] {
                    Some(c) => Ok(Effect::Alias(c)),
                    None => Ok(Effect::Nothing),
                },
            },
            NodeKind::Cmp(_) => {
                match sole_user(firm, node) {
                    Some(c) => {
                        if matches!(firm.kind(c), NodeKind::Cond) {
                            Ok(Effect::Nothing)
                        } else {
                            assert forall|x: NodeId|
                                !(is_sole_user(firm, x, node) && firm.spec_kind(x)
                                    == NodeKind::Cond) by {
                                if is_sole_user(firm, x, node) {
                                    assert(firm.uses(c, node));
                                    assert(x == c);
                                }
                            }
                            Err(LoweringError::CmpWithoutCond(node))
                        }
                    },
                    None => Err(LoweringError::CmpWithoutCond(node)),
                }
            },
            NodeKind::Cond => self.decide_cond(g, node),
            NodeKind::Call => self.decide_call(g, block, node),
            NodeKind::Unknown => Self::decide_own(g, block, node, Effect::Unknown),
            NodeKind::Load => match self.gen_address_computation(firm, firm.in_node(node, 1)) {
                Ok(src) => Self::decide_own(g, block, node, Effect::Load { src }),
                Err(e) => Err(e),
            },
            NodeKind::Store => match self.gen_operand_jit(firm, firm.in_node(node, 2)) {
                Err(e) => Err(e),
                Ok(src) => match self.gen_address_computation(firm, firm.in_node(node, 1)) {
                    Err(e) => Err(e),
                    Ok(dst) => Self::decide_own(g, block, node, Effect::Store { src, dst }),
                },
            },
            _ => Ok(Effect::Comment),
        }
    }
}


impl GenInstrBlock {
    /// Writes down what was computed for the node.
    pub fn mark_computed(&mut self, node: NodeId, computed: Computed)
        requires
            node < old(self).computed@.len(),
        ensures
            final(self).computed@ == old(self).computed@.update(node as int, Some(computed)),
            final(self).code == old(self).code,
    {
        self.computed.set(node, Some(computed));
    }

    /// Gives the node, which belongs to the block, a pseudo-register of
    /// the block, and writes down that its value stands there.
    pub fn gen_dst_slot(&mut self, g: &mut BlockGraph, block: BlockId, node: NodeId) -> (dst: SlotRef)
        requires
            old(g).wf(),
            old(self).wf_for(old(g), block),
            block < old(g).blocks@.len(),
            node < old(g).firm.nodes@.len(),
            old(g).firm.spec_block(node) == old(g).blocks@[block as int].firm.0,
        ensures
            final(g).wf(),
            final(g).extends(old(g)),
            final(self).wf_for(final(g), block),
            final(self).code == old(self).code,
            has_dst(old(self), final(self), final(g), block, node),
            dst == dst_of(final(self), node),
    {
        let ghost g0 = *g;
        let dst_slot = g.new_private_slot(block, node);
        proof {
            assert(block_extends(&g0.firm, g0.blocks@[block as int], g.blocks@[block as int]));
        }
        self.mark_computed(node, Computed::Value(dst_slot));
        dst_slot
    }

    /// Carries out what was decided for node `node` of block `block`.
    pub fn apply(&mut self, g: &mut BlockGraph, block: BlockId, node: NodeId, effect: Effect)
        requires
            old(g).wf(),
            old(self).wf_for(old(g), block),
            block < old(g).blocks@.len(),
            node < old(g).firm.nodes@.len(),
            spec_effect(old(g), old(self).computed@, block, node) == Ok::<Effect, LoweringError>(
                effect,
            ),
        ensures
            final(g).wf(),
            final(g).extends(old(g)),
            final(self).wf_for(final(g), block),
            applied(old(self), final(self), old(g), final(g), block, node, effect),
    {
        let ghost g0 = *g;
        let ghost s0 = *self;
        proof {
            lemma_extends_is_refl(&g0);
            assert(g0.firm.node_wf(node as int));
        }
        match effect {
            Effect::Nothing => {},
            Effect::Alias(c) => {
                proof {
                    let pred = g0.firm.spec_ins(node)[0];
                    assert(s0.computed@[pred as int] == Some(c));
                }
                self.mark_computed(node, c);
            },
            Effect::Leave(l) => {
                self.code.leave.push(l);
            },
            Effect::Comment => {
                self.code.body.push(Instruction::Comment(Vec::new()));
                assert(self.code.body@.drop_last() =~= s0.code.body@);
            },
            Effect::Call { entity, has_res } => {
                proof {
                    let ptr = g0.firm.spec_ins(node)[1];
                    assert(g0.firm.node_wf(ptr as int));
                }
                let args = self.args(&g.firm, g.firm.in_nodes(node), 2);
                let func = vstd::slice::slice_to_vec(g.firm.entities[entity].ld_name.as_slice());
                proof {
                    assert(spec_args_error(&g0.firm, s0.computed@, g0.firm.spec_ins(node), 2) is None);
                    lemma_args_ok(&g0.firm, s0.computed@, g0.firm.spec_ins(node), 2);
                    assert(args@ =~= spec_args(&g0.firm, s0.computed@, g0.firm.spec_ins(node), 2));
                }
                let dst = if has_res {
                    Some(self.gen_dst_slot(g, block, node))
                } else {
                    self.mark_computed(node, Computed::Void);
                    None
                };
                self.code.body.push(Instruction::Call { func, args, dst });
                assert(self.code.body@.drop_last() =~= s0.code.body@);
            },
            Effect::Unknown => {
                let dst = self.gen_dst_slot(g, block, node);
            },
            Effect::Binop { kind, src1, src2 } => {
                let dst = self.gen_dst_slot(g, block, node);
                self.code.body.push(Instruction::Binop { kind, src1, src2, dst });
            },
            Effect::Div { src1, src2 } => {
                let dst = self.gen_dst_slot(g, block, node);
                self.code.body.push(Instruction::Div { kind: DivKind::IDiv, src1, src2, dst });
            },
            Effect::Mod { src1, src2 } => {
                let dst = self.gen_dst_slot(g, block, node);
                self.code.body.push(Instruction::Mod { kind: DivKind::IDiv, src1, src2, dst });
            },
            Effect::Unop { kind } => {
                let dst = self.gen_dst_slot(g, block, node);
                self.code.body.push(Instruction::Unop { kind, op: Operand::Slot(dst) });
            },
            Effect::Load { src } => {
                let dst = self.gen_dst_slot(g, block, node);
                self.code.body.push(Instruction::LoadMem { src, dst });
            },
            Effect::Store { src, dst } => {
                self.code.body.push(Instruction::StoreMem { src, dst });
                let dst_slot = self.gen_dst_slot(g, block, node);
            },
        }
    }

    /// Turns node `node` of block `block` into the instruction that
    /// computes it: decides what is to be done for the node, and does it.
    /// On an error nothing is changed.
    pub fn gen_value_walk_callback(&mut self, g: &mut BlockGraph, block: BlockId, node: NodeId) -> (r:
        Result<(), LoweringError>)
        requires
            old(g).wf(),
            old(self).wf_for(old(g), block),
            block < old(g).blocks@.len(),
            node < old(g).firm.nodes@.len(),
        ensures
            final(g).wf(),
            final(g).extends(old(g)),
            final(self).wf_for(final(g), block),
            match r {
                Ok(_) => spec_effect(old(g), old(self).computed@, block, node) is Ok && applied(
                    old(self),
                    final(self),
                    old(g),
                    final(g),
                    block,
                    node,
                    spec_effect(old(g), old(self).computed@, block, node)->Ok_0,
                ),
                Err(e) => spec_effect(old(g), old(self).computed@, block, node) == Err::<
                    Effect,
                    LoweringError,
                >(e) && *final(self) == *old(self) && *final(g) == *old(g),
            },
    {
        match self.decide(g, block, node) {
            Ok(effect) => {
                self.apply(g, block, node, effect);
                Ok(())
            },
            Err(e) => {
                proof {
                    lemma_extends_is_refl(g);
                }
                Err(e)
            },
        }
    }
}

/// Where no operand of `ins[from..]` gives an error, each of them gives
/// an operand.
pub proof fn lemma_args_ok(firm: &Graph, computed: Seq<Option<Computed>>, ins: Seq<NodeId>, from: int)
    requires
        0 <= from <= ins.len(),
        spec_args_error(firm, computed, ins, from) is None,
    ensures
        forall|i: int| from <= i < ins.len() ==> spec_operand(firm, computed, #[trigger] ins[i]) is Ok,
    decreases ins.len() - from,
{
    if from < ins.len() {
        lemma_args_ok(firm, computed, ins, from + 1);
    }
}


/// No node fails with the error that a copy would be lost: that is a
/// fault of edges, not of nodes.
pub proof fn lemma_effect_error(g: &BlockGraph, computed: Seq<Option<Computed>>, block: BlockId, node: NodeId)
    ensures
        spec_effect(g, computed, block, node) != Err::<Effect, LoweringError>(
            LoweringError::LostCopy,
        ),
{
    let firm = &g.firm;
    let ins = firm.spec_ins(node);
    assert forall|n: NodeId| spec_operand(firm, computed, n) != Err::<Operand, LoweringError>(
        LoweringError::LostCopy,
    ) by {}
    assert forall|n: NodeId| spec_address(firm, computed, n) != Err::<
        AddressComputation,
        LoweringError,
    >(LoweringError::LostCopy) by {}
    lemma_args_error(firm, computed, ins, 2);
}

/// No operand fails with the error that a copy would be lost.
pub proof fn lemma_args_error(firm: &Graph, computed: Seq<Option<Computed>>, ins: Seq<NodeId>, from: int)
    ensures
        spec_args_error(firm, computed, ins, from) != Some(LoweringError::LostCopy),
    decreases ins.len() - from,
{
    if from < ins.len() {
        lemma_args_error(firm, computed, ins, from + 1);
    }
}

} // verus!
