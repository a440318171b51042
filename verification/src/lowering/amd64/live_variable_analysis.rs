//! Where the variables of register allocation are live. Variables are
//! pseudo-registers, which belong to one block; a value that lives on in
//! another block is copied into a pseudo-register of that block. So a
//! variable is live from the first instruction that reads or writes it to
//! the last one that does, in the order in which the blocks are laid
//! out.
use super::linear_scan::LiveRange;
use super::liveness::{rows, start_of, Blocks};
use super::{spec_var_id, var_id, CallingConv, VarId};
use crate::lowering::lir::{
    AddressComputation, BlockGraph, BlockId, CopyPropagation, IndexComputation, Instruction,
    Leave, Operand, SlotRef,
};
use vstd::prelude::*;

verus! {

/// An instruction as register allocation sees it: the variables that it
/// reads or writes.
pub struct LvaInstr {
    pub vars: Vec<VarId>,
    /// The variable that the instruction writes, if it writes one. It is
    /// the last of `vars` then.
    pub written: Option<VarId>,
}

/// The variable that a pseudo-register is.
pub open spec fn spec_slot_var(s: SlotRef) -> VarId {
    VarId { block: s.block, num: s.num }
}

/// The variables that an address reads.
pub open spec fn address_vars(a: AddressComputation) -> Seq<VarId> {
    operand_vars(a.base) + match a.index {
        IndexComputation::Zero => Seq::empty(),
        IndexComputation::Displacement(idx, _) => operand_vars(idx),
    }
}

/// The variable that an operand stands for, as a list.
pub open spec fn operand_vars(op: Operand) -> Seq<VarId> {
    match spec_var_id(op) {
        Some(v) => seq![v],
        None => Seq::empty(),
    }
}

/// The variables that the operands `ops` stand for, in order.
pub open spec fn operands_vars(ops: Seq<Operand>) -> Seq<VarId>
    decreases ops.len(),
{
    if ops.len() == 0 {
        Seq::empty()
    } else {
        operands_vars(ops.drop_last()) + operand_vars(ops.last())
    }
}

/// The variables that an instruction reads or writes: what it reads
/// first, then what it writes.
pub open spec fn instr_vars(i: Instruction) -> Seq<VarId> {
    match i {
        Instruction::Binop { src1, src2, dst, .. } => operand_vars(src1) + operand_vars(src2)
            + seq![spec_slot_var(dst)],
        Instruction::Div { src1, src2, dst, .. } => operand_vars(src1) + operand_vars(src2)
            + seq![spec_slot_var(dst)],
        Instruction::Mod { src1, src2, dst, .. } => operand_vars(src1) + operand_vars(src2)
            + seq![spec_slot_var(dst)],
        Instruction::Unop { op, .. } => operand_vars(op),
        Instruction::Basic { op, .. } => match op {
            Some(o) => operand_vars(o),
            None => Seq::empty(),
        },
        Instruction::Movq { src, dst } => operand_vars(src) + operand_vars(dst),
        Instruction::Call { args, dst, .. } => operands_vars(args@) + match dst {
            Some(d) => seq![spec_slot_var(d)],
            None => Seq::empty(),
        },
        Instruction::LoadMem { src, dst } => address_vars(src) + seq![spec_slot_var(dst)],
        Instruction::StoreMem { src, dst } => operand_vars(src) + address_vars(dst),
        Instruction::LoadParam { dst, .. } => match dst {
            Some(d) => seq![spec_slot_var(d)],
            None => Seq::empty(),
        },
        Instruction::Comment(_) => Seq::empty(),
    }
}

/// The variable that an instruction writes, if it writes one.
pub open spec fn instr_written(i: Instruction) -> Option<VarId> {
    match i {
        Instruction::Binop { dst, .. } => Some(spec_slot_var(dst)),
        Instruction::Div { dst, .. } => Some(spec_slot_var(dst)),
        Instruction::Mod { dst, .. } => Some(spec_slot_var(dst)),
        Instruction::Movq { dst, .. } => spec_var_id(dst),
        Instruction::Call { dst, .. } => match dst {
            Some(d) => Some(spec_slot_var(d)),
            None => None,
        },
        Instruction::LoadMem { dst, .. } => Some(spec_slot_var(dst)),
        Instruction::LoadParam { dst, .. } => match dst {
            Some(d) => Some(spec_slot_var(d)),
            None => None,
        },
        _ => None,
    }
}

/// The variable that a copy writes.
pub open spec fn copy_written(c: CopyPropagation) -> Option<VarId> {
    Some(VarId { block: c.dst.allocated_in, num: c.dst.num })
}

/// The variables that a copy reads and writes.
pub open spec fn copy_vars(c: CopyPropagation) -> Seq<VarId> {
    seq![spec_slot_var(c.src), VarId { block: c.dst.allocated_in, num: c.dst.num }]
}

/// The variables that the end of a block reads.
pub open spec fn leave_vars(l: Leave) -> Seq<VarId> {
    match l {
        Leave::CondJmp { lhs, rhs, .. } => operand_vars(lhs) + operand_vars(rhs),
        Leave::Jmp { .. } => Seq::empty(),
        Leave::Return { value, .. } => match value {
            Some(v) => operand_vars(v),
            None => Seq::empty(),
        },
    }
}

/// Puts the variable that an operand stands for behind `vars`.
fn push_operand(vars: &mut Vec<VarId>, op: Operand)
    ensures
        final(vars)@ == old(vars)@ + operand_vars(op),
{
    match var_id(op) {
        Some(v) => {
            vars.push(v);
            assert(vars@ =~= old(vars)@ + operand_vars(op));
        },
        None => {
            assert(vars@ =~= old(vars)@ + operand_vars(op));
        },
    }
}

/// Puts the variables that an address reads behind `vars`.
fn push_address(vars: &mut Vec<VarId>, a: AddressComputation)
    ensures
        final(vars)@ == old(vars)@ + address_vars(a),
{
    push_operand(vars, a.base);
    match a.index {
        IndexComputation::Zero => {},
        IndexComputation::Displacement(idx, _) => {
            push_operand(vars, idx);
        },
    }
    assert(vars@ =~= old(vars)@ + address_vars(a));
}

/// Puts a pseudo-register behind `vars`.
fn push_slot(vars: &mut Vec<VarId>, s: SlotRef)
    ensures
        final(vars)@ == old(vars)@ + seq![spec_slot_var(s)],
{
    vars.push(VarId { block: s.block, num: s.num });
    assert(vars@ =~= old(vars)@ + seq![spec_slot_var(s)]);
}

impl LvaInstr {
    /// An instruction of the body of a block.
    pub fn from_instruction(i: &Instruction) -> (r: LvaInstr)
        ensures
            r.vars@ == instr_vars(*i),
            r.written == instr_written(*i),
    {
        let written = match i {
            Instruction::Binop { dst, .. } => Some(VarId { block: dst.block, num: dst.num }),
            Instruction::Div { dst, .. } => Some(VarId { block: dst.block, num: dst.num }),
            Instruction::Mod { dst, .. } => Some(VarId { block: dst.block, num: dst.num }),
            Instruction::Movq { dst, .. } => var_id(*dst),
            Instruction::Call { dst, .. } => match dst {
                Some(d) => Some(VarId { block: d.block, num: d.num }),
                None => None,
            },
            Instruction::LoadMem { dst, .. } => Some(VarId { block: dst.block, num: dst.num }),
            Instruction::LoadParam { dst, .. } => match dst {
                Some(d) => Some(VarId { block: d.block, num: d.num }),
                None => None,
            },
            _ => None,
        };
        let mut vars: Vec<VarId> = Vec::new();
        match i {
            Instruction::Binop { src1, src2, dst, .. } => {
                push_operand(&mut vars, *src1);
                push_operand(&mut vars, *src2);
                push_slot(&mut vars, *dst);
            },
            Instruction::Div { src1, src2, dst, .. } => {
                push_operand(&mut vars, *src1);
                push_operand(&mut vars, *src2);
                push_slot(&mut vars, *dst);
            },
            Instruction::Mod { src1, src2, dst, .. } => {
                push_operand(&mut vars, *src1);
                push_operand(&mut vars, *src2);
                push_slot(&mut vars, *dst);
            },
            Instruction::Unop { op, .. } => {
                push_operand(&mut vars, *op);
            },
            Instruction::Basic { op, .. } => {
                match op {
                    Some(o) => {
                        push_operand(&mut vars, *o);
                    },
                    None => {},
                }
            },
            Instruction::Movq { src, dst } => {
                push_operand(&mut vars, *src);
                push_operand(&mut vars, *dst);
            },
            Instruction::Call { args, dst, .. } => {
                let mut k: usize = 0;
                assert(args@.subrange(0, 0) =~= Seq::<Operand>::empty());
                while k < args.len()
                    invariant
                        k <= args@.len(),
                        vars@ == operands_vars(args@.subrange(0, k as int)),
                    decreases args@.len() - k,
                {
                    assert(args@.subrange(0, k + 1).drop_last() =~= args@.subrange(0, k as int));
                    push_operand(&mut vars, args[k]);
                    k += 1;
                }
                assert(args@.subrange(0, k as int) =~= args@);
                match dst {
                    Some(d) => {
                        push_slot(&mut vars, *d);
                    },
                    None => {
                        assert(vars@ =~= vars@ + Seq::<VarId>::empty());
                    },
                }
            },
            Instruction::LoadMem { src, dst } => {
                push_address(&mut vars, *src);
                push_slot(&mut vars, *dst);
            },
            Instruction::StoreMem { src, dst } => {
                push_operand(&mut vars, *src);
                push_address(&mut vars, *dst);
            },
            Instruction::LoadParam { dst, .. } => {
                match dst {
                    Some(d) => {
                        push_slot(&mut vars, *d);
                    },
                    None => {},
                }
            },
            Instruction::Comment(_) => {},
        }
        assert(vars@ =~= instr_vars(*i));
        LvaInstr { vars, written }
    }

    /// A copy on entry or on exit of a block.
    pub fn from_copy(c: &CopyPropagation) -> (r: LvaInstr)
        ensures
            r.vars@ == copy_vars(*c),
            r.written == copy_written(*c),
    {
        let mut vars: Vec<VarId> = Vec::new();
        vars.push(VarId { block: c.src.block, num: c.src.num });
        vars.push(VarId { block: c.dst.allocated_in, num: c.dst.num });
        assert(vars@ =~= copy_vars(*c));
        LvaInstr { vars, written: Some(VarId { block: c.dst.allocated_in, num: c.dst.num }) }
    }

    /// The end of a block.
    pub fn from_leave(l: &Leave) -> (r: LvaInstr)
        ensures
            r.vars@ == leave_vars(*l),
            r.written is None,
    {
        let mut vars: Vec<VarId> = Vec::new();
        match l {
            Leave::CondJmp { lhs, rhs, .. } => {
                push_operand(&mut vars, *lhs);
                push_operand(&mut vars, *rhs);
            },
            Leave::Jmp { .. } => {},
            Leave::Return { value, .. } => {
                match value {
                    Some(v) => {
                        push_operand(&mut vars, *v);
                    },
                    None => {},
                }
            },
        }
        assert(vars@ =~= leave_vars(*l));
        LvaInstr { vars, written: None }
    }
}

/// The variables of the instructions of a block, instruction by
/// instruction: the copies on entry, the body, the copies on exit, and
/// the end.
pub open spec fn block_vars(g: &BlockGraph, b: BlockId) -> Seq<Seq<VarId>> {
    let code = g.blocks@[b as int].code;
    Seq::new(code.copy_in@.len(), |i: int| copy_vars(code.copy_in@[i])) + Seq::new(
        code.body@.len(),
        |i: int| instr_vars(code.body@[i]),
    ) + Seq::new(code.copy_out@.len(), |i: int| copy_vars(code.copy_out@[i])) + Seq::new(
        code.leave@.len(),
        |i: int| leave_vars(code.leave@[i]),
    )
}

/// The variables of the instructions of the blocks `order`, block by
/// block.
pub open spec fn layout_vars(g: &BlockGraph, order: Seq<BlockId>) -> Seq<Seq<VarId>>
    decreases order.len(),
{
    if order.len() == 0 {
        Seq::empty()
    } else {
        layout_vars(g, order.drop_last()) + block_vars(g, order.last())
    }
}

/// The variables of a list of instructions, instruction by instruction.
pub open spec fn instrs_vars(instrs: Seq<LvaInstr>) -> Seq<Seq<VarId>> {
    Seq::new(instrs.len(), |i: int| instrs[i].vars@)
}

/// What the instructions of a block write, instruction by instruction.
pub open spec fn block_written(g: &BlockGraph, b: BlockId) -> Seq<Option<VarId>> {
    let code = g.blocks@[b as int].code;
    Seq::new(code.copy_in@.len(), |i: int| copy_written(code.copy_in@[i])) + Seq::new(
        code.body@.len(),
        |i: int| instr_written(code.body@[i]),
    ) + Seq::new(code.copy_out@.len(), |i: int| copy_written(code.copy_out@[i])) + Seq::new(
        code.leave@.len(),
        |i: int| None::<VarId>,
    )
}

/// What the instructions of the blocks `order` write, block by block.
pub open spec fn layout_written(g: &BlockGraph, order: Seq<BlockId>) -> Seq<Option<VarId>>
    decreases order.len(),
{
    if order.len() == 0 {
        Seq::empty()
    } else {
        layout_written(g, order.drop_last()) + block_written(g, order.last())
    }
}

/// What a list of instructions writes, instruction by instruction.
pub open spec fn instrs_written(instrs: Seq<LvaInstr>) -> Seq<Option<VarId>> {
    Seq::new(instrs.len(), |i: int| instrs[i].written)
}

/// `succs` holds for each block of `order` the places in `order` of the
/// blocks that its ways out lead to, in the order of the ways.
pub open spec fn succs_ok(g: &BlockGraph, order: Seq<BlockId>, succs: Seq<Vec<usize>>) -> bool {
    &&& succs.len() == order.len()
    &&& forall|p: int|
        0 <= p < order.len() ==> (#[trigger] succs[p])@.len() == g.blocks@[order[p] as int].succs@.len()
    &&& forall|p: int, k: int|
        0 <= p < order.len() && 0 <= k < succs[p]@.len() ==> (#[trigger] succs[p]@[k]) < order.len()
            && order[succs[p]@[k] as int] == g.edges@[g.blocks@[order[p] as int].succs@[k] as int].target
}

/// `ends` holds for each block of `order` the number of instructions of
/// the blocks up to it, itself included.
pub open spec fn ends_ok(g: &BlockGraph, order: Seq<BlockId>, ends: Seq<usize>) -> bool {
    &&& ends.len() == order.len()
    &&& forall|p: int|
        0 <= p < order.len() ==> (#[trigger] ends[p]) == layout_vars(
            g,
            order.subrange(0, p + 1),
        ).len()
}

/// The instructions of a function in the order in which its blocks are
/// laid out.
pub struct LiveVariableAnalysis {
    pub cconv: CallingConv,
    /// The blocks in the order in which they are laid out.
    pub order: Vec<BlockId>,
    /// The instructions of all blocks, block by block.
    pub instrs: Vec<LvaInstr>,
    /// For each block the number of instructions up to its end.
    pub ends: Vec<usize>,
    /// For each block the places of the blocks behind it.
    pub succs: Vec<Vec<usize>>,
}

/// The place of block `t` in `order`.
pub fn place_of(order: &Vec<BlockId>, t: BlockId) -> (r: Option<usize>)
    ensures
        r matches Some(q) ==> q < order@.len() && order@[q as int] == t,
        r is None ==> !order@.contains(t),
{
    let mut q: usize = 0;
    while q < order.len()
        invariant
            q <= order@.len(),
            forall|j: int| 0 <= j < q ==> order@[j] != t,
        decreases order@.len() - q,
    {
        if order[q] == t {
            return Some(q);
        }
        q += 1;
    }
    None
}

impl LiveVariableAnalysis {
    /// The instructions of the blocks of `graph` that can be reached from
    /// its head, laid out in the order of `postorder`.
    pub fn new(cconv: CallingConv, graph: &BlockGraph) -> (lva: Self)
        requires
            graph.wf(),
        ensures
            lva.cconv == cconv,
            graph.lists_reachable(lva.order@),
            lva.order@ == graph.spec_postorder(),
            instrs_vars(lva.instrs@) == layout_vars(graph, lva.order@),
            instrs_written(lva.instrs@) == layout_written(graph, lva.order@),
            ends_ok(graph, lva.order@, lva.ends@),
            succs_ok(graph, lva.order@, lva.succs@),
            lva.wf(),
            lva.laid_out(graph),
    {
        let order = graph.postorder();
        let mut instrs: Vec<LvaInstr> = Vec::new();
        let mut ends: Vec<usize> = Vec::new();
        let mut succs: Vec<Vec<usize>> = Vec::new();
        let mut i: usize = 0;
        assert(order@.subrange(0, 0) =~= Seq::<BlockId>::empty());
        assert(instrs_vars(instrs@) =~= Seq::<Seq<VarId>>::empty());
        assert(instrs_written(instrs@) =~= Seq::<Option<VarId>>::empty());
        while i < order.len()
            invariant
                graph.wf(),
                i <= order@.len(),
                graph.lists_reachable(order@),
                order@ == graph.spec_postorder(),
                instrs_vars(instrs@) == layout_vars(graph, order@.subrange(0, i as int)),
                instrs_written(instrs@) == layout_written(graph, order@.subrange(0, i as int)),
                ends@.len() == i,
                succs@.len() == i,
                forall|p: int|
                    0 <= p < i ==> (#[trigger] ends@[p]) == layout_vars(
                        graph,
                        order@.subrange(0, p + 1),
                    ).len(),
                forall|p: int| 0 <= p < i ==> start_of(ends@, p) <= (#[trigger] ends@[p]) <= instrs@.len(),
                i > 0 ==> ends@[i - 1] == instrs@.len(),
                forall|p: int|
                    0 <= p < i ==> (#[trigger] succs@[p])@.len() == graph.blocks@[order@[p] as int].succs@.len(),
                forall|p: int, k: int|
                    0 <= p < i && 0 <= k < succs@[p]@.len() ==> (#[trigger] succs@[p]@[k]) < order@.len()
                        && order@[succs@[p]@[k] as int] == graph.edges@[graph.blocks@[order@[p] as int].succs@[k] as int].target,
            decreases order@.len() - i,
        {
            let b = order[i];
            assert(b < graph.blocks@.len());
            let code = &graph.blocks[b].code;
            let ghost base = instrs_vars(instrs@);
            let ghost wbase = instrs_written(instrs@);
            let ghost w1 = Seq::new(code.copy_in@.len(), |k: int| copy_written(code.copy_in@[k]));
            let ghost w2 = Seq::new(code.body@.len(), |k: int| instr_written(code.body@[k]));
            let ghost w3 = Seq::new(code.copy_out@.len(), |k: int| copy_written(code.copy_out@[k]));
            let ghost w4 = Seq::new(code.leave@.len(), |k: int| None::<VarId>);
            let ghost count = instrs@.len();
            let ghost part1 = Seq::new(code.copy_in@.len(), |k: int| copy_vars(code.copy_in@[k]));
            let ghost part2 = Seq::new(code.body@.len(), |k: int| instr_vars(code.body@[k]));
            let ghost part3 = Seq::new(code.copy_out@.len(), |k: int| copy_vars(code.copy_out@[k]));
            let ghost part4 = Seq::new(code.leave@.len(), |k: int| leave_vars(code.leave@[k]));
            let mut k: usize = 0;
            while k < code.copy_in.len()
                invariant
                    k <= code.copy_in@.len(),
                    part1 == Seq::new(code.copy_in@.len(), |k: int| copy_vars(code.copy_in@[k])),
                    instrs_vars(instrs@) == base + part1.subrange(0, k as int),
                    w1 == Seq::new(code.copy_in@.len(), |k: int| copy_written(code.copy_in@[k])),
                    instrs_written(instrs@) == wbase + w1.subrange(0, k as int),
                decreases code.copy_in@.len() - k,
            {
                let ghost before = instrs@;
                let x = LvaInstr::from_copy(&code.copy_in[k]);
                let ghost xv = x.vars@;
                let ghost xw = x.written;
                instrs.push(x);
                assert(instrs_written(instrs@) =~= instrs_written(before).push(xw));
                assert(instrs_written(instrs@) =~= wbase + w1.subrange(0, k + 1));
                assert(instrs_vars(instrs@) =~= instrs_vars(before).push(xv));
                assert(instrs_vars(instrs@) =~= base + part1.subrange(0, k + 1));
                k += 1;
            }
            assert(part1.subrange(0, k as int) =~= part1);
            assert(w1.subrange(0, k as int) =~= w1);
            let mut k: usize = 0;
            while k < code.body.len()
                invariant
                    k <= code.body@.len(),
                    part2 == Seq::new(code.body@.len(), |k: int| instr_vars(code.body@[k])),
                    instrs_vars(instrs@) == base + part1 + part2.subrange(0, k as int),
                    w2 == Seq::new(code.body@.len(), |k: int| instr_written(code.body@[k])),
                    instrs_written(instrs@) == wbase + w1 + w2.subrange(0, k as int),
                decreases code.body@.len() - k,
            {
                let ghost before = instrs@;
                let x = LvaInstr::from_instruction(&code.body[k]);
                let ghost xv = x.vars@;
                let ghost xw = x.written;
                instrs.push(x);
                assert(instrs_written(instrs@) =~= instrs_written(before).push(xw));
                assert(instrs_written(instrs@) =~= wbase + w1 + w2.subrange(0, k + 1));
                assert(instrs_vars(instrs@) =~= instrs_vars(before).push(xv));
                assert(instrs_vars(instrs@) =~= base + part1 + part2.subrange(0, k + 1));
                k += 1;
            }
            assert(part2.subrange(0, k as int) =~= part2);
            assert(w2.subrange(0, k as int) =~= w2);
            let mut k: usize = 0;
            while k < code.copy_out.len()
                invariant
                    k <= code.copy_out@.len(),
                    part3 == Seq::new(code.copy_out@.len(), |k: int| copy_vars(code.copy_out@[k])),
                    instrs_vars(instrs@) == base + part1 + part2 + part3.subrange(0, k as int),
                    w3 == Seq::new(code.copy_out@.len(), |k: int| copy_written(code.copy_out@[k])),
                    instrs_written(instrs@) == wbase + w1 + w2 + w3.subrange(0, k as int),
                decreases code.copy_out@.len() - k,
            {
                let ghost before = instrs@;
                let x = LvaInstr::from_copy(&code.copy_out[k]);
                let ghost xv = x.vars@;
                let ghost xw = x.written;
                instrs.push(x);
                assert(instrs_written(instrs@) =~= instrs_written(before).push(xw));
                assert(instrs_written(instrs@) =~= wbase + w1 + w2 + w3.subrange(0, k + 1));
                assert(instrs_vars(instrs@) =~= instrs_vars(before).push(xv));
                assert(instrs_vars(instrs@) =~= base + part1 + part2 + part3.subrange(0, k + 1));
                k += 1;
            }
            assert(part3.subrange(0, k as int) =~= part3);
            assert(w3.subrange(0, k as int) =~= w3);
            let mut k: usize = 0;
            while k < code.leave.len()
                invariant
                    k <= code.leave@.len(),
                    part4 == Seq::new(code.leave@.len(), |k: int| leave_vars(code.leave@[k])),
                    instrs_vars(instrs@) == base + part1 + part2 + part3 + part4.subrange(
                        0,
                        k as int,
                    ),
                    w4 == Seq::new(code.leave@.len(), |k: int| None::<VarId>),
                    instrs_written(instrs@) == wbase + w1 + w2 + w3 + w4.subrange(0, k as int),
                decreases code.leave@.len() - k,
            {
                let ghost before = instrs@;
                let x = LvaInstr::from_leave(&code.leave[k]);
                let ghost xv = x.vars@;
                let ghost xw = x.written;
                instrs.push(x);
                assert(instrs_written(instrs@) =~= instrs_written(before).push(xw));
                assert(instrs_written(instrs@) =~= wbase + w1 + w2 + w3 + w4.subrange(0, k + 1));
                assert(instrs_vars(instrs@) =~= instrs_vars(before).push(xv));
                assert(instrs_vars(instrs@) =~= base + part1 + part2 + part3 + part4.subrange(
                    0,
                    k + 1,
                ));
                k += 1;
            }
            proof {
                assert(part4.subrange(0, k as int) =~= part4);
                assert(w4.subrange(0, k as int) =~= w4);
                assert(order@.subrange(0, i + 1).drop_last() =~= order@.subrange(0, i as int));
                assert(block_vars(graph, b) =~= part1 + part2 + part3 + part4);
                assert(instrs_vars(instrs@) =~= base + block_vars(graph, b));
                assert(block_written(graph, b) =~= w1 + w2 + w3 + w4);
                assert(instrs_written(instrs@) =~= wbase + block_written(graph, b));
                assert(instrs_vars(instrs@).len() == instrs@.len());
                assert(base.len() == count);
            }
            let ghost ends_before = ends@;
            ends.push(instrs.len());
            let mut row: Vec<usize> = Vec::new();
            let out = &graph.blocks[b].succs;
            let mut k: usize = 0;
            while k < out.len()
                invariant
                    graph.wf(),
                    graph.lists_reachable(order@),
                    i < order@.len(),
                    b == order@[i as int],
                    b < graph.blocks@.len(),
                    out@ == graph.blocks@[b as int].succs@,
                    k <= out@.len(),
                    row@.len() == k,
                    forall|j: int|
                        0 <= j < k ==> (#[trigger] row@[j]) < order@.len() && order@[row@[j] as int]
                            == graph.edges@[out@[j] as int].target,
                decreases out@.len() - k,
            {
                let e = out[k];
                assert(graph.blocks@[b as int].succs@[k as int] == e);
                let t = graph.edges[e].target;
                proof {
                    assert(graph.edges@[e as int].source == b);
                    assert(order@.contains(b));
                    assert(graph.reachable(b));
                    assert(graph.reachable(t)) by {
                        assert forall|s: Set<BlockId>|
                            s.contains(graph.head) && #[trigger] graph.closed_forward(
                                s,
                            ) implies s.contains(t) by {
                            assert(s.contains(b));
                        }
                    }
                    assert(order@.contains(t));
                }
                match place_of(&order, t) {
                    Some(q) => {
                        row.push(q);
                    },
                    None => {
                        row.push(0);
                    },
                }
                k += 1;
            }
            succs.push(row);
            proof {
                assert forall|p: int| 0 <= p < i + 1 implies start_of(ends@, p) <= (
                #[trigger] ends@[p]) <= instrs@.len() by {
                    if p < i {
                        assert(ends@[p] == ends_before[p]);
                        assert(start_of(ends@, p) == start_of(ends_before, p));
                    }
                }
                assert forall|p: int| 0 <= p < i + 1 implies (#[trigger] ends@[p]) == layout_vars(
                    graph,
                    order@.subrange(0, p + 1),
                ).len() by {
                    if p < i {
                        assert(ends@[p] == ends_before[p]);
                    }
                }
            }
            i += 1;
        }
        assert(order@.subrange(0, i as int) =~= order@);
        LiveVariableAnalysis { cconv, order, instrs, ends, succs }
    }

    /// The analysis holds the blocks of `graph` that can be reached from
    /// its head, in the order in which a depth-first walk leaves them,
    /// with their instructions, their ends and the blocks behind them.
    pub open spec fn laid_out(&self, graph: &BlockGraph) -> bool {
        &&& self.order@ == graph.spec_postorder()
        &&& instrs_vars(self.instrs@) == layout_vars(graph, self.order@)
        &&& instrs_written(self.instrs@) == layout_written(graph, self.order@)
        &&& ends_ok(graph, self.order@, self.ends@)
        &&& succs_ok(graph, self.order@, self.succs@)
        &&& self.wf()
    }

    /// The blocks as liveness sees them.
    pub fn blocks(&self) -> (b: Blocks<'_>)
        ensures
            b.instrs == &self.instrs,
            b.ends == &self.ends,
            b.succs == &self.succs,
    {
        Blocks { instrs: &self.instrs, ends: &self.ends, succs: &self.succs }
    }

    /// Each block ends where or behind where the block before it ends, the
    /// last behind the last instruction, and the places of the blocks
    /// behind a block are places of blocks.
    pub open spec fn wf(&self) -> bool {
        &&& self.ends@.len() == self.succs@.len()
        &&& self.ends@.len() > 0
        &&& self.ends@[self.ends@.len() - 1] == self.instrs@.len()
        &&& forall|p: int|
            0 <= p < self.ends@.len() ==> start_of(self.ends@, p) <= (#[trigger] self.ends@[p])
                <= self.instrs@.len()
        &&& forall|p: int, k: int|
            0 <= p < self.succs@.len() && 0 <= k < self.succs@[p]@.len() ==> (
            #[trigger] self.succs@[p]@[k]) < self.ends@.len()
    }
}

/// Variable `v` is read or written by instruction number `i`.
pub open spec fn occurs(vars: Seq<Seq<VarId>>, v: VarId, i: int) -> bool {
    0 <= i < vars.len() && vars[i].contains(v)
}

/// What is known of a variable while the instructions are gone through:
/// the first and the last instruction that reads or writes it.
#[derive(Debug, Copy, Clone, PartialEq, Eq, Structural)]
pub struct Extent {
    pub var: VarId,
    pub first: usize,
    pub last: usize,
}

/// `table` says of each variable that the first `upto` instructions read
/// or write, once, which is the first and which the last of them that
/// does.
pub open spec fn extents_ok(vars: Seq<Seq<VarId>>, table: Seq<Extent>, upto: int) -> bool {
    &&& forall|a: int, b: int| 0 <= a < b < table.len() ==> table[a].var != table[b].var
    &&& forall|a: int|
        0 <= a < table.len() ==> {
            let e = #[trigger] table[a];
            &&& e.first <= e.last < upto
            &&& occurs(vars, e.var, e.first as int)
            &&& occurs(vars, e.var, e.last as int)
            &&& forall|i: int| 0 <= i < upto && #[trigger] occurs(vars, e.var, i) ==> e.first <= i <= e.last
        }
    &&& forall|v: VarId, i: int|
        0 <= i < upto && #[trigger] occurs(vars, v, i) ==> exists|a: int|
            0 <= a < table.len() && (#[trigger] table[a]).var == v
}


/// Variable `v` is read or written by instruction number `x`, which is
/// one of the first `i` instructions, or instruction number `i` itself
/// with `v` among the first `j` of its variables.
pub open spec fn seen(vars: Seq<Seq<VarId>>, v: VarId, x: int, i: int, j: int) -> bool {
    (0 <= x < i && x < vars.len() && vars[x].contains(v)) || (x == i && 0 <= i < vars.len()
        && exists|p: int| 0 <= p < j && p < vars[i].len() && #[trigger] vars[i][p] == v)
}

/// `table` says of each variable that was seen, once, which is the first
/// and which the last instruction at which it was.
pub open spec fn extents_upto(vars: Seq<Seq<VarId>>, table: Seq<Extent>, i: int, j: int) -> bool {
    &&& forall|a: int, b: int| 0 <= a < b < table.len() ==> table[a].var != table[b].var
    &&& forall|a: int|
        0 <= a < table.len() ==> {
            let e = #[trigger] table[a];
            &&& e.first <= e.last <= i
            &&& e.last < vars.len()
            &&& seen(vars, e.var, e.first as int, i, j)
            &&& seen(vars, e.var, e.last as int, i, j)
            &&& forall|x: int| #[trigger] seen(vars, e.var, x, i, j) ==> e.first <= x <= e.last
        }
    &&& forall|v: VarId, x: int| #[trigger]
        seen(vars, v, x, i, j) ==> exists|a: int| 0 <= a < table.len() && (#[trigger] table[a]).var == v
}

/// The index of the entry of `table` for variable `v`, if there is one.
fn find_extent(table: &Vec<Extent>, v: VarId) -> (r: Option<usize>)
    ensures
        r matches Some(a) ==> a < table@.len() && table@[a as int].var == v,
        r is None ==> forall|a: int| 0 <= a < table@.len() ==> (#[trigger] table@[a]).var != v,
{
    let mut a: usize = 0;
    while a < table.len()
        invariant
            a <= table@.len(),
            forall|k: int| 0 <= k < a ==> (#[trigger] table@[k]).var != v,
        decreases table@.len() - a,
    {
        if table[a].var.block == v.block && table[a].var.num == v.num {
            return Some(a);
        }
        a += 1;
    }
    None
}

/// For each variable that the instructions read or write, the first and
/// the last instruction that does.
pub fn extents(instrs: &Vec<LvaInstr>) -> (table: Vec<Extent>)
    ensures
        extents_ok(instrs_vars(instrs@), table@, instrs@.len() as int),
{
    let ghost vars = instrs_vars(instrs@);
    let mut table: Vec<Extent> = Vec::new();
    let mut i: usize = 0;
    while i < instrs.len()
        invariant
            i <= instrs@.len(),
            vars == instrs_vars(instrs@),
            extents_upto(vars, table@, i as int, 0),
        decreases instrs@.len() - i,
    {
        let list = &instrs[i].vars;
        assert(list@ == vars[i as int]);
        let mut j: usize = 0;
        while j < list.len()
            invariant
                i < instrs@.len(),
                j <= list@.len(),
                list@ == vars[i as int],
                vars == instrs_vars(instrs@),
                extents_upto(vars, table@, i as int, j as int),
            decreases list@.len() - j,
        {
            let v = list[j];
            let ghost before = table@;
            match find_extent(&table, v) {
                Some(a) => {
                    let e = table[a];
                    table.set(a, Extent { var: e.var, first: e.first, last: i });
                    proof {
                        lemma_extent_update(vars, before, table@, i as int, j as int, a as int);
                    }
                },
                None => {
                    table.push(Extent { var: v, first: i, last: i });
                    proof {
                        lemma_extent_push(vars, before, table@, i as int, j as int);
                    }
                },
            }
            j += 1;
        }
        proof {
            lemma_extent_next(vars, table@, i as int);
        }
        i += 1;
    }
    proof {
        lemma_extent_done(vars, table@);
    }
    table
}

proof fn lemma_seen_grows(vars: Seq<Seq<VarId>>, v: VarId, x: int, i: int, j: int)
    requires
        seen(vars, v, x, i, j),
    ensures
        seen(vars, v, x, i, j + 1),
{
    if x == i && !(0 <= x < i && x < vars.len() && vars[x].contains(v)) {
        let p = choose|p: int| 0 <= p < j && p < vars[i].len() && #[trigger] vars[i][p] == v;
        assert(vars[i][p] == v);
    }
}

proof fn lemma_seen_step(vars: Seq<Seq<VarId>>, v: VarId, x: int, i: int, j: int)
    requires
        seen(vars, v, x, i, j + 1),
        0 <= i < vars.len(),
        0 <= j < vars[i].len(),
    ensures
        seen(vars, v, x, i, j) || (x == i && vars[i][j] == v),
{
    if !(0 <= x < i && x < vars.len() && vars[x].contains(v)) {
        let p = choose|p: int| 0 <= p < j + 1 && p < vars[i].len() && #[trigger] vars[i][p] == v;
        if p < j {
            assert(vars[i][p] == v);
        }
    }
}

proof fn lemma_extent_update(
    vars: Seq<Seq<VarId>>,
    before: Seq<Extent>,
    after: Seq<Extent>,
    i: int,
    j: int,
    a: int,
)
    requires
        extents_upto(vars, before, i, j),
        0 <= i < vars.len(),
        0 <= j < vars[i].len(),
        0 <= a < before.len(),
        before[a].var == vars[i][j],
        after == before.update(
            a,
            Extent { var: before[a].var, first: before[a].first, last: i as usize },
        ),
        i <= usize::MAX,
    ensures
        extents_upto(vars, after, i, j + 1),
{
    let v = vars[i][j];
    assert(vars[i][j] == v);
    assert(seen(vars, v, i, i, j + 1));
    assert forall|b: int| 0 <= b < after.len() implies {
        let e = #[trigger] after[b];
        &&& e.first <= e.last <= i
        &&& e.last < vars.len()
        &&& seen(vars, e.var, e.first as int, i, j + 1)
        &&& seen(vars, e.var, e.last as int, i, j + 1)
        &&& forall|x: int| #[trigger] seen(vars, e.var, x, i, j + 1) ==> e.first <= x <= e.last
    } by {
        let o = before[b];
        let e = after[b];
        lemma_seen_grows(vars, o.var, o.first as int, i, j);
        lemma_seen_grows(vars, o.var, o.last as int, i, j);
        assert forall|x: int| #[trigger] seen(vars, e.var, x, i, j + 1) implies e.first <= x
            <= e.last by {
            lemma_seen_step(vars, e.var, x, i, j);
            if seen(vars, e.var, x, i, j) {
                assert(o.first <= x <= o.last);
            }
        }
    }
    assert forall|w: VarId, x: int| #[trigger] seen(vars, w, x, i, j + 1) implies exists|b: int|
        0 <= b < after.len() && (#[trigger] after[b]).var == w by {
        lemma_seen_step(vars, w, x, i, j);
        if seen(vars, w, x, i, j) {
            let b = choose|b: int| 0 <= b < before.len() && (#[trigger] before[b]).var == w;
            assert(after[b].var == w);
        } else {
            assert(after[a].var == w);
        }
    }
    assert forall|p: int, q: int| 0 <= p < q < after.len() implies after[p].var != after[q].var by {
        assert(before[p].var != before[q].var);
    }
}

proof fn lemma_extent_push(vars: Seq<Seq<VarId>>, before: Seq<Extent>, after: Seq<Extent>, i: int, j: int)
    requires
        extents_upto(vars, before, i, j),
        0 <= i < vars.len(),
        0 <= j < vars[i].len(),
        forall|a: int| 0 <= a < before.len() ==> (#[trigger] before[a]).var != vars[i][j],
        after == before.push(Extent { var: vars[i][j], first: i as usize, last: i as usize }),
        i <= usize::MAX,
    ensures
        extents_upto(vars, after, i, j + 1),
{
    let v = vars[i][j];
    assert(vars[i][j] == v);
    assert(seen(vars, v, i, i, j + 1));
    assert forall|x: int| !seen(vars, v, x, i, j) by {
        if seen(vars, v, x, i, j) {
            let b = choose|b: int| 0 <= b < before.len() && (#[trigger] before[b]).var == v;
            assert(before[b].var != v);
        }
    }
    assert forall|b: int| 0 <= b < after.len() implies {
        let e = #[trigger] after[b];
        &&& e.first <= e.last <= i
        &&& e.last < vars.len()
        &&& seen(vars, e.var, e.first as int, i, j + 1)
        &&& seen(vars, e.var, e.last as int, i, j + 1)
        &&& forall|x: int| #[trigger] seen(vars, e.var, x, i, j + 1) ==> e.first <= x <= e.last
    } by {
        let e = after[b];
        if b < before.len() {
            let o = before[b];
            lemma_seen_grows(vars, o.var, o.first as int, i, j);
            lemma_seen_grows(vars, o.var, o.last as int, i, j);
            assert forall|x: int| #[trigger] seen(vars, e.var, x, i, j + 1) implies e.first <= x
                <= e.last by {
                lemma_seen_step(vars, e.var, x, i, j);
                assert(seen(vars, e.var, x, i, j));
            }
        } else {
            assert forall|x: int| #[trigger] seen(vars, e.var, x, i, j + 1) implies e.first <= x
                <= e.last by {
                lemma_seen_step(vars, e.var, x, i, j);
            }
        }
    }
    assert forall|w: VarId, x: int| #[trigger] seen(vars, w, x, i, j + 1) implies exists|b: int|
        0 <= b < after.len() && (#[trigger] after[b]).var == w by {
        lemma_seen_step(vars, w, x, i, j);
        if seen(vars, w, x, i, j) {
            let b = choose|b: int| 0 <= b < before.len() && (#[trigger] before[b]).var == w;
            assert(after[b].var == w);
        } else {
            assert(after[before.len() as int].var == w);
        }
    }
    assert forall|p: int, q: int| 0 <= p < q < after.len() implies after[p].var != after[q].var by {
        if q < before.len() {
            assert(before[p].var != before[q].var);
        } else {
            assert(before[p].var != v);
        }
    }
}

proof fn lemma_extent_next(vars: Seq<Seq<VarId>>, table: Seq<Extent>, i: int)
    requires
        0 <= i < vars.len(),
        extents_upto(vars, table, i, vars[i].len() as int),
    ensures
        extents_upto(vars, table, i + 1, 0),
{
    let j = vars[i].len() as int;
    assert forall|v: VarId, x: int| seen(vars, v, x, i, j) <==> seen(vars, v, x, i + 1, 0) by {
        if seen(vars, v, x, i, j) && x == i {
            if !(0 <= x < i && x < vars.len() && vars[x].contains(v)) {
                let p = choose|p: int| 0 <= p < j && p < vars[i].len() && #[trigger] vars[i][p] == v;
                assert(vars[i].contains(v));
            }
        }
        if seen(vars, v, x, i + 1, 0) && x == i {
            let p = choose|p: int| 0 <= p < vars[i].len() && vars[i][p] == v;
            assert(vars[i][p] == v);
        }
    }
    assert forall|a: int| 0 <= a < table.len() implies {
        let e = #[trigger] table[a];
        &&& e.first <= e.last <= i + 1
        &&& e.last < vars.len()
        &&& seen(vars, e.var, e.first as int, i + 1, 0)
        &&& seen(vars, e.var, e.last as int, i + 1, 0)
        &&& forall|x: int| #[trigger] seen(vars, e.var, x, i + 1, 0) ==> e.first <= x <= e.last
    } by {
        let e = table[a];
        assert(seen(vars, e.var, e.first as int, i, j));
        assert(seen(vars, e.var, e.last as int, i, j));
        assert forall|x: int| #[trigger] seen(vars, e.var, x, i + 1, 0) implies e.first <= x
            <= e.last by {
            assert(seen(vars, e.var, x, i, j));
        }
    }
    assert forall|w: VarId, x: int| #[trigger] seen(vars, w, x, i + 1, 0) implies exists|b: int|
        0 <= b < table.len() && (#[trigger] table[b]).var == w by {
        assert(seen(vars, w, x, i, j));
    }
}

proof fn lemma_extent_done(vars: Seq<Seq<VarId>>, table: Seq<Extent>)
    requires
        extents_upto(vars, table, vars.len() as int, 0),
    ensures
        extents_ok(vars, table, vars.len() as int),
{
    let n = vars.len() as int;
    assert forall|v: VarId, x: int| seen(vars, v, x, n, 0) <==> occurs(vars, v, x) by {}
    assert forall|a: int| 0 <= a < table.len() implies {
        let e = #[trigger] table[a];
        &&& e.first <= e.last < n
        &&& occurs(vars, e.var, e.first as int)
        &&& occurs(vars, e.var, e.last as int)
        &&& forall|i: int| 0 <= i < n && #[trigger] occurs(vars, e.var, i) ==> e.first <= i <= e.last
    } by {
        let e = table[a];
        assert(seen(vars, e.var, e.first as int, n, 0));
        assert(seen(vars, e.var, e.last as int, n, 0));
        assert forall|i: int| 0 <= i < n && #[trigger] occurs(vars, e.var, i) implies e.first <= i
            <= e.last by {
            assert(seen(vars, e.var, i, n, 0));
        }
    }
    assert forall|v: VarId, i: int| 0 <= i < n && #[trigger] occurs(vars, v, i) implies exists|a: int|
        0 <= a < table.len() && (#[trigger] table[a]).var == v by {
        assert(seen(vars, v, i, n, 0));
    }
}

/// The variables of a table, in its order.
pub open spec fn table_vars(table: Seq<Extent>) -> Seq<VarId> {
    Seq::new(table.len(), |a: int| table[a].var)
}

impl LiveVariableAnalysis {
    /// The blocks as liveness sees them.
    pub open spec fn spec_blocks(&self) -> Blocks<'_> {
        Blocks { instrs: &self.instrs, ends: &self.ends, succs: &self.succs }
    }

    /// Variable number `x` of `table` is live in the block at place `p`:
    /// it is live on entry of the block or of a block behind it, or the
    /// block holds the last instruction that names it.
    pub open spec fn alive(&self, table: Seq<Extent>, live: Seq<Seq<bool>>, p: int, x: int) -> bool {
        live[p][x] || self.spec_blocks().live_behind(live, p, x) || start_of(self.ends@, p)
            <= table[x].last < self.ends@[p]
    }

    /// The block at place `q` is the last in which variable number `x`
    /// is live.
    pub open spec fn is_last_alive(
        &self,
        table: Seq<Extent>,
        live: Seq<Seq<bool>>,
        q: int,
        x: int,
    ) -> bool {
        &&& 0 <= q < self.ends@.len()
        &&& self.alive(table, live, q, x)
        &&& forall|p: int| q < p < self.ends@.len() ==> !#[trigger] self.alive(table, live, p, x)
    }

    /// The last instruction at which variable number `x` is live, where
    /// the block at place `q` is the last in which it is live: the last
    /// instruction that names it if that block holds it, and else the
    /// last instruction of that block.
    pub open spec fn upper(&self, table: Seq<Extent>, q: int, x: int) -> int {
        if table[x].last >= start_of(self.ends@, q) {
            table[x].last as int
        } else {
            self.ends@[q] - 1
        }
    }

    /// `ranges` are the live ranges of the variables of the instructions:
    /// one for each variable that is read or written, in the order in
    /// which the variables are named first, from the first instruction
    /// that names the variable to the last one, or to the end of the last
    /// block in which the variable is live where that lies behind.
    pub open spec fn ranges_ok(&self, ranges: Seq<LiveRange>) -> bool {
        exists|table: Seq<Extent>, live: Seq<Seq<bool>>|
            {
                &&& #[trigger] extents_ok(
                    instrs_vars(self.instrs@),
                    table,
                    self.instrs@.len() as int,
                )
                &&& #[trigger] self.spec_blocks().is_liveness(table_vars(table), live)
                &&& ranges.len() == table.len()
                &&& forall|a: int|
                    0 <= a < ranges.len() ==> (#[trigger] ranges[a]).wf() && ranges[a].var_id
                        == table[a].var && exists|q: int|
                        #[trigger] self.is_last_alive(table, live, q, a) && ranges[a].points()
                            == Set::new(|x: int| table[a].first <= x <= self.upper(table, q, a))
            }
    }

    /// Whether variable number `x` is live in the block at place `p`.
    fn is_alive(&self, table: &Vec<Extent>, live: &Vec<Vec<bool>>, p: usize, x: usize) -> (r: bool)
        requires
            self.wf(),
            p < self.ends@.len(),
            x < table@.len(),
            live@.len() == self.ends@.len(),
            forall|q: int| 0 <= q < live@.len() ==> (#[trigger] live@[q])@.len() == table@.len(),
        ensures
            r == self.alive(table@, rows(live@), p as int, x as int),
    {
        let blocks = self.blocks();
        assert(rows(live@)[p as int] == live@[p as int]@);
        let lo = blocks.start(p);
        live[p][x] || blocks.is_live_behind(live, p, x) || (lo <= table[x].last && table[x].last
            < self.ends[p])
    }

    /// The live ranges of the variables of the instructions.
    pub fn run(&self) -> (ranges: Vec<LiveRange>)
        requires
            self.wf(),
        ensures
            self.ranges_ok(ranges@),
            forall|a: int| 0 <= a < ranges@.len() ==> (#[trigger] ranges@[a]).wf(),
    {
        let table = extents(&self.instrs);
        let n = self.instrs.len();
        let nb = self.ends.len();
        let ghost vars = instrs_vars(self.instrs@);
        let mut names: Vec<VarId> = Vec::new();
        let mut a: usize = 0;
        while a < table.len()
            invariant
                a <= table@.len(),
                names@.len() == a,
                forall|k: int| 0 <= k < a ==> names@[k] == table@[k].var,
            decreases table@.len() - a,
        {
            names.push(table[a].var);
            a += 1;
        }
        assert(names@ =~= table_vars(table@));
        let blocks = self.blocks();
        assert(blocks == self.spec_blocks());
        let live = blocks.liveness(&names);
        let ghost sets = rows(live@);
        assert(self.spec_blocks().is_liveness(table_vars(table@), sets));
        assert forall|q: int| 0 <= q < live@.len() implies (#[trigger] live@[q])@.len()
            == table@.len() by {
            assert(sets[q].len() == table@.len());
        }
        let mut ranges: Vec<LiveRange> = Vec::new();
        let mut a: usize = 0;
        while a < table.len()
            invariant
                self.wf(),
                a <= table@.len(),
                n == vars.len(),
                n == self.instrs@.len(),
                nb == self.ends@.len(),
                vars == instrs_vars(self.instrs@),
                extents_ok(vars, table@, n as int),
                sets == rows(live@),
                self.spec_blocks().is_liveness(table_vars(table@), sets),
                live@.len() == nb,
                forall|q: int| 0 <= q < live@.len() ==> (#[trigger] live@[q])@.len() == table@.len(),
                ranges@.len() == a,
                forall|k: int|
                    0 <= k < a ==> (#[trigger] ranges@[k]).wf() && ranges@[k].var_id == table@[k].var
                        && exists|q: int|
                        #[trigger] self.is_last_alive(table@, sets, q, k) && ranges@[k].points()
                            == Set::new(|x: int| table@[k].first <= x <= self.upper(table@, q, k)),
            decreases table@.len() - a,
        {
            let e = table[a];
            assert(table@[a as int] == e);
            let mut q: usize = 0;
            let mut found = false;
            let mut p: usize = 0;
            while p < nb
                invariant
                    self.wf(),
                    nb == self.ends@.len(),
                    p <= nb,
                    a < table@.len(),
                    e == table@[a as int],
                    e.last < self.instrs@.len(),
                    sets == rows(live@),
                    live@.len() == nb,
                    forall|r: int| 0 <= r < live@.len() ==> (#[trigger] live@[r])@.len() == table@.len(),
                    found ==> q < p && self.alive(table@, sets, q as int, a as int) && forall|r: int|
                        q < r < p ==> !#[trigger] self.alive(table@, sets, r, a as int),
                    !found ==> forall|r: int|
                        0 <= r < p ==> !#[trigger] self.alive(table@, sets, r, a as int),
                    p > 0 && self.ends@[p - 1] > e.last ==> found,
                decreases nb - p,
            {
                if self.is_alive(&table, &live, p, a) {
                    q = p;
                    found = true;
                } else {
                    proof {
                        if self.ends@[p as int] > e.last && !found {
                            if p > 0 {
                                assert(self.ends@[p - 1] <= e.last);
                            }
                            assert(start_of(self.ends@, p as int) <= e.last);
                            assert(self.alive(table@, sets, p as int, a as int));
                        }
                    }
                }
                p += 1;
            }
            assert(found);
            let lo = self.blocks().start(q);
            let last = if e.last >= lo {
                e.last
            } else {
                self.ends[q] - 1
            };
            assert(last == self.upper(table@, q as int, a as int));
            assert(self.is_last_alive(table@, sets, q as int, a as int));
            ranges.push(LiveRange::new(e.var, e.first, last));
            a += 1;
        }
        proof {
            assert(extents_ok(instrs_vars(self.instrs@), table@, self.instrs@.len() as int));
            assert(self.spec_blocks().is_liveness(table_vars(table@), sets));
        }
        ranges
    }
}

} // verus!
