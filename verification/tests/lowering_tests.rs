use compiler_lib::firm::graph::{
    Entity, EntityKind, Graph, Mode, NodeId, NodeKind, Relation, Tarval, PN_START_M,
    PN_START_T_ARGS,
};
use compiler_lib::firm::nodes::{
    out_proj, Block, Call, Cond, Jmp, Node, NodeDebug, NodeDebugFmt, NodeDebugOpts, NodeTrait,
    Phi, Proj, Return,
};
use compiler_lib::firm::graph::ProjKind;
use compiler_lib::firm::nodes::Address;
use compiler_lib::firm::value_nodes::{
    compute_binary, try_as_bin_op, try_as_unary_op, try_as_value_node, AnyValueNode, BinKind, BinOp, BinaryNode,
    DowncastErr, UnaryOp, ValueNode,
};
use compiler_lib::firm::walk::{walk, walk_dfs_in_block, VisitTime};
use compiler_lib::lowering::gen_block::{copies, has_lost_copy, values_to_compute};
use compiler_lib::lowering::gen_instr::{Computed, GenInstrBlock, LoweringError};
use compiler_lib::lowering::lir::{
    AddressComputation, BasicBlockReturns, BinopKind, BlockGraph, Cond as JumpCond,
    CopyPropagation, DivKind, Function, IndexComputation, Instruction, Leave, MultiSlot, Operand,
    SlotRef, Stride, UnopKind, ValueSlot, LIR,
};

/// A graph with a start node and the memory and the first `nargs`
/// arguments of the method in its start block.
struct Start {
    g: Graph,
    mem: NodeId,
    args: Vec<NodeId>,
}

fn start(entities: Vec<Entity>, nargs: u32) -> Start {
    let mut g = Graph::new(entities);
    let s = g.add_node(NodeKind::Start, Mode::T, 0, vec![]);
    let mem = g.add_node(NodeKind::Proj(PN_START_M), Mode::M, 0, vec![s]);
    let t_args = g.add_node(NodeKind::Proj(PN_START_T_ARGS), Mode::T, 0, vec![s]);
    let mut args = Vec::new();
    for i in 0..nargs {
        args.push(g.add_node(NodeKind::Proj(i), Mode::Is, 0, vec![t_args]));
    }
    Start { g, mem, args }
}

fn body(g: &BlockGraph, block: usize) -> Vec<String> {
    g.blocks[block].code.body.iter().map(|i| format!("{:?}", i)).collect()
}

#[test]
fn a_sum_of_two_parameters_is_returned() {
    let Start { mut g, mem, args } = start(vec![], 2);
    let add = g.add_node(NodeKind::Add, Mode::Is, 0, vec![args[0], args[1]]);
    let ret = g.add_node(NodeKind::Return, Mode::X, 0, vec![mem, add]);
    g.add_block_pred(1, ret);
    let lir = BlockGraph::from_graph(g).unwrap();
    assert_eq!(lir.head, 0);
    assert_eq!(lir.end_block, 1);
    assert_eq!(lir.blocks.len(), 2);
    assert_eq!(lir.edges.len(), 1);
    assert_eq!((lir.edges[0].source, lir.edges[0].target), (0, 1));
    let dst = SlotRef { block: 0, num: 0 };
    let code = &lir.blocks[0].code;
    assert_eq!(code.body.len(), 1);
    match &code.body[0] {
        Instruction::Binop { kind, src1, src2, dst: d } => {
            assert_eq!(*kind, BinopKind::Add);
            assert_eq!(*src1, Operand::Param { idx: 0 });
            assert_eq!(*src2, Operand::Param { idx: 1 });
            assert_eq!(*d, dst);
        }
        other => panic!("unexpected instruction {:?}", other),
    }
    assert_eq!(code.leave, vec![Leave::Return { value: Some(Operand::Slot(dst)), end_block: 1 }]);
    assert!(code.copy_in.is_empty() && code.copy_out.is_empty());
    assert_eq!(lir.blocks[0].regs.len(), 1);
    assert_eq!(lir.blocks[0].regs[0].num(), 0);
    assert_eq!(lir.blocks[0].regs[0].firm(), add);
    assert_eq!(lir.blocks[0].regs[0].allocated_in(), 0);
    assert_eq!(lir.get_block(Block(1)), 1);
    assert_eq!(lir.iter_blocks(), vec![0, 1]);
    assert_eq!(lir.iter_control_flows(), vec![0]);
    assert_eq!(lir.find_incoming_edge_from(1, Block(0)), Some(0));
    assert_eq!(lir.find_incoming_edge_from(0, Block(1)), None);
}

/// Block 0 computes `x = a + b` and jumps to a second block, which
/// returns `x * x`.
fn two_blocks() -> (Graph, NodeId, NodeId, NodeId) {
    let Start { mut g, mem, args } = start(vec![], 2);
    let x = g.add_node(NodeKind::Add, Mode::Is, 0, vec![args[0], args[1]]);
    let jmp = g.add_node(NodeKind::Jmp, Mode::X, 0, vec![]);
    let second = g.add_node(NodeKind::Block, Mode::BB, 0, vec![]);
    g.add_block_pred(second, jmp);
    let y = g.add_node(NodeKind::Mul, Mode::Is, second, vec![x, x]);
    let ret = g.add_node(NodeKind::Return, Mode::X, second, vec![mem, y]);
    g.add_block_pred(1, ret);
    (g, x, y, second)
}

#[test]
fn a_value_flows_into_the_block_that_uses_it() {
    let (g, x, y, second) = two_blocks();
    let lir = BlockGraph::from_graph(g).unwrap();
    assert_eq!(lir.blocks.len(), 3);
    let b = lir.get_block(Block(second));
    assert_eq!(b, 2);
    assert_eq!(lir.iter_blocks(), vec![0, 2, 1]);
    let into = lir.find_incoming_edge_from(b, Block(0)).unwrap();
    let transitions = &lir.edges[into].register_transitions;
    assert_eq!(transitions.len(), 1);
    let (src, tgt) = transitions[0];
    assert_eq!(src, SlotRef { block: 0, num: 0 });
    assert_eq!(
        tgt,
        ValueSlot { num: 0, firm: x, allocated_in: b, originates_in: 0, terminates_in: b }
    );
    assert!(lir.blocks[0].regs[0].holds_value(&lir.firm, x));
    assert!(!lir.must_copy_in_source(into, 0));
    assert!(!lir.must_copy_in_target(into, 0));
    assert_eq!(lir.blocks[b].code.copy_in, vec![CopyPropagation { src, dst: tgt }]);
    assert!(lir.blocks[0].code.copy_out.is_empty());
    assert_eq!(lir.blocks[0].code.leave, vec![Leave::Jmp { target: b }]);
    assert_eq!(
        body(&lir, 0),
        vec![format!(
            "{:?}",
            Instruction::Binop {
                kind: BinopKind::Add,
                src1: Operand::Param { idx: 0 },
                src2: Operand::Param { idx: 1 },
                dst: SlotRef { block: 0, num: 0 }
            }
        )]
    );
    let here = Operand::Slot(SlotRef { block: b, num: 0 });
    assert_eq!(
        body(&lir, b),
        vec![format!(
            "{:?}",
            Instruction::Binop {
                kind: BinopKind::Mul,
                src1: here,
                src2: here,
                dst: SlotRef { block: b, num: 1 }
            }
        )]
    );
    assert_eq!(
        lir.blocks[b].code.leave,
        vec![Leave::Return { value: Some(Operand::Slot(SlotRef { block: b, num: 1 })), end_block: 1 }]
    );
    assert_eq!(lir.blocks[b].regs[1].firm(), y);
    // every register transition is sound
    for edge in lir.edges.iter() {
        for (src, tgt) in edge.register_transitions.iter() {
            assert_eq!(src.block, edge.source);
            assert_eq!(tgt.allocated_in, edge.target);
            assert!(tgt.num < lir.blocks[edge.target].regs.len());
            assert!(lir.blocks[edge.source].regs[src.num].holds_value(&lir.firm, tgt.firm));
        }
    }
}

/// A block `p` with two ways out, one into a block with a phi and a
/// second way in, the other into a block that uses the value `v` of `p`
/// which the phi chooses from as well.
fn critical_edge() -> (Graph, NodeId, [NodeId; 4], [NodeId; 3]) {
    let Start { mut g, mem, args } = start(vec![], 2);
    let p = 0;
    let v = g.add_node(NodeKind::Add, Mode::Is, p, vec![args[0], args[1]]);
    let to_q = g.add_node(NodeKind::Jmp, Mode::X, p, vec![]);
    let q = g.add_node(NodeKind::Block, Mode::BB, 0, vec![]);
    g.add_block_pred(q, to_q);
    let w = g.add_node(NodeKind::Minus, Mode::Is, q, vec![args[0]]);
    let q_out = g.add_node(NodeKind::Jmp, Mode::X, q, vec![]);
    let jmp1 = g.add_node(NodeKind::Jmp, Mode::X, p, vec![]);
    let jmp2 = g.add_node(NodeKind::Jmp, Mode::X, p, vec![]);
    let s1 = g.add_node(NodeKind::Block, Mode::BB, 0, vec![]);
    g.add_block_pred(s1, jmp1);
    g.add_block_pred(s1, q_out);
    let s2 = g.add_node(NodeKind::Block, Mode::BB, 0, vec![]);
    g.add_block_pred(s2, jmp2);
    let phi = g.add_node(NodeKind::Phi, Mode::Is, s1, vec![v, w]);
    let r1 = g.add_node(NodeKind::Return, Mode::X, s1, vec![mem, phi]);
    let r2 = g.add_node(NodeKind::Return, Mode::X, s2, vec![mem, v]);
    g.add_block_pred(1, r1);
    g.add_block_pred(1, r2);
    (g, v, [to_q, jmp1, jmp2, phi], [q, s1, s2])
}

#[test]
fn a_copy_that_fits_neither_block_is_an_error() {
    let (g, v, [to_q, jmp1, jmp2, phi], [_, s1, _]) = critical_edge();
    assert_eq!(BlockGraph::from_graph(g.clone()).err(), Some(LoweringError::LostCopy));

    let mut lir = BlockGraph::build_skeleton(g);
    lir.construct_flows();
    let b1 = lir.get_block(Block(s1));
    assert!(has_lost_copy(&lir, b1));
    assert!(!has_lost_copy(&lir, 0));
    let from_p = lir.find_incoming_edge_from(b1, Block(0)).unwrap();
    assert!(lir.must_copy_in_source(from_p, 0));
    assert!(lir.must_copy_in_target(from_p, 0));
    match &lir.blocks[b1].regs[0] {
        MultiSlot::Multi { phi: p, slots } => {
            assert_eq!(*p, Phi(phi));
            assert_eq!(slots.len(), 2);
            assert_eq!(slots[0].firm, v);
        }
        other => panic!("unexpected pseudo-register {:?}", other),
    }
    // the value flows out of the first block twice, and is computed once;
    // before it comes the first argument, which the second block negates
    assert_eq!(values_to_compute(&lir, 0), vec![v - 2, v, to_q, jmp1, jmp2]);
    // the copy into the phi has to stand in the source block
    assert!(copies(&lir, b1, true).is_empty());
    let out = copies(&lir, 0, false);
    assert_eq!(out.len(), 1);
    assert_eq!(out[0].dst.firm, v);
    assert_eq!(out[0].dst.allocated_in, b1);
    assert_eq!(GenInstrBlock::fill_instrs(&mut lir, b1), Err(LoweringError::LostCopy));
}

#[test]
fn what_a_block_returns() {
    assert_eq!(BasicBlockReturns::No.as_option(), None);
    assert_eq!(BasicBlockReturns::Void(Return(3)).as_option(), Some(Return(3)));
    assert_eq!(BasicBlockReturns::Value(Return(4)).as_option(), Some(Return(4)));
}

fn entities() -> Vec<Entity> {
    vec![
        Entity { ld_name: b"A.M.f".to_vec(), kind: EntityKind::Method { n_params: 2, n_res: 1 } },
        Entity { ld_name: b"A.M.g".to_vec(), kind: EntityKind::Method { n_params: 1, n_res: 0 } },
        Entity { ld_name: b"A.F.x".to_vec(), kind: EntityKind::Field { offset: 8 } },
        Entity { ld_name: b"A".to_vec(), kind: EntityKind::Class },
        Entity { ld_name: b"A.M.h".to_vec(), kind: EntityKind::Method { n_params: 1, n_res: 2 } },
    ]
}

#[test]
fn calls_loads_and_stores() {
    let Start { mut g, mem, args } = start(entities(), 2);
    let f = g.add_node(NodeKind::Address(0), Mode::P, 0, vec![]);
    let gg = g.add_node(NodeKind::Address(1), Mode::P, 0, vec![]);
    let seven = g.add_node(NodeKind::Const(Tarval::Int(7)), Mode::Is, 0, vec![]);
    let call = g.add_node(NodeKind::Call, Mode::T, 0, vec![mem, f, args[0], seven]);
    let results = g.add_node(NodeKind::Proj(1), Mode::T, 0, vec![call]);
    let res = g.add_node(NodeKind::Proj(0), Mode::Is, 0, vec![results]);
    let void_call = g.add_node(NodeKind::Call, Mode::T, 0, vec![mem, gg, res]);
    let member = g.add_node(NodeKind::Member(2), Mode::P, 0, vec![args[0]]);
    let load = g.add_node(NodeKind::Load, Mode::T, 0, vec![mem, member]);
    let loaded = g.add_node(NodeKind::Proj(1), Mode::Is, 0, vec![load]);
    let sel = g.add_node(NodeKind::Sel(4), Mode::P, 0, vec![args[1], loaded]);
    let store = g.add_node(NodeKind::Store, Mode::T, 0, vec![mem, sel, seven]);
    let neg = g.add_node(NodeKind::Minus, Mode::Is, 0, vec![loaded]);
    let div = g.add_node(NodeKind::Div, Mode::T, 0, vec![mem, neg, seven]);
    let quot = g.add_node(NodeKind::Proj(1), Mode::Is, 0, vec![div]);
    let ret = g.add_node(NodeKind::Return, Mode::X, 0, vec![mem, quot]);
    g.add_block_pred(1, ret);
    assert_eq!(Proj(res).kind(&g), ProjKind::CallTResultArg(0));
    assert_eq!(Proj(loaded).kind(&g), ProjKind::LoadRes);
    assert_eq!(Proj(quot).kind(&g), ProjKind::DivRes);
    assert_eq!(Proj(mem).kind(&g), ProjKind::StartM);
    assert_eq!(Proj(args[1]).kind(&g), ProjKind::StartTArgsArg(1));
    assert_eq!(Call(call).args(&g), vec![Node::new(&g, args[0]), Node::new(&g, seven)]);
    assert_eq!(Call(call).ptr(&g), Node::Address(Address(f)));
    assert_eq!(Return(ret).return_res(&g), vec![Node::new(&g, quot)]);

    let mut lir = BlockGraph::build_skeleton(g);
    lir.construct_flows();
    let mut gen = GenInstrBlock::new(&lir, 0);
    for node in [call, results, res, void_call, load, loaded, store, neg, div, quot] {
        assert_eq!(gen.gen_value_walk_callback(&mut lir, 0, node), Ok(()));
    }
    let slot = |num: usize| SlotRef { block: 0, num };
    let text: Vec<String> = gen.code.body.iter().map(|i| format!("{:?}", i)).collect();
    let expected: Vec<String> = vec![
        Instruction::Call {
            func: b"A.M.f".to_vec(),
            args: vec![Operand::Param { idx: 0 }, Operand::Imm(Tarval::Int(7))],
            dst: Some(slot(0)),
        },
        Instruction::Call {
            func: b"A.M.g".to_vec(),
            args: vec![Operand::Slot(slot(0))],
            dst: None,
        },
        Instruction::LoadMem {
            src: AddressComputation {
                offset: 8,
                base: Operand::Param { idx: 0 },
                index: IndexComputation::Zero,
            },
            dst: slot(1),
        },
        Instruction::StoreMem {
            src: Operand::Imm(Tarval::Int(7)),
            dst: AddressComputation {
                offset: 0,
                base: Operand::Param { idx: 1 },
                index: IndexComputation::Displacement(Operand::Slot(slot(1)), Stride::Four),
            },
        },
        Instruction::Unop { kind: UnopKind::Neg, op: Operand::Slot(slot(3)) },
        Instruction::Div {
            kind: DivKind::IDiv,
            src1: Operand::Slot(slot(3)),
            src2: Operand::Imm(Tarval::Int(7)),
            dst: slot(4),
        },
    ]
    .iter()
    .map(|i| format!("{:?}", i))
    .collect();
    assert_eq!(text, expected);
    assert_eq!(gen.computed[void_call], Some(Computed::Void));
    assert_eq!(gen.computed[res], Some(Computed::Value(slot(0))));
    assert_eq!(gen.computed[quot], Some(Computed::Value(slot(4))));
    assert!(gen.is_computed(store));
    assert_eq!(gen.must_computed_slot(void_call), Err(LoweringError::NotAValue(void_call)));
    assert_eq!(gen.must_computed_slot(ret), Err(LoweringError::NotComputed(ret)));
    assert_eq!(gen.gen_operand_jit(&lir.firm, seven), Ok(Operand::Imm(Tarval::Int(7))));
    // a node that was computed is not computed again
    assert_eq!(gen.gen_value_walk_callback(&mut lir, 0, call), Ok(()));
    assert_eq!(gen.code.body.len(), 6);
    assert_eq!(gen.gen_value_walk_callback(&mut lir, 0, ret), Ok(()));
    assert_eq!(
        gen.code.leave,
        vec![Leave::Return { value: Some(Operand::Slot(slot(4))), end_block: 1 }]
    );
}

#[test]
fn conditional_branches_compare_and_jump() {
    let Start { mut g, mem, args } = start(vec![], 2);
    let cmp = g.add_node(NodeKind::Cmp(Relation::LessEqual), Mode::B, 0, vec![args[0], args[1]]);
    let cond = g.add_node(NodeKind::Cond, Mode::T, 0, vec![cmp]);
    let no = g.add_node(NodeKind::Proj(0), Mode::X, 0, vec![cond]);
    let yes = g.add_node(NodeKind::Proj(1), Mode::X, 0, vec![cond]);
    let then = g.add_node(NodeKind::Block, Mode::BB, 0, vec![]);
    g.add_block_pred(then, yes);
    let other = g.add_node(NodeKind::Block, Mode::BB, 0, vec![]);
    g.add_block_pred(other, no);
    let r1 = g.add_node(NodeKind::Return, Mode::X, then, vec![mem, args[0]]);
    let r2 = g.add_node(NodeKind::Return, Mode::X, other, vec![mem]);
    g.add_block_pred(1, r1);
    g.add_block_pred(1, r2);
    assert_eq!(Cond(cond).out_proj_val(&g, true), Some(Proj(yes)));
    assert_eq!(Cond(cond).out_proj_val(&g, false), Some(Proj(no)));
    assert_eq!(Cond(cond).out_proj_target_block(&g, true), Some((Proj(yes), Block(then))));
    assert_eq!(Cond(cond).out_proj_target_block(&g, false), Some((Proj(no), Block(other))));
    assert_eq!(Cond(cond).selector(&g), Node::new(&g, cmp));
    assert_eq!(out_proj(&g, cond, 5), None);
    assert_eq!(Block(1).cfg_preds(&g), vec![Node::new(&g, r1), Node::new(&g, r2)]);
    assert_eq!(Block(1).num_cfgpreds(&g), 2);
    let lir = BlockGraph::from_graph(g).unwrap();
    let t = lir.get_block(Block(then));
    let f = lir.get_block(Block(other));
    assert_eq!(
        lir.blocks[0].code.leave,
        vec![Leave::CondJmp {
            op: JumpCond::LessEqual,
            lhs: Operand::Param { idx: 0 },
            rhs: Operand::Param { idx: 1 },
            true_target: t,
            false_target: f,
        }]
    );
    assert!(lir.blocks[0].code.body.is_empty());
    assert_eq!(
        lir.blocks[t].code.leave,
        vec![Leave::Return { value: Some(Operand::Param { idx: 0 }), end_block: 1 }]
    );
    assert_eq!(lir.blocks[f].code.leave, vec![Leave::Return { value: None, end_block: 1 }]);
}

fn lower_one(kind: NodeKind, ins: &dyn Fn(&Start) -> Vec<NodeId>, ents: Vec<Entity>) -> Result<(), LoweringError> {
    let s = start(ents, 2);
    let operands = ins(&s);
    let Start { mut g, mem, .. } = s;
    let node = g.add_node(kind, Mode::Is, 0, operands);
    let ret = g.add_node(NodeKind::Return, Mode::X, 0, vec![mem]);
    g.add_block_pred(1, ret);
    let mut lir = BlockGraph::build_skeleton(g);
    lir.construct_flows();
    let mut gen = GenInstrBlock::new(&lir, 0);
    let _ = ret;
    gen.gen_value_walk_callback(&mut lir, 0, node)
}

#[test]
fn each_fault_of_a_graph_has_its_error() {
    let s = start(vec![], 1);
    let (mem, a0) = (s.mem, s.args[0]);
    drop(s);
    // an operand that was not computed, and one that is no value
    let Start { mut g, .. } = start(entities(), 1);
    let unknown = g.add_node(NodeKind::Unknown, Mode::Is, 0, vec![]);
    let add = g.add_node(NodeKind::Add, Mode::Is, 0, vec![unknown, a0]);
    let gg = g.add_node(NodeKind::Address(1), Mode::P, 0, vec![]);
    let void_call = g.add_node(NodeKind::Call, Mode::T, 0, vec![mem, gg, a0]);
    let not = g.add_node(NodeKind::Not, Mode::Is, 0, vec![void_call]);
    let sub = g.add_node(NodeKind::Sub, Mode::Is, 0, vec![void_call, a0]);
    let ret3 = g.add_node(NodeKind::Return, Mode::X, 0, vec![mem, a0, a0]);
    let jmp = g.add_node(NodeKind::Jmp, Mode::X, 0, vec![]);
    let cmp = g.add_node(NodeKind::Cmp(Relation::Less), Mode::B, 0, vec![a0, a0]);
    let cond_no_cmp = g.add_node(NodeKind::Cond, Mode::T, 0, vec![a0]);
    let never = g.add_node(NodeKind::Cmp(Relation::False), Mode::B, 0, vec![a0, a0]);
    let cond_never = g.add_node(NodeKind::Cond, Mode::T, 0, vec![never]);
    let cmp2 = g.add_node(NodeKind::Cmp(Relation::Equal), Mode::B, 0, vec![a0, a0]);
    let cond_no_targets = g.add_node(NodeKind::Cond, Mode::T, 0, vec![cmp2]);
    let call_no_addr = g.add_node(NodeKind::Call, Mode::T, 0, vec![mem, a0]);
    let class = g.add_node(NodeKind::Address(3), Mode::P, 0, vec![]);
    let call_class = g.add_node(NodeKind::Call, Mode::T, 0, vec![mem, class]);
    let h = g.add_node(NodeKind::Address(4), Mode::P, 0, vec![]);
    let call_two = g.add_node(NodeKind::Call, Mode::T, 0, vec![mem, h, a0]);
    let load_bad = g.add_node(NodeKind::Load, Mode::T, 0, vec![mem, a0]);
    let sel3 = g.add_node(NodeKind::Sel(3), Mode::P, 0, vec![a0, a0]);
    let load_size = g.add_node(NodeKind::Load, Mode::T, 0, vec![mem, sel3]);
    let other_block = g.add_node(NodeKind::Block, Mode::BB, 0, vec![]);
    let foreign = g.add_node(NodeKind::Mul, Mode::Is, other_block, vec![a0, a0]);
    let mut lir = BlockGraph::build_skeleton(g);
    let mut gen = GenInstrBlock::new(&lir, 0);
    let mut check = |node: NodeId, expected: LoweringError| {
        let before = gen.code.body.len();
        assert_eq!(gen.gen_value_walk_callback(&mut lir, 0, node), Err(expected));
        assert_eq!(gen.code.body.len(), before);
    };
    check(add, LoweringError::NotComputed(unknown));
    check(ret3, LoweringError::MultipleReturnValues(ret3));
    check(jmp, LoweringError::NoJumpTarget(jmp));
    check(cmp, LoweringError::CmpWithoutCond(cmp));
    check(cond_no_cmp, LoweringError::CondWithoutCmp(cond_no_cmp));
    check(cond_never, LoweringError::UnsupportedRelation(cond_never));
    check(cond_no_targets, LoweringError::NoBranchTarget(cond_no_targets));
    check(call_no_addr, LoweringError::CallTargetNotAddress(call_no_addr));
    check(call_class, LoweringError::CallTargetNotMethod(call_class));
    check(call_two, LoweringError::TooManyResults(call_two));
    check(load_bad, LoweringError::UnexpectedAddressNode(a0));
    check(load_size, LoweringError::UnexpectedElementSize(sel3));
    check(foreign, LoweringError::ForeignValue(foreign));
    assert_eq!(gen.gen_value_walk_callback(&mut lir, 0, void_call), Ok(()));
    assert_eq!(gen.gen_value_walk_callback(&mut lir, 0, sub), Err(LoweringError::NotAValue(void_call)));
    assert_eq!(gen.gen_value_walk_callback(&mut lir, 0, not), Ok(()));
    assert_eq!(Computed::Void.must_value(9), Err(LoweringError::NotAValue(9)));
    let _ = lower_one;
}

#[test]
fn the_walk_lists_operands_first() {
    let (g, x, y, second) = two_blocks();
    let ret = y + 1;
    let order = walk_dfs_in_block(&g, ret, second);
    assert_eq!(*order.last().unwrap(), ret);
    let at = |n: NodeId| order.iter().position(|m| *m == n).unwrap();
    assert!(at(y) < at(ret));
    assert!(at(x) < at(y));
    // the walk does not leave the block: the operands of `x` are not listed
    assert!(!order.contains(&4));
    assert_eq!(order.len(), 4);
}

#[test]
fn phis_jumps_and_users() {
    let (g, v, [_, jmp1, _, phi], [q, s1, s2]) = critical_edge();
    let w = Phi(phi).phi_preds(&g)[1].node_id();
    assert_eq!(Phi(phi).phi_preds(&g)[0], Node::new(&g, v));
    assert_eq!(
        Phi(phi).preds(&g),
        vec![(Block(0), Node::new(&g, v)), (Block(q), Node::new(&g, w))]
    );
    assert_eq!(Jmp(jmp1).out_target_block(&g), Some(Block(s1)));
    assert_eq!(Jmp(v).out_target_block(&g), None);
    let users: Vec<NodeId> = Node::new(&g, v).out_nodes(&g).iter().map(|n| n.node_id()).collect();
    assert_eq!(users, vec![phi, phi + 2]);
    assert_eq!(Node::new(&g, phi).block(&g), Block(s1));
    assert_eq!(Node::new(&g, phi).mode(&g), Mode::Is);
    assert!(Node::new(&g, jmp1).is_jmp());
    assert!(Node::new(&g, s2).as_block().is_some());
    assert_eq!(Node::new(&g, phi).in_nodes(&g).len(), 2);
}

#[test]
fn values_that_are_known_are_computed() {
    let Start { mut g, mem, args } = start(entities(), 1);
    let three = g.add_node(NodeKind::Const(Tarval::Int(3)), Mode::Is, 0, vec![]);
    let add = g.add_node(NodeKind::Add, Mode::Is, 0, vec![three, args[0]]);
    let div = g.add_node(NodeKind::Div, Mode::T, 0, vec![mem, add, three]);
    let quot = g.add_node(NodeKind::Proj(1), Mode::Is, 0, vec![div]);
    let neg = g.add_node(NodeKind::Minus, Mode::Is, 0, vec![quot]);
    let phi_block = g.add_node(NodeKind::Block, Mode::BB, 0, vec![]);
    let j1 = g.add_node(NodeKind::Jmp, Mode::X, 0, vec![]);
    let j2 = g.add_node(NodeKind::Jmp, Mode::X, 0, vec![]);
    g.add_block_pred(phi_block, j1);
    g.add_block_pred(phi_block, j2);
    let phi = g.add_node(NodeKind::Phi, Mode::Is, phi_block, vec![three, neg]);
    let jmp = Node::new(&g, j1);

    assert_eq!(try_as_value_node(&g, jmp), Err(DowncastErr(jmp)));
    assert!(try_as_bin_op(&g, Node::new(&g, neg)).is_err());
    assert!(try_as_unary_op(&g, Node::new(&g, add)).is_err());
    let value = |n: NodeId| try_as_value_node(&g, Node::new(&g, n)).unwrap();
    assert_eq!(value(add), AnyValueNode(add));
    assert_eq!(value(three).value_nodes(&g), Vec::<NodeId>::new());
    assert_eq!(value(three).compute(&g, &vec![]), Tarval::Int(3));
    assert_eq!(value(add).value_nodes(&g), vec![three, args[0]]);
    assert_eq!(value(div).value_nodes(&g), vec![add, three]);
    assert_eq!(value(quot).value_nodes(&g), vec![div]);
    assert_eq!(value(mem).value_nodes(&g), Vec::<NodeId>::new());
    assert_eq!(value(mem).compute(&g, &vec![]), Tarval::Bad);
    assert_eq!(value(quot).compute(&g, &vec![Tarval::Int(5)]), Tarval::Int(5));
    assert_eq!(value(phi).value_nodes(&g), vec![three, neg]);
    assert_eq!(value(phi).compute(&g, &vec![Tarval::Int(3), Tarval::Int(3)]), Tarval::Int(3));
    assert_eq!(value(phi).compute(&g, &vec![Tarval::Int(3), Tarval::Unknown]), Tarval::Int(3));
    assert_eq!(value(phi).compute(&g, &vec![Tarval::Int(3), Tarval::Int(4)]), Tarval::Bad);
    assert_eq!(value(neg).compute(&g, &vec![Tarval::Int(9)]), Tarval::Int(-9));
    assert_eq!(
        value(neg).compute(&g, &vec![Tarval::Int(-2147483648)]),
        Tarval::Int(-2147483648)
    );
    assert_eq!(
        value(add).compute(&g, &vec![Tarval::Int(2147483647), Tarval::Int(1)]),
        Tarval::Int(-2147483648)
    );
    assert_eq!(value(add).compute(&g, &vec![Tarval::Int(2), Tarval::Unknown]), Tarval::Unknown);
    assert_eq!(value(add).compute(&g, &vec![Tarval::Int(2), Tarval::Bad]), Tarval::Bad);
    assert_eq!(value(div).compute(&g, &vec![Tarval::Int(7), Tarval::Int(2)]), Tarval::Int(3));
    assert_eq!(value(div).compute(&g, &vec![Tarval::Int(7), Tarval::Int(0)]), Tarval::Bad);

    let b = try_as_bin_op(&g, Node::new(&g, div)).unwrap();
    assert_eq!(b, BinaryNode(div));
    assert_eq!((b.left(&g), b.right(&g)), (add, three));
    assert_eq!(b.compute(&g, Tarval::Int(9), Tarval::Int(4)), Tarval::Int(2));
    let u = try_as_unary_op(&g, Node::new(&g, neg)).unwrap();
    assert_eq!(u.operand(&g), quot);
    assert_eq!(u.compute(&g, Tarval::Int(1)), Tarval::Int(-1));

    assert_eq!(compute_binary(BinKind::Sub, Tarval::Int(-2147483648), Tarval::Int(1)), Tarval::Int(2147483647));
    assert_eq!(compute_binary(BinKind::Mul, Tarval::Int(-6), Tarval::Int(7)), Tarval::Int(-42));
    assert_eq!(compute_binary(BinKind::Mul, Tarval::Int(65536), Tarval::Int(65536)), Tarval::Bad);
    assert_eq!(compute_binary(BinKind::Mod, Tarval::Int(7), Tarval::Int(4)), Tarval::Int(3));
    assert_eq!(
        compute_binary(BinKind::Cmp(Relation::LessGreater), Tarval::Int(1), Tarval::Int(2)),
        Tarval::Bool(true)
    );
    assert_eq!(Tarval::Bool(true).join(Tarval::Bool(false)), Tarval::Bad);
    assert!(Tarval::Bool(true).is_bool_val(true));
    assert!(!Tarval::Int(1).is_bool_val(true));
    assert_eq!(Tarval::mj_int(5), Tarval::Int(5));
}

#[test]
fn addresses_are_shown_short_and_long() {
    let Start { mut g, .. } = start(entities(), 0);
    let f = g.add_node(NodeKind::Address(0), Mode::P, 0, vec![]);
    let opts = NodeDebugOpts::default();
    assert!(!opts.short());
    assert!(opts.with_short(true).short());
    assert_eq!(Address(f).debug_text(&g, opts), b"Address of A.M.f 5".to_vec());
    assert_eq!(Address(f).debug_text(&g, opts.with_short(true)), b"@A.M.f".to_vec());
    let fmt = NodeDebugFmt(Address(f), opts).short(true);
    assert!(fmt.1.short());
    assert_eq!(fmt.with(opts).1, opts);
}

#[test]
fn a_program_is_a_list_of_functions() {
    let (g, _, _, _) = two_blocks();
    let f = Function::from_graph(b"A.M.f".to_vec(), 2, true, g).unwrap();
    assert_eq!(f.name, b"A.M.f".to_vec());
    assert_eq!(f.nargs, 2);
    assert!(f.returns);
    let mut lir = LIR::new();
    lir.push(f);
    assert_eq!(lir.functions.len(), 1);
    let (g, _, _, _) = critical_edge();
    assert_eq!(Function::from_graph(Vec::new(), 2, true, g).err(), Some(LoweringError::LostCopy));
}

#[test]
fn graphs_are_built_through_the_handles() {
    let Start { mut g, mem, .. } = start(entities(), 0);
    let t_args = Proj(mem + 1);
    let arg = t_args.new_proj(&mut g, 3, Mode::Is);
    assert_eq!(arg.0, g.nodes.len() - 1);
    assert_eq!(g.kind(arg.0), NodeKind::Proj(3));
    assert_eq!(*g.in_nodes(arg.0), vec![t_args.0]);
    assert_eq!(g.block_of(arg.0), 0);
    assert_eq!(Proj(arg.0).kind(&g), ProjKind::StartTArgsArg(3));
    assert_eq!(arg.internal_ir_node(), arg.0);
    assert_eq!(Node::new(&g, arg.0).internal_ir_node(), arg.0);

    let jmp = g.add_node(NodeKind::Jmp, Mode::X, 0, vec![]);
    let block = g.add_node(NodeKind::Block, Mode::BB, 0, vec![]);
    Block(block).imm_add_pred(&mut g, Jmp(jmp));
    let again = Node::new(&g, jmp);
    Block(block).imm_add_pred(&mut g, again);
    assert_eq!(*g.in_nodes(block), vec![jmp, jmp]);

    let f = g.add_node(NodeKind::Address(0), Mode::P, 0, vec![]);
    Address(f).set_entity(&mut g, 1);
    assert_eq!(g.kind(f), NodeKind::Address(1));
    assert_eq!(Address(f).debug_text(&g, NodeDebugOpts::default().with_short(true)), b"@A.M.g".to_vec());
}

#[test]
fn the_walk_over_all_that_a_node_depends_on() {
    let (g, x, y, second) = two_blocks();
    let ret = y + 1;
    let events = walk(&g, ret);
    // every node is reported twice, before and after what it depends on
    let before: Vec<NodeId> = events
        .iter()
        .filter(|(t, _)| *t == VisitTime::BeforePredecessors)
        .map(|(_, n)| *n)
        .collect();
    let after: Vec<NodeId> = events
        .iter()
        .filter(|(t, _)| *t == VisitTime::AfterPredecessors)
        .map(|(_, n)| *n)
        .collect();
    // the return, its block, the jump into it and the first block; the
    // memory with the start node; the product, and the sum with its
    // two arguments and the tuple of all arguments
    assert_eq!(before, vec![ret, second, x + 1, 0, 3, 2, y, x, 5, 4, 6]);
    assert_eq!(after, vec![0, x + 1, second, 2, 3, 4, 5, 6, x, y, ret]);
    assert_eq!(events.first(), Some(&(VisitTime::BeforePredecessors, ret)));
    assert_eq!(events.last(), Some(&(VisitTime::AfterPredecessors, ret)));
    assert_eq!(events.len(), 22);
}

#[test]
fn operands_are_replaced_all_at_once() {
    let Start { mut g, mem, args } = start(vec![], 2);
    let add = g.add_node(NodeKind::Add, Mode::Is, 0, vec![args[0], args[1]]);
    g.set_in_nodes(add, vec![args[1], args[1]]);
    assert_eq!(*g.in_nodes(add), vec![args[1], args[1]]);
    assert_eq!(g.kind(add), NodeKind::Add);
    g.set_in_node(add, 0, args[0]);
    assert_eq!(*g.in_nodes(add), vec![args[0], args[1]]);
    let _ = mem;
}

#[test]
fn every_pseudo_register_is_supplied_from_the_blocks_before() {
    let (g, v, [_, _, _, phi], [_, s1, s2]) = critical_edge();
    let mut lir = BlockGraph::build_skeleton(g);
    lir.construct_flows();
    let mut singles = 0;
    let mut multis = 0;
    for (b, block) in lir.blocks.iter().enumerate() {
        for reg in block.regs.iter() {
            match reg {
                MultiSlot::Single(s) => {
                    singles += 1;
                    let kind = lir.firm.kind(s.firm);
                    let local = matches!(kind, NodeKind::Const(_))
                        || matches!(kind, NodeKind::Address(_))
                        || lir.firm.block_of(s.firm) == block.firm.0;
                    if !local {
                        assert!(!block.preds.is_empty());
                        for e in block.preds.iter() {
                            assert!(lir.flows_value(*e, s.firm), "block {} value {}", b, s.firm);
                        }
                    }
                }
                MultiSlot::Multi { phi: p, slots } => {
                    multis += 1;
                    assert_eq!(lir.firm.block_of(p.0), block.firm.0);
                    let ins = lir.firm.in_nodes(p.0).clone();
                    assert_eq!(ins.len(), block.preds.len());
                    for (i, x) in ins.iter().enumerate() {
                        assert!(slots.iter().any(|s| s.firm == *x));
                        assert!(lir.flows_value(block.preds[i], *x));
                    }
                }
            }
        }
    }
    assert_eq!(singles, 5);
    assert_eq!(multis, 1);
    // three of the pseudo-registers are there because their value flows
    // on: the two of the first block and the one of the negation; a node
    // of its block asks for each of the others
    let mut forwarding = 0;
    for (b, block) in lir.blocks.iter().enumerate() {
        for num in 0..block.regs.len() {
            let from = SlotRef { block: b, num };
            if lir.edges.iter().any(|e| e.register_transitions.iter().any(|t| t.0 == from)) {
                forwarding += 1;
            }
        }
    }
    assert_eq!(forwarding, 3);
    // no edge has two register transitions into one value slot
    for edge in lir.edges.iter() {
        let ts = &edge.register_transitions;
        for s in 0..ts.len() {
            for t in s + 1..ts.len() {
                assert!(!(ts[s].1.firm == ts[t].1.firm && ts[s].1.num == ts[t].1.num));
            }
        }
    }
    assert_eq!(lir.edges.iter().map(|e| e.register_transitions.len()).sum::<usize>(), 4);
    // the value of the first block reaches the block that returns it and
    // the block of the phi; the phi is found under its own name
    let b1 = lir.get_block(Block(s1));
    let b2 = lir.get_block(Block(s2));
    assert!(lir.find_slot(b2, v).is_some());
    assert!(lir.find_slot(b1, phi).is_some());
    let into_b2 = lir.blocks[b2].preds[0];
    assert!(lir.flows_value(into_b2, v));
    assert!(!lir.flows_value(into_b2, phi));
}

#[test]
fn blocks_are_listed_when_the_walk_leaves_them() {
    let (g, _, _, [q, s1, s2]) = critical_edge();
    let lir = BlockGraph::build_skeleton(g);
    let (bq, b1, b2) = (lir.get_block(Block(q)), lir.get_block(Block(s1)), lir.get_block(Block(s2)));
    let order = lir.postorder();
    // the first way out of the head leads on to the block of the phi and
    // to the end; the block that is reached only from the head comes
    // behind them, and the head last
    assert_eq!(order, vec![lir.end_block, b1, bq, b2, lir.head]);
    let mut sorted = order.clone();
    sorted.sort();
    assert_eq!(sorted, vec![0, 1, 2, 3, 4]);
    let mut breadth_first = lir.iter_blocks();
    assert_eq!(breadth_first[0], lir.head);
    breadth_first.sort();
    assert_eq!(breadth_first, sorted);
}
