use compiler_lib::ast::{BasicType, Block, Expr, Stmt, Type};
use compiler_lib::asciifile::{Position, Span, Spanned};
use compiler_lib::firm::graph::{EntityKind, Graph, Mode, NodeKind, Tarval, PN_START_M, PN_START_T_ARGS};
use compiler_lib::firm::program_generator::{
    concat3, place_field, size_of, slot_count, LocalVarDefVisitor, ProgramGenerator,
};
use compiler_lib::lowering::amd64::function::{FnInstruction, Function, FunctionCall};
use compiler_lib::lowering::amd64::linear_scan::{LinearScanAllocator, LiveRange, Location};
use compiler_lib::lowering::amd64::live_variable_analysis::{
    extents, place_of, Extent, LiveVariableAnalysis, LvaInstr,
};
use compiler_lib::lowering::amd64::liveness::{reads_var, writes_var, Blocks};
use compiler_lib::lowering::amd64::{
    var_id, Amd64Reg, CallingConv, Instruction, MoveOperand, Operand, VarId,
};
use compiler_lib::lowering::lir;
use compiler_lib::lowering::lir::BlockGraph;
use compiler_lib::strtab::StringTable;
use compiler_lib::type_checking::type_system::{
    CheckedType, ClassDef, ClassFieldDef, ClassMethodDef, MethodParamDef, TypeSystem,
};

fn var(n: usize) -> VarId {
    VarId { block: 0, num: n }
}

#[test]
fn live_ranges_know_their_ends() {
    let a = LiveRange::new(var(0), 3, 8);
    let b = LiveRange::new(var(1), 8, 9);
    let c = LiveRange::new(var(2), 9, 9);
    assert_eq!((a.start(), a.end()), (3, 8));
    assert_eq!((c.start(), c.end()), (9, 9));
    assert!(a.overlaps(&b));
    assert!(b.overlaps(&a));
    assert!(b.overlaps(&c));
    assert!(!a.overlaps(&c));
    assert!(!c.overlaps(&a));
    assert_eq!(a.var_id, var(0));
}

fn allocate(ranges: &[(usize, usize)]) -> LinearScanAllocator {
    let live = ranges.iter().enumerate().map(|(i, (s, e))| LiveRange::new(var(i), *s, *e)).collect();
    let mut lsa = LinearScanAllocator::new(live);
    lsa.run();
    lsa
}

fn no_conflicts(lsa: &LinearScanAllocator) {
    assert_eq!(lsa.var_location.len(), lsa.var_live.len());
    for i in 0..lsa.var_live.len() {
        assert_eq!(lsa.var_location[i].0, lsa.var_live[i].var_id);
        for j in 0..lsa.var_live.len() {
            if i != j && lsa.var_location[i].1 == lsa.var_location[j].1 {
                assert!(matches!(lsa.var_location[i].1, Location::Reg(_)));
                assert!(!lsa.var_live[i].overlaps(&lsa.var_live[j]));
            }
        }
    }
}

#[test]
fn ranges_that_do_not_meet_share_a_register() {
    let lsa = allocate(&[(0, 3), (4, 6), (2, 5), (7, 7)]);
    let locs: Vec<Location> = lsa.var_location.iter().map(|(_, l)| *l).collect();
    assert_eq!(
        locs,
        vec![
            Location::Reg(Amd64Reg::Rdi),
            Location::Reg(Amd64Reg::Rdi),
            Location::Reg(Amd64Reg::Rsi),
            Location::Reg(Amd64Reg::Rdi),
        ]
    );
    assert_eq!(lsa.num_regs_required, 2);
    assert_eq!(lsa.spill_count, 0);
    no_conflicts(&lsa);
}

#[test]
fn callee_save_registers_come_after_caller_save_registers() {
    let ranges: Vec<(usize, usize)> = (0..11).map(|i| (i, 20)).collect();
    let lsa = allocate(&ranges);
    assert_eq!(lsa.var_location[8].1, Location::Reg(Amd64Reg::Rax));
    assert_eq!(lsa.var_location[9].1, Location::Reg(Amd64Reg::Rbx));
    assert_eq!(lsa.var_location[10].1, Location::Reg(Amd64Reg::R12));
    assert_eq!(lsa.num_regs_required, 11);
    assert_eq!(lsa.spill_count, 0);
    no_conflicts(&lsa);
}

#[test]
fn the_range_that_ends_last_is_spilled() {
    let mut ranges: Vec<(usize, usize)> = (0..14).map(|i| (i, 100 + i)).collect();
    ranges.push((20, 30));
    ranges.push((21, 200));
    let lsa = allocate(&ranges);
    // all fourteen registers are held when the fifteenth range starts; the
    // range that ends last of them goes to the stack
    assert_eq!(lsa.var_location[13].1, Location::Stack(0));
    assert_eq!(lsa.var_location[14].1, Location::Reg(Amd64Reg::R15));
    // the sixteenth range ends behind all that are live, and is spilled
    assert_eq!(lsa.var_location[15].1, Location::Stack(1));
    assert_eq!(lsa.num_regs_required, 14);
    assert_eq!(lsa.spill_count, 2);
    no_conflicts(&lsa);
}

#[test]
fn variables_are_live_from_first_to_last_use() {
    let instr = |vars: &[usize]| LvaInstr { vars: vars.iter().map(|n| var(*n)).collect(), written: None };
    let instrs = vec![instr(&[1, 2]), instr(&[]), instr(&[2, 3, 2]), instr(&[1]), instr(&[4])];
    assert_eq!(
        extents(&instrs),
        vec![
            Extent { var: var(1), first: 0, last: 3 },
            Extent { var: var(2), first: 0, last: 2 },
            Extent { var: var(3), first: 2, last: 2 },
            Extent { var: var(4), first: 4, last: 4 },
        ]
    );
    assert_eq!(var_id(lir::Operand::Imm(Tarval::Int(1))), None);
    assert_eq!(var_id(lir::Operand::Param { idx: 1 }), None);
    let slot = lir::SlotRef { block: 3, num: 4 };
    assert_eq!(var_id(lir::Operand::Slot(slot)), Some(VarId { block: 3, num: 4 }));
    assert_eq!(
        var_id(lir::Operand::Addr { base: slot, offset: 8 }),
        Some(VarId { block: 3, num: 4 })
    );
}

fn two_block_function() -> BlockGraph {
    let mut g = Graph::new(vec![]);
    let s = g.add_node(NodeKind::Start, Mode::T, 0, vec![]);
    let mem = g.add_node(NodeKind::Proj(PN_START_M), Mode::M, 0, vec![s]);
    let t_args = g.add_node(NodeKind::Proj(PN_START_T_ARGS), Mode::T, 0, vec![s]);
    let a = g.add_node(NodeKind::Proj(0), Mode::Is, 0, vec![t_args]);
    let b = g.add_node(NodeKind::Proj(1), Mode::Is, 0, vec![t_args]);
    let x = g.add_node(NodeKind::Add, Mode::Is, 0, vec![a, b]);
    let jmp = g.add_node(NodeKind::Jmp, Mode::X, 0, vec![]);
    let second = g.add_node(NodeKind::Block, Mode::BB, 0, vec![]);
    g.add_block_pred(second, jmp);
    let y = g.add_node(NodeKind::Mul, Mode::Is, second, vec![x, x]);
    let ret = g.add_node(NodeKind::Return, Mode::X, second, vec![mem, y]);
    g.add_block_pred(1, ret);
    BlockGraph::from_graph(g).unwrap()
}

#[test]
fn registers_are_allocated_for_a_function() {
    let graph = two_block_function();
    let lva = LiveVariableAnalysis::new(CallingConv::X86_64, &graph);
    // the walk leaves the end block first and the head last
    assert_eq!(graph.postorder(), vec![1, 2, 0]);
    assert_eq!(lva.order, vec![1, 2, 0]);
    assert_eq!(lva.ends, vec![0, 3, 5]);
    assert_eq!(lva.succs, vec![vec![], vec![0], vec![1]]);
    let vars: Vec<Vec<VarId>> = lva.instrs.iter().map(|i| i.vars.clone()).collect();
    let v = |block: usize, num: usize| VarId { block, num };
    assert_eq!(
        vars,
        vec![
            vec![v(0, 0), v(2, 0)],
            vec![v(2, 0), v(2, 0), v(2, 1)],
            vec![v(2, 1)],
            vec![v(0, 0)],
            vec![],
        ]
    );
    let f = Function::new(2, CallingConv::X86_64);
    let lsa = f.allocate_registers(&graph);
    let ranges: Vec<(VarId, usize, usize)> =
        lsa.var_live.iter().map(|r| (r.var_id, r.start(), r.end())).collect();
    assert_eq!(ranges, vec![(v(0, 0), 0, 3), (v(2, 0), 0, 1), (v(2, 1), 1, 2)]);
    assert_eq!(
        lsa.var_location,
        vec![
            (v(0, 0), Location::Reg(Amd64Reg::Rdi)),
            (v(2, 0), Location::Reg(Amd64Reg::Rsi)),
            (v(2, 1), Location::Reg(Amd64Reg::Rdx)),
        ]
    );
    no_conflicts(&lsa);
}

fn reg(r: Amd64Reg) -> Operand {
    Operand::Reg(r)
}

#[test]
fn the_frame_of_a_function() {
    let mut f = Function::new(3, CallingConv::X86_64);
    assert_eq!(
        f.prolog,
        vec![
            Instruction::Pushq { src: reg(Amd64Reg::Rbp) },
            Instruction::Movq {
                src: MoveOperand::Operand(reg(Amd64Reg::Rsp)),
                dst: MoveOperand::Operand(reg(Amd64Reg::Rbp)),
            },
        ]
    );
    assert_eq!(
        f.epilog,
        vec![
            Instruction::Movq {
                src: MoveOperand::Operand(reg(Amd64Reg::Rbp)),
                dst: MoveOperand::Operand(reg(Amd64Reg::Rsp)),
            },
            Instruction::Popq { dst: reg(Amd64Reg::Rbp) },
            Instruction::Ret,
        ]
    );
    f.save_callee_save_regs(9);
    assert!(f.save_regs.is_empty() && f.restore_regs.is_empty());
    f.save_callee_save_regs(12);
    assert_eq!(
        f.save_regs,
        vec![
            Instruction::Pushq { src: reg(Amd64Reg::Rbx) },
            Instruction::Pushq { src: reg(Amd64Reg::R12) },
            Instruction::Pushq { src: reg(Amd64Reg::R13) },
        ]
    );
    assert_eq!(
        f.restore_regs,
        vec![
            Instruction::Popq { dst: reg(Amd64Reg::Rbx) },
            Instruction::Popq { dst: reg(Amd64Reg::R12) },
            Instruction::Popq { dst: reg(Amd64Reg::R13) },
        ]
    );
    let mut all = Function::new(0, CallingConv::Stack);
    all.save_callee_save_regs(14);
    assert_eq!(all.save_regs.len(), 5);
    assert_eq!(all.save_regs[4], Instruction::Pushq { src: reg(Amd64Reg::R15) });
    f.allocate_stack(3);
    assert_eq!(
        f.allocate,
        Some(Instruction::Subq {
            src: Operand::LirOperand(lir::Operand::Imm(Tarval::Int(24))),
            dst: reg(Amd64Reg::Rsp),
        })
    );
    assert_eq!((f.nargs, f.cconv), (3, CallingConv::X86_64));
}

fn call(nargs: u32, dst: Option<lir::SlotRef>) -> lir::Instruction {
    lir::Instruction::Call {
        func: b"A.M.f".to_vec(),
        args: (0..nargs).map(|idx| lir::Operand::Param { idx }).collect(),
        dst,
    }
}

fn param(idx: u32) -> Operand {
    Operand::LirOperand(lir::Operand::Param { idx })
}

#[test]
fn a_call_with_eight_arguments() {
    let dst = lir::SlotRef { block: 1, num: 2 };
    let c = FunctionCall::new(CallingConv::X86_64, call(8, Some(dst)));
    assert_eq!(c.label, b"A.M.f".to_vec());
    let saved = [
        Amd64Reg::Rdi,
        Amd64Reg::Rsi,
        Amd64Reg::Rdx,
        Amd64Reg::Rcx,
        Amd64Reg::R8,
        Amd64Reg::R9,
        Amd64Reg::R10,
        Amd64Reg::R11,
        Amd64Reg::Rax,
    ];
    let pushes: Vec<FnInstruction> = saved.iter().map(|r| FnInstruction::Pushq { src: reg(*r) }).collect();
    let pops: Vec<FnInstruction> = saved.iter().map(|r| FnInstruction::Popq { dst: reg(*r) }).collect();
    assert_eq!(c.arg_save, pushes);
    assert_eq!(c.arg_recover, pops);
    let mut setup: Vec<FnInstruction> = (0..6)
        .map(|i| FnInstruction::Movq { src: param(i), dst: reg(saved[i as usize]) })
        .collect();
    setup.push(FnInstruction::Pushq { src: param(7) });
    setup.push(FnInstruction::Pushq { src: param(6) });
    assert_eq!(c.setup, setup);
    assert_eq!(
        c.recover,
        Some(FnInstruction::Addq { src: Tarval::Int(16), dst: reg(Amd64Reg::Rsp) })
    );
    assert_eq!(
        c.move_res,
        Some(FnInstruction::Movq {
            src: reg(Amd64Reg::Rax),
            dst: Operand::LirOperand(lir::Operand::Slot(dst)),
        })
    );
}

#[test]
fn a_call_with_few_arguments_leaves_the_stack_alone() {
    let c = FunctionCall::new(CallingConv::X86_64, call(2, None));
    assert_eq!(
        c.setup,
        vec![
            FnInstruction::Movq { src: param(0), dst: reg(Amd64Reg::Rdi) },
            FnInstruction::Movq { src: param(1), dst: reg(Amd64Reg::Rsi) },
        ]
    );
    assert_eq!(c.recover, None);
    assert_eq!(c.move_res, None);
    let six = FunctionCall::new(CallingConv::X86_64, call(6, None));
    assert_eq!(six.setup.len(), 6);
    assert_eq!(six.recover, None);
}

#[test]
fn a_call_with_all_arguments_on_the_stack() {
    let c = FunctionCall::new(CallingConv::Stack, call(3, None));
    assert_eq!(
        c.setup,
        vec![
            FnInstruction::Pushq { src: param(2) },
            FnInstruction::Pushq { src: param(1) },
            FnInstruction::Pushq { src: param(0) },
        ]
    );
    assert_eq!(
        c.recover,
        Some(FnInstruction::Addq { src: Tarval::Int(24), dst: reg(Amd64Reg::Rsp) })
    );
    assert_eq!(c.arg_save.len(), 9);
    let none = FunctionCall::new(CallingConv::Stack, call(0, None));
    assert!(none.setup.is_empty());
    assert_eq!(
        none.recover,
        Some(FnInstruction::Addq { src: Tarval::Int(0), dst: reg(Amd64Reg::Rsp) })
    );
    assert_eq!(Amd64Reg::arg(3), Amd64Reg::Rcx);
    assert_eq!(Amd64Reg::caller_save(8), Amd64Reg::Rax);
    assert_eq!(Amd64Reg::callee_save(4), Amd64Reg::R15);
}

#[test]
fn entities_get_their_names_and_places() {
    let mut st = StringTable::new();
    let a = st.intern(b"Foo");
    let flag = st.intern(b"flag");
    let count = st.intern(b"count");
    let next = st.intern(b"next");
    let get = st.intern(b"get");
    let main = st.intern(b"main");
    let ts = TypeSystem {
        defined_classes: vec![ClassDef {
            name: a,
            fields: vec![
                ClassFieldDef { name: flag, ty: CheckedType::Boolean },
                ClassFieldDef { name: count, ty: CheckedType::Int },
                ClassFieldDef { name: next, ty: CheckedType::TypeRef(a) },
            ],
            methods: vec![
                ClassMethodDef {
                    name: get,
                    params: vec![MethodParamDef { name: count, ty: CheckedType::Int }],
                    return_ty: CheckedType::Int,
                    is_static: false,
                    is_main: false,
                },
                ClassMethodDef {
                    name: main,
                    params: vec![MethodParamDef {
                        name: flag,
                        ty: CheckedType::Array(Box::new(CheckedType::TypeRef(a))),
                    }],
                    return_ty: CheckedType::Void,
                    is_static: true,
                    is_main: true,
                },
            ],
        }],
    };
    let p = ProgramGenerator::new(&ts, &st).generate();
    assert_eq!(p.classes.len(), 1);
    let c = &p.classes[0];
    assert_eq!(c.ld_name, b"Foo".to_vec());
    assert_eq!(p.entities[c.entity].kind, EntityKind::Class);
    let names: Vec<&[u8]> = c.fields.iter().map(|f| f.ld_name.as_slice()).collect();
    assert_eq!(names, vec![&b"Foo.F.flag"[..], &b"Foo.F.count"[..], &b"Foo.F.next"[..]]);
    let offsets: Vec<EntityKind> = c.fields.iter().map(|f| p.entities[f.entity].kind).collect();
    assert_eq!(
        offsets,
        vec![
            EntityKind::Field { offset: 0 },
            EntityKind::Field { offset: 4 },
            EntityKind::Field { offset: 8 },
        ]
    );
    assert_eq!(c.methods[0].ld_name, b"Foo.M.get".to_vec());
    assert_eq!(c.methods[1].ld_name, b"mj_main".to_vec());
    assert_eq!(p.entities[c.methods[0].entity].kind, EntityKind::Method { n_params: 2, n_res: 1 });
    assert_eq!(p.entities[c.methods[1].entity].kind, EntityKind::Method { n_params: 1, n_res: 0 });
    assert_eq!(p.entities[c.methods[1].entity].ld_name, b"mj_main".to_vec());
    assert!(c.methods[0].graph.is_none());
    // the entity of the class, then those of its fields, then those of
    // its methods
    assert_eq!(c.entity, 0);
    assert_eq!(c.fields.iter().map(|f| f.entity).collect::<Vec<usize>>(), vec![1, 2, 3]);
    assert_eq!(c.methods.iter().map(|m| m.entity).collect::<Vec<usize>>(), vec![4, 5]);
    assert_eq!(p.entities.len(), 6);
    assert_eq!(place_field(5, 8), (8, 16));
    assert_eq!(place_field(2147483646, 4), (2147483647, 2147483647));
    assert_eq!(size_of(&CheckedType::Null), 8);
    assert_eq!(concat3(b"a", b".", b"b"), b"a.b".to_vec());
}

#[test]
fn every_local_variable_gets_a_slot() {
    let p = Position { row: 0, col: 0, byte_offset: 0 };
    let sp = |s: Stmt| Spanned::new(Span::new(p, p), s);
    let int_ty = || Spanned::new(Span::new(p, p), Type { basic: BasicType::Int, array_depth: 0 });
    let decl = |id: usize| sp(Stmt::LocalVariableDeclaration(int_ty(), compiler_lib::strtab::Symbol { id }, None));
    let cond = || Box::new(Spanned::new(Span::new(p, p), Expr::Boolean(true)));
    let inner = Spanned::new(Span::new(p, p), Block { statements: vec![decl(1), sp(Stmt::Empty), decl(2)] });
    let body = Block {
        statements: vec![
            decl(0),
            sp(Stmt::While(cond(), Box::new(sp(Stmt::Block(inner))))),
            sp(Stmt::If(cond(), Box::new(decl(3)), Some(Box::new(decl(4))))),
            sp(Stmt::Return(None)),
        ],
    };
    let mut v = LocalVarDefVisitor::new();
    v.visit_block(&body);
    assert_eq!(v.count, 5);
    let method = |is_main: bool, nparams: usize| ClassMethodDef {
        name: compiler_lib::strtab::Symbol { id: 9 },
        params: (0..nparams)
            .map(|id| MethodParamDef { name: compiler_lib::strtab::Symbol { id }, ty: CheckedType::Int })
            .collect(),
        return_ty: CheckedType::Void,
        is_static: is_main,
        is_main,
    };
    assert_eq!(slot_count(&method(false, 2), &body), 8);
    assert_eq!(slot_count(&method(true, 1), &body), 6);
    assert_eq!(slot_count(&method(false, 0), &Block { statements: vec![] }), 1);
}

/// A block that writes variable 0, a loop of two blocks of which the
/// first reads variable 0 and the second writes and reads variable 1, and
/// a block behind the loop.
fn looping() -> LiveVariableAnalysis {
    let write = |n: usize| LvaInstr { vars: vec![var(n)], written: Some(var(n)) };
    let read = |n: usize| LvaInstr { vars: vec![var(n)], written: None };
    LiveVariableAnalysis {
        cconv: CallingConv::X86_64,
        order: vec![0, 1, 2, 3],
        instrs: vec![write(0), read(0), write(1), read(1), read(1)],
        ends: vec![1, 2, 4, 5],
        succs: vec![vec![1], vec![2, 3], vec![1], vec![]],
    }
}

#[test]
fn a_variable_is_live_where_its_value_is_still_needed() {
    let lva = looping();
    let blocks = Blocks { instrs: &lva.instrs, ends: &lva.ends, succs: &lva.succs };
    assert!(blocks.is_gen(1, var(0)));
    assert!(!blocks.is_gen(0, var(0)));
    assert!(blocks.is_kill(0, var(0)));
    assert!(!blocks.is_gen(2, var(1)));
    assert!(blocks.is_gen(3, var(1)));
    // variable 0 is live on entry of the loop and all through it;
    // variable 1 is live on entry of the block behind the loop, and so on
    // entry of the first block of the loop and of the second, which
    // writes it only behind
    let live = blocks.liveness(&vec![var(0), var(1)]);
    assert_eq!(
        live,
        vec![vec![false, true], vec![true, true], vec![true, false], vec![false, true]]
    );
    assert!(reads_var(&lva.instrs[1], var(0)));
    assert!(!reads_var(&lva.instrs[0], var(0)));
    assert!(writes_var(&lva.instrs[0], var(0)));
    assert_eq!(place_of(&lva.order, 2), Some(2));
    assert_eq!(place_of(&lva.order, 7), None);
}

#[test]
fn a_live_range_reaches_the_end_of_the_last_block_in_which_the_variable_is_live() {
    let ranges: Vec<(VarId, usize, usize)> =
        looping().run().iter().map(|r| (r.var_id, r.start(), r.end())).collect();
    // variable 0 is named last in the first block of the loop, and is
    // live to the end of the second; variable 1 is named last in the last
    // block
    assert_eq!(ranges, vec![(var(0), 0, 3), (var(1), 2, 4)]);
}
