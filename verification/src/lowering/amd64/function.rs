//! The frame of a function and the code around a call.
use super::{
    arg_regs, callee_save_regs, caller_save_regs, Amd64Reg, CallingConv, Instruction, MoveOperand,
    Operand,
};
use super::linear_scan::{allocated, pool, LinearScanAllocator, Location};
use super::live_variable_analysis::LiveVariableAnalysis;
use crate::firm::graph::Tarval;
use crate::lowering::lir;
use vstd::prelude::*;

verus! {

/// An instruction of the code around a call.
#[derive(Debug, Copy, Clone, PartialEq, Eq, Structural)]
pub enum FnInstruction {
    Movq { src: Operand, dst: Operand },
    Pushq { src: Operand },
    Popq { dst: Operand },
    Addq { src: Tarval, dst: Operand },
}

/// The code around a call.
#[derive(Debug, Clone)]
pub struct FunctionCall {
    /// Saves the registers that the call may overwrite.
    pub arg_save: Vec<FnInstruction>,
    /// Puts the arguments where they belong.
    pub setup: Vec<FnInstruction>,
    /// The name of the function that is called.
    pub label: Vec<u8>,
    /// Moves the result, if one is produced, to where it is wanted.
    pub move_res: Option<FnInstruction>,
    /// Resets the stack pointer if arguments were put on the stack.
    pub recover: Option<FnInstruction>,
    /// Gets the saved registers back.
    pub arg_recover: Vec<FnInstruction>,
}

/// The pushes of the registers `regs`, in order.
pub open spec fn pushes(regs: Seq<Amd64Reg>) -> Seq<FnInstruction> {
    Seq::new(regs.len(), |i: int| FnInstruction::Pushq { src: Operand::Reg(regs[i]) })
}

/// The pops of the registers `regs`, in order.
pub open spec fn pops(regs: Seq<Amd64Reg>) -> Seq<FnInstruction> {
    Seq::new(regs.len(), |i: int| FnInstruction::Popq { dst: Operand::Reg(regs[i]) })
}

/// The moves of the first `upto` arguments, six at most, into the
/// registers for arguments.
pub open spec fn reg_moves(args: Seq<lir::Operand>, upto: int) -> Seq<FnInstruction> {
    Seq::new(
        upto as nat,
        |i: int|
            FnInstruction::Movq { src: Operand::LirOperand(args[i]), dst: Operand::Reg(arg_regs()[i]) },
    )
}

/// The pushes of the arguments `args[from..]`, the last argument first.
pub open spec fn stack_pushes(args: Seq<lir::Operand>, from: int) -> Seq<FnInstruction> {
    Seq::new(
        (args.len() - from) as nat,
        |i: int| FnInstruction::Pushq { src: Operand::LirOperand(args[args.len() - 1 - i]) },
    )
}

/// The instruction that takes `n` arguments off the stack again.
pub open spec fn stack_reset(n: int) -> FnInstruction {
    FnInstruction::Addq { src: Tarval::Int((n * 8) as i64), dst: Operand::Reg(Amd64Reg::Rsp) }
}

/// The move of the result of a call into the pseudo-register that takes
/// it, if one does.
pub open spec fn result_move(dst: Option<lir::SlotRef>) -> Option<FnInstruction> {
    match dst {
        Some(d) => Some(
            FnInstruction::Movq {
                src: Operand::Reg(Amd64Reg::Rax),
                dst: Operand::LirOperand(lir::Operand::Slot(d)),
            },
        ),
        None => None,
    }
}

/// The number of arguments that are passed in registers when there are
/// `n` arguments.
pub open spec fn in_regs(n: int) -> int {
    if n < 6 {
        n
    } else {
        6
    }
}

impl FunctionCall {
    /// The code around the call `call_instr` under the calling convention
    /// `cconv`: the caller-save registers are saved and restored around
    /// the call, the arguments are put into registers or on the stack,
    /// the stack is reset behind the call, and the result is moved out of
    /// `Rax`.
    pub fn new(cconv: CallingConv, call_instr: lir::Instruction) -> (call: Self)
        requires
            call_instr is Call,
            call_instr->args@.len() * 8 <= i64::MAX,
        ensures
            call.label@ == call_instr->func@,
            call.arg_save@ == pushes(caller_save_regs()),
            call.arg_recover@ == pops(caller_save_regs()),
            call.move_res == result_move(call_instr->Call_dst),
            cconv == CallingConv::X86_64 ==> {
                let args = call_instr->args@;
                &&& call.setup@ == reg_moves(args, in_regs(args.len() as int)) + stack_pushes(
                    args,
                    in_regs(args.len() as int),
                )
                &&& call.recover == (if args.len() > 6 {
                    Some(stack_reset(args.len() - 6))
                } else {
                    None
                })
            },
            cconv == CallingConv::Stack ==> {
                let args = call_instr->args@;
                &&& call.setup@ == stack_pushes(args, 0)
                &&& call.recover == Some(stack_reset(args.len() as int))
            },
    {
        let mut call = FunctionCall {
            arg_save: Vec::new(),
            setup: Vec::new(),
            label: Vec::new(),
            move_res: None,
            recover: None,
            arg_recover: Vec::new(),
        };
        match cconv {
            CallingConv::X86_64 => call.setup_x86_64_cconv(call_instr),
            CallingConv::Stack => call.setup_stack_cconv(call_instr),
        }
        call
    }

    /// Saves and restores the caller-save registers.
    fn save_caller_save_regs(&mut self)
        ensures
            final(self).arg_save@ == old(self).arg_save@ + pushes(caller_save_regs()),
            final(self).arg_recover@ == old(self).arg_recover@ + pops(caller_save_regs()),
            final(self).setup == old(self).setup,
            final(self).label == old(self).label,
            final(self).move_res == old(self).move_res,
            final(self).recover == old(self).recover,
    {
        let mut i: usize = 0;
        while i < 9
            invariant
                i <= 9,
                self.arg_save@ == old(self).arg_save@ + pushes(caller_save_regs()).subrange(
                    0,
                    i as int,
                ),
                self.arg_recover@ == old(self).arg_recover@ + pops(caller_save_regs()).subrange(
                    0,
                    i as int,
                ),
                self.setup == old(self).setup,
                self.label == old(self).label,
                self.move_res == old(self).move_res,
                self.recover == old(self).recover,
            decreases 9 - i,
        {
            let reg = Amd64Reg::caller_save(i);
            self.arg_save.push(FnInstruction::Pushq { src: Operand::Reg(reg) });
            self.arg_recover.push(FnInstruction::Popq { dst: Operand::Reg(reg) });
            assert(self.arg_save@ =~= old(self).arg_save@ + pushes(caller_save_regs()).subrange(
                0,
                i + 1,
            ));
            assert(self.arg_recover@ =~= old(self).arg_recover@ + pops(
                caller_save_regs(),
            ).subrange(0, i + 1));
            i += 1;
        }
        assert(pushes(caller_save_regs()).subrange(0, 9) =~= pushes(caller_save_regs()));
        assert(pops(caller_save_regs()).subrange(0, 9) =~= pops(caller_save_regs()));
    }

    /// Pushes the arguments `args[from..]`, the last argument first.
    fn push_args(&mut self, args: &Vec<lir::Operand>, from: usize)
        requires
            from <= args@.len(),
        ensures
            final(self).setup@ == old(self).setup@ + stack_pushes(args@, from as int),
            final(self).arg_save == old(self).arg_save,
            final(self).arg_recover == old(self).arg_recover,
            final(self).label == old(self).label,
            final(self).move_res == old(self).move_res,
            final(self).recover == old(self).recover,
    {
        let mut i: usize = args.len();
        while i > from
            invariant
                from <= i <= args@.len(),
                self.setup@ == old(self).setup@ + stack_pushes(args@, from as int).subrange(
                    0,
                    args@.len() - i,
                ),
                self.arg_save == old(self).arg_save,
                self.arg_recover == old(self).arg_recover,
                self.label == old(self).label,
                self.move_res == old(self).move_res,
                self.recover == old(self).recover,
            decreases i,
        {
            i -= 1;
            self.setup.push(FnInstruction::Pushq { src: Operand::LirOperand(args[i]) });
            assert(self.setup@ =~= old(self).setup@ + stack_pushes(args@, from as int).subrange(
                0,
                args@.len() - i,
            ));
        }
        assert(stack_pushes(args@, from as int).subrange(0, args@.len() - from) =~= stack_pushes(
            args@,
            from as int,
        ));
    }

    /// Sets the call up for the calling convention of x86-64.
    pub fn setup_x86_64_cconv(&mut self, call: lir::Instruction)
        requires
            call is Call,
            call->args@.len() * 8 <= i64::MAX,
        ensures
            final(self).label@ == call->func@,
            final(self).arg_save@ == old(self).arg_save@ + pushes(caller_save_regs()),
            final(self).arg_recover@ == old(self).arg_recover@ + pops(caller_save_regs()),
            final(self).move_res == result_move(call->Call_dst),
            final(self).setup@ == old(self).setup@ + reg_moves(
                call->args@,
                in_regs(call->args@.len() as int),
            ) + stack_pushes(call->args@, in_regs(call->args@.len() as int)),
            final(self).recover == (if call->args@.len() > 6 {
                Some(stack_reset(call->args@.len() - 6))
            } else {
                old(self).recover
            }),
    {
        match call {
            lir::Instruction::Call { func, args, dst } => {
                self.label = func;
                self.save_caller_save_regs();
                let in_regs = if args.len() < 6 {
                    args.len()
                } else {
                    6
                };
                let mut i: usize = 0;
                assert(self.setup@ =~= old(self).setup@ + reg_moves(args@, 0));
                while i < in_regs
                    invariant
                        i <= in_regs <= 6,
                        in_regs <= args@.len(),
                        self.setup@ == old(self).setup@ + reg_moves(args@, i as int),
                        self.arg_save@ == old(self).arg_save@ + pushes(caller_save_regs()),
                        self.arg_recover@ == old(self).arg_recover@ + pops(caller_save_regs()),
                        self.label@ == func@,
                        self.recover == old(self).recover,
                    decreases in_regs - i,
                {
                    self.setup.push(
                        FnInstruction::Movq {
                            src: Operand::LirOperand(args[i]),
                            dst: Operand::Reg(Amd64Reg::arg(i)),
                        },
                    );
                    assert(self.setup@ =~= old(self).setup@ + reg_moves(args@, i + 1));
                    i += 1;
                }
                self.push_args(&args, in_regs);
                if args.len() > 6 {
                    let pushed = args.len() - 6;
                    self.recover = Some(
                        FnInstruction::Addq {
                            src: Tarval::mj_int((pushed as i64) * 8),
                            dst: Operand::Reg(Amd64Reg::Rsp),
                        },
                    );
                }
                self.move_res = match dst {
                    Some(d) => Some(
                        FnInstruction::Movq {
                            src: Operand::Reg(Amd64Reg::Rax),
                            dst: Operand::LirOperand(lir::Operand::Slot(d)),
                        },
                    ),
                    None => None,
                };
            },
            _ => {},
        }
    }

    /// Sets the call up for the calling convention that passes all
    /// arguments on the stack.
    pub fn setup_stack_cconv(&mut self, call: lir::Instruction)
        requires
            call is Call,
            (old(self).setup@.len() + call->args@.len()) * 8 <= i64::MAX,
        ensures
            final(self).label@ == call->func@,
            final(self).arg_save@ == old(self).arg_save@ + pushes(caller_save_regs()),
            final(self).arg_recover@ == old(self).arg_recover@ + pops(caller_save_regs()),
            final(self).move_res == result_move(call->Call_dst),
            final(self).setup@ == old(self).setup@ + stack_pushes(call->args@, 0),
            final(self).recover == Some(
                stack_reset((old(self).setup@.len() + call->args@.len()) as int),
            ),
    {
        match call {
            lir::Instruction::Call { func, args, dst } => {
                self.label = func;
                self.save_caller_save_regs();
                self.push_args(&args, 0);
                let pushed = self.setup.len();
                self.recover = Some(
                    FnInstruction::Addq {
                        src: Tarval::mj_int((pushed as i64) * 8),
                        dst: Operand::Reg(Amd64Reg::Rsp),
                    },
                );
                self.move_res = match dst {
                    Some(d) => Some(
                        FnInstruction::Movq {
                            src: Operand::Reg(Amd64Reg::Rax),
                            dst: Operand::LirOperand(lir::Operand::Slot(d)),
                        },
                    ),
                    None => None,
                };
            },
            _ => {},
        }
    }
}

/// The frame of a function: what stands before and behind its code.
pub struct Function {
    /// The number of arguments.
    pub nargs: usize,
    pub cconv: CallingConv,
    /// Sets the frame up.
    pub prolog: Vec<Instruction>,
    /// Saves the callee-save registers that the function uses.
    pub save_regs: Vec<Instruction>,
    /// Makes room on the stack.
    pub allocate: Option<Instruction>,
    /// Restores the callee-save registers that the function uses.
    pub restore_regs: Vec<Instruction>,
    /// Takes the frame down and returns.
    pub epilog: Vec<Instruction>,
}

/// The instructions that set a frame up: the base pointer of the caller
/// is saved, and the stack pointer becomes the base pointer.
pub open spec fn spec_prolog() -> Seq<Instruction> {
    seq![
        Instruction::Pushq { src: Operand::Reg(Amd64Reg::Rbp) },
        Instruction::Movq {
            src: MoveOperand::Operand(Operand::Reg(Amd64Reg::Rsp)),
            dst: MoveOperand::Operand(Operand::Reg(Amd64Reg::Rbp)),
        },
    ]
}

/// The instructions that take a frame down: the reverse of setting it up,
/// and the return.
pub open spec fn spec_epilog() -> Seq<Instruction> {
    seq![
        Instruction::Movq {
            src: MoveOperand::Operand(Operand::Reg(Amd64Reg::Rbp)),
            dst: MoveOperand::Operand(Operand::Reg(Amd64Reg::Rsp)),
        },
        Instruction::Popq { dst: Operand::Reg(Amd64Reg::Rbp) },
        Instruction::Ret,
    ]
}

/// The number of callee-save registers that a function needs which needs
/// `num_regs_required` registers in all: the nine caller-save registers
/// come first.
pub open spec fn callee_saves_needed(num_regs_required: int) -> int {
    if num_regs_required < 10 {
        0
    } else {
        num_regs_required - 9
    }
}

/// The pushes of the first `n` callee-save registers.
pub open spec fn callee_pushes(n: int) -> Seq<Instruction> {
    Seq::new(n as nat, |i: int| Instruction::Pushq { src: Operand::Reg(callee_save_regs()[i]) })
}

/// The pops of the first `n` callee-save registers.
pub open spec fn callee_pops(n: int) -> Seq<Instruction> {
    Seq::new(n as nat, |i: int| Instruction::Popq { dst: Operand::Reg(callee_save_regs()[i]) })
}

impl Function {
    /// The frame of a function with `nargs` arguments: it saves and
    /// restores the base pointer, and returns.
    pub fn new(nargs: usize, cconv: CallingConv) -> (f: Self)
        ensures
            f.nargs == nargs,
            f.cconv == cconv,
            f.prolog@ == spec_prolog(),
            f.epilog@ == spec_epilog(),
            f.save_regs@.len() == 0,
            f.restore_regs@.len() == 0,
            f.allocate is None,
    {
        let mut function = Self {
            nargs,
            cconv,
            prolog: Vec::new(),
            save_regs: Vec::new(),
            allocate: None,
            restore_regs: Vec::new(),
            epilog: Vec::new(),
        };
        function.prolog.push(Instruction::Pushq { src: Operand::Reg(Amd64Reg::Rbp) });
        function.prolog.push(
            Instruction::Movq {
                src: MoveOperand::Operand(Operand::Reg(Amd64Reg::Rsp)),
                dst: MoveOperand::Operand(Operand::Reg(Amd64Reg::Rbp)),
            },
        );
        function.epilog.push(
            Instruction::Movq {
                src: MoveOperand::Operand(Operand::Reg(Amd64Reg::Rbp)),
                dst: MoveOperand::Operand(Operand::Reg(Amd64Reg::Rsp)),
            },
        );
        function.epilog.push(Instruction::Popq { dst: Operand::Reg(Amd64Reg::Rbp) });
        function.epilog.push(Instruction::Ret);
        assert(function.prolog@ =~= spec_prolog());
        assert(function.epilog@ =~= spec_epilog());
        function
    }

    /// Makes room on the stack for `slots` values of eight bytes.
    pub fn allocate_stack(&mut self, slots: usize)
        requires
            slots * 8 <= i64::MAX,
        ensures
            final(self).allocate == Some(
                Instruction::Subq {
                    src: Operand::LirOperand(lir::Operand::Imm(Tarval::Int((8 * slots) as i64))),
                    dst: Operand::Reg(Amd64Reg::Rsp),
                },
            ),
            final(self).nargs == old(self).nargs,
            final(self).cconv == old(self).cconv,
            final(self).prolog == old(self).prolog,
            final(self).save_regs == old(self).save_regs,
            final(self).restore_regs == old(self).restore_regs,
            final(self).epilog == old(self).epilog,
    {
        self.allocate = Some(
            Instruction::Subq {
                src: Operand::LirOperand(lir::Operand::Imm(Tarval::mj_int(8 * (slots as i64)))),
                dst: Operand::Reg(Amd64Reg::Rsp),
            },
        );
    }

    /// Saves and restores the callee-save registers that a function needs
    /// which needs `num_regs_required` registers in all, the registers
    /// for arguments included. There are nine caller-save registers, so
    /// up to nine nothing is saved; there are five callee-save registers
    /// besides, so more than fourteen cannot be had.
    pub fn save_callee_save_regs(&mut self, num_regs_required: usize)
        requires
            num_regs_required <= 14,
        ensures
            final(self).save_regs@ == old(self).save_regs@ + callee_pushes(
                callee_saves_needed(num_regs_required as int),
            ),
            final(self).restore_regs@ == old(self).restore_regs@ + callee_pops(
                callee_saves_needed(num_regs_required as int),
            ),
            final(self).nargs == old(self).nargs,
            final(self).cconv == old(self).cconv,
            final(self).prolog == old(self).prolog,
            final(self).allocate == old(self).allocate,
            final(self).epilog == old(self).epilog,
    {
        let needed = if num_regs_required < 10 {
            0
        } else {
            num_regs_required - 9
        };
        let mut i: usize = 0;
        assert(self.save_regs@ =~= old(self).save_regs@ + callee_pushes(0));
        assert(self.restore_regs@ =~= old(self).restore_regs@ + callee_pops(0));
        while i < needed
            invariant
                i <= needed <= 5,
                self.save_regs@ == old(self).save_regs@ + callee_pushes(i as int),
                self.restore_regs@ == old(self).restore_regs@ + callee_pops(i as int),
                self.nargs == old(self).nargs,
                self.cconv == old(self).cconv,
                self.prolog == old(self).prolog,
                self.allocate == old(self).allocate,
                self.epilog == old(self).epilog,
            decreases needed - i,
        {
            let reg = Amd64Reg::callee_save(i);
            self.save_regs.push(Instruction::Pushq { src: Operand::Reg(reg) });
            self.restore_regs.push(Instruction::Popq { dst: Operand::Reg(reg) });
            assert(self.save_regs@ =~= old(self).save_regs@ + callee_pushes(i + 1));
            assert(self.restore_regs@ =~= old(self).restore_regs@ + callee_pops(i + 1));
            i += 1;
        }
    }
}


impl Function {
    /// An allocator for the live ranges of the variables of the
    /// instructions: each variable is live from the first instruction
    /// that reads or writes it to the last one that does, or to the end
    /// of the last block in which it is live where that lies behind.
    pub fn build_lsa(&self, lva: LiveVariableAnalysis) -> (lsa: LinearScanAllocator)
        requires
            lva.wf(),
        ensures
            lva.ranges_ok(lsa.var_live@),
            forall|a: int| 0 <= a < lsa.var_live@.len() ==> (#[trigger] lsa.var_live@[a]).wf(),
            lsa.var_location@.len() == 0,
    {
        LinearScanAllocator::new(lva.run())
    }

    /// Allocates registers for the pseudo-registers of the function with
    /// the graph `graph`: the blocks that can be reached are laid out,
    /// the live ranges of the pseudo-registers are taken from the
    /// instructions, and every pseudo-register gets a register or a place
    /// on the stack. No two pseudo-registers that are live at one
    /// instruction are kept in one register, and no two in one place on
    /// the stack.
    pub fn allocate_registers(&self, graph: &lir::BlockGraph) -> (lsa: LinearScanAllocator)
        requires
            graph.wf(),
        ensures
            exists|lva: LiveVariableAnalysis|
                lva.laid_out(graph) && #[trigger] lva.ranges_ok(lsa.var_live@),
            lsa.var_location@.len() == lsa.var_live@.len(),
            forall|i: int|
                0 <= i < lsa.var_live@.len() ==> (#[trigger] lsa.var_location@[i]).0
                    == lsa.var_live@[i].var_id,
            forall|i: int, j: int|
                0 <= i < lsa.var_live@.len() && 0 <= j < lsa.var_live@.len() && i != j && (
                #[trigger] lsa.var_location@[i]).1 is Reg && (#[trigger] lsa.var_location@[j]).1
                    == lsa.var_location@[i].1 ==> lsa.var_live@[i].points().disjoint(
                    lsa.var_live@[j].points(),
                ),
            forall|i: int, j: int|
                0 <= i < lsa.var_live@.len() && 0 <= j < lsa.var_live@.len() && i != j && (
                #[trigger] lsa.var_location@[i]).1 is Stack ==> (#[trigger] lsa.var_location@[j]).1
                    != lsa.var_location@[i].1,
            lsa.num_regs_required <= 14,
            forall|i: int|
                0 <= i < lsa.var_location@.len() ==> match (#[trigger] lsa.var_location@[i]).1 {
                    Location::Reg(r) => exists|p: int|
                        0 <= p < lsa.num_regs_required && pool()[p] == r,
                    Location::Stack(s) => s < lsa.spill_count,
                },
            allocated(lsa.var_live@, lsa.var_location@, lsa.num_regs_required, lsa.spill_count),
    {
        let lva = LiveVariableAnalysis::new(self.cconv, graph);
        let ghost laid = lva;
        let mut lsa = self.build_lsa(lva);
        lsa.run();
        assert(laid.laid_out(graph) && laid.ranges_ok(lsa.var_live@));
        lsa
    }
}

} // verus!
