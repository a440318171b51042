//! Code generation for x86-64: registers, the calling convention, the
//! frame of a function, and register allocation.
use super::lir;
use vstd::prelude::*;

pub mod function;
pub mod linear_scan;
pub mod live_variable_analysis;
pub mod liveness;

verus! {

/// The general purpose registers.
#[derive(Debug, Copy, Clone, PartialEq, Eq, Structural, Hash)]
pub enum Amd64Reg {
    Rax,
    Rbx,
    Rcx,
    Rdx,
    Rsi,
    Rdi,
    Rbp,
    Rsp,
    R8,
    R9,
    R10,
    R11,
    R12,
    R13,
    R14,
    R15,
}

/// The registers in which the first six arguments of a call are passed,
/// in order.
pub open spec fn arg_regs() -> Seq<Amd64Reg> {
    seq![
        Amd64Reg::Rdi,
        Amd64Reg::Rsi,
        Amd64Reg::Rdx,
        Amd64Reg::Rcx,
        Amd64Reg::R8,
        Amd64Reg::R9,
    ]
}

/// The registers that a call may overwrite, in the order in which they
/// are saved around a call.
pub open spec fn caller_save_regs() -> Seq<Amd64Reg> {
    seq![
        Amd64Reg::Rdi,
        Amd64Reg::Rsi,
        Amd64Reg::Rdx,
        Amd64Reg::Rcx,
        Amd64Reg::R8,
        Amd64Reg::R9,
        Amd64Reg::R10,
        Amd64Reg::R11,
        Amd64Reg::Rax,
    ]
}

/// The registers that a function has to restore before it returns, in the
/// order in which the register allocator takes them. The base pointer is
/// such a register too, but it is never allocated.
pub open spec fn callee_save_regs() -> Seq<Amd64Reg> {
    seq![Amd64Reg::Rbx, Amd64Reg::R12, Amd64Reg::R13, Amd64Reg::R14, Amd64Reg::R15]
}

impl Amd64Reg {
    /// The register in which argument number `i` of a call is passed.
    pub fn arg(i: usize) -> (r: Amd64Reg)
        requires
            i < 6,
        ensures
            r == arg_regs()[i as int],
    {
        if i == 0 {
            Amd64Reg::Rdi
        } else if i == 1 {
            Amd64Reg::Rsi
        } else if i == 2 {
            Amd64Reg::Rdx
        } else if i == 3 {
            Amd64Reg::Rcx
        } else if i == 4 {
            Amd64Reg::R8
        } else {
            Amd64Reg::R9
        }
    }

    /// Caller-save register number `i`.
    pub fn caller_save(i: usize) -> (r: Amd64Reg)
        requires
            i < 9,
        ensures
            r == caller_save_regs()[i as int],
    {
        if i < 6 {
            Amd64Reg::arg(i)
        } else if i == 6 {
            Amd64Reg::R10
        } else if i == 7 {
            Amd64Reg::R11
        } else {
            Amd64Reg::Rax
        }
    }

    /// Callee-save register number `i`.
    pub fn callee_save(i: usize) -> (r: Amd64Reg)
        requires
            i < 5,
        ensures
            r == callee_save_regs()[i as int],
    {
        if i == 0 {
            Amd64Reg::Rbx
        } else if i == 1 {
            Amd64Reg::R12
        } else if i == 2 {
            Amd64Reg::R13
        } else if i == 3 {
            Amd64Reg::R14
        } else {
            Amd64Reg::R15
        }
    }
}

/// How arguments are passed to a function.
#[derive(Debug, Copy, Clone, PartialEq, Eq, Structural)]
pub enum CallingConv {
    /// All arguments on the stack.
    Stack,
    /// The first six arguments in registers, the others on the stack.
    X86_64,
}

/// What an instruction reads or writes: an operand of the low-level
/// representation, or a register.
#[derive(Debug, Copy, Clone, PartialEq, Eq, Structural)]
pub enum Operand {
    LirOperand(lir::Operand),
    Reg(Amd64Reg),
}

/// What a move reads or writes.
#[derive(Debug, Copy, Clone, PartialEq, Eq, Structural)]
pub enum MoveOperand {
    Operand(Operand),
    Addr(lir::AddressComputation),
}

/// An instruction of the frame of a function.
#[derive(Debug, Copy, Clone, PartialEq, Eq, Structural)]
pub enum Instruction {
    Movq { src: MoveOperand, dst: MoveOperand },
    Pushq { src: Operand },
    Popq { dst: Operand },
    Subq { src: Operand, dst: Operand },
    Addq { src: Operand, dst: Operand },
    Ret,
}

/// A variable of register allocation: a pseudo-register, named by its
/// block and its number there.
#[derive(Debug, Copy, Clone, PartialEq, Eq, Structural, Hash)]
pub struct VarId {
    pub block: usize,
    pub num: usize,
}

/// The variable that an operand stands for, if it stands for one.
pub open spec fn spec_var_id(op: lir::Operand) -> Option<VarId> {
    match op {
        lir::Operand::Slot(s) => Some(VarId { block: s.block, num: s.num }),
        lir::Operand::Addr { base, .. } => Some(VarId { block: base.block, num: base.num }),
        _ => None,
    }
}

/// The variable that an operand stands for, if it stands for one.
pub fn var_id(op: lir::Operand) -> (r: Option<VarId>)
    ensures
        r == spec_var_id(op),
{
    match op {
        lir::Operand::Slot(s) => Some(VarId { block: s.block, num: s.num }),
        lir::Operand::Addr { base, .. } => Some(VarId { block: base.block, num: base.num }),
        _ => None,
    }
}

} // verus!
