//! The instruction set of the register machine and its mathematical model.

use vstd::prelude::*;
use crate::ids::{FunctionId, InstructionId, RegisterId};

verus! {

/// One of the eight binary operations. Each exists in an integer and in a
/// floating-point form, and the form is chosen when the instruction is built.
#[derive(Clone, Copy, Debug, PartialEq, Eq, Structural)]
pub enum Operation {
    Add,
    Sub,
    Mul,
    Div,
    Lt,
    Lte,
    Gt,
    Gte,
}

impl Operation {
    /// Whether the operation yields a boolean rather than a number.
    pub open spec fn is_comparison(self) -> bool {
        self is Lt || self is Lte || self is Gt || self is Gte
    }

    /// Tells comparisons from arithmetic.
    pub fn compares(&self) -> (r: bool)
        ensures
            r == self.is_comparison(),
    {
        match self {
            Operation::Lt | Operation::Lte | Operation::Gt | Operation::Gte => true,
            _ => false,
        }
    }
}

/// One instruction of the bytecode. Registers are named by index; branch
/// targets are absolute positions in the instruction sequence.
#[derive(Debug)]
pub enum Instruction {
    IADD { lhs: RegisterId, rhs: RegisterId, target: RegisterId },
    ISUB { lhs: RegisterId, rhs: RegisterId, target: RegisterId },
    IMUL { lhs: RegisterId, rhs: RegisterId, target: RegisterId },
    IDIV { lhs: RegisterId, rhs: RegisterId, target: RegisterId },
    ILT { lhs: RegisterId, rhs: RegisterId, target: RegisterId },
    ILTE { lhs: RegisterId, rhs: RegisterId, target: RegisterId },
    IGT { lhs: RegisterId, rhs: RegisterId, target: RegisterId },
    IGTE { lhs: RegisterId, rhs: RegisterId, target: RegisterId },
    FADD { lhs: RegisterId, rhs: RegisterId, target: RegisterId },
    FSUB { lhs: RegisterId, rhs: RegisterId, target: RegisterId },
    FMUL { lhs: RegisterId, rhs: RegisterId, target: RegisterId },
    FDIV { lhs: RegisterId, rhs: RegisterId, target: RegisterId },
    FLT { lhs: RegisterId, rhs: RegisterId, target: RegisterId },
    FLTE { lhs: RegisterId, rhs: RegisterId, target: RegisterId },
    FGT { lhs: RegisterId, rhs: RegisterId, target: RegisterId },
    FGTE { lhs: RegisterId, rhs: RegisterId, target: RegisterId },
    /// Copies the payload of `source` into `target`.
    MOV { target: RegisterId, source: RegisterId },
    /// Continues at `then_branch` if the payload of `condition` is not zero,
    /// at `else_branch` otherwise.
    BRIF { condition: RegisterId, then_branch: InstructionId, else_branch: InstructionId },
    /// Continues at the given position.
    JMP(InstructionId),
    /// Calls function `head` on the registers `args` and stores what it
    /// returns in `target`.
    EXTERNALCALL { head: FunctionId, args: Vec<RegisterId>, target: RegisterId },
}

/// The model of an instruction: the sixteen binary instructions are an
/// operation in one of two forms, and a call names its arguments by a
/// sequence.
pub enum Op {
    Int { op: Operation, lhs: RegisterId, rhs: RegisterId, target: RegisterId },
    Float { op: Operation, lhs: RegisterId, rhs: RegisterId, target: RegisterId },
    Mov { target: RegisterId, source: RegisterId },
    Brif { condition: RegisterId, then_branch: InstructionId, else_branch: InstructionId },
    Jmp { location: InstructionId },
    Call { head: FunctionId, args: Seq<RegisterId>, target: RegisterId },
}

impl Op {
    /// Whether every register the instruction names has an index below `count`.
    pub open spec fn registers_below(self, count: nat) -> bool {
        match self {
            Op::Int { lhs, rhs, target, .. } | Op::Float { lhs, rhs, target, .. } => {
                lhs.0 < count && rhs.0 < count && target.0 < count
            },
            Op::Mov { target, source } => target.0 < count && source.0 < count,
            Op::Brif { condition, .. } => condition.0 < count,
            Op::Jmp { .. } => true,
            Op::Call { args, target, .. } => {
                &&& target.0 < count
                &&& forall|i: int| 0 <= i < args.len() ==> (#[trigger] args[i]).0 < count
            },
        }
    }

    /// An instruction whose registers lie below `count` has them below any
    /// larger count as well.
    pub proof fn lemma_registers_below_grows(self, count: nat, larger: nat)
        requires
            self.registers_below(count),
            count <= larger,
        ensures
            self.registers_below(larger),
    {
    }

    /// Whether the instruction names register `r`, as an operand or as the
    /// register that it stores into.
    pub open spec fn names(self, r: RegisterId) -> bool {
        match self {
            Op::Int { lhs, rhs, target, .. } | Op::Float { lhs, rhs, target, .. } => {
                r == lhs || r == rhs || r == target
            },
            Op::Mov { target, source } => r == target || r == source,
            Op::Brif { condition, .. } => r == condition,
            Op::Jmp { .. } => false,
            Op::Call { args, target, .. } => r == target || args.contains(r),
        }
    }

    /// The register that the instruction stores into, if it stores.
    pub open spec fn target(self) -> Option<RegisterId> {
        match self {
            Op::Int { target, .. } | Op::Float { target, .. } => Some(target),
            Op::Mov { target, .. } => Some(target),
            Op::Call { target, .. } => Some(target),
            Op::Brif { .. } | Op::Jmp { .. } => None,
        }
    }

    /// Whether the instruction, at position `at`, branches only to positions
    /// of a stretch of code from `low` up to and including its end `high`: a
    /// conditional branch forward, past itself, and a jump to anywhere in the
    /// stretch. An instruction that does not branch meets this everywhere.
    pub open spec fn branches_within(self, at: int, low: int, high: int) -> bool {
        match self {
            Op::Brif { then_branch, else_branch, .. } => {
                &&& at < then_branch.0 <= high
                &&& at < else_branch.0 <= high
            },
            Op::Jmp { location } => low <= location.0 <= high,
            _ => true,
        }
    }
}

impl View for Instruction {
    type V = Op;

    open spec fn view(&self) -> Op {
        match *self {
            Instruction::IADD { lhs, rhs, target } => Op::Int { op: Operation::Add, lhs, rhs, target },
            Instruction::ISUB { lhs, rhs, target } => Op::Int { op: Operation::Sub, lhs, rhs, target },
            Instruction::IMUL { lhs, rhs, target } => Op::Int { op: Operation::Mul, lhs, rhs, target },
            Instruction::IDIV { lhs, rhs, target } => Op::Int { op: Operation::Div, lhs, rhs, target },
            Instruction::ILT { lhs, rhs, target } => Op::Int { op: Operation::Lt, lhs, rhs, target },
            Instruction::ILTE { lhs, rhs, target } => Op::Int { op: Operation::Lte, lhs, rhs, target },
            Instruction::IGT { lhs, rhs, target } => Op::Int { op: Operation::Gt, lhs, rhs, target },
            Instruction::IGTE { lhs, rhs, target } => Op::Int { op: Operation::Gte, lhs, rhs, target },
            Instruction::FADD { lhs, rhs, target } => Op::Float { op: Operation::Add, lhs, rhs, target },
            Instruction::FSUB { lhs, rhs, target } => Op::Float { op: Operation::Sub, lhs, rhs, target },
            Instruction::FMUL { lhs, rhs, target } => Op::Float { op: Operation::Mul, lhs, rhs, target },
            Instruction::FDIV { lhs, rhs, target } => Op::Float { op: Operation::Div, lhs, rhs, target },
            Instruction::FLT { lhs, rhs, target } => Op::Float { op: Operation::Lt, lhs, rhs, target },
            Instruction::FLTE { lhs, rhs, target } => Op::Float { op: Operation::Lte, lhs, rhs, target },
            Instruction::FGT { lhs, rhs, target } => Op::Float { op: Operation::Gt, lhs, rhs, target },
            Instruction::FGTE { lhs, rhs, target } => Op::Float { op: Operation::Gte, lhs, rhs, target },
            Instruction::MOV { target, source } => Op::Mov { target, source },
            Instruction::BRIF { condition, then_branch, else_branch } => Op::Brif {
                condition,
                then_branch,
                else_branch,
            },
            Instruction::JMP(location) => Op::Jmp { location },
            Instruction::EXTERNALCALL { head, args, target } => Op::Call { head, args: args@, target },
        }
    }
}

impl Instruction {
    /// Tests that every register the instruction names has an index below
    /// `count`.
    pub fn names_registers_below(&self, count: usize) -> (r: bool)
        ensures
            r == self@.registers_below(count as nat),
    {
        match self {
            Instruction::IADD { lhs, rhs, target }
            | Instruction::ISUB { lhs, rhs, target }
            | Instruction::IMUL { lhs, rhs, target }
            | Instruction::IDIV { lhs, rhs, target }
            | Instruction::ILT { lhs, rhs, target }
            | Instruction::ILTE { lhs, rhs, target }
            | Instruction::IGT { lhs, rhs, target }
            | Instruction::IGTE { lhs, rhs, target }
            | Instruction::FADD { lhs, rhs, target }
            | Instruction::FSUB { lhs, rhs, target }
            | Instruction::FMUL { lhs, rhs, target }
            | Instruction::FDIV { lhs, rhs, target }
            | Instruction::FLT { lhs, rhs, target }
            | Instruction::FLTE { lhs, rhs, target }
            | Instruction::FGT { lhs, rhs, target }
            | Instruction::FGTE { lhs, rhs, target } => lhs.0 < count && rhs.0 < count && target.0
                < count,
            Instruction::MOV { target, source } => target.0 < count && source.0 < count,
            Instruction::BRIF { condition, .. } => condition.0 < count,
            Instruction::JMP(_) => true,
            Instruction::EXTERNALCALL { head, args, target } => {
                if target.0 >= count {
                    return false;
                }
                let mut i: usize = 0;
                while i < args.len()
                    invariant
                        0 <= i <= args@.len(),
                        target.0 < count,
                        self@ == (Op::Call { head: *head, args: args@, target: *target }),
                        forall|j: int| 0 <= j < i ==> (#[trigger] args@[j]).0 < count,
                    decreases args@.len() - i,
                {
                    if args[i].0 >= count {
                        assert(!self@.registers_below(count as nat)) by {
                            let named = self@->Call_args;
                            assert(named == args@);
                            assert(!(named[i as int].0 < count as nat));
                        }
                        return false;
                    }
                    i += 1;
                }
                true
            },
        }
    }

    /// The binary instruction for `op`, in its floating-point form if `float`
    /// is set and in its integer form otherwise.
    pub fn binary(
        op: Operation,
        float: bool,
        lhs: RegisterId,
        rhs: RegisterId,
        target: RegisterId,
    ) -> (instruction: Instruction)
        ensures
            instruction@ == (if float {
                Op::Float { op, lhs, rhs, target }
            } else {
                Op::Int { op, lhs, rhs, target }
            }),
    {
        if float {
            match op {
                Operation::Add => Instruction::FADD { lhs, rhs, target },
                Operation::Sub => Instruction::FSUB { lhs, rhs, target },
                Operation::Mul => Instruction::FMUL { lhs, rhs, target },
                Operation::Div => Instruction::FDIV { lhs, rhs, target },
                Operation::Lt => Instruction::FLT { lhs, rhs, target },
                Operation::Lte => Instruction::FLTE { lhs, rhs, target },
                Operation::Gt => Instruction::FGT { lhs, rhs, target },
                Operation::Gte => Instruction::FGTE { lhs, rhs, target },
            }
        } else {
            match op {
                Operation::Add => Instruction::IADD { lhs, rhs, target },
                Operation::Sub => Instruction::ISUB { lhs, rhs, target },
                Operation::Mul => Instruction::IMUL { lhs, rhs, target },
                Operation::Div => Instruction::IDIV { lhs, rhs, target },
                Operation::Lt => Instruction::ILT { lhs, rhs, target },
                Operation::Lte => Instruction::ILTE { lhs, rhs, target },
                Operation::Gt => Instruction::IGT { lhs, rhs, target },
                Operation::Gte => Instruction::IGTE { lhs, rhs, target },
            }
        }
    }
}

} // verus!
