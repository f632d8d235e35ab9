//! A compiled unit under construction: its register file and its instruction
//! sequence, with the operations that add to them.

use vstd::prelude::*;
use crate::ids::{FunctionId, InstructionId, RegisterId, TypeId, BOOL_TYPE, F64_TYPE, I64_TYPE};
use crate::instruction::{Instruction, Op, Operation};

verus! {

/// The model of a compiled unit: its instructions, the payload and the type
/// tag of each register, and the program counter.
pub struct Unit {
    pub code: Seq<Op>,
    pub values: Seq<i64>,
    pub types: Seq<TypeId>,
    pub pc: nat,
}

impl Unit {
    /// Every register has a payload and a tag, and every instruction names
    /// registers that exist.
    pub open spec fn wf(self) -> bool {
        &&& self.values.len() == self.types.len()
        &&& forall|i: int|
            0 <= i < self.code.len() ==> (#[trigger] self.code[i]).registers_below(
                self.values.len(),
            )
    }

    /// The unit without registers or instructions.
    pub open spec fn empty() -> Unit {
        Unit { code: Seq::empty(), values: Seq::empty(), types: Seq::empty(), pc: 0 }
    }

    /// The register that the next one created will be.
    pub open spec fn next_register(self) -> RegisterId {
        RegisterId(self.values.len() as usize)
    }

    /// The position that the next instruction added will have.
    pub open spec fn next_position(self) -> InstructionId {
        InstructionId(self.code.len() as usize)
    }

    /// Whether the positions and the registers of the unit can be counted in
    /// a machine word.
    pub open spec fn fits(self) -> bool {
        self.code.len() <= usize::MAX && self.values.len() <= usize::MAX
    }

    /// Whether `r` names a register of this unit.
    pub open spec fn has(self, r: RegisterId) -> bool {
        r.0 < self.values.len()
    }

    /// The unit with one more register, holding `value` under the tag `ty`.
    pub open spec fn push_register(self, value: i64, ty: TypeId) -> Unit {
        Unit { values: self.values.push(value), types: self.types.push(ty), ..self }
    }

    /// The unit with `op` added at the end of its instructions.
    pub open spec fn emit(self, op: Op) -> Unit {
        Unit { code: self.code.push(op), ..self }
    }

    /// The unit with the instruction at position `at` replaced by `op`.
    pub open spec fn patch(self, at: int, op: Op) -> Unit {
        Unit { code: self.code.update(at, op), ..self }
    }

    /// Whether a binary operation can be built on `lhs`: its tag is the
    /// integer or the floating-point type.
    pub open spec fn supports(self, lhs: RegisterId) -> bool {
        self.types[lhs.0 as int] == F64_TYPE || self.types[lhs.0 as int] == I64_TYPE
    }

    /// The unit after a binary operation was built on `lhs` and `rhs`: a new
    /// register for the result, tagged boolean for a comparison and like
    /// `lhs` for arithmetic, and one instruction, in the floating-point form
    /// exactly if `lhs` is tagged so.
    pub open spec fn binary(self, op: Operation, lhs: RegisterId, rhs: RegisterId) -> Unit {
        let tag = self.types[lhs.0 as int];
        let target = self.next_register();
        let grown = self.push_register(
            0,
            if op.is_comparison() {
                BOOL_TYPE
            } else {
                tag
            },
        );
        if tag == F64_TYPE {
            grown.emit(Op::Float { op, lhs, rhs, target })
        } else {
            grown.emit(Op::Int { op, lhs, rhs, target })
        }
    }

    /// A well-formed unit stays so when it gets one more register.
    pub proof fn lemma_push_register_wf(self, value: i64, ty: TypeId)
        requires
            self.wf(),
        ensures
            self.push_register(value, ty).wf(),
    {
        let grown = self.push_register(value, ty);
        assert forall|i: int| 0 <= i < grown.code.len() implies (#[trigger] grown.code[i])
            .registers_below(grown.values.len()) by {
            self.code[i].lemma_registers_below_grows(self.values.len(), grown.values.len());
        }
    }

    /// What building the binary operation `op` on `lhs` and `rhs` gives: the
    /// unit afterwards and the register of the result, or the unit as it was
    /// and the reason why the tag of `lhs` admits no such operation.
    pub open spec fn try_binary(self, op: Operation, lhs: RegisterId, rhs: RegisterId) -> (
        Unit,
        Result<RegisterId, UnsupportedOperand>,
    ) {
        if self.supports(lhs) {
            (self.binary(op, lhs, rhs), Ok(self.next_register()))
        } else {
            (
                self,
                Err(
                    UnsupportedOperand {
                        operation: op,
                        register: lhs,
                        ty: self.types[lhs.0 as int],
                    },
                ),
            )
        }
    }

    /// The unit after a move was asked for: unchanged if the two registers
    /// are one, with a `Mov` added otherwise.
    pub open spec fn mov(self, target: RegisterId, source: RegisterId) -> Unit {
        if target == source {
            self
        } else {
            self.emit(Op::Mov { target, source })
        }
    }
}

/// A binary operation was asked for on a left operand whose type tag has
/// neither an integer nor a floating-point form of it.
#[derive(Clone, Copy, Debug, PartialEq, Eq, Structural)]
pub struct UnsupportedOperand {
    pub operation: Operation,
    pub register: RegisterId,
    pub ty: TypeId,
}

/// One compiled unit: a register file (payloads and type tags, by register
/// index) and a linear instruction sequence, with the program counter of the
/// machine that runs it.
///
/// Register 0 is the unit's result slot. A register's tag is set when the
/// register is created.
#[derive(Debug)]
pub struct FunctionCodegen {
    pub instructions: Vec<Instruction>,
    pub register_values: Vec<i64>,
    pub register_types: Vec<TypeId>,
    pub instruction_pointer: usize,
}

impl View for FunctionCodegen {
    type V = Unit;

    open spec fn view(&self) -> Unit {
        Unit {
            code: self.instructions@.map_values(|i: Instruction| i@),
            values: self.register_values@,
            types: self.register_types@,
            pc: self.instruction_pointer as nat,
        }
    }
}

impl FunctionCodegen {
    /// Every register has a payload and a tag, and every instruction names
    /// registers that exist.
    pub open spec fn wf(&self) -> bool {
        self@.wf()
    }

    /// Tests that every register has a payload and a tag, and that every
    /// instruction names registers that exist.
    pub fn is_well_formed(&self) -> (r: bool)
        ensures
            r == self.wf(),
    {
        let count = self.register_values.len();
        if self.register_types.len() != count {
            return false;
        }
        let mut i: usize = 0;
        while i < self.instructions.len()
            invariant
                0 <= i <= self.instructions@.len(),
                count == self@.values.len(),
                self@.values.len() == self@.types.len(),
                forall|j: int| 0 <= j < i ==> (#[trigger] self@.code[j]).registers_below(count as nat),
            decreases self.instructions@.len() - i,
        {
            assert(self@.code[i as int] == self.instructions@[i as int]@);
            if !self.instructions[i].names_registers_below(count) {
                return false;
            }
            i += 1;
        }
        true
    }

    /// A unit without registers or instructions, its program counter at 0.
    pub fn new() -> (unit: FunctionCodegen)
        ensures
            unit@ == Unit::empty(),
            unit.wf(),
    {
        let unit = FunctionCodegen {
            instructions: Vec::new(),
            register_values: Vec::new(),
            register_types: Vec::new(),
            instruction_pointer: 0,
        };
        assert(unit@.code =~= Seq::empty());
        unit
    }

    /// Adds `instruction` at the end of the instruction sequence.
    fn push_instruction(&mut self, instruction: Instruction)
        ensures
            final(self)@ == old(self)@.emit(instruction@),
    {
        self.instructions.push(instruction);
        assert(self@.code =~= old(self)@.code.push(instruction@));
    }

    /// Creates a register that holds `value` under the tag `value_type`.
    pub fn new_register_with_value(&mut self, value: i64, value_type: TypeId) -> (register:
        RegisterId)
        requires
            old(self).wf(),
        ensures
            final(self)@ == old(self)@.push_register(value, value_type),
            register.0 == old(self)@.values.len(),
            final(self).wf(),
    {
        self.register_values.push(value);
        self.register_types.push(value_type);
        proof {
            old(self)@.lemma_push_register_wf(value, value_type);
        }
        RegisterId(self.register_values.len() - 1)
    }

    /// Creates a register of type `ty` that holds 0.
    pub fn new_register(&mut self, ty: TypeId) -> (register: RegisterId)
        requires
            old(self).wf(),
        ensures
            final(self)@ == old(self)@.push_register(0, ty),
            register.0 == old(self)@.values.len(),
            final(self).wf(),
    {
        self.new_register_with_value(0, ty)
    }

    /// Creates an integer register that holds `value`.
    pub fn i64_const(&mut self, value: i64) -> (register: RegisterId)
        requires
            old(self).wf(),
        ensures
            final(self)@ == old(self)@.push_register(value, I64_TYPE),
            register.0 == old(self)@.values.len(),
            final(self).wf(),
    {
        self.new_register_with_value(value, I64_TYPE)
    }

    /// Creates a floating-point register that holds the number whose bit
    /// pattern is `bits`.
    pub fn f64_const(&mut self, bits: i64) -> (register: RegisterId)
        requires
            old(self).wf(),
        ensures
            final(self)@ == old(self)@.push_register(bits, F64_TYPE),
            register.0 == old(self)@.values.len(),
            final(self).wf(),
    {
        self.new_register_with_value(bits, F64_TYPE)
    }

    /// Creates a boolean register that holds 1 for true and 0 for false.
    pub fn bool_const(&mut self, value: bool) -> (register: RegisterId)
        requires
            old(self).wf(),
        ensures
            final(self)@ == old(self)@.push_register(if value { 1i64 } else { 0i64 }, BOOL_TYPE),
            register.0 == old(self)@.values.len(),
            final(self).wf(),
    {
        if value {
            self.new_register_with_value(1, BOOL_TYPE)
        } else {
            self.new_register_with_value(0, BOOL_TYPE)
        }
    }

    /// Builds the binary operation `op` on `lhs` and `rhs`, in the form that
    /// the tag of `lhs` selects: floating-point or integer. No other tag has
    /// a form of it, and the unit is then left as it was.
    pub fn binary(&mut self, op: Operation, lhs: RegisterId, rhs: RegisterId) -> (r: Result<
        RegisterId,
        UnsupportedOperand,
    >)
        requires
            old(self).wf(),
            old(self)@.has(lhs),
            old(self)@.has(rhs),
        ensures
            (final(self)@, r) == old(self)@.try_binary(op, lhs, rhs),
            final(self).wf(),
    {
        let tag = self.register_types[lhs.0];
        if tag != F64_TYPE && tag != I64_TYPE {
            return Err(UnsupportedOperand { operation: op, register: lhs, ty: tag });
        }
        let target = self.new_register(
            if op.compares() {
                BOOL_TYPE
            } else {
                tag
            },
        );
        self.push_instruction(Instruction::binary(op, tag == F64_TYPE, lhs, rhs, target));
        Ok(target)
    }

    /// Builds an addition of `lhs` and `rhs`, whose result has the type of `lhs`.
    pub fn add(&mut self, lhs: RegisterId, rhs: RegisterId) -> (r: Result<
        RegisterId,
        UnsupportedOperand,
    >)
        requires
            old(self).wf(),
            old(self)@.has(lhs),
            old(self)@.has(rhs),
        ensures
            (final(self)@, r) == old(self)@.try_binary(Operation::Add, lhs, rhs),
            final(self).wf(),
    {
        self.binary(Operation::Add, lhs, rhs)
    }

    /// Builds a subtraction of `lhs` and `rhs`, whose result has the type of `lhs`.
    pub fn sub(&mut self, lhs: RegisterId, rhs: RegisterId) -> (r: Result<
        RegisterId,
        UnsupportedOperand,
    >)
        requires
            old(self).wf(),
            old(self)@.has(lhs),
            old(self)@.has(rhs),
        ensures
            (final(self)@, r) == old(self)@.try_binary(Operation::Sub, lhs, rhs),
            final(self).wf(),
    {
        self.binary(Operation::Sub, lhs, rhs)
    }

    /// Builds a multiplication of `lhs` and `rhs`, whose result has the type of `lhs`.
    pub fn mul(&mut self, lhs: RegisterId, rhs: RegisterId) -> (r: Result<
        RegisterId,
        UnsupportedOperand,
    >)
        requires
            old(self).wf(),
            old(self)@.has(lhs),
            old(self)@.has(rhs),
        ensures
            (final(self)@, r) == old(self)@.try_binary(Operation::Mul, lhs, rhs),
            final(self).wf(),
    {
        self.binary(Operation::Mul, lhs, rhs)
    }

    /// Builds a division of `lhs` and `rhs`, whose result has the type of `lhs`.
    pub fn div(&mut self, lhs: RegisterId, rhs: RegisterId) -> (r: Result<
        RegisterId,
        UnsupportedOperand,
    >)
        requires
            old(self).wf(),
            old(self)@.has(lhs),
            old(self)@.has(rhs),
        ensures
            (final(self)@, r) == old(self)@.try_binary(Operation::Div, lhs, rhs),
            final(self).wf(),
    {
        self.binary(Operation::Div, lhs, rhs)
    }

    /// Builds the comparison "less than" of `lhs` and `rhs`, whose result is a boolean.
    pub fn lt(&mut self, lhs: RegisterId, rhs: RegisterId) -> (r: Result<
        RegisterId,
        UnsupportedOperand,
    >)
        requires
            old(self).wf(),
            old(self)@.has(lhs),
            old(self)@.has(rhs),
        ensures
            (final(self)@, r) == old(self)@.try_binary(Operation::Lt, lhs, rhs),
            final(self).wf(),
    {
        self.binary(Operation::Lt, lhs, rhs)
    }

    /// Builds the comparison "less than or equal" of `lhs` and `rhs`, whose result is a boolean.
    pub fn lte(&mut self, lhs: RegisterId, rhs: RegisterId) -> (r: Result<
        RegisterId,
        UnsupportedOperand,
    >)
        requires
            old(self).wf(),
            old(self)@.has(lhs),
            old(self)@.has(rhs),
        ensures
            (final(self)@, r) == old(self)@.try_binary(Operation::Lte, lhs, rhs),
            final(self).wf(),
    {
        self.binary(Operation::Lte, lhs, rhs)
    }

    /// Builds the comparison "greater than" of `lhs` and `rhs`, whose result is a boolean.
    pub fn gt(&mut self, lhs: RegisterId, rhs: RegisterId) -> (r: Result<
        RegisterId,
        UnsupportedOperand,
    >)
        requires
            old(self).wf(),
            old(self)@.has(lhs),
            old(self)@.has(rhs),
        ensures
            (final(self)@, r) == old(self)@.try_binary(Operation::Gt, lhs, rhs),
            final(self).wf(),
    {
        self.binary(Operation::Gt, lhs, rhs)
    }

    /// Builds the comparison "greater than or equal" of `lhs` and `rhs`, whose result is a boolean.
    pub fn gte(&mut self, lhs: RegisterId, rhs: RegisterId) -> (r: Result<
        RegisterId,
        UnsupportedOperand,
    >)
        requires
            old(self).wf(),
            old(self)@.has(lhs),
            old(self)@.has(rhs),
        ensures
            (final(self)@, r) == old(self)@.try_binary(Operation::Gte, lhs, rhs),
            final(self).wf(),
    {
        self.binary(Operation::Gte, lhs, rhs)
    }

    /// Adds a move of `source` into `target`, unless the two are one
    /// register, and returns the register that then holds the value.
    pub fn mov(&mut self, target: RegisterId, source: RegisterId) -> (register: RegisterId)
        requires
            old(self).wf(),
            old(self)@.has(target),
            old(self)@.has(source),
        ensures
            final(self)@ == old(self)@.mov(target, source),
            register == target,
            final(self).wf(),
    {
        if target.0 == source.0 {
            source
        } else {
            self.push_instruction(Instruction::MOV { target, source });
            target
        }
    }

    /// Adds a conditional branch on `condition` and returns `target`, the
    /// register in which the construct that branches collects its value.
    pub fn brif(
        &mut self,
        target: RegisterId,
        condition: RegisterId,
        then_branch: InstructionId,
        else_branch: InstructionId,
    ) -> (register: RegisterId)
        requires
            old(self).wf(),
            old(self)@.has(condition),
        ensures
            final(self)@ == old(self)@.emit(Op::Brif { condition, then_branch, else_branch }),
            register == target,
            final(self).wf(),
    {
        self.push_instruction(Instruction::BRIF { condition, then_branch, else_branch });
        target
    }

    /// Adds an unconditional jump to `location`.
    pub fn jmp(&mut self, location: InstructionId)
        requires
            old(self).wf(),
        ensures
            final(self)@ == old(self)@.emit(Op::Jmp { location }),
            final(self).wf(),
    {
        self.push_instruction(Instruction::JMP(location))
    }

    /// Adds a call of function `head` on the registers `args`, whose result
    /// goes to `target`.
    pub fn external_call(&mut self, head: FunctionId, args: Vec<RegisterId>, target: RegisterId)
        requires
            old(self).wf(),
            old(self)@.has(target),
            forall|i: int| 0 <= i < args@.len() ==> old(self)@.has(#[trigger] args@[i]),
        ensures
            final(self)@ == old(self)@.emit(Op::Call { head, args: args@, target }),
            final(self).wf(),
    {
        self.push_instruction(Instruction::EXTERNALCALL { head, args, target })
    }

    /// Replaces the instruction at position `at`.
    fn replace(&mut self, at: InstructionId, instruction: Instruction)
        requires
            old(self).wf(),
            at.0 < old(self)@.code.len(),
            instruction@.registers_below(old(self)@.values.len()),
        ensures
            final(self)@ == old(self)@.patch(at.0 as int, instruction@),
            final(self).wf(),
    {
        self.instructions.set(at.0, instruction);
        assert(self@.code =~= old(self)@.code.update(at.0 as int, instruction@));
        assert forall|i: int| 0 <= i < self@.code.len() implies (#[trigger] self@.code[i])
            .registers_below(self@.values.len()) by {
            if i != at.0 {
                assert(old(self)@.code[i].registers_below(old(self)@.values.len()));
            }
        }
    }

    /// Gives the conditional branch at position `at` its targets: the second
    /// half of reserving a branch before the positions it leads to are
    /// known. Nothing but the two targets changes.
    pub fn patch_branch(
        &mut self,
        at: InstructionId,
        then_branch: InstructionId,
        else_branch: InstructionId,
    )
        requires
            old(self).wf(),
            at.0 < old(self)@.code.len(),
            old(self)@.code[at.0 as int] is Brif,
        ensures
            final(self)@ == old(self)@.patch(
                at.0 as int,
                Op::Brif {
                    condition: old(self)@.code[at.0 as int]->Brif_condition,
                    then_branch,
                    else_branch,
                },
            ),
            final(self).wf(),
    {
        assert(self@.code[at.0 as int] == self.instructions@[at.0 as int]@);
        assert(self@.code[at.0 as int].registers_below(self@.values.len()));
        let condition = match &self.instructions[at.0] {
            Instruction::BRIF { condition, .. } => *condition,
            _ => {
                return ;
            },
        };
        self.replace(at, Instruction::BRIF { condition, then_branch, else_branch });
    }

    /// Gives the jump at position `at` its target: the second half of
    /// reserving a jump before the position it leads to is known.
    pub fn patch_jump(&mut self, at: InstructionId, location: InstructionId)
        requires
            old(self).wf(),
            at.0 < old(self)@.code.len(),
            old(self)@.code[at.0 as int] is Jmp,
        ensures
            final(self)@ == old(self)@.patch(at.0 as int, Op::Jmp { location }),
            final(self).wf(),
    {
        self.replace(at, Instruction::JMP(location));
    }

    /// The unit's sizes are those of vectors, which a machine word counts.
    pub proof fn lemma_sizes(&self)
        ensures
            self@.fits(),
            self@.types.len() <= usize::MAX,
    {
        assert(self.instructions.len() == self.instructions@.len());
        assert(self.register_values.len() == self.register_values@.len());
        assert(self.register_types.len() == self.register_types@.len());
    }

    /// The position that the next instruction added will have.
    pub fn next_position(&self) -> (position: usize)
        ensures
            position == self@.code.len(),
    {
        self.instructions.len()
    }
}

} // verus!
