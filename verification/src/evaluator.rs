//! Calls from bytecode to bytecode: a stack of running units.
//!
//! A call of a compiled function runs a copy of that function's unit, with
//! the arguments in its first registers after the result slot, and brings
//! what it leaves in its result slot back to the caller. Each running unit
//! has a register file of its own, so a function may call itself. Calls of
//! host functions and floating-point instructions are handed to the host,
//! from whatever depth.

use vstd::prelude::*;
use crate::codegen::{FunctionCodegen, Unit};
use crate::ids::{FunctionId, InstructionId, RegisterId, TypeId};
use crate::instruction::{Instruction, Operation};
use crate::machine::{Fault, FaultKind, Outcome, Step};
use crate::typechecker::{FnRecord, Function};
use crate::value::Value;

verus! {

/// The unit `unit` made ready for a call with the arguments `args`: its
/// program counter at the start, and argument `i` unboxed into register
/// `i + 1`.
pub open spec fn seeded(unit: Unit, args: Seq<Value>) -> Unit
    decreases args.len(),
{
    if args.len() == 0 {
        unit.goto(0)
    } else {
        seeded(unit, args.drop_last()).unboxed(args.last(), RegisterId(args.len() as usize))
    }
}

/// Whether every compiled unit of the function table is well-formed and has
/// a result slot and a register for each declared argument.
pub open spec fn table_wf(functions: Seq<FnRecord>) -> bool {
    forall|i: int|
        0 <= i < functions.len() ==> ((#[trigger] functions[i]).fun matches Function::Compiled(unit)
            ==> unit.wf() && unit@.values.len() > functions[i].args@.len())
}

/// Tests that every compiled unit of the function table is well-formed and
/// has a result slot and a register for each declared argument.
pub fn table_is_well_formed(functions: &[FnRecord]) -> (r: bool)
    ensures
        r == table_wf(functions@),
{
    let mut i: usize = 0;
    while i < functions.len()
        invariant
            0 <= i <= functions@.len(),
            forall|j: int|
                0 <= j < i ==> ((#[trigger] functions@[j]).fun matches Function::Compiled(unit)
                    ==> unit.wf() && unit@.values.len() > functions@[j].args@.len()),
        decreases functions@.len() - i,
    {
        match &functions[i].fun {
            Function::Native => {},
            Function::Compiled(unit) => {
                if !unit.is_well_formed() || unit.register_values.len() <= functions[i].args.len() {
                    assert(!(functions@[i as int].fun matches Function::Compiled(unit) ==> unit.wf()
                        && unit@.values.len() > functions@[i as int].args@.len()));
                    return false;
                }
            },
        }
        i += 1;
    }
    true
}

/// What one move of a stack of running units leads to.
pub enum Turn {
    /// The stack afterwards.
    Next(Seq<Unit>),
    /// The outermost unit ran to its end; this is its register 0.
    Finished { payload: i64, ty: TypeId },
    /// The innermost unit waits in front of a floating-point instruction.
    Float { op: Operation, lhs: i64, rhs: i64 },
    /// The innermost unit waits in front of a call of a host function.
    Call { head: FunctionId, args: Seq<Value> },
    /// The innermost unit faulted, or what a unit returned does not fit the
    /// call that it returns to.
    Fault { at: nat, kind: FaultKind },
}

/// One move of a stack of running units, the innermost last.
///
/// The innermost unit executes an instruction of its own. When it calls a
/// compiled function, a copy of that function's unit, seeded with the boxed
/// arguments, becomes the innermost. When it has run to its end, it leaves
/// the stack, and its caller takes its register 0 as the answer to the call.
pub open spec fn turn(frames: Seq<Unit>, functions: Seq<FnRecord>) -> Turn
    recommends
        frames.len() > 0,
{
    let top = frames.last();
    match top.step(functions) {
        Step::Next(unit) => Turn::Next(frames.drop_last().push(unit)),
        Step::Halt => if frames.len() == 1 {
            Turn::Finished { payload: top.values[0], ty: top.types[0] }
        } else {
            let caller = frames[frames.len() - 2];
            match caller.resumed(functions, top.boxed(RegisterId(0))) {
                Ok(unit) => Turn::Next(frames.drop_last().drop_last().push(unit)),
                Err(kind) => Turn::Fault { at: caller.pc, kind },
            }
        },
        Step::Float { op, lhs, rhs } => Turn::Float { op, lhs, rhs },
        Step::Call { head, args } => match functions[head.0 as int].fun {
            Function::Native => Turn::Call { head, args },
            Function::Compiled(unit) => Turn::Next(frames.push(seeded(unit@, args))),
        },
        Step::Fault(kind) => Turn::Fault { at: top.pc, kind },
    }
}

/// The stack after up to `n` moves, fewer if it cannot move any more.
pub open spec fn turns(frames: Seq<Unit>, functions: Seq<FnRecord>, n: nat) -> Seq<Unit>
    decreases n,
{
    if n == 0 {
        frames
    } else {
        match turn(frames, functions) {
            Turn::Next(next) => turns(next, functions, (n - 1) as nat),
            _ => frames,
        }
    }
}

/// Whether the stack has come to a stop after `n` moves.
pub open spec fn rests_within(frames: Seq<Unit>, functions: Seq<FnRecord>, n: nat) -> bool {
    !(turn(turns(frames, functions, n), functions) is Next)
}

/// Whether the stack comes to a stop at all.
pub open spec fn rests(frames: Seq<Unit>, functions: Seq<FnRecord>) -> bool {
    exists|n: nat| rests_within(frames, functions, n)
}

/// The stack as it stands once it has come to a stop.
pub open spec fn rest(frames: Seq<Unit>, functions: Seq<FnRecord>) -> Seq<Unit>
    recommends
        rests(frames, functions),
{
    turns(frames, functions, choose|n: nat| rests_within(frames, functions, n))
}

/// A run of `n + m` moves is a run of `n` moves followed by one of `m`.
pub proof fn lemma_turns_split(frames: Seq<Unit>, functions: Seq<FnRecord>, n: nat, m: nat)
    ensures
        turns(frames, functions, n + m) == turns(turns(frames, functions, n), functions, m),
    decreases n,
{
    if n > 0 {
        match turn(frames, functions) {
            Turn::Next(next) => {
                lemma_turns_split(next, functions, (n - 1) as nat, m);
                assert((n + m - 1) as nat == (n - 1) as nat + m);
            },
            _ => {
                assert(turns(frames, functions, m) == frames);
            },
        }
    }
}

/// Whatever number of moves brings the stack to a stop, it stops as the same
/// stack.
pub proof fn lemma_rest(frames: Seq<Unit>, functions: Seq<FnRecord>, n: nat)
    requires
        rests_within(frames, functions, n),
    ensures
        rest(frames, functions) == turns(frames, functions, n),
        !(turn(rest(frames, functions), functions) is Next),
{
    let chosen = choose|n: nat| rests_within(frames, functions, n);
    if n <= chosen {
        lemma_turns_split(frames, functions, n, (chosen - n) as nat);
        let stuck = turns(frames, functions, n);
        assert(turns(stuck, functions, (chosen - n) as nat) == stuck);
    } else {
        lemma_turns_split(frames, functions, chosen, (n - chosen) as nat);
        let stuck = turns(frames, functions, chosen);
        assert(turns(stuck, functions, (n - chosen) as nat) == stuck);
    }
}

/// A stack that can move after `n` moves is, one move later, what that move
/// makes of it.
pub proof fn lemma_turns_next(frames: Seq<Unit>, functions: Seq<FnRecord>, n: nat)
    requires
        turn(turns(frames, functions, n), functions) is Next,
    ensures
        turns(frames, functions, n + 1) == turn(turns(frames, functions, n), functions)->Next_0,
{
    lemma_turns_split(frames, functions, n, 1);
    let now = turns(frames, functions, n);
    let next = turn(now, functions)->Next_0;
    assert(turns(next, functions, 0) == next);
}

/// Whether `reported` is what the evaluator says of a stack that has come to
/// a stop as `frames`.
pub open spec fn tells(reported: Result<Outcome, Fault>, frames: Seq<Unit>, functions: Seq<FnRecord>) -> bool {
    match turn(frames, functions) {
        Turn::Next(_) => false,
        Turn::Finished { payload, ty } => reported matches Ok(Outcome::Finished { payload: p, ty: t })
            && p == payload && t == ty,
        Turn::Float { op, lhs, rhs } => reported matches Ok(Outcome::Float { op: o, lhs: l, rhs: r })
            && o == op && l == lhs && r == rhs,
        Turn::Call { head, args } => reported matches Ok(Outcome::Call { head: h, args: a }) && h
            == head && a@ == args,
        Turn::Fault { at, kind } => reported == Err::<Outcome, Fault>(
            Fault { at: InstructionId(at as usize), kind },
        ),
    }
}

impl Instruction {
    /// A copy of the instruction.
    pub fn duplicate(&self) -> (copy: Instruction)
        ensures
            copy@ == self@,
    {
        match self {
            Instruction::IADD { lhs, rhs, target } => Instruction::IADD {
                lhs: *lhs,
                rhs: *rhs,
                target: *target,
            },
            Instruction::ISUB { lhs, rhs, target } => Instruction::ISUB {
                lhs: *lhs,
                rhs: *rhs,
                target: *target,
            },
            Instruction::IMUL { lhs, rhs, target } => Instruction::IMUL {
                lhs: *lhs,
                rhs: *rhs,
                target: *target,
            },
            Instruction::IDIV { lhs, rhs, target } => Instruction::IDIV {
                lhs: *lhs,
                rhs: *rhs,
                target: *target,
            },
            Instruction::ILT { lhs, rhs, target } => Instruction::ILT {
                lhs: *lhs,
                rhs: *rhs,
                target: *target,
            },
            Instruction::ILTE { lhs, rhs, target } => Instruction::ILTE {
                lhs: *lhs,
                rhs: *rhs,
                target: *target,
            },
            Instruction::IGT { lhs, rhs, target } => Instruction::IGT {
                lhs: *lhs,
                rhs: *rhs,
                target: *target,
            },
            Instruction::IGTE { lhs, rhs, target } => Instruction::IGTE {
                lhs: *lhs,
                rhs: *rhs,
                target: *target,
            },
            Instruction::FADD { lhs, rhs, target } => Instruction::FADD {
                lhs: *lhs,
                rhs: *rhs,
                target: *target,
            },
            Instruction::FSUB { lhs, rhs, target } => Instruction::FSUB {
                lhs: *lhs,
                rhs: *rhs,
                target: *target,
            },
            Instruction::FMUL { lhs, rhs, target } => Instruction::FMUL {
                lhs: *lhs,
                rhs: *rhs,
                target: *target,
            },
            Instruction::FDIV { lhs, rhs, target } => Instruction::FDIV {
                lhs: *lhs,
                rhs: *rhs,
                target: *target,
            },
            Instruction::FLT { lhs, rhs, target } => Instruction::FLT {
                lhs: *lhs,
                rhs: *rhs,
                target: *target,
            },
            Instruction::FLTE { lhs, rhs, target } => Instruction::FLTE {
                lhs: *lhs,
                rhs: *rhs,
                target: *target,
            },
            Instruction::FGT { lhs, rhs, target } => Instruction::FGT {
                lhs: *lhs,
                rhs: *rhs,
                target: *target,
            },
            Instruction::FGTE { lhs, rhs, target } => Instruction::FGTE {
                lhs: *lhs,
                rhs: *rhs,
                target: *target,
            },
            Instruction::MOV { target, source } => Instruction::MOV {
                target: *target,
                source: *source,
            },
            Instruction::BRIF { condition, then_branch, else_branch } => Instruction::BRIF {
                condition: *condition,
                then_branch: *then_branch,
                else_branch: *else_branch,
            },
            Instruction::JMP(location) => Instruction::JMP(*location),
            Instruction::EXTERNALCALL { head, args, target } => {
                let mut copied: Vec<RegisterId> = Vec::new();
                let mut i: usize = 0;
                while i < args.len()
                    invariant
                        0 <= i <= args@.len(),
                        copied@ == args@.take(i as int),
                    decreases args@.len() - i,
                {
                    copied.push(args[i]);
                    assert(args@.take(i + 1) =~= args@.take(i as int).push(args@[i as int]));
                    i += 1;
                }
                assert(args@.take(i as int) =~= args@);
                Instruction::EXTERNALCALL { head: *head, args: copied, target: *target }
            },
        }
    }
}

impl FunctionCodegen {
    /// A copy of the unit, ready for a call with the arguments `args`: its
    /// program counter at the start, and argument `i` unboxed into register
    /// `i + 1`.
    pub fn instance(&self, args: &Vec<Value>) -> (copy: FunctionCodegen)
        requires
            self.wf(),
            self@.values.len() > args@.len(),
        ensures
            copy@ == seeded(self@, args@),
            copy.wf(),
            copy@.values.len() == self@.values.len(),
    {
        let mut instructions: Vec<Instruction> = Vec::new();
        let mut i: usize = 0;
        while i < self.instructions.len()
            invariant
                0 <= i <= self.instructions@.len(),
                instructions@.len() == i,
                forall|j: int| 0 <= j < i ==> instructions@[j]@ == self.instructions@[j]@,
            decreases self.instructions@.len() - i,
        {
            instructions.push(self.instructions[i].duplicate());
            i += 1;
        }
        let mut register_values: Vec<i64> = Vec::new();
        let mut register_types: Vec<TypeId> = Vec::new();
        let mut r: usize = 0;
        while r < self.register_values.len()
            invariant
                self.wf(),
                0 <= r <= self.register_values@.len(),
                register_values@ == self.register_values@.take(r as int),
                register_types@ == self.register_types@.take(r as int),
            decreases self.register_values@.len() - r,
        {
            register_values.push(self.register_values[r]);
            register_types.push(self.register_types[r]);
            assert(self.register_values@.take(r + 1) =~= self.register_values@.take(r as int).push(
                self.register_values@[r as int],
            ));
            assert(self.register_types@.take(r + 1) =~= self.register_types@.take(r as int).push(
                self.register_types@[r as int],
            ));
            r += 1;
        }
        assert(self.register_values@.take(r as int) =~= self.register_values@);
        assert(self.register_types@.take(r as int) =~= self.register_types@);
        let mut copy = FunctionCodegen {
            instructions,
            register_values,
            register_types,
            instruction_pointer: 0,
        };
        assert(copy@.code =~= self@.code);
        assert(copy@ == self@.goto(0));
        assert(copy.wf());
        let mut k: usize = 0;
        while k < args.len()
            invariant
                0 <= k <= args@.len(),
                self@.values.len() > args@.len(),
                copy.wf(),
                copy@.values.len() == self@.values.len(),
                copy@ == seeded(self@, args@.take(k as int)),
            decreases args@.len() - k,
        {
            let value = args[k];
            copy.register_values.set(k + 1, value.val);
            copy.register_types.set(k + 1, value.ty);
            proof {
                let next = args@.take(k + 1);
                assert(next.drop_last() =~= args@.take(k as int));
                assert(next.last() == args@[k as int]);
                assert(copy@.code == seeded(self@, args@.take(k as int)).code);
                assert forall|j: int| 0 <= j < copy@.code.len() implies (#[trigger] copy@.code[j])
                    .registers_below(copy@.values.len()) by {
                    assert(seeded(self@, args@.take(k as int)).code[j].registers_below(
                        self@.values.len(),
                    ));
                }
            }
            k += 1;
        }
        assert(args@.take(k as int) =~= args@);
        copy
    }
}

/// A stack of running units, the innermost last.
#[derive(Debug)]
pub struct Evaluator {
    pub frames: Vec<FunctionCodegen>,
}

impl View for Evaluator {
    type V = Seq<Unit>;

    open spec fn view(&self) -> Seq<Unit> {
        self.frames@.map_values(|unit: FunctionCodegen| unit@)
    }
}

impl Evaluator {
    /// Whether there is a running unit, and each running unit is well-formed
    /// and has a result slot.
    pub open spec fn wf(&self) -> bool {
        &&& self@.len() > 0
        &&& forall|i: int| 0 <= i < self@.len() ==> (#[trigger] self@[i]).wf() && self@[i].values.len() > 0
    }

    /// Tests that there is a running unit, and that each running unit is
    /// well-formed and has a result slot.
    pub fn is_well_formed(&self) -> (r: bool)
        ensures
            r == self.wf(),
    {
        if self.frames.len() == 0 {
            return false;
        }
        let mut i: usize = 0;
        while i < self.frames.len()
            invariant
                0 <= i <= self.frames@.len(),
                self@.len() == self.frames@.len(),
                forall|j: int| 0 <= j < i ==> (#[trigger] self@[j]).wf() && self@[j].values.len() > 0,
            decreases self.frames@.len() - i,
        {
            assert(self@[i as int] == self.frames@[i as int]@);
            if !self.frames[i].is_well_formed() || self.frames[i].register_values.len() == 0 {
                return false;
            }
            i += 1;
        }
        true
    }

    /// An evaluator that is to run `unit`.
    pub fn new(unit: FunctionCodegen) -> (evaluator: Evaluator)
        requires
            unit.wf(),
            unit@.values.len() > 0,
        ensures
            evaluator@ == seq![unit@],
            evaluator.wf(),
    {
        let mut frames: Vec<FunctionCodegen> = Vec::new();
        frames.push(unit);
        let evaluator = Evaluator { frames };
        assert(evaluator@ =~= seq![unit@]);
        evaluator
    }

    /// Hands the innermost unit the host's answer to the floating-point
    /// instruction or the call that it waits in front of.
    pub fn resume(&mut self, answer: Value, functions: &[FnRecord]) -> (r: Result<(), Fault>)
        requires
            old(self).wf(),
        ensures
            final(self).wf(),
            match r {
                Ok(()) => {
                    &&& old(self)@.last().resumed(functions@, answer) is Ok
                    &&& final(self)@ == old(self)@.drop_last().push(
                        old(self)@.last().resumed(functions@, answer)->Ok_0,
                    )
                },
                Err(fault) => {
                    &&& old(self)@.last().resumed(functions@, answer) == Err::<Unit, FaultKind>(
                        fault.kind,
                    )
                    &&& fault.at.0 == old(self)@.last().pc
                    &&& final(self)@ == old(self)@
                },
            },
    {
        let ghost before = self@;
        let mut top = self.pop_frame();
        let r = top.resume(answer, functions);
        proof {
            if r is Ok {
                before.last().lemma_resumed_keeps_wf(functions@, answer);
            }
        }
        self.push_frame(top);
        proof {
            if r is Err {
                assert(self@ =~= before);
            }
        }
        r
    }

    /// Takes the innermost unit off the stack.
    fn pop_frame(&mut self) -> (top: FunctionCodegen)
        requires
            old(self)@.len() > 0,
        ensures
            top@ == old(self)@.last(),
            final(self)@ == old(self)@.drop_last(),
    {
        let top = self.frames.pop().unwrap();
        assert(self@ =~= old(self)@.drop_last());
        top
    }

    /// Puts a unit on the stack as the innermost.
    fn push_frame(&mut self, unit: FunctionCodegen)
        ensures
            final(self)@ == old(self)@.push(unit@),
    {
        self.frames.push(unit);
        assert(self@ =~= old(self)@.push(unit@));
    }

    /// Runs the stack until it comes to a stop, and says why it stopped: the
    /// outermost unit ran to its end, and this is its register 0; or the
    /// innermost unit waits for the host; or there was a fault.
    ///
    /// No bound is put on the number of instructions or on the depth of
    /// calls. That the stack comes to a stop is asked of the caller.
    pub fn eval(&mut self, functions: &[FnRecord]) -> (r: Result<Outcome, Fault>)
        requires
            old(self).wf(),
            table_wf(functions@),
            rests(old(self)@, functions@),
        ensures
            final(self).wf(),
            final(self)@ == rest(old(self)@, functions@),
            tells(r, final(self)@, functions@),
    {
        let ghost start = self@;
        let ghost bound = choose|n: nat| rests_within(start, functions@, n);
        let ghost mut done: nat = 0;
        loop
            invariant
                start == old(self)@,
                self.wf(),
                table_wf(functions@),
                rests_within(start, functions@, bound),
                done <= bound,
                self@ == turns(start, functions@, done),
            decreases bound - done,
        {
            let ghost now = self@;
            let mut top = self.pop_frame();
            match top.step(functions) {
                Ok(None) => {
                    self.push_frame(top);
                },
                Ok(Some(Outcome::Finished { payload, ty })) => {
                    if self.frames.len() == 0 {
                        self.push_frame(top);
                        proof {
                            assert(self@ =~= now);
                            lemma_rest(start, functions@, done);
                        }
                        return Ok(Outcome::Finished { payload, ty });
                    }
                    let mut caller = self.pop_frame();
                    let ghost waiting = caller@;
                    match caller.resume(Value { ty, val: payload }, functions) {
                        Ok(()) => {
                            proof {
                                waiting.lemma_resumed_keeps_wf(
                                    functions@,
                                    Value { ty, val: payload },
                                );
                            }
                            self.push_frame(caller);
                        },
                        Err(fault) => {
                            self.push_frame(caller);
                            self.push_frame(top);
                            proof {
                                assert(self@ =~= now);
                                lemma_rest(start, functions@, done);
                            }
                            return Err(fault);
                        },
                    }
                },
                Ok(Some(Outcome::Float { op, lhs, rhs })) => {
                    self.push_frame(top);
                    proof {
                        assert(self@ =~= now);
                        lemma_rest(start, functions@, done);
                    }
                    return Ok(Outcome::Float { op, lhs, rhs });
                },
                Ok(Some(Outcome::Call { head, args })) => {
                    match &functions[head.0].fun {
                        Function::Native => {
                            self.push_frame(top);
                            proof {
                                assert(self@ =~= now);
                                lemma_rest(start, functions@, done);
                            }
                            return Ok(Outcome::Call { head, args });
                        },
                        Function::Compiled(unit) => {
                            let callee = unit.instance(&args);
                            self.push_frame(top);
                            self.push_frame(callee);
                            proof {
                                assert(self@ =~= now.push(callee@));
                            }
                        },
                    }
                },
                Err(fault) => {
                    self.push_frame(top);
                    proof {
                        assert(self@ =~= now);
                        lemma_rest(start, functions@, done);
                    }
                    return Err(fault);
                },
            }
            proof {
                lemma_turns_next(start, functions@, done);
                done = done + 1;
            }
        }
    }
}

} // verus!
