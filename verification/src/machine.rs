//! The register machine: what one instruction does, what a run of many does,
//! and the interpreter that carries both out.
//!
//! The machine itself executes integer instructions, moves and branches. A
//! floating-point instruction or a call is work for the host: the machine
//! stops in front of it and says what is asked for, and goes on once it is
//! handed the answer.

use vstd::prelude::*;
use crate::codegen::{FunctionCodegen, Unit};
use crate::ids::{FunctionId, InstructionId, RegisterId, TypeId, BOOL_TYPE, F64_TYPE};
use crate::instruction::{Instruction, Op, Operation};
use crate::typechecker::FnRecord;
use crate::value::{Value, ValueError};

verus! {

/// Why the machine gave up on an instruction.
#[derive(Clone, Copy, Debug, PartialEq, Eq, Structural)]
pub enum FaultKind {
    /// The result of an integer operation does not fit in 64 bits.
    Overflow,
    /// An integer division by zero.
    DivisionByZero,
    /// A call names a function that the function table does not have.
    UnknownFunction,
    /// A call passes another number of arguments than the function declares.
    ArityMismatch,
    /// A call passes an argument of another type than the function declares.
    ArgumentMismatch,
    /// The host answered with a value that is not what the instruction
    /// yields: not a scalar, or of another type than a floating-point
    /// instruction produces or than the called function declares.
    AnswerMismatch,
    /// The host answered while the machine was not waiting for an answer.
    NothingPending,
}

/// A fault, with the position of the instruction that raised it.
#[derive(Clone, Copy, Debug, PartialEq, Eq, Structural)]
pub struct Fault {
    pub at: InstructionId,
    pub kind: FaultKind,
}

/// What attempting the instruction under the program counter leads to.
pub enum Step {
    /// The instruction was executed; this is the machine afterwards.
    Next(Unit),
    /// The program counter is past the last instruction.
    Halt,
    /// A floating-point instruction: the host is to apply `op` to the two
    /// bit patterns.
    Float { op: Operation, lhs: i64, rhs: i64 },
    /// A call: the host is to call function `head` on the boxed arguments.
    Call { head: FunctionId, args: Seq<Value> },
    /// The instruction cannot be executed.
    Fault(FaultKind),
}

/// Why the machine stopped, as `eval` reports it.
#[derive(Debug)]
pub enum Outcome {
    /// The unit ran to its end; this is register 0.
    Finished { payload: i64, ty: TypeId },
    /// The machine waits in front of a floating-point instruction.
    Float { op: Operation, lhs: i64, rhs: i64 },
    /// The machine waits in front of a call.
    Call { head: FunctionId, args: Vec<Value> },
}

/// The quotient of `a` by `b`, rounded toward zero.
pub open spec fn truncated_quotient(a: int, b: int) -> int
    recommends
        b != 0,
{
    if a >= 0 && b > 0 {
        a / b
    } else if a < 0 && b < 0 {
        (-a) / (-b)
    } else if a < 0 {
        -((-a) / b)
    } else {
        -(a / (-b))
    }
}

/// The payload for a truth value.
pub open spec fn truth(flag: bool) -> i64 {
    if flag {
        1
    } else {
        0
    }
}

/// What an integer instruction computes from the payloads `a` and `b`:
/// the exact result of arithmetic if it fits in 64 bits, with division
/// rounding toward zero, and 1 or 0 for a comparison.
pub open spec fn int_result(op: Operation, a: i64, b: i64) -> Result<i64, FaultKind> {
    match op {
        Operation::Add => if i64::MIN <= a + b <= i64::MAX {
            Ok((a + b) as i64)
        } else {
            Err(FaultKind::Overflow)
        },
        Operation::Sub => if i64::MIN <= a - b <= i64::MAX {
            Ok((a - b) as i64)
        } else {
            Err(FaultKind::Overflow)
        },
        Operation::Mul => if i64::MIN <= a * b <= i64::MAX {
            Ok((a * b) as i64)
        } else {
            Err(FaultKind::Overflow)
        },
        Operation::Div => if b == 0 {
            Err(FaultKind::DivisionByZero)
        } else if a == i64::MIN && b == -1 {
            Err(FaultKind::Overflow)
        } else {
            Ok(truncated_quotient(a as int, b as int) as i64)
        },
        Operation::Lt => Ok(truth(a < b)),
        Operation::Lte => Ok(truth(a <= b)),
        Operation::Gt => Ok(truth(a > b)),
        Operation::Gte => Ok(truth(a >= b)),
    }
}

/// Computes an integer instruction.
pub fn int_op(op: Operation, a: i64, b: i64) -> (r: Result<i64, FaultKind>)
    ensures
        r == int_result(op, a, b),
{
    match op {
        Operation::Add => match a.checked_add(b) {
            Some(v) => Ok(v),
            None => Err(FaultKind::Overflow),
        },
        Operation::Sub => match a.checked_sub(b) {
            Some(v) => Ok(v),
            None => Err(FaultKind::Overflow),
        },
        Operation::Mul => match a.checked_mul(b) {
            Some(v) => Ok(v),
            None => Err(FaultKind::Overflow),
        },
        Operation::Div => {
            if b == 0 {
                Err(FaultKind::DivisionByZero)
            } else if a == i64::MIN && b == -1 {
                Err(FaultKind::Overflow)
            } else {
                proof {
                    lemma_quotient_fits(a, b);
                }
                match a.checked_div(b) {
                    Some(v) => Ok(v),
                    None => Err(FaultKind::Overflow),
                }
            }
        },
        Operation::Lt => Ok(if a < b { 1 } else { 0 }),
        Operation::Lte => Ok(if a <= b { 1 } else { 0 }),
        Operation::Gt => Ok(if a > b { 1 } else { 0 }),
        Operation::Gte => Ok(if a >= b { 1 } else { 0 }),
    }
}

/// Apart from the least integer divided by -1, a truncated quotient of two
/// 64-bit integers fits in 64 bits.
proof fn lemma_quotient_fits(a: i64, b: i64)
    requires
        b != 0,
        !(a == i64::MIN && b == -1),
    ensures
        i64::MIN <= truncated_quotient(a as int, b as int) <= i64::MAX,
        a == 0 ==> truncated_quotient(a as int, b as int) == 0,
        (a as int) * -1 == -(a as int),
        (b as int) * -1 == -(b as int),
        a < 0 && b > 0 ==> ((-(a as int)) / (b as int)) * -1 == -((-(a as int)) / (b as int)),
        a > 0 && b < 0 ==> ((a as int) / (-(b as int))) * -1 == -((a as int) / (-(b as int))),
{
    let x = a as int;
    let d = b as int;
    let ax = if x >= 0 { x } else { -x };
    let ad = if d > 0 { d } else { -d };
    assert(0 <= ax / ad <= ax) by (nonlinear_arith)
        requires
            ax >= 0,
            ad > 0,
    ;
    if ax == -(i64::MIN as int) {
        assert(ad >= 2 || d == 1);
        if ad >= 2 {
            assert(ax / ad <= ax / 2) by (nonlinear_arith)
                requires
                    ax >= 0,
                    ad >= 2,
            ;
        }
    }
}

/// A machine together with the answers that the host will give to it, the
/// next one first.
pub struct Driven {
    pub unit: Unit,
    pub answers: Seq<Value>,
}

impl Driven {
    /// The same, with the program counter at `position`.
    pub open spec fn at(self, position: nat) -> Driven {
        Driven { unit: self.unit.goto(position), answers: self.answers }
    }

    /// One move. The machine executes an instruction of its own, or it takes
    /// the next answer for the floating-point instruction or the call that
    /// it stands in front of. It does not move when it has halted, when the
    /// instruction faults, or when the host's work is asked for and no answer
    /// that fits is at hand.
    pub open spec fn advance(self, functions: Seq<FnRecord>) -> Option<Driven> {
        match self.unit.step(functions) {
            Step::Next(unit) => Some(Driven { unit, answers: self.answers }),
            Step::Float { .. } | Step::Call { .. } => if self.answers.len() > 0 {
                match self.unit.resumed(functions, self.answers[0]) {
                    Ok(unit) => Some(Driven { unit, answers: self.answers.drop_first() }),
                    Err(_) => None,
                }
            } else {
                None
            },
            Step::Halt | Step::Fault(_) => None,
        }
    }

    /// The machine after up to `n` moves, fewer if it cannot move any more.
    pub open spec fn run(self, functions: Seq<FnRecord>, n: nat) -> Driven
        decreases n,
    {
        if n == 0 {
            self
        } else {
            match self.advance(functions) {
                Some(next) => next.run(functions, (n - 1) as nat),
                None => self,
            }
        }
    }

    /// A run of `n + m` moves is a run of `n` moves followed by one of `m`.
    pub proof fn lemma_run_split(self, functions: Seq<FnRecord>, n: nat, m: nat)
        ensures
            self.run(functions, n + m) == self.run(functions, n).run(functions, m),
        decreases n,
    {
        if n > 0 {
            match self.advance(functions) {
                Some(next) => {
                    next.lemma_run_split(functions, (n - 1) as nat, m);
                    assert((n + m - 1) as nat == (n - 1) as nat + m);
                },
                None => {
                    assert(self.run(functions, m) == self);
                },
            }
        }
    }

    /// A machine that cannot move after `n` moves is the same after any
    /// greater number of them.
    pub proof fn lemma_run_stays(self, functions: Seq<FnRecord>, n: nat, later: nat)
        requires
            n <= later,
            self.run(functions, n).advance(functions) is None,
        ensures
            self.run(functions, later) == self.run(functions, n),
    {
        self.lemma_run_split(functions, n, (later - n) as nat);
        let stuck = self.run(functions, n);
        assert(stuck.run(functions, (later - n) as nat) == stuck);
    }

    /// One move is a run of one move.
    pub proof fn lemma_run_one(self, functions: Seq<FnRecord>)
        requires
            self.advance(functions) is Some,
        ensures
            self.run(functions, 1) == self.advance(functions)->Some_0,
    {
        let next = self.advance(functions)->Some_0;
        assert(next.run(functions, 0) == next);
    }

    /// No move changes the code.
    pub proof fn lemma_run_keeps_code(self, functions: Seq<FnRecord>, n: nat)
        ensures
            self.run(functions, n).unit.code == self.unit.code,
        decreases n,
    {
        if n > 0 {
            match self.advance(functions) {
                Some(next) => {
                    next.lemma_run_keeps_code(functions, (n - 1) as nat);
                },
                None => {},
            }
        }
    }

    /// A move of a well-formed machine leaves it well-formed, with as many
    /// registers as before.
    pub proof fn lemma_advance_keeps_wf(self, functions: Seq<FnRecord>)
        requires
            self.unit.wf(),
            self.advance(functions) is Some,
        ensures
            self.advance(functions)->Some_0.unit.wf(),
            self.advance(functions)->Some_0.unit.code == self.unit.code,
            self.advance(functions)->Some_0.unit.values.len() == self.unit.values.len(),
    {
        let next = self.advance(functions)->Some_0.unit;
        assert(self.unit.code[self.unit.pc as int].registers_below(self.unit.values.len()));
        assert forall|i: int| 0 <= i < next.code.len() implies (#[trigger] next.code[i])
            .registers_below(next.values.len()) by {
            assert(self.unit.code[i].registers_below(self.unit.values.len()));
        }
    }

    /// A run of a well-formed machine leaves it well-formed, with as many
    /// registers as before.
    pub proof fn lemma_run_keeps_wf(self, functions: Seq<FnRecord>, n: nat)
        requires
            self.unit.wf(),
        ensures
            self.run(functions, n).unit.wf(),
            self.run(functions, n).unit.values.len() == self.unit.values.len(),
        decreases n,
    {
        if n > 0 {
            match self.advance(functions) {
                Some(next) => {
                    self.lemma_advance_keeps_wf(functions);
                    next.lemma_run_keeps_wf(functions, (n - 1) as nat);
                },
                None => {},
            }
        }
    }
}

impl Unit {
    /// The value that crosses the call boundary for register `r`: its
    /// payload with its tag.
    pub open spec fn boxed(self, r: RegisterId) -> Value {
        Value { ty: self.types[r.0 as int], val: self.values[r.0 as int] }
    }

    /// The unit with `val` as the payload of register `r`.
    pub open spec fn store(self, r: RegisterId, val: i64) -> Unit {
        Unit { values: self.values.update(r.0 as int, val), ..self }
    }

    /// The unit with the payload and the tag of `value` in register `r`.
    pub open spec fn unboxed(self, value: Value, r: RegisterId) -> Unit {
        Unit {
            values: self.values.update(r.0 as int, value.val),
            types: self.types.update(r.0 as int, value.ty),
            ..self
        }
    }

    /// The unit with its program counter at `position`.
    pub open spec fn goto(self, position: nat) -> Unit {
        Unit { pc: position, ..self }
    }

    /// What a call of `head` on the registers `args` asks of the host: the
    /// boxed arguments, if the function exists and declares this many
    /// arguments of these types.
    pub open spec fn call_request(
        self,
        functions: Seq<FnRecord>,
        head: FunctionId,
        args: Seq<RegisterId>,
    ) -> Result<Seq<Value>, FaultKind> {
        if head.0 >= functions.len() {
            Err(FaultKind::UnknownFunction)
        } else if args.len() != functions[head.0 as int].args@.len() {
            Err(FaultKind::ArityMismatch)
        } else if exists|i: int|
            0 <= i < args.len() && self.types[(#[trigger] args[i]).0 as int]
                != functions[head.0 as int].args@[i] {
            Err(FaultKind::ArgumentMismatch)
        } else {
            Ok(Seq::new(args.len(), |i: int| self.boxed(args[i])))
        }
    }

    /// What attempting the instruction under the program counter leads to.
    ///
    /// An integer instruction stores its result in its target and a move
    /// copies a payload; both pass on to the next position. A branch sets the
    /// program counter. A floating-point instruction and a call are handed
    /// to the host. A program counter at or past the end halts.
    pub open spec fn step(self, functions: Seq<FnRecord>) -> Step {
        if self.pc >= self.code.len() {
            Step::Halt
        } else {
            match self.code[self.pc as int] {
                Op::Int { op, lhs, rhs, target } => match int_result(
                    op,
                    self.values[lhs.0 as int],
                    self.values[rhs.0 as int],
                ) {
                    Ok(val) => Step::Next(self.store(target, val).goto(self.pc + 1)),
                    Err(kind) => Step::Fault(kind),
                },
                Op::Float { op, lhs, rhs, .. } => Step::Float {
                    op,
                    lhs: self.values[lhs.0 as int],
                    rhs: self.values[rhs.0 as int],
                },
                Op::Mov { target, source } => Step::Next(
                    self.store(target, self.values[source.0 as int]).goto(self.pc + 1),
                ),
                Op::Brif { condition, then_branch, else_branch } => Step::Next(
                    self.goto(
                        if self.values[condition.0 as int] != 0 {
                            then_branch.0 as nat
                        } else {
                            else_branch.0 as nat
                        },
                    ),
                ),
                Op::Jmp { location } => Step::Next(self.goto(location.0 as nat)),
                Op::Call { head, args, .. } => match self.call_request(functions, head, args) {
                    Ok(boxed) => Step::Call { head, args: boxed },
                    Err(kind) => Step::Fault(kind),
                },
            }
        }
    }

    /// What handing the machine the host's `answer` leads to.
    ///
    /// In front of a floating-point instruction the answer is a boolean for a
    /// comparison and a floating-point number for arithmetic, and its payload
    /// goes to the target. In front of a call the answer is a scalar of the
    /// type that the function declares to return, and the target takes both
    /// its payload and its tag. The machine then stands at the next position.
    pub open spec fn resumed(self, functions: Seq<FnRecord>, answer: Value) -> Result<
        Unit,
        FaultKind,
    > {
        if self.pc >= self.code.len() {
            Err(FaultKind::NothingPending)
        } else {
            match self.code[self.pc as int] {
                Op::Float { op, target, .. } => if answer.wf() && answer.ty == (if op.is_comparison() {
                    BOOL_TYPE
                } else {
                    F64_TYPE
                }) {
                    Ok(self.store(target, answer.val).goto(self.pc + 1))
                } else {
                    Err(FaultKind::AnswerMismatch)
                },
                Op::Call { head, args, target } => match self.call_request(functions, head, args) {
                    Ok(_) => if answer.wf() && answer.ty == functions[head.0 as int].ret {
                        Ok(self.unboxed(answer, target).goto(self.pc + 1))
                    } else {
                        Err(FaultKind::AnswerMismatch)
                    },
                    Err(kind) => Err(kind),
                },
                _ => Err(FaultKind::NothingPending),
            }
        }
    }

    /// The machine with no answer from the host at hand.
    pub open spec fn alone(self) -> Driven {
        Driven { unit: self, answers: Seq::empty() }
    }

    /// The machine after up to `n` instructions of its own, with no answer
    /// from the host.
    pub open spec fn run_alone(self, functions: Seq<FnRecord>, n: nat) -> Unit {
        self.alone().run(functions, n).unit
    }

    /// Whether the machine, left alone, has come to a stop after `n`
    /// instructions: it has halted, faulted, or waits for the host.
    pub open spec fn stops_within(self, functions: Seq<FnRecord>, n: nat) -> bool {
        !(self.run_alone(functions, n).step(functions) is Next)
    }

    /// Whether the machine, left alone, comes to a stop at all.
    pub open spec fn stops(self, functions: Seq<FnRecord>) -> bool {
        exists|n: nat| self.stops_within(functions, n)
    }

    /// A run without answers ends without answers.
    pub proof fn lemma_alone_stays_alone(self, functions: Seq<FnRecord>, n: nat)
        ensures
            self.alone().run(functions, n) == self.run_alone(functions, n).alone(),
        decreases n,
    {
        if n > 0 {
            match self.alone().advance(functions) {
                Some(next) => {
                    assert(next.answers =~= Seq::<Value>::empty());
                    next.unit.lemma_alone_stays_alone(functions, (n - 1) as nat);
                },
                None => {},
            }
        }
    }

    /// Left alone, a machine that can execute the instruction under its
    /// program counter after `n` instructions is, one instruction later, what
    /// that instruction makes of it.
    pub proof fn lemma_run_alone_next(self, functions: Seq<FnRecord>, n: nat)
        requires
            self.run_alone(functions, n).step(functions) is Next,
        ensures
            self.run_alone(functions, n + 1) == self.run_alone(functions, n).step(functions)->Next_0,
    {
        self.lemma_alone_stays_alone(functions, n);
        self.alone().lemma_run_split(functions, n, 1);
        self.run_alone(functions, n).alone().lemma_run_one(functions);
    }

    /// A move copies a payload and nothing else.
    ///
    /// After a move the target holds the payload that the source holds; the
    /// source and every other register hold what they held; no tag has
    /// changed; and the machine stands at the next position. So what is
    /// assigned to a variable's register is what every later reader of that
    /// register finds.
    pub proof fn law_move_copies_payload(
        self,
        functions: Seq<FnRecord>,
        target: RegisterId,
        source: RegisterId,
    )
        requires
            self.wf(),
            self.pc < self.code.len(),
            self.code[self.pc as int] == (Op::Mov { target, source }),
        ensures
            self.step(functions) is Next,
            ({
                let next = self.step(functions)->Next_0;
                &&& next.values[target.0 as int] == self.values[source.0 as int]
                &&& forall|r: int|
                    0 <= r < self.values.len() && r != target.0 ==> next.values[r] == self.values[r]
                &&& next.types == self.types
                &&& next.code == self.code
                &&& next.pc == self.pc + 1
            }),
    {
        assert(self.code[self.pc as int].registers_below(self.values.len()));
    }

    /// A register keeps the tag that it was created with, but for the
    /// target of a call.
    ///
    /// No instruction that the machine executes by itself changes a tag: a
    /// move and an integer instruction store a payload only. Nor does the
    /// answer to a floating-point instruction. The answer to a call gives the
    /// call's target the type that the function declares to return, and
    /// changes no other tag.
    pub proof fn law_tags_are_kept(self, functions: Seq<FnRecord>, answer: Value, r: RegisterId)
        requires
            self.wf(),
            self.has(r),
        ensures
            self.step(functions) matches Step::Next(next) ==> next.types == self.types,
            self.resumed(functions, answer) matches Ok(next) ==> {
                ||| next.types[r.0 as int] == self.types[r.0 as int]
                ||| {
                    &&& self.code[self.pc as int] matches Op::Call { head, target, .. }
                    &&& target == r
                    &&& next.types[r.0 as int] == functions[head.0 as int].ret
                }
            },
    {
        if self.pc < self.code.len() {
            assert(self.code[self.pc as int].registers_below(self.values.len()));
        }
    }

    /// An answer that is taken leaves the machine well-formed, with as many
    /// registers as before.
    pub proof fn lemma_resumed_keeps_wf(self, functions: Seq<FnRecord>, answer: Value)
        requires
            self.wf(),
            self.resumed(functions, answer) is Ok,
        ensures
            self.resumed(functions, answer)->Ok_0.wf(),
            self.resumed(functions, answer)->Ok_0.values.len() == self.values.len(),
    {
        let next = self.resumed(functions, answer)->Ok_0;
        assert(self.code[self.pc as int].registers_below(self.values.len()));
        assert forall|i: int| 0 <= i < next.code.len() implies (#[trigger] next.code[i])
            .registers_below(next.values.len()) by {
            assert(self.code[i].registers_below(self.values.len()));
        }
    }

    /// The machine as it stands once it has come to a stop, left alone.
    pub open spec fn settled(self, functions: Seq<FnRecord>) -> Unit
        recommends
            self.stops(functions),
    {
        self.run_alone(functions, choose|n: nat| self.stops_within(functions, n))
    }

    /// Whatever number of instructions brings the machine to a stop, it
    /// stops as the same machine.
    pub proof fn lemma_settled(self, functions: Seq<FnRecord>, n: nat)
        requires
            self.stops_within(functions, n),
        ensures
            self.settled(functions) == self.run_alone(functions, n),
            !(self.settled(functions).step(functions) is Next),
    {
        let chosen = choose|n: nat| self.stops_within(functions, n);
        self.lemma_alone_stays_alone(functions, n);
        self.lemma_alone_stays_alone(functions, chosen);
        if n <= chosen {
            self.alone().lemma_run_stays(functions, n, chosen);
        } else {
            self.alone().lemma_run_stays(functions, chosen, n);
        }
    }
}

/// Whether `reported` is what `eval` says of a machine that has come to a
/// stop as `unit`: register 0 if it halted, the host's task if it waits, the
/// fault with its position if it faulted.
pub open spec fn reports(reported: Result<Outcome, Fault>, unit: Unit, functions: Seq<FnRecord>) -> bool {
    match unit.step(functions) {
        Step::Next(_) => false,
        Step::Halt => reported matches Ok(Outcome::Finished { payload, ty }) && payload
            == unit.values[0] && ty == unit.types[0],
        Step::Float { op, lhs, rhs } => reported matches Ok(Outcome::Float { op: o, lhs: l, rhs: r })
            && o == op && l == lhs && r == rhs,
        Step::Call { head, args } => reported matches Ok(Outcome::Call { head: h, args: a }) && h
            == head && a@ == args,
        Step::Fault(kind) => reported == Err::<Outcome, Fault>(
            Fault { at: InstructionId(unit.pc as usize), kind },
        ),
    }
}

impl FunctionCodegen {
    /// Boxes a register for the call boundary: its payload with its tag.
    pub fn box_register(&self, register_id: RegisterId) -> (value: Value)
        requires
            self.wf(),
            self@.has(register_id),
        ensures
            value == self@.boxed(register_id),
    {
        Value { ty: self.register_types[register_id.0], val: self.register_values[register_id.0] }
    }

    /// Unboxes `value` into the register `target`, which takes its payload
    /// and its tag. A value that is not one of the engine's scalars is
    /// refused, and the register file is then left as it was.
    pub fn unbox_to_register(&mut self, value: Value, target: RegisterId) -> (r: Result<
        (),
        ValueError,
    >)
        requires
            old(self).wf(),
            old(self)@.has(target),
        ensures
            final(self).wf(),
            r == value.checked(),
            final(self)@ == (if value.wf() {
                old(self)@.unboxed(value, target)
            } else {
                old(self)@
            }),
    {
        match value.check() {
            Ok(()) => {
                self.register_values.set(target.0, value.val);
                self.register_types.set(target.0, value.ty);
                assert(self@.code == old(self)@.code);
                assert forall|i: int| 0 <= i < self@.code.len() implies (#[trigger] self@.code[i])
                    .registers_below(self@.values.len()) by {
                    assert(old(self)@.code[i].registers_below(old(self)@.values.len()));
                }
                Ok(())
            },
            Err(e) => Err(e),
        }
    }

    /// Prepares the call of function `head` on the registers `args`: tests
    /// that the function exists and declares this many arguments of these
    /// types, and boxes the arguments for the host.
    pub fn eval_external_call(
        &self,
        head: FunctionId,
        args: &[RegisterId],
        functions: &[FnRecord],
    ) -> (r: Result<Vec<Value>, FaultKind>)
        requires
            self.wf(),
            forall|i: int| 0 <= i < args@.len() ==> self@.has(#[trigger] args@[i]),
        ensures
            match r {
                Ok(boxed) => self@.call_request(functions@, head, args@) == Ok::<
                    Seq<Value>,
                    FaultKind,
                >(boxed@),
                Err(kind) => self@.call_request(functions@, head, args@) == Err::<
                    Seq<Value>,
                    FaultKind,
                >(kind),
            },
    {
        if head.0 >= functions.len() {
            return Err(FaultKind::UnknownFunction);
        }
        let declared = &functions[head.0].args;
        if args.len() != declared.len() {
            return Err(FaultKind::ArityMismatch);
        }
        let mut boxed: Vec<Value> = Vec::new();
        let mut i: usize = 0;
        while i < args.len()
            invariant
                self.wf(),
                forall|j: int| 0 <= j < args@.len() ==> self@.has(#[trigger] args@[j]),
                head.0 < functions@.len(),
                declared == &functions@[head.0 as int].args,
                args@.len() == declared@.len(),
                0 <= i <= args@.len(),
                boxed@.len() == i,
                forall|j: int| 0 <= j < i ==> boxed@[j] == self@.boxed(#[trigger] args@[j]),
                forall|j: int|
                    0 <= j < i ==> self@.types[(#[trigger] args@[j]).0 as int] == declared@[j],
            decreases args@.len() - i,
        {
            let register = args[i];
            if self.register_types[register.0] != declared[i] {
                return Err(FaultKind::ArgumentMismatch);
            }
            boxed.push(self.box_register(register));
            i += 1;
        }
        assert(boxed@ =~= Seq::new(args@.len(), |j: int| self@.boxed(args@[j])));
        Ok(boxed)
    }

    /// Attempts the instruction under the program counter. `None` says that
    /// it was executed; otherwise the machine is left as it was, and the
    /// answer says why it stopped.
    pub fn step(&mut self, functions: &[FnRecord]) -> (r: Result<Option<Outcome>, Fault>)
        requires
            old(self).wf(),
            old(self)@.values.len() > 0,
        ensures
            final(self).wf(),
            final(self)@.values.len() == old(self)@.values.len(),
            final(self)@.code == old(self)@.code,
            final(self)@.types == old(self)@.types,
            match r {
                Ok(None) => old(self)@.step(functions@) == Step::Next(final(self)@),
                Ok(Some(outcome)) => final(self)@ == old(self)@ && reports(
                    Ok(outcome),
                    old(self)@,
                    functions@,
                ),
                Err(fault) => final(self)@ == old(self)@ && reports(
                    Err(fault),
                    old(self)@,
                    functions@,
                ),
            },
    {
        let pc = self.instruction_pointer;
        if pc >= self.instructions.len() {
            return Ok(
                Some(
                    Outcome::Finished {
                        payload: self.register_values[0],
                        ty: self.register_types[0],
                    },
                ),
            );
        }
        assert(self@.code[pc as int] == self.instructions@[pc as int]@);
        assert(self@.code[pc as int].registers_below(self@.values.len()));
        match &self.instructions[pc] {
            Instruction::IADD { lhs, rhs, target } => self.integer(
                Operation::Add,
                *lhs,
                *rhs,
                *target,
                Ghost(functions@),
            ),
            Instruction::ISUB { lhs, rhs, target } => self.integer(
                Operation::Sub,
                *lhs,
                *rhs,
                *target,
                Ghost(functions@),
            ),
            Instruction::IMUL { lhs, rhs, target } => self.integer(
                Operation::Mul,
                *lhs,
                *rhs,
                *target,
                Ghost(functions@),
            ),
            Instruction::IDIV { lhs, rhs, target } => self.integer(
                Operation::Div,
                *lhs,
                *rhs,
                *target,
                Ghost(functions@),
            ),
            Instruction::ILT { lhs, rhs, target } => self.integer(
                Operation::Lt,
                *lhs,
                *rhs,
                *target,
                Ghost(functions@),
            ),
            Instruction::ILTE { lhs, rhs, target } => self.integer(
                Operation::Lte,
                *lhs,
                *rhs,
                *target,
                Ghost(functions@),
            ),
            Instruction::IGT { lhs, rhs, target } => self.integer(
                Operation::Gt,
                *lhs,
                *rhs,
                *target,
                Ghost(functions@),
            ),
            Instruction::IGTE { lhs, rhs, target } => self.integer(
                Operation::Gte,
                *lhs,
                *rhs,
                *target,
                Ghost(functions@),
            ),
            Instruction::FADD { lhs, rhs, .. } => Ok(Some(self.floating(Operation::Add, *lhs, *rhs))),
            Instruction::FSUB { lhs, rhs, .. } => Ok(Some(self.floating(Operation::Sub, *lhs, *rhs))),
            Instruction::FMUL { lhs, rhs, .. } => Ok(Some(self.floating(Operation::Mul, *lhs, *rhs))),
            Instruction::FDIV { lhs, rhs, .. } => Ok(Some(self.floating(Operation::Div, *lhs, *rhs))),
            Instruction::FLT { lhs, rhs, .. } => Ok(Some(self.floating(Operation::Lt, *lhs, *rhs))),
            Instruction::FLTE { lhs, rhs, .. } => Ok(Some(self.floating(Operation::Lte, *lhs, *rhs))),
            Instruction::FGT { lhs, rhs, .. } => Ok(Some(self.floating(Operation::Gt, *lhs, *rhs))),
            Instruction::FGTE { lhs, rhs, .. } => Ok(Some(self.floating(Operation::Gte, *lhs, *rhs))),
            Instruction::MOV { target, source } => {
                let target = *target;
                let val = self.register_values[source.0];
                self.register_values.set(target.0, val);
                self.instruction_pointer = pc + 1;
                Ok(None)
            },
            Instruction::BRIF { condition, then_branch, else_branch } => {
                let taken = if self.register_values[condition.0] == 0 {
                    else_branch.0
                } else {
                    then_branch.0
                };
                self.instruction_pointer = taken;
                Ok(None)
            },
            Instruction::JMP(location) => {
                let taken = location.0;
                self.instruction_pointer = taken;
                Ok(None)
            },
            Instruction::EXTERNALCALL { head, args, .. } => {
                match self.eval_external_call(*head, args.as_slice(), functions) {
                    Ok(boxed) => Ok(Some(Outcome::Call { head: *head, args: boxed })),
                    Err(kind) => Err(Fault { at: InstructionId(pc), kind }),
                }
            },
        }
    }

    /// Executes the integer instruction under the program counter.
    fn integer(
        &mut self,
        op: Operation,
        lhs: RegisterId,
        rhs: RegisterId,
        target: RegisterId,
        Ghost(functions): Ghost<Seq<FnRecord>>,
    ) -> (r: Result<Option<Outcome>, Fault>)
        requires
            old(self).wf(),
            old(self)@.pc < old(self)@.code.len(),
            old(self)@.code[old(self)@.pc as int] == (Op::Int { op, lhs, rhs, target }),
        ensures
            final(self).wf(),
            final(self)@.values.len() == old(self)@.values.len(),
            final(self)@.code == old(self)@.code,
            final(self)@.types == old(self)@.types,
            match r {
                Ok(None) => old(self)@.step(functions) == Step::Next(final(self)@),
                Ok(Some(_)) => false,
                Err(fault) => final(self)@ == old(self)@ && old(self)@.step(functions)
                    == Step::Fault(fault.kind) && fault.at.0 == old(self)@.pc,
            },
    {
        let pc = self.instruction_pointer;
        assert(self@.code[pc as int].registers_below(self@.values.len()));
        let length = self.instructions.len();
        assert(pc < length);
        match int_op(op, self.register_values[lhs.0], self.register_values[rhs.0]) {
            Ok(val) => {
                self.register_values.set(target.0, val);
                self.instruction_pointer = pc + 1;
                Ok(None)
            },
            Err(kind) => Err(Fault { at: InstructionId(pc), kind }),
        }
    }

    /// The host's task for the floating-point instruction under the program
    /// counter.
    fn floating(&self, op: Operation, lhs: RegisterId, rhs: RegisterId) -> (outcome: Outcome)
        requires
            self.wf(),
            self@.has(lhs),
            self@.has(rhs),
        ensures
            outcome matches Outcome::Float { op: o, lhs: l, rhs: r } && o == op && l
                == self@.values[lhs.0 as int] && r == self@.values[rhs.0 as int],
    {
        Outcome::Float { op, lhs: self.register_values[lhs.0], rhs: self.register_values[rhs.0] }
    }

    /// Hands the machine the host's answer to the floating-point instruction
    /// or the call that it waits in front of, and passes on to the next
    /// position. An answer that does not fit, or one that was not asked for,
    /// is a fault and leaves the machine as it was.
    pub fn resume(&mut self, answer: Value, functions: &[FnRecord]) -> (r: Result<(), Fault>)
        requires
            old(self).wf(),
        ensures
            final(self).wf(),
            match r {
                Ok(()) => old(self)@.resumed(functions@, answer) == Ok::<Unit, FaultKind>(
                    final(self)@,
                ),
                Err(fault) => {
                    &&& old(self)@.resumed(functions@, answer) == Err::<Unit, FaultKind>(fault.kind)
                    &&& fault.at.0 == old(self)@.pc
                    &&& final(self)@ == old(self)@
                },
            },
    {
        let pc = self.instruction_pointer;
        if pc >= self.instructions.len() {
            return Err(Fault { at: InstructionId(pc), kind: FaultKind::NothingPending });
        }
        assert(self@.code[pc as int] == self.instructions@[pc as int]@);
        assert(self@.code[pc as int].registers_below(self@.values.len()));
        let (target, expected, call) = match &self.instructions[pc] {
            Instruction::FADD { target, .. }
            | Instruction::FSUB { target, .. }
            | Instruction::FMUL { target, .. }
            | Instruction::FDIV { target, .. } => (*target, F64_TYPE, false),
            Instruction::FLT { target, .. }
            | Instruction::FLTE { target, .. }
            | Instruction::FGT { target, .. }
            | Instruction::FGTE { target, .. } => (*target, BOOL_TYPE, false),
            Instruction::EXTERNALCALL { head, args, target } => {
                match self.eval_external_call(*head, args.as_slice(), functions) {
                    Ok(_) => (*target, functions[head.0].ret, true),
                    Err(kind) => {
                        return Err(Fault { at: InstructionId(pc), kind });
                    },
                }
            },
            _ => {
                return Err(Fault { at: InstructionId(pc), kind: FaultKind::NothingPending });
            },
        };
        if answer.ty != expected || answer.check().is_err() {
            return Err(Fault { at: InstructionId(pc), kind: FaultKind::AnswerMismatch });
        }
        if call {
            let _ = self.unbox_to_register(answer, target);
        } else {
            self.register_values.set(target.0, answer.val);
        }
        self.instruction_pointer = pc + 1;
        Ok(())
    }

    /// Runs the unit from its program counter until it comes to a stop, and
    /// says why it stopped: it ran to its end, and this is register 0; or it
    /// waits for the host in front of a floating-point instruction or a call;
    /// or an instruction faulted.
    ///
    /// The machine puts no bound on the number of instructions. That the
    /// unit comes to a stop is therefore asked of the caller.
    pub fn eval(&mut self, functions: &[FnRecord]) -> (r: Result<Outcome, Fault>)
        requires
            old(self).wf(),
            old(self)@.values.len() > 0,
            old(self)@.stops(functions@),
        ensures
            final(self).wf(),
            final(self)@ == old(self)@.settled(functions@),
            reports(r, final(self)@, functions@),
    {
        let ghost start = self@;
        let ghost bound = choose|n: nat| start.stops_within(functions@, n);
        let ghost mut done: nat = 0;
        loop
            invariant
                start == old(self)@,
                self.wf(),
                self@.values.len() > 0,
                start.stops_within(functions@, bound),
                done <= bound,
                self@ == start.run_alone(functions@, done),
            decreases bound - done,
        {
            match self.step(functions) {
                Ok(None) => {
                    proof {
                        start.lemma_run_alone_next(functions@, done);
                        done = done + 1;
                    }
                },
                Ok(Some(outcome)) => {
                    proof {
                        start.lemma_settled(functions@, done);
                    }
                    return Ok(outcome);
                },
                Err(fault) => {
                    proof {
                        start.lemma_settled(functions@, done);
                    }
                    return Err(fault);
                },
            }
        }
    }
}

} // verus!
