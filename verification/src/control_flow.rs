//! How the machine runs the code of a conditional and of a loop.
//!
//! A construct's code is a stretch of the instruction sequence. A layout
//! names the positions in it that matter: where its branch stands, where the
//! code of its parts ends. The laws here hold of any machine whose code is so
//! laid out, whatever stands in the parts.

use vstd::prelude::*;
use crate::ids::{InstructionId, RegisterId};
use crate::instruction::{Op, Operation};
use crate::machine::Driven;
use crate::typechecker::FnRecord;

verus! {

impl Driven {
    /// Whether the machine runs through the stretch of code from `low` up to
    /// `high` in exactly `n` moves: it starts in the stretch, stays in it,
    /// and after the last move stands at `high`, its end. A machine that
    /// stands at `high` has run through in no move.
    pub open spec fn runs_through(self, functions: Seq<FnRecord>, low: nat, high: nat, n: nat) -> bool
        decreases n,
    {
        if n == 0 {
            self.unit.pc == high
        } else {
            &&& low <= self.unit.pc < high
            &&& match self.advance(functions) {
                Some(next) => next.runs_through(functions, low, high, (n - 1) as nat),
                None => false,
            }
        }
    }

    /// A machine that has run through a stretch stands at its end.
    pub proof fn lemma_runs_through_ends(self, functions: Seq<FnRecord>, low: nat, high: nat, n: nat)
        requires
            self.runs_through(functions, low, high, n),
        ensures
            self.run(functions, n).unit.pc == high,
            self.run(functions, n).unit.code == self.unit.code,
        decreases n,
    {
        self.lemma_run_keeps_code(functions, n);
        if n > 0 {
            self.advance(functions)->Some_0.lemma_runs_through_ends(
                functions,
                low,
                high,
                (n - 1) as nat,
            );
        }
    }

    /// A machine that runs through a stretch in which no instruction stores
    /// into register `r` leaves the payload and the tag of `r` as they were.
    pub proof fn lemma_runs_through_spares(
        self,
        functions: Seq<FnRecord>,
        low: nat,
        high: nat,
        n: nat,
        r: RegisterId,
    )
        requires
            self.unit.wf(),
            self.unit.has(r),
            self.runs_through(functions, low, high, n),
            high <= self.unit.code.len(),
            forall|i: int| low <= i < high ==> (#[trigger] self.unit.code[i]).target() != Some(r),
        ensures
            self.run(functions, n).unit.values[r.0 as int] == self.unit.values[r.0 as int],
            self.run(functions, n).unit.types[r.0 as int] == self.unit.types[r.0 as int],
        decreases n,
    {
        if n > 0 {
            let next = self.advance(functions)->Some_0;
            let op = self.unit.code[self.unit.pc as int];
            assert(op.target() != Some(r));
            assert(op.registers_below(self.unit.values.len()));
            self.lemma_advance_keeps_wf(functions);
            next.lemma_runs_through_spares(functions, low, high, (n - 1) as nat, r);
        }
    }
}

/// The `else` part in the layout of a conditional.
pub struct Otherwise {
    /// Where the code of the `else` expression ends: the position of the
    /// move that collects its value.
    pub end: nat,
    /// The register that holds the value of the `else` expression.
    pub value: RegisterId,
}

/// The layout of a conditional: a branch on `flag` at position `branch`; the
/// code of the `then` block from the next position up to `then_end`, where a
/// move brings `then_value` into `output`; and, with an `else`, a jump past
/// the conditional, the code of the `else` expression, and a move of its
/// value into `output`.
pub struct Conditional {
    pub flag: RegisterId,
    pub output: RegisterId,
    pub branch: nat,
    pub then_end: nat,
    pub then_value: RegisterId,
    pub otherwise: Option<Otherwise>,
}

impl Conditional {
    /// Where the code of the `then` block starts.
    pub open spec fn then_start(self) -> nat {
        self.branch + 1
    }

    /// Where the code of the `else` expression starts, if there is one.
    pub open spec fn else_start(self) -> nat {
        self.then_end + 2
    }

    /// The position after the conditional.
    pub open spec fn end(self) -> nat {
        match self.otherwise {
            Some(otherwise) => otherwise.end + 1,
            None => self.then_end + 1,
        }
    }

    /// Whether `code` holds, at the positions of this layout, the branch, the
    /// moves and the jump of a conditional.
    pub open spec fn laid_out_in(self, code: Seq<Op>) -> bool {
        &&& self.then_start() <= self.then_end
        &&& self.end() <= code.len()
        &&& self.end() <= usize::MAX
        &&& code[self.then_end as int] == (Op::Mov { target: self.output, source: self.then_value })
        &&& match self.otherwise {
            Some(otherwise) => {
                &&& self.else_start() <= otherwise.end
                &&& code[self.branch as int] == (Op::Brif {
                    condition: self.flag,
                    then_branch: InstructionId(self.then_start() as usize),
                    else_branch: InstructionId(self.else_start() as usize),
                })
                &&& code[self.then_end as int + 1] == (Op::Jmp {
                    location: InstructionId(self.end() as usize),
                })
                &&& code[otherwise.end as int] == (Op::Mov {
                    target: self.output,
                    source: otherwise.value,
                })
            },
            None => code[self.branch as int] == (Op::Brif {
                condition: self.flag,
                then_branch: InstructionId(self.then_start() as usize),
                else_branch: InstructionId(self.end() as usize),
            }),
        }
    }

    /// A conditional whose condition holds yields what its `then` block
    /// yields.
    ///
    /// A machine stands at the branch, and its flag is not zero. If, entered
    /// at the start of the `then` block, it runs through the code of that
    /// block in `n` moves, then from the branch it comes to stand after the
    /// conditional in two moves more, three with an `else`: as the machine
    /// that ran through the `then` block, with the value of that block in the
    /// conditional's result register.
    pub proof fn law_then_branch(self, machine: Driven, functions: Seq<FnRecord>, n: nat)
        requires
            self.laid_out_in(machine.unit.code),
            machine.unit.pc == self.branch,
            machine.unit.values[self.flag.0 as int] != 0,
            machine.at(self.then_start()).runs_through(
                functions,
                self.then_start(),
                self.then_end,
                n,
            ),
        ensures
            machine.run(
                functions,
                n + (if self.otherwise is Some {
                    3nat
                } else {
                    2nat
                }),
            ) == ({
                let through = machine.at(self.then_start()).run(functions, n);
                Driven {
                    unit: through.unit.store(
                        self.output,
                        through.unit.values[self.then_value.0 as int],
                    ).goto(self.end()),
                    answers: through.answers,
                }
            }),
    {
        let entered = machine.at(self.then_start());
        let through = entered.run(functions, n);
        assert(machine.advance(functions) == Some(entered));
        machine.lemma_run_one(functions);
        machine.lemma_run_split(functions, 1, n);
        entered.lemma_runs_through_ends(functions, self.then_start(), self.then_end, n);
        let collected = Driven {
            unit: through.unit.store(self.output, through.unit.values[self.then_value.0 as int]).goto(
                self.then_end + 1,
            ),
            answers: through.answers,
        };
        assert(through.advance(functions) == Some(collected));
        through.lemma_run_one(functions);
        machine.lemma_run_split(functions, 1 + n, 1);
        assert(machine.run(functions, n + 2) == collected);
        if self.otherwise is Some {
            assert(collected.advance(functions) == Some(collected.at(self.end())));
            collected.lemma_run_one(functions);
            machine.lemma_run_split(functions, n + 2, 1);
        }
    }

    /// A conditional whose condition fails yields what its `else` expression
    /// yields.
    ///
    /// A machine stands at the branch, and its flag is zero. If, entered at
    /// the start of the `else` expression, it runs through the code of that
    /// expression in `n` moves, then from the branch it comes to stand after
    /// the conditional in two moves more: as the machine that ran through the
    /// `else` expression, with the value of that expression in the
    /// conditional's result register.
    pub proof fn law_else_branch(self, machine: Driven, functions: Seq<FnRecord>, n: nat)
        requires
            self.laid_out_in(machine.unit.code),
            self.otherwise is Some,
            machine.unit.pc == self.branch,
            machine.unit.values[self.flag.0 as int] == 0,
            machine.at(self.else_start()).runs_through(
                functions,
                self.else_start(),
                self.otherwise->Some_0.end,
                n,
            ),
        ensures
            machine.run(functions, n + 2) == ({
                let through = machine.at(self.else_start()).run(functions, n);
                Driven {
                    unit: through.unit.store(
                        self.output,
                        through.unit.values[self.otherwise->Some_0.value.0 as int],
                    ).goto(self.end()),
                    answers: through.answers,
                }
            }),
    {
        let otherwise = self.otherwise->Some_0;
        let entered = machine.at(self.else_start());
        let through = entered.run(functions, n);
        assert(machine.advance(functions) == Some(entered));
        machine.lemma_run_one(functions);
        machine.lemma_run_split(functions, 1, n);
        entered.lemma_runs_through_ends(functions, self.else_start(), otherwise.end, n);
        let collected = Driven {
            unit: through.unit.store(self.output, through.unit.values[otherwise.value.0 as int]).goto(
                self.end(),
            ),
            answers: through.answers,
        };
        assert(through.advance(functions) == Some(collected));
        through.lemma_run_one(functions);
        machine.lemma_run_split(functions, 1 + n, 1);
    }

    /// A conditional without an `else` whose condition fails is passed over
    /// in one move, and nothing is stored.
    pub proof fn law_no_branch(self, machine: Driven, functions: Seq<FnRecord>)
        requires
            self.laid_out_in(machine.unit.code),
            self.otherwise is None,
            machine.unit.pc == self.branch,
            machine.unit.values[self.flag.0 as int] == 0,
        ensures
            machine.run(functions, 1) == machine.at(self.end()),
    {
        assert(machine.advance(functions) == Some(machine.at(self.end())));
        machine.lemma_run_one(functions);
    }
}

/// The layout of a loop: the code of the condition from `top` up to
/// `branch`, where a branch on `flag` stands; the code of the body from the
/// next position up to `back`, where a jump leads back to `top`.
pub struct Loop {
    pub flag: RegisterId,
    pub output: RegisterId,
    pub top: nat,
    pub branch: nat,
    pub back: nat,
}

impl Loop {
    /// Where the code of the body starts.
    pub open spec fn body_start(self) -> nat {
        self.branch + 1
    }

    /// The position after the loop.
    pub open spec fn end(self) -> nat {
        self.back + 1
    }

    /// Whether `code` holds, at the positions of this layout, the branch and
    /// the jump of a loop.
    pub open spec fn laid_out_in(self, code: Seq<Op>) -> bool {
        &&& self.top <= self.branch < self.back
        &&& self.end() <= code.len()
        &&& self.end() <= usize::MAX
        &&& code[self.branch as int] == (Op::Brif {
            condition: self.flag,
            then_branch: InstructionId(self.body_start() as usize),
            else_branch: InstructionId(self.end() as usize),
        })
        &&& code[self.back as int] == (Op::Jmp { location: InstructionId(self.top as usize) })
    }

    /// Whether no instruction of the loop in `code` stores into the loop's
    /// own result register.
    pub open spec fn spares_output(self, code: Seq<Op>) -> bool {
        forall|i: int| self.top <= i < self.end() ==> (#[trigger] code[i]).target() != Some(self.output)
    }

    /// One turn of a loop whose condition holds.
    ///
    /// A machine stands at the top. If it runs through the code of the
    /// condition in `test` moves, its flag is then not zero, and, entered at
    /// the start of the body, it runs through the code of the body in `body`
    /// moves, then two moves more bring it back to the top, as the machine
    /// that ran through the body.
    pub proof fn law_turn(self, machine: Driven, functions: Seq<FnRecord>, test: nat, body: nat)
        requires
            self.laid_out_in(machine.unit.code),
            machine.runs_through(functions, self.top, self.branch, test),
            machine.run(functions, test).unit.values[self.flag.0 as int] != 0,
            machine.run(functions, test).at(self.body_start()).runs_through(
                functions,
                self.body_start(),
                self.back,
                body,
            ),
        ensures
            machine.run(functions, test + body + 2) == machine.run(functions, test).at(
                self.body_start(),
            ).run(functions, body).at(self.top),
    {
        let tested = machine.run(functions, test);
        machine.lemma_runs_through_ends(functions, self.top, self.branch, test);
        let entered = tested.at(self.body_start());
        assert(tested.advance(functions) == Some(entered));
        tested.lemma_run_one(functions);
        machine.lemma_run_split(functions, test, 1);
        let through = entered.run(functions, body);
        entered.lemma_runs_through_ends(functions, self.body_start(), self.back, body);
        machine.lemma_run_split(functions, test + 1, body);
        assert(through.advance(functions) == Some(through.at(self.top)));
        through.lemma_run_one(functions);
        machine.lemma_run_split(functions, test + 1 + body, 1);
    }

    /// The last test of a loop.
    ///
    /// A machine stands at the top. If it runs through the code of the
    /// condition in `test` moves and its flag is then zero, one move more
    /// brings it past the loop.
    pub proof fn law_leave(self, machine: Driven, functions: Seq<FnRecord>, test: nat)
        requires
            self.laid_out_in(machine.unit.code),
            machine.runs_through(functions, self.top, self.branch, test),
            machine.run(functions, test).unit.values[self.flag.0 as int] == 0,
        ensures
            machine.run(functions, test + 1) == machine.run(functions, test).at(self.end()),
    {
        let tested = machine.run(functions, test);
        machine.lemma_runs_through_ends(functions, self.top, self.branch, test);
        assert(tested.advance(functions) == Some(tested.at(self.end())));
        tested.lemma_run_one(functions);
        machine.lemma_run_split(functions, test, 1);
    }

    /// The machine as it stands at the top of the loop for the time `turn`,
    /// counted from 0, where the test before turn `i` takes `tests(i)` moves
    /// and the body in turn `i` takes `bodies(i)` moves.
    pub open spec fn visit(
        self,
        machine: Driven,
        functions: Seq<FnRecord>,
        tests: spec_fn(nat) -> nat,
        bodies: spec_fn(nat) -> nat,
        turn: nat,
    ) -> Driven
        decreases turn,
    {
        if turn == 0 {
            machine
        } else {
            let before = self.visit(machine, functions, tests, bodies, (turn - 1) as nat);
            before.run(functions, tests((turn - 1) as nat)).at(self.body_start()).run(
                functions,
                bodies((turn - 1) as nat),
            ).at(self.top)
        }
    }

    /// The number of moves that the first `turns` turns take.
    pub open spec fn moves(tests: spec_fn(nat) -> nat, bodies: spec_fn(nat) -> nat, turns: nat) -> nat
        decreases turns,
    {
        if turns == 0 {
            0
        } else {
            Self::moves(tests, bodies, (turns - 1) as nat) + tests((turns - 1) as nat) + bodies(
                (turns - 1) as nat,
            ) + 2
        }
    }

    /// Whether the loop, entered by `machine` at its top, takes exactly
    /// `bound` turns: before each of them the condition is tested and holds,
    /// the body is run through, and the test after the last of them fails.
    pub open spec fn counts(
        self,
        machine: Driven,
        functions: Seq<FnRecord>,
        tests: spec_fn(nat) -> nat,
        bodies: spec_fn(nat) -> nat,
        bound: nat,
    ) -> bool {
        &&& forall|turn: nat|
            turn <= bound ==> (#[trigger] self.visit(
                machine,
                functions,
                tests,
                bodies,
                turn,
            )).runs_through(functions, self.top, self.branch, tests(turn))
        &&& forall|turn: nat|
            turn < bound ==> {
                let tested = (#[trigger] self.visit(machine, functions, tests, bodies, turn)).run(
                    functions,
                    tests(turn),
                );
                &&& tested.unit.values[self.flag.0 as int] != 0
                &&& tested.at(self.body_start()).runs_through(
                    functions,
                    self.body_start(),
                    self.back,
                    bodies(turn),
                )
            }
        &&& self.visit(machine, functions, tests, bodies, bound).run(
            functions,
            tests(bound),
        ).unit.values[self.flag.0 as int] == 0
    }

    /// The machine reaches the top for the time `turn` after the moves of
    /// the turns before.
    pub proof fn lemma_visits(
        self,
        machine: Driven,
        functions: Seq<FnRecord>,
        tests: spec_fn(nat) -> nat,
        bodies: spec_fn(nat) -> nat,
        bound: nat,
        turn: nat,
    )
        requires
            self.laid_out_in(machine.unit.code),
            self.counts(machine, functions, tests, bodies, bound),
            turn <= bound,
        ensures
            machine.run(functions, Self::moves(tests, bodies, turn)) == self.visit(
                machine,
                functions,
                tests,
                bodies,
                turn,
            ),
            self.visit(machine, functions, tests, bodies, turn).unit.code == machine.unit.code,
        decreases turn,
    {
        if turn > 0 {
            let earlier = (turn - 1) as nat;
            self.lemma_visits(machine, functions, tests, bodies, bound, earlier);
            let before = self.visit(machine, functions, tests, bodies, earlier);
            self.law_turn(before, functions, tests(earlier), bodies(earlier));
            machine.lemma_run_split(
                functions,
                Self::moves(tests, bodies, earlier),
                tests(earlier) + bodies(earlier) + 2,
            );
            machine.lemma_run_keeps_code(functions, Self::moves(tests, bodies, turn));
        }
    }

    /// The loop's own result register is the same at every visit of the top.
    pub proof fn lemma_visits_spare_output(
        self,
        machine: Driven,
        functions: Seq<FnRecord>,
        tests: spec_fn(nat) -> nat,
        bodies: spec_fn(nat) -> nat,
        bound: nat,
        turn: nat,
    )
        requires
            self.laid_out_in(machine.unit.code),
            self.spares_output(machine.unit.code),
            self.counts(machine, functions, tests, bodies, bound),
            machine.unit.wf(),
            machine.unit.has(self.output),
            turn <= bound,
        ensures
            ({
                let visit = self.visit(machine, functions, tests, bodies, turn);
                let tested = visit.run(functions, tests(turn));
                &&& visit.unit.wf()
                &&& visit.unit.code == machine.unit.code
                &&& visit.unit.values.len() == machine.unit.values.len()
                &&& visit.unit.values[self.output.0 as int] == machine.unit.values[self.output.0 as int]
                &&& visit.unit.types[self.output.0 as int] == machine.unit.types[self.output.0 as int]
                &&& tested.unit.values[self.output.0 as int] == machine.unit.values[self.output.0 as int]
                &&& tested.unit.types[self.output.0 as int] == machine.unit.types[self.output.0 as int]
            }),
        decreases turn,
    {
        let visit = self.visit(machine, functions, tests, bodies, turn);
        if turn > 0 {
            let earlier = (turn - 1) as nat;
            self.lemma_visits_spare_output(machine, functions, tests, bodies, bound, earlier);
            let before = self.visit(machine, functions, tests, bodies, earlier);
            let tested = before.run(functions, tests(earlier));
            before.lemma_run_keeps_wf(functions, tests(earlier));
            before.lemma_run_keeps_code(functions, tests(earlier));
            let entered = tested.at(self.body_start());
            assert(entered.unit.wf());
            entered.lemma_runs_through_spares(
                functions,
                self.body_start(),
                self.back,
                bodies(earlier),
                self.output,
            );
            entered.lemma_run_keeps_wf(functions, bodies(earlier));
            entered.lemma_run_keeps_code(functions, bodies(earlier));
            let through = entered.run(functions, bodies(earlier));
            assert(visit == through.at(self.top));
            assert(visit.unit.wf());
        }
        visit.lemma_runs_through_spares(functions, self.top, self.branch, tests(turn), self.output);
    }

    /// A loop that takes `bound` turns runs its body `bound` times and is
    /// then left, and stores nothing in its own result register.
    ///
    /// A machine stands at the top of a loop that takes exactly `bound`
    /// turns, as a loop does whose body moves a counter one step toward a
    /// bound that is `bound` steps away. Then the machine comes to stand
    /// after the loop, as the machine that went through `bound` turns and one
    /// more test. If the loop's code does not store into the loop's result
    /// register, that register holds at the end what it held at the start.
    pub proof fn law_counted_loop(
        self,
        machine: Driven,
        functions: Seq<FnRecord>,
        tests: spec_fn(nat) -> nat,
        bodies: spec_fn(nat) -> nat,
        bound: nat,
    )
        requires
            self.laid_out_in(machine.unit.code),
            self.counts(machine, functions, tests, bodies, bound),
        ensures
            machine.run(functions, Self::moves(tests, bodies, bound) + tests(bound) + 1)
                == self.visit(machine, functions, tests, bodies, bound).run(
                functions,
                tests(bound),
            ).at(self.end()),
            self.spares_output(machine.unit.code) && machine.unit.wf() && machine.unit.has(
                self.output,
            ) ==> {
                let left = machine.run(
                    functions,
                    Self::moves(tests, bodies, bound) + tests(bound) + 1,
                );
                &&& left.unit.values[self.output.0 as int] == machine.unit.values[self.output.0 as int]
                &&& left.unit.types[self.output.0 as int] == machine.unit.types[self.output.0 as int]
            },
    {
        let last = self.visit(machine, functions, tests, bodies, bound);
        self.lemma_visits(machine, functions, tests, bodies, bound, bound);
        self.law_leave(last, functions, tests(bound));
        machine.lemma_run_split(functions, Self::moves(tests, bodies, bound), tests(bound) + 1);
        if self.spares_output(machine.unit.code) && machine.unit.wf() && machine.unit.has(
            self.output,
        ) {
            self.lemma_visits_spare_output(machine, functions, tests, bodies, bound, bound);
        }
    }

    /// Whether `code` holds, in this layout, a loop that counts up: its
    /// condition is `counter < limit`, and its body adds `step` to `counter`
    /// by way of the register `sum`.
    pub open spec fn counts_up(
        self,
        code: Seq<Op>,
        counter: RegisterId,
        limit: RegisterId,
        step: RegisterId,
        sum: RegisterId,
    ) -> bool {
        &&& self.laid_out_in(code)
        &&& self.branch == self.top + 1
        &&& self.back == self.branch + 3
        &&& code[self.top as int] == (Op::Int {
            op: Operation::Lt,
            lhs: counter,
            rhs: limit,
            target: self.flag,
        })
        &&& code[self.branch as int + 1] == (Op::Int {
            op: Operation::Add,
            lhs: counter,
            rhs: step,
            target: sum,
        })
        &&& code[self.branch as int + 2] == (Op::Mov { target: counter, source: sum })
        &&& self.flag != counter && self.flag != limit && self.flag != step
        &&& sum != limit && sum != step
        &&& counter != limit && counter != step
    }

    /// A loop that counts up to a limit runs its body once for each step
    /// that the counter is away from the limit, and is then left.
    ///
    /// A machine stands at the top of a loop that counts up by 1, with a
    /// counter that is `limit - counter` steps below the limit. After five
    /// moves for each of these steps and two more, the machine stands after
    /// the loop; the counter has reached the limit; the limit, the step and
    /// every register that the loop does not name are as they were; and no
    /// answer of the host was used.
    pub proof fn law_counting_loop(
        self,
        machine: Driven,
        functions: Seq<FnRecord>,
        counter: RegisterId,
        limit: RegisterId,
        step: RegisterId,
        sum: RegisterId,
    )
        requires
            machine.unit.wf(),
            self.counts_up(machine.unit.code, counter, limit, step, sum),
            machine.unit.pc == self.top,
            machine.unit.values[step.0 as int] == 1,
            machine.unit.values[counter.0 as int] <= machine.unit.values[limit.0 as int],
        ensures
            ({
                let turns = machine.unit.values[limit.0 as int] - machine.unit.values[counter.0 as int];
                let left = machine.run(functions, (5 * turns + 2) as nat);
                &&& left.unit.pc == self.end()
                &&& left.answers == machine.answers
                &&& left.unit.values[counter.0 as int] == machine.unit.values[limit.0 as int]
                &&& left.unit.types == machine.unit.types
                &&& forall|r: int|
                    0 <= r < machine.unit.values.len() && r != counter.0 && r != sum.0 && r
                        != self.flag.0 ==> left.unit.values[r] == machine.unit.values[r]
            }),
        decreases machine.unit.values[limit.0 as int] - machine.unit.values[counter.0 as int],
    {
        let values = machine.unit.values;
        let turns = values[limit.0 as int] - values[counter.0 as int];
        let code = machine.unit.code;
        assert(code[self.top as int].registers_below(values.len()));
        assert(code[self.branch as int + 1].registers_below(values.len()));
        let less = values[counter.0 as int] < values[limit.0 as int];
        let tested = Driven {
            unit: machine.unit.store(self.flag, if less { 1i64 } else { 0i64 }).goto(self.branch),
            answers: machine.answers,
        };
        assert(machine.advance(functions) == Some(tested));
        machine.lemma_run_one(functions);
        if !less {
            assert(tested.advance(functions) == Some(tested.at(self.end())));
            tested.lemma_run_one(functions);
            machine.lemma_run_split(functions, 1, 1);
        } else {
            let entered = tested.at(self.body_start());
            assert(tested.advance(functions) == Some(entered));
            tested.lemma_run_one(functions);
            machine.lemma_run_split(functions, 1, 1);
            let next = (values[counter.0 as int] + 1) as i64;
            let added = Driven {
                unit: entered.unit.store(sum, next).goto(self.branch + 2),
                answers: machine.answers,
            };
            assert(entered.advance(functions) == Some(added));
            entered.lemma_run_one(functions);
            machine.lemma_run_split(functions, 2, 1);
            let counted = Driven {
                unit: added.unit.store(counter, next).goto(self.back),
                answers: machine.answers,
            };
            assert(added.advance(functions) == Some(counted));
            added.lemma_run_one(functions);
            machine.lemma_run_split(functions, 3, 1);
            let again = counted.at(self.top);
            assert(counted.advance(functions) == Some(again));
            counted.lemma_run_one(functions);
            machine.lemma_run_split(functions, 4, 1);
            assert(machine.run(functions, 5) == again);
            assert(again.unit.wf()) by {
                assert forall|i: int| 0 <= i < again.unit.code.len() implies (
                #[trigger] again.unit.code[i]).registers_below(again.unit.values.len()) by {
                    assert(machine.unit.code[i].registers_below(machine.unit.values.len()));
                }
            }
            self.law_counting_loop(again, functions, counter, limit, step, sum);
            machine.lemma_run_split(functions, 5, (5 * (turns - 1) + 2) as nat);
            assert(5 + (5 * (turns - 1) + 2) == 5 * turns + 2);
        }
    }
}

} // verus!
