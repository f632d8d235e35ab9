//! What the lowering rules promise of conditionals, loops, bindings and
//! branches.

use vstd::prelude::*;
use crate::codegen::Unit;
use crate::control_flow::{Conditional, Loop, Otherwise};
use crate::ids::{InstructionId, NodeId, RegisterId, BOOL_TYPE, I64_TYPE, VOID_TYPE};
use crate::instruction::{Op, Operation};
use crate::literal::int_literal;
use crate::syntax::{id_bound, AstNode};
use crate::lowering::{
    body_of, condition_of, else_of, lower_binop, lower_block, lower_if, lower_int, lower_let,
    lower_node, lower_operator, lower_statements, lower_tree, lower_variable, lower_while, Lowered,
    test_of, then_of, TranslateError,
};
use crate::machine::Driven;
use crate::soundness::{
    bound_in, fine, known, lemma_known_earlier, lemma_node_grows, lemma_node_sound,
    lemma_tree_sound,
};
use crate::syntax::EngineDelta;
use crate::typechecker::{FnRecord, TypeChecker};

verus! {

/// A register that code lowered after a point may store into is not the
/// register created at that point.
proof fn lemma_known_is_not_fresh(unit: Unit, vars: Map<usize, RegisterId>, r: RegisterId)
    requires
        bound_in(vars, unit),
        unit.values.len() < usize::MAX,
        known(vars, unit.values.len() + 1, r),
    ensures
        r != unit.next_register(),
{
    if r.0 < unit.values.len() + 1 {
        let k = choose|k: usize| vars.contains_key(k) && #[trigger] vars[k] == r;
        assert(vars[k].0 < unit.values.len());
    }
}

/// The layout of the conditional that the rule for conditionals produces.
pub open spec fn conditional_of(
    unit: Unit,
    vars: Map<usize, RegisterId>,
    node: NodeId,
    condition: NodeId,
    then_block: NodeId,
    else_expression: Option<NodeId>,
    delta: EngineDelta,
    typechecker: TypeChecker,
) -> Conditional {
    let output = unit.next_register();
    let tested = condition_of(unit, vars, node, condition, delta, typechecker);
    let taken = then_of(unit, vars, node, condition, then_block, delta, typechecker);
    Conditional {
        flag: tested.result->Ok_0,
        output,
        branch: tested.unit.code.len(),
        then_end: taken.unit.code.len(),
        then_value: taken.result->Ok_0,
        otherwise: match else_expression {
            Some(else_node) => {
                let other = else_of(
                    unit,
                    vars,
                    node,
                    condition,
                    then_block,
                    else_node,
                    delta,
                    typechecker,
                );
                Some(Otherwise { end: other.unit.code.len(), value: other.result->Ok_0 })
            },
            None => None,
        },
    }
}

/// The rule for conditionals lays out a conditional.
///
/// The code it adds ends where the layout ends, and the value of the
/// conditional is the layout's result register, a new register of the node's
/// type. Between the branch, the moves and the jump stands, unchanged, the
/// code that the rule for nodes produces for each part by itself: for the
/// condition, for the `then` block and for the `else` expression.
pub proof fn law_conditional_layout(
    unit: Unit,
    vars: Map<usize, RegisterId>,
    node: NodeId,
    condition: NodeId,
    then_block: NodeId,
    else_expression: Option<NodeId>,
    delta: EngineDelta,
    typechecker: TypeChecker,
)
    requires
        unit.wf(),
        bound_in(vars, unit),
        lower_if(unit, vars, node, condition, then_block, else_expression, delta, typechecker).result
            is Ok,
        lower_if(
            unit,
            vars,
            node,
            condition,
            then_block,
            else_expression,
            delta,
            typechecker,
        ).unit.fits(),
    ensures
        ({
            let lowered = lower_if(
                unit,
                vars,
                node,
                condition,
                then_block,
                else_expression,
                delta,
                typechecker,
            );
            let layout = conditional_of(
                unit,
                vars,
                node,
                condition,
                then_block,
                else_expression,
                delta,
                typechecker,
            );
            let tested = condition_of(unit, vars, node, condition, delta, typechecker);
            let taken = then_of(unit, vars, node, condition, then_block, delta, typechecker);
            &&& layout.laid_out_in(lowered.unit.code)
            &&& layout.end() == lowered.unit.code.len()
            &&& lowered.result == Ok::<RegisterId, TranslateError>(layout.output)
            &&& layout.output.0 == unit.values.len()
            &&& lowered.unit.types[layout.output.0 as int] == typechecker.node_types@[node.0 as int]
            &&& unit.code.len() <= layout.branch
            &&& forall|i: int|
                unit.code.len() <= i < layout.branch ==> lowered.unit.code[i]
                    == #[trigger] tested.unit.code[i]
            &&& forall|i: int|
                layout.then_start() <= i < layout.then_end ==> lowered.unit.code[i]
                    == #[trigger] taken.unit.code[i]
            &&& else_expression matches Some(else_node) ==> {
                let other = else_of(
                    unit,
                    vars,
                    node,
                    condition,
                    then_block,
                    else_node,
                    delta,
                    typechecker,
                );
                forall|i: int|
                    layout.else_start() <= i < layout.otherwise->Some_0.end ==> lowered.unit.code[i]
                        == #[trigger] other.unit.code[i]
            }
        }),
{
    let lowered = lower_if(
        unit,
        vars,
        node,
        condition,
        then_block,
        else_expression,
        delta,
        typechecker,
    );
    let output = unit.next_register();
    let started = unit.push_register(0, typechecker.node_types@[node.0 as int]);
    let tested = lower_node(started, vars, condition, delta, typechecker);
    let flag = tested.result->Ok_0;
    let reserved = tested.unit.emit(
        Op::Brif { condition: flag, then_branch: InstructionId(0), else_branch: InstructionId(0) },
    );
    let taken = lower_node(reserved, tested.vars, then_block, delta, typechecker);
    let then_value = taken.result->Ok_0;
    let collected = taken.unit.mov(output, then_value);
    lemma_node_grows(started, vars, condition, delta, typechecker);
    lemma_node_grows(reserved, tested.vars, then_block, delta, typechecker);
    assert(collected.grown_from(taken.unit));
    if let Some(else_node) = else_expression {
        let skipping = collected.emit(Op::Jmp { location: InstructionId(0) });
        let other = lower_node(skipping, taken.vars, else_node, delta, typechecker);
        lemma_node_grows(skipping, taken.vars, else_node, delta, typechecker);
        let finished = other.unit.mov(output, other.result->Ok_0);
        assert(finished.grown_from(other.unit));
        assert(lowered.unit.code.len() == finished.code.len());
        unit.lemma_push_register_wf(0, typechecker.node_types@[node.0 as int]);
        lemma_node_sound(started, vars, condition, delta, typechecker);
        lemma_node_sound(reserved, tested.vars, then_block, delta, typechecker);
        lemma_known_earlier(
            vars,
            started.values.len(),
            tested.vars,
            reserved.values.len(),
            then_value,
        );
        lemma_known_is_not_fresh(unit, vars, then_value);
        assert(collected.wf());
        lemma_node_sound(skipping, taken.vars, else_node, delta, typechecker);
        assert forall|k: usize| taken.vars.contains_key(k) implies known(
            vars,
            started.values.len(),
            #[trigger] taken.vars[k],
        ) by {
            lemma_known_earlier(
                vars,
                started.values.len(),
                tested.vars,
                reserved.values.len(),
                taken.vars[k],
            );
        }
        lemma_known_earlier(
            vars,
            started.values.len(),
            taken.vars,
            skipping.values.len(),
            other.result->Ok_0,
        );
        lemma_known_is_not_fresh(unit, vars, other.result->Ok_0);
        assert forall|i: int| reserved.code.len() <= i < taken.unit.code.len() implies lowered.unit.code[i]
            == #[trigger] taken.unit.code[i] by {
            assert(skipping.code[i] == taken.unit.code[i]);
            assert(other.unit.code[i] == skipping.code[i]);
        }
        assert forall|i: int| unit.code.len() <= i < tested.unit.code.len() implies lowered.unit.code[i]
            == #[trigger] tested.unit.code[i] by {
            assert(reserved.code[i] == tested.unit.code[i]);
            assert(taken.unit.code[i] == reserved.code[i]);
            assert(skipping.code[i] == taken.unit.code[i]);
            assert(other.unit.code[i] == skipping.code[i]);
        }
        assert(lowered.unit.types[output.0 as int] == started.types[output.0 as int]) by {
            assert(tested.unit.types[output.0 as int] == started.types[output.0 as int]);
            assert(reserved.types[output.0 as int] == tested.unit.types[output.0 as int]);
            assert(taken.unit.types[output.0 as int] == reserved.types[output.0 as int]);
            assert(other.unit.types[output.0 as int] == skipping.types[output.0 as int]);
        }
        assert(other.unit.code[collected.code.len() as int] == skipping.code[collected.code.len() as int]);
        assert(other.unit.code[taken.unit.code.len() as int] == skipping.code[taken.unit.code.len() as int]);
        assert(other.unit.code[tested.unit.code.len() as int] == skipping.code[tested.unit.code.len() as int]);
    } else {
        unit.lemma_push_register_wf(0, typechecker.node_types@[node.0 as int]);
        lemma_node_sound(started, vars, condition, delta, typechecker);
        lemma_node_sound(reserved, tested.vars, then_block, delta, typechecker);
        lemma_known_earlier(
            vars,
            started.values.len(),
            tested.vars,
            reserved.values.len(),
            then_value,
        );
        lemma_known_is_not_fresh(unit, vars, then_value);
        assert forall|i: int| unit.code.len() <= i < tested.unit.code.len() implies lowered.unit.code[i]
            == #[trigger] tested.unit.code[i] by {
            assert(reserved.code[i] == tested.unit.code[i]);
            assert(taken.unit.code[i] == reserved.code[i]);
        }
        assert(lowered.unit.types[output.0 as int] == started.types[output.0 as int]) by {
            assert(tested.unit.types[output.0 as int] == started.types[output.0 as int]);
            assert(reserved.types[output.0 as int] == tested.unit.types[output.0 as int]);
            assert(taken.unit.types[output.0 as int] == reserved.types[output.0 as int]);
        }
    }
}

/// The layout of the loop that the rule for loops produces.
pub open spec fn loop_of(
    unit: Unit,
    vars: Map<usize, RegisterId>,
    condition: NodeId,
    block: NodeId,
    delta: EngineDelta,
    typechecker: TypeChecker,
) -> Loop {
    let tested = test_of(unit, vars, condition, delta, typechecker);
    let body = body_of(unit, vars, condition, block, delta, typechecker);
    Loop {
        flag: tested.result->Ok_0,
        output: unit.next_register(),
        top: unit.code.len(),
        branch: tested.unit.code.len(),
        back: body.unit.code.len(),
    }
}

/// The rule for loops lays out a loop that does not store into its own
/// result register.
///
/// The code it adds starts at the layout's top and ends where the layout
/// ends. The value of the loop is the layout's result register, a new void
/// register that holds 0, and no instruction of the loop stores into it.
/// Between the branch and the jump stands, unchanged, the code that the rule
/// for nodes produces for each part by itself: for the condition and for the
/// body.
pub proof fn law_loop_layout(
    unit: Unit,
    vars: Map<usize, RegisterId>,
    condition: NodeId,
    block: NodeId,
    delta: EngineDelta,
    typechecker: TypeChecker,
)
    requires
        unit.wf(),
        bound_in(vars, unit),
        lower_while(unit, vars, condition, block, delta, typechecker).result is Ok,
        lower_while(unit, vars, condition, block, delta, typechecker).unit.fits(),
    ensures
        ({
            let lowered = lower_while(unit, vars, condition, block, delta, typechecker);
            let layout = loop_of(unit, vars, condition, block, delta, typechecker);
            let tested = test_of(unit, vars, condition, delta, typechecker);
            let body = body_of(unit, vars, condition, block, delta, typechecker);
            &&& layout.laid_out_in(lowered.unit.code)
            &&& layout.spares_output(lowered.unit.code)
            &&& layout.end() == lowered.unit.code.len()
            &&& lowered.result == Ok::<RegisterId, TranslateError>(layout.output)
            &&& layout.output.0 == unit.values.len()
            &&& lowered.unit.has(layout.output)
            &&& lowered.unit.types[layout.output.0 as int] == VOID_TYPE
            &&& lowered.unit.values[layout.output.0 as int] == 0
            &&& forall|i: int|
                layout.top <= i < layout.branch ==> lowered.unit.code[i]
                    == #[trigger] tested.unit.code[i]
            &&& forall|i: int|
                layout.body_start() <= i < layout.back ==> lowered.unit.code[i]
                    == #[trigger] body.unit.code[i]
        }),
{
    let lowered = lower_while(unit, vars, condition, block, delta, typechecker);
    let layout = loop_of(unit, vars, condition, block, delta, typechecker);
    let output = unit.next_register();
    let started = unit.push_register(0, VOID_TYPE);
    let tested = lower_node(started, vars, condition, delta, typechecker);
    let flag = tested.result->Ok_0;
    let reserved = tested.unit.emit(
        Op::Brif { condition: flag, then_branch: InstructionId(0), else_branch: InstructionId(0) },
    );
    let body = lower_node(reserved, tested.vars, block, delta, typechecker);
    let looped = body.unit.emit(Op::Jmp { location: started.next_position() });
    lemma_node_grows(started, vars, condition, delta, typechecker);
    lemma_node_grows(reserved, tested.vars, block, delta, typechecker);
    assert(lowered.unit.code.len() == looped.code.len());
    unit.lemma_push_register_wf(0, VOID_TYPE);
    lemma_node_sound(started, vars, condition, delta, typechecker);
    lemma_node_sound(reserved, tested.vars, block, delta, typechecker);
    assert forall|i: int| layout.top <= i < layout.branch implies lowered.unit.code[i]
        == #[trigger] tested.unit.code[i] by {
        assert(reserved.code[i] == tested.unit.code[i]);
        assert(body.unit.code[i] == reserved.code[i]);
    }
    assert(body.unit.code[layout.branch as int] == reserved.code[layout.branch as int]);
    assert forall|i: int| layout.top <= i < layout.end() implies (#[trigger] lowered.unit.code[i])
        .target() != Some(layout.output) by {
        let op = lowered.unit.code[i];
        if i < layout.branch {
            assert(op == tested.unit.code[i]);
            assert(fine(tested.unit.code[i], i, started, vars, tested.unit.code.len()));
            if op.target() is Some {
                assert(op.names(op.target()->Some_0));
                lemma_known_is_not_fresh(unit, vars, op.target()->Some_0);
            }
        } else if layout.branch < i < layout.back {
            assert(op == body.unit.code[i]);
            assert(fine(body.unit.code[i], i, reserved, tested.vars, body.unit.code.len()));
            if op.target() is Some {
                assert(op.names(op.target()->Some_0));
                lemma_known_earlier(
                    vars,
                    started.values.len(),
                    tested.vars,
                    reserved.values.len(),
                    op.target()->Some_0,
                );
                lemma_known_is_not_fresh(unit, vars, op.target()->Some_0);
            }
        }
    }
    assert(lowered.unit.types[output.0 as int] == started.types[output.0 as int]) by {
        assert(tested.unit.types[output.0 as int] == started.types[output.0 as int]);
        assert(body.unit.types[output.0 as int] == reserved.types[output.0 as int]);
    }
    assert(lowered.unit.values[output.0 as int] == started.values[output.0 as int]) by {
        assert(tested.unit.values[output.0 as int] == started.values[output.0 as int]);
        assert(body.unit.values[output.0 as int] == reserved.values[output.0 as int]);
    }
}

/// A binding is another name for the register of its initializer.
///
/// The rule for bindings yields the register that the rule for nodes yields
/// for the initializer, adds no instruction and no register of its own, and
/// binds the defining node to that register.
pub proof fn law_binding_names_initializer(
    unit: Unit,
    vars: Map<usize, RegisterId>,
    variable_name: NodeId,
    initializer: NodeId,
    delta: EngineDelta,
    typechecker: TypeChecker,
)
    requires
        lower_let(unit, vars, variable_name, initializer, delta, typechecker).result is Ok,
    ensures
        ({
            let bound = lower_let(unit, vars, variable_name, initializer, delta, typechecker);
            let value = lower_node(unit, vars, initializer, delta, typechecker);
            &&& bound.result == value.result
            &&& bound.unit == value.unit
            &&& bound.vars == value.vars.insert(variable_name.0, value.result->Ok_0)
            &&& bound.vars[variable_name.0] == value.result->Ok_0
        }),
{
}

/// A reference to a variable is the register that the variable is bound to,
/// whatever was lowered since the binding was made.
///
/// The rule for variable references yields the register bound to the
/// definition that the reference resolves to, and adds nothing to the unit.
pub proof fn law_reference_names_binding(
    unit: Unit,
    vars: Map<usize, RegisterId>,
    reference: NodeId,
    definition: NodeId,
    typechecker: TypeChecker,
)
    requires
        typechecker.variable_def@.contains_key(reference.0),
        typechecker.variable_def@[reference.0] == definition,
        vars.contains_key(definition.0),
    ensures
        lower_variable(unit, vars, reference, typechecker) == (Lowered {
            unit,
            vars,
            result: Ok(vars[definition.0]),
        }),
{
}

/// An assignment stores into the register of its left operand and makes no
/// new binding.
///
/// The rule for operators, on an assignment, adds a move from the register
/// of the right operand into that of the left, unless they are one register;
/// yields the register of the left operand; and leaves the bindings as they
/// were. So a variable on the left keeps its register, and every later
/// reference to it names the register that the assignment stored into.
pub proof fn law_assignment_stores_in_place(
    unit: Unit,
    vars: Map<usize, RegisterId>,
    lhs: RegisterId,
    op: NodeId,
    rhs: RegisterId,
    delta: EngineDelta,
)
    requires
        op.0 < delta.ast_nodes@.len(),
        delta.ast_nodes@[op.0 as int] is Assignment,
    ensures
        lower_operator(unit, vars, lhs, op, rhs, delta) == (Lowered {
            unit: unit.mov(lhs, rhs),
            vars,
            result: Ok(lhs),
        }),
        lhs != rhs ==> unit.mov(lhs, rhs).code == unit.code.push(
            Op::Mov { target: lhs, source: rhs },
        ),
{
}

/// Every branch of a lowered tree is patched.
///
/// In the unit lowered from a whole tree, every instruction names registers
/// of the unit; every conditional branch leads forward, past itself, to a
/// position of the unit or to its end, so neither of its targets is the
/// position 0 that it was reserved with; and every jump leads to a position
/// of the unit or to its end.
pub proof fn law_branches_are_patched(delta: EngineDelta, typechecker: TypeChecker, at: int)
    requires
        lower_tree(delta, typechecker).result is Ok,
        lower_tree(delta, typechecker).unit.fits(),
        0 <= at < lower_tree(delta, typechecker).unit.code.len(),
    ensures
        ({
            let unit = lower_tree(delta, typechecker).unit;
            &&& unit.wf()
            &&& unit.code[at].registers_below(unit.values.len())
            &&& unit.code[at].branches_within(at, 0, unit.code.len() as int)
            &&& unit.code[at] matches Op::Brif { then_branch, else_branch, .. } ==> {
                &&& at < then_branch.0 <= unit.code.len()
                &&& at < else_branch.0 <= unit.code.len()
                &&& then_branch.0 != 0
                &&& else_branch.0 != 0
            }
            &&& unit.code[at] matches Op::Jmp { location } ==> location.0 <= unit.code.len()
        }),
{
    lemma_tree_sound(delta, typechecker);
    let unit = lower_tree(delta, typechecker).unit;
    assert(fine(unit.code[at], at, Unit::empty(), Map::empty(), unit.code.len()));
}

/// Every branch that lowering a node adds stays within what it adds.
///
/// Among the instructions that the rule for a node adds to a unit, every
/// conditional branch leads forward, past itself, and every jump leads to a
/// position among them; and both at most as far as the end of what was
/// added. So the code of a node is entered at its start and left at its end,
/// however deep the node or its parts are nested.
pub proof fn law_branches_stay_inside(
    unit: Unit,
    vars: Map<usize, RegisterId>,
    node: NodeId,
    delta: EngineDelta,
    typechecker: TypeChecker,
    at: int,
)
    requires
        unit.wf(),
        bound_in(vars, unit),
        lower_node(unit, vars, node, delta, typechecker).result is Ok,
        lower_node(unit, vars, node, delta, typechecker).unit.fits(),
        unit.code.len() <= at < lower_node(unit, vars, node, delta, typechecker).unit.code.len(),
    ensures
        ({
            let lowered = lower_node(unit, vars, node, delta, typechecker).unit;
            &&& lowered.code[at].branches_within(at, unit.code.len() as int, lowered.code.len() as int)
            &&& forall|i: int| 0 <= i < unit.code.len() ==> lowered.code[i] == #[trigger] unit.code[i]
        }),
{
    lemma_node_sound(unit, vars, node, delta, typechecker);
    let lowered = lower_node(unit, vars, node, delta, typechecker).unit;
    assert(fine(lowered.code[at], at, unit, vars, lowered.code.len()));
}

/// Whether `code` starts with the code of `unit`.
pub open spec fn starts_with_code_of(code: Seq<Op>, unit: Unit) -> bool {
    &&& unit.code.len() <= code.len()
    &&& forall|i: int| 0 <= i < unit.code.len() ==> code[i] == #[trigger] unit.code[i]
}

/// A lowered conditional whose condition holds yields what its `then` block
/// yields; one whose condition fails yields what its `else` expression
/// yields, and without an `else` it is passed over.
///
/// A machine runs code that starts with a unit in which a conditional was
/// lowered last, and stands at the conditional's branch. With a flag that is
/// not zero: if, entered at the start of the `then` block, the machine runs
/// through that block's code, the part that the rule for nodes produced for
/// the block by itself, in `n` moves, it then comes to stand after the
/// conditional as the machine that ran through the block, with the block's
/// value in the conditional's result register. With a flag that is zero, the
/// same holds of the `else` expression; and without an `else`, one move takes
/// the machine past the conditional, unchanged.
pub proof fn law_conditional_yields_branch(
    unit: Unit,
    vars: Map<usize, RegisterId>,
    node: NodeId,
    condition: NodeId,
    then_block: NodeId,
    else_expression: Option<NodeId>,
    delta: EngineDelta,
    typechecker: TypeChecker,
    machine: Driven,
    functions: Seq<FnRecord>,
    n: nat,
)
    requires
        unit.wf(),
        bound_in(vars, unit),
        lower_if(unit, vars, node, condition, then_block, else_expression, delta, typechecker).result
            is Ok,
        lower_if(
            unit,
            vars,
            node,
            condition,
            then_block,
            else_expression,
            delta,
            typechecker,
        ).unit.fits(),
        starts_with_code_of(
            machine.unit.code,
            lower_if(
                unit,
                vars,
                node,
                condition,
                then_block,
                else_expression,
                delta,
                typechecker,
            ).unit,
        ),
        machine.unit.pc == conditional_of(
            unit,
            vars,
            node,
            condition,
            then_block,
            else_expression,
            delta,
            typechecker,
        ).branch,
    ensures
        ({
            let layout = conditional_of(
                unit,
                vars,
                node,
                condition,
                then_block,
                else_expression,
                delta,
                typechecker,
            );
            let holds = machine.unit.values[layout.flag.0 as int] != 0;
            &&& holds && machine.at(layout.then_start()).runs_through(
                functions,
                layout.then_start(),
                layout.then_end,
                n,
            ) ==> {
                let through = machine.at(layout.then_start()).run(functions, n);
                machine.run(
                    functions,
                    n + (if else_expression is Some {
                        3nat
                    } else {
                        2nat
                    }),
                ) == (Driven {
                    unit: through.unit.store(
                        layout.output,
                        through.unit.values[layout.then_value.0 as int],
                    ).goto(layout.end()),
                    answers: through.answers,
                })
            }
            &&& !holds && else_expression is Some && machine.at(layout.else_start()).runs_through(
                functions,
                layout.else_start(),
                layout.otherwise->Some_0.end,
                n,
            ) ==> {
                let through = machine.at(layout.else_start()).run(functions, n);
                machine.run(functions, n + 2) == (Driven {
                    unit: through.unit.store(
                        layout.output,
                        through.unit.values[layout.otherwise->Some_0.value.0 as int],
                    ).goto(layout.end()),
                    answers: through.answers,
                })
            }
            &&& !holds && else_expression is None ==> machine.run(functions, 1) == machine.at(
                layout.end(),
            )
        }),
{
    let lowered = lower_if(
        unit,
        vars,
        node,
        condition,
        then_block,
        else_expression,
        delta,
        typechecker,
    );
    let layout = conditional_of(
        unit,
        vars,
        node,
        condition,
        then_block,
        else_expression,
        delta,
        typechecker,
    );
    law_conditional_layout(
        unit,
        vars,
        node,
        condition,
        then_block,
        else_expression,
        delta,
        typechecker,
    );
    assert(layout.laid_out_in(machine.unit.code)) by {
        assert(machine.unit.code[layout.branch as int] == lowered.unit.code[layout.branch as int]);
        assert(machine.unit.code[layout.then_end as int] == lowered.unit.code[layout.then_end as int]);
        if layout.otherwise is Some {
            assert(machine.unit.code[layout.then_end as int + 1] == lowered.unit.code[layout.then_end as int + 1]);
            assert(machine.unit.code[layout.otherwise->Some_0.end as int]
                == lowered.unit.code[layout.otherwise->Some_0.end as int]);
        }
    }
    let holds = machine.unit.values[layout.flag.0 as int] != 0;
    if holds && machine.at(layout.then_start()).runs_through(
        functions,
        layout.then_start(),
        layout.then_end,
        n,
    ) {
        layout.law_then_branch(machine, functions, n);
    }
    if !holds && else_expression is Some && machine.at(layout.else_start()).runs_through(
        functions,
        layout.else_start(),
        layout.otherwise->Some_0.end,
        n,
    ) {
        layout.law_else_branch(machine, functions, n);
    }
    if !holds && else_expression is None {
        layout.law_no_branch(machine, functions);
    }
}

/// A lowered loop that takes `bound` turns runs its body `bound` times, is
/// then left, and leaves its void result register as it was.
///
/// A machine runs code that starts with a unit in which a loop was lowered
/// last, and stands at the loop's top. If the loop takes exactly `bound`
/// turns, as a loop does whose body moves a counter one step toward a bound
/// that is `bound` steps away, the machine comes to stand after the loop, as
/// the machine that went through `bound` turns and one more test; and the
/// loop's result register holds at the end what it held at the start.
pub proof fn law_loop_runs_bound_times(
    unit: Unit,
    vars: Map<usize, RegisterId>,
    condition: NodeId,
    block: NodeId,
    delta: EngineDelta,
    typechecker: TypeChecker,
    machine: Driven,
    functions: Seq<FnRecord>,
    tests: spec_fn(nat) -> nat,
    bodies: spec_fn(nat) -> nat,
    bound: nat,
)
    requires
        unit.wf(),
        bound_in(vars, unit),
        lower_while(unit, vars, condition, block, delta, typechecker).result is Ok,
        lower_while(unit, vars, condition, block, delta, typechecker).unit.fits(),
        starts_with_code_of(
            machine.unit.code,
            lower_while(unit, vars, condition, block, delta, typechecker).unit,
        ),
        machine.unit.wf(),
        machine.unit.has(loop_of(unit, vars, condition, block, delta, typechecker).output),
        loop_of(unit, vars, condition, block, delta, typechecker).counts(
            machine,
            functions,
            tests,
            bodies,
            bound,
        ),
    ensures
        ({
            let layout = loop_of(unit, vars, condition, block, delta, typechecker);
            let left = machine.run(functions, Loop::moves(tests, bodies, bound) + tests(bound) + 1);
            &&& left == layout.visit(machine, functions, tests, bodies, bound).run(
                functions,
                tests(bound),
            ).at(layout.end())
            &&& left.unit.pc == layout.end()
            &&& left.unit.values[layout.output.0 as int] == machine.unit.values[layout.output.0 as int]
            &&& left.unit.types[layout.output.0 as int] == machine.unit.types[layout.output.0 as int]
        }),
{
    let layout = loop_of(unit, vars, condition, block, delta, typechecker);
    let lowered = lower_while(unit, vars, condition, block, delta, typechecker);
    law_loop_layout(unit, vars, condition, block, delta, typechecker);
    assert(layout.laid_out_in(machine.unit.code)) by {
        assert(machine.unit.code[layout.branch as int] == lowered.unit.code[layout.branch as int]);
        assert(machine.unit.code[layout.back as int] == lowered.unit.code[layout.back as int]);
    }
    assert(layout.spares_output(machine.unit.code)) by {
        assert forall|i: int| layout.top <= i < layout.end() implies (
        #[trigger] machine.unit.code[i]).target() != Some(layout.output) by {
            assert(machine.unit.code[i] == lowered.unit.code[i]);
        }
    }
    layout.law_counted_loop(machine, functions, tests, bodies, bound);
}

/// What the rule for nodes produces for the root of a tree, at the point
/// where the rule for trees applies it.
pub open spec fn root_of(delta: EngineDelta, typechecker: TypeChecker) -> Lowered {
    let root = NodeId((delta.ast_nodes@.len() - 1) as usize);
    lower_node(
        Unit::empty().push_register(0, typechecker.node_types@[root.0 as int]),
        Map::empty(),
        root,
        delta,
        typechecker,
    )
}

/// The result slot takes the value of the root.
///
/// In the unit lowered from a tree that is not empty, register 0 has the
/// type of the root, the code is the code of the root followed by one move,
/// and the root's value is never register 0 itself. A machine that runs this
/// unit and has come to the end of the root's code holds, one move later,
/// the root's value in register 0, and has then halted.
pub proof fn law_result_slot_takes_root(
    delta: EngineDelta,
    typechecker: TypeChecker,
    machine: Driven,
    functions: Seq<FnRecord>,
)
    requires
        delta.ast_nodes@.len() > 0,
        lower_tree(delta, typechecker).result is Ok,
        lower_tree(delta, typechecker).unit.fits(),
        machine.unit.code == lower_tree(delta, typechecker).unit.code,
        machine.unit.pc == root_of(delta, typechecker).unit.code.len(),
    ensures
        ({
            let unit = lower_tree(delta, typechecker).unit;
            let root = root_of(delta, typechecker);
            let value = root.result->Ok_0;
            let done = machine.run(functions, 1);
            &&& unit.types[0] == typechecker.node_types@[delta.ast_nodes@.len() - 1]
            &&& value != RegisterId(0)
            &&& unit.code == root.unit.code.push(Op::Mov { target: RegisterId(0), source: value })
            &&& done == (Driven {
                unit: machine.unit.store(RegisterId(0), machine.unit.values[value.0 as int]).goto(
                    unit.code.len(),
                ),
                answers: machine.answers,
            })
            &&& done.unit.step(functions) is Halt
        }),
{
    assert(delta.ast_nodes.len() == delta.ast_nodes@.len());
    let root_node = NodeId((delta.ast_nodes@.len() - 1) as usize);
    assert(root_node.0 == delta.ast_nodes@.len() - 1);
    let started = Unit::empty().push_register(0, typechecker.node_types@[root_node.0 as int]);
    let root = root_of(delta, typechecker);
    let value = root.result->Ok_0;
    lemma_node_grows(started, Map::empty(), root_node, delta, typechecker);
    assert(lower_tree(delta, typechecker).unit.grown_from(root.unit));
    Unit::empty().lemma_push_register_wf(0, typechecker.node_types@[root_node.0 as int]);
    lemma_node_sound(started, Map::empty(), root_node, delta, typechecker);
    assert(root.unit.types[0] == started.types[0]);
    let expected = Driven {
        unit: machine.unit.store(RegisterId(0), machine.unit.values[value.0 as int]).goto(
            machine.unit.pc + 1,
        ),
        answers: machine.answers,
    };
    assert(machine.advance(functions) == Some(expected));
    machine.lemma_run_one(functions);
}

/// Whether `node` is a reference to the variable that `definition` defines.
pub open spec fn refers_to(
    node: NodeId,
    definition: NodeId,
    delta: EngineDelta,
    typechecker: TypeChecker,
) -> bool {
    &&& node.0 < delta.ast_nodes@.len()
    &&& delta.ast_nodes@[node.0 as int] is Variable
    &&& typechecker.variable_def@.contains_key(node.0)
    &&& typechecker.variable_def@[node.0] == definition
}

/// Whether `node` is the binary operation of the operator `operator` on the
/// nodes `lhs` and `rhs`, which come before it.
pub open spec fn applies(
    node: NodeId,
    lhs: NodeId,
    op: NodeId,
    rhs: NodeId,
    delta: EngineDelta,
) -> bool {
    &&& node.0 < delta.ast_nodes@.len()
    &&& op.0 < delta.ast_nodes@.len()
    &&& delta.ast_nodes@[node.0 as int] == (AstNode::BinaryOp { lhs, op, rhs })
    &&& lhs.0 < node.0
    &&& rhs.0 < node.0
}

/// The nodes of the loop `while counter < limit { counter = counter + 1 }`.
pub struct CountingLoop {
    /// The nodes that define the counter and the limit.
    pub counter: NodeId,
    pub limit: NodeId,
    /// The condition `counter < limit`, with its operands and its operator.
    pub condition: NodeId,
    pub tested: NodeId,
    pub less: NodeId,
    pub bound: NodeId,
    /// The body, a block of one statement: `counter = counter + 1`, with its
    /// operands and its operator.
    pub block: NodeId,
    pub assignment: NodeId,
    pub assigned: NodeId,
    pub assign: NodeId,
    /// The sum `counter + 1`, with its operands and its operator.
    pub sum: NodeId,
    pub added: NodeId,
    pub plus: NodeId,
    pub one: NodeId,
}

impl CountingLoop {
    /// Whether the tree holds these nodes, in the shape of the loop
    /// `while counter < limit { counter = counter + 1 }`.
    pub open spec fn shaped_in(self, delta: EngineDelta, typechecker: TypeChecker) -> bool {
        &&& applies(self.condition, self.tested, self.less, self.bound, delta)
        &&& delta.ast_nodes@[self.less.0 as int] is LessThan
        &&& refers_to(self.tested, self.counter, delta, typechecker)
        &&& refers_to(self.bound, self.limit, delta, typechecker)
        &&& self.block.0 < delta.ast_nodes@.len()
        &&& delta.ast_nodes@[self.block.0 as int] matches AstNode::Block(statements)
        &&& statements@ == seq![self.assignment]
        &&& self.assignment.0 < self.block.0
        &&& applies(self.assignment, self.assigned, self.assign, self.sum, delta)
        &&& delta.ast_nodes@[self.assign.0 as int] is Assignment
        &&& refers_to(self.assigned, self.counter, delta, typechecker)
        &&& applies(self.sum, self.added, self.plus, self.one, delta)
        &&& delta.ast_nodes@[self.plus.0 as int] is Plus
        &&& refers_to(self.added, self.counter, delta, typechecker)
        &&& self.one.0 < delta.ast_nodes@.len()
        &&& delta.ast_nodes@[self.one.0 as int] is Int
        &&& delta.text(self.one) matches Some(text)
        &&& int_literal(text) == Some(1i64)
    }
}

/// The loop `while counter < limit { counter = counter + 1 }` is lowered to
/// a loop that counts up.
///
/// With integer variables `counter` and `limit` bound to two registers, the
/// rule for loops lays out a loop whose condition is one integer comparison
/// of the two registers and whose body is one integer addition of a new
/// register that holds 1 and one move of the sum into the counter's
/// register: the counting loop of which `law_counting_loop` speaks.
pub proof fn law_counting_loop_is_lowered(
    unit: Unit,
    vars: Map<usize, RegisterId>,
    nodes: CountingLoop,
    delta: EngineDelta,
    typechecker: TypeChecker,
)
    requires
        unit.wf(),
        bound_in(vars, unit),
        nodes.shaped_in(delta, typechecker),
        vars.contains_key(nodes.counter.0),
        vars.contains_key(nodes.limit.0),
        vars[nodes.counter.0] != vars[nodes.limit.0],
        unit.types[vars[nodes.counter.0].0 as int] == I64_TYPE,
        unit.values.len() + 4 <= usize::MAX,
        unit.code.len() + 5 <= usize::MAX,
    ensures
        ({
            let lowered = lower_while(unit, vars, nodes.condition, nodes.block, delta, typechecker);
            let layout = loop_of(unit, vars, nodes.condition, nodes.block, delta, typechecker);
            let step = RegisterId((unit.values.len() + 2) as usize);
            let sum = RegisterId((unit.values.len() + 3) as usize);
            &&& lowered.result is Ok
            &&& lowered.vars == vars
            &&& lowered.unit.values == unit.values.push(0).push(0).push(1).push(0)
            &&& lowered.unit.types == unit.types.push(VOID_TYPE).push(BOOL_TYPE).push(I64_TYPE).push(
                I64_TYPE,
            )
            &&& lowered.unit.code.len() == unit.code.len() + 5
            &&& layout.counts_up(
                lowered.unit.code,
                vars[nodes.counter.0],
                vars[nodes.limit.0],
                step,
                sum,
            )
        }),
{
    let counter = vars[nodes.counter.0];
    let limit = vars[nodes.limit.0];
    let zero = InstructionId(0);
    let output = unit.next_register();
    let started = unit.push_register(0, VOID_TYPE);
    // The condition.
    let left = lower_node(started, vars, nodes.tested, delta, typechecker);
    assert(left == lower_variable(started, vars, nodes.tested, typechecker));
    let right = lower_node(started, vars, nodes.bound, delta, typechecker);
    assert(right == lower_variable(started, vars, nodes.bound, typechecker));
    let flag = started.next_register();
    let compared = started.push_register(0, BOOL_TYPE).emit(
        Op::Int { op: Operation::Lt, lhs: counter, rhs: limit, target: flag },
    );
    assert(lower_operator(started, vars, counter, nodes.less, limit, delta).unit == compared);
    let tested = lower_node(started, vars, nodes.condition, delta, typechecker);
    assert(tested == lower_binop(
        started,
        vars,
        nodes.tested,
        nodes.less,
        nodes.bound,
        delta,
        typechecker,
    ));
    assert(tested == (Lowered { unit: compared, vars, result: Ok(flag) }));
    let reserved = compared.emit(Op::Brif { condition: flag, then_branch: zero, else_branch: zero });
    // The body.
    let target = lower_node(reserved, vars, nodes.assigned, delta, typechecker);
    assert(target == lower_variable(reserved, vars, nodes.assigned, typechecker));
    let read = lower_node(reserved, vars, nodes.added, delta, typechecker);
    assert(read == lower_variable(reserved, vars, nodes.added, typechecker));
    let step = reserved.next_register();
    let one = lower_node(reserved, vars, nodes.one, delta, typechecker);
    assert(one == lower_int(reserved, vars, nodes.one, delta));
    let stepped = reserved.push_register(1, I64_TYPE);
    assert(one == (Lowered { unit: stepped, vars, result: Ok(step) }));
    let sum = stepped.next_register();
    let summed = stepped.push_register(0, I64_TYPE).emit(
        Op::Int { op: Operation::Add, lhs: counter, rhs: step, target: sum },
    );
    assert(stepped.types[counter.0 as int] == I64_TYPE);
    assert(lower_operator(stepped, vars, counter, nodes.plus, step, delta).unit == summed);
    let added = lower_node(reserved, vars, nodes.sum, delta, typechecker);
    assert(added == lower_binop(
        reserved,
        vars,
        nodes.added,
        nodes.plus,
        nodes.one,
        delta,
        typechecker,
    ));
    assert(added == (Lowered { unit: summed, vars, result: Ok(sum) }));
    let stored = summed.emit(Op::Mov { target: counter, source: sum });
    assert(lower_operator(summed, vars, counter, nodes.assign, sum, delta).unit == stored);
    let assigned = lower_node(reserved, vars, nodes.assignment, delta, typechecker);
    assert(assigned == lower_binop(
        reserved,
        vars,
        nodes.assigned,
        nodes.assign,
        nodes.sum,
        delta,
        typechecker,
    ));
    assert(assigned == (Lowered { unit: stored, vars, result: Ok(counter) }));
    let statements = seq![nodes.assignment];
    assert(id_bound(statements) <= nodes.block.0) by {
        assert(statements.drop_last() =~= Seq::<NodeId>::empty());
        assert(id_bound(statements.drop_last()) == 0);
    }
    assert(lower_statements(reserved, vars, statements, delta, typechecker)
        == assigned);
    let body = lower_node(reserved, vars, nodes.block, delta, typechecker);
    assert(body == lower_block(reserved, vars, statements, delta, typechecker));
    assert(body == assigned);
    let lowered = lower_while(unit, vars, nodes.condition, nodes.block, delta, typechecker);
    assert(lowered.unit.values =~= unit.values.push(0).push(0).push(1).push(0));
    assert(lowered.unit.types =~= unit.types.push(VOID_TYPE).push(BOOL_TYPE).push(I64_TYPE).push(
        I64_TYPE,
    ));
}

/// The lowered loop `while counter < limit { counter = counter + 1 }` runs
/// its body once for each step that the counter is below the limit, and
/// leaves its void result register as it was.
///
/// A machine runs code that starts with a unit in which this loop was
/// lowered last, with the registers that the loop created as they were
/// created, and stands at the loop's top with a counter that is not above
/// the limit. After five moves for each step that the counter is below the
/// limit and two more, the machine stands after the loop, the counter has
/// reached the limit, the limit and the loop's own void result register hold
/// what they held, and no tag has changed.
pub proof fn law_lowered_loop_counts_to_limit(
    unit: Unit,
    vars: Map<usize, RegisterId>,
    nodes: CountingLoop,
    delta: EngineDelta,
    typechecker: TypeChecker,
    machine: Driven,
    functions: Seq<FnRecord>,
)
    requires
        unit.wf(),
        bound_in(vars, unit),
        nodes.shaped_in(delta, typechecker),
        vars.contains_key(nodes.counter.0),
        vars.contains_key(nodes.limit.0),
        vars[nodes.counter.0] != vars[nodes.limit.0],
        unit.types[vars[nodes.counter.0].0 as int] == I64_TYPE,
        unit.values.len() + 4 <= usize::MAX,
        unit.code.len() + 5 <= usize::MAX,
        machine.unit.wf(),
        starts_with_code_of(
            machine.unit.code,
            lower_while(unit, vars, nodes.condition, nodes.block, delta, typechecker).unit,
        ),
        unit.values.len() + 4 <= machine.unit.values.len(),
        machine.unit.pc == unit.code.len(),
        machine.unit.values[unit.values.len() as int + 2] == 1,
        machine.unit.values[vars[nodes.counter.0].0 as int]
            <= machine.unit.values[vars[nodes.limit.0].0 as int],
    ensures
        ({
            let counter = vars[nodes.counter.0].0 as int;
            let limit = vars[nodes.limit.0].0 as int;
            let output = unit.values.len() as int;
            let turns = machine.unit.values[limit] - machine.unit.values[counter];
            let left = machine.run(functions, (5 * turns + 2) as nat);
            &&& left.unit.pc == unit.code.len() + 5
            &&& left.answers == machine.answers
            &&& left.unit.values[counter] == machine.unit.values[limit]
            &&& left.unit.values[limit] == machine.unit.values[limit]
            &&& left.unit.values[output] == machine.unit.values[output]
            &&& left.unit.types == machine.unit.types
        }),
{
    let lowered = lower_while(unit, vars, nodes.condition, nodes.block, delta, typechecker);
    let layout = loop_of(unit, vars, nodes.condition, nodes.block, delta, typechecker);
    let step = RegisterId((unit.values.len() + 2) as usize);
    let sum = RegisterId((unit.values.len() + 3) as usize);
    law_counting_loop_is_lowered(unit, vars, nodes, delta, typechecker);
    law_loop_layout(unit, vars, nodes.condition, nodes.block, delta, typechecker);
    assert(layout.counts_up(
        machine.unit.code,
        vars[nodes.counter.0],
        vars[nodes.limit.0],
        step,
        sum,
    )) by {
        assert(machine.unit.code[layout.top as int] == lowered.unit.code[layout.top as int]);
        assert(machine.unit.code[layout.branch as int] == lowered.unit.code[layout.branch as int]);
        assert(machine.unit.code[layout.branch as int + 1] == lowered.unit.code[layout.branch as int
            + 1]);
        assert(machine.unit.code[layout.branch as int + 2] == lowered.unit.code[layout.branch as int
            + 2]);
        assert(machine.unit.code[layout.back as int] == lowered.unit.code[layout.back as int]);
    }
    layout.law_counting_loop(
        machine,
        functions,
        vars[nodes.counter.0],
        vars[nodes.limit.0],
        step,
        sum,
    );
}

} // verus!
