//! What holds of everything that the lowering rules produce.
//!
//! Lowering a node only adds: the instructions and registers that were there
//! stay as they were. What it adds is self-contained: every branch among the
//! new instructions leads to a position among them or to their end, and every
//! new instruction stores into a register that is new or that a variable was
//! bound to before.

use vstd::prelude::*;
use crate::codegen::Unit;
use crate::ids::{InstructionId, NodeId, RegisterId, TypeId, BOOL_TYPE, F64_TYPE, VOID_TYPE};
use crate::instruction::Op;
use crate::lowering::{
    body_of, bound_of, condition_of, else_of, greater, lower_arguments, lower_binop, lower_block,
    lower_bool, lower_call, lower_float, lower_if, lower_int, lower_let, lower_node,
    lower_operator, lower_statements, lower_tree, lower_variable, lower_while, Lowered,
    LoweredList, operation_of, test_of, then_of, TranslateError,
};
use crate::syntax::{AstNode, EngineDelta, id_bound};
use crate::typechecker::TypeChecker;

verus! {

impl Unit {
    /// Whether the unit is at least as large as `before`.
    pub open spec fn grown_from(self, before: Unit) -> bool {
        &&& before.code.len() <= self.code.len()
        &&& before.values.len() <= self.values.len()
        &&& before.types.len() <= self.types.len()
    }

    /// Whether the unit is `before` with instructions and registers added:
    /// what `before` holds is still there, unchanged.
    pub open spec fn extends(self, before: Unit) -> bool {
        &&& self.grown_from(before)
        &&& self.values.len() == self.types.len()
        &&& forall|i: int| 0 <= i < before.code.len() ==> self.code[i] == #[trigger] before.code[i]
        &&& forall|i: int|
            0 <= i < before.values.len() ==> self.values[i] == #[trigger] before.values[i]
        &&& forall|i: int| 0 <= i < before.types.len() ==> self.types[i] == #[trigger] before.types[i]
        &&& self.pc == before.pc
    }
}

/// Whether every variable is bound to a register of `unit`.
pub open spec fn bound_in(vars: Map<usize, RegisterId>, unit: Unit) -> bool {
    forall|k: usize| vars.contains_key(k) ==> (#[trigger] vars[k]).0 < unit.values.len()
}

/// Whether register `r` is one that code lowered after a given point may
/// store into: one created after that point, where the unit had `floor`
/// registers, or one that a variable was bound to at that point.
pub open spec fn known(vars: Map<usize, RegisterId>, floor: nat, r: RegisterId) -> bool {
    r.0 >= floor || exists|k: usize| vars.contains_key(k) && #[trigger] vars[k] == r
}

/// Whether the instruction `op`, at position `at`, is a fit part of what was
/// lowered from the point where the unit was `before` and the bindings were
/// `vars`, up to position `end`.
pub open spec fn fine(op: Op, at: int, before: Unit, vars: Map<usize, RegisterId>, end: nat) -> bool {
    &&& op.branches_within(at, before.code.len() as int, end as int)
    &&& forall|r: RegisterId| #[trigger] op.names(r) ==> known(vars, before.values.len(), r)
}

/// What holds of a unit `after` that was lowered from the point where the
/// unit was `before` and the bindings were `vars`, with the bindings
/// `after_vars` as the outcome. The positions in `holes` are those of
/// branches that were reserved and are not patched yet; nothing is said of
/// the instructions there.
pub open spec fn sound_unit(
    before: Unit,
    vars: Map<usize, RegisterId>,
    after: Unit,
    after_vars: Map<usize, RegisterId>,
    holes: Set<int>,
) -> bool {
    &&& after.wf()
    &&& bound_in(after_vars, after)
    &&& after.extends(before)
    &&& forall|k: usize|
        after_vars.contains_key(k) ==> known(vars, before.values.len(), #[trigger] after_vars[k])
    &&& forall|i: int|
        before.code.len() <= i < after.code.len() && !holes.contains(i) ==> fine(
            #[trigger] after.code[i],
            i,
            before,
            vars,
            after.code.len(),
        )
}

/// What holds of the outcome `after` of lowering a node from the point where
/// the unit was `before` and the bindings were `vars`.
pub open spec fn sound(before: Unit, vars: Map<usize, RegisterId>, after: Lowered) -> bool {
    &&& sound_unit(before, vars, after.unit, after.vars, Set::empty())
    &&& after.result matches Ok(r)
    &&& r.0 < after.unit.values.len()
    &&& known(vars, before.values.len(), r)
}

/// What holds of the outcome `after` of lowering a list of nodes.
pub open spec fn sound_list(before: Unit, vars: Map<usize, RegisterId>, after: LoweredList) -> bool {
    &&& sound_unit(before, vars, after.unit, after.vars, Set::empty())
    &&& after.result matches Ok(registers)
    &&& forall|j: int|
        0 <= j < registers.len() ==> (#[trigger] registers[j]).0 < after.unit.values.len() && known(
            vars,
            before.values.len(),
            registers[j],
        )
}

/// A register that is known at a later point is known at an earlier one, if
/// the bindings of the later point are.
pub proof fn lemma_known_earlier(
    vars: Map<usize, RegisterId>,
    floor: nat,
    later_vars: Map<usize, RegisterId>,
    later_floor: nat,
    r: RegisterId,
)
    requires
        floor <= later_floor,
        forall|k: usize| later_vars.contains_key(k) ==> known(vars, floor, #[trigger] later_vars[k]),
        known(later_vars, later_floor, r),
    ensures
        known(vars, floor, r),
{
    if r.0 < later_floor {
        let k = choose|k: usize| later_vars.contains_key(k) && #[trigger] later_vars[k] == r;
        assert(known(vars, floor, later_vars[k]));
    }
}

/// What was lowered in two stretches, one after the other, is as sound as
/// each of them.
pub proof fn lemma_sound_unit_then(
    before: Unit,
    vars: Map<usize, RegisterId>,
    middle: Unit,
    middle_vars: Map<usize, RegisterId>,
    after: Unit,
    after_vars: Map<usize, RegisterId>,
    holes: Set<int>,
)
    requires
        sound_unit(before, vars, middle, middle_vars, holes),
        sound_unit(middle, middle_vars, after, after_vars, Set::empty()),
    ensures
        sound_unit(before, vars, after, after_vars, holes),
{
    assert forall|k: usize| after_vars.contains_key(k) implies known(
        vars,
        before.values.len(),
        #[trigger] after_vars[k],
    ) by {
        lemma_known_earlier(vars, before.values.len(), middle_vars, middle.values.len(), after_vars[k]);
    }
    assert forall|i: int|
        before.code.len() <= i < after.code.len() && !holes.contains(i) implies fine(
        #[trigger] after.code[i],
        i,
        before,
        vars,
        after.code.len(),
    ) by {
        if i < middle.code.len() {
            assert(after.code[i] == middle.code[i]);
            assert(fine(middle.code[i], i, before, vars, middle.code.len()));
        } else {
            assert(fine(after.code[i], i, middle, middle_vars, after.code.len()));
            assert forall|r: RegisterId| #[trigger] after.code[i].names(r) implies known(
                vars,
                before.values.len(),
                r,
            ) by {
                lemma_known_earlier(vars, before.values.len(), middle_vars, middle.values.len(), r);
            }
        }
    }
    assert forall|i: int| 0 <= i < before.code.len() implies after.code[i]
        == #[trigger] before.code[i] by {
        assert(middle.code[i] == before.code[i]);
    }
    assert forall|i: int| 0 <= i < before.values.len() implies after.values[i]
        == #[trigger] before.values[i] by {
        assert(middle.values[i] == before.values[i]);
    }
    assert forall|i: int| 0 <= i < before.types.len() implies after.types[i]
        == #[trigger] before.types[i] by {
        assert(middle.types[i] == before.types[i]);
    }
}

/// Nothing lowered is sound.
pub proof fn lemma_sound_unit_same(unit: Unit, vars: Map<usize, RegisterId>)
    requires
        unit.wf(),
        bound_in(vars, unit),
    ensures
        sound_unit(unit, vars, unit, vars, Set::empty()),
{
}

/// One more register keeps what was lowered sound.
pub proof fn lemma_sound_unit_register(
    before: Unit,
    vars: Map<usize, RegisterId>,
    unit: Unit,
    unit_vars: Map<usize, RegisterId>,
    holes: Set<int>,
    value: i64,
    ty: TypeId,
)
    requires
        sound_unit(before, vars, unit, unit_vars, holes),
    ensures
        sound_unit(before, vars, unit.push_register(value, ty), unit_vars, holes),
{
    unit.lemma_push_register_wf(value, ty);
    let grown = unit.push_register(value, ty);
    assert forall|i: int|
        before.code.len() <= i < grown.code.len() && !holes.contains(i) implies fine(
        #[trigger] grown.code[i],
        i,
        before,
        vars,
        grown.code.len(),
    ) by {
        assert(fine(unit.code[i], i, before, vars, unit.code.len()));
    }
}

/// One more instruction keeps what was lowered sound, if it names registers
/// that exist, stores into a known one, and branches only as far as itself
/// or just past itself.
pub proof fn lemma_sound_unit_emit(
    before: Unit,
    vars: Map<usize, RegisterId>,
    unit: Unit,
    unit_vars: Map<usize, RegisterId>,
    holes: Set<int>,
    op: Op,
)
    requires
        sound_unit(before, vars, unit, unit_vars, holes),
        op.registers_below(unit.values.len()),
        fine(op, unit.code.len() as int, before, vars, unit.code.len() + 1),
    ensures
        sound_unit(before, vars, unit.emit(op), unit_vars, holes),
{
    let grown = unit.emit(op);
    assert forall|i: int|
        before.code.len() <= i < grown.code.len() && !holes.contains(i) implies fine(
        #[trigger] grown.code[i],
        i,
        before,
        vars,
        grown.code.len(),
    ) by {
        if i < unit.code.len() {
            assert(fine(unit.code[i], i, before, vars, unit.code.len()));
        }
    }
}

/// A reserved branch keeps what was lowered sound but for its own position.
pub proof fn lemma_sound_unit_reserve(
    before: Unit,
    vars: Map<usize, RegisterId>,
    unit: Unit,
    unit_vars: Map<usize, RegisterId>,
    holes: Set<int>,
    op: Op,
)
    requires
        sound_unit(before, vars, unit, unit_vars, holes),
        op.registers_below(unit.values.len()),
    ensures
        sound_unit(before, vars, unit.emit(op), unit_vars, holes.insert(unit.code.len() as int)),
{
    let grown = unit.emit(op);
    assert forall|i: int|
        before.code.len() <= i < grown.code.len() && !holes.insert(
            unit.code.len() as int,
        ).contains(i) implies fine(#[trigger] grown.code[i], i, before, vars, grown.code.len()) by {
        assert(fine(unit.code[i], i, before, vars, unit.code.len()));
    }
}

/// Patching a reserved branch makes its position sound, if the instruction
/// put there names registers that exist and branches within what was
/// lowered.
pub proof fn lemma_sound_unit_patch(
    before: Unit,
    vars: Map<usize, RegisterId>,
    unit: Unit,
    unit_vars: Map<usize, RegisterId>,
    holes: Set<int>,
    at: int,
    op: Op,
)
    requires
        sound_unit(before, vars, unit, unit_vars, holes),
        before.code.len() <= at < unit.code.len(),
        op.registers_below(unit.values.len()),
        fine(op, at, before, vars, unit.code.len()),
    ensures
        sound_unit(before, vars, unit.patch(at, op), unit_vars, holes.remove(at)),
{
    let patched = unit.patch(at, op);
    assert forall|i: int|
        before.code.len() <= i < patched.code.len() && !holes.remove(at).contains(i) implies fine(
        #[trigger] patched.code[i],
        i,
        before,
        vars,
        patched.code.len(),
    ) by {
        if i != at {
            assert(fine(unit.code[i], i, before, vars, unit.code.len()));
        }
    }
    assert forall|i: int| 0 <= i < patched.code.len() implies (#[trigger] patched.code[i])
        .registers_below(patched.values.len()) by {
        if i != at {
            assert(unit.code[i].registers_below(unit.values.len()));
        }
    }
}

/// A move keeps what was lowered sound, if both registers exist and the
/// target is a known one.
pub proof fn lemma_sound_unit_mov(
    before: Unit,
    vars: Map<usize, RegisterId>,
    unit: Unit,
    unit_vars: Map<usize, RegisterId>,
    holes: Set<int>,
    target: RegisterId,
    source: RegisterId,
)
    requires
        sound_unit(before, vars, unit, unit_vars, holes),
        unit.has(target),
        unit.has(source),
        known(vars, before.values.len(), target),
        known(vars, before.values.len(), source),
    ensures
        sound_unit(before, vars, unit.mov(target, source), unit_vars, holes),
{
    if target != source {
        lemma_sound_unit_emit(before, vars, unit, unit_vars, holes, Op::Mov { target, source });
    }
}

/// A new binding keeps what was lowered sound, if it is to a known register
/// that exists.
pub proof fn lemma_sound_unit_bind(
    before: Unit,
    vars: Map<usize, RegisterId>,
    unit: Unit,
    unit_vars: Map<usize, RegisterId>,
    holes: Set<int>,
    name: usize,
    register: RegisterId,
)
    requires
        sound_unit(before, vars, unit, unit_vars, holes),
        unit.has(register),
        known(vars, before.values.len(), register),
    ensures
        sound_unit(before, vars, unit, unit_vars.insert(name, register), holes),
{
    let bound = unit_vars.insert(name, register);
    assert forall|k: usize| bound.contains_key(k) implies (#[trigger] bound[k]).0
        < unit.values.len() by {
        if k != name {
            assert(unit_vars.contains_key(k));
        }
    }
    assert forall|k: usize| bound.contains_key(k) implies known(
        vars,
        before.values.len(),
        #[trigger] bound[k],
    ) by {
        if k != name {
            assert(unit_vars.contains_key(k));
        }
    }
}

/// Lowering a node never shrinks the unit.
pub proof fn lemma_node_grows(
    unit: Unit,
    vars: Map<usize, RegisterId>,
    node: NodeId,
    delta: EngineDelta,
    typechecker: TypeChecker,
)
    ensures
        lower_node(unit, vars, node, delta, typechecker).unit.grown_from(unit),
    decreases 2 * node.0 + 1, 0nat,
{
    let after = lower_node(unit, vars, node, delta, typechecker);
    if node.0 < delta.ast_nodes@.len() {
        match delta.ast_nodes@[node.0 as int] {
            AstNode::BinaryOp { lhs, op, rhs } => {
                if lhs.0 < node.0 && rhs.0 < node.0 {
                    lemma_binop_grows(unit, vars, lhs, op, rhs, delta, typechecker);
                }
            },
            AstNode::Block(nodes) => {
                if id_bound(nodes@) <= node.0 {
                    lemma_block_grows(unit, vars, nodes@, delta, typechecker);
                }
            },
            AstNode::Let { variable_name, initializer, .. } => {
                if initializer.0 < node.0 {
                    lemma_node_grows(unit, vars, initializer, delta, typechecker);
                    assert(after == lower_let(
                        unit,
                        vars,
                        variable_name,
                        initializer,
                        delta,
                        typechecker,
                    ));
                    assert(after.unit == lower_node(
                        unit,
                        vars,
                        initializer,
                        delta,
                        typechecker,
                    ).unit);
                }
            },
            AstNode::Statement(inner) => {
                if inner.0 < node.0 {
                    lemma_node_grows(unit, vars, inner, delta, typechecker);
                }
            },
            AstNode::If { condition, then_block, else_expression } => {
                if condition.0 < node.0 && then_block.0 < node.0 && bound_of(
                    else_expression,
                ) <= node.0 {
                    lemma_if_grows(
                        unit,
                        vars,
                        node,
                        condition,
                        then_block,
                        else_expression,
                        delta,
                        typechecker,
                    );
                }
            },
            AstNode::While { condition, block } => {
                if condition.0 < node.0 && block.0 < node.0 {
                    lemma_while_grows(unit, vars, condition, block, delta, typechecker);
                }
            },
            AstNode::Call { head, args } => {
                if id_bound(args@) <= node.0 {
                    lemma_call_grows(unit, vars, head, args@, delta, typechecker);
                }
            },
            AstNode::Int => {
                assert(after == lower_int(unit, vars, node, delta));
            },
            AstNode::Float => {
                assert(after == lower_float(unit, vars, node, delta));
            },
            AstNode::True => {
                assert(after == lower_bool(unit, vars, true));
            },
            AstNode::False => {
                assert(after == lower_bool(unit, vars, false));
            },
            AstNode::Variable => {
                assert(after == lower_variable(unit, vars, node, typechecker));
            },
            _ => {
                assert(after.unit == unit);
            },
        }
    }
}

/// Lowering a binary operation never shrinks the unit.
pub proof fn lemma_binop_grows(
    unit: Unit,
    vars: Map<usize, RegisterId>,
    lhs: NodeId,
    op: NodeId,
    rhs: NodeId,
    delta: EngineDelta,
    typechecker: TypeChecker,
)
    ensures
        lower_binop(unit, vars, lhs, op, rhs, delta, typechecker).unit.grown_from(unit),
    decreases 2 * greater(lhs.0 as nat, rhs.0 as nat) + 2, 0nat,
{
    lemma_node_grows(unit, vars, lhs, delta, typechecker);
    let left = lower_node(unit, vars, lhs, delta, typechecker);
    if left.result is Ok {
        lemma_node_grows(left.unit, left.vars, rhs, delta, typechecker);
    }
}

/// Lowering a conditional never shrinks the unit, nor does any of its
/// stages.
pub proof fn lemma_if_grows(
    unit: Unit,
    vars: Map<usize, RegisterId>,
    node: NodeId,
    condition: NodeId,
    then_block: NodeId,
    else_expression: Option<NodeId>,
    delta: EngineDelta,
    typechecker: TypeChecker,
)
    ensures
        ({
            let lowered = lower_if(
                unit,
                vars,
                node,
                condition,
                then_block,
                else_expression,
                delta,
                typechecker,
            );
            let tested = condition_of(unit, vars, node, condition, delta, typechecker);
            let taken = then_of(unit, vars, node, condition, then_block, delta, typechecker);
            &&& lowered.unit.grown_from(unit)
            &&& node.0 < typechecker.node_types@.len() ==> {
                &&& lowered.unit.grown_from(tested.unit)
                &&& tested.result is Ok ==> {
                    &&& lowered.unit.grown_from(taken.unit)
                    &&& taken.result is Ok ==> (else_expression matches Some(else_node)
                        ==> lowered.unit.grown_from(
                        else_of(
                            unit,
                            vars,
                            node,
                            condition,
                            then_block,
                            else_node,
                            delta,
                            typechecker,
                        ).unit,
                    ))
                }
            }
        }),
    decreases
        2 * greater(
            greater(condition.0 as nat, then_block.0 as nat) + 1,
            bound_of(else_expression),
        ),
        0nat,
{
    if node.0 < typechecker.node_types@.len() {
        let started = unit.push_register(0, typechecker.node_types@[node.0 as int]);
        lemma_node_grows(started, vars, condition, delta, typechecker);
        let tested = lower_node(started, vars, condition, delta, typechecker);
        if let Ok(flag) = tested.result {
            let reserved = tested.unit.emit(
                Op::Brif {
                    condition: flag,
                    then_branch: InstructionId(0),
                    else_branch: InstructionId(0),
                },
            );
            lemma_node_grows(reserved, tested.vars, then_block, delta, typechecker);
            let taken = lower_node(reserved, tested.vars, then_block, delta, typechecker);
            if let Ok(then_value) = taken.result {
                let collected = taken.unit.mov(unit.next_register(), then_value);
                if let Some(else_node) = else_expression {
                    let skipping = collected.emit(Op::Jmp { location: InstructionId(0) });
                    lemma_node_grows(skipping, taken.vars, else_node, delta, typechecker);
                }
            }
        }
    }
}

/// Lowering a loop never shrinks the unit.
pub proof fn lemma_while_grows(
    unit: Unit,
    vars: Map<usize, RegisterId>,
    condition: NodeId,
    block: NodeId,
    delta: EngineDelta,
    typechecker: TypeChecker,
)
    ensures
        ({
            let lowered = lower_while(unit, vars, condition, block, delta, typechecker);
            let tested = test_of(unit, vars, condition, delta, typechecker);
            &&& lowered.unit.grown_from(unit)
            &&& lowered.unit.grown_from(tested.unit)
            &&& tested.result is Ok ==> lowered.unit.grown_from(
                body_of(unit, vars, condition, block, delta, typechecker).unit,
            )
        }),
    decreases 2 * greater(condition.0 as nat, block.0 as nat) + 2, 0nat,
{
    let started = unit.push_register(0, VOID_TYPE);
    lemma_node_grows(started, vars, condition, delta, typechecker);
    let tested = lower_node(started, vars, condition, delta, typechecker);
    if let Ok(flag) = tested.result {
        let reserved = tested.unit.emit(
            Op::Brif {
                condition: flag,
                then_branch: InstructionId(0),
                else_branch: InstructionId(0),
            },
        );
        lemma_node_grows(reserved, tested.vars, block, delta, typechecker);
    }
}

/// Lowering statements never shrinks the unit.
pub proof fn lemma_statements_grow(
    unit: Unit,
    vars: Map<usize, RegisterId>,
    nodes: Seq<NodeId>,
    delta: EngineDelta,
    typechecker: TypeChecker,
)
    ensures
        lower_statements(unit, vars, nodes, delta, typechecker).unit.grown_from(unit),
    decreases 2 * id_bound(nodes), nodes.len(),
{
    if nodes.len() == 1 {
        lemma_node_grows(unit, vars, nodes[0], delta, typechecker);
    } else if nodes.len() > 1 {
        lemma_statements_grow(unit, vars, nodes.drop_last(), delta, typechecker);
        let before = lower_statements(unit, vars, nodes.drop_last(), delta, typechecker);
        if before.result is Ok {
            lemma_node_grows(before.unit, before.vars, nodes.last(), delta, typechecker);
        }
    }
}

/// Lowering a block never shrinks the unit.
pub proof fn lemma_block_grows(
    unit: Unit,
    vars: Map<usize, RegisterId>,
    nodes: Seq<NodeId>,
    delta: EngineDelta,
    typechecker: TypeChecker,
)
    ensures
        lower_block(unit, vars, nodes, delta, typechecker).unit.grown_from(unit),
    decreases 2 * id_bound(nodes), nodes.len() + 1,
{
    if nodes.len() > 0 {
        lemma_statements_grow(unit, vars, nodes, delta, typechecker);
    }
}

/// Lowering arguments never shrinks the unit.
pub proof fn lemma_arguments_grow(
    unit: Unit,
    vars: Map<usize, RegisterId>,
    args: Seq<NodeId>,
    delta: EngineDelta,
    typechecker: TypeChecker,
)
    ensures
        lower_arguments(unit, vars, args, delta, typechecker).unit.grown_from(unit),
    decreases 2 * id_bound(args), args.len(),
{
    if args.len() > 0 {
        lemma_arguments_grow(unit, vars, args.drop_last(), delta, typechecker);
        let before = lower_arguments(unit, vars, args.drop_last(), delta, typechecker);
        if before.result is Ok {
            lemma_node_grows(before.unit, before.vars, args.last(), delta, typechecker);
        }
    }
}

/// Lowering a call never shrinks the unit.
pub proof fn lemma_call_grows(
    unit: Unit,
    vars: Map<usize, RegisterId>,
    head: NodeId,
    args: Seq<NodeId>,
    delta: EngineDelta,
    typechecker: TypeChecker,
)
    ensures
        lower_call(unit, vars, head, args, delta, typechecker).unit.grown_from(unit),
    decreases 2 * id_bound(args), args.len() + 1,
{
    let started = unit.push_register(0, VOID_TYPE);
    if typechecker.call_resolution@.contains_key(head.0) {
        lemma_arguments_grow(started, vars, args, delta, typechecker);
    }
}

/// A new register with its own value is soundly lowered.
pub proof fn lemma_fresh_sound(unit: Unit, vars: Map<usize, RegisterId>, value: i64, ty: TypeId)
    requires
        unit.wf(),
        bound_in(vars, unit),
        unit.push_register(value, ty).fits(),
    ensures
        sound(
            unit,
            vars,
            Lowered { unit: unit.push_register(value, ty), vars, result: Ok(unit.next_register()) },
        ),
{
    lemma_sound_unit_same(unit, vars);
    lemma_sound_unit_register(unit, vars, unit, vars, Set::empty(), value, ty);
}

/// What the rule for a node produces is sound.
pub proof fn lemma_node_sound(
    unit: Unit,
    vars: Map<usize, RegisterId>,
    node: NodeId,
    delta: EngineDelta,
    typechecker: TypeChecker,
)
    requires
        unit.wf(),
        bound_in(vars, unit),
        lower_node(unit, vars, node, delta, typechecker).result is Ok,
        lower_node(unit, vars, node, delta, typechecker).unit.fits(),
    ensures
        sound(unit, vars, lower_node(unit, vars, node, delta, typechecker)),
    decreases 2 * node.0 + 1, 0nat,
{
    let after = lower_node(unit, vars, node, delta, typechecker);
    match delta.ast_nodes@[node.0 as int] {
        AstNode::Int => {
            assert(after == lower_int(unit, vars, node, delta));
            lemma_fresh_sound(unit, vars, after.unit.values.last(), after.unit.types.last());
            assert(after.unit =~= unit.push_register(
                after.unit.values.last(),
                after.unit.types.last(),
            ));
        },
        AstNode::Float => {
            assert(after == lower_float(unit, vars, node, delta));
            lemma_fresh_sound(unit, vars, after.unit.values.last(), after.unit.types.last());
            assert(after.unit =~= unit.push_register(
                after.unit.values.last(),
                after.unit.types.last(),
            ));
        },
        AstNode::True => {
            assert(after == lower_bool(unit, vars, true));
            lemma_fresh_sound(unit, vars, 1, BOOL_TYPE);
        },
        AstNode::False => {
            assert(after == lower_bool(unit, vars, false));
            lemma_fresh_sound(unit, vars, 0, BOOL_TYPE);
        },
        AstNode::Variable => {
            assert(after == lower_variable(unit, vars, node, typechecker));
            lemma_sound_unit_same(unit, vars);
            assert(vars.contains_key(typechecker.variable_def@[node.0].0));
        },
        AstNode::BinaryOp { lhs, op, rhs } => {
            lemma_binop_sound(unit, vars, lhs, op, rhs, delta, typechecker);
        },
        AstNode::Block(nodes) => {
            lemma_block_sound(unit, vars, nodes@, delta, typechecker);
        },
        AstNode::Let { variable_name, initializer, .. } => {
            lemma_let_sound(unit, vars, variable_name, initializer, delta, typechecker);
        },
        AstNode::Statement(inner) => {
            lemma_node_sound(unit, vars, inner, delta, typechecker);
        },
        AstNode::If { condition, then_block, else_expression } => {
            lemma_if_sound(
                unit,
                vars,
                node,
                condition,
                then_block,
                else_expression,
                delta,
                typechecker,
            );
        },
        AstNode::While { condition, block } => {
            lemma_while_sound(unit, vars, condition, block, delta, typechecker);
        },
        AstNode::Call { head, args } => {
            lemma_call_sound(unit, vars, head, args@, delta, typechecker);
        },
        _ => {},
    }
}

/// What the operator of a binary operation adds is sound, on operands that
/// were soundly lowered.
pub proof fn lemma_operator_sound(
    before: Unit,
    vars: Map<usize, RegisterId>,
    unit: Unit,
    unit_vars: Map<usize, RegisterId>,
    lhs: RegisterId,
    op: NodeId,
    rhs: RegisterId,
    delta: EngineDelta,
)
    requires
        sound_unit(before, vars, unit, unit_vars, Set::empty()),
        unit.has(lhs),
        unit.has(rhs),
        known(vars, before.values.len(), lhs),
        known(vars, before.values.len(), rhs),
        lower_operator(unit, unit_vars, lhs, op, rhs, delta).result is Ok,
        lower_operator(unit, unit_vars, lhs, op, rhs, delta).unit.fits(),
    ensures
        sound(before, vars, lower_operator(unit, unit_vars, lhs, op, rhs, delta)),
{
    let after = lower_operator(unit, unit_vars, lhs, op, rhs, delta);
    if delta.ast_nodes@[op.0 as int] is Assignment {
        lemma_sound_unit_mov(before, vars, unit, unit_vars, Set::empty(), lhs, rhs);
    } else {
        let operation = operation_of(delta.ast_nodes@[op.0 as int])->0;
        let tag = unit.types[lhs.0 as int];
        let ty = if operation.is_comparison() {
            BOOL_TYPE
        } else {
            tag
        };
        let target = unit.next_register();
        let grown = unit.push_register(0, ty);
        lemma_sound_unit_register(before, vars, unit, unit_vars, Set::empty(), 0, ty);
        let instruction = if tag == F64_TYPE {
            Op::Float { op: operation, lhs, rhs, target }
        } else {
            Op::Int { op: operation, lhs, rhs, target }
        };
        assert(after.unit == grown.emit(instruction));
        lemma_sound_unit_emit(before, vars, grown, unit_vars, Set::empty(), instruction);
    }
}

/// What the rule for a binary operation produces is sound.
pub proof fn lemma_binop_sound(
    unit: Unit,
    vars: Map<usize, RegisterId>,
    lhs: NodeId,
    op: NodeId,
    rhs: NodeId,
    delta: EngineDelta,
    typechecker: TypeChecker,
)
    requires
        unit.wf(),
        bound_in(vars, unit),
        lower_binop(unit, vars, lhs, op, rhs, delta, typechecker).result is Ok,
        lower_binop(unit, vars, lhs, op, rhs, delta, typechecker).unit.fits(),
    ensures
        sound(unit, vars, lower_binop(unit, vars, lhs, op, rhs, delta, typechecker)),
    decreases 2 * greater(lhs.0 as nat, rhs.0 as nat) + 2, 0nat,
{
    let left = lower_node(unit, vars, lhs, delta, typechecker);
    let right = lower_node(left.unit, left.vars, rhs, delta, typechecker);
    let after = lower_operator(right.unit, right.vars, left.result->Ok_0, op, right.result->Ok_0, delta);
    assert(after.unit.grown_from(right.unit));
    lemma_node_grows(left.unit, left.vars, rhs, delta, typechecker);
    lemma_node_sound(unit, vars, lhs, delta, typechecker);
    lemma_node_sound(left.unit, left.vars, rhs, delta, typechecker);
    lemma_sound_unit_then(unit, vars, left.unit, left.vars, right.unit, right.vars, Set::empty());
    lemma_known_earlier(
        vars,
        unit.values.len(),
        left.vars,
        left.unit.values.len(),
        right.result->Ok_0,
    );
    lemma_operator_sound(
        unit,
        vars,
        right.unit,
        right.vars,
        left.result->Ok_0,
        op,
        right.result->Ok_0,
        delta,
    );
}

/// What the rule for a binding produces is sound.
pub proof fn lemma_let_sound(
    unit: Unit,
    vars: Map<usize, RegisterId>,
    variable_name: NodeId,
    initializer: NodeId,
    delta: EngineDelta,
    typechecker: TypeChecker,
)
    requires
        unit.wf(),
        bound_in(vars, unit),
        lower_let(unit, vars, variable_name, initializer, delta, typechecker).result is Ok,
        lower_let(unit, vars, variable_name, initializer, delta, typechecker).unit.fits(),
    ensures
        sound(unit, vars, lower_let(unit, vars, variable_name, initializer, delta, typechecker)),
    decreases 2 * initializer.0 + 2, 0nat,
{
    let value = lower_node(unit, vars, initializer, delta, typechecker);
    lemma_node_sound(unit, vars, initializer, delta, typechecker);
    lemma_sound_unit_bind(
        unit,
        vars,
        value.unit,
        value.vars,
        Set::empty(),
        variable_name.0,
        value.result->Ok_0,
    );
}

/// What the rule for a conditional produces is sound.
pub proof fn lemma_if_sound(
    unit: Unit,
    vars: Map<usize, RegisterId>,
    node: NodeId,
    condition: NodeId,
    then_block: NodeId,
    else_expression: Option<NodeId>,
    delta: EngineDelta,
    typechecker: TypeChecker,
)
    requires
        unit.wf(),
        bound_in(vars, unit),
        lower_if(
            unit,
            vars,
            node,
            condition,
            then_block,
            else_expression,
            delta,
            typechecker,
        ).result is Ok,
        lower_if(
            unit,
            vars,
            node,
            condition,
            then_block,
            else_expression,
            delta,
            typechecker,
        ).unit.fits(),
    ensures
        sound(
            unit,
            vars,
            lower_if(
                unit,
                vars,
                node,
                condition,
                then_block,
                else_expression,
                delta,
                typechecker,
            ),
        ),
    decreases
        2 * greater(greater(condition.0 as nat, then_block.0 as nat) + 1, bound_of(else_expression)),
        0nat,
{
    let after = lower_if(
        unit,
        vars,
        node,
        condition,
        then_block,
        else_expression,
        delta,
        typechecker,
    );
    let none = Set::<int>::empty();
    let ty = typechecker.node_types@[node.0 as int];
    let output = unit.next_register();
    let started = unit.push_register(0, ty);
    let tested = lower_node(started, vars, condition, delta, typechecker);
    let flag = tested.result->Ok_0;
    let branch = tested.unit.next_position();
    let placeholder = Op::Brif {
        condition: flag,
        then_branch: InstructionId(0),
        else_branch: InstructionId(0),
    };
    let reserved = tested.unit.emit(placeholder);
    let then_start = reserved.next_position();
    let taken = lower_node(reserved, tested.vars, then_block, delta, typechecker);
    let then_value = taken.result->Ok_0;
    let collected = taken.unit.mov(output, then_value);
    lemma_node_grows(started, vars, condition, delta, typechecker);
    lemma_node_grows(reserved, tested.vars, then_block, delta, typechecker);
    assert(collected.grown_from(taken.unit));

    let holes = none.insert(branch.0 as int);
    if let Some(else_node) = else_expression {
        let jump = collected.next_position();
        let skip = Op::Jmp { location: InstructionId(0) };
        let skipping = collected.emit(skip);
        let else_start = skipping.next_position();
        let other = lower_node(skipping, taken.vars, else_node, delta, typechecker);
        let else_value = other.result->Ok_0;
        let finished = other.unit.mov(output, else_value);
        lemma_node_grows(skipping, taken.vars, else_node, delta, typechecker);
        assert(finished.grown_from(other.unit));
        assert(after.unit.code.len() == finished.code.len());

        lemma_sound_unit_same(unit, vars);
        lemma_sound_unit_register(unit, vars, unit, vars, none, 0, ty);
        lemma_node_sound(started, vars, condition, delta, typechecker);
        lemma_sound_unit_then(unit, vars, started, vars, tested.unit, tested.vars, none);
        lemma_sound_unit_reserve(unit, vars, tested.unit, tested.vars, none, placeholder);
        lemma_node_sound(reserved, tested.vars, then_block, delta, typechecker);
        lemma_sound_unit_then(unit, vars, reserved, tested.vars, taken.unit, taken.vars, holes);
        lemma_sound_unit_mov(unit, vars, taken.unit, taken.vars, holes, output, then_value);
        lemma_sound_unit_reserve(unit, vars, collected, taken.vars, holes, skip);
        let both = holes.insert(jump.0 as int);
        lemma_node_sound(skipping, taken.vars, else_node, delta, typechecker);
        lemma_sound_unit_then(unit, vars, skipping, taken.vars, other.unit, other.vars, both);
        lemma_sound_unit_mov(unit, vars, other.unit, other.vars, both, output, else_value);
        let landing = Op::Jmp { location: finished.next_position() };
        lemma_sound_unit_patch(unit, vars, finished, other.vars, both, jump.0 as int, landing);
        let patched = finished.patch(jump.0 as int, landing);
        let resolved = Op::Brif { condition: flag, then_branch: then_start, else_branch: else_start };
        lemma_sound_unit_patch(
            unit,
            vars,
            patched,
            other.vars,
            both.remove(jump.0 as int),
            branch.0 as int,
            resolved,
        );
        assert(both.remove(jump.0 as int).remove(branch.0 as int) =~= none);
    } else {
        assert(after.unit.code.len() == collected.code.len());
        lemma_sound_unit_same(unit, vars);
        lemma_sound_unit_register(unit, vars, unit, vars, none, 0, ty);
        lemma_node_sound(started, vars, condition, delta, typechecker);
        lemma_sound_unit_then(unit, vars, started, vars, tested.unit, tested.vars, none);
        lemma_sound_unit_reserve(unit, vars, tested.unit, tested.vars, none, placeholder);
        lemma_node_sound(reserved, tested.vars, then_block, delta, typechecker);
        lemma_sound_unit_then(unit, vars, reserved, tested.vars, taken.unit, taken.vars, holes);
        lemma_sound_unit_mov(unit, vars, taken.unit, taken.vars, holes, output, then_value);
        let resolved = Op::Brif {
            condition: flag,
            then_branch: then_start,
            else_branch: collected.next_position(),
        };
        lemma_sound_unit_patch(unit, vars, collected, taken.vars, holes, branch.0 as int, resolved);
        assert(holes.remove(branch.0 as int) =~= none);
    }
}

/// What the rule for a loop produces is sound.
pub proof fn lemma_while_sound(
    unit: Unit,
    vars: Map<usize, RegisterId>,
    condition: NodeId,
    block: NodeId,
    delta: EngineDelta,
    typechecker: TypeChecker,
)
    requires
        unit.wf(),
        bound_in(vars, unit),
        lower_while(unit, vars, condition, block, delta, typechecker).result is Ok,
        lower_while(unit, vars, condition, block, delta, typechecker).unit.fits(),
    ensures
        sound(unit, vars, lower_while(unit, vars, condition, block, delta, typechecker)),
    decreases 2 * greater(condition.0 as nat, block.0 as nat) + 2, 0nat,
{
    let after = lower_while(unit, vars, condition, block, delta, typechecker);
    let none = Set::<int>::empty();
    let output = unit.next_register();
    let started = unit.push_register(0, VOID_TYPE);
    let top = started.next_position();
    let tested = lower_node(started, vars, condition, delta, typechecker);
    let flag = tested.result->Ok_0;
    let branch = tested.unit.next_position();
    let placeholder = Op::Brif {
        condition: flag,
        then_branch: InstructionId(0),
        else_branch: InstructionId(0),
    };
    let reserved = tested.unit.emit(placeholder);
    let body_start = reserved.next_position();
    let body = lower_node(reserved, tested.vars, block, delta, typechecker);
    let back = Op::Jmp { location: top };
    let looped = body.unit.emit(back);
    lemma_node_grows(started, vars, condition, delta, typechecker);
    lemma_node_grows(reserved, tested.vars, block, delta, typechecker);
    assert(after.unit.code.len() == looped.code.len());
    let holes = none.insert(branch.0 as int);

    lemma_sound_unit_same(unit, vars);
    lemma_sound_unit_register(unit, vars, unit, vars, none, 0, VOID_TYPE);
    lemma_node_sound(started, vars, condition, delta, typechecker);
    lemma_sound_unit_then(unit, vars, started, vars, tested.unit, tested.vars, none);
    lemma_sound_unit_reserve(unit, vars, tested.unit, tested.vars, none, placeholder);
    lemma_node_sound(reserved, tested.vars, block, delta, typechecker);
    lemma_sound_unit_then(unit, vars, reserved, tested.vars, body.unit, body.vars, holes);
    lemma_sound_unit_emit(unit, vars, body.unit, body.vars, holes, back);
    let resolved = Op::Brif {
        condition: flag,
        then_branch: body_start,
        else_branch: looped.next_position(),
    };
    lemma_sound_unit_patch(unit, vars, looped, body.vars, holes, branch.0 as int, resolved);
    assert(holes.remove(branch.0 as int) =~= none);
}

/// What the rule for statements produces is sound.
pub proof fn lemma_statements_sound(
    unit: Unit,
    vars: Map<usize, RegisterId>,
    nodes: Seq<NodeId>,
    delta: EngineDelta,
    typechecker: TypeChecker,
)
    requires
        unit.wf(),
        bound_in(vars, unit),
        nodes.len() > 0,
        lower_statements(unit, vars, nodes, delta, typechecker).result is Ok,
        lower_statements(unit, vars, nodes, delta, typechecker).unit.fits(),
    ensures
        sound(unit, vars, lower_statements(unit, vars, nodes, delta, typechecker)),
    decreases 2 * id_bound(nodes), nodes.len(),
{
    if nodes.len() == 1 {
        lemma_node_sound(unit, vars, nodes[0], delta, typechecker);
    } else {
        let before = lower_statements(unit, vars, nodes.drop_last(), delta, typechecker);
        let after = lower_node(before.unit, before.vars, nodes.last(), delta, typechecker);
        lemma_node_grows(before.unit, before.vars, nodes.last(), delta, typechecker);
        lemma_statements_sound(unit, vars, nodes.drop_last(), delta, typechecker);
        lemma_node_sound(before.unit, before.vars, nodes.last(), delta, typechecker);
        lemma_sound_unit_then(
            unit,
            vars,
            before.unit,
            before.vars,
            after.unit,
            after.vars,
            Set::empty(),
        );
        lemma_known_earlier(
            vars,
            unit.values.len(),
            before.vars,
            before.unit.values.len(),
            after.result->Ok_0,
        );
    }
}

/// What the rule for a block produces is sound.
pub proof fn lemma_block_sound(
    unit: Unit,
    vars: Map<usize, RegisterId>,
    nodes: Seq<NodeId>,
    delta: EngineDelta,
    typechecker: TypeChecker,
)
    requires
        unit.wf(),
        bound_in(vars, unit),
        lower_block(unit, vars, nodes, delta, typechecker).result is Ok,
        lower_block(unit, vars, nodes, delta, typechecker).unit.fits(),
    ensures
        sound(unit, vars, lower_block(unit, vars, nodes, delta, typechecker)),
    decreases 2 * id_bound(nodes), nodes.len() + 1,
{
    if nodes.len() == 0 {
        lemma_fresh_sound(unit, vars, 0, VOID_TYPE);
    } else {
        lemma_statements_sound(unit, vars, nodes, delta, typechecker);
    }
}

/// What the rule for arguments produces is sound.
pub proof fn lemma_arguments_sound(
    unit: Unit,
    vars: Map<usize, RegisterId>,
    args: Seq<NodeId>,
    delta: EngineDelta,
    typechecker: TypeChecker,
)
    requires
        unit.wf(),
        bound_in(vars, unit),
        lower_arguments(unit, vars, args, delta, typechecker).result is Ok,
        lower_arguments(unit, vars, args, delta, typechecker).unit.fits(),
    ensures
        sound_list(unit, vars, lower_arguments(unit, vars, args, delta, typechecker)),
        lower_arguments(unit, vars, args, delta, typechecker).result->Ok_0.len() == args.len(),
    decreases 2 * id_bound(args), args.len(),
{
    if args.len() == 0 {
        lemma_sound_unit_same(unit, vars);
    } else {
        let before = lower_arguments(unit, vars, args.drop_last(), delta, typechecker);
        let value = lower_node(before.unit, before.vars, args.last(), delta, typechecker);
        lemma_node_grows(before.unit, before.vars, args.last(), delta, typechecker);
        lemma_arguments_sound(unit, vars, args.drop_last(), delta, typechecker);
        lemma_node_sound(before.unit, before.vars, args.last(), delta, typechecker);
        lemma_sound_unit_then(
            unit,
            vars,
            before.unit,
            before.vars,
            value.unit,
            value.vars,
            Set::empty(),
        );
        let registers = before.result->Ok_0.push(value.result->Ok_0);
        assert forall|j: int| 0 <= j < registers.len() implies (#[trigger] registers[j]).0
            < value.unit.values.len() by {
            if j < registers.len() - 1 {
                assert(registers[j] == before.result->Ok_0[j]);
            }
        }
    }
}

/// What the rule for a call produces is sound.
pub proof fn lemma_call_sound(
    unit: Unit,
    vars: Map<usize, RegisterId>,
    head: NodeId,
    args: Seq<NodeId>,
    delta: EngineDelta,
    typechecker: TypeChecker,
)
    requires
        unit.wf(),
        bound_in(vars, unit),
        lower_call(unit, vars, head, args, delta, typechecker).result is Ok,
        lower_call(unit, vars, head, args, delta, typechecker).unit.fits(),
    ensures
        sound(unit, vars, lower_call(unit, vars, head, args, delta, typechecker)),
    decreases 2 * id_bound(args), args.len() + 1,
{
    let none = Set::<int>::empty();
    let output = unit.next_register();
    let started = unit.push_register(0, VOID_TYPE);
    let passed = lower_arguments(started, vars, args, delta, typechecker);
    let call = Op::Call {
        head: typechecker.call_resolution@[head.0],
        args: passed.result->Ok_0,
        target: output,
    };
    lemma_arguments_grow(started, vars, args, delta, typechecker);
    lemma_sound_unit_same(unit, vars);
    lemma_sound_unit_register(unit, vars, unit, vars, none, 0, VOID_TYPE);
    lemma_arguments_sound(started, vars, args, delta, typechecker);
    lemma_sound_unit_then(unit, vars, started, vars, passed.unit, passed.vars, none);
    lemma_sound_unit_emit(unit, vars, passed.unit, passed.vars, none, call);
}

/// What lowering a whole tree produces is sound: a well-formed unit with a
/// result slot, in which every branch leads to a position of the unit or to
/// its end.
pub proof fn lemma_tree_sound(delta: EngineDelta, typechecker: TypeChecker)
    requires
        lower_tree(delta, typechecker).result is Ok,
        lower_tree(delta, typechecker).unit.fits(),
    ensures
        sound(Unit::empty(), Map::empty(), lower_tree(delta, typechecker)),
        lower_tree(delta, typechecker).result == Ok::<RegisterId, TranslateError>(
            RegisterId(0),
        ),
{
    let unit = Unit::empty();
    let vars = Map::<usize, RegisterId>::empty();
    let none = Set::<int>::empty();
    lemma_sound_unit_same(unit, vars);
    if delta.ast_nodes@.len() == 0 {
        lemma_sound_unit_register(unit, vars, unit, vars, none, 0, VOID_TYPE);
    } else {
        let root = NodeId((delta.ast_nodes@.len() - 1) as usize);
        let ty = typechecker.node_types@[root.0 as int];
        let started = unit.push_register(0, ty);
        let body = lower_node(started, vars, root, delta, typechecker);
        lemma_node_grows(started, vars, root, delta, typechecker);
        assert(lower_tree(delta, typechecker).unit.grown_from(body.unit));
        lemma_sound_unit_register(unit, vars, unit, vars, none, 0, ty);
        lemma_node_sound(started, vars, root, delta, typechecker);
        lemma_sound_unit_then(unit, vars, started, vars, body.unit, body.vars, none);
        lemma_sound_unit_mov(
            unit,
            vars,
            body.unit,
            body.vars,
            none,
            RegisterId(0),
            body.result->Ok_0,
        );
    }
}

} // verus!
