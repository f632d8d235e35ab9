//! Lowering a node by itself and lowering it in the middle of a tree give the
//! same code, but for where its registers and its instructions come to
//! stand.
//!
//! "By itself" is: from the empty unit, with no bindings. The code that this
//! gives, with every register index raised by the number of registers that
//! were there before and every position raised by the number of instructions
//! that were there before, is the code that lowering in the middle of a tree
//! gives.

use vstd::prelude::*;
use crate::codegen::Unit;
use crate::ids::{InstructionId, NodeId, RegisterId, TypeId, BOOL_TYPE, F64_TYPE, VOID_TYPE};
use crate::instruction::Op;
use crate::laws::{conditional_of, law_conditional_layout, starts_with_code_of};
use crate::lowering::{
    bound_of, condition_of, else_of, greater, lower_arguments, lower_binop, lower_block,
    lower_bool, lower_call, lower_float, lower_if, lower_int, lower_let, lower_node,
    lower_operator, lower_statements, lower_variable, lower_while, Lowered, LoweredList,
    operation_of, then_of, TranslateError,
};
use crate::machine::Driven;
use crate::soundness::{
    bound_in, fine, lemma_arguments_grow, lemma_arguments_sound, lemma_if_grows, lemma_node_grows,
    lemma_node_sound, lemma_statements_grow, lemma_statements_sound, lemma_while_grows,
};
use crate::syntax::{AstNode, EngineDelta, id_bound};
use crate::typechecker::{FnRecord, TypeChecker};

verus! {

/// Register `r`, moved up by `by` registers.
pub open spec fn moved(r: RegisterId, by: nat) -> RegisterId {
    RegisterId((r.0 + by) as usize)
}

impl Op {
    /// The instruction with every register moved up by `registers` and every
    /// branch target moved up by `positions`.
    pub open spec fn shifted(self, registers: nat, positions: nat) -> Op {
        match self {
            Op::Int { op, lhs, rhs, target } => Op::Int {
                op,
                lhs: moved(lhs, registers),
                rhs: moved(rhs, registers),
                target: moved(target, registers),
            },
            Op::Float { op, lhs, rhs, target } => Op::Float {
                op,
                lhs: moved(lhs, registers),
                rhs: moved(rhs, registers),
                target: moved(target, registers),
            },
            Op::Mov { target, source } => Op::Mov {
                target: moved(target, registers),
                source: moved(source, registers),
            },
            Op::Brif { condition, then_branch, else_branch } => Op::Brif {
                condition: moved(condition, registers),
                then_branch: InstructionId((then_branch.0 + positions) as usize),
                else_branch: InstructionId((else_branch.0 + positions) as usize),
            },
            Op::Jmp { location } => Op::Jmp {
                location: InstructionId((location.0 + positions) as usize),
            },
            Op::Call { head, args, target } => Op::Call {
                head,
                args: Seq::new(args.len(), |i: int| moved(args[i], registers)),
                target: moved(target, registers),
            },
        }
    }
}

/// Whether the unit `within` and the bindings `within_vars` hold, moved up
/// by `registers` and `positions`, what the unit `alone` and the bindings
/// `alone_vars` hold. Nothing is asked of the positions in `holes`, which
/// are those of reserved branches in `alone`.
pub open spec fn corresponds(
    alone: Unit,
    alone_vars: Map<usize, RegisterId>,
    within: Unit,
    within_vars: Map<usize, RegisterId>,
    registers: nat,
    positions: nat,
    holes: Set<int>,
) -> bool {
    &&& within.values.len() == alone.values.len() + registers
    &&& within.types.len() == alone.types.len() + registers
    &&& within.code.len() == alone.code.len() + positions
    &&& forall|r: int|
        0 <= r < alone.values.len() ==> within.values[r + registers] == #[trigger] alone.values[r]
    &&& forall|r: int|
        0 <= r < alone.types.len() ==> within.types[r + registers] == #[trigger] alone.types[r]
    &&& forall|i: int|
        0 <= i < alone.code.len() && !holes.contains(i) ==> within.code[i + positions] == (
        #[trigger] alone.code[i]).shifted(registers, positions)
    &&& forall|k: usize| #[trigger]
        alone_vars.contains_key(k) ==> within_vars.contains_key(k) && within_vars[k] == moved(
            alone_vars[k],
            registers,
        )
}

/// What corresponds stays so when both units get a register with the same
/// payload and tag.
proof fn lemma_corresponds_register(
    alone: Unit,
    alone_vars: Map<usize, RegisterId>,
    within: Unit,
    within_vars: Map<usize, RegisterId>,
    registers: nat,
    positions: nat,
    holes: Set<int>,
    value: i64,
    ty: TypeId,
)
    requires
        corresponds(alone, alone_vars, within, within_vars, registers, positions, holes),
        alone.values.len() == alone.types.len(),
        within.push_register(value, ty).fits(),
    ensures
        corresponds(
            alone.push_register(value, ty),
            alone_vars,
            within.push_register(value, ty),
            within_vars,
            registers,
            positions,
            holes,
        ),
        within.next_register() == moved(alone.next_register(), registers),
{
    let alone_grown = alone.push_register(value, ty);
    let within_grown = within.push_register(value, ty);
    assert forall|r: int| 0 <= r < alone_grown.values.len() implies within_grown.values[r
        + registers] == #[trigger] alone_grown.values[r] by {
        if r < alone.values.len() {
            assert(within.values[r + registers] == alone.values[r]);
        }
    }
    assert forall|r: int| 0 <= r < alone_grown.types.len() implies within_grown.types[r + registers]
        == #[trigger] alone_grown.types[r] by {
        if r < alone.types.len() {
            assert(within.types[r + registers] == alone.types[r]);
        }
    }
    assert forall|i: int|
        0 <= i < alone_grown.code.len() && !holes.contains(i) implies within_grown.code[i
        + positions] == (#[trigger] alone_grown.code[i]).shifted(registers, positions) by {
        assert(within.code[i + positions] == alone.code[i].shifted(registers, positions));
    }
}

/// What corresponds stays so when both units get an instruction, the one
/// within being the one alone, shifted.
proof fn lemma_corresponds_emit(
    alone: Unit,
    alone_vars: Map<usize, RegisterId>,
    within: Unit,
    within_vars: Map<usize, RegisterId>,
    registers: nat,
    positions: nat,
    holes: Set<int>,
    op: Op,
)
    requires
        corresponds(alone, alone_vars, within, within_vars, registers, positions, holes),
    ensures
        corresponds(
            alone.emit(op),
            alone_vars,
            within.emit(op.shifted(registers, positions)),
            within_vars,
            registers,
            positions,
            holes,
        ),
{
    let alone_grown = alone.emit(op);
    let within_grown = within.emit(op.shifted(registers, positions));
    assert forall|i: int|
        0 <= i < alone_grown.code.len() && !holes.contains(i) implies within_grown.code[i
        + positions] == (#[trigger] alone_grown.code[i]).shifted(registers, positions) by {
        if i < alone.code.len() {
            assert(within.code[i + positions] == alone.code[i].shifted(registers, positions));
        }
    }
}

/// What corresponds stays so, but for the new position, when both units get
/// an instruction.
proof fn lemma_corresponds_reserve(
    alone: Unit,
    alone_vars: Map<usize, RegisterId>,
    within: Unit,
    within_vars: Map<usize, RegisterId>,
    registers: nat,
    positions: nat,
    holes: Set<int>,
    alone_op: Op,
    within_op: Op,
)
    requires
        corresponds(alone, alone_vars, within, within_vars, registers, positions, holes),
    ensures
        corresponds(
            alone.emit(alone_op),
            alone_vars,
            within.emit(within_op),
            within_vars,
            registers,
            positions,
            holes.insert(alone.code.len() as int),
        ),
{
    let alone_grown = alone.emit(alone_op);
    let within_grown = within.emit(within_op);
    assert forall|i: int|
        0 <= i < alone_grown.code.len() && !holes.insert(alone.code.len() as int).contains(
            i,
        ) implies within_grown.code[i + positions] == (#[trigger] alone_grown.code[i]).shifted(
        registers,
        positions,
    ) by {
        assert(within.code[i + positions] == alone.code[i].shifted(registers, positions));
    }
}

/// What corresponds but for a reserved position corresponds there too, once
/// both units are patched there, the one within with the shifted
/// instruction.
proof fn lemma_corresponds_patch(
    alone: Unit,
    alone_vars: Map<usize, RegisterId>,
    within: Unit,
    within_vars: Map<usize, RegisterId>,
    registers: nat,
    positions: nat,
    holes: Set<int>,
    at: int,
    op: Op,
)
    requires
        corresponds(alone, alone_vars, within, within_vars, registers, positions, holes),
        0 <= at < alone.code.len(),
    ensures
        corresponds(
            alone.patch(at, op),
            alone_vars,
            within.patch(at + positions, op.shifted(registers, positions)),
            within_vars,
            registers,
            positions,
            holes.remove(at),
        ),
{
    let alone_patched = alone.patch(at, op);
    let within_patched = within.patch(at + positions, op.shifted(registers, positions));
    assert forall|i: int|
        0 <= i < alone_patched.code.len() && !holes.remove(at).contains(
            i,
        ) implies within_patched.code[i + positions] == (#[trigger] alone_patched.code[i]).shifted(
        registers,
        positions,
    ) by {
        if i != at {
            assert(within.code[i + positions] == alone.code[i].shifted(registers, positions));
        }
    }
}

/// What corresponds stays so when both units get a move, the one within
/// between the moved registers.
proof fn lemma_corresponds_mov(
    alone: Unit,
    alone_vars: Map<usize, RegisterId>,
    within: Unit,
    within_vars: Map<usize, RegisterId>,
    registers: nat,
    positions: nat,
    holes: Set<int>,
    target: RegisterId,
    source: RegisterId,
)
    requires
        corresponds(alone, alone_vars, within, within_vars, registers, positions, holes),
        alone.has(target),
        alone.has(source),
        within.fits(),
    ensures
        corresponds(
            alone.mov(target, source),
            alone_vars,
            within.mov(moved(target, registers), moved(source, registers)),
            within_vars,
            registers,
            positions,
            holes,
        ),
{
    if target != source {
        lemma_corresponds_emit(
            alone,
            alone_vars,
            within,
            within_vars,
            registers,
            positions,
            holes,
            Op::Mov { target, source },
        );
    }
}

/// What corresponds stays so when both sets of bindings get a binding of the
/// same name, the one within to the moved register.
proof fn lemma_corresponds_bind(
    alone: Unit,
    alone_vars: Map<usize, RegisterId>,
    within: Unit,
    within_vars: Map<usize, RegisterId>,
    registers: nat,
    positions: nat,
    holes: Set<int>,
    name: usize,
    register: RegisterId,
)
    requires
        corresponds(alone, alone_vars, within, within_vars, registers, positions, holes),
    ensures
        corresponds(
            alone,
            alone_vars.insert(name, register),
            within,
            within_vars.insert(name, moved(register, registers)),
            registers,
            positions,
            holes,
        ),
{
    let alone_bound = alone_vars.insert(name, register);
    let within_bound = within_vars.insert(name, moved(register, registers));
    assert forall|k: usize| #[trigger] alone_bound.contains_key(k) implies within_bound.contains_key(
        k,
    ) && within_bound[k] == moved(alone_bound[k], registers) by {
        if k != name {
            assert(alone_vars.contains_key(k));
        }
    }
}

/// Whether the outcome `within` of lowering in the middle of a tree is the
/// outcome `alone` of lowering by itself, moved up by `registers` and
/// `positions`.
pub open spec fn relocates(
    alone: Lowered,
    within: Lowered,
    registers: nat,
    positions: nat,
    holes: Set<int>,
) -> bool {
    &&& alone.result is Ok
    &&& within.result == Ok::<RegisterId, TranslateError>(moved(alone.result->Ok_0, registers))
    &&& corresponds(alone.unit, alone.vars, within.unit, within.vars, registers, positions, holes)
}

/// As `relocates`, for a list of nodes.
pub open spec fn relocates_list(
    alone: LoweredList,
    within: LoweredList,
    registers: nat,
    positions: nat,
    holes: Set<int>,
) -> bool {
    &&& alone.result is Ok
    &&& within.result is Ok
    &&& within.result->Ok_0.len() == alone.result->Ok_0.len()
    &&& forall|j: int|
        0 <= j < alone.result->Ok_0.len() ==> within.result->Ok_0[j] == moved(
            #[trigger] alone.result->Ok_0[j],
            registers,
        )
    &&& corresponds(alone.unit, alone.vars, within.unit, within.vars, registers, positions, holes)
}

/// A register of a unit, moved up, has the index that it has there plus the
/// number of registers it was moved by.
proof fn lemma_moved(alone: Unit, within: Unit, registers: nat, r: RegisterId)
    requires
        within.values.len() == alone.values.len() + registers,
        within.fits(),
        alone.has(r),
    ensures
        moved(r, registers).0 == r.0 + registers,
        within.has(moved(r, registers)),
{
}

/// Lowering a node in the middle of a tree gives what lowering it by itself
/// gives, moved up.
pub proof fn lemma_node_relocates(
    alone: Unit,
    alone_vars: Map<usize, RegisterId>,
    within: Unit,
    within_vars: Map<usize, RegisterId>,
    registers: nat,
    positions: nat,
    holes: Set<int>,
    node: NodeId,
    delta: EngineDelta,
    typechecker: TypeChecker,
)
    requires
        alone.wf(),
        bound_in(alone_vars, alone),
        corresponds(alone, alone_vars, within, within_vars, registers, positions, holes),
        forall|i: int| holes.contains(i) ==> 0 <= i < alone.code.len(),
        lower_node(alone, alone_vars, node, delta, typechecker).result is Ok,
        lower_node(alone, alone_vars, node, delta, typechecker).unit.fits(),
        lower_node(within, within_vars, node, delta, typechecker).unit.fits(),
    ensures
        relocates(
            lower_node(alone, alone_vars, node, delta, typechecker),
            lower_node(within, within_vars, node, delta, typechecker),
            registers,
            positions,
            holes,
        ),
    decreases 2 * node.0 + 1, 0nat,
{
    let lone = lower_node(alone, alone_vars, node, delta, typechecker);
    let inside = lower_node(within, within_vars, node, delta, typechecker);
    match delta.ast_nodes@[node.0 as int] {
        AstNode::Int => {
            assert(lone == lower_int(alone, alone_vars, node, delta));
            assert(inside == lower_int(within, within_vars, node, delta));
            lemma_corresponds_register(
                alone,
                alone_vars,
                within,
                within_vars,
                registers,
                positions,
                holes,
                lone.unit.values.last(),
                lone.unit.types.last(),
            );
        },
        AstNode::Float => {
            assert(lone == lower_float(alone, alone_vars, node, delta));
            assert(inside == lower_float(within, within_vars, node, delta));
            lemma_corresponds_register(
                alone,
                alone_vars,
                within,
                within_vars,
                registers,
                positions,
                holes,
                lone.unit.values.last(),
                lone.unit.types.last(),
            );
        },
        AstNode::True => {
            assert(lone == lower_bool(alone, alone_vars, true));
            assert(inside == lower_bool(within, within_vars, true));
            lemma_corresponds_register(
                alone,
                alone_vars,
                within,
                within_vars,
                registers,
                positions,
                holes,
                1,
                BOOL_TYPE,
            );
        },
        AstNode::False => {
            assert(lone == lower_bool(alone, alone_vars, false));
            assert(inside == lower_bool(within, within_vars, false));
            lemma_corresponds_register(
                alone,
                alone_vars,
                within,
                within_vars,
                registers,
                positions,
                holes,
                0,
                BOOL_TYPE,
            );
        },
        AstNode::Variable => {
            assert(lone == lower_variable(alone, alone_vars, node, typechecker));
            assert(inside == lower_variable(within, within_vars, node, typechecker));
            assert(alone_vars.contains_key(typechecker.variable_def@[node.0].0));
        },
        AstNode::BinaryOp { lhs, op, rhs } => {
            lemma_binop_relocates(
                alone,
                alone_vars,
                within,
                within_vars,
                registers,
                positions,
                holes,
                lhs,
                op,
                rhs,
                delta,
                typechecker,
            );
        },
        AstNode::Block(nodes) => {
            lemma_block_relocates(
                alone,
                alone_vars,
                within,
                within_vars,
                registers,
                positions,
                holes,
                nodes@,
                delta,
                typechecker,
            );
        },
        AstNode::Let { variable_name, initializer, .. } => {
            lemma_let_relocates(
                alone,
                alone_vars,
                within,
                within_vars,
                registers,
                positions,
                holes,
                variable_name,
                initializer,
                delta,
                typechecker,
            );
        },
        AstNode::Statement(inner) => {
            lemma_node_relocates(
                alone,
                alone_vars,
                within,
                within_vars,
                registers,
                positions,
                holes,
                inner,
                delta,
                typechecker,
            );
        },
        AstNode::If { condition, then_block, else_expression } => {
            lemma_if_relocates(
                alone,
                alone_vars,
                within,
                within_vars,
                registers,
                positions,
                holes,
                node,
                condition,
                then_block,
                else_expression,
                delta,
                typechecker,
            );
        },
        AstNode::While { condition, block } => {
            lemma_while_relocates(
                alone,
                alone_vars,
                within,
                within_vars,
                registers,
                positions,
                holes,
                condition,
                block,
                delta,
                typechecker,
            );
        },
        AstNode::Call { head, args } => {
            lemma_call_relocates(
                alone,
                alone_vars,
                within,
                within_vars,
                registers,
                positions,
                holes,
                head,
                args@,
                delta,
                typechecker,
            );
        },
        _ => {},
    }
}

/// The operator of a binary operation, applied in the middle of a tree,
/// gives what it gives applied by itself, moved up.
proof fn lemma_operator_relocates(
    alone: Unit,
    alone_vars: Map<usize, RegisterId>,
    within: Unit,
    within_vars: Map<usize, RegisterId>,
    registers: nat,
    positions: nat,
    holes: Set<int>,
    lhs: RegisterId,
    op: NodeId,
    rhs: RegisterId,
    delta: EngineDelta,
)
    requires
        alone.wf(),
        alone.has(lhs),
        alone.has(rhs),
        within.fits(),
        corresponds(alone, alone_vars, within, within_vars, registers, positions, holes),
        lower_operator(alone, alone_vars, lhs, op, rhs, delta).result is Ok,
        lower_operator(alone, alone_vars, lhs, op, rhs, delta).unit.fits(),
        lower_operator(
            within,
            within_vars,
            moved(lhs, registers),
            op,
            moved(rhs, registers),
            delta,
        ).unit.fits(),
    ensures
        relocates(
            lower_operator(alone, alone_vars, lhs, op, rhs, delta),
            lower_operator(
                within,
                within_vars,
                moved(lhs, registers),
                op,
                moved(rhs, registers),
                delta,
            ),
            registers,
            positions,
            holes,
        ),
{
    lemma_moved(alone, within, registers, lhs);
    lemma_moved(alone, within, registers, rhs);
    if delta.ast_nodes@[op.0 as int] is Assignment {
        lemma_corresponds_mov(
            alone,
            alone_vars,
            within,
            within_vars,
            registers,
            positions,
            holes,
            lhs,
            rhs,
        );
    } else {
        let operation = operation_of(delta.ast_nodes@[op.0 as int])->0;
        let tag = alone.types[lhs.0 as int];
        assert(within.types[lhs.0 + registers] == tag);
        let ty = if operation.is_comparison() {
            BOOL_TYPE
        } else {
            tag
        };
        lemma_corresponds_register(
            alone,
            alone_vars,
            within,
            within_vars,
            registers,
            positions,
            holes,
            0,
            ty,
        );
        let target = alone.next_register();
        let instruction = if tag == F64_TYPE {
            Op::Float { op: operation, lhs, rhs, target }
        } else {
            Op::Int { op: operation, lhs, rhs, target }
        };
        lemma_corresponds_emit(
            alone.push_register(0, ty),
            alone_vars,
            within.push_register(0, ty),
            within_vars,
            registers,
            positions,
            holes,
            instruction,
        );
    }
}

/// Lowering a binary operation in the middle of a tree gives what lowering
/// it by itself gives, moved up.
pub proof fn lemma_binop_relocates(
    alone: Unit,
    alone_vars: Map<usize, RegisterId>,
    within: Unit,
    within_vars: Map<usize, RegisterId>,
    registers: nat,
    positions: nat,
    holes: Set<int>,
    lhs: NodeId,
    op: NodeId,
    rhs: NodeId,
    delta: EngineDelta,
    typechecker: TypeChecker,
)
    requires
        alone.wf(),
        bound_in(alone_vars, alone),
        corresponds(alone, alone_vars, within, within_vars, registers, positions, holes),
        forall|i: int| holes.contains(i) ==> 0 <= i < alone.code.len(),
        lower_binop(alone, alone_vars, lhs, op, rhs, delta, typechecker).result is Ok,
        lower_binop(alone, alone_vars, lhs, op, rhs, delta, typechecker).unit.fits(),
        lower_binop(within, within_vars, lhs, op, rhs, delta, typechecker).unit.fits(),
    ensures
        relocates(
            lower_binop(alone, alone_vars, lhs, op, rhs, delta, typechecker),
            lower_binop(within, within_vars, lhs, op, rhs, delta, typechecker),
            registers,
            positions,
            holes,
        ),
    decreases 2 * greater(lhs.0 as nat, rhs.0 as nat) + 2, 0nat,
{
    let left = lower_node(alone, alone_vars, lhs, delta, typechecker);
    let right = lower_node(left.unit, left.vars, rhs, delta, typechecker);
    let left_in = lower_node(within, within_vars, lhs, delta, typechecker);
    let right_in = lower_node(left_in.unit, left_in.vars, rhs, delta, typechecker);
    lemma_node_grows(left.unit, left.vars, rhs, delta, typechecker);
    lemma_node_grows(left_in.unit, left_in.vars, rhs, delta, typechecker);
    assert(lower_binop(alone, alone_vars, lhs, op, rhs, delta, typechecker).unit.grown_from(
        right.unit,
    ));
    assert(left_in.result is Ok && right_in.result is Ok ==> lower_binop(
        within,
        within_vars,
        lhs,
        op,
        rhs,
        delta,
        typechecker,
    ).unit.grown_from(right_in.unit));
    lemma_node_sound(alone, alone_vars, lhs, delta, typechecker);
    lemma_node_relocates(
        alone,
        alone_vars,
        within,
        within_vars,
        registers,
        positions,
        holes,
        lhs,
        delta,
        typechecker,
    );
    lemma_node_sound(left.unit, left.vars, rhs, delta, typechecker);
    lemma_node_relocates(
        left.unit,
        left.vars,
        left_in.unit,
        left_in.vars,
        registers,
        positions,
        holes,
        rhs,
        delta,
        typechecker,
    );
    lemma_operator_relocates(
        right.unit,
        right.vars,
        right_in.unit,
        right_in.vars,
        registers,
        positions,
        holes,
        left.result->Ok_0,
        op,
        right.result->Ok_0,
        delta,
    );
}

/// Lowering a binding in the middle of a tree gives what lowering it by
/// itself gives, moved up.
pub proof fn lemma_let_relocates(
    alone: Unit,
    alone_vars: Map<usize, RegisterId>,
    within: Unit,
    within_vars: Map<usize, RegisterId>,
    registers: nat,
    positions: nat,
    holes: Set<int>,
    variable_name: NodeId,
    initializer: NodeId,
    delta: EngineDelta,
    typechecker: TypeChecker,
)
    requires
        alone.wf(),
        bound_in(alone_vars, alone),
        corresponds(alone, alone_vars, within, within_vars, registers, positions, holes),
        forall|i: int| holes.contains(i) ==> 0 <= i < alone.code.len(),
        lower_let(alone, alone_vars, variable_name, initializer, delta, typechecker).result is Ok,
        lower_let(alone, alone_vars, variable_name, initializer, delta, typechecker).unit.fits(),
        lower_let(within, within_vars, variable_name, initializer, delta, typechecker).unit.fits(),
    ensures
        relocates(
            lower_let(alone, alone_vars, variable_name, initializer, delta, typechecker),
            lower_let(within, within_vars, variable_name, initializer, delta, typechecker),
            registers,
            positions,
            holes,
        ),
    decreases 2 * initializer.0 + 2, 0nat,
{
    let value = lower_node(alone, alone_vars, initializer, delta, typechecker);
    let value_in = lower_node(within, within_vars, initializer, delta, typechecker);
    lemma_node_relocates(
        alone,
        alone_vars,
        within,
        within_vars,
        registers,
        positions,
        holes,
        initializer,
        delta,
        typechecker,
    );
    lemma_corresponds_bind(
        value.unit,
        value.vars,
        value_in.unit,
        value_in.vars,
        registers,
        positions,
        holes,
        variable_name.0,
        value.result->Ok_0,
    );
}

/// Lowering a conditional in the middle of a tree gives what lowering it by
/// itself gives, moved up.
pub proof fn lemma_if_relocates(
    alone: Unit,
    alone_vars: Map<usize, RegisterId>,
    within: Unit,
    within_vars: Map<usize, RegisterId>,
    registers: nat,
    positions: nat,
    holes: Set<int>,
    node: NodeId,
    condition: NodeId,
    then_block: NodeId,
    else_expression: Option<NodeId>,
    delta: EngineDelta,
    typechecker: TypeChecker,
)
    requires
        alone.wf(),
        bound_in(alone_vars, alone),
        corresponds(alone, alone_vars, within, within_vars, registers, positions, holes),
        forall|i: int| holes.contains(i) ==> 0 <= i < alone.code.len(),
        lower_if(
            alone,
            alone_vars,
            node,
            condition,
            then_block,
            else_expression,
            delta,
            typechecker,
        ).result is Ok,
        lower_if(
            alone,
            alone_vars,
            node,
            condition,
            then_block,
            else_expression,
            delta,
            typechecker,
        ).unit.fits(),
        lower_if(
            within,
            within_vars,
            node,
            condition,
            then_block,
            else_expression,
            delta,
            typechecker,
        ).unit.fits(),
    ensures
        relocates(
            lower_if(
                alone,
                alone_vars,
                node,
                condition,
                then_block,
                else_expression,
                delta,
                typechecker,
            ),
            lower_if(
                within,
                within_vars,
                node,
                condition,
                then_block,
                else_expression,
                delta,
                typechecker,
            ),
            registers,
            positions,
            holes,
        ),
    decreases
        2 * greater(greater(condition.0 as nat, then_block.0 as nat) + 1, bound_of(else_expression)),
        0nat,
{
    let ty = typechecker.node_types@[node.0 as int];
    let zero = InstructionId(0);
    // By itself.
    let output = alone.next_register();
    let started = alone.push_register(0, ty);
    let tested = lower_node(started, alone_vars, condition, delta, typechecker);
    let flag = tested.result->Ok_0;
    let branch = tested.unit.code.len() as int;
    let reserved = tested.unit.emit(
        Op::Brif { condition: flag, then_branch: zero, else_branch: zero },
    );
    let taken = lower_node(reserved, tested.vars, then_block, delta, typechecker);
    let then_value = taken.result->Ok_0;
    let collected = taken.unit.mov(output, then_value);
    // In the middle of a tree.
    let output_in = within.next_register();
    let started_in = within.push_register(0, ty);
    let tested_in = lower_node(started_in, within_vars, condition, delta, typechecker);
    let flag_in = tested_in.result->Ok_0;
    let reserved_in = tested_in.unit.emit(
        Op::Brif { condition: flag_in, then_branch: zero, else_branch: zero },
    );
    let taken_in = lower_node(reserved_in, tested_in.vars, then_block, delta, typechecker);
    let then_value_in = taken_in.result->Ok_0;
    let collected_in = taken_in.unit.mov(output_in, then_value_in);

    lemma_if_grows(
        alone,
        alone_vars,
        node,
        condition,
        then_block,
        else_expression,
        delta,
        typechecker,
    );
    lemma_if_grows(
        within,
        within_vars,
        node,
        condition,
        then_block,
        else_expression,
        delta,
        typechecker,
    );
    lemma_node_grows(started, alone_vars, condition, delta, typechecker);
    lemma_node_grows(started_in, within_vars, condition, delta, typechecker);

    alone.lemma_push_register_wf(0, ty);
    lemma_corresponds_register(
        alone,
        alone_vars,
        within,
        within_vars,
        registers,
        positions,
        holes,
        0,
        ty,
    );
    lemma_node_sound(started, alone_vars, condition, delta, typechecker);
    lemma_node_relocates(
        started,
        alone_vars,
        started_in,
        within_vars,
        registers,
        positions,
        holes,
        condition,
        delta,
        typechecker,
    );
    lemma_moved(tested.unit, tested_in.unit, registers, flag);
    lemma_corresponds_reserve(
        tested.unit,
        tested.vars,
        tested_in.unit,
        tested_in.vars,
        registers,
        positions,
        holes,
        Op::Brif { condition: flag, then_branch: zero, else_branch: zero },
        Op::Brif { condition: flag_in, then_branch: zero, else_branch: zero },
    );
    let pending = holes.insert(branch);
    lemma_node_grows(reserved, tested.vars, then_block, delta, typechecker);
    lemma_node_grows(reserved_in, tested_in.vars, then_block, delta, typechecker);
    lemma_node_sound(reserved, tested.vars, then_block, delta, typechecker);
    lemma_node_relocates(
        reserved,
        tested.vars,
        reserved_in,
        tested_in.vars,
        registers,
        positions,
        pending,
        then_block,
        delta,
        typechecker,
    );
    lemma_moved(taken.unit, taken_in.unit, registers, then_value);
    lemma_moved(taken.unit, taken_in.unit, registers, output);
    lemma_corresponds_mov(
        taken.unit,
        taken.vars,
        taken_in.unit,
        taken_in.vars,
        registers,
        positions,
        pending,
        output,
        then_value,
    );
    assert(collected.grown_from(taken.unit));
    assert(collected_in.grown_from(taken_in.unit));
    let then_start = InstructionId((branch + 1) as usize);
    if let Some(else_node) = else_expression {
        let jump = collected.code.len() as int;
        let skip = Op::Jmp { location: zero };
        let skipping = collected.emit(skip);
        let other = lower_node(skipping, taken.vars, else_node, delta, typechecker);
        let else_value = other.result->Ok_0;
        let finished = other.unit.mov(output, else_value);
        let skipping_in = collected_in.emit(skip);
        let other_in = lower_node(skipping_in, taken_in.vars, else_node, delta, typechecker);
        let else_value_in = other_in.result->Ok_0;
        let finished_in = other_in.unit.mov(output_in, else_value_in);
        lemma_node_grows(skipping, taken.vars, else_node, delta, typechecker);
        lemma_node_grows(skipping_in, taken_in.vars, else_node, delta, typechecker);
        lemma_corresponds_reserve(
            collected,
            taken.vars,
            collected_in,
            taken_in.vars,
            registers,
            positions,
            pending,
            skip,
            skip,
        );
        let both = pending.insert(jump);
        assert(skipping.wf());
        lemma_node_sound(skipping, taken.vars, else_node, delta, typechecker);
        lemma_node_relocates(
            skipping,
            taken.vars,
            skipping_in,
            taken_in.vars,
            registers,
            positions,
            both,
            else_node,
            delta,
            typechecker,
        );
        lemma_moved(other.unit, other_in.unit, registers, else_value);
        lemma_moved(other.unit, other_in.unit, registers, output);
        lemma_corresponds_mov(
            other.unit,
            other.vars,
            other_in.unit,
            other_in.vars,
            registers,
            positions,
            both,
            output,
            else_value,
        );
        assert(finished.grown_from(other.unit));
        assert(finished_in.grown_from(other_in.unit));
        let landing = Op::Jmp { location: finished.next_position() };
        lemma_corresponds_patch(
            finished,
            other.vars,
            finished_in,
            other_in.vars,
            registers,
            positions,
            both,
            jump,
            landing,
        );
        let resolved = Op::Brif {
            condition: flag,
            then_branch: then_start,
            else_branch: InstructionId((jump + 1) as usize),
        };
        lemma_corresponds_patch(
            finished.patch(jump, landing),
            other.vars,
            finished_in.patch(jump + positions, landing.shifted(registers, positions)),
            other_in.vars,
            registers,
            positions,
            both.remove(jump),
            branch,
            resolved,
        );
        assert(both.remove(jump).remove(branch) =~= holes);
    } else {
        let resolved = Op::Brif {
            condition: flag,
            then_branch: then_start,
            else_branch: collected.next_position(),
        };
        lemma_corresponds_patch(
            collected,
            taken.vars,
            collected_in,
            taken_in.vars,
            registers,
            positions,
            pending,
            branch,
            resolved,
        );
        assert(pending.remove(branch) =~= holes);
    }
}

/// Lowering a loop in the middle of a tree gives what lowering it by itself
/// gives, moved up.
pub proof fn lemma_while_relocates(
    alone: Unit,
    alone_vars: Map<usize, RegisterId>,
    within: Unit,
    within_vars: Map<usize, RegisterId>,
    registers: nat,
    positions: nat,
    holes: Set<int>,
    condition: NodeId,
    block: NodeId,
    delta: EngineDelta,
    typechecker: TypeChecker,
)
    requires
        alone.wf(),
        bound_in(alone_vars, alone),
        corresponds(alone, alone_vars, within, within_vars, registers, positions, holes),
        forall|i: int| holes.contains(i) ==> 0 <= i < alone.code.len(),
        lower_while(alone, alone_vars, condition, block, delta, typechecker).result is Ok,
        lower_while(alone, alone_vars, condition, block, delta, typechecker).unit.fits(),
        lower_while(within, within_vars, condition, block, delta, typechecker).unit.fits(),
    ensures
        relocates(
            lower_while(alone, alone_vars, condition, block, delta, typechecker),
            lower_while(within, within_vars, condition, block, delta, typechecker),
            registers,
            positions,
            holes,
        ),
    decreases 2 * greater(condition.0 as nat, block.0 as nat) + 2, 0nat,
{
    let zero = InstructionId(0);
    let output = alone.next_register();
    let started = alone.push_register(0, VOID_TYPE);
    let tested = lower_node(started, alone_vars, condition, delta, typechecker);
    let flag = tested.result->Ok_0;
    let branch = tested.unit.code.len() as int;
    let reserved = tested.unit.emit(
        Op::Brif { condition: flag, then_branch: zero, else_branch: zero },
    );
    let body = lower_node(reserved, tested.vars, block, delta, typechecker);
    let back = Op::Jmp { location: started.next_position() };
    let looped = body.unit.emit(back);

    let started_in = within.push_register(0, VOID_TYPE);
    let tested_in = lower_node(started_in, within_vars, condition, delta, typechecker);
    let flag_in = tested_in.result->Ok_0;
    let reserved_in = tested_in.unit.emit(
        Op::Brif { condition: flag_in, then_branch: zero, else_branch: zero },
    );
    let body_in = lower_node(reserved_in, tested_in.vars, block, delta, typechecker);
    let back_in = Op::Jmp { location: started_in.next_position() };
    let looped_in = body_in.unit.emit(back_in);

    lemma_while_grows(alone, alone_vars, condition, block, delta, typechecker);
    lemma_while_grows(within, within_vars, condition, block, delta, typechecker);
    lemma_node_grows(started, alone_vars, condition, delta, typechecker);
    lemma_node_grows(started_in, within_vars, condition, delta, typechecker);
    alone.lemma_push_register_wf(0, VOID_TYPE);
    lemma_corresponds_register(
        alone,
        alone_vars,
        within,
        within_vars,
        registers,
        positions,
        holes,
        0,
        VOID_TYPE,
    );
    lemma_node_sound(started, alone_vars, condition, delta, typechecker);
    lemma_node_relocates(
        started,
        alone_vars,
        started_in,
        within_vars,
        registers,
        positions,
        holes,
        condition,
        delta,
        typechecker,
    );
    lemma_moved(tested.unit, tested_in.unit, registers, flag);
    lemma_corresponds_reserve(
        tested.unit,
        tested.vars,
        tested_in.unit,
        tested_in.vars,
        registers,
        positions,
        holes,
        Op::Brif { condition: flag, then_branch: zero, else_branch: zero },
        Op::Brif { condition: flag_in, then_branch: zero, else_branch: zero },
    );
    let pending = holes.insert(branch);
    lemma_node_grows(reserved, tested.vars, block, delta, typechecker);
    lemma_node_grows(reserved_in, tested_in.vars, block, delta, typechecker);
    lemma_node_sound(reserved, tested.vars, block, delta, typechecker);
    lemma_node_relocates(
        reserved,
        tested.vars,
        reserved_in,
        tested_in.vars,
        registers,
        positions,
        pending,
        block,
        delta,
        typechecker,
    );
    lemma_corresponds_emit(
        body.unit,
        body.vars,
        body_in.unit,
        body_in.vars,
        registers,
        positions,
        pending,
        back,
    );
    assert(back_in == back.shifted(registers, positions));
    let resolved = Op::Brif {
        condition: flag,
        then_branch: InstructionId((branch + 1) as usize),
        else_branch: looped.next_position(),
    };
    lemma_corresponds_patch(
        looped,
        body.vars,
        looped_in,
        body_in.vars,
        registers,
        positions,
        pending,
        branch,
        resolved,
    );
    lemma_moved(looped, looped_in, registers, output);
    assert(pending.remove(branch) =~= holes);
}

/// Lowering statements in the middle of a tree gives what lowering them by
/// themselves gives, moved up.
pub proof fn lemma_statements_relocate(
    alone: Unit,
    alone_vars: Map<usize, RegisterId>,
    within: Unit,
    within_vars: Map<usize, RegisterId>,
    registers: nat,
    positions: nat,
    holes: Set<int>,
    nodes: Seq<NodeId>,
    delta: EngineDelta,
    typechecker: TypeChecker,
)
    requires
        alone.wf(),
        bound_in(alone_vars, alone),
        corresponds(alone, alone_vars, within, within_vars, registers, positions, holes),
        forall|i: int| holes.contains(i) ==> 0 <= i < alone.code.len(),
        nodes.len() > 0,
        lower_statements(alone, alone_vars, nodes, delta, typechecker).result is Ok,
        lower_statements(alone, alone_vars, nodes, delta, typechecker).unit.fits(),
        lower_statements(within, within_vars, nodes, delta, typechecker).unit.fits(),
    ensures
        relocates(
            lower_statements(alone, alone_vars, nodes, delta, typechecker),
            lower_statements(within, within_vars, nodes, delta, typechecker),
            registers,
            positions,
            holes,
        ),
    decreases 2 * id_bound(nodes), nodes.len(),
{
    if nodes.len() == 1 {
        lemma_node_relocates(
            alone,
            alone_vars,
            within,
            within_vars,
            registers,
            positions,
            holes,
            nodes[0],
            delta,
            typechecker,
        );
    } else {
        let before = lower_statements(alone, alone_vars, nodes.drop_last(), delta, typechecker);
        let before_in = lower_statements(within, within_vars, nodes.drop_last(), delta, typechecker);
        lemma_node_grows(before.unit, before.vars, nodes.last(), delta, typechecker);
        lemma_node_grows(before_in.unit, before_in.vars, nodes.last(), delta, typechecker);
        lemma_statements_grow(alone, alone_vars, nodes.drop_last(), delta, typechecker);
        lemma_statements_sound(alone, alone_vars, nodes.drop_last(), delta, typechecker);
        lemma_statements_relocate(
            alone,
            alone_vars,
            within,
            within_vars,
            registers,
            positions,
            holes,
            nodes.drop_last(),
            delta,
            typechecker,
        );
        lemma_node_relocates(
            before.unit,
            before.vars,
            before_in.unit,
            before_in.vars,
            registers,
            positions,
            holes,
            nodes.last(),
            delta,
            typechecker,
        );
    }
}

/// Lowering a block in the middle of a tree gives what lowering it by itself
/// gives, moved up.
pub proof fn lemma_block_relocates(
    alone: Unit,
    alone_vars: Map<usize, RegisterId>,
    within: Unit,
    within_vars: Map<usize, RegisterId>,
    registers: nat,
    positions: nat,
    holes: Set<int>,
    nodes: Seq<NodeId>,
    delta: EngineDelta,
    typechecker: TypeChecker,
)
    requires
        alone.wf(),
        bound_in(alone_vars, alone),
        corresponds(alone, alone_vars, within, within_vars, registers, positions, holes),
        forall|i: int| holes.contains(i) ==> 0 <= i < alone.code.len(),
        lower_block(alone, alone_vars, nodes, delta, typechecker).result is Ok,
        lower_block(alone, alone_vars, nodes, delta, typechecker).unit.fits(),
        lower_block(within, within_vars, nodes, delta, typechecker).unit.fits(),
    ensures
        relocates(
            lower_block(alone, alone_vars, nodes, delta, typechecker),
            lower_block(within, within_vars, nodes, delta, typechecker),
            registers,
            positions,
            holes,
        ),
    decreases 2 * id_bound(nodes), nodes.len() + 1,
{
    if nodes.len() == 0 {
        lemma_corresponds_register(
            alone,
            alone_vars,
            within,
            within_vars,
            registers,
            positions,
            holes,
            0,
            VOID_TYPE,
        );
    } else {
        lemma_statements_relocate(
            alone,
            alone_vars,
            within,
            within_vars,
            registers,
            positions,
            holes,
            nodes,
            delta,
            typechecker,
        );
    }
}

/// Lowering arguments in the middle of a tree gives what lowering them by
/// themselves gives, moved up.
pub proof fn lemma_arguments_relocate(
    alone: Unit,
    alone_vars: Map<usize, RegisterId>,
    within: Unit,
    within_vars: Map<usize, RegisterId>,
    registers: nat,
    positions: nat,
    holes: Set<int>,
    args: Seq<NodeId>,
    delta: EngineDelta,
    typechecker: TypeChecker,
)
    requires
        alone.wf(),
        bound_in(alone_vars, alone),
        corresponds(alone, alone_vars, within, within_vars, registers, positions, holes),
        forall|i: int| holes.contains(i) ==> 0 <= i < alone.code.len(),
        lower_arguments(alone, alone_vars, args, delta, typechecker).result is Ok,
        lower_arguments(alone, alone_vars, args, delta, typechecker).unit.fits(),
        lower_arguments(within, within_vars, args, delta, typechecker).unit.fits(),
    ensures
        relocates_list(
            lower_arguments(alone, alone_vars, args, delta, typechecker),
            lower_arguments(within, within_vars, args, delta, typechecker),
            registers,
            positions,
            holes,
        ),
    decreases 2 * id_bound(args), args.len(),
{
    if args.len() > 0 {
        let before = lower_arguments(alone, alone_vars, args.drop_last(), delta, typechecker);
        let before_in = lower_arguments(within, within_vars, args.drop_last(), delta, typechecker);
        let value = lower_node(before.unit, before.vars, args.last(), delta, typechecker);
        let value_in = lower_node(before_in.unit, before_in.vars, args.last(), delta, typechecker);
        lemma_node_grows(before.unit, before.vars, args.last(), delta, typechecker);
        lemma_node_grows(before_in.unit, before_in.vars, args.last(), delta, typechecker);
        lemma_arguments_grow(alone, alone_vars, args.drop_last(), delta, typechecker);
        lemma_arguments_sound(alone, alone_vars, args.drop_last(), delta, typechecker);
        lemma_arguments_relocate(
            alone,
            alone_vars,
            within,
            within_vars,
            registers,
            positions,
            holes,
            args.drop_last(),
            delta,
            typechecker,
        );
        lemma_node_relocates(
            before.unit,
            before.vars,
            before_in.unit,
            before_in.vars,
            registers,
            positions,
            holes,
            args.last(),
            delta,
            typechecker,
        );
        let registers_alone = before.result->Ok_0.push(value.result->Ok_0);
        let registers_in = before_in.result->Ok_0.push(value_in.result->Ok_0);
        assert forall|j: int| 0 <= j < registers_alone.len() implies registers_in[j] == moved(
            #[trigger] registers_alone[j],
            registers,
        ) by {
            if j < registers_alone.len() - 1 {
                assert(registers_alone[j] == before.result->Ok_0[j]);
                assert(registers_in[j] == before_in.result->Ok_0[j]);
            }
        }
    }
}

/// Lowering a call in the middle of a tree gives what lowering it by itself
/// gives, moved up.
pub proof fn lemma_call_relocates(
    alone: Unit,
    alone_vars: Map<usize, RegisterId>,
    within: Unit,
    within_vars: Map<usize, RegisterId>,
    registers: nat,
    positions: nat,
    holes: Set<int>,
    head: NodeId,
    args: Seq<NodeId>,
    delta: EngineDelta,
    typechecker: TypeChecker,
)
    requires
        alone.wf(),
        bound_in(alone_vars, alone),
        corresponds(alone, alone_vars, within, within_vars, registers, positions, holes),
        forall|i: int| holes.contains(i) ==> 0 <= i < alone.code.len(),
        lower_call(alone, alone_vars, head, args, delta, typechecker).result is Ok,
        lower_call(alone, alone_vars, head, args, delta, typechecker).unit.fits(),
        lower_call(within, within_vars, head, args, delta, typechecker).unit.fits(),
    ensures
        relocates(
            lower_call(alone, alone_vars, head, args, delta, typechecker),
            lower_call(within, within_vars, head, args, delta, typechecker),
            registers,
            positions,
            holes,
        ),
    decreases 2 * id_bound(args), args.len() + 1,
{
    let output = alone.next_register();
    let started = alone.push_register(0, VOID_TYPE);
    let passed = lower_arguments(started, alone_vars, args, delta, typechecker);
    let started_in = within.push_register(0, VOID_TYPE);
    let passed_in = lower_arguments(started_in, within_vars, args, delta, typechecker);
    lemma_arguments_grow(started, alone_vars, args, delta, typechecker);
    lemma_arguments_grow(started_in, within_vars, args, delta, typechecker);
    alone.lemma_push_register_wf(0, VOID_TYPE);
    lemma_corresponds_register(
        alone,
        alone_vars,
        within,
        within_vars,
        registers,
        positions,
        holes,
        0,
        VOID_TYPE,
    );
    lemma_arguments_relocate(
        started,
        alone_vars,
        started_in,
        within_vars,
        registers,
        positions,
        holes,
        args,
        delta,
        typechecker,
    );
    let call = Op::Call {
        head: typechecker.call_resolution@[head.0],
        args: passed.result->Ok_0,
        target: output,
    };
    lemma_corresponds_emit(
        passed.unit,
        passed.vars,
        passed_in.unit,
        passed_in.vars,
        registers,
        positions,
        holes,
        call,
    );
    assert(passed_in.result->Ok_0 =~= Seq::new(
        passed.result->Ok_0.len(),
        |i: int| moved(passed.result->Ok_0[i], registers),
    ));
}

/// Whether the machine `within` is the machine `alone`, moved up: it stands
/// `positions` further on, its code from there on is the code of `alone`,
/// shifted, its registers from `registers` on hold what those of `alone`
/// hold, and the host will give both the same answers.
pub open spec fn shadows(within: Driven, alone: Driven, registers: nat, positions: nat) -> bool {
    &&& alone.unit.wf()
    &&& within.unit.pc == alone.unit.pc + positions
    &&& within.answers == alone.answers
    &&& within.unit.values.len() == within.unit.types.len()
    &&& alone.unit.values.len() + registers <= within.unit.values.len() <= usize::MAX
    &&& alone.unit.code.len() + positions <= within.unit.code.len() <= usize::MAX
    &&& forall|r: int|
        0 <= r < alone.unit.values.len() ==> within.unit.values[r + registers]
            == #[trigger] alone.unit.values[r]
    &&& forall|r: int|
        0 <= r < alone.unit.types.len() ==> within.unit.types[r + registers]
            == #[trigger] alone.unit.types[r]
    &&& forall|i: int|
        0 <= i < alone.unit.code.len() ==> within.unit.code[i + positions] == (
        #[trigger] alone.unit.code[i]).shifted(registers, positions)
    &&& forall|i: int|
        0 <= i < alone.unit.code.len() ==> (#[trigger] alone.unit.code[i]).branches_within(
            i,
            0,
            alone.unit.code.len() as int,
        )
}

/// What a call asks of the host is the same for a machine and for the
/// machine that shadows it.
proof fn lemma_shadow_call(
    within: Driven,
    alone: Driven,
    registers: nat,
    positions: nat,
    functions: Seq<FnRecord>,
)
    requires
        shadows(within, alone, registers, positions),
        alone.unit.pc < alone.unit.code.len(),
        alone.unit.code[alone.unit.pc as int] is Call,
    ensures
        ({
            let op = alone.unit.code[alone.unit.pc as int];
            let moved_op = within.unit.code[within.unit.pc as int];
            &&& moved_op == op.shifted(registers, positions)
            &&& within.unit.call_request(functions, moved_op->Call_head, moved_op->Call_args)
                == alone.unit.call_request(functions, op->Call_head, op->Call_args)
        }),
{
    let op = alone.unit.code[alone.unit.pc as int];
    let moved_op = within.unit.code[within.unit.pc as int];
    assert(moved_op == op.shifted(registers, positions));
    assert(op.registers_below(alone.unit.values.len()));
    let head = op->Call_head;
    let args = op->Call_args;
    let moved_args = moved_op->Call_args;
    assert(moved_args.len() == args.len());
    assert forall|i: int| 0 <= i < args.len() implies (#[trigger] moved_args[i]).0 == args[i].0
        + registers by {
        assert(args[i].0 < alone.unit.values.len());
    }
    assert forall|i: int| 0 <= i < args.len() implies within.unit.types[(
    #[trigger] moved_args[i]).0 as int] == alone.unit.types[args[i].0 as int]
        && within.unit.values[moved_args[i].0 as int] == alone.unit.values[args[i].0 as int] by {
        assert(args[i].0 < alone.unit.values.len());
        assert(alone.unit.types[args[i].0 as int] == within.unit.types[args[i].0 + registers]);
        assert(alone.unit.values[args[i].0 as int] == within.unit.values[args[i].0 + registers]);
    }
    if head.0 < functions.len() && args.len() == functions[head.0 as int].args@.len() {
        let declared = functions[head.0 as int].args@;
        let mismatch_alone = exists|i: int|
            0 <= i < args.len() && alone.unit.types[(#[trigger] args[i]).0 as int] != declared[i];
        let mismatch_within = exists|i: int|
            0 <= i < moved_args.len() && within.unit.types[(#[trigger] moved_args[i]).0 as int]
                != declared[i];
        if mismatch_alone {
            let i = choose|i: int|
                0 <= i < args.len() && alone.unit.types[(#[trigger] args[i]).0 as int]
                    != declared[i];
            assert(within.unit.types[moved_args[i].0 as int] != declared[i]);
        }
        if mismatch_within {
            let i = choose|i: int|
                0 <= i < moved_args.len() && within.unit.types[(#[trigger] moved_args[i]).0 as int]
                    != declared[i];
            assert(alone.unit.types[args[i].0 as int] != declared[i]);
        }
        if !mismatch_alone {
            assert(Seq::new(moved_args.len(), |i: int| within.unit.boxed(moved_args[i]))
                =~= Seq::new(args.len(), |i: int| alone.unit.boxed(args[i])));
        }
    }
}

/// A move of a machine is a move of the machine that shadows it, and leaves
/// the one shadowing the other.
proof fn lemma_shadow_advances(
    within: Driven,
    alone: Driven,
    registers: nat,
    positions: nat,
    functions: Seq<FnRecord>,
)
    requires
        shadows(within, alone, registers, positions),
        alone.unit.pc < alone.unit.code.len(),
        alone.advance(functions) is Some,
    ensures
        within.advance(functions) is Some,
        shadows(
            within.advance(functions)->Some_0,
            alone.advance(functions)->Some_0,
            registers,
            positions,
        ),
{
    let op = alone.unit.code[alone.unit.pc as int];
    let moved_op = within.unit.code[within.unit.pc as int];
    let next = alone.advance(functions)->Some_0;
    assert(moved_op == op.shifted(registers, positions));
    assert(op.registers_below(alone.unit.values.len()));
    assert(op.branches_within(alone.unit.pc as int, 0, alone.unit.code.len() as int));
    alone.lemma_advance_keeps_wf(functions);
    match op {
        Op::Int { op: operation, lhs, rhs, target } => {
            assert(within.unit.values[lhs.0 + registers] == alone.unit.values[lhs.0 as int]);
            assert(within.unit.values[rhs.0 + registers] == alone.unit.values[rhs.0 as int]);
            let after = within.advance(functions)->Some_0;
            assert(within.advance(functions) is Some);
            assert forall|r: int| 0 <= r < next.unit.values.len() implies after.unit.values[r
                + registers] == #[trigger] next.unit.values[r] by {
                assert(within.unit.values[r + registers] == alone.unit.values[r]);
            }
        },
        Op::Float { op: operation, lhs, rhs, target } => {
            let after = within.advance(functions)->Some_0;
            assert(within.advance(functions) is Some);
            assert forall|r: int| 0 <= r < next.unit.values.len() implies after.unit.values[r
                + registers] == #[trigger] next.unit.values[r] by {
                assert(within.unit.values[r + registers] == alone.unit.values[r]);
            }
        },
        Op::Mov { target, source } => {
            assert(within.unit.values[source.0 + registers] == alone.unit.values[source.0 as int]);
            let after = within.advance(functions)->Some_0;
            assert forall|r: int| 0 <= r < next.unit.values.len() implies after.unit.values[r
                + registers] == #[trigger] next.unit.values[r] by {
                assert(within.unit.values[r + registers] == alone.unit.values[r]);
            }
        },
        Op::Brif { condition, then_branch, else_branch } => {
            assert(within.unit.values[condition.0 + registers] == alone.unit.values[condition.0 as int]);
        },
        Op::Jmp { location } => {},
        Op::Call { head, args, target } => {
            lemma_shadow_call(within, alone, registers, positions, functions);
            let after = within.advance(functions)->Some_0;
            assert(within.advance(functions) is Some);
            assert forall|r: int| 0 <= r < next.unit.values.len() implies after.unit.values[r
                + registers] == #[trigger] next.unit.values[r] by {
                assert(within.unit.values[r + registers] == alone.unit.values[r]);
            }
            assert forall|r: int| 0 <= r < next.unit.types.len() implies after.unit.types[r
                + registers] == #[trigger] next.unit.types[r] by {
                assert(within.unit.types[r + registers] == alone.unit.types[r]);
            }
        },
    }
}

/// A machine that shadows another runs through the shifted code as the
/// other runs through its own, and shadows it at the end.
pub proof fn lemma_shadow_runs_through(
    within: Driven,
    alone: Driven,
    registers: nat,
    positions: nat,
    functions: Seq<FnRecord>,
    n: nat,
)
    requires
        shadows(within, alone, registers, positions),
        alone.runs_through(functions, 0, alone.unit.code.len(), n),
    ensures
        within.runs_through(
            functions,
            positions,
            alone.unit.code.len() + positions,
            n,
        ),
        shadows(within.run(functions, n), alone.run(functions, n), registers, positions),
    decreases n,
{
    if n > 0 {
        lemma_shadow_advances(within, alone, registers, positions, functions);
        alone.lemma_run_keeps_code(functions, 1);
        alone.lemma_run_one(functions);
        lemma_shadow_runs_through(
            within.advance(functions)->Some_0,
            alone.advance(functions)->Some_0,
            registers,
            positions,
            functions,
            (n - 1) as nat,
        );
    }
}

/// What the rule for nodes produces for a node by itself: from the empty
/// unit, with no bindings.
pub open spec fn alone_of(node: NodeId, delta: EngineDelta, typechecker: TypeChecker) -> Lowered {
    lower_node(Unit::empty(), Map::empty(), node, delta, typechecker)
}

/// Whether the registers of `machine` from `low` up to `high` hold the
/// payloads and the tags that they have in `unit`.
pub open spec fn holds_registers_of(machine: Unit, unit: Unit, low: nat, high: nat) -> bool {
    forall|r: int|
        low <= r < high ==> machine.values[r] == #[trigger] unit.values[r] && machine.types[r]
            == unit.types[r]
}

/// A machine that stands at the start of the code of a node in the middle of
/// a tree, with the node's registers as they were created, shadows the
/// machine that is loaded with the node lowered by itself.
proof fn lemma_part_shadows(
    before: Unit,
    before_vars: Map<usize, RegisterId>,
    part: NodeId,
    delta: EngineDelta,
    typechecker: TypeChecker,
    within: Driven,
    alone: Driven,
)
    requires
        before.fits(),
        before.values.len() == before.types.len(),
        alone_of(part, delta, typechecker).result is Ok,
        alone_of(part, delta, typechecker).unit.fits(),
        lower_node(before, before_vars, part, delta, typechecker).unit.fits(),
        alone.unit == alone_of(part, delta, typechecker).unit,
        within.unit.pc == before.code.len(),
        within.answers == alone.answers,
        within.unit.values.len() == within.unit.types.len(),
        lower_node(before, before_vars, part, delta, typechecker).unit.values.len()
            <= within.unit.values.len() <= usize::MAX,
        lower_node(before, before_vars, part, delta, typechecker).unit.code.len()
            <= within.unit.code.len() <= usize::MAX,
        forall|i: int|
            before.code.len() <= i < lower_node(
                before,
                before_vars,
                part,
                delta,
                typechecker,
            ).unit.code.len() ==> within.unit.code[i] == #[trigger] lower_node(
                before,
                before_vars,
                part,
                delta,
                typechecker,
            ).unit.code[i],
        holds_registers_of(
            within.unit,
            lower_node(before, before_vars, part, delta, typechecker).unit,
            before.values.len(),
            lower_node(before, before_vars, part, delta, typechecker).unit.values.len(),
        ),
    ensures
        shadows(within, alone, before.values.len(), before.code.len()),
        relocates(
            alone_of(part, delta, typechecker),
            lower_node(before, before_vars, part, delta, typechecker),
            before.values.len(),
            before.code.len(),
            Set::empty(),
        ),
        alone.unit.has(alone_of(part, delta, typechecker).result->Ok_0),
        lower_node(before, before_vars, part, delta, typechecker).unit.code.len()
            == alone.unit.code.len() + before.code.len(),
{
    let registers = before.values.len();
    let positions = before.code.len();
    let lone = alone_of(part, delta, typechecker);
    let inside = lower_node(before, before_vars, part, delta, typechecker);
    let empty = Unit::empty();
    let none = Map::<usize, RegisterId>::empty();
    lemma_node_sound(empty, none, part, delta, typechecker);
    lemma_node_relocates(
        empty,
        none,
        before,
        before_vars,
        registers,
        positions,
        Set::empty(),
        part,
        delta,
        typechecker,
    );
    assert forall|r: int| 0 <= r < alone.unit.values.len() implies within.unit.values[r + registers]
        == #[trigger] alone.unit.values[r] by {
        assert(inside.unit.values[r + registers] == lone.unit.values[r]);
        assert(within.unit.values[r + registers] == inside.unit.values[r + registers]);
    }
    assert forall|r: int| 0 <= r < alone.unit.types.len() implies within.unit.types[r + registers]
        == #[trigger] alone.unit.types[r] by {
        assert(inside.unit.types[r + registers] == lone.unit.types[r]);
        assert(within.unit.values[r + registers] == inside.unit.values[r + registers]);
    }
    assert forall|i: int| 0 <= i < alone.unit.code.len() implies within.unit.code[i + positions]
        == (#[trigger] alone.unit.code[i]).shifted(registers, positions) by {
        assert(inside.unit.code[i + positions] == lone.unit.code[i].shifted(registers, positions));
        assert(within.unit.code[i + positions] == inside.unit.code[i + positions]);
    }
    assert forall|i: int| 0 <= i < alone.unit.code.len() implies (#[trigger] alone.unit.code[i])
        .branches_within(i, 0, alone.unit.code.len() as int) by {
        assert(fine(lone.unit.code[i], i, empty, none, lone.unit.code.len()));
    }
}

/// A conditional whose condition holds yields what its `then` block yields
/// when it is lowered and run by itself; one whose condition fails yields
/// what its `else` expression yields when it is lowered and run by itself.
///
/// The part, the `then` block or the `else` expression, is lowered by
/// itself: from the empty unit, with no bindings. That this succeeds says
/// that the part refers to no variable that is bound outside it. A machine
/// `alone` is loaded with the unit that this gives and runs through its code
/// in `n` moves.
///
/// A machine `within` runs code that starts with a unit in which the
/// conditional was lowered last. It stands at the conditional's branch, with
/// a flag that chooses the part, with the registers of the part as they were
/// created, and with the same answers of the host to come. Then `within`
/// comes to stand after the conditional, and the conditional's result
/// register holds what the register of the part's value holds in `alone`.
pub proof fn law_conditional_yields_branch_alone(
    unit: Unit,
    vars: Map<usize, RegisterId>,
    node: NodeId,
    condition: NodeId,
    then_block: NodeId,
    else_expression: Option<NodeId>,
    delta: EngineDelta,
    typechecker: TypeChecker,
    within: Driven,
    alone: Driven,
    functions: Seq<FnRecord>,
    n: nat,
)
    requires
        unit.wf(),
        bound_in(vars, unit),
        lower_if(unit, vars, node, condition, then_block, else_expression, delta, typechecker).result
            is Ok,
        lower_if(
            unit,
            vars,
            node,
            condition,
            then_block,
            else_expression,
            delta,
            typechecker,
        ).unit.fits(),
        within.unit.wf(),
        within.unit.code.len() <= usize::MAX,
        lower_if(
            unit,
            vars,
            node,
            condition,
            then_block,
            else_expression,
            delta,
            typechecker,
        ).unit.values.len() <= within.unit.values.len() <= usize::MAX,
        starts_with_code_of(
            within.unit.code,
            lower_if(
                unit,
                vars,
                node,
                condition,
                then_block,
                else_expression,
                delta,
                typechecker,
            ).unit,
        ),
        within.unit.pc == conditional_of(
            unit,
            vars,
            node,
            condition,
            then_block,
            else_expression,
            delta,
            typechecker,
        ).branch,
        within.answers == alone.answers,
        alone.runs_through(functions, 0, alone.unit.code.len(), n),
        ({
            let layout = conditional_of(
                unit,
                vars,
                node,
                condition,
                then_block,
                else_expression,
                delta,
                typechecker,
            );
            let tested = condition_of(unit, vars, node, condition, delta, typechecker);
            let taken = then_of(unit, vars, node, condition, then_block, delta, typechecker);
            if within.unit.values[layout.flag.0 as int] != 0 {
                &&& alone_of(then_block, delta, typechecker).result is Ok
                &&& alone_of(then_block, delta, typechecker).unit.fits()
                &&& alone.unit == alone_of(then_block, delta, typechecker).unit
                &&& holds_registers_of(
                    within.unit,
                    taken.unit,
                    tested.unit.values.len(),
                    taken.unit.values.len(),
                )
            } else {
                &&& else_expression matches Some(else_node)
                &&& alone_of(else_node, delta, typechecker).result is Ok
                &&& alone_of(else_node, delta, typechecker).unit.fits()
                &&& alone.unit == alone_of(else_node, delta, typechecker).unit
                &&& holds_registers_of(
                    within.unit,
                    else_of(
                        unit,
                        vars,
                        node,
                        condition,
                        then_block,
                        else_node,
                        delta,
                        typechecker,
                    ).unit,
                    taken.unit.values.len(),
                    else_of(
                        unit,
                        vars,
                        node,
                        condition,
                        then_block,
                        else_node,
                        delta,
                        typechecker,
                    ).unit.values.len(),
                )
            }
        }),
    ensures
        ({
            let layout = conditional_of(
                unit,
                vars,
                node,
                condition,
                then_block,
                else_expression,
                delta,
                typechecker,
            );
            let holds = within.unit.values[layout.flag.0 as int] != 0;
            let part = if holds {
                then_block
            } else {
                else_expression->Some_0
            };
            let moves = if holds && else_expression is Some {
                n + 3
            } else {
                n + 2
            };
            let done = within.run(functions, moves as nat);
            let single = alone.run(functions, n);
            &&& done.unit.pc == layout.end()
            &&& done.answers == single.answers
            &&& done.unit.values[layout.output.0 as int] == single.unit.values[alone_of(
                part,
                delta,
                typechecker,
            ).result->Ok_0.0 as int]
        }),
{
    let lowered = lower_if(
        unit,
        vars,
        node,
        condition,
        then_block,
        else_expression,
        delta,
        typechecker,
    );
    let layout = conditional_of(
        unit,
        vars,
        node,
        condition,
        then_block,
        else_expression,
        delta,
        typechecker,
    );
    let ty = typechecker.node_types@[node.0 as int];
    let zero = InstructionId(0);
    let output = unit.next_register();
    let started = unit.push_register(0, ty);
    let tested = lower_node(started, vars, condition, delta, typechecker);
    let reserved = tested.unit.emit(
        Op::Brif { condition: tested.result->Ok_0, then_branch: zero, else_branch: zero },
    );
    let taken = lower_node(reserved, tested.vars, then_block, delta, typechecker);
    law_conditional_layout(
        unit,
        vars,
        node,
        condition,
        then_block,
        else_expression,
        delta,
        typechecker,
    );
    lemma_if_grows(unit, vars, node, condition, then_block, else_expression, delta, typechecker);
    lemma_node_grows(started, vars, condition, delta, typechecker);
    lemma_node_grows(reserved, tested.vars, then_block, delta, typechecker);
    unit.lemma_push_register_wf(0, ty);
    lemma_node_sound(started, vars, condition, delta, typechecker);
    lemma_node_sound(reserved, tested.vars, then_block, delta, typechecker);
    assert(layout.laid_out_in(within.unit.code)) by {
        assert(within.unit.code[layout.branch as int] == lowered.unit.code[layout.branch as int]);
        assert(within.unit.code[layout.then_end as int] == lowered.unit.code[layout.then_end as int]);
        if layout.otherwise is Some {
            assert(within.unit.code[layout.then_end as int + 1]
                == lowered.unit.code[layout.then_end as int + 1]);
            assert(within.unit.code[layout.otherwise->Some_0.end as int]
                == lowered.unit.code[layout.otherwise->Some_0.end as int]);
        }
    }
    if within.unit.values[layout.flag.0 as int] != 0 {
        let entered = within.at(layout.then_start());
        assert forall|i: int|
            reserved.code.len() <= i < taken.unit.code.len() implies entered.unit.code[i]
            == #[trigger] taken.unit.code[i] by {
            assert(within.unit.code[i] == lowered.unit.code[i]);
        }
        lemma_part_shadows(reserved, tested.vars, then_block, delta, typechecker, entered, alone);
        lemma_shadow_runs_through(
            entered,
            alone,
            reserved.values.len(),
            reserved.code.len(),
            functions,
            n,
        );
        layout.law_then_branch(within, functions, n);
        let through = entered.run(functions, n);
        entered.lemma_run_keeps_wf(functions, n);
        alone.lemma_run_keeps_wf(functions, n);
        let value = alone_of(then_block, delta, typechecker).result->Ok_0;
        assert(through.unit.values[value.0 + reserved.values.len()] == alone.run(
            functions,
            n,
        ).unit.values[value.0 as int]);
    } else {
        let else_node = else_expression->Some_0;
        let collected = taken.unit.mov(output, taken.result->Ok_0);
        let skipping = collected.emit(Op::Jmp { location: zero });
        let other = lower_node(skipping, taken.vars, else_node, delta, typechecker);
        let entered = within.at(layout.else_start());
        assert forall|i: int|
            skipping.code.len() <= i < other.unit.code.len() implies entered.unit.code[i]
            == #[trigger] other.unit.code[i] by {
            assert(within.unit.code[i] == lowered.unit.code[i]);
        }
        lemma_part_shadows(skipping, taken.vars, else_node, delta, typechecker, entered, alone);
        lemma_shadow_runs_through(
            entered,
            alone,
            skipping.values.len(),
            skipping.code.len(),
            functions,
            n,
        );
        layout.law_else_branch(within, functions, n);
        let through = entered.run(functions, n);
        entered.lemma_run_keeps_wf(functions, n);
        alone.lemma_run_keeps_wf(functions, n);
        let value = alone_of(else_node, delta, typechecker).result->Ok_0;
        assert(through.unit.values[value.0 + skipping.values.len()] == alone.run(
            functions,
            n,
        ).unit.values[value.0 as int]);
    }
}

} // verus!
