//! The lowering rules: what bytecode each kind of syntax node stands for.
//!
//! The rules are functions on the model of a unit under construction and on
//! the bindings made so far. The translator's contracts say that it produces
//! exactly what these functions describe.

use vstd::prelude::*;
use crate::codegen::Unit;
use crate::ids::{
    InstructionId, NodeId, RegisterId, TypeId, BOOL_TYPE, F64_TYPE, I64_TYPE, VOID_TYPE,
};
use crate::instruction::{Op, Operation};
use crate::literal::int_literal;
use crate::syntax::{AstNode, EngineDelta, id_bound};
use crate::typechecker::TypeChecker;

verus! {

/// Why a tree could not be lowered. Each of these is a fault of the passes
/// that ran before: they are to hand on only trees that lower.
#[derive(Clone, Copy, Debug, PartialEq, Eq, Structural)]
pub enum TranslateError {
    /// The tree has no such node, or the node names a child that does not
    /// come before it.
    MalformedTree(NodeId),
    /// The text of the literal denotes no number.
    MalformedLiteral(NodeId),
    /// The variable reference was not resolved to a definition.
    UnresolvedVariable(NodeId),
    /// The variable reference was resolved to a definition that has not been
    /// lowered.
    UndefinedVariable(NodeId),
    /// The call was not resolved to a function.
    UnresolvedCall(NodeId),
    /// The operator, at the given node, has no form for a left operand of
    /// the given type.
    UnsupportedOperand { operator: NodeId, ty: TypeId },
    /// The node in operator position is not an operator that is lowered.
    UnsupportedOperator(NodeId),
    /// The node is of a kind that is not lowered.
    UnsupportedNode(NodeId),
    /// The type model has no type for the node.
    MissingType(NodeId),
}

/// Where lowering has got to: the unit built so far, the register bound to
/// each defining node so far, and the register that holds the value of what
/// was lowered last, or the reason why it could not be lowered.
pub struct Lowered {
    pub unit: Unit,
    pub vars: Map<usize, RegisterId>,
    pub result: Result<RegisterId, TranslateError>,
}

/// As `Lowered`, for a list of nodes: the registers of their values, in
/// order.
pub struct LoweredList {
    pub unit: Unit,
    pub vars: Map<usize, RegisterId>,
    pub result: Result<Seq<RegisterId>, TranslateError>,
}

/// The greater of two numbers.
pub open spec fn greater(a: nat, b: nat) -> nat {
    if a >= b {
        a
    } else {
        b
    }
}

/// One more than the index of the node, if there is one, and 0 if not.
pub open spec fn bound_of(node: Option<NodeId>) -> nat {
    match node {
        Some(node) => (node.0 + 1) as nat,
        None => 0,
    }
}

/// The arithmetic or comparison that an operator node stands for.
pub open spec fn operation_of(node: AstNode) -> Option<Operation> {
    match node {
        AstNode::Plus => Some(Operation::Add),
        AstNode::Minus => Some(Operation::Sub),
        AstNode::Multiply => Some(Operation::Mul),
        AstNode::Divide => Some(Operation::Div),
        AstNode::LessThan => Some(Operation::Lt),
        AstNode::LessThanOrEqual => Some(Operation::Lte),
        AstNode::GreaterThan => Some(Operation::Gt),
        AstNode::GreaterThanOrEqual => Some(Operation::Gte),
        _ => None,
    }
}

/// An integer literal: a new integer register that holds the number its text
/// denotes.
pub open spec fn lower_int(unit: Unit, vars: Map<usize, RegisterId>, node: NodeId, delta: EngineDelta) -> Lowered {
    match delta.text(node) {
        Some(text) => match int_literal(text) {
            Some(value) => Lowered {
                unit: unit.push_register(value, I64_TYPE),
                vars,
                result: Ok(unit.next_register()),
            },
            None => Lowered { unit, vars, result: Err(TranslateError::MalformedLiteral(node)) },
        },
        None => Lowered { unit, vars, result: Err(TranslateError::MalformedLiteral(node)) },
    }
}

/// A floating-point literal: a new floating-point register that holds the
/// bit pattern which the parse result gives for the node.
pub open spec fn lower_float(unit: Unit, vars: Map<usize, RegisterId>, node: NodeId, delta: EngineDelta) -> Lowered {
    if delta.float_values@.contains_key(node.0) {
        Lowered {
            unit: unit.push_register(delta.float_values@[node.0], F64_TYPE),
            vars,
            result: Ok(unit.next_register()),
        }
    } else {
        Lowered { unit, vars, result: Err(TranslateError::MalformedLiteral(node)) }
    }
}

/// A boolean literal: a new boolean register that holds 1 or 0.
pub open spec fn lower_bool(unit: Unit, vars: Map<usize, RegisterId>, value: bool) -> Lowered {
    Lowered {
        unit: unit.push_register(if value { 1i64 } else { 0i64 }, BOOL_TYPE),
        vars,
        result: Ok(unit.next_register()),
    }
}

/// A variable reference: the register bound to the definition that the
/// reference resolves to. Nothing is added to the unit.
pub open spec fn lower_variable(unit: Unit, vars: Map<usize, RegisterId>, node: NodeId, typechecker: TypeChecker) -> Lowered {
    if !typechecker.variable_def@.contains_key(node.0) {
        Lowered { unit, vars, result: Err(TranslateError::UnresolvedVariable(node)) }
    } else if !vars.contains_key(typechecker.variable_def@[node.0].0) {
        Lowered { unit, vars, result: Err(TranslateError::UndefinedVariable(node)) }
    } else {
        Lowered { unit, vars, result: Ok(vars[typechecker.variable_def@[node.0].0]) }
    }
}

/// The operator of a binary operation, applied to the registers of the two
/// operands. Arithmetic and comparison add a result register and one
/// instruction, in the form that the tag of `lhs` selects. Assignment adds a
/// move into `lhs`, and its value is `lhs` itself.
pub open spec fn lower_operator(
    unit: Unit,
    vars: Map<usize, RegisterId>,
    lhs: RegisterId,
    op: NodeId,
    rhs: RegisterId,
    delta: EngineDelta,
) -> Lowered {
    if op.0 >= delta.ast_nodes@.len() {
        Lowered { unit, vars, result: Err(TranslateError::UnsupportedOperator(op)) }
    } else if delta.ast_nodes@[op.0 as int] is Assignment {
        Lowered { unit: unit.mov(lhs, rhs), vars, result: Ok(lhs) }
    } else {
        match operation_of(delta.ast_nodes@[op.0 as int]) {
            Some(operation) => match unit.try_binary(operation, lhs, rhs) {
                (built, Ok(target)) => Lowered { unit: built, vars, result: Ok(target) },
                (built, Err(e)) => Lowered {
                    unit: built,
                    vars,
                    result: Err(TranslateError::UnsupportedOperand { operator: op, ty: e.ty }),
                },
            },
            None => Lowered { unit, vars, result: Err(TranslateError::UnsupportedOperator(op)) },
        }
    }
}

/// Any node: the rule for its kind. A node that names a child which does not
/// come before it is refused, and so is a node of a kind that has no rule.
pub open spec fn lower_node(
    unit: Unit,
    vars: Map<usize, RegisterId>,
    node: NodeId,
    delta: EngineDelta,
    typechecker: TypeChecker,
) -> Lowered
    decreases 2 * node.0 + 1, 0nat,
{
    let malformed = Lowered { unit, vars, result: Err(TranslateError::MalformedTree(node)) };
    if node.0 >= delta.ast_nodes@.len() {
        malformed
    } else {
        match delta.ast_nodes@[node.0 as int] {
            AstNode::Int => lower_int(unit, vars, node, delta),
            AstNode::Float => lower_float(unit, vars, node, delta),
            AstNode::True => lower_bool(unit, vars, true),
            AstNode::False => lower_bool(unit, vars, false),
            AstNode::Variable => lower_variable(unit, vars, node, typechecker),
            AstNode::BinaryOp { lhs, op, rhs } => if lhs.0 < node.0 && rhs.0 < node.0 {
                lower_binop(unit, vars, lhs, op, rhs, delta, typechecker)
            } else {
                malformed
            },
            AstNode::Block(nodes) => if id_bound(nodes@) <= node.0 {
                lower_block(unit, vars, nodes@, delta, typechecker)
            } else {
                malformed
            },
            AstNode::Let { variable_name, initializer, .. } => if initializer.0 < node.0 {
                lower_let(unit, vars, variable_name, initializer, delta, typechecker)
            } else {
                malformed
            },
            AstNode::Statement(inner) => if inner.0 < node.0 {
                lower_node(unit, vars, inner, delta, typechecker)
            } else {
                malformed
            },
            AstNode::If { condition, then_block, else_expression } => if condition.0 < node.0
                && then_block.0 < node.0 && bound_of(else_expression) <= node.0 {
                lower_if(
                    unit,
                    vars,
                    node,
                    condition,
                    then_block,
                    else_expression,
                    delta,
                    typechecker,
                )
            } else {
                malformed
            },
            AstNode::While { condition, block } => if condition.0 < node.0 && block.0 < node.0 {
                lower_while(unit, vars, condition, block, delta, typechecker)
            } else {
                malformed
            },
            AstNode::Call { head, args } => if id_bound(args@) <= node.0 {
                lower_call(unit, vars, head, args@, delta, typechecker)
            } else {
                malformed
            },
            _ => Lowered { unit, vars, result: Err(TranslateError::UnsupportedNode(node)) },
        }
    }
}

/// A binary operation: the left operand, then the right operand, then the
/// operator on their registers.
pub open spec fn lower_binop(
    unit: Unit,
    vars: Map<usize, RegisterId>,
    lhs: NodeId,
    op: NodeId,
    rhs: NodeId,
    delta: EngineDelta,
    typechecker: TypeChecker,
) -> Lowered
    decreases 2 * greater(lhs.0 as nat, rhs.0 as nat) + 2, 0nat,
{
    let left = lower_node(unit, vars, lhs, delta, typechecker);
    match left.result {
        Err(_) => left,
        Ok(left_register) => {
            let right = lower_node(left.unit, left.vars, rhs, delta, typechecker);
            match right.result {
                Err(_) => right,
                Ok(right_register) => lower_operator(
                    right.unit,
                    right.vars,
                    left_register,
                    op,
                    right_register,
                    delta,
                ),
            }
        },
    }
}

/// A binding: the initializer, whose register the defining node is then
/// bound to. The binding has no register of its own.
pub open spec fn lower_let(
    unit: Unit,
    vars: Map<usize, RegisterId>,
    variable_name: NodeId,
    initializer: NodeId,
    delta: EngineDelta,
    typechecker: TypeChecker,
) -> Lowered
    decreases 2 * initializer.0 + 2, 0nat,
{
    let value = lower_node(unit, vars, initializer, delta, typechecker);
    match value.result {
        Err(_) => value,
        Ok(register) => Lowered {
            unit: value.unit,
            vars: value.vars.insert(variable_name.0, register),
            result: Ok(register),
        },
    }
}

/// A conditional. In order: a result register of the node's type; the
/// condition; a branch on it; the `then` block and a move of its value into
/// the result register; and, if there is an `else`, a jump past it, the
/// `else` expression and a move of its value into the result register. The
/// branch leads to the start of the `then` block, and to the start of the
/// `else` expression or, without one, past the conditional. The jump leads
/// past the conditional.
pub open spec fn lower_if(
    unit: Unit,
    vars: Map<usize, RegisterId>,
    node: NodeId,
    condition: NodeId,
    then_block: NodeId,
    else_expression: Option<NodeId>,
    delta: EngineDelta,
    typechecker: TypeChecker,
) -> Lowered
    decreases
        2 * greater(
            greater(condition.0 as nat, then_block.0 as nat) + 1,
            bound_of(else_expression),
        ),
        0nat,
{
    if node.0 >= typechecker.node_types@.len() {
        Lowered { unit, vars, result: Err(TranslateError::MissingType(node)) }
    } else {
        let output = unit.next_register();
        let started = unit.push_register(0, typechecker.node_types@[node.0 as int]);
        let tested = lower_node(started, vars, condition, delta, typechecker);
        match tested.result {
            Err(_) => tested,
            Ok(flag) => {
                let branch = tested.unit.next_position();
                let reserved = tested.unit.emit(
                    Op::Brif {
                        condition: flag,
                        then_branch: InstructionId(0),
                        else_branch: InstructionId(0),
                    },
                );
                let then_start = reserved.next_position();
                let taken = lower_node(reserved, tested.vars, then_block, delta, typechecker);
                match taken.result {
                    Err(_) => taken,
                    Ok(then_value) => {
                        let collected = taken.unit.mov(output, then_value);
                        match else_expression {
                            None => Lowered {
                                unit: collected.patch(
                                    branch.0 as int,
                                    Op::Brif {
                                        condition: flag,
                                        then_branch: then_start,
                                        else_branch: collected.next_position(),
                                    },
                                ),
                                vars: taken.vars,
                                result: Ok(output),
                            },
                            Some(else_node) => {
                                let jump = collected.next_position();
                                let skipping = collected.emit(
                                    Op::Jmp { location: InstructionId(0) },
                                );
                                let else_start = skipping.next_position();
                                let other = lower_node(
                                    skipping,
                                    taken.vars,
                                    else_node,
                                    delta,
                                    typechecker,
                                );
                                match other.result {
                                    Err(_) => other,
                                    Ok(else_value) => {
                                        let finished = other.unit.mov(output, else_value);
                                        Lowered {
                                            unit: finished.patch(
                                                jump.0 as int,
                                                Op::Jmp { location: finished.next_position() },
                                            ).patch(
                                                branch.0 as int,
                                                Op::Brif {
                                                    condition: flag,
                                                    then_branch: then_start,
                                                    else_branch: else_start,
                                                },
                                            ),
                                            vars: other.vars,
                                            result: Ok(output),
                                        }
                                    },
                                }
                            },
                        }
                    },
                }
            },
        }
    }
}

/// A loop. In order: a void result register; the condition; a branch on it;
/// the body; a jump back to the start of the condition. The branch leads to
/// the start of the body, and past the jump.
pub open spec fn lower_while(
    unit: Unit,
    vars: Map<usize, RegisterId>,
    condition: NodeId,
    block: NodeId,
    delta: EngineDelta,
    typechecker: TypeChecker,
) -> Lowered
    decreases 2 * greater(condition.0 as nat, block.0 as nat) + 2, 0nat,
{
    let output = unit.next_register();
    let started = unit.push_register(0, VOID_TYPE);
    let top = started.next_position();
    let tested = lower_node(started, vars, condition, delta, typechecker);
    match tested.result {
        Err(_) => tested,
        Ok(flag) => {
            let branch = tested.unit.next_position();
            let reserved = tested.unit.emit(
                Op::Brif {
                    condition: flag,
                    then_branch: InstructionId(0),
                    else_branch: InstructionId(0),
                },
            );
            let body_start = reserved.next_position();
            let body = lower_node(reserved, tested.vars, block, delta, typechecker);
            match body.result {
                Err(_) => body,
                Ok(_) => {
                    let looped = body.unit.emit(Op::Jmp { location: top });
                    Lowered {
                        unit: looped.patch(
                            branch.0 as int,
                            Op::Brif {
                                condition: flag,
                                then_branch: body_start,
                                else_branch: looped.next_position(),
                            },
                        ),
                        vars: body.vars,
                        result: Ok(output),
                    }
                },
            }
        },
    }
}

/// One or more statements, in order. The value is that of the last.
pub open spec fn lower_statements(
    unit: Unit,
    vars: Map<usize, RegisterId>,
    nodes: Seq<NodeId>,
    delta: EngineDelta,
    typechecker: TypeChecker,
) -> Lowered
    recommends
        nodes.len() > 0,
    decreases 2 * id_bound(nodes), nodes.len(),
{
    if nodes.len() == 0 {
        Lowered { unit, vars, result: Ok(RegisterId(0)) }
    } else if nodes.len() == 1 {
        lower_node(unit, vars, nodes[0], delta, typechecker)
    } else {
        let before = lower_statements(unit, vars, nodes.drop_last(), delta, typechecker);
        match before.result {
            Err(_) => before,
            Ok(_) => lower_node(before.unit, before.vars, nodes.last(), delta, typechecker),
        }
    }
}

/// A block: its statements in order, with the value of the last. An empty
/// block is a new void register.
pub open spec fn lower_block(
    unit: Unit,
    vars: Map<usize, RegisterId>,
    nodes: Seq<NodeId>,
    delta: EngineDelta,
    typechecker: TypeChecker,
) -> Lowered
    decreases 2 * id_bound(nodes), nodes.len() + 1,
{
    if nodes.len() == 0 {
        Lowered { unit: unit.push_register(0, VOID_TYPE), vars, result: Ok(unit.next_register()) }
    } else {
        lower_statements(unit, vars, nodes, delta, typechecker)
    }
}

/// The arguments of a call, in order, and the registers of their values.
pub open spec fn lower_arguments(
    unit: Unit,
    vars: Map<usize, RegisterId>,
    args: Seq<NodeId>,
    delta: EngineDelta,
    typechecker: TypeChecker,
) -> LoweredList
    decreases 2 * id_bound(args), args.len(),
{
    if args.len() == 0 {
        LoweredList { unit, vars, result: Ok(Seq::empty()) }
    } else {
        let before = lower_arguments(unit, vars, args.drop_last(), delta, typechecker);
        match before.result {
            Err(_) => before,
            Ok(registers) => {
                let value = lower_node(before.unit, before.vars, args.last(), delta, typechecker);
                match value.result {
                    Err(e) => LoweredList { unit: value.unit, vars: value.vars, result: Err(e) },
                    Ok(register) => LoweredList {
                        unit: value.unit,
                        vars: value.vars,
                        result: Ok(registers.push(register)),
                    },
                }
            },
        }
    }
}

/// A call. In order: a void result register; the arguments, left to right;
/// one call instruction on the function that the head resolves to, with the
/// registers of the arguments.
pub open spec fn lower_call(
    unit: Unit,
    vars: Map<usize, RegisterId>,
    head: NodeId,
    args: Seq<NodeId>,
    delta: EngineDelta,
    typechecker: TypeChecker,
) -> Lowered
    decreases 2 * id_bound(args), args.len() + 1,
{
    let output = unit.next_register();
    let started = unit.push_register(0, VOID_TYPE);
    if !typechecker.call_resolution@.contains_key(head.0) {
        Lowered { unit: started, vars, result: Err(TranslateError::UnresolvedCall(head)) }
    } else {
        let passed = lower_arguments(started, vars, args, delta, typechecker);
        match passed.result {
            Err(e) => Lowered { unit: passed.unit, vars: passed.vars, result: Err(e) },
            Ok(registers) => Lowered {
                unit: passed.unit.emit(
                    Op::Call {
                        head: typechecker.call_resolution@[head.0],
                        args: registers,
                        target: output,
                    },
                ),
                vars: passed.vars,
                result: Ok(output),
            },
        }
    }
}

/// A whole tree: register 0 as the result slot, of the type of the root,
/// which is the last node; the root; and a move of its value into register
/// 0. An empty tree is a void result slot and no instruction.
pub open spec fn lower_tree(delta: EngineDelta, typechecker: TypeChecker) -> Lowered {
    let unit = Unit::empty();
    let vars = Map::<usize, RegisterId>::empty();
    if delta.ast_nodes@.len() == 0 {
        Lowered { unit: unit.push_register(0, VOID_TYPE), vars, result: Ok(RegisterId(0)) }
    } else {
        let root = NodeId((delta.ast_nodes@.len() - 1) as usize);
        if root.0 >= typechecker.node_types@.len() {
            Lowered { unit, vars, result: Err(TranslateError::MissingType(root)) }
        } else {
            let started = unit.push_register(0, typechecker.node_types@[root.0 as int]);
            let body = lower_node(started, vars, root, delta, typechecker);
            match body.result {
                Err(_) => body,
                Ok(value) => Lowered {
                    unit: body.unit.mov(RegisterId(0), value),
                    vars: body.vars,
                    result: Ok(RegisterId(0)),
                },
            }
        }
    }
}

/// What the rule for nodes produces for the condition of a conditional, at
/// the point where the conditional's rule applies it.
pub open spec fn condition_of(
    unit: Unit,
    vars: Map<usize, RegisterId>,
    node: NodeId,
    condition: NodeId,
    delta: EngineDelta,
    typechecker: TypeChecker,
) -> Lowered {
    lower_node(
        unit.push_register(0, typechecker.node_types@[node.0 as int]),
        vars,
        condition,
        delta,
        typechecker,
    )
}

/// What the rule for nodes produces for the `then` block of a conditional,
/// at the point where the conditional's rule applies it.
pub open spec fn then_of(
    unit: Unit,
    vars: Map<usize, RegisterId>,
    node: NodeId,
    condition: NodeId,
    then_block: NodeId,
    delta: EngineDelta,
    typechecker: TypeChecker,
) -> Lowered {
    let tested = condition_of(unit, vars, node, condition, delta, typechecker);
    lower_node(
        tested.unit.emit(
            Op::Brif {
                condition: tested.result->Ok_0,
                then_branch: InstructionId(0),
                else_branch: InstructionId(0),
            },
        ),
        tested.vars,
        then_block,
        delta,
        typechecker,
    )
}

/// What the rule for nodes produces for the `else` expression of a
/// conditional, at the point where the conditional's rule applies it.
pub open spec fn else_of(
    unit: Unit,
    vars: Map<usize, RegisterId>,
    node: NodeId,
    condition: NodeId,
    then_block: NodeId,
    else_node: NodeId,
    delta: EngineDelta,
    typechecker: TypeChecker,
) -> Lowered {
    let taken = then_of(unit, vars, node, condition, then_block, delta, typechecker);
    lower_node(
        taken.unit.mov(unit.next_register(), taken.result->Ok_0).emit(
            Op::Jmp { location: InstructionId(0) },
        ),
        taken.vars,
        else_node,
        delta,
        typechecker,
    )
}

/// What the rule for nodes produces for the condition of a loop, at the
/// point where the loop's rule applies it.
pub open spec fn test_of(
    unit: Unit,
    vars: Map<usize, RegisterId>,
    condition: NodeId,
    delta: EngineDelta,
    typechecker: TypeChecker,
) -> Lowered {
    lower_node(unit.push_register(0, VOID_TYPE), vars, condition, delta, typechecker)
}

/// What the rule for nodes produces for the body of a loop, at the point
/// where the loop's rule applies it.
pub open spec fn body_of(
    unit: Unit,
    vars: Map<usize, RegisterId>,
    condition: NodeId,
    block: NodeId,
    delta: EngineDelta,
    typechecker: TypeChecker,
) -> Lowered {
    let tested = test_of(unit, vars, condition, delta, typechecker);
    lower_node(
        tested.unit.emit(
            Op::Brif {
                condition: tested.result->Ok_0,
                then_branch: InstructionId(0),
                else_branch: InstructionId(0),
            },
        ),
        tested.vars,
        block,
        delta,
        typechecker,
    )
}

} // verus!
