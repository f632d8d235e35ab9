//! How long a binding lasts: lowering leaves a variable bound to its register
//! unless the tree that is lowered binds the variable anew.

use vstd::prelude::*;
use crate::codegen::Unit;
use crate::ids::{InstructionId, NodeId, RegisterId, VOID_TYPE};
use crate::instruction::Op;
use crate::lowering::{
    bound_of, greater, lower_arguments, lower_binop, lower_block, lower_bool, lower_call,
    lower_float, lower_if, lower_int, lower_let, lower_node, lower_statements, lower_variable,
    lower_while,
};
use crate::syntax::{id_bound, AstNode, EngineDelta};
use crate::typechecker::TypeChecker;

verus! {

/// Whether the tree under `node` holds a binding whose defining node is
/// `name`.
pub open spec fn binds(node: NodeId, name: usize, delta: EngineDelta) -> bool
    decreases 2 * node.0 + 1, 0nat,
{
    if node.0 >= delta.ast_nodes@.len() {
        false
    } else {
        match delta.ast_nodes@[node.0 as int] {
            AstNode::BinaryOp { lhs, rhs, .. } => lhs.0 < node.0 && rhs.0 < node.0 && (binds(
                lhs,
                name,
                delta,
            ) || binds(rhs, name, delta)),
            AstNode::Block(nodes) => id_bound(nodes@) <= node.0 && binds_any(nodes@, name, delta),
            AstNode::Let { variable_name, initializer, .. } => initializer.0 < node.0 && (
            variable_name.0 == name || binds(initializer, name, delta)),
            AstNode::Statement(inner) => inner.0 < node.0 && binds(inner, name, delta),
            AstNode::If { condition, then_block, else_expression } => condition.0 < node.0
                && then_block.0 < node.0 && bound_of(else_expression) <= node.0 && (binds(
                condition,
                name,
                delta,
            ) || binds(then_block, name, delta) || match else_expression {
                Some(else_node) => binds(else_node, name, delta),
                None => false,
            }),
            AstNode::While { condition, block } => condition.0 < node.0 && block.0 < node.0 && (
            binds(condition, name, delta) || binds(block, name, delta)),
            AstNode::Call { args, .. } => id_bound(args@) <= node.0 && binds_any(args@, name, delta),
            _ => false,
        }
    }
}

/// Whether the tree under one of `nodes` holds a binding whose defining node
/// is `name`.
pub open spec fn binds_any(nodes: Seq<NodeId>, name: usize, delta: EngineDelta) -> bool
    decreases 2 * id_bound(nodes), nodes.len(),
{
    nodes.len() > 0 && (binds_any(nodes.drop_last(), name, delta) || binds(
        nodes.last(),
        name,
        delta,
    ))
}

/// Whether the bindings `after` still bind `name` to the register that
/// `before` binds it to.
pub open spec fn keeps(
    before: Map<usize, RegisterId>,
    after: Map<usize, RegisterId>,
    name: usize,
) -> bool {
    after.contains_key(name) && after[name] == before[name]
}

/// A binding lasts while no binding of the same variable is lowered.
///
/// Lowering a node whose tree holds no binding of a variable leaves the
/// variable bound to the register it was bound to, whether the node can be
/// lowered or not. So a reference to the variable that is lowered afterwards
/// names the register of the variable's initializer, and so does every
/// assignment to it.
pub proof fn law_binding_lasts(
    unit: Unit,
    vars: Map<usize, RegisterId>,
    node: NodeId,
    delta: EngineDelta,
    typechecker: TypeChecker,
    name: usize,
)
    requires
        vars.contains_key(name),
        !binds(node, name, delta),
    ensures
        keeps(vars, lower_node(unit, vars, node, delta, typechecker).vars, name),
    decreases 2 * node.0 + 1, 0nat,
{
    let after = lower_node(unit, vars, node, delta, typechecker);
    if node.0 < delta.ast_nodes@.len() {
        match delta.ast_nodes@[node.0 as int] {
            AstNode::Int => {
                assert(after == lower_int(unit, vars, node, delta));
            },
            AstNode::Float => {
                assert(after == lower_float(unit, vars, node, delta));
            },
            AstNode::True => {
                assert(after == lower_bool(unit, vars, true));
            },
            AstNode::False => {
                assert(after == lower_bool(unit, vars, false));
            },
            AstNode::Variable => {
                assert(after == lower_variable(unit, vars, node, typechecker));
            },
            AstNode::BinaryOp { lhs, op, rhs } => {
                if lhs.0 < node.0 && rhs.0 < node.0 {
                    lemma_binop_keeps(unit, vars, lhs, op, rhs, delta, typechecker, name);
                }
            },
            AstNode::Block(nodes) => {
                if id_bound(nodes@) <= node.0 {
                    lemma_block_keeps(unit, vars, nodes@, delta, typechecker, name);
                }
            },
            AstNode::Let { variable_name, initializer, .. } => {
                if initializer.0 < node.0 {
                    law_binding_lasts(unit, vars, initializer, delta, typechecker, name);
                    assert(after == lower_let(
                        unit,
                        vars,
                        variable_name,
                        initializer,
                        delta,
                        typechecker,
                    ));
                }
            },
            AstNode::Statement(inner) => {
                if inner.0 < node.0 {
                    law_binding_lasts(unit, vars, inner, delta, typechecker, name);
                }
            },
            AstNode::If { condition, then_block, else_expression } => {
                if condition.0 < node.0 && then_block.0 < node.0 && bound_of(else_expression)
                    <= node.0 {
                    lemma_if_keeps(
                        unit,
                        vars,
                        node,
                        condition,
                        then_block,
                        else_expression,
                        delta,
                        typechecker,
                        name,
                    );
                }
            },
            AstNode::While { condition, block } => {
                if condition.0 < node.0 && block.0 < node.0 {
                    lemma_while_keeps(unit, vars, condition, block, delta, typechecker, name);
                }
            },
            AstNode::Call { head, args } => {
                if id_bound(args@) <= node.0 {
                    lemma_call_keeps(unit, vars, head, args@, delta, typechecker, name);
                }
            },
            _ => {},
        }
    }
}

/// Lowering a binary operation that binds nothing to a variable leaves the
/// variable's binding.
proof fn lemma_binop_keeps(
    unit: Unit,
    vars: Map<usize, RegisterId>,
    lhs: NodeId,
    op: NodeId,
    rhs: NodeId,
    delta: EngineDelta,
    typechecker: TypeChecker,
    name: usize,
)
    requires
        vars.contains_key(name),
        !binds(lhs, name, delta),
        !binds(rhs, name, delta),
    ensures
        keeps(vars, lower_binop(unit, vars, lhs, op, rhs, delta, typechecker).vars, name),
    decreases 2 * greater(lhs.0 as nat, rhs.0 as nat) + 2, 0nat,
{
    law_binding_lasts(unit, vars, lhs, delta, typechecker, name);
    let left = lower_node(unit, vars, lhs, delta, typechecker);
    if left.result is Ok {
        law_binding_lasts(left.unit, left.vars, rhs, delta, typechecker, name);
    }
}

/// Lowering a conditional that binds nothing to a variable leaves the
/// variable's binding.
proof fn lemma_if_keeps(
    unit: Unit,
    vars: Map<usize, RegisterId>,
    node: NodeId,
    condition: NodeId,
    then_block: NodeId,
    else_expression: Option<NodeId>,
    delta: EngineDelta,
    typechecker: TypeChecker,
    name: usize,
)
    requires
        vars.contains_key(name),
        !binds(condition, name, delta),
        !binds(then_block, name, delta),
        else_expression matches Some(else_node) ==> !binds(else_node, name, delta),
    ensures
        keeps(
            vars,
            lower_if(
                unit,
                vars,
                node,
                condition,
                then_block,
                else_expression,
                delta,
                typechecker,
            ).vars,
            name,
        ),
    decreases
        2 * greater(greater(condition.0 as nat, then_block.0 as nat) + 1, bound_of(else_expression)),
        0nat,
{
    if node.0 < typechecker.node_types@.len() {
        let zero = InstructionId(0);
        let started = unit.push_register(0, typechecker.node_types@[node.0 as int]);
        law_binding_lasts(started, vars, condition, delta, typechecker, name);
        let tested = lower_node(started, vars, condition, delta, typechecker);
        if let Ok(flag) = tested.result {
            let reserved = tested.unit.emit(
                Op::Brif { condition: flag, then_branch: zero, else_branch: zero },
            );
            law_binding_lasts(reserved, tested.vars, then_block, delta, typechecker, name);
            let taken = lower_node(reserved, tested.vars, then_block, delta, typechecker);
            if let Ok(then_value) = taken.result {
                if let Some(else_node) = else_expression {
                    let skipping = taken.unit.mov(unit.next_register(), then_value).emit(
                        Op::Jmp { location: zero },
                    );
                    law_binding_lasts(skipping, taken.vars, else_node, delta, typechecker, name);
                }
            }
        }
    }
}

/// Lowering a loop that binds nothing to a variable leaves the variable's
/// binding.
proof fn lemma_while_keeps(
    unit: Unit,
    vars: Map<usize, RegisterId>,
    condition: NodeId,
    block: NodeId,
    delta: EngineDelta,
    typechecker: TypeChecker,
    name: usize,
)
    requires
        vars.contains_key(name),
        !binds(condition, name, delta),
        !binds(block, name, delta),
    ensures
        keeps(vars, lower_while(unit, vars, condition, block, delta, typechecker).vars, name),
    decreases 2 * greater(condition.0 as nat, block.0 as nat) + 2, 0nat,
{
    let started = unit.push_register(0, VOID_TYPE);
    law_binding_lasts(started, vars, condition, delta, typechecker, name);
    let tested = lower_node(started, vars, condition, delta, typechecker);
    if let Ok(flag) = tested.result {
        let reserved = tested.unit.emit(
            Op::Brif {
                condition: flag,
                then_branch: InstructionId(0),
                else_branch: InstructionId(0),
            },
        );
        law_binding_lasts(reserved, tested.vars, block, delta, typechecker, name);
    }
}

/// Lowering statements that bind nothing to a variable leaves the
/// variable's binding.
proof fn lemma_statements_keep(
    unit: Unit,
    vars: Map<usize, RegisterId>,
    nodes: Seq<NodeId>,
    delta: EngineDelta,
    typechecker: TypeChecker,
    name: usize,
)
    requires
        vars.contains_key(name),
        !binds_any(nodes, name, delta),
    ensures
        keeps(vars, lower_statements(unit, vars, nodes, delta, typechecker).vars, name),
    decreases 2 * id_bound(nodes), nodes.len(),
{
    if nodes.len() == 1 {
        assert(nodes.last() == nodes[0]);
        law_binding_lasts(unit, vars, nodes[0], delta, typechecker, name);
    } else if nodes.len() > 1 {
        lemma_statements_keep(unit, vars, nodes.drop_last(), delta, typechecker, name);
        let before = lower_statements(unit, vars, nodes.drop_last(), delta, typechecker);
        if before.result is Ok {
            law_binding_lasts(before.unit, before.vars, nodes.last(), delta, typechecker, name);
        }
    }
}

/// Lowering a block that binds nothing to a variable leaves the variable's
/// binding.
proof fn lemma_block_keeps(
    unit: Unit,
    vars: Map<usize, RegisterId>,
    nodes: Seq<NodeId>,
    delta: EngineDelta,
    typechecker: TypeChecker,
    name: usize,
)
    requires
        vars.contains_key(name),
        !binds_any(nodes, name, delta),
    ensures
        keeps(vars, lower_block(unit, vars, nodes, delta, typechecker).vars, name),
    decreases 2 * id_bound(nodes), nodes.len() + 1,
{
    if nodes.len() > 0 {
        lemma_statements_keep(unit, vars, nodes, delta, typechecker, name);
    }
}

/// Lowering arguments that bind nothing to a variable leaves the variable's
/// binding.
proof fn lemma_arguments_keep(
    unit: Unit,
    vars: Map<usize, RegisterId>,
    args: Seq<NodeId>,
    delta: EngineDelta,
    typechecker: TypeChecker,
    name: usize,
)
    requires
        vars.contains_key(name),
        !binds_any(args, name, delta),
    ensures
        keeps(vars, lower_arguments(unit, vars, args, delta, typechecker).vars, name),
    decreases 2 * id_bound(args), args.len(),
{
    if args.len() > 0 {
        lemma_arguments_keep(unit, vars, args.drop_last(), delta, typechecker, name);
        let before = lower_arguments(unit, vars, args.drop_last(), delta, typechecker);
        if before.result is Ok {
            law_binding_lasts(before.unit, before.vars, args.last(), delta, typechecker, name);
        }
    }
}

/// Lowering a call that binds nothing to a variable leaves the variable's
/// binding.
proof fn lemma_call_keeps(
    unit: Unit,
    vars: Map<usize, RegisterId>,
    head: NodeId,
    args: Seq<NodeId>,
    delta: EngineDelta,
    typechecker: TypeChecker,
    name: usize,
)
    requires
        vars.contains_key(name),
        !binds_any(args, name, delta),
    ensures
        keeps(vars, lower_call(unit, vars, head, args, delta, typechecker).vars, name),
    decreases 2 * id_bound(args), args.len() + 1,
{
    let started = unit.push_register(0, VOID_TYPE);
    if typechecker.call_resolution@.contains_key(head.0) {
        lemma_arguments_keep(started, vars, args, delta, typechecker, name);
    }
}

} // verus!
