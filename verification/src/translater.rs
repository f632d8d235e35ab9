//! The translator: walks an annotated syntax tree once and builds the unit
//! that the lowering rules describe.

use vstd::prelude::*;
use std::collections::HashMap;
use crate::codegen::{FunctionCodegen, Unit};
use crate::ids::{InstructionId, NodeId, RegisterId, VOID_TYPE};
use crate::instruction::Instruction;
use crate::literal::parse_int;
use crate::lowering::{
    bound_of, greater, lower_arguments, lower_binop, lower_block, lower_call, lower_float,
    lower_if, lower_int, lower_let, lower_node, lower_statements, lower_tree, lower_variable,
    lower_while, Lowered, LoweredList, TranslateError,
};
use crate::soundness::{
    bound_in, lemma_arguments_sound, lemma_binop_sound, lemma_block_sound, lemma_call_sound,
    lemma_if_sound, lemma_let_sound, lemma_node_sound, lemma_sound_unit_same,
    lemma_statements_sound, lemma_tree_sound, lemma_while_sound, sound, sound_list,
};
use crate::syntax::{all_below, AstNode, EngineDelta, id_bound, lemma_id_bound_covers};
use crate::typechecker::TypeChecker;

verus! {

broadcast use vstd::std_specs::hash::group_hash_axioms;

/// The translator. It remembers, for each defining node lowered so far, the
/// register that holds the variable: a variable has no storage of its own,
/// it is another name for the register of its initializer.
pub struct Translater {
    pub var_lookup: HashMap<usize, RegisterId>,
}

impl View for Translater {
    type V = Map<usize, RegisterId>;

    open spec fn view(&self) -> Map<usize, RegisterId> {
        self.var_lookup@
    }
}

/// Whether a translator that started with the unit `before` and the bindings
/// `before_vars`, and ended with `unit`, `vars` and the answer `r`, did what
/// the rule `lowered` describes. Where the rule succeeds, what it describes
/// is sound.
pub open spec fn translated(
    before: Unit,
    before_vars: Map<usize, RegisterId>,
    unit: Unit,
    vars: Map<usize, RegisterId>,
    r: Result<RegisterId, TranslateError>,
    lowered: Lowered,
) -> bool {
    &&& lowered == (Lowered { unit, vars, result: r })
    &&& r is Ok ==> sound(before, before_vars, lowered)
}

/// Statements after one that cannot be lowered are not looked at.
proof fn lemma_statements_stop(
    unit: Unit,
    vars: Map<usize, RegisterId>,
    nodes: Seq<NodeId>,
    done: int,
    delta: EngineDelta,
    typechecker: TypeChecker,
)
    requires
        0 < done <= nodes.len(),
        lower_statements(unit, vars, nodes.take(done), delta, typechecker).result is Err,
    ensures
        lower_statements(unit, vars, nodes, delta, typechecker) == lower_statements(
            unit,
            vars,
            nodes.take(done),
            delta,
            typechecker,
        ),
    decreases nodes.len() - done,
{
    if done < nodes.len() {
        let next = nodes.take(done + 1);
        assert(next.drop_last() =~= nodes.take(done));
        lemma_statements_stop(unit, vars, nodes, done + 1, delta, typechecker);
    } else {
        assert(nodes.take(done) =~= nodes);
    }
}

/// Arguments after one that cannot be lowered are not looked at.
proof fn lemma_arguments_stop(
    unit: Unit,
    vars: Map<usize, RegisterId>,
    args: Seq<NodeId>,
    done: int,
    delta: EngineDelta,
    typechecker: TypeChecker,
)
    requires
        0 <= done <= args.len(),
        lower_arguments(unit, vars, args.take(done), delta, typechecker).result is Err,
    ensures
        lower_arguments(unit, vars, args, delta, typechecker) == lower_arguments(
            unit,
            vars,
            args.take(done),
            delta,
            typechecker,
        ),
    decreases args.len() - done,
{
    if done < args.len() {
        let next = args.take(done + 1);
        assert(next.drop_last() =~= args.take(done));
        lemma_arguments_stop(unit, vars, args, done + 1, delta, typechecker);
    } else {
        assert(args.take(done) =~= args);
    }
}

impl Translater {
    /// A translator without bindings.
    pub fn new() -> (translater: Translater)
        ensures
            translater@ == Map::<usize, RegisterId>::empty(),
    {
        Translater { var_lookup: HashMap::new() }
    }

    /// Lowers a whole tree to a unit of its own. Bindings that the translator
    /// holds from an earlier tree are forgotten first.
    ///
    /// Evaluating the unit leaves the value of the tree's root in register 0,
    /// whose tag is the type of the root; for an empty tree register 0 is
    /// void.
    pub fn translate(&mut self, delta: &EngineDelta, typechecker: &TypeChecker) -> (r: Result<
        FunctionCodegen,
        TranslateError,
    >)
        ensures
            match r {
                Ok(unit) => {
                    &&& lower_tree(*delta, *typechecker) == (Lowered {
                        unit: unit@,
                        vars: final(self)@,
                        result: Ok(RegisterId(0)),
                    })
                    &&& sound(Unit::empty(), Map::empty(), lower_tree(*delta, *typechecker))
                    &&& unit.wf()
                    &&& unit@.values.len() > 0
                    &&& unit@.pc == 0
                    &&& unit@.types[0] == (if delta.ast_nodes@.len() == 0 {
                        VOID_TYPE
                    } else {
                        typechecker.node_types@[delta.ast_nodes@.len() - 1]
                    })
                },
                Err(e) => lower_tree(*delta, *typechecker).result == Err::<
                    RegisterId,
                    TranslateError,
                >(e),
            },
    {
        self.var_lookup.clear();
        let mut builder = FunctionCodegen::new();
        if delta.ast_nodes.len() == 0 {
            let slot = builder.new_register(VOID_TYPE);
            proof {
                builder.lemma_sizes();
                lemma_tree_sound(*delta, *typechecker);
            }
            return Ok(builder);
        }
        let root = NodeId(delta.ast_nodes.len() - 1);
        if root.0 >= typechecker.node_types.len() {
            return Err(TranslateError::MissingType(root));
        }
        let slot = builder.new_register(typechecker.node_types[root.0]);
        let ghost started = builder@;
        match self.translate_node(&mut builder, root, delta, typechecker) {
            Ok(value) => {
                assert(builder@.types[0] == started.types[0]);
                builder.mov(slot, value);
                proof {
                    builder.lemma_sizes();
                    lemma_tree_sound(*delta, *typechecker);
                }
                Ok(builder)
            },
            Err(e) => Err(e),
        }
    }

    /// Lowers the node `node_id` by the rule for its kind.
    pub fn translate_node(
        &mut self,
        builder: &mut FunctionCodegen,
        node_id: NodeId,
        delta: &EngineDelta,
        typechecker: &TypeChecker,
    ) -> (r: Result<RegisterId, TranslateError>)
        requires
            old(builder).wf(),
            bound_in(old(self)@, old(builder)@),
        ensures
            translated(
                old(builder)@,
                old(self)@,
                final(builder)@,
                final(self)@,
                r,
                lower_node(old(builder)@, old(self)@, node_id, *delta, *typechecker),
            ),
        decreases 2 * node_id.0 + 1, 0nat,
    {
        if node_id.0 >= delta.ast_nodes.len() {
            return Err(TranslateError::MalformedTree(node_id));
        }
        let r = match &delta.ast_nodes[node_id.0] {
            AstNode::Int => self.translate_int(builder, node_id, delta),
            AstNode::Float => self.translate_float(builder, node_id, delta),
            AstNode::True => Ok(builder.bool_const(true)),
            AstNode::False => Ok(builder.bool_const(false)),
            AstNode::Variable => self.translate_variable(node_id, typechecker),
            AstNode::BinaryOp { lhs, op, rhs } => {
                if lhs.0 < node_id.0 && rhs.0 < node_id.0 {
                    self.translate_binop(builder, *lhs, *op, *rhs, delta, typechecker)
                } else {
                    Err(TranslateError::MalformedTree(node_id))
                }
            },
            AstNode::Block(nodes) => {
                if all_below(nodes.as_slice(), node_id.0) {
                    self.translate_block(builder, nodes.as_slice(), delta, typechecker)
                } else {
                    Err(TranslateError::MalformedTree(node_id))
                }
            },
            AstNode::Let { variable_name, initializer, .. } => {
                if initializer.0 < node_id.0 {
                    self.translate_let(builder, *variable_name, *initializer, delta, typechecker)
                } else {
                    Err(TranslateError::MalformedTree(node_id))
                }
            },
            AstNode::Statement(inner) => {
                if inner.0 < node_id.0 {
                    self.translate_node(builder, *inner, delta, typechecker)
                } else {
                    Err(TranslateError::MalformedTree(node_id))
                }
            },
            AstNode::If { condition, then_block, else_expression } => {
                let else_before = match else_expression {
                    Some(else_node) => else_node.0 < node_id.0,
                    None => true,
                };
                if condition.0 < node_id.0 && then_block.0 < node_id.0 && else_before {
                    self.translate_if(
                        builder,
                        node_id,
                        *condition,
                        *then_block,
                        *else_expression,
                        delta,
                        typechecker,
                    )
                } else {
                    Err(TranslateError::MalformedTree(node_id))
                }
            },
            AstNode::While { condition, block } => {
                if condition.0 < node_id.0 && block.0 < node_id.0 {
                    self.translate_while(builder, *condition, *block, delta, typechecker)
                } else {
                    Err(TranslateError::MalformedTree(node_id))
                }
            },
            AstNode::Call { head, args } => {
                if all_below(args.as_slice(), node_id.0) {
                    self.translate_call(builder, *head, args.as_slice(), delta, typechecker)
                } else {
                    Err(TranslateError::MalformedTree(node_id))
                }
            },
            _ => Err(TranslateError::UnsupportedNode(node_id)),
        };
        proof {
            if r is Ok {
                builder.lemma_sizes();
                lemma_node_sound(old(builder)@, old(self)@, node_id, *delta, *typechecker);
            }
        }
        r
    }

    /// Lowers an integer literal: a new integer register that holds the
    /// number which the node's text denotes.
    pub fn translate_int(
        &mut self,
        builder: &mut FunctionCodegen,
        node_id: NodeId,
        delta: &EngineDelta,
    ) -> (r: Result<RegisterId, TranslateError>)
        requires
            old(builder).wf(),
        ensures
            final(self)@ == old(self)@,
            lower_int(old(builder)@, old(self)@, node_id, *delta) == (Lowered {
                unit: final(builder)@,
                vars: final(self)@,
                result: r,
            }),
            final(builder).wf(),
    {
        let text = match delta.span(node_id) {
            Some((start, end)) => vstd::slice::slice_subrange(delta.contents.as_slice(), start, end),
            None => {
                return Err(TranslateError::MalformedLiteral(node_id));
            },
        };
        match parse_int(text) {
            Some(value) => Ok(builder.i64_const(value)),
            None => Err(TranslateError::MalformedLiteral(node_id)),
        }
    }

    /// Lowers a floating-point literal: a new floating-point register that
    /// holds the bit pattern which the parse result gives for the node.
    pub fn translate_float(
        &mut self,
        builder: &mut FunctionCodegen,
        node_id: NodeId,
        delta: &EngineDelta,
    ) -> (r: Result<RegisterId, TranslateError>)
        requires
            old(builder).wf(),
        ensures
            final(self)@ == old(self)@,
            lower_float(old(builder)@, old(self)@, node_id, *delta) == (Lowered {
                unit: final(builder)@,
                vars: final(self)@,
                result: r,
            }),
            final(builder).wf(),
    {
        match delta.float_values.get(&node_id.0) {
            Some(bits) => Ok(builder.f64_const(*bits)),
            None => Err(TranslateError::MalformedLiteral(node_id)),
        }
    }

    /// Lowers a binary operation: the left operand, then the right operand,
    /// then the operator on their registers.
    pub fn translate_binop(
        &mut self,
        builder: &mut FunctionCodegen,
        lhs: NodeId,
        op: NodeId,
        rhs: NodeId,
        delta: &EngineDelta,
        typechecker: &TypeChecker,
    ) -> (r: Result<RegisterId, TranslateError>)
        requires
            old(builder).wf(),
            bound_in(old(self)@, old(builder)@),
        ensures
            translated(
                old(builder)@,
                old(self)@,
                final(builder)@,
                final(self)@,
                r,
                lower_binop(old(builder)@, old(self)@, lhs, op, rhs, *delta, *typechecker),
            ),
        decreases 2 * greater(lhs.0 as nat, rhs.0 as nat) + 2, 0nat,
    {
        let left = match self.translate_node(builder, lhs, delta, typechecker) {
            Ok(register) => register,
            Err(e) => {
                return Err(e);
            },
        };
        let right = match self.translate_node(builder, rhs, delta, typechecker) {
            Ok(register) => register,
            Err(e) => {
                return Err(e);
            },
        };
        let r = if op.0 >= delta.ast_nodes.len() {
            Err(TranslateError::UnsupportedOperator(op))
        } else {
            let built = match &delta.ast_nodes[op.0] {
                AstNode::Plus => Some(builder.add(left, right)),
                AstNode::Minus => Some(builder.sub(left, right)),
                AstNode::Multiply => Some(builder.mul(left, right)),
                AstNode::Divide => Some(builder.div(left, right)),
                AstNode::LessThan => Some(builder.lt(left, right)),
                AstNode::LessThanOrEqual => Some(builder.lte(left, right)),
                AstNode::GreaterThan => Some(builder.gt(left, right)),
                AstNode::GreaterThanOrEqual => Some(builder.gte(left, right)),
                AstNode::Assignment => Some(Ok(builder.mov(left, right))),
                _ => None,
            };
            match built {
                Some(Ok(target)) => Ok(target),
                Some(Err(e)) => Err(TranslateError::UnsupportedOperand { operator: op, ty: e.ty }),
                None => Err(TranslateError::UnsupportedOperator(op)),
            }
        };
        proof {
            if r is Ok {
                builder.lemma_sizes();
                lemma_binop_sound(old(builder)@, old(self)@, lhs, op, rhs, *delta, *typechecker);
            }
        }
        r
    }

    /// Lowers a binding: the initializer, whose register the defining node
    /// `variable_name` is then bound to.
    pub fn translate_let(
        &mut self,
        builder: &mut FunctionCodegen,
        variable_name: NodeId,
        initializer: NodeId,
        delta: &EngineDelta,
        typechecker: &TypeChecker,
    ) -> (r: Result<RegisterId, TranslateError>)
        requires
            old(builder).wf(),
            bound_in(old(self)@, old(builder)@),
        ensures
            translated(
                old(builder)@,
                old(self)@,
                final(builder)@,
                final(self)@,
                r,
                lower_let(old(builder)@, old(self)@, variable_name, initializer, *delta, *typechecker),
            ),
        decreases 2 * initializer.0 + 2, 0nat,
    {
        match self.translate_node(builder, initializer, delta, typechecker) {
            Ok(register) => {
                self.var_lookup.insert(variable_name.0, register);
                proof {
                    builder.lemma_sizes();
                    lemma_let_sound(
                        old(builder)@,
                        old(self)@,
                        variable_name,
                        initializer,
                        *delta,
                        *typechecker,
                    );
                }
                Ok(register)
            },
            Err(e) => Err(e),
        }
    }

    /// Lowers a variable reference: the register bound to the definition
    /// that the reference resolves to.
    pub fn translate_variable(&mut self, variable_name: NodeId, typechecker: &TypeChecker) -> (r:
        Result<RegisterId, TranslateError>)
        ensures
            final(self)@ == old(self)@,
            forall|unit: Unit|
                #[trigger] lower_variable(unit, old(self)@, variable_name, *typechecker) == (Lowered {
                    unit,
                    vars: final(self)@,
                    result: r,
                }),
    {
        let def_site = match typechecker.variable_def.get(&variable_name.0) {
            Some(def_site) => *def_site,
            None => {
                return Err(TranslateError::UnresolvedVariable(variable_name));
            },
        };
        match self.var_lookup.get(&def_site.0) {
            Some(register) => Ok(*register),
            None => Err(TranslateError::UndefinedVariable(variable_name)),
        }
    }

    /// Lowers a conditional: reserves a branch after the condition, lowers
    /// the `then` block and, behind a reserved jump, the `else` expression,
    /// and patches branch and jump once the positions they lead to are known.
    pub fn translate_if(
        &mut self,
        builder: &mut FunctionCodegen,
        node_id: NodeId,
        condition: NodeId,
        then_block: NodeId,
        else_expression: Option<NodeId>,
        delta: &EngineDelta,
        typechecker: &TypeChecker,
    ) -> (r: Result<RegisterId, TranslateError>)
        requires
            old(builder).wf(),
            bound_in(old(self)@, old(builder)@),
        ensures
            translated(
                old(builder)@,
                old(self)@,
                final(builder)@,
                final(self)@,
                r,
                lower_if(
                    old(builder)@,
                    old(self)@,
                    node_id,
                    condition,
                    then_block,
                    else_expression,
                    *delta,
                    *typechecker,
                ),
            ),
        decreases
            2 * greater(
                greater(condition.0 as nat, then_block.0 as nat) + 1,
                bound_of(else_expression),
            ),
            0nat,
    {
        if node_id.0 >= typechecker.node_types.len() {
            return Err(TranslateError::MissingType(node_id));
        }
        let output = builder.new_register(typechecker.node_types[node_id.0]);
        let flag = match self.translate_node(builder, condition, delta, typechecker) {
            Ok(register) => register,
            Err(e) => {
                return Err(e);
            },
        };
        let brif_location = builder.next_position();
        builder.brif(output, flag, InstructionId(0), InstructionId(0));
        let ghost reserved = builder@;

        let then_branch = InstructionId(builder.next_position());
        let then_output = match self.translate_node(builder, then_block, delta, typechecker) {
            Ok(register) => register,
            Err(e) => {
                return Err(e);
            },
        };
        assert(builder@.code[brif_location as int] == reserved.code[brif_location as int]);
        builder.mov(output, then_output);

        let else_branch = if let Some(else_expression) = else_expression {
            // A jump with a placeholder target, replaced when the end is known.
            let jmp_location = builder.next_position();
            builder.jmp(InstructionId(0));
            let ghost skipping = builder@;

            let else_location = builder.next_position();
            let else_output = match self.translate_node(
                builder,
                else_expression,
                delta,
                typechecker,
            ) {
                Ok(register) => register,
                Err(e) => {
                    return Err(e);
                },
            };
            assert(builder@.code[jmp_location as int] == skipping.code[jmp_location as int]);
            assert(builder@.code[brif_location as int] == skipping.code[brif_location as int]);
            builder.mov(output, else_output);

            let after_if = builder.next_position();
            builder.patch_jump(InstructionId(jmp_location), InstructionId(after_if));
            InstructionId(else_location)
        } else {
            InstructionId(builder.next_position())
        };

        builder.patch_branch(InstructionId(brif_location), then_branch, else_branch);
        proof {
            builder.lemma_sizes();
            lemma_if_sound(
                old(builder)@,
                old(self)@,
                node_id,
                condition,
                then_block,
                else_expression,
                *delta,
                *typechecker,
            );
        }
        Ok(output)
    }

    /// Lowers a loop: the condition, a reserved branch, the body and a jump
    /// back to the condition; the branch is patched to lead into the body
    /// and past the jump.
    pub fn translate_while(
        &mut self,
        builder: &mut FunctionCodegen,
        condition: NodeId,
        block: NodeId,
        delta: &EngineDelta,
        typechecker: &TypeChecker,
    ) -> (r: Result<RegisterId, TranslateError>)
        requires
            old(builder).wf(),
            bound_in(old(self)@, old(builder)@),
        ensures
            translated(
                old(builder)@,
                old(self)@,
                final(builder)@,
                final(self)@,
                r,
                lower_while(old(builder)@, old(self)@, condition, block, *delta, *typechecker),
            ),
        decreases 2 * greater(condition.0 as nat, block.0 as nat) + 2, 0nat,
    {
        let output = builder.new_register(VOID_TYPE);

        let top = builder.next_position();
        let flag = match self.translate_node(builder, condition, delta, typechecker) {
            Ok(register) => register,
            Err(e) => {
                return Err(e);
            },
        };
        let brif_location = builder.next_position();
        builder.brif(output, flag, InstructionId(0), InstructionId(0));
        let ghost reserved = builder@;

        let block_begin = InstructionId(builder.next_position());
        match self.translate_node(builder, block, delta, typechecker) {
            Ok(_) => {},
            Err(e) => {
                return Err(e);
            },
        }
        assert(builder@.code[brif_location as int] == reserved.code[brif_location as int]);
        builder.jmp(InstructionId(top));

        let block_end = InstructionId(builder.next_position());
        builder.patch_branch(InstructionId(brif_location), block_begin, block_end);
        proof {
            builder.lemma_sizes();
            lemma_while_sound(old(builder)@, old(self)@, condition, block, *delta, *typechecker);
        }
        Ok(output)
    }

    /// Lowers a block: its statements in order, with the value of the last.
    /// An empty block is a new void register.
    pub fn translate_block(
        &mut self,
        builder: &mut FunctionCodegen,
        nodes: &[NodeId],
        delta: &EngineDelta,
        typechecker: &TypeChecker,
    ) -> (r: Result<RegisterId, TranslateError>)
        requires
            old(builder).wf(),
            bound_in(old(self)@, old(builder)@),
        ensures
            translated(
                old(builder)@,
                old(self)@,
                final(builder)@,
                final(self)@,
                r,
                lower_block(old(builder)@, old(self)@, nodes@, *delta, *typechecker),
            ),
        decreases 2 * id_bound(nodes@), nodes@.len() + 1,
    {
        if nodes.len() == 0 {
            let output = builder.new_register(VOID_TYPE);
            proof {
                builder.lemma_sizes();
                lemma_block_sound(old(builder)@, old(self)@, nodes@, *delta, *typechecker);
            }
            return Ok(output);
        }
        let ghost start = old(builder)@;
        let ghost start_vars = old(self)@;
        proof {
            lemma_id_bound_covers(nodes@);
            assert(nodes@.take(1).len() == 1);
            assert(nodes@.take(1)[0] == nodes@[0]);
        }
        let mut output = match self.translate_node(builder, nodes[0], delta, typechecker) {
            Ok(register) => register,
            Err(e) => {
                proof {
                    lemma_statements_stop(start, start_vars, nodes@, 1, *delta, *typechecker);
                }
                return Err(e);
            },
        };
        let mut idx: usize = 1;
        while idx < nodes.len()
            invariant
                1 <= idx <= nodes@.len(),
                start == old(builder)@,
                start_vars == old(self)@,
                start.wf(),
                bound_in(start_vars, start),
                forall|i: int| 0 <= i < nodes@.len() ==> (#[trigger] nodes@[i]).0 < id_bound(nodes@),
                translated(
                    start,
                    start_vars,
                    builder@,
                    self@,
                    Ok(output),
                    lower_statements(start, start_vars, nodes@.take(idx as int), *delta, *typechecker),
                ),
            decreases nodes@.len() - idx,
        {
            proof {
                let next = nodes@.take(idx + 1);
                assert(next.drop_last() =~= nodes@.take(idx as int));
                assert(next.last() == nodes@[idx as int]);
            }
            match self.translate_node(builder, nodes[idx], delta, typechecker) {
                Ok(register) => {
                    output = register;
                },
                Err(e) => {
                    proof {
                        lemma_statements_stop(
                            start,
                            start_vars,
                            nodes@,
                            idx + 1,
                            *delta,
                            *typechecker,
                        );
                    }
                    return Err(e);
                },
            }
            idx += 1;
            proof {
                builder.lemma_sizes();
                lemma_statements_sound(
                    start,
                    start_vars,
                    nodes@.take(idx as int),
                    *delta,
                    *typechecker,
                );
            }
        }
        assert(nodes@.take(idx as int) =~= nodes@);
        Ok(output)
    }

    /// Lowers a call: a void result register, the arguments left to right,
    /// and one call instruction on the function that `head` resolves to.
    pub fn translate_call(
        &mut self,
        builder: &mut FunctionCodegen,
        head: NodeId,
        args: &[NodeId],
        delta: &EngineDelta,
        typechecker: &TypeChecker,
    ) -> (r: Result<RegisterId, TranslateError>)
        requires
            old(builder).wf(),
            bound_in(old(self)@, old(builder)@),
        ensures
            translated(
                old(builder)@,
                old(self)@,
                final(builder)@,
                final(self)@,
                r,
                lower_call(old(builder)@, old(self)@, head, args@, *delta, *typechecker),
            ),
        decreases 2 * id_bound(args@), args@.len() + 1,
    {
        let output = builder.new_register(VOID_TYPE);
        let ghost start = builder@;
        let ghost start_vars = self@;

        let function = match typechecker.call_resolution.get(&head.0) {
            Some(function) => *function,
            None => {
                return Err(TranslateError::UnresolvedCall(head));
            },
        };
        let mut translated_args: Vec<RegisterId> = Vec::new();
        let mut idx: usize = 0;
        proof {
            lemma_id_bound_covers(args@);
            lemma_sound_unit_same(start, start_vars);
        }
        while idx < args.len()
            invariant
                0 <= idx <= args@.len(),
                typechecker.call_resolution@.contains_key(head.0),
                function == typechecker.call_resolution@[head.0],
                output == old(builder)@.next_register(),
                start == old(builder)@.push_register(0, VOID_TYPE),
                start_vars == old(self)@,
                start.wf(),
                bound_in(start_vars, start),
                forall|i: int| 0 <= i < args@.len() ==> (#[trigger] args@[i]).0 < id_bound(args@),
                lower_arguments(start, start_vars, args@.take(idx as int), *delta, *typechecker) == (
                LoweredList { unit: builder@, vars: self@, result: Ok(translated_args@) }),
                sound_list(
                    start,
                    start_vars,
                    lower_arguments(start, start_vars, args@.take(idx as int), *delta, *typechecker),
                ),
            decreases args@.len() - idx,
        {
            proof {
                let next = args@.take(idx + 1);
                assert(next.drop_last() =~= args@.take(idx as int));
                assert(next.last() == args@[idx as int]);
            }
            match self.translate_node(builder, args[idx], delta, typechecker) {
                Ok(register) => {
                    translated_args.push(register);
                },
                Err(e) => {
                    proof {
                        assert(lower_arguments(
                            start,
                            start_vars,
                            args@.take(idx + 1),
                            *delta,
                            *typechecker,
                        ) == (LoweredList { unit: builder@, vars: self@, result: Err(e) }));
                        lemma_arguments_stop(
                            start,
                            start_vars,
                            args@,
                            idx + 1,
                            *delta,
                            *typechecker,
                        );
                    }
                    return Err(e);
                },
            }
            idx += 1;
            proof {
                builder.lemma_sizes();
                lemma_arguments_sound(
                    start,
                    start_vars,
                    args@.take(idx as int),
                    *delta,
                    *typechecker,
                );
            }
        }
        assert(args@.take(idx as int) =~= args@);
        builder.external_call(function, translated_args, output);
        proof {
            builder.lemma_sizes();
            lemma_call_sound(old(builder)@, old(self)@, head, args@, *delta, *typechecker);
        }
        Ok(output)
    }
}

} // verus!
