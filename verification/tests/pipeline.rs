use std::collections::HashMap;

use truffle::{
    AstNode, EngineDelta, Fault, FaultKind, FnRecord, FunctionCodegen, FunctionId, Instruction,
    InstructionId, NodeId, Operation, Outcome, RegisterId, TranslateError, Translater, TypeChecker,
    TypeId, Value, BOOL_TYPE, F64_TYPE, I64_TYPE, VOID_TYPE,
};

/// A syntax tree under construction, with the tables of the type model.
struct Script {
    delta: EngineDelta,
    types: TypeChecker,
}

impl Script {
    fn new() -> Script {
        Script { delta: EngineDelta::new(Vec::new()), types: TypeChecker::new() }
    }

    fn node(&mut self, node: AstNode, text: &str, ty: TypeId) -> NodeId {
        let start = self.delta.contents.len();
        self.delta.contents.extend_from_slice(text.as_bytes());
        let end = self.delta.contents.len();
        self.delta.contents.push(b' ');
        self.types.node_types.push(ty);
        self.delta.push_node(node, start, end)
    }

    fn integer(&mut self, text: &str) -> NodeId {
        self.node(AstNode::Int, text, I64_TYPE)
    }

    fn floating(&mut self, text: &str) -> NodeId {
        let id = self.node(AstNode::Float, text, F64_TYPE);
        if let Ok(value) = text.parse::<f64>() {
            self.delta.float_values.insert(id.0, value.to_bits() as i64);
        }
        id
    }

    fn boolean(&mut self, value: bool) -> NodeId {
        if value {
            self.node(AstNode::True, "true", BOOL_TYPE)
        } else {
            self.node(AstNode::False, "false", BOOL_TYPE)
        }
    }

    fn binary(&mut self, lhs: NodeId, op: AstNode, rhs: NodeId, ty: TypeId) -> NodeId {
        let op = self.node(op, "op", VOID_TYPE);
        self.node(AstNode::BinaryOp { lhs, op, rhs }, "", ty)
    }

    fn let_(&mut self, initializer: NodeId, ty: TypeId) -> NodeId {
        let variable_name = self.node(AstNode::Name, "x", VOID_TYPE);
        self.node(
            AstNode::Let { variable_name, ty: None, is_mutable: true, initializer },
            "",
            ty,
        );
        variable_name
    }

    fn variable(&mut self, definition: NodeId, ty: TypeId) -> NodeId {
        let id = self.node(AstNode::Variable, "x", ty);
        self.types.variable_def.insert(id.0, definition);
        id
    }

    fn block(&mut self, nodes: Vec<NodeId>, ty: TypeId) -> NodeId {
        self.node(AstNode::Block(nodes), "", ty)
    }

    fn last(&self) -> NodeId {
        NodeId(self.delta.ast_nodes.len() - 1)
    }

    fn translate(&self) -> Result<FunctionCodegen, TranslateError> {
        Translater::new().translate(&self.delta, &self.types)
    }
}

fn float_unit(op: Operation, lhs: i64, rhs: i64) -> Value {
    let a = f64::from_bits(lhs as u64);
    let b = f64::from_bits(rhs as u64);
    match op {
        Operation::Add => Value::from_f64_bits((a + b).to_bits() as i64),
        Operation::Sub => Value::from_f64_bits((a - b).to_bits() as i64),
        Operation::Mul => Value::from_f64_bits((a * b).to_bits() as i64),
        Operation::Div => Value::from_f64_bits((a / b).to_bits() as i64),
        Operation::Lt => Value::from_bool(a < b),
        Operation::Lte => Value::from_bool(a <= b),
        Operation::Gt => Value::from_bool(a > b),
        Operation::Gte => Value::from_bool(a >= b),
    }
}

/// Runs a unit to its end, with `host` for the native functions.
fn run(
    unit: &mut FunctionCodegen,
    functions: &[FnRecord],
    host: &mut dyn FnMut(FunctionId, &[Value]) -> Value,
) -> Result<(i64, TypeId), Fault> {
    loop {
        match unit.eval(functions)? {
            Outcome::Finished { payload, ty } => return Ok((payload, ty)),
            Outcome::Float { op, lhs, rhs } => unit.resume(float_unit(op, lhs, rhs), functions)?,
            Outcome::Call { head, args } => {
                let answer = host(head, &args);
                unit.resume(answer, functions)?
            }
        }
    }
}

fn no_host(_: FunctionId, _: &[Value]) -> Value {
    panic!("no native function is registered")
}

fn evaluate(script: &Script) -> (i64, TypeId) {
    let mut unit = script.translate().expect("the tree lowers");
    run(&mut unit, &script.types.functions, &mut no_host).expect("the unit runs")
}

#[test]
fn integer_addition_yields_integer_five() {
    let mut s = Script::new();
    let two = s.integer("2");
    let three = s.integer("3");
    let sum = s.binary(two, AstNode::Plus, three, I64_TYPE);
    s.block(vec![sum], I64_TYPE);
    assert_eq!(evaluate(&s), (5, I64_TYPE));
}

#[test]
fn integer_addition_selects_the_integer_instruction() {
    let mut s = Script::new();
    let two = s.integer("2");
    let three = s.integer("3");
    s.binary(two, AstNode::Plus, three, I64_TYPE);
    let unit = s.translate().unwrap();
    assert!(matches!(unit.instructions[0], Instruction::IADD { .. }));
    assert_eq!(unit.register_types, vec![I64_TYPE, I64_TYPE, I64_TYPE, I64_TYPE]);
    assert_eq!(unit.register_values, vec![0, 2, 3, 0]);
}

#[test]
fn float_addition_yields_float_five() {
    let mut s = Script::new();
    let two = s.floating("2.0");
    let three = s.floating("3.0");
    let sum = s.binary(two, AstNode::Plus, three, F64_TYPE);
    s.block(vec![sum], F64_TYPE);
    let unit = s.translate().unwrap();
    assert!(matches!(unit.instructions[0], Instruction::FADD { .. }));
    let (payload, ty) = evaluate(&s);
    assert_eq!(ty, F64_TYPE);
    assert_eq!(f64::from_bits(payload as u64), 5.0);
}

#[test]
fn float_payload_round_trips_bit_for_bit() {
    for text in ["0.1", "-0.0", "1e308", "5e-324", "3.141592653589793"] {
        let mut s = Script::new();
        let literal = s.floating(text);
        s.block(vec![literal], F64_TYPE);
        let (payload, ty) = evaluate(&s);
        assert_eq!(ty, F64_TYPE);
        assert_eq!(payload as u64, text.parse::<f64>().unwrap().to_bits());
    }
}

#[test]
fn float_comparison_yields_boolean() {
    let mut s = Script::new();
    let a = s.floating("1.5");
    let b = s.floating("2.5");
    let less = s.binary(a, AstNode::LessThan, b, BOOL_TYPE);
    s.block(vec![less], BOOL_TYPE);
    assert_eq!(evaluate(&s), (1, BOOL_TYPE));
}

#[test]
fn integer_comparisons_yield_zero_or_one() {
    let cases = [
        (AstNode::LessThan, 2, 3, 1),
        (AstNode::LessThan, 3, 3, 0),
        (AstNode::LessThanOrEqual, 3, 3, 1),
        (AstNode::LessThanOrEqual, 4, 3, 0),
        (AstNode::GreaterThan, 4, 3, 1),
        (AstNode::GreaterThan, 3, 3, 0),
        (AstNode::GreaterThanOrEqual, 3, 3, 1),
        (AstNode::GreaterThanOrEqual, 2, 3, 0),
    ];
    for (op, a, b, expected) in cases {
        let mut s = Script::new();
        let lhs = s.integer(&a.to_string());
        let rhs = s.integer(&b.to_string());
        let compared = s.binary(lhs, op, rhs, BOOL_TYPE);
        s.block(vec![compared], BOOL_TYPE);
        assert_eq!(evaluate(&s), (expected, BOOL_TYPE));
    }
}

#[test]
fn integer_arithmetic_is_exact() {
    let cases = [
        (AstNode::Minus, "2", "3", -1),
        (AstNode::Multiply, "-4", "3", -12),
        (AstNode::Divide, "7", "2", 3),
        (AstNode::Divide, "-7", "2", -3),
        (AstNode::Divide, "7", "-2", -3),
        (AstNode::Divide, "-7", "-2", 3),
        (AstNode::Plus, "9223372036854775806", "1", i64::MAX),
    ];
    for (op, a, b, expected) in cases {
        let mut s = Script::new();
        let lhs = s.integer(a);
        let rhs = s.integer(b);
        let result = s.binary(lhs, op, rhs, I64_TYPE);
        s.block(vec![result], I64_TYPE);
        assert_eq!(evaluate(&s), (expected, I64_TYPE));
    }
}

#[test]
fn binding_aliases_the_register_of_its_initializer() {
    // let x = 1; x = x + 1; x
    let mut s = Script::new();
    let one = s.integer("1");
    let x = s.let_(one, I64_TYPE);
    let binding = s.last();
    let target = s.variable(x, I64_TYPE);
    let read = s.variable(x, I64_TYPE);
    let step = s.integer("1");
    let sum = s.binary(read, AstNode::Plus, step, I64_TYPE);
    let assign = s.binary(target, AstNode::Assignment, sum, I64_TYPE);
    let again = s.variable(x, I64_TYPE);
    s.block(vec![binding, assign, again], I64_TYPE);

    let mut translater = Translater::new();
    let mut unit = translater.translate(&s.delta, &s.types).unwrap();
    // Register 0 is the result slot; the literal `1` is the first register after it.
    assert_eq!(translater.var_lookup.get(&x.0), Some(&RegisterId(1)));
    assert_eq!(run(&mut unit, &[], &mut no_host), Ok((2, I64_TYPE)));
    assert_eq!(unit.register_values[1], 2);
}

#[test]
fn two_names_for_one_register_see_each_others_assignments() {
    // let x = 1; let y = x; y = 5; x
    let mut s = Script::new();
    let one = s.integer("1");
    let x = s.let_(one, I64_TYPE);
    let first = s.last();
    let read = s.variable(x, I64_TYPE);
    let y = s.let_(read, I64_TYPE);
    let second = s.last();
    let target = s.variable(y, I64_TYPE);
    let five = s.integer("5");
    let assign = s.binary(target, AstNode::Assignment, five, I64_TYPE);
    let again = s.variable(x, I64_TYPE);
    s.block(vec![first, second, assign, again], I64_TYPE);
    assert_eq!(evaluate(&s), (5, I64_TYPE));
}

fn conditional(condition: bool, with_else: bool) -> Script {
    let mut s = Script::new();
    let flag = s.boolean(condition);
    let ten = s.integer("10");
    let then_block = s.block(vec![ten], I64_TYPE);
    let else_expression = if with_else {
        let twenty = s.integer("20");
        Some(s.block(vec![twenty], I64_TYPE))
    } else {
        None
    };
    let if_node =
        s.node(AstNode::If { condition: flag, then_block, else_expression }, "", I64_TYPE);
    s.block(vec![if_node], I64_TYPE);
    s
}

#[test]
fn conditional_with_true_condition_yields_then_branch() {
    let mut then_only = Script::new();
    let ten = then_only.integer("10");
    then_only.block(vec![ten], I64_TYPE);
    assert_eq!(evaluate(&conditional(true, true)), evaluate(&then_only));
    assert_eq!(evaluate(&conditional(true, true)), (10, I64_TYPE));
}

#[test]
fn conditional_with_false_condition_yields_else_branch() {
    let mut else_only = Script::new();
    let twenty = else_only.integer("20");
    else_only.block(vec![twenty], I64_TYPE);
    assert_eq!(evaluate(&conditional(false, true)), evaluate(&else_only));
    assert_eq!(evaluate(&conditional(false, true)), (20, I64_TYPE));
}

#[test]
fn conditional_without_else_skips_then_branch_when_false() {
    assert_eq!(evaluate(&conditional(true, false)), (10, I64_TYPE));
    assert_eq!(evaluate(&conditional(false, false)), (0, I64_TYPE));
}

#[test]
fn conditional_lays_out_branch_and_jump() {
    let unit = conditional(true, true).translate().unwrap();
    // r0 result slot, r1 the conditional's result, r2 flag, r3 = 10, r4 = 20
    let shape: Vec<String> = unit.instructions.iter().map(|i| format!("{:?}", i)).collect();
    assert_eq!(
        shape,
        vec![
            "BRIF { condition: RegisterId(2), then_branch: InstructionId(1), else_branch: InstructionId(3) }",
            "MOV { target: RegisterId(1), source: RegisterId(3) }",
            "JMP(InstructionId(4))",
            "MOV { target: RegisterId(1), source: RegisterId(4) }",
            "MOV { target: RegisterId(0), source: RegisterId(1) }",
        ]
    );
}

fn branch_targets(unit: &FunctionCodegen) -> Vec<(usize, usize)> {
    let mut targets = Vec::new();
    for (at, instruction) in unit.instructions.iter().enumerate() {
        match instruction {
            Instruction::BRIF { then_branch, else_branch, .. } => {
                targets.push((at, then_branch.0));
                targets.push((at, else_branch.0));
            }
            Instruction::JMP(InstructionId(location)) => targets.push((at, *location)),
            _ => {}
        }
    }
    targets
}

#[test]
fn nested_conditionals_are_patched_to_real_positions() {
    // if a { if b { 1 } else { 2 } } else { if c { 3 } else { 4 } }
    for (a, b, c, expected) in [
        (true, true, false, 1),
        (true, false, false, 2),
        (false, false, true, 3),
        (false, true, false, 4),
    ] {
        let mut s = Script::new();
        let flag_a = s.boolean(a);
        let flag_b = s.boolean(b);
        let one = s.integer("1");
        let two = s.integer("2");
        let inner_then =
            s.node(AstNode::If { condition: flag_b, then_block: one, else_expression: Some(two) }, "", I64_TYPE);
        let flag_c = s.boolean(c);
        let three = s.integer("3");
        let four = s.integer("4");
        let inner_else =
            s.node(AstNode::If { condition: flag_c, then_block: three, else_expression: Some(four) }, "", I64_TYPE);
        let outer = s.node(
            AstNode::If { condition: flag_a, then_block: inner_then, else_expression: Some(inner_else) },
            "",
            I64_TYPE,
        );
        s.block(vec![outer], I64_TYPE);
        let unit = s.translate().unwrap();
        let length = unit.instructions.len();
        let targets = branch_targets(&unit);
        assert_eq!(targets.len(), 9);
        for (at, target) in targets {
            assert!(target <= length);
            assert!(target > at, "a conditional only branches forward");
            assert_ne!(target, 0);
        }
        assert_eq!(evaluate(&s), (expected, I64_TYPE));
    }
}

fn counting_loop(bound: &str) -> (Script, NodeId) {
    // let x = 0; let n = 0; while x < bound { x = x + 1; n = n + 2 }; n
    let mut s = Script::new();
    let zero = s.integer("0");
    let x = s.let_(zero, I64_TYPE);
    let let_x = s.last();
    let zero = s.integer("0");
    let n = s.let_(zero, I64_TYPE);
    let let_n = s.last();
    let read = s.variable(x, I64_TYPE);
    let limit = s.integer(bound);
    let condition = s.binary(read, AstNode::LessThan, limit, BOOL_TYPE);
    let target = s.variable(x, I64_TYPE);
    let read = s.variable(x, I64_TYPE);
    let one = s.integer("1");
    let sum = s.binary(read, AstNode::Plus, one, I64_TYPE);
    let step_x = s.binary(target, AstNode::Assignment, sum, I64_TYPE);
    let target = s.variable(n, I64_TYPE);
    let read = s.variable(n, I64_TYPE);
    let two = s.integer("2");
    let sum = s.binary(read, AstNode::Plus, two, I64_TYPE);
    let step_n = s.binary(target, AstNode::Assignment, sum, I64_TYPE);
    let body = s.block(vec![step_x, step_n], I64_TYPE);
    let loop_node = s.node(AstNode::While { condition, block: body }, "", VOID_TYPE);
    let result = s.variable(n, I64_TYPE);
    s.block(vec![let_x, let_n, loop_node, result], I64_TYPE);
    (s, loop_node)
}

#[test]
fn loop_runs_its_body_bound_times() {
    for bound in [0i64, 1, 7, 100] {
        let (s, _) = counting_loop(&bound.to_string());
        assert_eq!(evaluate(&s), (2 * bound, I64_TYPE));
    }
}

#[test]
fn loop_leaves_its_void_result_register_alone() {
    let (s, _) = counting_loop("5");
    let mut unit = s.translate().unwrap();
    // r0 result slot, r1 and r2 the two variables, r3 the loop's own result register
    assert_eq!(unit.register_types[3], VOID_TYPE);
    assert_eq!(run(&mut unit, &[], &mut no_host), Ok((10, I64_TYPE)));
    assert_eq!(unit.register_values[1], 5);
    assert_eq!(unit.register_values[3], 0);
    assert_eq!(unit.register_types[3], VOID_TYPE);
}

#[test]
fn loop_as_root_yields_void() {
    let mut s = Script::new();
    let flag = s.boolean(false);
    let body = s.block(vec![], VOID_TYPE);
    s.node(AstNode::While { condition: flag, block: body }, "", VOID_TYPE);
    assert_eq!(evaluate(&s), (0, VOID_TYPE));
}

#[test]
fn loop_jumps_back_to_its_condition() {
    let mut s = Script::new();
    let flag = s.boolean(false);
    let body = s.block(vec![], VOID_TYPE);
    s.node(AstNode::While { condition: flag, block: body }, "", VOID_TYPE);
    let unit = s.translate().unwrap();
    let shape: Vec<String> = unit.instructions.iter().map(|i| format!("{:?}", i)).collect();
    assert_eq!(
        shape,
        vec![
            "BRIF { condition: RegisterId(2), then_branch: InstructionId(1), else_branch: InstructionId(2) }",
            "JMP(InstructionId(0))",
            "MOV { target: RegisterId(0), source: RegisterId(1) }",
        ]
    );
}

fn call_script(arguments: &[&str]) -> (Script, FunctionId) {
    let mut s = Script::new();
    let add_int = s
        .types
        .register_fn("add_int".to_string(), vec![I64_TYPE, I64_TYPE], I64_TYPE)
        .unwrap();
    let head = s.node(AstNode::Name, "add_int", VOID_TYPE);
    s.types.call_resolution.insert(head.0, add_int);
    let args: Vec<NodeId> = arguments.iter().map(|text| s.integer(text)).collect();
    let call = s.node(AstNode::Call { head, args }, "", I64_TYPE);
    s.block(vec![call], I64_TYPE);
    (s, add_int)
}

#[test]
fn native_call_yields_five_with_the_registered_return_type() {
    let (s, add_int) = call_script(&["2", "3"]);
    let mut unit = s.translate().unwrap();
    let mut calls = 0;
    let mut host = |head: FunctionId, args: &[Value]| {
        assert_eq!(head, add_int);
        calls += 1;
        Value::from_i64(truffle::add_int(args[0].as_i64().unwrap(), args[1].as_i64().unwrap()))
    };
    assert_eq!(run(&mut unit, &s.types.functions, &mut host), Ok((5, I64_TYPE)));
    assert_eq!(calls, 1);
    // r0 result slot, r1 the call's target: void when built, the return type once run
    assert_eq!(unit.register_types[1], s.types.functions[add_int.0].ret);
    assert_eq!(unit.register_values[1], 5);
}

#[test]
fn call_target_is_void_until_the_call_has_run() {
    let (s, _) = call_script(&["2", "3"]);
    let unit = s.translate().unwrap();
    assert_eq!(unit.register_types[1], VOID_TYPE);
    assert!(matches!(
        &unit.instructions[0],
        Instruction::EXTERNALCALL { args, target: RegisterId(1), .. } if args == &vec![RegisterId(2), RegisterId(3)]
    ));
}

#[test]
fn call_boxes_its_arguments_in_order() {
    let (s, add_int) = call_script(&["2", "3"]);
    let mut unit = s.translate().unwrap();
    match unit.eval(&s.types.functions).unwrap() {
        Outcome::Call { head, args } => {
            assert_eq!(head, add_int);
            assert_eq!(args, vec![Value::from_i64(2), Value::from_i64(3)]);
        }
        other => panic!("unexpected outcome {:?}", other),
    }
}

#[test]
fn call_with_wrong_arity_faults() {
    let (s, _) = call_script(&["2"]);
    let mut unit = s.translate().unwrap();
    assert_eq!(
        run(&mut unit, &s.types.functions, &mut no_host),
        Err(Fault { at: InstructionId(0), kind: FaultKind::ArityMismatch })
    );
}

#[test]
fn call_of_unknown_function_faults() {
    let (s, _) = call_script(&["2", "3"]);
    let mut unit = s.translate().unwrap();
    assert_eq!(
        run(&mut unit, &[], &mut no_host),
        Err(Fault { at: InstructionId(0), kind: FaultKind::UnknownFunction })
    );
}

#[test]
fn call_with_wrong_argument_type_faults() {
    let mut s = Script::new();
    let add_int =
        s.types.register_fn("add_int".to_string(), vec![I64_TYPE, I64_TYPE], I64_TYPE).unwrap();
    let head = s.node(AstNode::Name, "add_int", VOID_TYPE);
    s.types.call_resolution.insert(head.0, add_int);
    let two = s.integer("2");
    let flag = s.boolean(true);
    s.node(AstNode::Call { head, args: vec![two, flag] }, "", I64_TYPE);
    let mut unit = s.translate().unwrap();
    assert_eq!(
        run(&mut unit, &s.types.functions, &mut no_host),
        Err(Fault { at: InstructionId(0), kind: FaultKind::ArgumentMismatch })
    );
}

#[test]
fn answer_of_wrong_type_faults() {
    let (s, _) = call_script(&["2", "3"]);
    let mut unit = s.translate().unwrap();
    let mut host = |_: FunctionId, _: &[Value]| Value::from_bool(true);
    assert_eq!(
        run(&mut unit, &s.types.functions, &mut host),
        Err(Fault { at: InstructionId(0), kind: FaultKind::AnswerMismatch })
    );
}

#[test]
fn answer_that_was_not_asked_for_faults() {
    let mut s = Script::new();
    let two = s.integer("2");
    let three = s.integer("3");
    s.binary(two, AstNode::Plus, three, I64_TYPE);
    let mut unit = s.translate().unwrap();
    assert_eq!(
        unit.resume(Value::from_i64(1), &[]),
        Err(Fault { at: InstructionId(0), kind: FaultKind::NothingPending })
    );
    assert_eq!(run(&mut unit, &[], &mut no_host), Ok((5, I64_TYPE)));
    assert_eq!(
        unit.resume(Value::from_i64(1), &[]),
        Err(Fault { at: InstructionId(2), kind: FaultKind::NothingPending })
    );
}

#[test]
fn nested_calls_pass_refined_results_on() {
    // add_int(add_int(1, 2), 4)
    let mut s = Script::new();
    let add_int =
        s.types.register_fn("add_int".to_string(), vec![I64_TYPE, I64_TYPE], I64_TYPE).unwrap();
    let head = s.node(AstNode::Name, "add_int", VOID_TYPE);
    s.types.call_resolution.insert(head.0, add_int);
    let one = s.integer("1");
    let two = s.integer("2");
    let inner = s.node(AstNode::Call { head, args: vec![one, two] }, "", I64_TYPE);
    let four = s.integer("4");
    s.node(AstNode::Call { head, args: vec![inner, four] }, "", I64_TYPE);
    let mut unit = s.translate().unwrap();
    let mut host = |_: FunctionId, args: &[Value]| {
        Value::from_i64(args[0].as_i64().unwrap() + args[1].as_i64().unwrap())
    };
    assert_eq!(run(&mut unit, &s.types.functions, &mut host), Ok((7, I64_TYPE)));
}

#[test]
fn division_by_zero_faults_at_the_instruction() {
    let mut s = Script::new();
    let one = s.integer("1");
    let zero = s.integer("0");
    s.binary(one, AstNode::Divide, zero, I64_TYPE);
    let mut unit = s.translate().unwrap();
    assert_eq!(
        run(&mut unit, &[], &mut no_host),
        Err(Fault { at: InstructionId(0), kind: FaultKind::DivisionByZero })
    );
}

#[test]
fn overflow_faults() {
    let cases = [
        (AstNode::Plus, "9223372036854775807", "1"),
        (AstNode::Minus, "-9223372036854775808", "1"),
        (AstNode::Multiply, "4611686018427387904", "2"),
        (AstNode::Divide, "-9223372036854775808", "-1"),
    ];
    for (op, a, b) in cases {
        let mut s = Script::new();
        let lhs = s.integer(a);
        let rhs = s.integer(b);
        s.binary(lhs, op, rhs, I64_TYPE);
        let mut unit = s.translate().unwrap();
        assert_eq!(
            run(&mut unit, &[], &mut no_host),
            Err(Fault { at: InstructionId(0), kind: FaultKind::Overflow })
        );
    }
}

#[test]
fn empty_tree_yields_void() {
    let s = Script::new();
    let unit = s.translate().unwrap();
    assert!(unit.instructions.is_empty());
    assert_eq!(evaluate(&s), (0, VOID_TYPE));
}

#[test]
fn empty_block_yields_void() {
    let mut s = Script::new();
    s.block(vec![], VOID_TYPE);
    assert_eq!(evaluate(&s), (0, VOID_TYPE));
}

#[test]
fn result_slot_has_the_type_of_the_root() {
    // let x = 1.5; 1 < 2
    let mut s = Script::new();
    let float = s.floating("1.5");
    s.let_(float, F64_TYPE);
    let binding = s.last();
    let one = s.integer("1");
    let two = s.integer("2");
    let less = s.binary(one, AstNode::LessThan, two, BOOL_TYPE);
    s.block(vec![binding, less], BOOL_TYPE);
    assert_eq!(evaluate(&s), (1, BOOL_TYPE));
}

#[test]
fn operands_are_lowered_left_to_right() {
    // (x = 5) + x, with x = 1 before: the assignment on the left is seen on the right
    let mut s = Script::new();
    let one = s.integer("1");
    let x = s.let_(one, I64_TYPE);
    let binding = s.last();
    let target = s.variable(x, I64_TYPE);
    let five = s.integer("5");
    let assign = s.binary(target, AstNode::Assignment, five, I64_TYPE);
    let read = s.variable(x, I64_TYPE);
    let sum = s.binary(assign, AstNode::Plus, read, I64_TYPE);
    s.block(vec![binding, sum], I64_TYPE);
    assert_eq!(evaluate(&s), (10, I64_TYPE));
}

#[test]
fn malformed_integer_literal_is_refused() {
    for text in ["", "+", "-", "12a", "1.5", "9223372036854775808", " 1", "1_000"] {
        let mut s = Script::new();
        let literal = s.integer(text);
        assert_eq!(s.translate().err(), Some(TranslateError::MalformedLiteral(literal)));
    }
}

#[test]
fn literal_with_span_outside_the_text_is_refused() {
    let mut delta = EngineDelta::new(b"12".to_vec());
    let literal = delta.push_node(AstNode::Int, 1, 3);
    let mut types = TypeChecker::new();
    types.node_types.push(I64_TYPE);
    assert_eq!(
        Translater::new().translate(&delta, &types).err(),
        Some(TranslateError::MalformedLiteral(literal))
    );
}

#[test]
fn float_literal_without_a_value_is_refused() {
    let mut s = Script::new();
    let literal = s.floating("1.2.3");
    assert_eq!(s.translate().err(), Some(TranslateError::MalformedLiteral(literal)));
}

#[test]
fn unresolved_variable_is_refused() {
    let mut s = Script::new();
    let reference = s.node(AstNode::Variable, "y", I64_TYPE);
    assert_eq!(s.translate().err(), Some(TranslateError::UnresolvedVariable(reference)));
}

#[test]
fn variable_whose_definition_was_not_lowered_is_refused() {
    let mut s = Script::new();
    let name = s.node(AstNode::Name, "y", VOID_TYPE);
    let reference = s.variable(name, I64_TYPE);
    assert_eq!(s.translate().err(), Some(TranslateError::UndefinedVariable(reference)));
}

#[test]
fn unresolved_call_is_refused() {
    let mut s = Script::new();
    let head = s.node(AstNode::Name, "f", VOID_TYPE);
    let one = s.integer("1");
    s.node(AstNode::Call { head, args: vec![one] }, "", I64_TYPE);
    assert_eq!(s.translate().err(), Some(TranslateError::UnresolvedCall(head)));
}

#[test]
fn arithmetic_on_booleans_is_refused() {
    let mut s = Script::new();
    let a = s.boolean(true);
    let b = s.boolean(false);
    let sum = s.binary(a, AstNode::Plus, b, BOOL_TYPE);
    let operator = NodeId(sum.0 - 1);
    assert_eq!(
        s.translate().err(),
        Some(TranslateError::UnsupportedOperand { operator, ty: BOOL_TYPE })
    );
}

#[test]
fn unknown_operator_is_refused() {
    let mut s = Script::new();
    let a = s.integer("1");
    let b = s.integer("2");
    let node = s.binary(a, AstNode::And, b, BOOL_TYPE);
    assert_eq!(
        s.translate().err(),
        Some(TranslateError::UnsupportedOperator(NodeId(node.0 - 1)))
    );
}

#[test]
fn node_of_a_kind_without_a_rule_is_refused() {
    for node in [AstNode::String, AstNode::Name, AstNode::Type, AstNode::Garbage, AstNode::Plus] {
        let mut s = Script::new();
        let id = s.node(node, "", VOID_TYPE);
        assert_eq!(s.translate().err(), Some(TranslateError::UnsupportedNode(id)));
    }
}

#[test]
fn node_that_names_a_later_child_is_refused() {
    let mut s = Script::new();
    let statement = s.node(AstNode::Statement(NodeId(0)), "", VOID_TYPE);
    assert_eq!(s.translate().err(), Some(TranslateError::MalformedTree(statement)));

    let mut s = Script::new();
    let block = s.node(AstNode::Block(vec![NodeId(7)]), "", VOID_TYPE);
    assert_eq!(s.translate().err(), Some(TranslateError::MalformedTree(block)));
}

#[test]
fn root_without_a_type_is_refused() {
    let mut s = Script::new();
    let one = s.integer("1");
    s.types.node_types.clear();
    assert_eq!(s.translate().err(), Some(TranslateError::MissingType(one)));
}

#[test]
fn statement_has_the_value_of_what_it_wraps() {
    let mut s = Script::new();
    let seven = s.integer("7");
    let statement = s.node(AstNode::Statement(seven), "", I64_TYPE);
    s.block(vec![statement], I64_TYPE);
    assert_eq!(evaluate(&s), (7, I64_TYPE));
}

#[test]
fn translate_forgets_earlier_bindings() {
    let mut s = Script::new();
    let one = s.integer("1");
    let x = s.let_(one, I64_TYPE);
    let mut translater = Translater::new();
    translater.translate(&s.delta, &s.types).unwrap();
    assert!(translater.var_lookup.contains_key(&x.0));
    let empty = Script::new();
    translater.translate(&empty.delta, &empty.types).unwrap();
    assert_eq!(translater.var_lookup, HashMap::new());
}

#[test]
fn conditional_without_a_type_is_refused() {
    let mut s = Script::new();
    let flag = s.boolean(true);
    let ten = s.integer("10");
    let if_node =
        s.node(AstNode::If { condition: flag, then_block: ten, else_expression: None }, "", I64_TYPE);
    s.types.node_types.truncate(if_node.0);
    let mut translater = Translater::new();
    let mut unit = FunctionCodegen::new();
    assert_eq!(
        translater.translate_node(&mut unit, if_node, &s.delta, &s.types),
        Err(TranslateError::MissingType(if_node))
    );
    assert!(unit.register_values.is_empty());
}

/// Lowers `node` by itself, from the empty unit, and runs what that gives.
fn run_alone(s: &Script, node: NodeId) -> (i64, TypeId) {
    let mut unit = FunctionCodegen::new();
    let value = Translater::new().translate_node(&mut unit, node, &s.delta, &s.types).unwrap();
    assert!(unit.is_well_formed());
    loop {
        match unit.eval(&s.types.functions).unwrap() {
            Outcome::Finished { .. } => {
                return (unit.register_values[value.0], unit.register_types[value.0]);
            }
            Outcome::Float { op, lhs, rhs } => {
                unit.resume(float_unit(op, lhs, rhs), &s.types.functions).unwrap()
            }
            Outcome::Call { .. } => panic!("no native function is registered"),
        }
    }
}

#[test]
fn conditional_yields_what_its_branch_yields_alone() {
    // if flag { let a = 6; a * 7 } else { 1.5 < (0.5 + 0.5) }, both branches closed
    for flag in [true, false] {
        let mut s = Script::new();
        let condition = s.boolean(flag);
        let six = s.integer("6");
        let a = s.let_(six, I64_TYPE);
        let binding = s.last();
        let read = s.variable(a, I64_TYPE);
        let seven = s.integer("7");
        let product = s.binary(read, AstNode::Multiply, seven, I64_TYPE);
        let then_block = s.block(vec![binding, product], I64_TYPE);
        let x = s.floating("1.5");
        let y = s.floating("0.5");
        let z = s.floating("0.5");
        let sum = s.binary(y, AstNode::Plus, z, F64_TYPE);
        let less = s.binary(x, AstNode::LessThan, sum, BOOL_TYPE);
        let else_block = s.block(vec![less], BOOL_TYPE);
        s.node(
            AstNode::If { condition, then_block, else_expression: Some(else_block) },
            "",
            I64_TYPE,
        );
        let (payload, _) = evaluate(&s);
        if flag {
            assert_eq!(run_alone(&s, then_block), (42, I64_TYPE));
            assert_eq!(payload, 42);
        } else {
            assert_eq!(run_alone(&s, else_block), (0, BOOL_TYPE));
            assert_eq!(payload, 0);
        }
    }
}

#[test]
fn node_lowered_alone_is_the_node_lowered_in_a_tree_moved_up() {
    // The same block, first in the tree and after other code.
    let mut s = Script::new();
    let filler_a = s.integer("100");
    let filler_b = s.integer("200");
    let filler = s.binary(filler_a, AstNode::Plus, filler_b, I64_TYPE);
    let one = s.integer("1");
    let two = s.integer("2");
    let less = s.binary(one, AstNode::LessThan, two, BOOL_TYPE);
    let three = s.integer("3");
    let four = s.integer("4");
    let inner =
        s.node(AstNode::If { condition: less, then_block: three, else_expression: Some(four) }, "", I64_TYPE);
    let block = s.block(vec![inner], I64_TYPE);

    let mut alone = FunctionCodegen::new();
    let alone_value = Translater::new().translate_node(&mut alone, block, &s.delta, &s.types).unwrap();

    let mut within = FunctionCodegen::new();
    let mut translater = Translater::new();
    translater.translate_node(&mut within, filler, &s.delta, &s.types).unwrap();
    let registers = within.register_values.len();
    let positions = within.instructions.len();
    assert_eq!((registers, positions), (3, 1));
    let within_value = translater.translate_node(&mut within, block, &s.delta, &s.types).unwrap();

    assert_eq!(within_value.0, alone_value.0 + registers);
    assert_eq!(within.register_values[registers..], alone.register_values[..]);
    assert_eq!(within.register_types[registers..], alone.register_types[..]);
    let moved: Vec<String> = alone
        .instructions
        .iter()
        .map(|instruction| match instruction {
            Instruction::ILT { lhs, rhs, target } => format!(
                "{:?}",
                Instruction::ILT {
                    lhs: RegisterId(lhs.0 + registers),
                    rhs: RegisterId(rhs.0 + registers),
                    target: RegisterId(target.0 + registers),
                }
            ),
            Instruction::MOV { target, source } => format!(
                "{:?}",
                Instruction::MOV {
                    target: RegisterId(target.0 + registers),
                    source: RegisterId(source.0 + registers),
                }
            ),
            Instruction::BRIF { condition, then_branch, else_branch } => format!(
                "{:?}",
                Instruction::BRIF {
                    condition: RegisterId(condition.0 + registers),
                    then_branch: InstructionId(then_branch.0 + positions),
                    else_branch: InstructionId(else_branch.0 + positions),
                }
            ),
            Instruction::JMP(location) => {
                format!("{:?}", Instruction::JMP(InstructionId(location.0 + positions)))
            }
            other => panic!("unexpected instruction {:?}", other),
        })
        .collect();
    let lowered: Vec<String> =
        within.instructions[positions..].iter().map(|i| format!("{:?}", i)).collect();
    assert_eq!(alone.instructions.len(), 5);
    assert_eq!(lowered, moved);
}

#[test]
fn well_formedness_is_tested() {
    let mut unit = FunctionCodegen::new();
    assert!(unit.is_well_formed());
    let a = unit.i64_const(1);
    unit.mov(a, a);
    assert!(unit.is_well_formed());
    unit.instructions.push(Instruction::MOV { target: a, source: RegisterId(1) });
    assert!(!unit.is_well_formed());
    unit.instructions.pop();
    unit.instructions.push(Instruction::EXTERNALCALL {
        head: FunctionId(0),
        args: vec![a, RegisterId(9)],
        target: a,
    });
    assert!(!unit.is_well_formed());
    unit.instructions.pop();
    unit.instructions.push(Instruction::JMP(InstructionId(1000)));
    assert!(unit.is_well_formed());
    unit.register_types.push(I64_TYPE);
    assert!(!unit.is_well_formed());
}

#[test]
fn jump_past_the_end_halts() {
    let mut unit = FunctionCodegen::new();
    let result = unit.i64_const(7);
    unit.jmp(InstructionId(1000));
    unit.mov(result, result);
    assert_eq!(run(&mut unit, &[], &mut no_host), Ok((7, I64_TYPE)));
    assert_eq!(unit.instruction_pointer, 1000);
}

#[test]
fn counting_loop_reaches_its_limit_in_five_moves_a_turn() {
    // while counter < limit { counter = counter + 1 }
    let mut unit = FunctionCodegen::new();
    let counter = unit.i64_const(3);
    let limit = unit.i64_const(10);
    let step = unit.i64_const(1);
    let flag = unit.lt(counter, limit).unwrap();
    let branch = unit.next_position();
    unit.brif(flag, flag, InstructionId(0), InstructionId(0));
    let sum = unit.add(counter, step).unwrap();
    unit.mov(counter, sum);
    unit.jmp(InstructionId(0));
    let end = unit.next_position();
    unit.patch_branch(InstructionId(branch), InstructionId(branch + 1), InstructionId(end));
    let mut moves = 0;
    while let None = unit.step(&[]).unwrap() {
        moves += 1;
    }
    assert_eq!(moves, 5 * 7 + 2);
    assert_eq!(unit.instruction_pointer, end);
    assert_eq!(unit.register_values[counter.0], 10);
    assert_eq!(unit.register_values[limit.0], 10);
    assert_eq!(unit.register_values[step.0], 1);
}

#[test]
fn lowered_counting_loop_takes_five_moves_a_turn() {
    // let x = 2; let limit = 9; while x < limit { x = x + 1 }
    let mut s = Script::new();
    let two = s.integer("2");
    let x = s.let_(two, I64_TYPE);
    let let_x = s.last();
    let nine = s.integer("9");
    let limit = s.let_(nine, I64_TYPE);
    let let_limit = s.last();
    let tested = s.variable(x, I64_TYPE);
    let bound = s.variable(limit, I64_TYPE);
    let condition = s.binary(tested, AstNode::LessThan, bound, BOOL_TYPE);
    let assigned = s.variable(x, I64_TYPE);
    let added = s.variable(x, I64_TYPE);
    let one = s.integer("1");
    let sum = s.binary(added, AstNode::Plus, one, I64_TYPE);
    let assignment = s.binary(assigned, AstNode::Assignment, sum, I64_TYPE);
    let block = s.block(vec![assignment], I64_TYPE);
    let loop_node = s.node(AstNode::While { condition, block }, "", VOID_TYPE);
    s.block(vec![let_x, let_limit, loop_node], VOID_TYPE);

    let mut unit = s.translate().unwrap();
    // r0 result slot, r1 x, r2 limit, r3 the loop's result, r4 flag, r5 the step, r6 the sum
    assert_eq!(unit.register_values, vec![0, 2, 9, 0, 0, 1, 0]);
    assert_eq!(unit.instructions.len(), 5 + 1);
    let mut moves = 0;
    while unit.instruction_pointer < 5 {
        assert!(unit.step(&[]).unwrap().is_none());
        moves += 1;
    }
    assert_eq!(moves, 5 * (9 - 2) + 2);
    assert_eq!(unit.instruction_pointer, 5);
    assert_eq!(unit.register_values[1], 9);
    assert_eq!(unit.register_values[2], 9);
    assert_eq!(unit.register_values[3], 0);
    assert_eq!(unit.register_types[3], VOID_TYPE);
    assert_eq!(run(&mut unit, &[], &mut no_host), Ok((0, VOID_TYPE)));
}
