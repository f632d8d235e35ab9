use truffle::{
    Evaluator, Fault, FaultKind, FnRecord, Function, FunctionCodegen, FunctionId, Instruction,
    InstructionId, Outcome, RegisterId, TypeChecker, TypeId, Value, BOOL_TYPE, I64_TYPE,
    VOID_TYPE,
};

/// `double(x) = x + x`: register 0 is the result slot, register 1 the argument.
fn double_unit() -> FunctionCodegen {
    let mut unit = FunctionCodegen::new();
    let result = unit.new_register(I64_TYPE);
    let x = unit.new_register(I64_TYPE);
    let sum = unit.add(x, x).unwrap();
    unit.mov(result, sum);
    unit
}

/// `sum_to(n) = if n > 0 { n + sum_to(n - 1) } else { 0 }`, as function `me`.
fn sum_to_unit(me: FunctionId) -> FunctionCodegen {
    let mut unit = FunctionCodegen::new();
    let result = unit.new_register(I64_TYPE);
    let n = unit.new_register(I64_TYPE);
    let zero = unit.i64_const(0);
    let one = unit.i64_const(1);
    let positive = unit.gt(n, zero).unwrap();
    let branch = unit.next_position();
    unit.brif(result, positive, InstructionId(0), InstructionId(0));
    let then_branch = InstructionId(unit.next_position());
    let less = unit.sub(n, one).unwrap();
    let inner = unit.new_register(VOID_TYPE);
    unit.external_call(me, vec![less], inner);
    let total = unit.add(n, inner).unwrap();
    unit.mov(result, total);
    let jump = unit.next_position();
    unit.jmp(InstructionId(0));
    let else_branch = InstructionId(unit.next_position());
    unit.mov(result, zero);
    let end = InstructionId(unit.next_position());
    unit.patch_jump(InstructionId(jump), end);
    unit.patch_branch(InstructionId(branch), then_branch, else_branch);
    unit
}

fn caller(head: FunctionId, argument: i64, result_type: TypeId) -> FunctionCodegen {
    let mut unit = FunctionCodegen::new();
    let result = unit.new_register(result_type);
    let value = unit.i64_const(argument);
    let target = unit.new_register(VOID_TYPE);
    unit.external_call(head, vec![value], target);
    unit.mov(result, target);
    unit
}

fn finish(evaluator: &mut Evaluator, functions: &[FnRecord]) -> Result<(i64, TypeId), Fault> {
    loop {
        match evaluator.eval(functions)? {
            Outcome::Finished { payload, ty } => return Ok((payload, ty)),
            Outcome::Call { head, args } => {
                assert_eq!(functions[head.0].name, "add_int");
                let sum = args[0].as_i64().unwrap() + args[1].as_i64().unwrap();
                evaluator.resume(Value::from_i64(sum), functions)?
            }
            other => panic!("unexpected outcome {:?}", other),
        }
    }
}

#[test]
fn compiled_function_is_called_with_seeded_arguments() {
    let mut table = TypeChecker::new();
    let double = table.register_compiled("double".to_string(), vec![I64_TYPE], I64_TYPE, double_unit());
    let mut evaluator = Evaluator::new(caller(double, 21, I64_TYPE));
    assert_eq!(finish(&mut evaluator, &table.functions), Ok((42, I64_TYPE)));
    assert_eq!(evaluator.frames.len(), 1);
    // The call's target was void when built and has the callee's return type now.
    assert_eq!(evaluator.frames[0].register_types[2], I64_TYPE);
    // The unit in the table was copied, not run.
    match &table.functions[double.0].fun {
        Function::Compiled(unit) => {
            assert_eq!(unit.register_values, vec![0, 0, 0]);
            assert_eq!(unit.instruction_pointer, 0);
        }
        Function::Native => panic!("a compiled unit was registered"),
    }
}

#[test]
fn function_calls_itself_with_a_register_file_for_each_call() {
    let mut table = TypeChecker::new();
    let me = FunctionId(0);
    let registered = table.register_compiled("sum_to".to_string(), vec![I64_TYPE], I64_TYPE, sum_to_unit(me));
    assert_eq!(registered, me);
    for (n, expected) in [(0, 0), (1, 1), (4, 10), (100, 5050)] {
        let mut evaluator = Evaluator::new(caller(me, n, I64_TYPE));
        assert_eq!(finish(&mut evaluator, &table.functions), Ok((expected, I64_TYPE)));
    }
}

#[test]
fn host_function_is_called_from_inside_a_compiled_function() {
    let mut table = TypeChecker::new();
    let add_int = table.register_fn("add_int".to_string(), vec![I64_TYPE, I64_TYPE], I64_TYPE).unwrap();
    // plus_ten(x) = add_int(x, 10)
    let mut unit = FunctionCodegen::new();
    let result = unit.new_register(I64_TYPE);
    let x = unit.new_register(I64_TYPE);
    let ten = unit.i64_const(10);
    let target = unit.new_register(VOID_TYPE);
    unit.external_call(add_int, vec![x, ten], target);
    unit.mov(result, target);
    let plus_ten = table.register_compiled("plus_ten".to_string(), vec![I64_TYPE], I64_TYPE, unit);

    let mut evaluator = Evaluator::new(caller(plus_ten, 5, I64_TYPE));
    match evaluator.eval(&table.functions).unwrap() {
        Outcome::Call { head, args } => {
            assert_eq!(head, add_int);
            assert_eq!(args, vec![Value::from_i64(5), Value::from_i64(10)]);
            assert_eq!(evaluator.frames.len(), 2);
        }
        other => panic!("unexpected outcome {:?}", other),
    }
    evaluator.resume(Value::from_i64(15), &table.functions).unwrap();
    assert_eq!(finish(&mut evaluator, &table.functions), Ok((15, I64_TYPE)));
}

#[test]
fn compiled_function_that_returns_another_type_than_declared_faults() {
    let mut table = TypeChecker::new();
    let double = table.register_compiled("double".to_string(), vec![I64_TYPE], BOOL_TYPE, double_unit());
    let mut evaluator = Evaluator::new(caller(double, 21, BOOL_TYPE));
    assert_eq!(
        finish(&mut evaluator, &table.functions),
        Err(Fault { at: InstructionId(0), kind: FaultKind::AnswerMismatch })
    );
    assert_eq!(evaluator.frames.len(), 2);
}

#[test]
fn fault_inside_a_compiled_function_is_reported_at_its_instruction() {
    let mut table = TypeChecker::new();
    // crash(x) = x / 0
    let mut unit = FunctionCodegen::new();
    let result = unit.new_register(I64_TYPE);
    let x = unit.new_register(I64_TYPE);
    let zero = unit.i64_const(0);
    let skipped = unit.add(x, x).unwrap();
    let quotient = unit.div(skipped, zero).unwrap();
    unit.mov(result, quotient);
    let crash = table.register_compiled("crash".to_string(), vec![I64_TYPE], I64_TYPE, unit);
    let mut evaluator = Evaluator::new(caller(crash, 1, I64_TYPE));
    assert_eq!(
        finish(&mut evaluator, &table.functions),
        Err(Fault { at: InstructionId(1), kind: FaultKind::DivisionByZero })
    );
}

#[test]
fn instance_seeds_arguments_after_the_result_slot() {
    let unit = double_unit();
    let copy = unit.instance(&vec![Value::from_i64(7)]);
    assert_eq!(copy.register_values, vec![0, 7, 0]);
    assert_eq!(copy.register_types, vec![I64_TYPE, I64_TYPE, I64_TYPE]);
    assert_eq!(copy.instruction_pointer, 0);
    assert_eq!(format!("{:?}", copy.instructions), format!("{:?}", unit.instructions));
    assert_eq!(unit.register_values, vec![0, 0, 0]);
}

#[test]
fn single_unit_evaluator_agrees_with_the_unit() {
    let mut unit = FunctionCodegen::new();
    let result = unit.new_register(I64_TYPE);
    let six = unit.i64_const(6);
    let seven = unit.i64_const(7);
    let product = unit.mul(six, seven).unwrap();
    unit.mov(result, product);
    let mut evaluator = Evaluator::new(unit);
    assert_eq!(finish(&mut evaluator, &[]), Ok((42, I64_TYPE)));
    assert_eq!(evaluator.frames[0].register_values[0], 42);
    assert_eq!(RegisterId(0), result);
}

#[test]
fn function_table_is_tested_for_well_formed_units() {
    let mut table = TypeChecker::new();
    assert!(truffle::evaluator::table_is_well_formed(&table.functions));
    table.register_fn("print_int".to_string(), vec![I64_TYPE], VOID_TYPE).unwrap();
    table.register_compiled("double".to_string(), vec![I64_TYPE], I64_TYPE, double_unit());
    assert!(truffle::evaluator::table_is_well_formed(&table.functions));
    // A unit with fewer registers than a result slot and its arguments need.
    let mut small = FunctionCodegen::new();
    small.new_register(I64_TYPE);
    table.register_compiled("small".to_string(), vec![I64_TYPE], I64_TYPE, small);
    assert!(!truffle::evaluator::table_is_well_formed(&table.functions));
}

#[test]
fn evaluator_is_tested_for_well_formed_units() {
    let mut evaluator = Evaluator::new(double_unit());
    assert!(evaluator.is_well_formed());
    evaluator.frames.push(FunctionCodegen::new());
    assert!(!evaluator.is_well_formed());
    evaluator.frames.clear();
    assert!(!evaluator.is_well_formed());
}
