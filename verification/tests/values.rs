use truffle::{
    add_int, parse_int, FunctionCodegen, Instruction, InstructionId, Operation, RegisterId,
    TypeChecker, UnsupportedOperand, Value, ValueError, BOOL_TYPE, F64_TYPE, I64_TYPE, VOID_TYPE,
};

#[test]
fn values_read_back_as_what_they_were_made_from() {
    assert_eq!(Value::from_i64(-3).as_i64(), Ok(-3));
    assert_eq!(Value::from_bool(true).as_bool(), Ok(true));
    assert_eq!(Value::from_bool(false).as_bool(), Ok(false));
    let bits = 2.5f64.to_bits() as i64;
    assert_eq!(Value::from_f64_bits(bits).as_f64_bits(), Ok(bits));
    assert_eq!(Value::void(), Value { ty: VOID_TYPE, val: 0 });
}

#[test]
fn value_of_another_type_is_a_typed_error() {
    assert_eq!(
        Value::from_bool(true).as_i64(),
        Err(ValueError::WrongType { expected: I64_TYPE, found: BOOL_TYPE })
    );
    assert_eq!(
        Value::from_i64(1).as_f64_bits(),
        Err(ValueError::WrongType { expected: F64_TYPE, found: I64_TYPE })
    );
    assert_eq!(
        Value::from_i64(1).as_bool(),
        Err(ValueError::WrongType { expected: BOOL_TYPE, found: I64_TYPE })
    );
}

#[test]
fn boolean_with_another_payload_than_zero_or_one_is_refused() {
    let odd = Value { ty: BOOL_TYPE, val: 2 };
    assert_eq!(odd.as_bool(), Err(ValueError::BadPayload { ty: BOOL_TYPE, val: 2 }));
    assert_eq!(odd.check(), Err(ValueError::BadPayload { ty: BOOL_TYPE, val: 2 }));
    assert_eq!(
        Value { ty: VOID_TYPE, val: 1 }.check(),
        Err(ValueError::BadPayload { ty: VOID_TYPE, val: 1 })
    );
    assert_eq!(Value { ty: 17, val: 0 }.check(), Err(ValueError::UnknownType { ty: 17 }));
    assert_eq!(Value::from_i64(5).check(), Ok(()));
}

#[test]
fn unboxing_sets_payload_and_tag() {
    let mut unit = FunctionCodegen::new();
    let register = unit.new_register(VOID_TYPE);
    assert_eq!(unit.unbox_to_register(Value::from_i64(9), register), Ok(()));
    assert_eq!(unit.box_register(register), Value::from_i64(9));
    assert_eq!(
        unit.unbox_to_register(Value { ty: 17, val: 1 }, register),
        Err(ValueError::UnknownType { ty: 17 })
    );
    assert_eq!(unit.box_register(register), Value::from_i64(9));
}

#[test]
fn integer_literals_denote_their_decimal_value() {
    assert_eq!(parse_int(b"0"), Some(0));
    assert_eq!(parse_int(b"007"), Some(7));
    assert_eq!(parse_int(b"+42"), Some(42));
    assert_eq!(parse_int(b"-42"), Some(-42));
    assert_eq!(parse_int(b"9223372036854775807"), Some(i64::MAX));
    assert_eq!(parse_int(b"-9223372036854775808"), Some(i64::MIN));
    assert_eq!(parse_int(b"9223372036854775808"), None);
    assert_eq!(parse_int(b"-9223372036854775809"), None);
    assert_eq!(parse_int(b"99999999999999999999999"), None);
    assert_eq!(parse_int(b""), None);
    assert_eq!(parse_int(b"-"), None);
    assert_eq!(parse_int(b"+"), None);
    assert_eq!(parse_int(b"--1"), None);
    assert_eq!(parse_int(b"1 "), None);
    assert_eq!(parse_int("１".as_bytes()), None);
}

#[test]
fn integer_literals_agree_with_the_standard_parser() {
    for text in ["0", "-0", "+0", "12345", "-12345", "00", "+", "1e3", "0x10", "١"] {
        assert_eq!(parse_int(text.as_bytes()), i64::from_str_radix(text, 10).ok(), "{text}");
    }
}

#[test]
fn builder_selects_the_form_by_the_left_operand() {
    let mut unit = FunctionCodegen::new();
    let int = unit.i64_const(1);
    let float = unit.f64_const(1.0f64.to_bits() as i64);
    let flag = unit.bool_const(true);

    let a = unit.add(int, float).unwrap();
    let b = unit.sub(float, int).unwrap();
    let c = unit.lte(int, int).unwrap();
    let d = unit.gte(float, float).unwrap();
    assert!(matches!(unit.instructions[0], Instruction::IADD { .. }));
    assert!(matches!(unit.instructions[1], Instruction::FSUB { .. }));
    assert!(matches!(unit.instructions[2], Instruction::ILTE { .. }));
    assert!(matches!(unit.instructions[3], Instruction::FGTE { .. }));
    assert_eq!(unit.register_types[a.0], I64_TYPE);
    assert_eq!(unit.register_types[b.0], F64_TYPE);
    assert_eq!(unit.register_types[c.0], BOOL_TYPE);
    assert_eq!(unit.register_types[d.0], BOOL_TYPE);

    let registers = unit.register_values.len();
    assert_eq!(
        unit.mul(flag, int),
        Err(UnsupportedOperand { operation: Operation::Mul, register: flag, ty: BOOL_TYPE })
    );
    assert_eq!(
        unit.lt(flag, flag),
        Err(UnsupportedOperand { operation: Operation::Lt, register: flag, ty: BOOL_TYPE })
    );
    assert_eq!(unit.register_values.len(), registers);
    assert_eq!(unit.instructions.len(), 4);
}

#[test]
fn move_onto_itself_adds_no_instruction() {
    let mut unit = FunctionCodegen::new();
    let a = unit.i64_const(1);
    let b = unit.i64_const(2);
    assert_eq!(unit.mov(a, a), a);
    assert_eq!(unit.next_position(), 0);
    assert_eq!(unit.mov(a, b), a);
    assert_eq!(unit.next_position(), 1);
    assert!(matches!(
        unit.instructions[0],
        Instruction::MOV { target: RegisterId(0), source: RegisterId(1) }
    ));
}

#[test]
fn reserved_branch_is_patched_in_place() {
    let mut unit = FunctionCodegen::new();
    let flag = unit.bool_const(true);
    let at = unit.next_position();
    assert_eq!(unit.brif(flag, flag, InstructionId(0), InstructionId(0)), flag);
    let jump = unit.next_position();
    unit.jmp(InstructionId(0));
    unit.patch_branch(InstructionId(at), InstructionId(1), InstructionId(2));
    unit.patch_jump(InstructionId(jump), InstructionId(2));
    assert_eq!(unit.instructions.len(), 2);
    assert!(matches!(
        unit.instructions[0],
        Instruction::BRIF {
            condition: RegisterId(0),
            then_branch: InstructionId(1),
            else_branch: InstructionId(2)
        }
    ));
    assert!(matches!(unit.instructions[1], Instruction::JMP(InstructionId(2))));
}

#[test]
fn host_function_without_arguments_is_not_registered() {
    let mut table = TypeChecker::new();
    assert_eq!(table.register_fn("nothing".to_string(), vec![], VOID_TYPE), None);
    assert!(table.functions.is_empty());
    let id = table.register_fn("print_int".to_string(), vec![I64_TYPE], VOID_TYPE).unwrap();
    assert_eq!(id.0, 0);
    assert_eq!(table.functions[0].name, "print_int");
    assert_eq!(table.functions[0].args, vec![I64_TYPE]);
    assert_eq!(table.functions[0].ret, VOID_TYPE);
}

#[test]
fn add_int_adds() {
    assert_eq!(add_int(2, 3), 5);
    assert_eq!(add_int(-2, 2), 0);
}
