use lox::chunk::{Chunk, Opcode};
use lox::compiler::{compile, number_literals, Location};
use lox::value::Value;
use lox::vm::{InterpretError, NumOp, Step, VM};

fn num(x: f64) -> Value {
    Value::Number(x.to_bits())
}

fn f(bits: u64) -> f64 {
    f64::from_bits(bits)
}

fn compute(op: NumOp) -> Value {
    match op {
        NumOp::Neg(x) => num(-f(x)),
        NumOp::Add(x, y) => num(f(x) + f(y)),
        NumOp::Sub(x, y) => num(f(x) - f(y)),
        NumOp::Mul(x, y) => num(f(x) * f(y)),
        NumOp::Div(x, y) => num(f(x) / f(y)),
        NumOp::Equal(x, y) => Value::Bool(f(x) == f(y)),
        NumOp::Greater(x, y) => Value::Bool(f(x) > f(y)),
        NumOp::Less(x, y) => Value::Bool(f(x) < f(y)),
    }
}

fn literals(source: &str) -> Vec<u64> {
    number_literals(source).iter().map(|s| s.parse::<f64>().unwrap().to_bits()).collect()
}

fn run(vm: &mut VM, source: &str) -> Step {
    let mut step = vm.interpret(source, &literals(source));
    while let Step::Compute(op) = step {
        step = vm.resume(compute(op));
    }
    step
}

fn eval(source: &str) -> Step {
    run(&mut VM::new(), source)
}

fn value(source: &str) -> Value {
    match eval(source) {
        Step::Done(v) => v,
        other => panic!("{:?}", other),
    }
}

fn runtime_message(step: Step) -> String {
    match step {
        Step::Failed(InterpretError::RuntimeError(f)) => f.message,
        other => panic!("{:?}", other),
    }
}

#[test]
fn precedence_of_arithmetic() {
    assert_eq!(value("1 + 2 * 3"), num(7.0));
    assert_eq!(value("(1 + 2) * 3"), num(9.0));
    assert_eq!(value("-2 * 3"), num(-6.0));
}

#[test]
fn left_associative_operators() {
    assert_eq!(value("10 - 4 - 3"), num(3.0));
    assert_eq!(value("8 / 4 / 2"), num(1.0));
    assert_eq!(value("1.5 * 2"), num(3.0));
}

#[test]
fn comparisons() {
    assert_eq!(value("1 < 2"), Value::Bool(true));
    assert_eq!(value("2 <= 2"), Value::Bool(true));
    assert_eq!(value("3 >= 4"), Value::Bool(false));
    assert_eq!(value("3 > 2"), Value::Bool(true));
    assert_eq!(value("1 != 2"), Value::Bool(true));
}

#[test]
fn chained_comparison_is_a_runtime_error() {
    assert_eq!(runtime_message(eval("1 < 2 < 3")), "Operands must be numbers");
}

#[test]
fn equality_never_crosses_kinds() {
    assert_eq!(value("1 == true"), Value::Bool(false));
    assert_eq!(value("nil == false"), Value::Bool(false));
    assert_eq!(value("\"\" == nil"), Value::Bool(false));
    assert_eq!(value("nil == nil"), Value::Bool(true));
    assert_eq!(value("\"ab\" == \"ab\""), Value::Bool(true));
    assert_eq!(value("true == true"), Value::Bool(true));
    assert_eq!(value("2 == 2"), Value::Bool(true));
}

#[test]
fn string_concatenation() {
    assert_eq!(value("\"foo\" + \"bar\""), Value::string("foobar".to_string()));
}

#[test]
fn adding_number_and_string_fails() {
    assert_eq!(
        runtime_message(eval("1 + \"x\"")),
        "Operands must be two numbers or two strings"
    );
}

#[test]
fn negating_a_non_number_fails() {
    assert_eq!(runtime_message(eval("-true")), "Operand must be a number");
    assert_eq!(runtime_message(eval("\"a\" * 2")), "Operands must be numbers");
}

#[test]
fn truthiness_of_not() {
    assert_eq!(value("!nil"), Value::Bool(true));
    assert_eq!(value("!false"), Value::Bool(true));
    assert_eq!(value("!0"), Value::Bool(false));
    assert_eq!(value("!\"\""), Value::Bool(false));
    assert_eq!(value("!!true"), Value::Bool(true));
}

#[test]
fn unterminated_string_is_a_compile_error() {
    match eval("\"abc") {
        Step::Failed(InterpretError::CompileError(d)) => {
            assert!(!d.is_empty());
            assert_eq!(d[0].message, "Unterminated string");
            assert!(matches!(d[0].location, Location::Scanner));
        }
        other => panic!("{:?}", other),
    }
}

#[test]
fn syntax_errors_are_reported_once() {
    match eval("1 +") {
        Step::Failed(InterpretError::CompileError(d)) => {
            assert_eq!(d.len(), 1);
            assert_eq!(d[0].message, "Expect expression");
            assert!(matches!(d[0].location, Location::AtEnd));
        }
        other => panic!("{:?}", other),
    }
    match eval("(1 2") {
        Step::Failed(InterpretError::CompileError(d)) => {
            assert_eq!(d.len(), 1);
            assert_eq!(d[0].message, "Expect ')' after expression");
            match &d[0].location {
                Location::At(lexeme) => assert_eq!(lexeme, "2"),
                other => panic!("{:?}", other),
            }
        }
        other => panic!("{:?}", other),
    }
}

#[test]
fn machine_is_reusable_after_runtime_error() {
    let mut vm = VM::new();
    assert_eq!(runtime_message(run(&mut vm, "1 + \"x\"")), "Operands must be two numbers or two strings");
    assert!(!vm.is_awaiting());
    match run(&mut vm, "2 * 21") {
        Step::Done(v) => assert_eq!(v, num(42.0)),
        other => panic!("{:?}", other),
    }
    match run(&mut vm, "true") {
        Step::Done(v) => assert_eq!(v, Value::Bool(true)),
        other => panic!("{:?}", other),
    }
}

#[test]
fn runtime_error_reports_line() {
    match eval("1 +\n\n\"x\"") {
        Step::Failed(InterpretError::RuntimeError(f)) => assert_eq!(f.line, 3),
        other => panic!("{:?}", other),
    }
}

#[test]
fn compiled_chunk_shape() {
    let source = "1 + 2";
    let chunk = match compile(source, &literals(source)) {
        Ok(c) => c,
        Err(e) => panic!("{:?}", e),
    };
    let constant: u8 = Opcode::Constant.into();
    let add: u8 = Opcode::Add.into();
    let ret: u8 = Opcode::Return.into();
    assert_eq!(chunk.code, vec![constant, 0, constant, 1, add, ret]);
    assert_eq!(chunk.constants, vec![num(1.0), num(2.0)]);
}

#[test]
fn derived_comparisons_use_two_opcodes() {
    let source = "1 >= 2";
    let chunk = compile(source, &literals(source)).unwrap_or_else(|e| panic!("{:?}", e));
    let less: u8 = Opcode::Less.into();
    let not: u8 = Opcode::Not.into();
    assert_eq!(&chunk.code[4..6], &[less, not]);
}

#[test]
fn number_literals_in_order() {
    assert_eq!(number_literals("1 + 2.5 * (30 - 4.)"), vec!["1", "2.5", "30", "4"]);
}

#[test]
fn missing_literal_value_is_a_compile_error() {
    assert!(matches!(compile("1 + 2", &vec![]), Err(InterpretError::CompileError(_))));
}

#[test]
fn too_many_constants_is_a_compile_error() {
    let source = vec!["1"; 300].join(" + ");
    match compile(&source, &literals(&source)) {
        Err(InterpretError::CompileError(d)) => {
            assert_eq!(d[0].message, "Too many constants in one chunk")
        }
        Ok(_) => panic!("compiled"),
        Err(e) => panic!("{:?}", e),
    }
}

#[test]
fn malformed_chunks_fail_at_run_time() {
    let mut vm = VM::new();
    let mut chunk = Chunk::new();
    chunk.write(Opcode::Return.into(), 1);
    assert_eq!(runtime_message(vm.interpret_chunk(chunk)), "Stack underflow");
    let mut chunk = Chunk::new();
    chunk.write(Opcode::Constant.into(), 1);
    chunk.write(0, 1);
    assert_eq!(runtime_message(vm.interpret_chunk(chunk)), "Invalid constant index");
    let mut chunk = Chunk::new();
    chunk.write(99, 4);
    match vm.interpret_chunk(chunk) {
        Step::Failed(InterpretError::RuntimeError(f)) => {
            assert_eq!(f.message, "Unknown opcode");
            assert_eq!(f.line, 4);
        }
        other => panic!("{:?}", other),
    }
    let mut chunk = Chunk::new();
    chunk.write(Opcode::Nil.into(), 1);
    assert_eq!(runtime_message(vm.interpret_chunk(chunk)), "No instruction to run");
}

#[test]
fn machine_asks_for_numeric_work() {
    let mut vm = VM::new();
    let step = vm.interpret("3 - 1", &vec![3f64.to_bits(), 1f64.to_bits()]);
    match step {
        Step::Compute(NumOp::Sub(x, y)) => {
            assert_eq!(f(x), 3.0);
            assert_eq!(f(y), 1.0);
        }
        other => panic!("{:?}", other),
    }
    assert!(vm.is_awaiting());
    match vm.resume(num(2.0)) {
        Step::Done(v) => assert_eq!(v, num(2.0)),
        other => panic!("{:?}", other),
    }
}

#[test]
fn bang_after_an_operand_ends_the_expression() {
    match eval("1 ! 2") {
        Step::Failed(InterpretError::CompileError(d)) => {
            assert_eq!(d.len(), 1);
            assert_eq!(d[0].message, "Expect end of expression");
            match &d[0].location {
                Location::At(lexeme) => assert_eq!(lexeme, "!"),
                other => panic!("{:?}", other),
            }
        }
        other => panic!("{:?}", other),
    }
}

#[test]
fn compiled_lines_follow_the_tokens() {
    let source = "1 +\n2";
    let chunk = compile(source, &literals(source)).unwrap_or_else(|e| panic!("{:?}", e));
    let lines: Vec<usize> = (0..chunk.code.len()).map(|i| chunk.line_at(i)).collect();
    assert_eq!(lines, vec![1, 1, 2, 2, 2, 2]);
}
