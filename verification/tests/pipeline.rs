use monopolang::ast::Declaration;
use monopolang::value::Value;
use monopolang::compiler::Compiler;
use monopolang::lexer::Lexer;
use monopolang::parser::Parser;
use monopolang::vm::{OpCode, RuntimeError, VM};

const FUEL: u64 = 100000;

fn parse_source(source: &str) -> Vec<Declaration> {
    let mut lexer = Lexer::new(source.to_string());
    let tokens = lexer.scan_tokens();
    let mut parser = Parser::new(tokens);
    parser.parse().expect("program should parse")
}

fn run(source: &str) -> Vec<String> {
    let ast = parse_source(source);
    let mut compiler = Compiler::new(ast, VM::new());
    compiler.compile();
    let halted = compiler.vm.execute(FUEL).expect("program should run");
    assert!(halted, "program should halt within the step budget");
    compiler.vm.output().clone()
}

fn run_err(source: &str) -> RuntimeError {
    let ast = parse_source(source);
    let mut compiler = Compiler::new(ast, VM::new());
    compiler.compile();
    compiler.vm.execute(FUEL).expect_err("program should fail")
}

#[test]
fn if_false_prints_else_branch() {
    assert_eq!(run("if false then print 1 else print 2 end"), vec!["2"]);
}

#[test]
fn if_true_prints_then_branch() {
    assert_eq!(run("if true then print 1 else print 2 end"), vec!["1"]);
}

#[test]
fn if_without_else_skips_then_branch() {
    assert_eq!(run("if false then print 1 end print 2"), vec!["2"]);
    assert_eq!(run("if true then print 1 end print 2"), vec!["1", "2"]);
}

#[test]
fn while_loop_prints_and_halts() {
    assert_eq!(
        run("let x = 0 while x < 3 do print x let x = x + 1 end"),
        vec!["0", "1", "2"]
    );
}

#[test]
fn range_loop_matches_manual_while_loop() {
    let range_out = run("for i from 0 to 3 step 1 do print i end");
    let while_out = run("let i = 0 while i < 3 do print i let i = i + 1 end");
    assert_eq!(range_out, vec!["0", "1", "2"]);
    assert_eq!(range_out, while_out);
}

#[test]
fn procedure_called_twice_prints_twice_and_grows_code() {
    let ast = parse_source("function f do print 42 end f() f()");
    let mut compiler = Compiler::new(ast, VM::new());
    compiler.compile();
    let before = compiler.vm.code_len();
    assert_eq!(before, 2); // two call instructions
    let halted = compiler.vm.execute(FUEL).expect("program should run");
    assert!(halted);
    assert_eq!(compiler.vm.output().clone(), vec!["42", "42"]);
    // each call replaces one instruction by the callee's two
    assert_eq!(compiler.vm.code_len(), before + 2 * 2 - 2);
}

#[test]
fn number_plus_boolean_is_a_type_mismatch() {
    assert!(matches!(run_err("print 1 + true"), RuntimeError::TypeMismatch));
    assert!(matches!(run_err("print true + 1"), RuntimeError::TypeMismatch));
    assert!(matches!(run_err("print \"a\" - 1"), RuntimeError::TypeMismatch));
}

#[test]
fn text_plus_number_concatenates() {
    assert_eq!(run("print \"a\" + 1"), vec!["a1"]);
    assert_eq!(run("print 1 + \"a\""), vec!["1a"]);
    assert_eq!(run("print \"a\" + \"b\""), vec!["ab"]);
}

#[test]
fn equality_is_total_across_variants() {
    assert_eq!(run("print 1 == \"a\""), vec!["false"]);
    assert_eq!(run("print 1 != \"a\""), vec!["true"]);
    assert_eq!(run("print true == 1"), vec!["false"]);
    assert_eq!(run("print \"ab\" == \"ab\""), vec!["true"]);
    assert_eq!(run("print 2 == 2"), vec!["true"]);
    assert_eq!(run("print 2 != 2"), vec!["false"]);
}

#[test]
fn arithmetic_and_precedence() {
    assert_eq!(run("print 1 + 2 * 3"), vec!["7"]);
    assert_eq!(run("print (1 + 2) * 3"), vec!["9"]);
    assert_eq!(run("print 0 - 5"), vec!["-5"]);
    assert_eq!(run("print -5 + 2"), vec!["-3"]);
    assert_eq!(run("print 7 / 2"), vec!["3"]);
}

#[test]
fn division_by_zero_yields_zero_and_does_not_fail() {
    assert_eq!(run("print 1 / 0"), vec!["0"]);
    assert_eq!(run("print 0 / 0"), vec!["0"]);
}

#[test]
fn logic_and_truthiness() {
    assert_eq!(run("print true and false"), vec!["false"]);
    assert_eq!(run("print false or true"), vec!["true"]);
    assert_eq!(run("print !false"), vec!["true"]);
    assert_eq!(run("print !0"), vec!["false"]); // numbers are truthy regardless of value
    assert_eq!(run("print 1 and 2"), vec!["true"]);
}

#[test]
fn comparisons_demand_numbers() {
    assert_eq!(run("print 1 < 2"), vec!["true"]);
    assert_eq!(run("print 2 <= 1"), vec!["false"]);
    assert_eq!(run("print 3 > 2"), vec!["true"]);
    assert_eq!(run("print 2 >= 3"), vec!["false"]);
    assert!(matches!(run_err("print \"a\" < \"b\""), RuntimeError::TypeMismatch));
}

#[test]
fn undefined_variable_read_fails() {
    assert!(matches!(
        run_err("print nosuchname"),
        RuntimeError::UndefinedVariable(_)
    ));
}

#[test]
fn unknown_procedure_call_fails() {
    assert!(matches!(
        run_err("nosuchproc()"),
        RuntimeError::UnknownProcedure(_)
    ));
}

#[test]
fn assignment_overwrites_in_flat_namespace() {
    assert_eq!(run("let x = 1 let x = x + 10 print x"), vec!["11"]);
}

#[test]
fn procedures_act_through_globals() {
    assert_eq!(
        run("let x = 1 function bump do let x = x + 1 end bump() bump() print x"),
        vec!["3"]
    );
}

#[test]
fn unbounded_recursive_inlining_exhausts_the_budget() {
    let ast = parse_source("function f do f() end f()");
    let mut compiler = Compiler::new(ast, VM::new());
    compiler.compile();
    let halted = compiler.vm.execute(1000).expect("no failure, only growth");
    assert!(!halted, "a self-inlining procedure never halts");
}

#[test]
fn huge_numeral_saturates() {
    assert_eq!(
        run("print 99999999999999999999999999"),
        vec!["9223372036854775807"]
    );
}

#[test]
fn constant_pool_deduplicates() {
    let mut vm = VM::new();
    let a = vm.write_constant(Value::from_number(7));
    let b = vm.write_constant(Value::from_number(7));
    assert_eq!(a, b);
    assert_eq!(vm.constants_len(), 1);
    let c = vm.write_constant(Value::from_number(8));
    assert_ne!(a, c);
    assert_eq!(vm.constants_len(), 2);
    let d = vm.write_constant(Value::from_string("7"));
    assert_ne!(a, d);
    assert_eq!(vm.constants_len(), 3);
}

#[test]
fn pool_is_shared_across_nested_compilation() {
    // the procedure body's constant and the outer constant intern once
    let out = run("function f do print 5 end f() print 5");
    assert_eq!(out, vec!["5", "5"]);
}

#[test]
fn value_equality_and_truthiness() {
    assert!(!Value::from_number(1).equals(&Value::from_boolean(true)));
    assert!(!Value::from_string("true").equals(&Value::from_boolean(true)));
    assert!(Value::from_string("x").equals(&Value::from_string("x")));
    assert!(Value::Void.equals(&Value::Void));
    assert!(!Value::Void.is_truthy());
    assert!(Value::from_number(0).is_truthy());
    assert!(Value::from_string("").is_truthy());
    assert!(!Value::from_boolean(false).is_truthy());
}

#[test]
fn value_formatting() {
    assert_eq!(Value::from_number(0).format(), "0");
    assert_eq!(Value::from_number(-42).format(), "-42");
    assert_eq!(Value::from_number(i64::MIN).format(), "-9223372036854775808");
    assert_eq!(Value::from_number(i64::MAX).format(), "9223372036854775807");
    assert_eq!(Value::from_boolean(true).format(), "true");
    assert_eq!(Value::from_string("raw text").format(), "raw text");
    assert_eq!(Value::Void.format(), "void");
}

#[test]
fn engine_counters_are_intercepted_on_read() {
    let mut vm = VM::new();
    vm.write_op(OpCode::GetGlobal("@balance".to_string()));
    vm.write_op(OpCode::Print);
    vm.write_op(OpCode::GetGlobal("@debt".to_string()));
    vm.write_op(OpCode::Print);
    vm.write_op(OpCode::GetGlobal("@won".to_string()));
    vm.write_op(OpCode::Print);
    let halted = vm.execute(FUEL).expect("counters always read");
    assert!(halted);
    assert_eq!(vm.output().clone(), vec!["100", "0", "false"]);
}

#[test]
fn cost_drains_the_balance_and_can_exhaust_it() {
    let mut vm = VM::new();
    vm.write_op(OpCode::Cost(30));
    vm.write_op(OpCode::GetGlobal("@balance".to_string()));
    vm.write_op(OpCode::Print);
    assert!(vm.execute(FUEL).expect("affordable cost"));
    assert_eq!(vm.output().clone(), vec!["70"]);

    let mut poor = VM::new();
    poor.write_op(OpCode::Cost(200));
    assert!(matches!(
        poor.execute(FUEL).expect_err("balance exhausted"),
        RuntimeError::InsufficientFunds
    ));
}

#[test]
fn gamble_moves_the_balance_by_the_stake() {
    let mut vm = VM::new();
    let idx = vm.write_constant(Value::from_number(10));
    vm.write_op(OpCode::Constant(idx));
    vm.write_op(OpCode::Gamble);
    vm.write_op(OpCode::GetGlobal("@balance".to_string()));
    vm.write_op(OpCode::Print);
    vm.write_op(OpCode::GetGlobal("@won".to_string()));
    vm.write_op(OpCode::Print);
    assert!(vm.execute(FUEL).expect("stake within balance"));
    let out = vm.output().clone();
    assert!(
        (out[0] == "110" && out[1] == "true") || (out[0] == "90" && out[1] == "false"),
        "balance moves by the stake and the flag records the outcome: {:?}",
        out
    );
}

#[test]
fn gamble_rejects_stakes_over_the_balance() {
    let mut vm = VM::new();
    let idx = vm.write_constant(Value::from_number(1000));
    vm.write_op(OpCode::Constant(idx));
    vm.write_op(OpCode::Gamble);
    assert!(matches!(
        vm.execute(FUEL).expect_err("stake over balance"),
        RuntimeError::InsufficientFunds
    ));
}

#[test]
fn stack_underflow_is_reported() {
    let mut vm = VM::new();
    vm.write_op(OpCode::Print);
    assert!(matches!(
        vm.execute(FUEL).expect_err("nothing to print"),
        RuntimeError::StackUnderflow
    ));
}

#[test]
fn parse_errors_are_reported() {
    let mut lexer = Lexer::new("let = 3".to_string());
    let tokens = lexer.scan_tokens();
    let mut parser = Parser::new(tokens);
    let err = parser.parse().expect_err("missing variable name");
    assert_eq!(err.message, "Expected variable name");

    let mut lexer2 = Lexer::new("print (1 + 2".to_string());
    let tokens2 = lexer2.scan_tokens();
    let mut parser2 = Parser::new(tokens2);
    let err2 = parser2.parse().expect_err("missing closing parenthesis");
    assert_eq!(err2.message, "Expected ')' after expression");
}
