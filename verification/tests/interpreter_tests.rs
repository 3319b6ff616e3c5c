use rloxj::ast::{List, Program};
use rloxj::error::{LoxError, RuntimeResult};
use rloxj::expr::{Binary, Expr, Literal, LiteralKind, NoOp};
use rloxj::front_end::compile;
use rloxj::interpreter::{Action, Interpreter};
use rloxj::lox_object::{FunctionObject, LoxObject};
use rloxj::machine::{Control, Evalable, Frame, Operation, Request};
use rloxj::stmt::{Expression, Print, Stmt};

fn compute(operation: Operation, a: u64, b: u64) -> u64 {
    let (x, y) = (f64::from_bits(a), f64::from_bits(b));
    let r = match operation {
        Operation::Add => x + y,
        Operation::Subtract => x - y,
        Operation::Multiply => x * y,
        Operation::Divide => x / y,
    };
    r.to_bits()
}

fn finish(interpreter: &mut Interpreter) -> (Vec<String>, Option<LoxError>) {
    let mut printed = Vec::new();
    loop {
        match interpreter.run(64) {
            Action::Continue => {}
            Action::Print(text) => printed.push(text),
            Action::PrintNumber(bits) => printed.push(format!("{}", f64::from_bits(bits))),
            Action::ParseNumber(numeral) => {
                interpreter.supply(numeral.parse::<f64>().unwrap().to_bits())
            }
            Action::Arithmetic(operation, a, b) => interpreter.supply(compute(operation, a, b)),
            Action::Finished => return (printed, None),
            Action::Failed(error) => return (printed, Some(error)),
        }
    }
}

fn load(interpreter: &mut Interpreter, source: &str) {
    match compile(source.to_string()) {
        Ok(compiled) => interpreter.interpret(compiled.program, compiled.locals),
        Err(rejected) => panic!("rejected: {:?}", rejected.errors),
    }
}

fn execute(source: &str) -> (Vec<String>, Option<LoxError>) {
    let mut interpreter = Interpreter::new();
    load(&mut interpreter, source);
    finish(&mut interpreter)
}

fn lines(source: &str) -> Vec<String> {
    let (printed, error) = execute(source);
    assert_eq!(error, None, "{}", source);
    printed
}

fn failure(source: &str) -> LoxError {
    execute(source).1.expect("the program should fail")
}

fn error(line: usize, message: &str, position: usize) -> LoxError {
    LoxError::error(line, message.to_string(), position)
}

#[test]
fn a_fresh_interpreter_is_idle() {
    let mut i = Interpreter::new();
    assert_eq!(i.control, Control::Idle);
    assert_eq!(i.environments.len(), 1);
    assert_eq!(i.environment, 0);
    assert_eq!(i.step(), Action::Finished);
    assert_eq!(i.run(10), Action::Finished);
    assert_eq!(i.control, Control::Idle);
}

#[test]
fn an_empty_program_finishes() {
    assert_eq!(lines(""), Vec::<String>::new());
}

#[test]
fn values_print_in_their_textual_form() {
    assert_eq!(
        lines("print nil; print true; print false; print \"raw \\n text\"; print \"\";"),
        vec!["nil", "true", "false", "raw \\n text", ""]
    );
    assert_eq!(lines("print \"hi\";"), vec!["hi"]);
    assert_eq!(lines("fun named() {} print named;"), vec!["<fn named>"]);
}

#[test]
fn numbers_are_printed_by_the_embedder() {
    let mut i = Interpreter::new();
    load(&mut i, "print 2.5;");
    assert_eq!(i.run(100), Action::ParseNumber("2.5".to_string()));
    assert_eq!(i.control, Control::Await(Request::Numeral(1)));
    i.supply(2.5f64.to_bits());
    assert_eq!(i.run(100), Action::PrintNumber(2.5f64.to_bits()));
    assert_eq!(i.run(100), Action::Finished);
    assert_eq!(lines("print 3; print 0.1; print 100; print 1.50;"), vec!["3", "0.1", "100", "1.5"]);
}

#[test]
fn arithmetic_is_asked_of_the_embedder() {
    let mut i = Interpreter::new();
    load(&mut i, "print 6 / 4;");
    assert_eq!(i.run(100), Action::ParseNumber("6".to_string()));
    i.supply(6f64.to_bits());
    assert_eq!(i.run(100), Action::ParseNumber("4".to_string()));
    i.supply(4f64.to_bits());
    assert_eq!(i.run(100), Action::Arithmetic(Operation::Divide, 6f64.to_bits(), 4f64.to_bits()));
    assert_eq!(i.run(100), Action::Arithmetic(Operation::Divide, 6f64.to_bits(), 4f64.to_bits()));
    i.supply(1.5f64.to_bits());
    assert_eq!(i.run(100), Action::PrintNumber(1.5f64.to_bits()));
    assert_eq!(i.run(100), Action::Finished);
}

#[test]
fn a_request_is_repeated_until_it_is_answered() {
    let mut i = Interpreter::new();
    load(&mut i, "print 7;");
    assert_eq!(i.run(100), Action::ParseNumber("7".to_string()));
    assert_eq!(i.step(), Action::ParseNumber("7".to_string()));
    assert_eq!(i.run(0), Action::Continue);
    assert_eq!(i.run(3), Action::ParseNumber("7".to_string()));
}

#[test]
fn an_unasked_number_is_ignored() {
    let mut i = Interpreter::new();
    i.supply(1);
    assert!(i.values.is_empty());
    assert_eq!(i.control, Control::Idle);
    load(&mut i, "print nil;");
    i.supply(1);
    assert!(i.values.is_empty());
    assert_eq!(finish(&mut i), (vec!["nil".to_string()], None));
}

#[test]
fn the_budget_bounds_a_run() {
    let mut i = Interpreter::new();
    load(&mut i, "while (true) {}");
    for budget in [0, 1, 7, 1000] {
        assert_eq!(i.run(budget), Action::Continue);
    }
    assert!(i.control != Control::Idle);
}

#[test]
fn arithmetic() {
    assert_eq!(lines("print 1 + 2 * 3 - 8 / 4;"), vec!["5"]);
    assert_eq!(lines("print (1 + 2) * 3;"), vec!["9"]);
    assert_eq!(lines("print -3 + 1; print --3; print 1 / 0; print -1 / 0;"), vec!["-2", "3", "inf", "-inf"]);
    assert_eq!(lines("print 0.1 + 0.2;"), vec!["0.30000000000000004"]);
}

#[test]
fn comparison() {
    assert_eq!(
        lines("print 1 < 2; print 2 < 1; print 1 <= 1; print 1 > 2; print 2 >= 2; print -1 < 0;"),
        vec!["true", "false", "true", "false", "true", "true"]
    );
    assert_eq!(lines("var n = 0 / 0; print n < 1; print n >= 1; print n <= n;"), vec!["false", "false", "false"]);
}

#[test]
fn equality() {
    assert_eq!(
        lines(
            "print nil == nil; print 1 == 1; print 1 == 2; print \"a\" == \"a\"; print \"a\" == \"b\"; \
             print true == true; print true != false; print 0 == -0;"
        ),
        vec!["true", "true", "false", "true", "false", "true", "true", "true"]
    );
}

#[test]
fn values_of_different_kinds_are_unequal() {
    assert_eq!(
        lines(
            "fun f() {} print 1 == \"1\"; print nil == false; print 0 == false; print \"\" == nil; \
             print f == 1; print f != nil; print 1 != \"1\";"
        ),
        vec!["false", "false", "false", "false", "false", "true", "true"]
    );
}

#[test]
fn strings_compare_by_their_text() {
    assert_eq!(lines("var a = \"x\" + \"y\"; var b = \"xy\"; print a == b; print a != b;"), vec!["true", "false"]);
}

#[test]
fn functions_compare_by_declaration() {
    assert_eq!(
        lines(
            "fun f() {} fun g() {} var h = f; print f == f; print f == h; print f == g; \
             fun mk() { fun inner() {} return inner; } print mk() == mk();"
        ),
        vec!["true", "true", "false", "true"]
    );
}

#[test]
fn not_a_number_differs_from_itself() {
    assert_eq!(lines("var n = 0 / 0; print n == n; print n != n;"), vec!["false", "true"]);
}

#[test]
fn is_equal_on_values() {
    let mut i = Interpreter::new();
    load(&mut i, "print \"a\" + \"b\" == \"ab\";");
    assert_eq!(finish(&mut i).0, vec!["true"]);
    let f = FunctionObject { arity: 1, unit: 0, declaration: 2, environment: 0 };
    let g = FunctionObject { arity: 1, unit: 0, declaration: 2, environment: 5 };
    let h = FunctionObject { arity: 1, unit: 1, declaration: 2, environment: 0 };
    assert!(i.is_equal(&LoxObject::Function(f), &LoxObject::Function(g)));
    assert!(!i.is_equal(&LoxObject::Function(f), &LoxObject::Function(h)));
    assert!(i.is_equal(&LoxObject::Nil, &LoxObject::Nil));
    assert!(!i.is_equal(&LoxObject::Nil, &LoxObject::Bool(false)));
    assert!(i.is_equal(&LoxObject::String(0), &LoxObject::String(0)));
    assert!(!i.is_equal(&LoxObject::String(0), &LoxObject::String(1)));
    assert!(i.is_equal(&LoxObject::Number(0), &LoxObject::Number(1 << 63)));
    for a in [LoxObject::Nil, LoxObject::Bool(true), LoxObject::Number(7), LoxObject::String(2), LoxObject::Function(f)] {
        assert!(i.is_equal(&a, &a));
    }
    let nan = LoxObject::Number(f64::NAN.to_bits());
    assert!(!i.is_equal(&nan, &nan));
}

#[test]
fn printed_gives_the_text_of_a_value() {
    let mut i = Interpreter::new();
    load(&mut i, "fun named(a) {} var s = \"text\";");
    finish(&mut i);
    assert_eq!(i.printed(LoxObject::Nil), Action::Print("nil".to_string()));
    assert_eq!(i.printed(LoxObject::Bool(true)), Action::Print("true".to_string()));
    assert_eq!(i.printed(LoxObject::Bool(false)), Action::Print("false".to_string()));
    assert_eq!(i.printed(LoxObject::Number(42)), Action::PrintNumber(42));
    assert_eq!(i.printed(LoxObject::String(0)), Action::Print("text".to_string()));
    assert_eq!(i.printed(LoxObject::String(77)), Action::Print(String::new()));
    let named = i.environments[0].values.get("named").copied().unwrap();
    assert_eq!(i.printed(named), Action::Print("<fn named>".to_string()));
    match named {
        LoxObject::Function(f) => assert_eq!((f.arity, f.environment), (1, 0)),
        _ => panic!("not a function"),
    }
}

#[test]
fn bang_negates_truthiness_of_any_value() {
    assert_eq!(
        lines("fun f() {} print !nil; print !false; print !true; print !0; print !\"\"; print !f; print !!nil;"),
        vec!["true", "true", "false", "false", "false", "false", "false"]
    );
}

#[test]
fn logical_operators_return_an_operand() {
    assert_eq!(
        lines("print nil or \"x\"; print 1 or 2; print false or nil; print 1 and 2; print nil and 2; print false and 1;"),
        vec!["x", "1", "nil", "2", "nil", "false"]
    );
}

#[test]
fn logical_operators_short_circuit() {
    let source = "fun f() { print \"side\"; return true; } \
                  print true or f(); print false and f(); print false or f(); print true and f();";
    assert_eq!(lines(source), vec!["true", "false", "side", "true", "side", "true"]);
}

#[test]
fn short_circuit_skips_assignments() {
    assert_eq!(
        lines("var a = 1; true or (a = 2); false and (a = 3); print a; nil or (a = 4); print a;"),
        vec!["1", "4"]
    );
}

#[test]
fn variables() {
    assert_eq!(lines("var a; print a; a = 3; print a; var a = \"again\"; print a;"), vec!["nil", "3", "again"]);
    assert_eq!(lines("var a = 1; var b = a = 2; print a + b;"), vec!["4"]);
}

#[test]
fn assignment_reaches_the_enclosing_scope() {
    assert_eq!(lines("var a = 1; { a = 2; { a = a + 1; } } print a;"), vec!["3"]);
    assert_eq!(lines("{ var a = 1; { a = 2; var a = 9; a = 10; print a; } print a; }"), vec!["10", "2"]);
}

#[test]
fn blocks_restore_the_scope() {
    assert_eq!(
        lines("var a = \"g\"; { var a = \"1\"; { var a = \"2\"; print a; } print a; } print a;"),
        vec!["2", "1", "g"]
    );
    let mut i = Interpreter::new();
    load(&mut i, "{ { { var a = 1; } } }");
    finish(&mut i);
    assert_eq!(i.environment, 0);
    assert!(i.frames.is_empty() && i.values.is_empty());
}

#[test]
fn control_flow() {
    assert_eq!(lines("if (nil) print 1; else print 2; if (\"\") print 3; if (false) print 4;"), vec!["2", "3"]);
    assert_eq!(lines("var i = 0; while (i < 3) { print i; i = i + 1; } print \"done\";"), vec!["0", "1", "2", "done"]);
    assert_eq!(lines("while (false) print 1;"), Vec::<String>::new());
    assert_eq!(
        lines("for (var i = 0; i < 2; i = i + 1) for (var j = 0; j < 2; j = j + 1) print i * 10 + j;"),
        vec!["0", "1", "10", "11"]
    );
}

#[test]
fn functions_return_nil_by_default() {
    assert_eq!(lines("fun f() {} print f(); fun g() { return; } print g();"), vec!["nil", "nil"]);
}

#[test]
fn arguments_are_bound_left_to_right() {
    assert_eq!(lines("fun f(a, b, c) { print a; print b; print c; } f(1, \"two\", nil);"), vec!["1", "two", "nil"]);
    assert_eq!(
        lines("fun show(x) { print x; return x; } fun f(a, b) { return a - b; } print f(show(5), show(3));"),
        vec!["5", "3", "2"]
    );
}

#[test]
fn recursion() {
    assert_eq!(
        lines("fun fib(n) { if (n < 2) return n; return fib(n - 1) + fib(n - 2); } print fib(15);"),
        vec!["610"]
    );
    assert_eq!(lines("{ fun down(n) { if (n > 0) { print n; down(n - 1); } } down(3); }"), vec!["3", "2", "1"]);
}

#[test]
fn return_leaves_nested_blocks_and_loops() {
    let source = "fun find() { var i = 0; while (true) { { { if (i == 3) { return i; } } } i = i + 1; } } \
                  print find(); print \"after\";";
    assert_eq!(lines(source), vec!["3", "after"]);
    assert_eq!(
        lines("fun f() { for (var i = 0; ; i = i + 1) { for (;;) { return \"inner\"; } } } print f();"),
        vec!["inner"]
    );
}

#[test]
fn return_yields_from_the_innermost_call() {
    let source = "fun inner() { { return \"in\"; } } fun outer() { var v = inner(); print v; return \"out\"; } \
                  print outer();";
    assert_eq!(lines(source), vec!["in", "out"]);
}

#[test]
fn return_restores_the_callers_scope() {
    let mut i = Interpreter::new();
    load(&mut i, "var a = \"g\"; fun f() { var a = \"l\"; { { return a; } } } { var a = \"b\"; print f(); print a; } print a;");
    assert_eq!(finish(&mut i), (vec!["l".to_string(), "b".to_string(), "g".to_string()], None));
    assert_eq!(i.environment, 0);
    assert!(i.frames.is_empty() && i.values.is_empty());
}

#[test]
fn return_outside_a_function_ends_the_statement_only() {
    assert_eq!(lines("print 1; { print 2; return 5; print 3; } print 4;"), vec!["1", "2", "4"]);
    assert_eq!(lines("return; print 1;"), vec!["1"]);
}

#[test]
fn closures_share_their_scope() {
    let source = "var get; var set; \
                  { var v = 1; fun g() { return v; } fun s(x) { v = x; } get = g; set = s; } \
                  print get(); set(5); print get(); set(\"x\"); print get();";
    assert_eq!(lines(source), vec!["1", "5", "x"]);
}

#[test]
fn a_closure_sees_reassignment_after_its_definition() {
    assert_eq!(lines("{ var a = 1; fun f() { print a; } a = 2; f(); a = 3; f(); }"), vec!["2", "3"]);
    assert_eq!(lines("var a = 1; fun f() { print a; } a = 2; f();"), vec!["2"]);
}

#[test]
fn each_call_has_its_own_scope() {
    let source = "fun mk(n) { fun get() { return n; } return get; } \
                  var a = mk(1); var b = mk(2); print a(); print b(); print a();";
    assert_eq!(lines(source), vec!["1", "2", "1"]);
}

#[test]
fn resolution_binds_a_closure_to_the_declaration_it_saw() {
    let source = "var a = \"global\"; { fun show() { print a; } show(); var a = \"block\"; show(); }";
    assert_eq!(lines(source), vec!["global", "global"]);
}

#[test]
fn the_global_scope_persists_between_programs() {
    let mut i = Interpreter::new();
    load(&mut i, "var count = 0; fun bump() { count = count + 1; return count; }");
    assert_eq!(finish(&mut i), (vec![], None));
    load(&mut i, "print bump(); print bump();");
    assert_eq!(finish(&mut i), (vec!["1".to_string(), "2".to_string()], None));
    load(&mut i, "print count; print nope;");
    let (printed, error) = finish(&mut i);
    assert_eq!(printed, vec!["2"]);
    assert_eq!(error, Some(LoxError::error(1, "Undefined variable 'nope'.".to_string(), 19)));
    load(&mut i, "print bump();");
    assert_eq!(finish(&mut i), (vec!["3".to_string()], None));
    assert_eq!(i.units.len(), 4);
}

#[test]
fn undefined_variables() {
    assert_eq!(failure("print a;"), error(1, "Undefined variable 'a'.", 6));
    assert_eq!(failure("\n  a = 1;"), error(2, "Undefined variable 'a'.", 3));
    assert_eq!(failure("{ var a = 1; } print a;"), error(1, "Undefined variable 'a'.", 21));
    assert_eq!(failure("{ print b; var b = 1; }"), error(1, "Undefined variable 'b'.", 8));
}

#[test]
fn operands_must_be_numbers() {
    assert_eq!(failure("print 1 - \"a\";"), error(1, "Operands must be numbers.", 8));
    assert_eq!(failure("print nil * 2;"), error(1, "Operands must be numbers.", 10));
    assert_eq!(failure("print true / false;"), error(1, "Operands must be numbers.", 11));
    assert_eq!(failure("print 1 < \"2\";"), error(1, "Operands must be numbers.", 8));
    assert_eq!(failure("print \"a\" <= \"b\";"), error(1, "Operands must be numbers.", 10));
    assert_eq!(failure("print nil > 1;"), error(1, "Operands must be numbers.", 10));
    assert_eq!(failure("print 1 >= nil;"), error(1, "Operands must be numbers.", 8));
    assert_eq!(failure("print -\"a\";"), error(1, "Operand must be number.", 6));
    assert_eq!(failure("print -nil;"), error(1, "Operand must be number.", 6));
}

#[test]
fn plus_takes_two_numbers_or_two_strings() {
    let message = "Operands must both be numbers or both strings.";
    assert_eq!(failure("print 1 + \"a\";"), error(1, message, 8));
    assert_eq!(failure("print \"a\" + 1;"), error(1, message, 10));
    assert_eq!(failure("print nil + nil;"), error(1, message, 10));
    assert_eq!(lines("print \"a\" + \"b\" + \"c\"; print \"\" + \"\";"), vec!["abc", ""]);
}

#[test]
fn only_functions_can_be_called() {
    assert_eq!(failure("var a = 1; a();"), error(1, "Can only call functions and classes", 13));
    assert_eq!(failure("\"text\"(1,\n 2);"), error(2, "Can only call functions and classes", 12));
    assert_eq!(failure("nil();"), error(1, "Can only call functions and classes", 4));
}

#[test]
fn argument_count_must_match() {
    let message = "Parameters and arguments mismatch in number.";
    assert_eq!(failure("fun f(a) {} f();"), error(1, message, 14));
    assert_eq!(failure("fun f(a) {} f(1, 2);"), error(1, message, 18));
    assert_eq!(failure("fun f() {} f(nil);"), error(1, message, 16));
}

#[test]
fn a_runtime_error_ends_the_run() {
    let mut i = Interpreter::new();
    load(&mut i, "print 1; { var a = 2; fun f() { print a; return nil - 1; } f(); } print 3;");
    let (printed, error) = finish(&mut i);
    assert_eq!(printed, vec!["1", "2"]);
    assert_eq!(error.unwrap().message, "Operands must be numbers.");
    assert_eq!(i.control, Control::Idle);
    assert_eq!(i.environment, 0);
    assert!(i.frames.is_empty() && i.values.is_empty());
    assert_eq!(i.step(), Action::Finished);
}

#[test]
fn operands_are_evaluated_before_the_operator_is_applied() {
    let (printed, error) = execute("fun p(x) { print x; return x; } print p(1) + p(\"b\");");
    assert_eq!(printed, vec!["1", "b"]);
    assert!(error.is_some());
}

fn program(exprs: Vec<Expr>, stmts: Vec<Stmt>, lists: Vec<usize>, statements: Vec<usize>) -> Program {
    Program { tokens: Vec::new(), exprs, stmts, lists, statements }
}

fn malformed() -> LoxError {
    LoxError::error(0, "Malformed program.".to_string(), 0)
}

#[test]
fn the_no_op_expression_yields_nil() {
    let mut i = Interpreter::new();
    let p = program(vec![Expr::NoOp(NoOp {})], vec![Stmt::Print(Print { expr: 0 })], vec![], vec![0]);
    i.interpret(p, vec![None]);
    assert_eq!(finish(&mut i), (vec!["nil".to_string()], None));
}

#[test]
fn a_program_that_names_missing_nodes_fails() {
    let broken = vec![
        program(vec![], vec![Stmt::Print(Print { expr: 3 })], vec![], vec![0]),
        program(vec![], vec![], vec![], vec![5]),
        program(
            vec![Expr::Literal(Literal { value: LiteralKind::Num(9) })],
            vec![Stmt::Expression(Expression { expr: 0 })],
            vec![],
            vec![0],
        ),
        program(
            vec![
                Expr::Literal(Literal { value: LiteralKind::Nil }),
                Expr::Binary(Binary { left: 0, operator: 4, right: 0 }),
            ],
            vec![Stmt::Expression(Expression { expr: 1 })],
            vec![],
            vec![0],
        ),
    ];
    for p in broken {
        let mut i = Interpreter::new();
        i.interpret(p, vec![]);
        assert_eq!(finish(&mut i), (vec![], Some(malformed())));
        assert_eq!(i.control, Control::Idle);
    }
}

#[test]
fn a_state_that_no_run_reaches_fails() {
    let mut i = Interpreter::new();
    i.control = Control::Value;
    assert_eq!(i.step(), Action::Failed(malformed()));
    let mut i = Interpreter::new();
    i.control = Control::Returning;
    assert_eq!(i.step(), Action::Failed(malformed()));
    let mut i = Interpreter::new();
    i.control = Control::Eval(Evalable::Stmt(0));
    assert_eq!(i.eval(Evalable::Expr(0)), Action::Failed(malformed()));
    let mut i = Interpreter::new();
    i.values.push(LoxObject::Nil);
    i.frames.push(Frame::Block { statements: List { start: 0, len: 0 }, next: 0, restore: None });
    i.control = Control::Value;
    assert_eq!(i.step(), Action::Failed(malformed()));
}

#[test]
fn steps_of_a_print_statement() {
    let mut i = Interpreter::new();
    load(&mut i, "print nil;");
    assert_eq!(i.frames, vec![Frame::Program { next: 0 }]);
    assert_eq!(i.control, Control::Normal);
    assert_eq!(i.step(), Action::Continue);
    assert_eq!(i.frames, vec![Frame::Program { next: 1 }]);
    assert_eq!(i.control, Control::Eval(Evalable::Stmt(0)));
    assert_eq!(i.step(), Action::Continue);
    assert_eq!(i.frames, vec![Frame::Program { next: 1 }, Frame::Print]);
    assert_eq!(i.control, Control::Eval(Evalable::Expr(0)));
    assert_eq!(i.step(), Action::Continue);
    assert_eq!(i.values, vec![LoxObject::Nil]);
    assert_eq!(i.control, Control::Value);
    assert_eq!(i.step(), Action::Print("nil".to_string()));
    assert!(i.values.is_empty());
    assert_eq!(i.control, Control::Normal);
    assert_eq!(i.step(), Action::Continue);
    assert!(i.frames.is_empty());
    assert_eq!(i.step(), Action::Finished);
    assert_eq!(i.control, Control::Idle);
}

#[test]
fn front_end_stops_at_the_first_failing_phase() {
    let rejected = compile("print @; var = 1;".to_string()).err().unwrap();
    assert_eq!(rejected.phase, RuntimeResult::LexicalError);
    assert_eq!(rejected.errors, vec![error(1, "Unexpected character.", 6)]);

    let rejected = compile("var = 1; { var a = a; }".to_string()).err().unwrap();
    assert_eq!(rejected.phase, RuntimeResult::ParserError);
    assert_eq!(rejected.errors, vec![error(1, "Expected variable name.", 4)]);

    let rejected = compile("{ var a = a; }".to_string()).err().unwrap();
    assert_eq!(rejected.phase, RuntimeResult::ResolverError);
    assert_eq!(rejected.errors, vec![error(1, "Can't read local variable in its own initializer.", 10)]);

    let compiled = compile("{ var a = 1; print a; }".to_string()).ok().unwrap();
    assert_eq!(compiled.locals.len(), compiled.program.exprs.len());
    assert_eq!(compiled.locals, vec![None, Some(0)]);
}

/// Runs `source` step by step and checks, at every read of a resolved
/// variable, that the scope the resolver's depth leads to binds the name.
/// Returns how many such reads there were.
fn resolved_reads(source: &str) -> usize {
    let mut i = Interpreter::new();
    load(&mut i, source);
    let mut reads = 0;
    loop {
        if let Control::Eval(Evalable::Expr(id)) = i.control {
            let unit = &i.units[i.unit];
            if let (Expr::Variable(v), Some(depth)) = (unit.program.exprs[id], unit.locals[id]) {
                let mut scope = i.environment;
                for _ in 0..depth {
                    scope = i.environments[scope].enclosing.expect("the chain is too short");
                }
                let name = unit.program.tokens[v.name].lexeme();
                assert!(i.environments[scope].values.contains_key(name.as_str()), "{}", name);
                reads += 1;
            }
        }
        match i.step() {
            Action::Continue | Action::Print(_) | Action::PrintNumber(_) => {}
            Action::ParseNumber(numeral) => i.supply(numeral.parse::<f64>().unwrap().to_bits()),
            Action::Arithmetic(operation, a, b) => i.supply(compute(operation, a, b)),
            Action::Finished => return reads,
            Action::Failed(error) => panic!("{:?}", error),
        }
    }
}

#[test]
fn a_resolved_depth_leads_to_a_scope_that_binds_the_name() {
    assert_eq!(resolved_reads("var a = 1; print a;"), 0);
    assert_eq!(resolved_reads("{ var a = 1; { print a; { print a; } } }"), 2);
    assert_eq!(
        resolved_reads(
            "fun mk() { var i = 0; fun inc() { i = i + 1; return i; } return inc; } \
             var c = mk(); c(); c();"
        ),
        5
    );
    assert_eq!(
        resolved_reads("{ var a = 1; fun f(n) { if (n > 0) { return f(n - 1) + a; } return a; } print f(3); }"),
        15
    );
    assert!(resolved_reads("for (var i = 0; i < 3; i = i + 1) { var j = i; print j; }") > 0);
}
