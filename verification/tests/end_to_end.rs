use rloxj::front_end::compile;
use rloxj::interpreter::{Action, Interpreter};
use rloxj::machine::Operation;

fn answer(operation: Operation, a: u64, b: u64) -> u64 {
    let (x, y) = (f64::from_bits(a), f64::from_bits(b));
    let r = match operation {
        Operation::Add => x + y,
        Operation::Subtract => x - y,
        Operation::Multiply => x * y,
        Operation::Divide => x / y,
    };
    r.to_bits()
}

/// Runs the loaded program to its end; returns what it printed, and the
/// runtime error if one ended it.
fn drive(interpreter: &mut Interpreter) -> (Vec<String>, Option<String>) {
    let mut printed = Vec::new();
    loop {
        match interpreter.run(1000) {
            Action::Continue => {}
            Action::Print(text) => printed.push(text),
            Action::PrintNumber(bits) => printed.push(format!("{}", f64::from_bits(bits))),
            Action::ParseNumber(numeral) => {
                interpreter.supply(numeral.parse::<f64>().unwrap().to_bits())
            }
            Action::Arithmetic(operation, a, b) => interpreter.supply(answer(operation, a, b)),
            Action::Finished => return (printed, None),
            Action::Failed(error) => return (printed, Some(error.to_string())),
        }
    }
}

fn run(source: &str) -> (Vec<String>, Option<String>) {
    let compiled = match compile(source.to_string()) {
        Ok(compiled) => compiled,
        Err(rejected) => panic!("rejected: {:?}", rejected.errors),
    };
    let mut interpreter = Interpreter::new();
    interpreter.interpret(compiled.program, compiled.locals);
    drive(&mut interpreter)
}

fn output(source: &str) -> String {
    let (printed, error) = run(source);
    assert_eq!(error, None);
    printed.join("\n")
}

#[test]
fn prints_a_sum() {
    assert_eq!(output("print 1 + 2;"), "3");
}

#[test]
fn joins_strings() {
    assert_eq!(output("var a = \"hi\"; var b = a + \" there\"; print b;"), "hi there");
}

#[test]
fn block_shadows_and_restores() {
    assert_eq!(output("var a = 1; { var a = 2; print a; } print a;"), "2\n1");
}

#[test]
fn counter_closure_keeps_its_state() {
    let source = "fun mk() { var i = 0; fun inc() { i = i + 1; return i; } return inc; } \
                  var c = mk(); print c(); print c(); print c();";
    assert_eq!(output(source), "1\n2\n3");
}

#[test]
fn zero_is_truthy() {
    assert_eq!(output("if (0) print \"t\"; else print \"f\";"), "t");
}

#[test]
fn for_loop_counts() {
    assert_eq!(output("for (var i=0; i<3; i=i+1) print i;"), "0\n1\n2");
}
