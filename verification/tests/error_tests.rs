use rloxj::error::{decimal_text, LoxError, RuntimeResult};

#[test]
fn error_holds_its_parts() {
    let e = LoxError::error(3, "Unexpected character.".to_string(), 14);
    assert_eq!(e.line, 3);
    assert_eq!(e.message, "Unexpected character.");
    assert_eq!(e.position, 14);
}

#[test]
fn error_text_has_the_documented_shape() {
    let e = LoxError::error(3, "Unexpected character.".to_string(), 14);
    assert_eq!(e.to_string(), "[line 3, position 14] Error: Unexpected character.");
    let e = LoxError::error(0, String::new(), 0);
    assert_eq!(e.to_string(), "[line 0, position 0] Error: ");
}

#[test]
fn decimal_numerals() {
    assert_eq!(decimal_text(0), "0");
    assert_eq!(decimal_text(7), "7");
    assert_eq!(decimal_text(10), "10");
    assert_eq!(decimal_text(1234567890), "1234567890");
    assert_eq!(decimal_text(usize::MAX), usize::MAX.to_string());
}

#[test]
fn exit_codes() {
    assert_eq!(RuntimeResult::Safe.exit_code(), 0);
    assert_eq!(RuntimeResult::LexicalError.exit_code(), 65);
    assert_eq!(RuntimeResult::ParserError.exit_code(), 65);
    assert_eq!(RuntimeResult::ResolverError.exit_code(), 65);
    assert_eq!(RuntimeResult::InterpreterError.exit_code(), 70);
}
