use rloxj::environment::Environment;
use rloxj::error::LoxError;
use rloxj::lox_object::{FunctionObject, LoxObject};
use rloxj::stmt::is_truthy;
use rloxj::token::{Token, TokenType};

fn name(text: &str) -> Token {
    Token::new(TokenType::Identifier, text.to_string(), None, 4, 9)
}

fn undefined(text: &str) -> LoxError {
    LoxError::error(4, format!("Undefined variable '{}'.", text), 9)
}

/// global <- block <- inner, and a sibling of block.
fn scopes() -> Vec<Environment> {
    let mut global = Environment::new();
    global.define("g".to_string(), LoxObject::Number(1));
    global.define("x".to_string(), LoxObject::Bool(true));
    let mut block = Environment::new_with_enclosing(0);
    block.define("x".to_string(), LoxObject::Bool(false));
    let inner = Environment::new_with_enclosing(1);
    let sibling = Environment::new_with_enclosing(0);
    vec![global, block, inner, sibling]
}

#[test]
fn new_scopes_are_empty() {
    let e = Environment::new();
    assert!(e.values.is_empty());
    assert_eq!(e.enclosing, None);
    let e = Environment::new_with_enclosing(3);
    assert!(e.values.is_empty());
    assert_eq!(e.enclosing, Some(3));
}

#[test]
fn define_replaces_silently() {
    let mut e = Environment::new();
    e.define("a".to_string(), LoxObject::Nil);
    e.define("a".to_string(), LoxObject::Number(7));
    assert_eq!(e.values.len(), 1);
    assert_eq!(e.values.get("a"), Some(&LoxObject::Number(7)));
}

#[test]
fn get_walks_outwards() {
    let s = scopes();
    assert_eq!(Environment::get(&s, 2, &name("g")), Ok(LoxObject::Number(1)));
    assert_eq!(Environment::get(&s, 2, &name("x")), Ok(LoxObject::Bool(false)));
    assert_eq!(Environment::get(&s, 3, &name("x")), Ok(LoxObject::Bool(true)));
    assert_eq!(Environment::get(&s, 0, &name("x")), Ok(LoxObject::Bool(true)));
}

#[test]
fn get_of_an_unbound_name_fails() {
    let s = scopes();
    assert_eq!(Environment::get(&s, 2, &name("nope")), Err(undefined("nope")));
    assert_eq!(Environment::get(&s, 9, &name("g")), Err(undefined("g")));
    assert_eq!(Environment::undefined(&name("a")), undefined("a"));
}

#[test]
fn assign_updates_the_nearest_binding() {
    let mut s = scopes();
    assert_eq!(Environment::assign(&mut s, 2, &name("x"), LoxObject::Number(5)), Ok(()));
    assert_eq!(s[1].values.get("x"), Some(&LoxObject::Number(5)));
    assert_eq!(s[0].values.get("x"), Some(&LoxObject::Bool(true)));
    assert!(s[2].values.is_empty());

    assert_eq!(Environment::assign(&mut s, 2, &name("g"), LoxObject::Nil), Ok(()));
    assert_eq!(s[0].values.get("g"), Some(&LoxObject::Nil));
    assert_eq!(Environment::get(&s, 3, &name("g")), Ok(LoxObject::Nil));
}

#[test]
fn assign_never_creates_a_binding() {
    let mut s = scopes();
    assert_eq!(
        Environment::assign(&mut s, 2, &name("fresh"), LoxObject::Nil),
        Err(undefined("fresh"))
    );
    for scope in &s {
        assert!(!scope.values.contains_key("fresh"));
    }
}

#[test]
fn ancestor_follows_exactly_that_many_links() {
    let s = scopes();
    assert_eq!(Environment::ancestor(&s, 2, 0), Some(2));
    assert_eq!(Environment::ancestor(&s, 2, 1), Some(1));
    assert_eq!(Environment::ancestor(&s, 2, 2), Some(0));
    assert_eq!(Environment::ancestor(&s, 2, 3), None);
    assert_eq!(Environment::ancestor(&s, 3, 1), Some(0));
    assert_eq!(Environment::ancestor(&s, 4, 0), None);
}

#[test]
fn holder_names_the_binding_scope() {
    let s = scopes();
    assert_eq!(Environment::holder(&s, 2, "x"), Some(1));
    assert_eq!(Environment::holder(&s, 2, "g"), Some(0));
    assert_eq!(Environment::holder(&s, 3, "x"), Some(0));
    assert_eq!(Environment::holder(&s, 2, "y"), None);
}

#[test]
fn a_link_that_does_not_lead_outwards_ends_the_walk() {
    let mut looped = Environment::new_with_enclosing(0);
    looped.define("a".to_string(), LoxObject::Nil);
    let s = vec![Environment::new_with_enclosing(0), looped];
    assert_eq!(Environment::holder(&s, 0, "a"), None);
    assert_eq!(Environment::holder(&s, 1, "b"), None);
}

#[test]
fn truthiness() {
    assert!(!is_truthy(LoxObject::Nil));
    assert!(!is_truthy(LoxObject::Bool(false)));
    assert!(is_truthy(LoxObject::Bool(true)));
    assert!(is_truthy(LoxObject::Number(0)));
    assert!(is_truthy(LoxObject::Number(f64::NAN.to_bits())));
    assert!(is_truthy(LoxObject::String(0)));
    assert!(is_truthy(LoxObject::Function(FunctionObject {
        arity: 0,
        unit: 0,
        declaration: 0,
        environment: 0
    })));
}
