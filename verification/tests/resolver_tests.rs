use rloxj::error::LoxError;
use rloxj::expr::Expr;
use rloxj::parser::Parser;
use rloxj::resolver::Resolver;
use rloxj::scanner::Scanner;
use rloxj::token::{Token, TokenType};

fn resolved(source: &str) -> (Vec<(String, usize, Option<usize>)>, Vec<LoxError>) {
    let tokens = Scanner::new(source.to_string()).scan_tokens().unwrap();
    let mut parser = Parser::new(tokens);
    parser.parse();
    assert!(parser.errors.is_empty());
    let program = parser.into_program();
    let mut resolver = Resolver::new(&program);
    resolver.resolve(&program);
    assert!(resolver.scopes.is_empty());
    assert_eq!(resolver.locals.len(), program.exprs.len());
    // The target of an assignment is first parsed as a variable; that node
    // is not part of the tree.
    let targets: Vec<usize> = program
        .exprs
        .iter()
        .filter_map(|e| match e {
            Expr::Assign(a) => Some(a.name),
            _ => None,
        })
        .collect();
    let mut uses = Vec::new();
    for (id, e) in program.exprs.iter().enumerate() {
        let name = match e {
            Expr::Variable(v) if targets.contains(&v.name) => {
                assert_eq!(resolver.locals[id], None);
                continue;
            }
            Expr::Variable(v) => v.name,
            Expr::Assign(a) => a.name,
            _ => {
                assert_eq!(resolver.locals[id], None);
                continue;
            }
        };
        uses.push((program.tokens[name].lexeme(), program.tokens[name].position(), resolver.locals[id]));
    }
    uses.sort_by_key(|u| u.1);
    (uses, resolver.errors)
}

fn depths(source: &str) -> Vec<(String, Option<usize>)> {
    let (uses, errors) = resolved(source);
    assert_eq!(errors, vec![]);
    uses.into_iter().map(|(name, _, depth)| (name, depth)).collect()
}

fn name(text: &str) -> Token {
    Token::new(TokenType::Identifier, text.to_string(), None, 1, 0)
}

fn local(name: &str, depth: usize) -> (String, Option<usize>) {
    (name.to_string(), Some(depth))
}

fn global(name: &str) -> (String, Option<usize>) {
    (name.to_string(), None)
}

#[test]
fn globals_are_left_unresolved() {
    assert_eq!(depths("var a = 1; print a; a = 2;"), vec![global("a"), global("a")]);
    assert_eq!(depths("print nowhere;"), vec![global("nowhere")]);
}

#[test]
fn locals_get_the_distance_to_their_scope() {
    assert_eq!(
        depths("{ var a = 1; print a; { print a; { a = 2; } } }"),
        vec![local("a", 0), local("a", 1), local("a", 2)]
    );
}

#[test]
fn the_innermost_declaration_wins() {
    assert_eq!(
        depths("{ var a = 1; { var a = 2; print a; } print a; }"),
        vec![local("a", 0), local("a", 0)]
    );
}

#[test]
fn a_use_before_the_declaration_sees_the_outer_one() {
    assert_eq!(
        depths("{ var a = 1; { print a; var a = 2; print a; } }"),
        vec![local("a", 1), local("a", 0)]
    );
    assert_eq!(depths("{ print a; var a = 2; }"), vec![global("a")]);
}

#[test]
fn mixed_globals_and_locals() {
    assert_eq!(
        depths("var g = 1; { var l = g; print l + g; }"),
        vec![global("g"), local("l", 0), global("g")]
    );
}

#[test]
fn parameters_and_body_share_a_scope() {
    assert_eq!(
        depths("fun f(x, y) { var z = x; return z + y; }"),
        vec![local("x", 0), local("z", 0), local("y", 0)]
    );
    assert_eq!(
        depths("{ var b = 1; fun f(x) { { return x + b; } } }"),
        vec![local("x", 1), local("b", 2)]
    );
}

#[test]
fn a_function_can_call_itself() {
    assert_eq!(depths("{ fun f() { return f(); } }"), vec![local("f", 1)]);
    assert_eq!(depths("fun f() { return f(); }"), vec![global("f")]);
}

#[test]
fn closures_resolve_through_the_enclosing_function() {
    assert_eq!(
        depths("fun mk() { var i = 0; fun inc() { i = i + 1; return i; } return inc; }"),
        vec![local("i", 1), local("i", 1), local("i", 1), local("inc", 0)]
    );
}

#[test]
fn lowered_for_loop_resolves_like_its_blocks() {
    assert_eq!(
        depths("for (var i = 0; i < 3; i = i + 1) print i;"),
        vec![local("i", 0), local("i", 1), local("i", 1), local("i", 1)]
    );
}

#[test]
fn call_arguments_and_conditions_are_resolved() {
    assert_eq!(
        depths("{ var a = 1; if (a) print a; else while (a) f(a, a); }"),
        vec![local("a", 0), local("a", 0), local("a", 0), global("f"), local("a", 0), local("a", 0)]
    );
}

#[test]
fn reading_a_local_in_its_own_initializer_is_an_error() {
    let (uses, errors) = resolved("{ var a = a; }");
    assert_eq!(
        errors,
        vec![LoxError::error(
            1,
            "Can't read local variable in its own initializer.".to_string(),
            10
        )]
    );
    assert_eq!(uses, vec![("a".to_string(), 10, None)]);
}

#[test]
fn a_global_may_name_itself_in_its_initializer() {
    assert_eq!(depths("var a = a;"), vec![global("a")]);
}

#[test]
fn an_outer_variable_may_be_read_while_shadowing_it_is_not() {
    let (_, errors) = resolved("{ var a = 1; { var a = a; } }");
    assert_eq!(errors.len(), 1);
    assert_eq!(errors[0].position, 23);
}

#[test]
fn resolution_goes_on_after_an_error() {
    let (uses, errors) = resolved("{ var a = a; var b = b; var c = 1; print c; }");
    assert_eq!(errors.len(), 2);
    assert_eq!(uses.last().unwrap(), &("c".to_string(), 41, Some(0)));
}

#[test]
fn the_same_program_resolves_the_same_way() {
    let source = "var g; { var a = g; fun f(x) { return x + a + g; } print f(a); }";
    assert_eq!(resolved(source), resolved(source));
}

#[test]
fn scope_stack_primitives() {
    let tokens = Scanner::new("a;".to_string()).scan_tokens().unwrap();
    let mut parser = Parser::new(tokens);
    parser.parse();
    let program = parser.into_program();
    let mut r = Resolver::new(&program);
    assert_eq!(r.locals, vec![None]);

    r.declare(&name("a"));
    r.define(&name("a"));
    assert!(r.scopes.is_empty());
    assert_eq!(r.distance("a"), None);
    r.end_scope();
    assert!(r.scopes.is_empty());

    r.begin_scope();
    r.declare(&name("a"));
    assert_eq!(r.scopes[0].get("a"), Some(&false));
    r.define(&name("a"));
    assert_eq!(r.scopes[0].get("a"), Some(&true));
    r.begin_scope();
    r.begin_scope();
    r.define(&name("b"));
    assert_eq!(r.distance("a"), Some(2));
    assert_eq!(r.distance("b"), Some(0));
    assert_eq!(r.distance("c"), None);

    r.resolve_local(0, &name("a"));
    assert_eq!(r.locals, vec![Some(2)]);
    r.resolve_local(0, &name("c"));
    assert_eq!(r.locals, vec![Some(2)]);
    r.resolve_local(7, &name("a"));
    assert_eq!(r.locals, vec![Some(2)]);

    r.end_scope();
    assert_eq!(r.scopes.len(), 2);
    assert_eq!(r.distance("b"), None);
    assert_eq!(r.distance("a"), Some(1));
}
