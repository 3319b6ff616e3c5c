use rloxj::ast::List;
use rloxj::error::LoxError;
use rloxj::expr::{Binary, Expr, Kind, Literal, LiteralKind, Variable};
use rloxj::parser::{ParseError, ParseErrorKind, Parser, Precedence};
use rloxj::scanner::Scanner;
use rloxj::stmt::{Expression, Stmt};
use rloxj::token::TokenType;

fn parse(source: &str) -> Parser {
    let tokens = Scanner::new(source.to_string()).scan_tokens().unwrap();
    let mut parser = Parser::new(tokens);
    parser.parse();
    parser
}

fn items(p: &Parser, list: List) -> Vec<usize> {
    p.lists[list.start..list.start + list.len].to_vec()
}

fn show_expr(p: &Parser, id: usize) -> String {
    match p.exprs[id] {
        Expr::Literal(l) => match l.value {
            LiteralKind::String(t) | LiteralKind::Num(t) => p.tokens[t].lexeme(),
            LiteralKind::True => "true".to_string(),
            LiteralKind::False => "false".to_string(),
            LiteralKind::Nil => "nil".to_string(),
        },
        Expr::Unary(u) => format!("({} {})", p.tokens[u.operator].lexeme(), show_expr(p, u.expr)),
        Expr::Binary(b) => format!(
            "({} {} {})",
            p.tokens[b.operator].lexeme(),
            show_expr(p, b.left),
            show_expr(p, b.right)
        ),
        Expr::Logical(l) => format!(
            "({} {} {})",
            p.tokens[l.operator].lexeme(),
            show_expr(p, l.left),
            show_expr(p, l.right)
        ),
        Expr::Grouping(g) => format!("(group {})", show_expr(p, g.expr)),
        Expr::NoOp(_) => "noop".to_string(),
        Expr::Variable(v) => p.tokens[v.name].lexeme(),
        Expr::Assign(a) => format!("(= {} {})", p.tokens[a.name].lexeme(), show_expr(p, a.value)),
        Expr::Call(c) => {
            let mut text = format!("(call {}", show_expr(p, c.callee));
            for a in items(p, c.arguments) {
                text.push(' ');
                text.push_str(&show_expr(p, a));
            }
            text.push(')');
            text
        }
    }
}

fn show_stmt(p: &Parser, id: usize) -> String {
    match p.stmts[id] {
        Stmt::Expression(e) => format!("(expr {})", show_expr(p, e.expr)),
        Stmt::Print(s) => format!("(print {})", show_expr(p, s.expr)),
        Stmt::Var(v) => format!("(var {} {})", p.tokens[v.name].lexeme(), show_expr(p, v.initializer)),
        Stmt::Block(b) => {
            let mut text = "(block".to_string();
            for s in items(p, b.statements) {
                text.push(' ');
                text.push_str(&show_stmt(p, s));
            }
            text.push(')');
            text
        }
        Stmt::If(i) => match i.else_branch {
            Some(e) => format!(
                "(if {} {} {})",
                show_expr(p, i.condition),
                show_stmt(p, i.then_branch),
                show_stmt(p, e)
            ),
            None => format!("(if {} {})", show_expr(p, i.condition), show_stmt(p, i.then_branch)),
        },
        Stmt::While(w) => format!("(while {} {})", show_expr(p, w.condition), show_stmt(p, w.body)),
        Stmt::Function(f) => {
            let params: Vec<String> = items(p, f.params).iter().map(|t| p.tokens[*t].lexeme()).collect();
            let mut text = format!("(fun {} ({})", p.tokens[f.name].lexeme(), params.join(" "));
            for s in items(p, f.body) {
                text.push(' ');
                text.push_str(&show_stmt(p, s));
            }
            text.push(')');
            text
        }
        Stmt::Return(r) => match r.value {
            Some(e) => format!("(return {})", show_expr(p, e)),
            None => "(return)".to_string(),
        },
    }
}

fn tree(source: &str) -> Vec<String> {
    let p = parse(source);
    assert_eq!(p.errors, vec![], "{}", source);
    p.statements.iter().map(|s| show_stmt(&p, *s)).collect()
}

fn one(source: &str) -> String {
    let statements = tree(source);
    assert_eq!(statements.len(), 1);
    statements[0].clone()
}

fn errors(source: &str) -> Vec<LoxError> {
    parse(source).diagnostics()
}

fn error(line: usize, message: &str, position: usize) -> LoxError {
    LoxError::error(line, message.to_string(), position)
}

#[test]
fn empty_program() {
    let p = parse("");
    assert!(p.statements.is_empty() && p.errors.is_empty());
    assert!(p.exprs.is_empty() && p.stmts.is_empty() && p.lists.is_empty());
}

#[test]
fn nodes_are_built_children_first() {
    let p = parse("1 + x;");
    assert_eq!(
        p.exprs,
        vec![
            Expr::Literal(Literal { value: LiteralKind::Num(0) }),
            Expr::Variable(Variable { name: 2 }),
            Expr::Binary(Binary { left: 0, operator: 1, right: 1 }),
        ]
    );
    assert_eq!(p.stmts, vec![Stmt::Expression(Expression { expr: 2 })]);
    assert_eq!(p.statements, vec![0]);
    assert_eq!(p.exprs[1].kind(), Kind::Variable(2));
    assert_eq!(p.exprs[2].kind(), Kind::Binary);
    assert_eq!(p.stmts[0].kind(), rloxj::stmt::Kind::Expression);
}

#[test]
fn factor_binds_tighter_than_term() {
    assert_eq!(one("1 + 2 * 3;"), "(expr (+ 1 (* 2 3)))");
    assert_eq!(one("1 * 2 + 3;"), "(expr (+ (* 1 2) 3))");
    assert_eq!(one("1 - 2 / 3 - 4;"), "(expr (- (- 1 (/ 2 3)) 4))");
}

#[test]
fn binary_operators_associate_to_the_left() {
    assert_eq!(one("1 - 2 - 3;"), "(expr (- (- 1 2) 3))");
    assert_eq!(one("8 / 4 / 2;"), "(expr (/ (/ 8 4) 2))");
    assert_eq!(one("a == b != c;"), "(expr (!= (== a b) c))");
    assert_eq!(one("a < b <= c > d >= e;"), "(expr (>= (> (<= (< a b) c) d) e))");
}

#[test]
fn precedence_ladder() {
    assert_eq!(
        one("a or b and c == d < e + f * -g;"),
        "(expr (or a (and b (== c (< d (+ e (* f (- g))))))))"
    );
    assert_eq!(one("a and b or c and d;"), "(expr (or (and a b) (and c d)))");
}

#[test]
fn unary_operators_nest() {
    assert_eq!(one("!!a;"), "(expr (! (! a)))");
    assert_eq!(one("-!-1;"), "(expr (- (! (- 1))))");
    assert_eq!(one("- a * b;"), "(expr (* (- a) b))");
}

#[test]
fn grouping_overrides_precedence() {
    assert_eq!(one("(1 + 2) * 3;"), "(expr (* (group (+ 1 2)) 3))");
    assert_eq!(one("((a));"), "(expr (group (group a)))");
}

#[test]
fn literals() {
    assert_eq!(
        tree("true; false; nil; 1.5; \"s\";"),
        vec!["(expr true)", "(expr false)", "(expr nil)", "(expr 1.5)", "(expr \"s\")"]
    );
}

#[test]
fn assignment_associates_to_the_right() {
    assert_eq!(one("a = b = c;"), "(expr (= a (= b c)))");
    assert_eq!(one("a = b or c;"), "(expr (= a (or b c)))");
}

#[test]
fn invalid_assignment_target_is_recorded_and_parsing_goes_on() {
    let p = parse("1 = 2; print 3;");
    assert_eq!(p.errors, vec![ParseError { kind: ParseErrorKind::InvalidAssignmentTarget, token: 1 }]);
    assert_eq!(p.diagnostics(), vec![error(1, "Invalid assignment target.", 2)]);
    let shown: Vec<String> = p.statements.iter().map(|s| show_stmt(&p, *s)).collect();
    assert_eq!(shown, vec!["(expr 1)", "(print 3)"]);
    assert_eq!(errors("a + b = c;"), vec![error(1, "Invalid assignment target.", 6)]);
    assert_eq!(errors("(a) = 1;"), vec![error(1, "Invalid assignment target.", 4)]);
}

#[test]
fn calls_chain() {
    assert_eq!(one("f();"), "(expr (call f))");
    assert_eq!(one("f(1)(2, 3);"), "(expr (call (call f 1) 2 3))");
    assert_eq!(one("f(g(1), a = 2);"), "(expr (call f (call g 1) (= a 2)))");
    assert_eq!(one("-f(1);"), "(expr (- (call f 1)))");
}

#[test]
fn call_names_its_closing_parenthesis() {
    let p = parse("f(1,\n 2);");
    match p.exprs[p.exprs.len() - 1] {
        Expr::Call(c) => {
            assert_eq!(p.tokens[c.paren].token_type(), TokenType::RightParen);
            assert_eq!(p.tokens[c.paren].line(), 2);
            assert_eq!(c.arguments.len, 2);
        }
        _ => panic!("not a call"),
    }
}

#[test]
fn declarations_and_statements() {
    assert_eq!(one("var a;"), "(var a nil)");
    assert_eq!(one("var a = 1 + 2;"), "(var a (+ 1 2))");
    assert_eq!(one("print a;"), "(print a)");
    assert_eq!(one("{ }"), "(block)");
    assert_eq!(one("{ var a = 1; { print a; } }"), "(block (var a 1) (block (print a)))");
    assert_eq!(one("if (a) print 1;"), "(if a (print 1))");
    assert_eq!(one("if (a) print 1; else { print 2; }"), "(if a (print 1) (block (print 2)))");
    assert_eq!(one("while (a < 3) a = a + 1;"), "(while (< a 3) (expr (= a (+ a 1))))");
    assert_eq!(one("return;"), "(return)");
    assert_eq!(one("return a + 1;"), "(return (+ a 1))");
}

#[test]
fn else_belongs_to_the_nearest_if() {
    assert_eq!(
        one("if (a) if (b) print 1; else print 2;"),
        "(if a (if b (print 1) (print 2)))"
    );
}

#[test]
fn functions() {
    assert_eq!(one("fun f() { }"), "(fun f ())");
    assert_eq!(one("fun add(a, b) { return a + b; }"), "(fun add (a b) (return (+ a b)))");
    assert_eq!(
        one("fun mk() { var i = 0; fun inc() { i = i + 1; return i; } return inc; }"),
        "(fun mk () (var i 0) (fun inc () (expr (= i (+ i 1))) (return i)) (return inc))"
    );
}

#[test]
fn for_is_lowered_to_while() {
    assert_eq!(
        one("for (var i = 0; i < 3; i = i + 1) print i;"),
        "(block (var i 0) (while (< i 3) (block (print i) (expr (= i (+ i 1))))))"
    );
    assert_eq!(one("for (;;) print 1;"), "(while true (print 1))");
    assert_eq!(one("for (; a;) print 1;"), "(while a (print 1))");
    assert_eq!(one("for (a = 0;;) { }"), "(block (expr (= a 0)) (while true (block)))");
    assert_eq!(
        one("for (;; a = a + 1) print a;"),
        "(while true (block (print a) (expr (= a (+ a 1)))))"
    );
}

#[test]
fn clean_parse_reaches_the_end() {
    for source in ["", "print 1;", "var a = 1; { print a; } fun f(x) { return x; } f(a);"] {
        let p = parse(source);
        assert!(p.errors.is_empty());
        assert_eq!(p.current, p.tokens.len() - 1);
        assert_eq!(p.tokens[p.current].token_type(), TokenType::EOF);
    }
}

#[test]
fn the_end_is_reached_after_errors_too() {
    for source in ["print", "var = ; {", "fun f(", "((("] {
        let p = parse(source);
        assert!(!p.errors.is_empty());
        assert_eq!(p.current, p.tokens.len() - 1);
    }
}

#[test]
fn missing_expression() {
    assert_eq!(errors("print ;"), vec![error(1, "Expected expression at token ;.", 6)]);
    assert_eq!(errors("1 +"), vec![error(1, "Expected expression at token .", 3)]);
    assert_eq!(errors("\n\n  )"), vec![error(3, "Expected expression at token ).", 4)]);
}

#[test]
fn missing_semicolons() {
    assert_eq!(errors("print 1"), vec![error(1, "Expected ';' after value.", 7)]);
    assert_eq!(errors("1 2;"), vec![error(1, "Expected ';' after value.", 2)]);
    assert_eq!(errors("var a = 1"), vec![error(1, "Expected ';' after variable declaration.", 9)]);
    assert_eq!(errors("fun f() { return 1 }"), vec![error(1, "Expected ';' after return value.", 19)]);
}

#[test]
fn missing_parentheses_and_braces() {
    assert_eq!(errors("(1 2"), vec![error(1, "Expect ')' after expression.", 3)]);
    assert_eq!(errors("f(1 2);"), vec![error(1, "Expected ')' after arguments.", 4)]);
    assert_eq!(errors("{ print 1;"), vec![error(1, "Expected '}' after block.", 10)]);
    assert_eq!(errors("if x"), vec![error(1, "Expected '(' after 'if'.", 3)]);
    assert_eq!(errors("if (x y"), vec![error(1, "Expected ')' after condition.", 6)]);
    assert_eq!(errors("while x"), vec![error(1, "Expected '(' after 'while'", 6)]);
    assert_eq!(errors("while (x y"), vec![error(1, "Expected ')' after condition", 9)]);
    assert_eq!(errors("for x"), vec![error(1, "Expected '(' after 'for'.", 4)]);
    assert_eq!(errors("for (;1) x;"), vec![error(1, "Expected ';' after loop condition.", 7)]);
    assert_eq!(errors("for (;;1 x"), vec![error(1, "Expected ')' after 'for' clause.", 9)]);
}

#[test]
fn malformed_declarations() {
    assert_eq!(errors("var 1;"), vec![error(1, "Expected variable name.", 4)]);
    assert_eq!(errors("fun (a) {}"), vec![error(1, "Expected function name.", 4)]);
    assert_eq!(errors("fun f {}"), vec![error(1, "Expected '(' after function name.", 6)]);
    assert_eq!(errors("fun f(1) {}"), vec![error(1, "Expected parameter name", 6)]);
    assert_eq!(errors("fun f(a b) {}"), vec![error(1, "Expected ')' after parameters.", 8)]);
    assert_eq!(errors("fun f() print 1;"), vec![error(1, "Expected '{' before function body.", 8)]);
}

#[test]
fn var_is_not_a_statement() {
    assert_eq!(errors("if (a) var b = 1;"), vec![error(1, "Expected expression at token var.", 7)]);
}

fn names(count: usize) -> String {
    let list: Vec<String> = (0..count).map(|i| format!("a{}", i)).collect();
    list.join(", ")
}

#[test]
fn at_most_255_parameters() {
    let p = parse(&format!("fun f({}) {{ }}", names(255)));
    assert!(p.errors.is_empty());
    match p.stmts[p.statements[0]] {
        Stmt::Function(f) => assert_eq!(f.params.len, 255),
        _ => panic!("not a function"),
    }
    let source = format!("fun f({}) {{ }}", names(256));
    let p = parse(&source);
    assert_eq!(p.errors.len(), 1);
    assert_eq!(p.errors[0].kind, ParseErrorKind::TooManyParameters);
    assert_eq!(p.tokens[p.errors[0].token].lexeme(), "a255");
    assert_eq!(p.diagnostics()[0].message, "Can't have more than 255 parameters.");
}

#[test]
fn at_most_255_arguments() {
    let p = parse(&format!("f({});", names(255)));
    assert!(p.errors.is_empty());
    let source = format!("f({});", names(256));
    let p = parse(&source);
    assert_eq!(p.errors.len(), 1);
    assert_eq!(p.errors[0].kind, ParseErrorKind::TooManyArguments);
    assert_eq!(p.tokens[p.errors[0].token].lexeme(), "a255");
    assert_eq!(p.diagnostics()[0].message, "Can't have more than 255 arguments.");
}

#[test]
fn recovery_resumes_at_the_next_statement() {
    let p = parse("var = 1; print 2; var b = ; print 3;");
    assert_eq!(
        p.diagnostics(),
        vec![
            error(1, "Expected variable name.", 4),
            error(1, "Expected expression at token ;.", 26),
        ]
    );
    let shown: Vec<String> = p.statements.iter().map(|s| show_stmt(&p, *s)).collect();
    assert_eq!(shown, vec!["(print 2)", "(print 3)"]);
}

#[test]
fn recovery_stops_before_a_keyword() {
    let p = parse("1 + + 2 print 3; a b while (c) d;");
    assert_eq!(
        p.diagnostics(),
        vec![
            error(1, "Expected expression at token +.", 4),
            error(1, "Expected ';' after value.", 19),
        ]
    );
    let shown: Vec<String> = p.statements.iter().map(|s| show_stmt(&p, *s)).collect();
    assert_eq!(shown, vec!["(print 3)", "(while c (expr d))"]);
}

#[test]
fn error_inside_a_block_abandons_the_block() {
    let p = parse("{ print 1; print ; print 2; } print 3;");
    assert_eq!(p.diagnostics()[0], error(1, "Expected expression at token ;.", 17));
    let shown: Vec<String> = p.statements.iter().map(|s| show_stmt(&p, *s)).collect();
    assert_eq!(shown.last().unwrap(), "(print 3)");
}

#[test]
fn parse_may_be_resumed_on_a_parser_at_its_end() {
    let mut p = parse("print 1;");
    p.parse();
    assert_eq!(p.statements.len(), 1);
    assert!(p.errors.is_empty());
}

#[test]
fn into_program_hands_over_the_tree() {
    let p = parse("print 1 + 2;");
    let (exprs, stmts) = (p.exprs.clone(), p.stmts.clone());
    let program = p.into_program();
    assert_eq!(program.exprs, exprs);
    assert_eq!(program.stmts, stmts);
    assert_eq!(program.statements, vec![0]);
    assert_eq!(program.expr(2), Some(exprs[2]));
    assert_eq!(program.expr(3), None);
    assert_eq!(program.stmt(0), Some(stmts[0]));
    assert_eq!(program.stmt(1), None);
    assert_eq!(program.item(List { start: 0, len: 1 }, 0), None);
    assert_eq!(program.token(1).unwrap().lexeme(), "1");
    assert!(program.token(99).is_none());
}

#[test]
fn precedence_levels() {
    assert_eq!(Precedence::Or.tighter(), Some(Precedence::And));
    assert_eq!(Precedence::Term.tighter(), Some(Precedence::Factor));
    assert_eq!(Precedence::Factor.tighter(), None);
    assert!(Precedence::Term.binds(TokenType::Plus) && Precedence::Term.binds(TokenType::Minus));
    assert!(!Precedence::Term.binds(TokenType::Star));
    assert!(Precedence::Comparison.binds(TokenType::LessEqual));
    assert!(!Precedence::Equality.binds(TokenType::Equal));
    assert_eq!(
        Precedence::Factor.node(1, 2, 3),
        Expr::Binary(Binary { left: 1, operator: 2, right: 3 })
    );
    assert!(matches!(Precedence::And.node(1, 2, 3), Expr::Logical(_)));
}

#[test]
fn every_error_kind_has_its_text() {
    assert_eq!(ParseErrorKind::ExpectedExpression.message("x"), "Expected expression at token x.");
    assert_eq!(ParseErrorKind::ExpectedBraceAfterBlock.message("x"), "Expected '}' after block.");
    assert_eq!(ParseErrorKind::ExpectedSemicolonAfterLoopCondition.message(""), "Expected ';' after loop condition.");
}
