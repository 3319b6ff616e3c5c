//! Recursive-descent parsing: tokens to a syntax tree.
//!
//! The grammar is written down as a family of functions on token sequences,
//! one for each production, which say which nodes are built, where parsing
//! stops and which error arises. Each method of [`Parser`] is proved to
//! compute the function of its production, and to build nothing but
//! well-formed programs.

use crate::ast::{
    keeps_windows, lemma_empty_is_tidy, lemma_empty_is_well_formed, lemma_fits_later,
    lemma_growth_is_tidy, lemma_growth_is_well_formed, lemma_nodes_fit, lemma_tidy_is_tree,
    lemma_windowed_later, List,
    Program, ProgramView, Windows,
};
use crate::error::{LoxError, LoxErrorView};
use crate::expr::{
    Assign, Binary, Call, Expr, Grouping, Literal, LiteralKind, Logical, Unary, Variable,
};
use crate::stmt::{Block, Expression, Function, If, Print, Return, Stmt, Var, While};
use crate::token::{token_views, Token, TokenType, TokenView};
use vstd::prelude::*;

verus! {

/// What the parser found wrong.
#[derive(Clone, Copy, Debug, PartialEq, Eq, Structural)]
pub enum ParseErrorKind {
    ExpectedFunctionName,
    ExpectedParenAfterFunctionName,
    TooManyParameters,
    ExpectedParameterName,
    ExpectedParenAfterParameters,
    ExpectedBraceBeforeBody,
    ExpectedVariableName,
    ExpectedSemicolonAfterVariable,
    ExpectedSemicolonAfterReturn,
    ExpectedParenAfterFor,
    ExpectedSemicolonAfterLoopCondition,
    ExpectedParenAfterForClauses,
    ExpectedParenAfterWhile,
    ExpectedParenAfterWhileCondition,
    ExpectedParenAfterIf,
    ExpectedParenAfterIfCondition,
    ExpectedSemicolonAfterValue,
    ExpectedBraceAfterBlock,
    InvalidAssignmentTarget,
    TooManyArguments,
    ExpectedParenAfterArguments,
    ExpectedParenAfterExpression,
    ExpectedExpression,
}

/// A syntax error: what is wrong, and the index of the offending token.
#[derive(Clone, Copy, Debug, PartialEq, Eq, Structural)]
pub struct ParseError {
    pub kind: ParseErrorKind,
    pub token: usize,
}

/// The most parameters a function, and arguments a call, may have.
pub const MAX_ARITY: usize = 255;

/// The binary operator levels, from loosest to tightest.
#[derive(Clone, Copy, Debug, PartialEq, Eq, Structural)]
pub enum Precedence {
    Or,
    And,
    Equality,
    Comparison,
    Term,
    Factor,
}

impl Precedence {
    /// The next tighter level; the operands of `Factor` are unary expressions.
    pub open spec fn spec_tighter(self) -> Option<Precedence> {
        match self {
            Precedence::Or => Some(Precedence::And),
            Precedence::And => Some(Precedence::Equality),
            Precedence::Equality => Some(Precedence::Comparison),
            Precedence::Comparison => Some(Precedence::Term),
            Precedence::Term => Some(Precedence::Factor),
            Precedence::Factor => None,
        }
    }

    /// Whether `kind` is an operator of this level.
    pub open spec fn spec_binds(self, kind: TokenType) -> bool {
        match self {
            Precedence::Or => kind == TokenType::Or,
            Precedence::And => kind == TokenType::And,
            Precedence::Equality => kind == TokenType::BangEqual || kind == TokenType::EqualEqual,
            Precedence::Comparison => kind == TokenType::Greater || kind == TokenType::GreaterEqual
                || kind == TokenType::Less || kind == TokenType::LessEqual,
            Precedence::Term => kind == TokenType::Minus || kind == TokenType::Plus,
            Precedence::Factor => kind == TokenType::Slash || kind == TokenType::Star,
        }
    }

    /// The node that joins two operands at this level.
    pub open spec fn spec_node(self, left: usize, operator: usize, right: usize) -> Expr {
        match self {
            Precedence::Or | Precedence::And => Expr::Logical(Logical { left, operator, right }),
            _ => Expr::Binary(Binary { left, operator, right }),
        }
    }

    /// How many levels are tighter than this one.
    pub open spec fn height(self) -> nat {
        match self {
            Precedence::Or => 5,
            Precedence::And => 4,
            Precedence::Equality => 3,
            Precedence::Comparison => 2,
            Precedence::Term => 1,
            Precedence::Factor => 0,
        }
    }

    #[verifier::when_used_as_spec(spec_tighter)]
    pub fn tighter(self) -> (r: Option<Precedence>)
        ensures
            r == self.spec_tighter(),
    {
        match self {
            Precedence::Or => Some(Precedence::And),
            Precedence::And => Some(Precedence::Equality),
            Precedence::Equality => Some(Precedence::Comparison),
            Precedence::Comparison => Some(Precedence::Term),
            Precedence::Term => Some(Precedence::Factor),
            Precedence::Factor => None,
        }
    }

    #[verifier::when_used_as_spec(spec_binds)]
    pub fn binds(self, kind: TokenType) -> (r: bool)
        ensures
            r == self.spec_binds(kind),
    {
        match self {
            Precedence::Or => kind == TokenType::Or,
            Precedence::And => kind == TokenType::And,
            Precedence::Equality => kind == TokenType::BangEqual || kind == TokenType::EqualEqual,
            Precedence::Comparison => kind == TokenType::Greater || kind == TokenType::GreaterEqual
                || kind == TokenType::Less || kind == TokenType::LessEqual,
            Precedence::Term => kind == TokenType::Minus || kind == TokenType::Plus,
            Precedence::Factor => kind == TokenType::Slash || kind == TokenType::Star,
        }
    }

    #[verifier::when_used_as_spec(spec_node)]
    pub fn node(self, left: usize, operator: usize, right: usize) -> (r: Expr)
        ensures
            r == self.spec_node(left, operator, right),
    {
        match self {
            Precedence::Or | Precedence::And => Expr::Logical(Logical { left, operator, right }),
            _ => Expr::Binary(Binary { left, operator, right }),
        }
    }
}

/// The parser's state, as the grammar sees it: the cursor into the tokens,
/// the nodes built so far and the errors recorded so far.
#[verifier::ext_equal]
pub struct ParseState {
    pub current: nat,
    pub exprs: Seq<Expr>,
    pub stmts: Seq<Stmt>,
    pub lists: Seq<usize>,
    pub errors: Seq<ParseError>,
}

/// The parser's state before anything is parsed.
pub open spec fn fresh() -> ParseState {
    ParseState {
        current: 0,
        exprs: Seq::empty(),
        stmts: Seq::empty(),
        lists: Seq::empty(),
        errors: Seq::empty(),
    }
}

/// The outcome of a production: the state it leaves and what it produced.
pub struct Parsed<T> {
    pub state: ParseState,
    pub result: Result<T, ParseError>,
}

/// The kind of the token at index `i`; past the tokens, end of input.
pub open spec fn kind_at(tokens: Seq<TokenView>, i: nat) -> TokenType {
    if i < tokens.len() {
        tokens[i as int].token_type
    } else {
        TokenType::EOF
    }
}

pub open spec fn at_end(tokens: Seq<TokenView>, st: ParseState) -> bool {
    kind_at(tokens, st.current) == TokenType::EOF
}

/// Whether the token at the cursor has kind `kind`.
pub open spec fn check(tokens: Seq<TokenView>, st: ParseState, kind: TokenType) -> bool {
    !at_end(tokens, st) && kind_at(tokens, st.current) == kind
}

/// The state with the cursor one token further, unless it is at the end.
pub open spec fn advance(tokens: Seq<TokenView>, st: ParseState) -> ParseState {
    if at_end(tokens, st) {
        st
    } else {
        ParseState { current: st.current + 1, ..st }
    }
}

/// How many tokens stand at or after the cursor.
pub open spec fn remaining(tokens: Seq<TokenView>, st: ParseState) -> nat {
    if st.current < tokens.len() {
        (tokens.len() - st.current) as nat
    } else {
        0
    }
}

pub open spec fn done<T>(st: ParseState, value: T) -> Parsed<T> {
    Parsed { state: st, result: Ok(value) }
}

/// Failure at the token under the cursor.
pub open spec fn fail<T>(st: ParseState, kind: ParseErrorKind) -> Parsed<T> {
    Parsed { state: st, result: Err(ParseError { kind, token: st.current as usize }) }
}

/// The failure of a part, passed on as the failure of the whole.
pub open spec fn failed<T, U>(p: Parsed<T>) -> Parsed<U> {
    Parsed { state: p.state, result: Err(p.result->Err_0) }
}

/// Whether parsing goes on after the part `p`, which was started in `st`:
/// the part succeeded, and it did not move the cursor backwards (no
/// production does).
pub open spec fn proceeds<T>(st: ParseState, p: Parsed<T>) -> bool {
    p.result is Ok && p.state.current >= st.current
}

/// Steps over a token of kind `kind`, or fails with `error`.
pub open spec fn consume(
    tokens: Seq<TokenView>,
    st: ParseState,
    kind: TokenType,
    error: ParseErrorKind,
) -> Parsed<usize> {
    if check(tokens, st, kind) {
        done(advance(tokens, st), st.current as usize)
    } else {
        fail(st, error)
    }
}

pub open spec fn add_expr(st: ParseState, e: Expr) -> Parsed<usize> {
    done(ParseState { exprs: st.exprs.push(e), ..st }, st.exprs.len() as usize)
}

pub open spec fn add_stmt(st: ParseState, s: Stmt) -> Parsed<usize> {
    done(ParseState { stmts: st.stmts.push(s), ..st }, st.stmts.len() as usize)
}

pub open spec fn add_list(st: ParseState, items: Seq<usize>) -> Parsed<List> {
    done(
        ParseState { lists: st.lists + items, ..st },
        List { start: st.lists.len() as usize, len: items.len() as usize },
    )
}

pub open spec fn record(st: ParseState, error: ParseError) -> ParseState {
    ParseState { errors: st.errors.push(error), ..st }
}

pub open spec fn literal(value: LiteralKind) -> Expr {
    Expr::Literal(Literal { value })
}

/// primary → NUMBER | STRING | "true" | "false" | "nil" | IDENT | "(" expression ")"
pub open spec fn primary_spec(tokens: Seq<TokenView>, st: ParseState) -> Parsed<usize>
    decreases remaining(tokens, st), 0nat,
{
    let next = advance(tokens, st);
    let here = st.current as usize;
    if check(tokens, st, TokenType::False) {
        add_expr(next, literal(LiteralKind::False))
    } else if check(tokens, st, TokenType::True) {
        add_expr(next, literal(LiteralKind::True))
    } else if check(tokens, st, TokenType::Nil) {
        add_expr(next, literal(LiteralKind::Nil))
    } else if check(tokens, st, TokenType::Number) {
        add_expr(next, literal(LiteralKind::Num(here)))
    } else if check(tokens, st, TokenType::String) {
        add_expr(next, literal(LiteralKind::String(here)))
    } else if check(tokens, st, TokenType::LeftParen) {
        let inner = expression_spec(tokens, next);
        if inner.result is Err {
            inner
        } else {
            let close = consume(
                tokens,
                inner.state,
                TokenType::RightParen,
                ParseErrorKind::ExpectedParenAfterExpression,
            );
            if close.result is Err {
                close
            } else {
                add_expr(close.state, Expr::Grouping(Grouping { expr: inner.result->Ok_0 }))
            }
        }
    } else if check(tokens, st, TokenType::Identifier) {
        add_expr(next, Expr::Variable(Variable { name: here }))
    } else {
        fail(st, ParseErrorKind::ExpectedExpression)
    }
}

/// The arguments of a call from the cursor on, `args` having been parsed.
pub open spec fn arguments_spec(tokens: Seq<TokenView>, st: ParseState, args: Seq<usize>) -> Parsed<
    Seq<usize>,
>
    decreases remaining(tokens, st), 41nat,
{
    if args.len() >= MAX_ARITY {
        fail(st, ParseErrorKind::TooManyArguments)
    } else {
        let arg = expression_spec(tokens, st);
        if !proceeds(st, arg) {
            failed(arg)
        } else if check(tokens, arg.state, TokenType::Comma) {
            arguments_spec(tokens, advance(tokens, arg.state), args.push(arg.result->Ok_0))
        } else {
            done(arg.state, args.push(arg.result->Ok_0))
        }
    }
}

/// The rest of a call to `callee`, the opening parenthesis having been read.
pub open spec fn finish_call_spec(tokens: Seq<TokenView>, st: ParseState, callee: usize) -> Parsed<
    usize,
>
    decreases remaining(tokens, st), 42nat,
{
    let args = if check(tokens, st, TokenType::RightParen) {
        done(st, Seq::empty())
    } else {
        arguments_spec(tokens, st, Seq::empty())
    };
    if args.result is Err {
        failed(args)
    } else {
        let paren = consume(
            tokens,
            args.state,
            TokenType::RightParen,
            ParseErrorKind::ExpectedParenAfterArguments,
        );
        if paren.result is Err {
            paren
        } else {
            let list = add_list(paren.state, args.result->Ok_0);
            add_expr(
                list.state,
                Expr::Call(
                    Call { callee, paren: paren.result->Ok_0, arguments: list.result->Ok_0 },
                ),
            )
        }
    }
}

/// The calls that follow `callee`: ( "(" args? ")" )*
pub open spec fn call_rest_spec(tokens: Seq<TokenView>, st: ParseState, callee: usize) -> Parsed<usize>
    decreases remaining(tokens, st), 1nat,
{
    if check(tokens, st, TokenType::LeftParen) {
        let call = finish_call_spec(tokens, advance(tokens, st), callee);
        if !proceeds(advance(tokens, st), call) {
            call
        } else {
            call_rest_spec(tokens, call.state, call.result->Ok_0)
        }
    } else {
        done(st, callee)
    }
}

/// call → primary ( "(" args? ")" )*
pub open spec fn call_spec(tokens: Seq<TokenView>, st: ParseState) -> Parsed<usize>
    decreases remaining(tokens, st), 2nat,
{
    let callee = primary_spec(tokens, st);
    if !proceeds(st, callee) {
        callee
    } else {
        call_rest_spec(tokens, callee.state, callee.result->Ok_0)
    }
}

/// unary → ("!"|"-") unary | call
pub open spec fn unary_spec(tokens: Seq<TokenView>, st: ParseState) -> Parsed<usize>
    decreases remaining(tokens, st), 3nat,
{
    if check(tokens, st, TokenType::Bang) || check(tokens, st, TokenType::Minus) {
        let right = unary_spec(tokens, advance(tokens, st));
        if right.result is Err {
            right
        } else {
            add_expr(
                right.state,
                Expr::Unary(Unary { operator: st.current as usize, expr: right.result->Ok_0 }),
            )
        }
    } else {
        call_spec(tokens, st)
    }
}

/// An operand of level `level`: an expression of the next tighter level.
pub open spec fn operand_spec(tokens: Seq<TokenView>, st: ParseState, level: Precedence) -> Parsed<
    usize,
>
    decreases remaining(tokens, st), 5 + 3 * level.height(),
{
    match level.spec_tighter() {
        Some(next) => binary_spec(tokens, st, next),
        None => unary_spec(tokens, st),
    }
}

/// The operators of level `level` that follow `left`, with their operands.
pub open spec fn binary_rest_spec(
    tokens: Seq<TokenView>,
    st: ParseState,
    level: Precedence,
    left: usize,
) -> Parsed<usize>
    decreases remaining(tokens, st), 4 + 3 * level.height(),
{
    if !at_end(tokens, st) && level.spec_binds(kind_at(tokens, st.current)) {
        let right = operand_spec(tokens, advance(tokens, st), level);
        if !proceeds(advance(tokens, st), right) {
            right
        } else {
            let node = add_expr(
                right.state,
                level.spec_node(left, st.current as usize, right.result->Ok_0),
            );
            binary_rest_spec(tokens, node.state, level, node.result->Ok_0)
        }
    } else {
        done(st, left)
    }
}

/// A left-associative chain of operators of level `level`:
/// operand ( operator operand )*
pub open spec fn binary_spec(tokens: Seq<TokenView>, st: ParseState, level: Precedence) -> Parsed<usize>
    decreases remaining(tokens, st), 6 + 3 * level.height(),
{
    let left = operand_spec(tokens, st, level);
    if !proceeds(st, left) {
        left
    } else {
        binary_rest_spec(tokens, left.state, level, left.result->Ok_0)
    }
}

/// assignment → IDENT "=" assignment | logic_or
///
/// The left side is parsed as an expression. If it is not a variable, the
/// error is recorded at the `=`, and the left side stands for the whole.
pub open spec fn assignment_spec(tokens: Seq<TokenView>, st: ParseState) -> Parsed<usize>
    decreases remaining(tokens, st), 30nat,
{
    let target = binary_spec(tokens, st, Precedence::Or);
    if !proceeds(st, target) {
        target
    } else if check(tokens, target.state, TokenType::Equal) {
        let equals = target.state.current as usize;
        let value = assignment_spec(tokens, advance(tokens, target.state));
        if value.result is Err {
            value
        } else {
            let id = target.result->Ok_0;
            if id < value.state.exprs.len() && value.state.exprs[id as int] is Variable {
                add_expr(
                    value.state,
                    Expr::Assign(
                        Assign {
                            name: value.state.exprs[id as int]->Variable_0.name,
                            value: value.result->Ok_0,
                        },
                    ),
                )
            } else {
                done(
                    record(
                        value.state,
                        ParseError { kind: ParseErrorKind::InvalidAssignmentTarget, token: equals },
                    ),
                    id,
                )
            }
        }
    } else {
        target
    }
}

/// expression → assignment
pub open spec fn expression_spec(tokens: Seq<TokenView>, st: ParseState) -> Parsed<usize>
    decreases remaining(tokens, st), 31nat,
{
    assignment_spec(tokens, st)
}


/// Whether a token of kind `kind` begins a declaration or a statement.
pub open spec fn starts_statement(kind: TokenType) -> bool {
    kind == TokenType::Class || kind == TokenType::Fun || kind == TokenType::Var || kind
        == TokenType::For || kind == TokenType::If || kind == TokenType::While || kind
        == TokenType::Print || kind == TokenType::Return
}

/// Discards tokens until the one before the cursor is a semicolon or the one
/// at the cursor begins a statement, or the end is reached.
pub open spec fn skip_spec(tokens: Seq<TokenView>, st: ParseState) -> ParseState
    decreases remaining(tokens, st),
{
    if at_end(tokens, st) {
        st
    } else if st.current > 0 && kind_at(tokens, (st.current - 1) as nat) == TokenType::Semicolon {
        st
    } else if starts_statement(kind_at(tokens, st.current)) {
        st
    } else {
        skip_spec(tokens, advance(tokens, st))
    }
}

/// Panic-mode recovery: steps over the offending token, then discards tokens
/// up to a likely statement boundary.
pub open spec fn synchronize_spec(tokens: Seq<TokenView>, st: ParseState) -> ParseState {
    skip_spec(tokens, advance(tokens, st))
}

/// The outcome `p`, with `Some` around what it produced.
pub open spec fn some<T>(p: Parsed<T>) -> Parsed<Option<T>> {
    Parsed {
        state: p.state,
        result: match p.result {
            Ok(v) => Ok(Some(v)),
            Err(e) => Err(e),
        },
    }
}

/// Whether the part `p`, started in `st`, succeeded and read a token.
pub open spec fn advances<T>(st: ParseState, p: Parsed<T>) -> bool {
    p.result is Ok && p.state.current > st.current
}

/// printStmt → "print" expression ";" (the keyword having been read)
pub open spec fn print_statement_spec(tokens: Seq<TokenView>, st: ParseState) -> Parsed<usize> {
    let value = expression_spec(tokens, st);
    if value.result is Err {
        value
    } else {
        let semi = consume(
            tokens,
            value.state,
            TokenType::Semicolon,
            ParseErrorKind::ExpectedSemicolonAfterValue,
        );
        if semi.result is Err {
            semi
        } else {
            add_stmt(semi.state, Stmt::Print(Print { expr: value.result->Ok_0 }))
        }
    }
}

/// exprStmt → expression ";"
pub open spec fn expression_statement_spec(tokens: Seq<TokenView>, st: ParseState) -> Parsed<usize> {
    let value = expression_spec(tokens, st);
    if value.result is Err {
        value
    } else {
        let semi = consume(
            tokens,
            value.state,
            TokenType::Semicolon,
            ParseErrorKind::ExpectedSemicolonAfterValue,
        );
        if semi.result is Err {
            semi
        } else {
            add_stmt(semi.state, Stmt::Expression(Expression { expr: value.result->Ok_0 }))
        }
    }
}

/// varDecl → "var" IDENT ( "=" expression )? ";" (the keyword having been
/// read). Without an initializer the variable starts as `nil`.
pub open spec fn var_declaration_spec(tokens: Seq<TokenView>, st: ParseState) -> Parsed<usize> {
    let name = consume(tokens, st, TokenType::Identifier, ParseErrorKind::ExpectedVariableName);
    if name.result is Err {
        name
    } else {
        let initializer = if check(tokens, name.state, TokenType::Equal) {
            expression_spec(tokens, advance(tokens, name.state))
        } else {
            add_expr(name.state, literal(LiteralKind::Nil))
        };
        if initializer.result is Err {
            initializer
        } else {
            let semi = consume(
                tokens,
                initializer.state,
                TokenType::Semicolon,
                ParseErrorKind::ExpectedSemicolonAfterVariable,
            );
            if semi.result is Err {
                semi
            } else {
                add_stmt(
                    semi.state,
                    Stmt::Var(
                        Var { name: name.result->Ok_0, initializer: initializer.result->Ok_0 },
                    ),
                )
            }
        }
    }
}

/// returnStmt → "return" expression? ";" (the keyword, token `keyword`,
/// having been read)
pub open spec fn return_statement_spec(tokens: Seq<TokenView>, st: ParseState, keyword: usize) -> Parsed<
    usize,
> {
    let value = if !check(tokens, st, TokenType::Semicolon) {
        some(expression_spec(tokens, st))
    } else {
        done(st, None)
    };
    if value.result is Err {
        failed(value)
    } else {
        let semi = consume(
            tokens,
            value.state,
            TokenType::Semicolon,
            ParseErrorKind::ExpectedSemicolonAfterReturn,
        );
        if semi.result is Err {
            semi
        } else {
            add_stmt(semi.state, Stmt::Return(Return { keyword, value: value.result->Ok_0 }))
        }
    }
}

/// The parameters of a function from the cursor on, `params` having been
/// parsed.
pub open spec fn parameters_spec(tokens: Seq<TokenView>, st: ParseState, params: Seq<usize>) -> Parsed<
    Seq<usize>,
>
    decreases remaining(tokens, st),
{
    if params.len() >= MAX_ARITY {
        fail(st, ParseErrorKind::TooManyParameters)
    } else {
        let name = consume(
            tokens,
            st,
            TokenType::Identifier,
            ParseErrorKind::ExpectedParameterName,
        );
        if name.result is Err {
            failed(name)
        } else if check(tokens, name.state, TokenType::Comma) {
            parameters_spec(tokens, advance(tokens, name.state), params.push(name.result->Ok_0))
        } else {
            done(name.state, params.push(name.result->Ok_0))
        }
    }
}

/// The loop that a `for` statement stands for:
/// `{ initializer; while (condition) { body; increment; } }`,
/// without the blocks where the initializer or the increment is missing.
pub open spec fn desugar_for(
    st: ParseState,
    initializer: Option<usize>,
    condition: usize,
    increment: Option<usize>,
    body: usize,
) -> Parsed<usize> {
    let inner = match increment {
        Some(step) => {
            let advance = add_stmt(st, Stmt::Expression(Expression { expr: step }));
            let list = add_list(advance.state, seq![body, advance.result->Ok_0]);
            add_stmt(list.state, Stmt::Block(Block { statements: list.result->Ok_0 }))
        },
        None => done(st, body),
    };
    let repeat = add_stmt(
        inner.state,
        Stmt::While(While { condition, body: inner.result->Ok_0 }),
    );
    match initializer {
        Some(first) => {
            let list = add_list(repeat.state, seq![first, repeat.result->Ok_0]);
            add_stmt(list.state, Stmt::Block(Block { statements: list.result->Ok_0 }))
        },
        None => repeat,
    }
}

/// The clauses of a `for` statement, up to and including the closing
/// parenthesis: initializer, condition and increment.
#[derive(Clone, Copy, Debug, PartialEq, Eq, Structural)]
pub struct ForClauses {
    pub initializer: Option<usize>,
    pub condition: usize,
    pub increment: Option<usize>,
}

/// "(" (varDecl | exprStmt | ";") expression? ";" expression? ")"
pub open spec fn for_clauses_spec(tokens: Seq<TokenView>, st: ParseState) -> Parsed<ForClauses> {
    let open = consume(tokens, st, TokenType::LeftParen, ParseErrorKind::ExpectedParenAfterFor);
    if open.result is Err {
        failed(open)
    } else {
        let initializer = if check(tokens, open.state, TokenType::Semicolon) {
            done(advance(tokens, open.state), None)
        } else if check(tokens, open.state, TokenType::Var) {
            some(var_declaration_spec(tokens, advance(tokens, open.state)))
        } else {
            some(expression_statement_spec(tokens, open.state))
        };
        if initializer.result is Err {
            failed(initializer)
        } else {
            let condition = if !check(tokens, initializer.state, TokenType::Semicolon) {
                expression_spec(tokens, initializer.state)
            } else {
                add_expr(initializer.state, literal(LiteralKind::True))
            };
            if condition.result is Err {
                failed(condition)
            } else {
                let semi = consume(
                    tokens,
                    condition.state,
                    TokenType::Semicolon,
                    ParseErrorKind::ExpectedSemicolonAfterLoopCondition,
                );
                if semi.result is Err {
                    failed(semi)
                } else {
                    let increment = if !check(tokens, semi.state, TokenType::RightParen) {
                        some(expression_spec(tokens, semi.state))
                    } else {
                        done(semi.state, None)
                    };
                    if increment.result is Err {
                        failed(increment)
                    } else {
                        let close = consume(
                            tokens,
                            increment.state,
                            TokenType::RightParen,
                            ParseErrorKind::ExpectedParenAfterForClauses,
                        );
                        if close.result is Err {
                            failed(close)
                        } else {
                            done(
                                close.state,
                                ForClauses {
                                    initializer: initializer.result->Ok_0,
                                    condition: condition.result->Ok_0,
                                    increment: increment.result->Ok_0,
                                },
                            )
                        }
                    }
                }
            }
        }
    }
}

/// "(" expression ")", with the errors `open_error` and `close_error` for a
/// missing parenthesis.
pub open spec fn condition_spec(
    tokens: Seq<TokenView>,
    st: ParseState,
    open_error: ParseErrorKind,
    close_error: ParseErrorKind,
) -> Parsed<usize> {
    let open = consume(tokens, st, TokenType::LeftParen, open_error);
    if open.result is Err {
        open
    } else {
        let condition = expression_spec(tokens, open.state);
        if condition.result is Err {
            condition
        } else {
            let close = consume(tokens, condition.state, TokenType::RightParen, close_error);
            if close.result is Err {
                close
            } else {
                done(close.state, condition.result->Ok_0)
            }
        }
    }
}

/// forStmt, the keyword having been read.
pub open spec fn for_statement_spec(tokens: Seq<TokenView>, st: ParseState) -> Parsed<usize>
    decreases remaining(tokens, st), 74nat,
{
    let clauses = for_clauses_spec(tokens, st);
    if !proceeds(st, clauses) {
        failed(clauses)
    } else {
        let body = statement_spec(tokens, clauses.state);
        if body.result is Err {
            body
        } else {
            desugar_for(
                body.state,
                clauses.result->Ok_0.initializer,
                clauses.result->Ok_0.condition,
                clauses.result->Ok_0.increment,
                body.result->Ok_0,
            )
        }
    }
}

/// whileStmt → "while" "(" expression ")" statement (the keyword having
/// been read)
pub open spec fn while_statement_spec(tokens: Seq<TokenView>, st: ParseState) -> Parsed<usize>
    decreases remaining(tokens, st), 73nat,
{
    let condition = condition_spec(
        tokens,
        st,
        ParseErrorKind::ExpectedParenAfterWhile,
        ParseErrorKind::ExpectedParenAfterWhileCondition,
    );
    if !proceeds(st, condition) {
        condition
    } else {
        let body = statement_spec(tokens, condition.state);
        if body.result is Err {
            body
        } else {
            add_stmt(
                body.state,
                Stmt::While(While { condition: condition.result->Ok_0, body: body.result->Ok_0 }),
            )
        }
    }
}

/// ifStmt → "if" "(" expression ")" statement ( "else" statement )? (the
/// keyword having been read)
pub open spec fn if_statement_spec(tokens: Seq<TokenView>, st: ParseState) -> Parsed<usize>
    decreases remaining(tokens, st), 72nat,
{
    let condition = condition_spec(
        tokens,
        st,
        ParseErrorKind::ExpectedParenAfterIf,
        ParseErrorKind::ExpectedParenAfterIfCondition,
    );
    if !proceeds(st, condition) {
        condition
    } else {
        let then_branch = statement_spec(tokens, condition.state);
        if !proceeds(condition.state, then_branch) {
            then_branch
        } else {
            let else_branch = if check(tokens, then_branch.state, TokenType::Else) {
                some(statement_spec(tokens, advance(tokens, then_branch.state)))
            } else {
                done(then_branch.state, None)
            };
            if else_branch.result is Err {
                failed(else_branch)
            } else {
                add_stmt(
                    else_branch.state,
                    Stmt::If(
                        If {
                            condition: condition.result->Ok_0,
                            then_branch: then_branch.result->Ok_0,
                            else_branch: else_branch.result->Ok_0,
                        },
                    ),
                )
            }
        }
    }
}

/// The declarations of a block up to and including the closing brace,
/// `items` having been parsed.
pub open spec fn block_items_spec(tokens: Seq<TokenView>, st: ParseState, items: Seq<usize>) -> Parsed<
    Seq<usize>,
>
    decreases remaining(tokens, st), 70nat,
{
    if !check(tokens, st, TokenType::RightBrace) && !at_end(tokens, st) {
        let item = declaration_spec(tokens, st);
        if !advances(st, item) {
            failed(item)
        } else {
            block_items_spec(tokens, item.state, items.push(item.result->Ok_0))
        }
    } else {
        let close = consume(
            tokens,
            st,
            TokenType::RightBrace,
            ParseErrorKind::ExpectedBraceAfterBlock,
        );
        if close.result is Err {
            failed(close)
        } else {
            done(close.state, items)
        }
    }
}

/// block → "{" declaration* "}" (the opening brace having been read)
pub open spec fn block_spec(tokens: Seq<TokenView>, st: ParseState) -> Parsed<usize>
    decreases remaining(tokens, st), 71nat,
{
    let items = block_items_spec(tokens, st, Seq::empty());
    if items.result is Err {
        failed(items)
    } else {
        let list = add_list(items.state, items.result->Ok_0);
        add_stmt(list.state, Stmt::Block(Block { statements: list.result->Ok_0 }))
    }
}

/// The name and the parameters of a function, up to and including the
/// opening brace of its body.
pub open spec fn function_head_spec(tokens: Seq<TokenView>, st: ParseState) -> Parsed<
    (usize, Seq<usize>),
> {
    let name = consume(tokens, st, TokenType::Identifier, ParseErrorKind::ExpectedFunctionName);
    if name.result is Err {
        failed(name)
    } else {
        let open = consume(
            tokens,
            name.state,
            TokenType::LeftParen,
            ParseErrorKind::ExpectedParenAfterFunctionName,
        );
        if open.result is Err {
            failed(open)
        } else {
            let params = if check(tokens, open.state, TokenType::RightParen) {
                done(open.state, Seq::empty())
            } else {
                parameters_spec(tokens, open.state, Seq::empty())
            };
            if params.result is Err {
                failed(params)
            } else {
                let close = consume(
                    tokens,
                    params.state,
                    TokenType::RightParen,
                    ParseErrorKind::ExpectedParenAfterParameters,
                );
                if close.result is Err {
                    failed(close)
                } else {
                    let brace = consume(
                        tokens,
                        close.state,
                        TokenType::LeftBrace,
                        ParseErrorKind::ExpectedBraceBeforeBody,
                    );
                    if brace.result is Err {
                        failed(brace)
                    } else {
                        done(brace.state, (name.result->Ok_0, params.result->Ok_0))
                    }
                }
            }
        }
    }
}

/// funDecl → "fun" IDENT "(" params? ")" block (the keyword having been
/// read)
pub open spec fn function_spec(tokens: Seq<TokenView>, st: ParseState) -> Parsed<usize>
    decreases remaining(tokens, st), 75nat,
{
    let head = function_head_spec(tokens, st);
    if !proceeds(st, head) {
        failed(head)
    } else {
        let body = block_items_spec(tokens, head.state, Seq::empty());
        if body.result is Err {
            failed(body)
        } else {
            let params = add_list(body.state, head.result->Ok_0.1);
            let statements = add_list(params.state, body.result->Ok_0);
            add_stmt(
                statements.state,
                Stmt::Function(
                    Function {
                        name: head.result->Ok_0.0,
                        params: params.result->Ok_0,
                        body: statements.result->Ok_0,
                    },
                ),
            )
        }
    }
}

/// statement → exprStmt | printStmt | block | ifStmt | whileStmt | forStmt
/// | returnStmt
pub open spec fn statement_spec(tokens: Seq<TokenView>, st: ParseState) -> Parsed<usize>
    decreases remaining(tokens, st), 59nat,
{
    let next = advance(tokens, st);
    if check(tokens, st, TokenType::Print) {
        print_statement_spec(tokens, next)
    } else if check(tokens, st, TokenType::LeftBrace) {
        block_spec(tokens, next)
    } else if check(tokens, st, TokenType::If) {
        if_statement_spec(tokens, next)
    } else if check(tokens, st, TokenType::While) {
        while_statement_spec(tokens, next)
    } else if check(tokens, st, TokenType::For) {
        for_statement_spec(tokens, next)
    } else if check(tokens, st, TokenType::Return) {
        return_statement_spec(tokens, next, st.current as usize)
    } else {
        expression_statement_spec(tokens, st)
    }
}

/// declaration → funDecl | varDecl | statement
///
/// When the declaration fails, the parser recovers: the state is the one
/// that panic-mode recovery leaves.
pub open spec fn declaration_spec(tokens: Seq<TokenView>, st: ParseState) -> Parsed<usize>
    decreases remaining(tokens, st), 60nat,
{
    let found = if check(tokens, st, TokenType::Fun) {
        function_spec(tokens, advance(tokens, st))
    } else if check(tokens, st, TokenType::Var) {
        var_declaration_spec(tokens, advance(tokens, st))
    } else {
        statement_spec(tokens, st)
    };
    if found.result is Err {
        Parsed { state: synchronize_spec(tokens, found.state), result: found.result }
    } else {
        found
    }
}

/// program → declaration* EOF
///
/// The state and the top-level statements after the rest of the tokens have
/// been parsed, `statements` having been parsed. A declaration that fails
/// leaves its error in the state and no statement.
pub open spec fn program_spec(tokens: Seq<TokenView>, st: ParseState, statements: Seq<usize>) -> (
    ParseState,
    Seq<usize>,
)
    decreases remaining(tokens, st),
{
    if at_end(tokens, st) {
        (st, statements)
    } else {
        let item = declaration_spec(tokens, st);
        let after = match item.result {
            Ok(id) => (item.state, statements.push(id)),
            Err(e) => (record(item.state, e), statements),
        };
        if item.state.current > st.current {
            program_spec(tokens, after.0, after.1)
        } else {
            after
        }
    }
}

impl ParseErrorKind {
    /// The text of the error; `lexeme` is the text of the offending token.
    pub open spec fn spec_message(self, lexeme: Seq<char>) -> Seq<char> {
        match self {
            ParseErrorKind::ExpectedFunctionName => "Expected function name."@,
            ParseErrorKind::ExpectedParenAfterFunctionName => "Expected '(' after function name."@,
            ParseErrorKind::TooManyParameters => "Can't have more than 255 parameters."@,
            ParseErrorKind::ExpectedParameterName => "Expected parameter name"@,
            ParseErrorKind::ExpectedParenAfterParameters => "Expected ')' after parameters."@,
            ParseErrorKind::ExpectedBraceBeforeBody => "Expected '{' before function body."@,
            ParseErrorKind::ExpectedVariableName => "Expected variable name."@,
            ParseErrorKind::ExpectedSemicolonAfterVariable => "Expected ';' after variable declaration."@,
            ParseErrorKind::ExpectedSemicolonAfterReturn => "Expected ';' after return value."@,
            ParseErrorKind::ExpectedParenAfterFor => "Expected '(' after 'for'."@,
            ParseErrorKind::ExpectedSemicolonAfterLoopCondition => "Expected ';' after loop condition."@,
            ParseErrorKind::ExpectedParenAfterForClauses => "Expected ')' after 'for' clause."@,
            ParseErrorKind::ExpectedParenAfterWhile => "Expected '(' after 'while'"@,
            ParseErrorKind::ExpectedParenAfterWhileCondition => "Expected ')' after condition"@,
            ParseErrorKind::ExpectedParenAfterIf => "Expected '(' after 'if'."@,
            ParseErrorKind::ExpectedParenAfterIfCondition => "Expected ')' after condition."@,
            ParseErrorKind::ExpectedSemicolonAfterValue => "Expected ';' after value."@,
            ParseErrorKind::ExpectedBraceAfterBlock => "Expected '}' after block."@,
            ParseErrorKind::InvalidAssignmentTarget => "Invalid assignment target."@,
            ParseErrorKind::TooManyArguments => "Can't have more than 255 arguments."@,
            ParseErrorKind::ExpectedParenAfterArguments => "Expected ')' after arguments."@,
            ParseErrorKind::ExpectedParenAfterExpression => "Expect ')' after expression."@,
            ParseErrorKind::ExpectedExpression => "Expected expression at token "@ + lexeme + "."@,
        }
    }

    pub fn message(self, lexeme: &str) -> (r: String)
        ensures
            r@ == self.spec_message(lexeme@),
    {
        match self {
            ParseErrorKind::ExpectedFunctionName => String::from_str("Expected function name."),
            ParseErrorKind::ExpectedParenAfterFunctionName => String::from_str("Expected '(' after function name."),
            ParseErrorKind::TooManyParameters => String::from_str("Can't have more than 255 parameters."),
            ParseErrorKind::ExpectedParameterName => String::from_str("Expected parameter name"),
            ParseErrorKind::ExpectedParenAfterParameters => String::from_str("Expected ')' after parameters."),
            ParseErrorKind::ExpectedBraceBeforeBody => String::from_str("Expected '{' before function body."),
            ParseErrorKind::ExpectedVariableName => String::from_str("Expected variable name."),
            ParseErrorKind::ExpectedSemicolonAfterVariable => String::from_str("Expected ';' after variable declaration."),
            ParseErrorKind::ExpectedSemicolonAfterReturn => String::from_str("Expected ';' after return value."),
            ParseErrorKind::ExpectedParenAfterFor => String::from_str("Expected '(' after 'for'."),
            ParseErrorKind::ExpectedSemicolonAfterLoopCondition => String::from_str("Expected ';' after loop condition."),
            ParseErrorKind::ExpectedParenAfterForClauses => String::from_str("Expected ')' after 'for' clause."),
            ParseErrorKind::ExpectedParenAfterWhile => String::from_str("Expected '(' after 'while'"),
            ParseErrorKind::ExpectedParenAfterWhileCondition => String::from_str("Expected ')' after condition"),
            ParseErrorKind::ExpectedParenAfterIf => String::from_str("Expected '(' after 'if'."),
            ParseErrorKind::ExpectedParenAfterIfCondition => String::from_str("Expected ')' after condition."),
            ParseErrorKind::ExpectedSemicolonAfterValue => String::from_str("Expected ';' after value."),
            ParseErrorKind::ExpectedBraceAfterBlock => String::from_str("Expected '}' after block."),
            ParseErrorKind::InvalidAssignmentTarget => String::from_str("Invalid assignment target."),
            ParseErrorKind::TooManyArguments => String::from_str("Can't have more than 255 arguments."),
            ParseErrorKind::ExpectedParenAfterArguments => String::from_str("Expected ')' after arguments."),
            ParseErrorKind::ExpectedParenAfterExpression => String::from_str("Expect ')' after expression."),
            ParseErrorKind::ExpectedExpression => String::from_str(
                "Expected expression at token ",
            ).concat(lexeme).concat("."),
        }
    }
}

/// The diagnostic for a syntax error: the error's text, at the line and the
/// position of the offending token.
pub open spec fn describe(tokens: Seq<TokenView>, error: ParseError) -> LoxErrorView {
    if error.token < tokens.len() {
        let t = tokens[error.token as int];
        LoxErrorView {
            line: t.line,
            message: error.kind.spec_message(t.lexeme),
            position: t.position,
        }
    } else {
        LoxErrorView { line: 0, message: error.kind.spec_message(Seq::empty()), position: 0 }
    }
}

/// The outcome of the declaration that starts in `st`.
#[verifier::opaque]
pub open spec fn declared(tokens: Seq<TokenView>, st: ParseState) -> Parsed<usize> {
    declaration_spec(tokens, st)
}

/// `count` declarations in a row, the first of which starts in `from`, parse
/// without failure, and the last of them ends in `to`.
pub open spec fn reaches(tokens: Seq<TokenView>, from: ParseState, count: nat, to: ParseState) -> bool
    decreases count,
{
    if count == 0 {
        from == to
    } else {
        &&& !at_end(tokens, from)
        &&& declared(tokens, from).result is Ok
        &&& reaches(tokens, declared(tokens, from).state, (count - 1) as nat, to)
    }
}

/// A chain of declarations is extended by the declaration that follows it.
pub proof fn lemma_reaches_one_more(
    tokens: Seq<TokenView>,
    from: ParseState,
    count: nat,
    to: ParseState,
)
    requires
        reaches(tokens, from, count, to),
        !at_end(tokens, to),
        declared(tokens, to).result is Ok,
    ensures
        reaches(tokens, from, count + 1, declared(tokens, to).state),
    decreases count,
{
    reveal_with_fuel(reaches, 2);
    if count > 0 {
        lemma_reaches_one_more(
            tokens,
            declared(tokens, from).state,
            (count - 1) as nat,
            to,
        );
    }
}

/// The parser: the tokens, a cursor into them, and what has been built.
///
/// After [`Parser::parse`], `statements` names the top-level statements that
/// were parsed and `errors` holds the syntax errors that were found.
pub struct Parser {
    pub tokens: Vec<Token>,
    pub exprs: Vec<Expr>,
    pub stmts: Vec<Stmt>,
    pub lists: Vec<usize>,
    pub statements: Vec<usize>,
    pub errors: Vec<ParseError>,
    pub current: usize,
    /// Where the expressions of each node built so far stand.
    pub windows: Ghost<Windows>,
}

impl Parser {
    /// The tokens end with the end-of-input token and the cursor is on a
    /// token.
    pub open spec fn wf(&self) -> bool {
        &&& self.tokens@.len() > 0
        &&& self.tokens@.last().token_type == TokenType::EOF
        &&& self.current < self.tokens@.len()
        &&& self.program().well_formed()
        &&& self.windows@.expr_low.len() == self.exprs@.len()
        &&& self.windows@.stmt_low.len() == self.stmts@.len()
        &&& self.windows@.stmt_high.len() == self.stmts@.len()
        &&& self.program().tidy(self.windows@)
    }

    /// `later` has the statements that this parser has built, and gives the
    /// nodes that this parser has built the same windows.
    pub open spec fn grown(&self, later: &Parser) -> bool {
        &&& keeps_windows(self.program(), self.windows@, later.windows@)
        &&& forall|j: int| 0 <= j < self.stmts@.len() ==> #[trigger] later.stmts@[j] == self.stmts@[j]
    }

    /// The window of the expression `id` starts at or after `low`.
    pub open spec fn expr_from(&self, id: usize, low: int) -> bool {
        id < self.exprs@.len() && low <= self.windows@.expr_low[id as int]
    }

    /// The window of the statement `id` lies between `low` and the end of
    /// the expressions built so far.
    pub open spec fn stmt_from(&self, id: usize, low: int) -> bool {
        &&& id < self.stmts@.len()
        &&& low <= self.windows@.stmt_low[id as int]
        &&& self.windows@.stmt_high[id as int] <= self.exprs@.len()
    }

    /// The windows of the statements `items` lie at or after `low`, one
    /// after the other.
    pub open spec fn stmts_from(&self, items: Seq<usize>, low: int) -> bool {
        &&& forall|k: int| 0 <= k < items.len() ==> self.stmt_from(#[trigger] items[k], low)
        &&& forall|i: int, j: int|
            0 <= i < j < items.len() ==> self.windows@.stmt_high[#[trigger] items[i] as int]
                <= self.windows@.stmt_low[#[trigger] items[j] as int]
    }

    /// The program as it has been parsed so far.
    pub open spec fn program(&self) -> ProgramView {
        ProgramView {
            tokens: token_views(self.tokens@),
            exprs: self.exprs@,
            stmts: self.stmts@,
            lists: self.lists@,
            statements: self.statements@,
        }
    }

    /// As [`Parser::yields_node`], for a production that returns an
    /// expression.
    pub open spec fn yields_expr(
        &self,
        before: &Parser,
        r: Result<usize, ParseError>,
        p: Parsed<usize>,
    ) -> bool {
        &&& self.yields_node(before, r, p)
        &&& r matches Ok(id) ==> self.expr_from(id, before.exprs@.len() as int)
    }

    /// As [`Parser::yields_node`], for a production that returns a statement.
    pub open spec fn yields_stmt(
        &self,
        before: &Parser,
        r: Result<usize, ParseError>,
        p: Parsed<usize>,
    ) -> bool {
        &&& self.yields_node(before, r, p)
        &&& r matches Ok(id) ==> self.stmt_from(id, before.exprs@.len() as int)
    }

    /// The parts of the clauses `c` exist.
    pub open spec fn holds(&self, c: ForClauses) -> bool {
        &&& c.condition < self.exprs@.len()
        &&& c.initializer matches Some(s) ==> s < self.stmts@.len()
        &&& c.increment matches Some(e) ==> e < self.exprs@.len()
    }

    /// The windows of the parts of the clauses `c` lie at or after `low`,
    /// one after the other.
    pub open spec fn clauses_from(&self, c: ForClauses, low: int) -> bool {
        &&& self.expr_from(c.condition, low)
        &&& c.initializer matches Some(s) ==> self.stmt_from(s, low)
            && self.windows@.stmt_high[s as int] <= self.windows@.expr_low[c.condition as int]
        &&& c.increment matches Some(e) ==> self.expr_from(e, c.condition + 1)
    }

    /// Where the expressions that follow the clauses `c` stand.
    pub open spec fn after_clauses(c: ForClauses) -> int {
        match c.increment {
            Some(e) => e + 1,
            None => c.condition + 1,
        }
    }

    /// `list` holds `items`, whose windows lie between `low` and `high`,
    /// one after the other.
    proof fn lemma_list_windowed(&self, list: List, items: Seq<usize>, low: int, high: int)
        requires
            list.len == items.len(),
            list.start + list.len <= self.lists@.len(),
            forall|k: int| 0 <= k < items.len() ==> #[trigger] self.lists@[list.start + k] == items[k],
            self.stmts_from(items, low),
            self.exprs@.len() <= high,
        ensures
            self.program().list_windowed(self.windows@, list, low, high),
    {
        let p = self.program();
        let w = self.windows@;
        assert forall|k: int| list.start <= k < list.start + list.len implies {
            &&& low <= w.stmt_low[#[trigger] p.lists[k] as int]
            &&& w.stmt_high[p.lists[k] as int] <= high
        } by {
            assert(self.lists@[list.start + (k - list.start)] == items[k - list.start]);
            assert(self.stmt_from(items[k - list.start], low));
        }
        assert forall|i: int, j: int|
            list.start <= i < list.start + list.len && list.start <= j < list.start + list.len && i
                != j implies {
            ||| w.stmt_high[#[trigger] p.lists[i] as int] <= w.stmt_low[#[trigger] p.lists[j] as int]
            ||| w.stmt_high[p.lists[j] as int] <= w.stmt_low[p.lists[i] as int]
        } by {
            assert(self.lists@[list.start + (i - list.start)] == items[i - list.start]);
            assert(self.lists@[list.start + (j - list.start)] == items[j - list.start]);
            if i < j {
                assert(w.stmt_high[items[i - list.start] as int] <= w.stmt_low[items[j - list.start] as int]);
            } else {
                assert(w.stmt_high[items[j - list.start] as int] <= w.stmt_low[items[i - list.start] as int]);
            }
        }
    }

    /// Every entry of `items` is less than `bound`.
    pub open spec fn all_below(items: Seq<usize>, bound: int) -> bool {
        forall|k: int| 0 <= k < items.len() ==> #[trigger] items[k] < bound
    }

    pub open spec fn state(&self) -> ParseState {
        ParseState {
            current: self.current as nat,
            exprs: self.exprs@,
            stmts: self.stmts@,
            lists: self.lists@,
            errors: self.errors@,
        }
    }

    /// `self` was reached from `before` by a production whose outcome is `p`,
    /// and `r` is what the production returned.
    pub open spec fn yields<T>(
        &self,
        before: &Parser,
        r: Result<T, ParseError>,
        p: Parsed<T>,
    ) -> bool {
        &&& self.follows(before)
        &&& self.state() == p.state
        &&& r == p.result
    }

    /// As [`Parser::yields`], for a production that reads at least one token
    /// when it succeeds.
    pub open spec fn yields_node<T>(
        &self,
        before: &Parser,
        r: Result<T, ParseError>,
        p: Parsed<T>,
    ) -> bool {
        &&& self.yields(before, r, p)
        &&& r is Ok ==> self.current > before.current
    }

    /// As [`Parser::yields`], for a production that returns a list.
    pub open spec fn yields_list(
        &self,
        before: &Parser,
        r: Result<Vec<usize>, ParseError>,
        p: Parsed<Seq<usize>>,
    ) -> bool {
        &&& self.follows(before)
        &&& self.state() == p.state
        &&& match r {
            Ok(items) => p.result == Ok::<Seq<usize>, ParseError>(items@),
            Err(e) => p.result == Err::<Seq<usize>, ParseError>(e),
        }
    }

    /// `self` was reached from `before` by parsing: same tokens, same
    /// top-level statements, and the cursor no further back.
    pub open spec fn follows(&self, before: &Parser) -> bool {
        &&& self.wf()
        &&& self.tokens == before.tokens
        &&& self.statements == before.statements
        &&& self.current >= before.current
        &&& self.errors@.len() >= before.errors@.len()
        &&& self.exprs@.len() >= before.exprs@.len()
        &&& self.stmts@.len() >= before.stmts@.len()
        &&& before.grown(self)
    }

    /// A parser at the start of `tokens`, which end with the end-of-input
    /// token.
    pub fn new(tokens: Vec<Token>) -> (p: Parser)
        requires
            tokens@.len() > 0,
            tokens@.last().token_type == TokenType::EOF,
        ensures
            p.wf(),
            p.tokens == tokens,
            p.state() == fresh(),
            p.statements@ == Seq::<usize>::empty(),
    {
        let p = Parser {
            tokens,
            current: 0,
            exprs: Vec::new(),
            stmts: Vec::new(),
            lists: Vec::new(),
            statements: Vec::new(),
            errors: Vec::new(),
            windows: Ghost(
                Windows { expr_low: Seq::empty(), stmt_low: Seq::empty(), stmt_high: Seq::empty() },
            ),
        };
        assert(p.state() =~= fresh());
        assert(p.statements@ =~= Seq::<usize>::empty());
        proof {
            lemma_empty_is_well_formed(p.program());
            lemma_empty_is_tidy(p.program(), p.windows@);
        }
        p
    }

    /// Parses the rest of the tokens: appends to `statements` the top-level
    /// statements that parse, and to `errors` the error of each declaration
    /// that does not.
    ///
    /// The end of the tokens is always reached. If no error is found, the
    /// statements tile the tokens: each declaration starts where the one
    /// before it ended, and the last one ends at the end of the tokens.
    pub fn parse(&mut self)
        requires
            old(self).wf(),
        ensures
            final(self).wf(),
            final(self).tokens == old(self).tokens,
            (final(self).state(), final(self).statements@) == program_spec(
                token_views(old(self).tokens@),
                old(self).state(),
                old(self).statements@,
            ),
            at_end(token_views(final(self).tokens@), final(self).state()),
            final(self).errors@.len() >= old(self).errors@.len(),
            final(self).statements@.len() >= old(self).statements@.len(),
            final(self).errors@.len() == old(self).errors@.len() ==> reaches(
                token_views(old(self).tokens@),
                old(self).state(),
                (final(self).statements@.len() - old(self).statements@.len()) as nat,
                final(self).state(),
            ),
    {
        let ghost tokens = token_views(self.tokens@);
        let ghost whole = program_spec(tokens, self.state(), self.statements@);
        while !self.is_at_end()
            invariant
                self.wf(),
                self.tokens == old(self).tokens,
                tokens == token_views(self.tokens@),
                program_spec(tokens, self.state(), self.statements@) == whole,
                self.errors@.len() >= old(self).errors@.len(),
                self.statements@.len() >= old(self).statements@.len(),
                self.errors@.len() == old(self).errors@.len() ==> reaches(
                    tokens,
                    old(self).state(),
                    (self.statements@.len() - old(self).statements@.len()) as nat,
                    self.state(),
                ),
            decreases remaining(tokens, self.state()),
        {
            let ghost before = self.state();
            let ghost count = (self.statements@.len() - old(self).statements@.len()) as nat;
            let ghost item = declaration_spec(tokens, before);
            let ghost clean = self.errors@.len() == old(self).errors@.len();
            let ghost floor = self.exprs@.len() as int;
            proof {
                self.lemma_roots_end();
            }
            match self.declaration() {
                Ok(o) => {
                    let ghost parsed = self.program();
                    self.statements.push(o);
                    proof {
                        let w = self.windows@;
                        lemma_tidy_is_tree(parsed, w);
                        lemma_nodes_fit(parsed);
                        assert(parsed.grows_to(self.program()));
                        assert forall|i: int, j: int|
                            0 <= i < self.statements@.len() && 0 <= j < self.statements@.len() && i
                                != j implies {
                            ||| w.stmt_high[#[trigger] self.statements@[i] as int] <= w.stmt_low[#[trigger] self.statements@[j] as int]
                            ||| w.stmt_high[self.statements@[j] as int] <= w.stmt_low[self.statements@[i] as int]
                        } by {
                            let last = self.statements@.len() - 1;
                            if i < last && j < last {
                                assert(parsed.statements[i] == self.statements@[i]);
                                assert(parsed.statements[j] == self.statements@[j]);
                            } else if i < last {
                                assert(parsed.statements[i] == self.statements@[i]);
                                assert(parsed.statements[i] < parsed.stmts.len());
                                assert(w.stmt_high[parsed.statements[i] as int] <= floor);
                            } else {
                                assert(parsed.statements[j] == self.statements@[j]);
                                assert(parsed.statements[j] < parsed.stmts.len());
                                assert(w.stmt_high[parsed.statements[j] as int] <= floor);
                            }
                        }
                        assert forall|k: int|
                            0 <= k < self.program().statements.len() implies #[trigger] self.program().statements[k]
                            < self.program().stmts.len() by {
                            if k < parsed.statements.len() {
                                assert(parsed.statements[k] < parsed.stmts.len());
                            }
                        }
                        lemma_growth_is_well_formed(parsed, self.program());
                        lemma_growth_is_tidy(parsed, self.program(), w, w);
                        if clean {
                            reveal(declared);
                            lemma_reaches_one_more(tokens, old(self).state(), count, before);
                        }
                    }
                },
                Err(e) => self.errors.push(e),
            }
            assert(item.state.current <= before.current ==> at_end(tokens, self.state()));
        }
    }

    /// The window of every top-level statement ends before the end of the
    /// expressions built so far.
    proof fn lemma_roots_end(&self)
        requires
            self.wf(),
        ensures
            forall|k: int|
                0 <= k < self.statements@.len() ==> self.statements@[k] < self.stmts@.len()
                    && self.windows@.stmt_high[#[trigger] self.statements@[k] as int]
                    <= self.exprs@.len(),
    {
        let p = self.program();
        let w = self.windows@;
        lemma_tidy_is_tree(p, w);
        lemma_nodes_fit(p);
        assert forall|k: int| 0 <= k < self.statements@.len() implies self.statements@[k]
            < self.stmts@.len() && w.stmt_high[#[trigger] self.statements@[k] as int]
            <= self.exprs@.len() by {
            let id = p.statements[k];
            assert(id < p.stmts.len());
            assert(p.stmt_windowed(w, p.stmts[id as int], w.stmt_low[id as int], w.stmt_high[id as int]));
        }
    }

    /// The diagnostics for the errors found.
    pub fn diagnostics(&self) -> (r: Vec<LoxError>)
        ensures
            r@.len() == self.errors@.len(),
            forall|i: int|
                0 <= i < r@.len() ==> (#[trigger] r@[i])@ == describe(token_views(self.tokens@), self.errors@[i]),
    {
        let mut found: Vec<LoxError> = Vec::new();
        let mut index: usize = 0;
        while index < self.errors.len()
            invariant
                index <= self.errors@.len(),
                found@.len() == index,
                forall|i: int|
                    0 <= i < found@.len() ==> (#[trigger] found@[i])@ == describe(
                        token_views(self.tokens@),
                        self.errors@[i],
                    ),
            decreases self.errors@.len() - index,
        {
            let error = self.errors[index];
            let diagnostic = if error.token < self.tokens.len() {
                let t = &self.tokens[error.token];
                LoxError::error(t.line, error.kind.message(t.lexeme.as_str()), t.position)
            } else {
                LoxError::error(0, error.kind.message(""), 0)
            };
            proof {
                assert(""@ =~= Seq::<char>::empty()) by {
                    reveal_strlit("");
                }
            }
            found.push(diagnostic);
            index += 1;
        }
        found
    }

    /// The program that was parsed.
    pub fn into_program(self) -> (p: Program)
        requires
            self.wf(),
        ensures
            p@ == self.program(),
            p@.well_formed(),
            p@.is_tree(),
            p@.branches_plain(),
            p.tokens == self.tokens,
            p.exprs == self.exprs,
            p.stmts == self.stmts,
            p.lists == self.lists,
            p.statements == self.statements,
    {
        proof {
            lemma_tidy_is_tree(self.program(), self.windows@);
        }
        Program {
            tokens: self.tokens,
            exprs: self.exprs,
            stmts: self.stmts,
            lists: self.lists,
            statements: self.statements,
        }
    }

    fn declaration(&mut self) -> (r: Result<usize, ParseError>)
        requires
            old(self).wf(),
        ensures
            final(self).yields_stmt(
                old(self),
                r,
                declaration_spec(token_views(old(self).tokens@), old(self).state()),
            ),
            final(self).current > old(self).current || at_end(
                token_views(final(self).tokens@),
                final(self).state(),
            ),
        decreases remaining(token_views(old(self).tokens@), old(self).state()), 60nat,
    {
        let result = if self.is_of(TokenType::Fun) {
            self.function()
        } else if self.is_of(TokenType::Var) {
            self.var_declaration()
        } else {
            self.statement()
        };
        match result {
            Ok(_) => {},
            Err(_) => {
                self.synchronize();
            },
        }
        result
    }

    fn function(&mut self) -> (r: Result<usize, ParseError>)
        requires
            old(self).wf(),
        ensures
            final(self).yields_stmt(old(self), r, function_spec(token_views(old(self).tokens@), old(self).state())),
        decreases remaining(token_views(old(self).tokens@), old(self).state()), 75nat,
    {
        let ghost entry = self.exprs@.len() as int;
        let name = self.consume(TokenType::Identifier, ParseErrorKind::ExpectedFunctionName)?;
        self.consume(TokenType::LeftParen, ParseErrorKind::ExpectedParenAfterFunctionName)?;
        let mut parameters: Vec<usize> = Vec::new();
        if !self.check(TokenType::RightParen) {
            let ghost tokens = token_views(self.tokens@);
            let ghost start = self.state();
            let ghost whole = parameters_spec(tokens, start, parameters@);
            let mut more = true;
            while more
                invariant
                    self.follows(old(self)),
                    self.current > old(self).current,
                    tokens == token_views(self.tokens@),
                    tokens == token_views(old(self).tokens@),
                    whole == parameters_spec(tokens, start, Seq::empty()),
                    Self::all_below(parameters@, self.tokens@.len() as int),
                    function_head_spec(tokens, old(self).state()) == (if whole.result is Err {
                        failed::<Seq<usize>, (usize, Seq<usize>)>(whole)
                    } else {
                        function_head_spec(tokens, old(self).state())
                    }),
                    more ==> parameters_spec(tokens, self.state(), parameters@) == whole,
                    !more ==> done(self.state(), parameters@) == whole,
                decreases
                        remaining(tokens, self.state()),
                        if more {
                            1nat
                        } else {
                            0nat
                        },
            {
                if parameters.len() >= MAX_ARITY {
                    return Err(
                        ParseError { kind: ParseErrorKind::TooManyParameters, token: self.current },
                    );
                }
                let parameter = self.consume(
                    TokenType::Identifier,
                    ParseErrorKind::ExpectedParameterName,
                )?;
                parameters.push(parameter);
                if !self.is_of(TokenType::Comma) {
                    more = false;
                }
            }
        }
        self.consume(TokenType::RightParen, ParseErrorKind::ExpectedParenAfterParameters)?;
        self.consume(TokenType::LeftBrace, ParseErrorKind::ExpectedBraceBeforeBody)?;
        let body = self.block_items()?;
        let ghost held = body@;
        let params = self.add_list(parameters);
        assert(self.program().list_below(params, self.tokens@.len() as int));
        let body = self.add_list(body);
        assert(self.program().list_below(params, self.tokens@.len() as int));
        assert(self.program().list_below(body, self.stmts@.len() as int));
        proof {
            self.lemma_list_windowed(body, held, entry, self.exprs@.len() as int);
        }
        Ok(
            self.add_stmt(
                Stmt::Function(Function { name, params, body }),
                Ghost(entry),
                Ghost(self.exprs@.len() as int),
            ),
        )
    }

    fn var_declaration(&mut self) -> (r: Result<usize, ParseError>)
        requires
            old(self).wf(),
        ensures
            final(self).yields_stmt(
                old(self),
                r,
                var_declaration_spec(token_views(old(self).tokens@), old(self).state()),
            ),
    {
        let ghost start = self.exprs@.len() as int;
        let name = self.consume(TokenType::Identifier, ParseErrorKind::ExpectedVariableName)?;
        let initializer = if self.is_of(TokenType::Equal) {
            self.expression()?
        } else {
            self.add_expr(Expr::Literal(Literal { value: LiteralKind::Nil }), Ghost(start))
        };
        self.consume(TokenType::Semicolon, ParseErrorKind::ExpectedSemicolonAfterVariable)?;
        Ok(
            self.add_stmt(
                Stmt::Var(Var { name, initializer }),
                Ghost(start),
                Ghost(self.exprs@.len() as int),
            ),
        )
    }

    #[verifier::rlimit(60)]
    fn statement(&mut self) -> (r: Result<usize, ParseError>)
        requires
            old(self).wf(),
        ensures
            final(self).yields_stmt(
                old(self),
                r,
                statement_spec(token_views(old(self).tokens@), old(self).state()),
            ),
            r matches Ok(id) ==> final(self).program().plain(id),
        decreases remaining(token_views(old(self).tokens@), old(self).state()), 59nat,
    {
        if self.is_of(TokenType::Print) {
            return self.print_statement();
        }
        if self.is_of(TokenType::LeftBrace) {
            return self.block();
        }
        if self.is_of(TokenType::If) {
            return self.if_statement();
        }
        if self.is_of(TokenType::While) {
            return self.while_statement();
        }
        if self.is_of(TokenType::For) {
            return self.for_statement();
        }
        if self.is_of(TokenType::Return) {
            return self.return_statement();
        }
        self.expression_statement()
    }

    fn return_statement(&mut self) -> (r: Result<usize, ParseError>)
        requires
            old(self).wf(),
            old(self).current > 0,
        ensures
            final(self).yields_stmt(
                old(self),
                r,
                return_statement_spec(
                    token_views(old(self).tokens@),
                    old(self).state(),
                    (old(self).current - 1) as usize,
                ),
            ),
            r matches Ok(id) ==> final(self).program().plain(id),
    {
        let ghost start = self.exprs@.len() as int;
        let keyword = self.current - 1;
        let mut value: Option<usize> = None;
        if !self.check(TokenType::Semicolon) {
            value = Some(self.expression()?);
        }
        self.consume(TokenType::Semicolon, ParseErrorKind::ExpectedSemicolonAfterReturn)?;
        Ok(
            self.add_stmt(
                Stmt::Return(Return { keyword, value }),
                Ghost(start),
                Ghost(self.exprs@.len() as int),
            ),
        )
    }

    fn for_statement(&mut self) -> (r: Result<usize, ParseError>)
        requires
            old(self).wf(),
        ensures
            final(self).yields_stmt(
                old(self),
                r,
                for_statement_spec(token_views(old(self).tokens@), old(self).state()),
            ),
            r matches Ok(id) ==> final(self).program().plain(id),
        decreases remaining(token_views(old(self).tokens@), old(self).state()), 74nat,
    {
        let ghost start = self.exprs@.len() as int;
        let clauses = self.for_clauses()?;
        let body = self.statement()?;
        Ok(
            self.desugar_for(
                clauses.initializer,
                clauses.condition,
                clauses.increment,
                body,
                Ghost(start),
            ),
        )
    }

    /// The clauses of a `for` statement, up to and including the closing
    /// parenthesis.
    #[verifier::rlimit(60)]
    fn for_clauses(&mut self) -> (r: Result<ForClauses, ParseError>)
        requires
            old(self).wf(),
        ensures
            final(self).yields_node(
                old(self),
                r,
                for_clauses_spec(token_views(old(self).tokens@), old(self).state()),
            ),
            r matches Ok(c) ==> final(self).holds(c),
            r matches Ok(c) ==> final(self).clauses_from(c, old(self).exprs@.len() as int),
    {
        let ghost start = self.exprs@.len() as int;
        self.consume(TokenType::LeftParen, ParseErrorKind::ExpectedParenAfterFor)?;
        let initializer: Option<usize> = if self.is_of(TokenType::Semicolon) {
            None
        } else if self.is_of(TokenType::Var) {
            Some(self.var_declaration()?)
        } else {
            Some(self.expression_statement()?)
        };
        let ghost first = self.windows@;
        let ghost first_end = self.exprs@.len() as int;
        assert(initializer matches Some(s) ==> self.stmt_from(s, start));
        let condition = if !self.check(TokenType::Semicolon) {
            self.expression()?
        } else {
            self.add_expr(
                Expr::Literal(Literal { value: LiteralKind::True }),
                Ghost(self.exprs@.len() as int),
            )
        };
        assert(self.expr_from(condition, first_end));
        assert(initializer matches Some(s) ==> self.windows@.stmt_low[s as int] == first.stmt_low[s as int]
            && self.windows@.stmt_high[s as int] == first.stmt_high[s as int]);
        let ghost second = self.windows@;
        self.consume(TokenType::Semicolon, ParseErrorKind::ExpectedSemicolonAfterLoopCondition)?;
        let ghost second_end = self.exprs@.len() as int;
        let increment: Option<usize> = if !self.check(TokenType::RightParen) {
            Some(self.expression()?)
        } else {
            None
        };
        assert(increment matches Some(e) ==> self.expr_from(e, second_end));
        assert(self.windows@.expr_low[condition as int] == second.expr_low[condition as int]);
        assert(initializer matches Some(s) ==> self.windows@.stmt_low[s as int] == first.stmt_low[s as int]
            && self.windows@.stmt_high[s as int] == first.stmt_high[s as int]);
        let ghost third = self.windows@;
        self.consume(TokenType::RightParen, ParseErrorKind::ExpectedParenAfterForClauses)?;
        assert(self.windows@ == third);
        let c = ForClauses { initializer, condition, increment };
        assert(self.clauses_from(c, start));
        Ok(c)
    }

    /// Builds the loop that a `for` statement stands for.
    fn desugar_for(
        &mut self,
        initializer: Option<usize>,
        condition: usize,
        increment: Option<usize>,
        body: usize,
        Ghost(low): Ghost<int>,
    ) -> (id: usize)
        requires
            old(self).wf(),
            0 <= low,
            old(self).holds(ForClauses { initializer, condition, increment }),
            old(self).clauses_from(ForClauses { initializer, condition, increment }, low),
            old(self).stmt_from(
                body,
                Self::after_clauses(ForClauses { initializer, condition, increment }),
            ),
            old(self).program().plain(body),
        ensures
            final(self).yields(
                old(self),
                Ok(id),
                desugar_for(old(self).state(), initializer, condition, increment, body),
            ),
            final(self).stmt_from(id, low),
            final(self).program().plain(id),
    {
        let ghost high = self.exprs@.len() as int;
        let ghost turn = self.windows@.expr_low[condition as int];
        let mut body = body;
        proof {
            lemma_tidy_is_tree(self.program(), self.windows@);
            assert(self.program().expr_windowed(
                self.windows@,
                self.program().exprs[condition as int],
                condition as int,
                turn,
            ));
        }
        match increment {
            Some(step) => {
                let ghost step_low = self.windows@.expr_low[step as int];
                proof {
                    assert(self.program().expr_windowed(
                        self.windows@,
                        self.program().exprs[step as int],
                        step as int,
                        step_low,
                    ));
                }
                let advance = self.add_stmt(
                    Stmt::Expression(Expression { expr: step }),
                    Ghost(step_low),
                    Ghost(step + 1),
                );
                let mut pair: Vec<usize> = Vec::new();
                pair.push(body);
                pair.push(advance);
                assert(pair@ =~= seq![body, advance]);
                assert(Self::all_below(pair@, self.stmts@.len() as int));
                let statements = self.add_list(pair);
                proof {
                    let p = self.program();
                    let w = self.windows@;
                    assert(p.lists[statements.start as int] == body);
                    assert(p.lists[statements.start + 1] == advance);
                    assert(p.list_windowed(w, statements, step_low, high)) by {
                        assert forall|k: int|
                            statements.start <= k < statements.start + statements.len implies {
                            &&& step_low <= w.stmt_low[#[trigger] p.lists[k] as int]
                            &&& w.stmt_high[p.lists[k] as int] <= high
                        } by {
                            assert(k == statements.start || k == statements.start + 1);
                        }
                        assert forall|i: int, j: int|
                            statements.start <= i < statements.start + statements.len
                                && statements.start <= j < statements.start + statements.len && i
                                != j implies {
                            ||| w.stmt_high[#[trigger] p.lists[i] as int] <= w.stmt_low[#[trigger] p.lists[j] as int]
                            ||| w.stmt_high[p.lists[j] as int] <= w.stmt_low[p.lists[i] as int]
                        } by {
                            assert(i == statements.start || i == statements.start + 1);
                            assert(j == statements.start || j == statements.start + 1);
                        }
                    }
                }
                body = self.add_stmt(
                    Stmt::Block(Block { statements }),
                    Ghost(step_low),
                    Ghost(high),
                );
            },
            None => {},
        }
        body = self.add_stmt(Stmt::While(While { condition, body }), Ghost(turn), Ghost(high));
        match initializer {
            Some(first) => {
                let mut pair: Vec<usize> = Vec::new();
                pair.push(first);
                pair.push(body);
                assert(pair@ =~= seq![first, body]);
                assert(Self::all_below(pair@, self.stmts@.len() as int));
                let statements = self.add_list(pair);
                proof {
                    let p = self.program();
                    let w = self.windows@;
                    lemma_tidy_is_tree(p, w);
                    assert(p.stmt_windowed(
                        w,
                        p.stmts[first as int],
                        w.stmt_low[first as int],
                        w.stmt_high[first as int],
                    ));
                    assert(p.lists[statements.start as int] == first);
                    assert(p.lists[statements.start + 1] == body);
                    assert(p.list_windowed(w, statements, low, high)) by {
                        assert forall|k: int|
                            statements.start <= k < statements.start + statements.len implies {
                            &&& low <= w.stmt_low[#[trigger] p.lists[k] as int]
                            &&& w.stmt_high[p.lists[k] as int] <= high
                        } by {
                            assert(k == statements.start || k == statements.start + 1);
                        }
                        assert forall|i: int, j: int|
                            statements.start <= i < statements.start + statements.len
                                && statements.start <= j < statements.start + statements.len && i
                                != j implies {
                            ||| w.stmt_high[#[trigger] p.lists[i] as int] <= w.stmt_low[#[trigger] p.lists[j] as int]
                            ||| w.stmt_high[p.lists[j] as int] <= w.stmt_low[p.lists[i] as int]
                        } by {
                            assert(i == statements.start || i == statements.start + 1);
                            assert(j == statements.start || j == statements.start + 1);
                        }
                    }
                }
                body = self.add_stmt(Stmt::Block(Block { statements }), Ghost(low), Ghost(high));
            },
            None => {},
        }
        body
    }

    fn while_statement(&mut self) -> (r: Result<usize, ParseError>)
        requires
            old(self).wf(),
        ensures
            final(self).yields_stmt(
                old(self),
                r,
                while_statement_spec(token_views(old(self).tokens@), old(self).state()),
            ),
            r matches Ok(id) ==> final(self).program().plain(id),
        decreases remaining(token_views(old(self).tokens@), old(self).state()), 73nat,
    {
        let ghost start = self.exprs@.len() as int;
        self.consume(TokenType::LeftParen, ParseErrorKind::ExpectedParenAfterWhile)?;
        let condition = self.expression()?;
        self.consume(TokenType::RightParen, ParseErrorKind::ExpectedParenAfterWhileCondition)?;
        let body = self.statement()?;
        Ok(
            self.add_stmt(
                Stmt::While(While { condition, body }),
                Ghost(start),
                Ghost(self.exprs@.len() as int),
            ),
        )
    }

    fn if_statement(&mut self) -> (r: Result<usize, ParseError>)
        requires
            old(self).wf(),
        ensures
            final(self).yields_stmt(
                old(self),
                r,
                if_statement_spec(token_views(old(self).tokens@), old(self).state()),
            ),
            r matches Ok(id) ==> final(self).program().plain(id),
        decreases remaining(token_views(old(self).tokens@), old(self).state()), 72nat,
    {
        let ghost start = self.exprs@.len() as int;
        self.consume(TokenType::LeftParen, ParseErrorKind::ExpectedParenAfterIf)?;
        let condition = self.expression()?;
        self.consume(TokenType::RightParen, ParseErrorKind::ExpectedParenAfterIfCondition)?;
        let then_branch = self.statement()?;
        let mut else_branch: Option<usize> = None;
        if self.is_of(TokenType::Else) {
            else_branch = Some(self.statement()?);
        };
        Ok(
            self.add_stmt(
                Stmt::If(If { condition, then_branch, else_branch }),
                Ghost(start),
                Ghost(self.exprs@.len() as int),
            ),
        )
    }

    fn print_statement(&mut self) -> (r: Result<usize, ParseError>)
        requires
            old(self).wf(),
        ensures
            final(self).yields_stmt(
                old(self),
                r,
                print_statement_spec(token_views(old(self).tokens@), old(self).state()),
            ),
            r matches Ok(id) ==> final(self).program().plain(id),
    {
        let ghost start = self.exprs@.len() as int;
        let value = self.expression()?;
        self.consume(TokenType::Semicolon, ParseErrorKind::ExpectedSemicolonAfterValue)?;
        Ok(
            self.add_stmt(
                Stmt::Print(Print { expr: value }),
                Ghost(start),
                Ghost(self.exprs@.len() as int),
            ),
        )
    }

    fn expression_statement(&mut self) -> (r: Result<usize, ParseError>)
        requires
            old(self).wf(),
        ensures
            final(self).yields_stmt(
                old(self),
                r,
                expression_statement_spec(token_views(old(self).tokens@), old(self).state()),
            ),
            r matches Ok(id) ==> final(self).program().plain(id),
    {
        let ghost start = self.exprs@.len() as int;
        let expr = self.expression()?;
        self.consume(TokenType::Semicolon, ParseErrorKind::ExpectedSemicolonAfterValue)?;
        Ok(
            self.add_stmt(
                Stmt::Expression(Expression { expr }),
                Ghost(start),
                Ghost(self.exprs@.len() as int),
            ),
        )
    }

    fn block(&mut self) -> (r: Result<usize, ParseError>)
        requires
            old(self).wf(),
        ensures
            final(self).yields_stmt(old(self), r, block_spec(token_views(old(self).tokens@), old(self).state())),
            r matches Ok(id) ==> final(self).program().plain(id),
        decreases remaining(token_views(old(self).tokens@), old(self).state()), 71nat,
    {
        let ghost start = self.exprs@.len() as int;
        let items = self.block_items()?;
        let ghost held = items@;
        let statements = self.add_list(items);
        proof {
            self.lemma_list_windowed(statements, held, start, self.exprs@.len() as int);
        }
        Ok(
            self.add_stmt(
                Stmt::Block(Block { statements }),
                Ghost(start),
                Ghost(self.exprs@.len() as int),
            ),
        )
    }

    /// The declarations of a block, up to and including its closing brace.
    fn block_items(&mut self) -> (r: Result<Vec<usize>, ParseError>)
        requires
            old(self).wf(),
        ensures
            final(self).yields_list(
                old(self),
                r,
                block_items_spec(token_views(old(self).tokens@), old(self).state(), Seq::empty()),
            ),
            r is Ok ==> final(self).current > old(self).current,
            r matches Ok(items) ==> Self::all_below(items@, final(self).stmts@.len() as int),
            r matches Ok(items) ==> final(self).stmts_from(items@, old(self).exprs@.len() as int),
        decreases remaining(token_views(old(self).tokens@), old(self).state()), 70nat,
    {
        let mut statements: Vec<usize> = Vec::new();
        let ghost tokens = token_views(self.tokens@);
        let ghost whole = block_items_spec(tokens, self.state(), statements@);
        while !self.check(TokenType::RightBrace) && !self.is_at_end()
            invariant
                self.follows(old(self)),
                tokens == token_views(self.tokens@),
                tokens == token_views(old(self).tokens@),
                whole == block_items_spec(tokens, old(self).state(), Seq::empty()),
                Self::all_below(statements@, self.stmts@.len() as int),
                self.stmts_from(statements@, old(self).exprs@.len() as int),
                block_items_spec(tokens, self.state(), statements@) == whole,
            decreases remaining(tokens, self.state()),
        {
            let item = self.declaration()?;
            statements.push(item);
        }
        self.consume(TokenType::RightBrace, ParseErrorKind::ExpectedBraceAfterBlock)?;
        Ok(statements)
    }

    fn expression(&mut self) -> (r: Result<usize, ParseError>)
        requires
            old(self).wf(),
        ensures
            final(self).yields_expr(
                old(self),
                r,
                expression_spec(token_views(old(self).tokens@), old(self).state()),
            ),
        decreases remaining(token_views(old(self).tokens@), old(self).state()), 31nat,
    {
        self.assignment()
    }

    fn assignment(&mut self) -> (r: Result<usize, ParseError>)
        requires
            old(self).wf(),
        ensures
            final(self).yields_expr(
                old(self),
                r,
                assignment_spec(token_views(old(self).tokens@), old(self).state()),
            ),
        decreases remaining(token_views(old(self).tokens@), old(self).state()), 30nat,
    {
        let ghost start = self.exprs@.len() as int;
        let expr = self.binary(Precedence::Or)?;
        if self.check(TokenType::Equal) {
            let equals = self.current;
            self.advance();
            let value = self.assignment()?;
            if expr < self.exprs.len() {
                proof {
                    lemma_nodes_fit(self.program());
                    assert(self.program().expr_fits(self.program().exprs[expr as int], expr as int));
                }
                match self.exprs[expr] {
                    Expr::Variable(v) => {
                        return Ok(
                            self.add_expr(
                                Expr::Assign(Assign { name: v.name, value }),
                                Ghost(start),
                            ),
                        );
                    },
                    _ => {},
                }
            }
            self.errors.push(
                ParseError { kind: ParseErrorKind::InvalidAssignmentTarget, token: equals },
            );
            return Ok(expr);
        }
        Ok(expr)
    }

    fn binary(&mut self, level: Precedence) -> (r: Result<usize, ParseError>)
        requires
            old(self).wf(),
        ensures
            final(self).yields_expr(
                old(self),
                r,
                binary_spec(token_views(old(self).tokens@), old(self).state(), level),
            ),
        decreases remaining(token_views(old(self).tokens@), old(self).state()), 6 + 3 * level.height(),
    {
        let ghost start = self.exprs@.len() as int;
        let mut expr = self.operand(level)?;
        let ghost tokens = token_views(self.tokens@);
        let ghost whole = binary_rest_spec(tokens, self.state(), level, expr);
        while !self.is_at_end() && level.binds(self.peek().token_type())
            invariant
                self.follows(old(self)),
                tokens == token_views(self.tokens@),
                tokens == token_views(old(self).tokens@),
                self.current > old(self).current,
                whole == binary_spec(tokens, old(self).state(), level),
                start == old(self).exprs@.len(),
                self.expr_from(expr, start),
                binary_rest_spec(tokens, self.state(), level, expr) == whole,
            decreases remaining(tokens, self.state()),
        {
            let operator = self.current;
            self.advance();
            let right = self.operand(level)?;
            expr = self.add_expr(level.node(expr, operator, right), Ghost(start));
        }
        Ok(expr)
    }

    fn operand(&mut self, level: Precedence) -> (r: Result<usize, ParseError>)
        requires
            old(self).wf(),
        ensures
            final(self).yields_expr(
                old(self),
                r,
                operand_spec(token_views(old(self).tokens@), old(self).state(), level),
            ),
        decreases remaining(token_views(old(self).tokens@), old(self).state()), 5 + 3 * level.height(),
    {
        match level.tighter() {
            Some(next) => self.binary(next),
            None => self.unary(),
        }
    }

    fn unary(&mut self) -> (r: Result<usize, ParseError>)
        requires
            old(self).wf(),
        ensures
            final(self).yields_expr(old(self), r, unary_spec(token_views(old(self).tokens@), old(self).state())),
        decreases remaining(token_views(old(self).tokens@), old(self).state()), 3nat,
    {
        let ghost start = self.exprs@.len() as int;
        if self.check(TokenType::Bang) || self.check(TokenType::Minus) {
            let operator = self.current;
            self.advance();
            let right = self.unary()?;
            return Ok(self.add_expr(Expr::Unary(Unary { operator, expr: right }), Ghost(start)));
        }
        self.call()
    }

    fn call(&mut self) -> (r: Result<usize, ParseError>)
        requires
            old(self).wf(),
        ensures
            final(self).yields_expr(old(self), r, call_spec(token_views(old(self).tokens@), old(self).state())),
        decreases remaining(token_views(old(self).tokens@), old(self).state()), 2nat,
    {
        let ghost start = self.exprs@.len() as int;
        let mut expr = self.primary()?;
        let ghost tokens = token_views(self.tokens@);
        let ghost whole = call_rest_spec(tokens, self.state(), expr);
        while self.check(TokenType::LeftParen)
            invariant
                self.follows(old(self)),
                tokens == token_views(self.tokens@),
                tokens == token_views(old(self).tokens@),
                self.current > old(self).current,
                whole == call_spec(tokens, old(self).state()),
                start == old(self).exprs@.len(),
                self.expr_from(expr, start),
                call_rest_spec(tokens, self.state(), expr) == whole,
            decreases remaining(tokens, self.state()),
        {
            self.advance();
            expr = self.finish_call(expr, Ghost(start))?;
        }
        Ok(expr)
    }

    #[verifier::rlimit(50)]
    fn finish_call(&mut self, callee: usize, Ghost(low): Ghost<int>) -> (r: Result<
        usize,
        ParseError,
    >)
        requires
            old(self).wf(),
            0 <= low,
            old(self).expr_from(callee, low),
        ensures
            final(self).yields_node(
                old(self),
                r,
                finish_call_spec(token_views(old(self).tokens@), old(self).state(), callee),
            ),
            r matches Ok(id) ==> final(self).expr_from(id, low),
        decreases remaining(token_views(old(self).tokens@), old(self).state()), 42nat,
    {
        let mut arguments: Vec<usize> = Vec::new();
        if !self.check(TokenType::RightParen) {
            let ghost tokens = token_views(self.tokens@);
            let ghost whole = arguments_spec(tokens, self.state(), arguments@);
            let mut more = true;
            while more
                invariant
                    self.follows(old(self)),
                    tokens == token_views(self.tokens@),
                    tokens == token_views(old(self).tokens@),
                    !check(tokens, old(self).state(), TokenType::RightParen),
                    whole == arguments_spec(tokens, old(self).state(), Seq::empty()),
                    Self::all_below(arguments@, self.exprs@.len() as int),
                    callee < self.exprs@.len(),
                    forall|k: int|
                        0 <= k < arguments@.len() ==> callee < self.windows@.expr_low[#[trigger] arguments@[k] as int],
                    forall|i: int, j: int|
                        0 <= i < j < arguments@.len() ==> #[trigger] arguments@[i]
                            < self.windows@.expr_low[#[trigger] arguments@[j] as int],
                    more ==> arguments_spec(tokens, self.state(), arguments@) == whole,
                    !more ==> done(self.state(), arguments@) == whole,
                decreases
                        remaining(tokens, self.state()),
                        if more {
                            1nat
                        } else {
                            0nat
                        },
            {
                if arguments.len() >= MAX_ARITY {
                    return Err(
                        ParseError { kind: ParseErrorKind::TooManyArguments, token: self.current },
                    );
                }
                let ghost held = arguments@;
                let ghost fixed = self.windows@;
                let ghost floor = self.exprs@.len();
                let argument = self.expression()?;
                arguments.push(argument);
                proof {
                    let w = self.windows@;
                    assert forall|k: int| 0 <= k < arguments@.len() implies callee
                        < w.expr_low[#[trigger] arguments@[k] as int] by {
                        if k < held.len() {
                            assert(arguments@[k] == held[k]);
                            assert(held[k] < floor);
                            assert(w.expr_low[held[k] as int] == fixed.expr_low[held[k] as int]);
                        } else {
                            assert(arguments@[k] == argument);
                            assert(self.expr_from(argument, floor as int));
                        }
                    }
                    assert forall|i: int, j: int|
                        0 <= i < j < arguments@.len() implies #[trigger] arguments@[i]
                        < w.expr_low[#[trigger] arguments@[j] as int] by {
                        assert(arguments@[i] == held[i]);
                        assert(held[i] < floor);
                        if j < held.len() {
                            assert(arguments@[j] == held[j]);
                            assert(held[j] < floor);
                            assert(w.expr_low[held[j] as int] == fixed.expr_low[held[j] as int]);
                        } else {
                            assert(arguments@[j] == argument);
                            assert(self.expr_from(argument, floor as int));
                        }
                    }
                }
                if !self.is_of(TokenType::Comma) {
                    more = false;
                }
            }
        }
        let paren = self.consume(
            TokenType::RightParen,
            ParseErrorKind::ExpectedParenAfterArguments,
        )?;
        let ghost items = arguments@;
        let arguments = self.add_list(arguments);
        proof {
            let p = self.program();
            let w = self.windows@;
            assert(w.expr_low[callee as int] == old(self).windows@.expr_low[callee as int]);
            lemma_tidy_is_tree(p, w);
            assert(p.expr_windowed(w, p.exprs[callee as int], callee as int, w.expr_low[callee as int]));
            assert forall|k: int|
                arguments.start <= k < arguments.start + arguments.len implies callee
                < w.expr_low[#[trigger] p.lists[k] as int] by {
                assert(self.lists@[arguments.start + (k - arguments.start)] == items[k
                    - arguments.start]);
            }
            assert forall|i: int, j: int|
                arguments.start <= i < j < arguments.start + arguments.len implies #[trigger] p.lists[i]
                < w.expr_low[#[trigger] p.lists[j] as int] by {
                assert(self.lists@[arguments.start + (i - arguments.start)] == items[i
                    - arguments.start]);
                assert(self.lists@[arguments.start + (j - arguments.start)] == items[j
                    - arguments.start]);
            }
        }
        Ok(self.add_expr(Expr::Call(Call { callee, paren, arguments }), Ghost(low)))
    }

    fn primary(&mut self) -> (r: Result<usize, ParseError>)
        requires
            old(self).wf(),
        ensures
            final(self).yields_expr(old(self), r, primary_spec(token_views(old(self).tokens@), old(self).state())),
        decreases remaining(token_views(old(self).tokens@), old(self).state()), 0nat,
    {
        let here = self.current;
        let ghost start = self.exprs@.len() as int;
        if self.is_of(TokenType::False) {
            return Ok(
                self.add_expr(Expr::Literal(Literal { value: LiteralKind::False }), Ghost(start)),
            );
        }
        if self.is_of(TokenType::True) {
            return Ok(
                self.add_expr(Expr::Literal(Literal { value: LiteralKind::True }), Ghost(start)),
            );
        }
        if self.is_of(TokenType::Nil) {
            return Ok(
                self.add_expr(Expr::Literal(Literal { value: LiteralKind::Nil }), Ghost(start)),
            );
        }
        if self.is_of(TokenType::Number) {
            return Ok(
                self.add_expr(
                    Expr::Literal(Literal { value: LiteralKind::Num(here) }),
                    Ghost(start),
                ),
            );
        }
        if self.is_of(TokenType::String) {
            return Ok(
                self.add_expr(
                    Expr::Literal(Literal { value: LiteralKind::String(here) }),
                    Ghost(start),
                ),
            );
        }
        if self.is_of(TokenType::LeftParen) {
            let expr = self.expression()?;
            self.consume(TokenType::RightParen, ParseErrorKind::ExpectedParenAfterExpression)?;
            return Ok(self.add_expr(Expr::Grouping(Grouping { expr }), Ghost(start)));
        }
        if self.is_of(TokenType::Identifier) {
            return Ok(self.add_expr(Expr::Variable(Variable { name: here }), Ghost(start)));
        }
        Err(ParseError { kind: ParseErrorKind::ExpectedExpression, token: self.current })
    }

    /// Steps over the token at the cursor if it has kind `token_type`.
    fn is_of(&mut self, token_type: TokenType) -> (r: bool)
        requires
            old(self).wf(),
        ensures
            final(self).follows(old(self)),
            r == check(token_views(old(self).tokens@), old(self).state(), token_type),
            final(self).windows == old(self).windows,
            final(self).state() == if r {
                advance(token_views(old(self).tokens@), old(self).state())
            } else {
                old(self).state()
            },
    {
        if self.check(token_type) {
            self.advance();
            true
        } else {
            false
        }
    }

    /// Steps over a token of kind `token_type` and returns its index, or
    /// fails with `error` at the token found in its place.
    fn consume(&mut self, token_type: TokenType, error: ParseErrorKind) -> (r: Result<
        usize,
        ParseError,
    >)
        requires
            old(self).wf(),
        ensures
            final(self).yields_node(
                old(self),
                r,
                consume(token_views(old(self).tokens@), old(self).state(), token_type, error),
            ),
            r matches Ok(id) ==> id < final(self).tokens@.len(),
            final(self).windows == old(self).windows,
    {
        if self.check(token_type) {
            let here = self.current;
            self.advance();
            return Ok(here);
        }
        Err(ParseError { kind: error, token: self.current })
    }

    fn check(&self, token_type: TokenType) -> (r: bool)
        requires
            self.wf(),
        ensures
            r == check(token_views(self.tokens@), self.state(), token_type),
    {
        assert(token_views(self.tokens@)[self.current as int] == self.tokens@[self.current as int]@);
        if self.is_at_end() {
            false
        } else {
            self.peek().token_type() == token_type
        }
    }

    fn advance(&mut self)
        requires
            old(self).wf(),
        ensures
            final(self).follows(old(self)),
            final(self).state() == advance(token_views(old(self).tokens@), old(self).state()),
            final(self).windows == old(self).windows,
    {
        if !self.is_at_end() {
            assert(self.current + 1 < self.tokens.len());
            self.current += 1;
        }
    }

    fn is_at_end(&self) -> (r: bool)
        requires
            self.wf(),
        ensures
            r == at_end(token_views(self.tokens@), self.state()),
    {
        assert(token_views(self.tokens@)[self.current as int] == self.tokens@[self.current as int]@);
        self.peek().token_type() == TokenType::EOF
    }

    fn peek(&self) -> (t: &Token)
        requires
            self.wf(),
        ensures
            *t == self.tokens@[self.current as int],
    {
        &self.tokens[self.current]
    }

    fn previous(&self) -> (t: &Token)
        requires
            self.wf(),
            self.current > 0,
        ensures
            *t == self.tokens@[self.current - 1],
    {
        &self.tokens[self.current - 1]
    }

    /// Panic-mode recovery after an error.
    fn synchronize(&mut self)
        requires
            old(self).wf(),
        ensures
            final(self).follows(old(self)),
            final(self).state() == synchronize_spec(token_views(old(self).tokens@), old(self).state()),
            final(self).windows == old(self).windows,
            final(self).current > old(self).current || at_end(
                token_views(final(self).tokens@),
                final(self).state(),
            ),
    {
        self.advance();
        let ghost tokens = token_views(self.tokens@);
        let ghost whole = skip_spec(tokens, self.state());
        while !self.is_at_end()
            invariant
                self.follows(old(self)),
                self.windows == old(self).windows,
                tokens == token_views(self.tokens@),
                whole == synchronize_spec(tokens, old(self).state()),
                self.current > old(self).current || at_end(tokens, self.state()),
                skip_spec(tokens, self.state()) == whole,
            decreases remaining(tokens, self.state()),
        {
            if self.current > 0 && self.previous().token_type() == TokenType::Semicolon {
                return ;
            }
            match self.peek().token_type() {
                TokenType::Class
                | TokenType::Fun
                | TokenType::Var
                | TokenType::For
                | TokenType::If
                | TokenType::While
                | TokenType::Print
                | TokenType::Return => {
                    return ;
                },
                _ => {},
            }
            self.advance();
        }
    }

    fn add_expr(&mut self, e: Expr, Ghost(low): Ghost<int>) -> (id: usize)
        requires
            old(self).wf(),
            old(self).program().expr_fits(e, old(self).exprs@.len() as int),
            old(self).program().expr_windowed(
                old(self).windows@,
                e,
                old(self).exprs@.len() as int,
                low,
            ),
        ensures
            final(self).yields(old(self), Ok(id), add_expr(old(self).state(), e)),
            id < final(self).exprs@.len(),
            final(self).windows@.expr_low[id as int] == low,
    {
        let id = self.exprs.len();
        self.exprs.push(e);
        proof {
            let w = old(self).windows@;
            self.windows@ = Windows { expr_low: w.expr_low.push(low), ..w };
            lemma_nodes_fit(old(self).program());
            lemma_fits_later(old(self).program(), self.program());
            assert forall|k: int| 0 <= k < self.program().statements.len() implies #[trigger] self.program().statements[k]
                < self.program().stmts.len() by {
                assert(old(self).program().statements[k] < old(self).program().stmts.len());
            }
            lemma_growth_is_well_formed(old(self).program(), self.program());
            self.lemma_stays_tidy(old(self));
        }
        id
    }

    fn add_stmt(&mut self, s: Stmt, Ghost(low): Ghost<int>, Ghost(high): Ghost<int>) -> (id: usize)
        requires
            old(self).wf(),
            old(self).program().stmt_fits(s, old(self).stmts@.len() as int),
            old(self).program().stmt_windowed(old(self).windows@, s, low, high),
            old(self).program().stmt_plain(s),
        ensures
            final(self).yields(old(self), Ok(id), add_stmt(old(self).state(), s)),
            id < final(self).stmts@.len(),
            final(self).stmts@[id as int] == s,
            final(self).windows@.stmt_low[id as int] == low,
            final(self).windows@.stmt_high[id as int] == high,
    {
        let id = self.stmts.len();
        self.stmts.push(s);
        proof {
            let w = old(self).windows@;
            self.windows@ = Windows {
                stmt_low: w.stmt_low.push(low),
                stmt_high: w.stmt_high.push(high),
                ..w
            };
            lemma_nodes_fit(old(self).program());
            lemma_fits_later(old(self).program(), self.program());
            assert forall|k: int| 0 <= k < self.program().statements.len() implies #[trigger] self.program().statements[k]
                < self.program().stmts.len() by {
                assert(old(self).program().statements[k] < old(self).program().stmts.len());
            }
            lemma_growth_is_well_formed(old(self).program(), self.program());
            self.lemma_stays_tidy(old(self));
        }
        id
    }

    fn add_list(&mut self, items: Vec<usize>) -> (list: List)
        requires
            old(self).wf(),
        ensures
            final(self).yields(old(self), Ok(list), add_list(old(self).state(), items@)),
            final(self).windows == old(self).windows,
            list.len == items@.len(),
            list.start + list.len == final(self).lists@.len(),
            forall|k: int| 0 <= k < items@.len() ==> #[trigger] final(self).lists@[list.start + k] == items@[k],
            forall|bound: int|
                Self::all_below(items@, bound) ==> #[trigger] final(self).program().list_below(
                    list,
                    bound,
                ),
            forall|earlier: List, bound: int| #[trigger]
                old(self).program().list_below(earlier, bound) ==> final(self).program().list_below(
                    earlier,
                    bound,
                ),
    {
        let ghost wanted = items@;
        let mut items = items;
        let start = self.lists.len();
        let len = items.len();
        self.lists.append(&mut items);
        let list = List { start, len };
        proof {
            lemma_nodes_fit(old(self).program());
            assert forall|k: int| 0 <= k < self.program().statements.len() implies #[trigger] self.program().statements[k]
                < self.program().stmts.len() by {
                assert(old(self).program().statements[k] < old(self).program().stmts.len());
            }
            lemma_growth_is_well_formed(old(self).program(), self.program());
            lemma_fits_later(old(self).program(), self.program());
            assert forall|bound: int| Self::all_below(wanted, bound) implies #[trigger] self.program().list_below(
                list,
                bound,
            ) by {
                assert forall|k: int| list.start <= k < list.start + list.len implies #[trigger] self.program().lists[k]
                    < bound by {
                    assert(self.lists@[k] == wanted[k - list.start]);
                }
            }
            self.lemma_stays_tidy(old(self));
        }
        list
    }

    /// A parser that was tidy stays tidy when it grows by nodes that have
    /// their windows.
    proof fn lemma_stays_tidy(&self, before: &Parser)
        requires
            before.wf(),
            self.program().well_formed(),
            before.program().grows_to(self.program()),
            self.tokens == before.tokens,
            self.statements == before.statements,
            keeps_windows(before.program(), before.windows@, self.windows@),
            self.windows@.expr_low.len() == self.exprs@.len(),
            self.windows@.stmt_low.len() == self.stmts@.len(),
            self.windows@.stmt_high.len() == self.stmts@.len(),
            forall|i: int| 0 <= i < before.exprs@.len() ==> self.exprs@[i] == before.exprs@[i],
            forall|j: int| 0 <= j < before.stmts@.len() ==> self.stmts@[j] == before.stmts@[j],
            forall|i: int|
                before.exprs@.len() <= i < self.exprs@.len() ==> before.program().expr_fits(
                    #[trigger] self.exprs@[i],
                    i,
                ) && before.program().expr_windowed(
                    before.windows@,
                    self.exprs@[i],
                    i,
                    self.windows@.expr_low[i],
                ) && i == before.exprs@.len(),
            forall|j: int|
                before.stmts@.len() <= j < self.stmts@.len() ==> before.program().stmt_fits(
                    #[trigger] self.stmts@[j],
                    j,
                ) && before.program().stmt_windowed(
                    before.windows@,
                    self.stmts@[j],
                    self.windows@.stmt_low[j],
                    self.windows@.stmt_high[j],
                ) && before.program().stmt_plain(self.stmts@[j]) && j == before.stmts@.len(),
        ensures
            self.program().tidy(self.windows@),
    {
        let p = before.program();
        let q = self.program();
        let w = before.windows@;
        let v = self.windows@;
        lemma_tidy_is_tree(p, w);
        lemma_windowed_later(p, q, w, v);
        assert forall|j: int| p.stmts.len() <= j < q.stmts.len() implies q.stmt_windowed(
            v,
            #[trigger] q.stmts[j],
            v.stmt_low[j],
            v.stmt_high[j],
        ) && q.stmt_plain(q.stmts[j]) by {
            assert(p.stmt_fits(self.stmts@[j], j));
            match q.stmts[j] {
                Stmt::If(i) => {
                    assert(q.stmts[i.then_branch as int] == p.stmts[i.then_branch as int]);
                    match i.else_branch {
                        Some(e) => {
                            assert(q.stmts[e as int] == p.stmts[e as int]);
                        },
                        None => {},
                    }
                },
                Stmt::While(l) => {
                    assert(q.stmts[l.body as int] == p.stmts[l.body as int]);
                },
                _ => {},
            }
        }
        assert forall|i: int| p.exprs.len() <= i < q.exprs.len() implies q.expr_windowed(
            v,
            #[trigger] q.exprs[i],
            i,
            v.expr_low[i],
        ) by {
            assert(p.expr_fits(self.exprs@[i], i));
        }
        assert forall|i: int, j: int|
            0 <= i < q.statements.len() && 0 <= j < q.statements.len() && i != j implies {
            ||| v.stmt_high[#[trigger] q.statements[i] as int] <= v.stmt_low[#[trigger] q.statements[j] as int]
            ||| v.stmt_high[q.statements[j] as int] <= v.stmt_low[q.statements[i] as int]
        } by {
            lemma_nodes_fit(p);
            assert(p.statements[i] < p.stmts.len() && p.statements[j] < p.stmts.len());
            assert(w.stmt_high[p.statements[i] as int] <= w.stmt_low[p.statements[j] as int]
                || w.stmt_high[p.statements[j] as int] <= w.stmt_low[p.statements[i] as int]);
        }
        lemma_growth_is_tidy(p, q, w, v);
    }
}

} // verus!
