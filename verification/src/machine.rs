//! The semantics of evaluation, as an abstract machine.
//!
//! A state holds what is being evaluated, the pending work (a stack of
//! frames), an operand stack, the scopes and the string heap. [`step`] is
//! the transition function. It is total: a state that no run reaches, or a
//! program whose nodes name indices that do not exist, leads to a failure
//! and never to an undefined step.
//!
//! The machine does no floating-point arithmetic, reads no numerals and
//! prints nothing. Where it needs one of these it stops with a request,
//! which the embedder answers.

use crate::ast::{List, Program};
use crate::environment::{ancestor, assigned, defined, lookup, undefined_variable, Scope};
use crate::error::LoxErrorView;
use crate::expr::{Call, Expr, LiteralKind};
use crate::lox_object::{FunctionObject, LoxObject};
use crate::number::{number_eq, number_le, number_lt, number_neg};
use crate::stmt::{Function, Stmt};
use crate::token::{Literal, Token, TokenType};
use vstd::prelude::*;

verus! {

/// A loaded program together with the resolver's side table: for each
/// expression, the number of scopes between its use and its binding, if the
/// resolver found the binding.
pub struct Unit {
    pub program: Program,
    pub locals: Vec<Option<usize>>,
}

/// A node to evaluate: an expression or a statement of the current unit.
#[derive(Clone, Copy, Debug, PartialEq, Eq, Structural)]
pub enum Evalable {
    Expr(usize),
    Stmt(usize),
}

/// The arithmetic that the machine asks its embedder to do.
#[derive(Clone, Copy, Debug, PartialEq, Eq, Structural)]
pub enum Operation {
    Add,
    Subtract,
    Multiply,
    Divide,
}

/// What the machine waits for: the value of the numeral in token `Numeral.0`
/// of the current unit, or the result of an operation on two numbers.
#[derive(Clone, Copy, Debug, PartialEq, Eq, Structural)]
pub enum Request {
    Numeral(usize),
    Arithmetic(Operation, u64, u64),
}

/// What the machine is doing.
#[derive(Clone, Copy, Debug, PartialEq, Eq, Structural)]
pub enum Control {
    /// Nothing is running.
    Idle,
    /// The node is about to be evaluated.
    Eval(Evalable),
    /// An expression has been evaluated; its value is on top of the operands.
    Value,
    /// A statement has completed normally.
    Normal,
    /// A `return` is on its way out; its value is on top of the operands.
    Returning,
    /// The machine waits for a number from its embedder.
    Await(Request),
}

/// Pending work: what to do when the node being evaluated is done.
#[derive(Clone, Copy, Debug, PartialEq, Eq, Structural)]
pub enum Frame {
    /// Apply the operator of the unary expression to its operand.
    Unary(usize),
    /// The left operand of the binary expression is done: evaluate the right.
    BinaryLeft(usize),
    /// Both operands of the binary expression are done: apply the operator.
    BinaryRight(usize),
    /// Store the value of the assignment.
    Assign(usize),
    /// The left operand of the logical expression is done.
    Logical(usize),
    /// The callee of the call is done: evaluate the arguments.
    Callee(usize),
    /// Argument `index` of the call is done.
    Argument { call: usize, index: usize },
    /// Drop the value of an expression statement.
    Discard,
    /// Print the value.
    Print,
    /// Define the variable of the declaration.
    Define(usize),
    /// The condition of the `if` is done: choose the branch.
    Branch(usize),
    /// The condition of the `while` is done.
    LoopCondition(usize),
    /// The body of the `while` is done: evaluate the condition again.
    LoopBody(usize),
    /// The value of a `return` statement is done.
    Return,
    /// Statements `next` and later of the list are still to run; at the end
    /// of a block, `restore` is the scope to go back to.
    Block { statements: List, next: usize, restore: Option<usize> },
    /// A function body is running; the caller's scope and unit.
    CallBody { environment: usize, unit: usize },
    /// Top-level statements `next` and later are still to run.
    Program { next: usize },
}

/// What a step asks of the embedder, or reports to it.
pub enum ActionView {
    /// Nothing; the run goes on.
    Continue,
    /// Write the text and a line break.
    Print(Seq<char>),
    /// Write the number and a line break.
    PrintNumber(u64),
    /// Supply the number that the numeral denotes.
    ParseNumber(Seq<char>),
    /// Supply the result of the operation.
    Arithmetic(Operation, u64, u64),
    /// The program has run to its end.
    Finished,
    /// A runtime error has ended the run.
    Failed(LoxErrorView),
}

/// The state of the machine.
#[verifier::ext_equal]
pub struct State {
    pub units: Seq<Unit>,
    pub strings: Seq<Seq<char>>,
    pub scopes: Seq<Scope>,
    pub values: Seq<LoxObject>,
    pub frames: Seq<Frame>,
    pub control: Control,
    pub environment: usize,
    pub unit: usize,
}

/// The outcome of a step.
#[verifier::ext_equal]
pub struct Outcome {
    pub state: State,
    pub action: ActionView,
}

pub open spec fn malformed_program() -> LoxErrorView {
    LoxErrorView { line: 0, message: "Malformed program."@, position: 0 }
}

impl State {
    /// The program of the current unit.
    pub open spec fn program(self) -> Option<Program> {
        if self.unit < self.units.len() {
            Some(self.units[self.unit as int].program)
        } else {
            None
        }
    }

    /// Token `index` of unit `unit`.
    pub open spec fn token(self, unit: usize, index: usize) -> Option<Token> {
        if unit < self.units.len() && index < self.units[unit as int].program.tokens@.len() {
            Some(self.units[unit as int].program.tokens@[index as int])
        } else {
            None
        }
    }

    /// The resolver's depth for expression `expr` of the current unit.
    pub open spec fn depth(self, expr: usize) -> Option<usize> {
        if self.unit < self.units.len() && expr < self.units[self.unit as int].locals@.len() {
            self.units[self.unit as int].locals@[expr as int]
        } else {
            None
        }
    }

    /// The scope in which the variable of expression `expr` is sought: with
    /// a resolved depth, that many scopes out from the current one; without,
    /// the global scope.
    pub open spec fn home(self, expr: usize) -> Option<usize> {
        match self.depth(expr) {
            Some(d) => ancestor(self.scopes, self.environment, d as nat),
            None => Some(0),
        }
    }

    /// The string with handle `handle`; the empty string for a handle that
    /// names none.
    pub open spec fn string(self, handle: usize) -> Seq<char> {
        if handle < self.strings.len() {
            self.strings[handle as int]
        } else {
            Seq::empty()
        }
    }

    /// The declaration that the closure `f` was made from.
    pub open spec fn declaration(self, f: FunctionObject) -> Option<Function> {
        if f.unit < self.units.len() {
            match self.units[f.unit as int].program.spec_stmt(f.declaration) {
                Some(Stmt::Function(d)) => Some(d),
                _ => None,
            }
        } else {
            None
        }
    }

    /// The name of the function `f`; empty if its declaration is missing.
    pub open spec fn function_name(self, f: FunctionObject) -> Seq<char> {
        match self.declaration(f) {
            Some(d) => match self.token(f.unit, d.name) {
                Some(t) => t.lexeme@,
                None => Seq::empty(),
            },
            None => Seq::empty(),
        }
    }

    /// An error with message `message` at token `token` of the current unit.
    pub open spec fn error_at(self, token: usize, message: Seq<char>) -> LoxErrorView {
        match self.token(self.unit, token) {
            Some(t) => LoxErrorView { line: t.line, message, position: t.position },
            None => LoxErrorView { line: 0, message, position: 0 },
        }
    }

    pub open spec fn with_control(self, control: Control) -> State {
        State { control, ..self }
    }

    pub open spec fn push_frame(self, frame: Frame) -> State {
        State { frames: self.frames.push(frame), ..self }
    }

    pub open spec fn pop_frame(self) -> State {
        State { frames: self.frames.drop_last(), ..self }
    }

    pub open spec fn push_value(self, value: LoxObject) -> State {
        State { values: self.values.push(value), ..self }
    }

    /// The state without the top operand, if there is one.
    pub open spec fn pop_value(self) -> State {
        if self.values.len() > 0 {
            State { values: self.values.drop_last(), ..self }
        } else {
            self
        }
    }

    /// The state after a failure: nothing runs, nothing is pending, and the
    /// current scope is the global one. Scopes and strings stay.
    pub open spec fn reset(self) -> State {
        State {
            values: Seq::empty(),
            frames: Seq::empty(),
            control: Control::Idle,
            environment: 0,
            ..self
        }
    }

    /// The run goes on in this state.
    pub open spec fn go(self) -> Outcome {
        Outcome { state: self, action: ActionView::Continue }
    }

    /// The run goes on with the evaluation of `node`.
    pub open spec fn eval(self, node: Evalable) -> Outcome {
        self.with_control(Control::Eval(node)).go()
    }

    /// An expression has produced `value`.
    pub open spec fn produce(self, value: LoxObject) -> Outcome {
        self.push_value(value).with_control(Control::Value).go()
    }

    /// The run ends with `error`.
    pub open spec fn fail(self, error: LoxErrorView) -> Outcome {
        Outcome { state: self.reset(), action: ActionView::Failed(error) }
    }

    pub open spec fn malformed(self) -> Outcome {
        self.fail(malformed_program())
    }
}

/// `a == b` in the language: values of different variants are unequal,
/// numbers compare as numbers, strings by their text, functions by their
/// declaration and arity.
pub open spec fn is_equal(s: State, a: LoxObject, b: LoxObject) -> bool {
    match (a, b) {
        (LoxObject::Nil, LoxObject::Nil) => true,
        (LoxObject::Bool(x), LoxObject::Bool(y)) => x == y,
        (LoxObject::Number(x), LoxObject::Number(y)) => number_eq(x, y),
        (LoxObject::String(x), LoxObject::String(y)) => s.string(x) == s.string(y),
        (LoxObject::Function(f), LoxObject::Function(g)) => f.arity == g.arity && f.unit == g.unit
            && f.declaration == g.declaration,
        _ => false,
    }
}

/// What printing `value` asks of the embedder.
pub open spec fn printed(s: State, value: LoxObject) -> ActionView {
    match value {
        LoxObject::Nil => ActionView::Print("nil"@),
        LoxObject::Bool(b) => ActionView::Print(
            if b {
                "true"@
            } else {
                "false"@
            },
        ),
        LoxObject::Number(n) => ActionView::PrintNumber(n),
        LoxObject::String(h) => ActionView::Print(s.string(h)),
        LoxObject::Function(f) => ActionView::Print("<fn "@ + s.function_name(f) + ">"@),
    }
}

/// The start of the evaluation of an expression.
pub open spec fn eval_literal(s: State, value: LiteralKind) -> Outcome {
    match value {
        LiteralKind::Nil => s.produce(LoxObject::Nil),
        LiteralKind::True => s.produce(LoxObject::Bool(true)),
        LiteralKind::False => s.produce(LoxObject::Bool(false)),
        LiteralKind::String(token) => match s.token(s.unit, token) {
            Some(t) => match t.literal {
                Some(Literal::String(text)) => State {
                    strings: s.strings.push(text@),
                    ..s
                }.produce(LoxObject::String(s.strings.len() as usize)),
                _ => s.malformed(),
            },
            None => s.malformed(),
        },
        LiteralKind::Num(token) => match s.token(s.unit, token) {
            Some(t) => Outcome {
                state: s.with_control(Control::Await(Request::Numeral(token))),
                action: ActionView::ParseNumber(t.lexeme@),
            },
            None => s.malformed(),
        },
    }
}

/// A variable is read in the scope that the resolver found for it, or in
/// the global scope.
pub open spec fn eval_variable(s: State, expr: usize, name: usize) -> Outcome {
    match s.token(s.unit, name) {
        Some(t) => match s.home(expr) {
            Some(scope) => match lookup(s.scopes, scope, t.lexeme@) {
                Some(value) => s.produce(value),
                None => s.fail(undefined_variable(t@)),
            },
            None => s.fail(undefined_variable(t@)),
        },
        None => s.malformed(),
    }
}

pub open spec fn eval_expr(s: State, id: usize) -> Outcome {
    match s.program() {
        Some(program) => match program.spec_expr(id) {
            Some(Expr::Literal(l)) => eval_literal(s, l.value),
            Some(Expr::Unary(u)) => s.push_frame(Frame::Unary(id)).eval(Evalable::Expr(u.expr)),
            Some(Expr::Binary(b)) => s.push_frame(Frame::BinaryLeft(id)).eval(
                Evalable::Expr(b.left),
            ),
            Some(Expr::Grouping(g)) => s.eval(Evalable::Expr(g.expr)),
            Some(Expr::NoOp(_)) => s.produce(LoxObject::Nil),
            Some(Expr::Variable(v)) => eval_variable(s, id, v.name),
            Some(Expr::Assign(a)) => s.push_frame(Frame::Assign(id)).eval(Evalable::Expr(a.value)),
            Some(Expr::Logical(l)) => s.push_frame(Frame::Logical(id)).eval(
                Evalable::Expr(l.left),
            ),
            Some(Expr::Call(c)) => s.push_frame(Frame::Callee(id)).eval(Evalable::Expr(c.callee)),
            None => s.malformed(),
        },
        None => s.malformed(),
    }
}

/// A function declaration binds the function's name, in the current scope,
/// to a closure that captures that scope.
pub open spec fn eval_function(s: State, id: usize, f: Function) -> Outcome {
    match s.token(s.unit, f.name) {
        Some(t) => State {
            scopes: defined(
                s.scopes,
                s.environment,
                t.lexeme@,
                LoxObject::Function(
                    FunctionObject {
                        arity: f.params.len,
                        unit: s.unit,
                        declaration: id,
                        environment: s.environment,
                    },
                ),
            ),
            ..s
        }.with_control(Control::Normal).go(),
        None => s.malformed(),
    }
}

/// A block runs its statements in a fresh scope inside the current one.
pub open spec fn eval_block(s: State, statements: List) -> Outcome {
    State {
        scopes: s.scopes.push(Scope { values: Map::empty(), enclosing: Some(s.environment) }),
        environment: s.scopes.len() as usize,
        ..s
    }.push_frame(
        Frame::Block { statements, next: 0, restore: Some(s.environment) },
    ).with_control(Control::Normal).go()
}

/// The start of the execution of a statement.
pub open spec fn eval_stmt(s: State, id: usize) -> Outcome {
    match s.program() {
        Some(program) => match program.spec_stmt(id) {
            Some(Stmt::Expression(e)) => s.push_frame(Frame::Discard).eval(Evalable::Expr(e.expr)),
            Some(Stmt::Print(p)) => s.push_frame(Frame::Print).eval(Evalable::Expr(p.expr)),
            Some(Stmt::Var(v)) => s.push_frame(Frame::Define(id)).eval(
                Evalable::Expr(v.initializer),
            ),
            Some(Stmt::Block(b)) => eval_block(s, b.statements),
            Some(Stmt::If(i)) => s.push_frame(Frame::Branch(id)).eval(Evalable::Expr(i.condition)),
            Some(Stmt::While(w)) => s.push_frame(Frame::LoopCondition(id)).eval(
                Evalable::Expr(w.condition),
            ),
            Some(Stmt::Function(f)) => eval_function(s, id, f),
            Some(Stmt::Return(r)) => match r.value {
                Some(e) => s.push_frame(Frame::Return).eval(Evalable::Expr(e)),
                None => s.push_value(LoxObject::Nil).with_control(Control::Returning).go(),
            },
            None => s.malformed(),
        },
        None => s.malformed(),
    }
}

/// `-` negates a number; `!` negates the truthiness of any value.
pub open spec fn apply_unary(s: State, operator: usize, value: LoxObject) -> Outcome {
    match s.token(s.unit, operator) {
        Some(t) => match t.token_type {
            TokenType::Minus => match value {
                LoxObject::Number(n) => s.produce(LoxObject::Number(number_neg(n))),
                _ => s.fail(s.error_at(operator, "Operand must be number."@)),
            },
            TokenType::Bang => s.produce(LoxObject::Bool(!value.truthy())),
            _ => s.malformed(),
        },
        None => s.malformed(),
    }
}

/// The machine asks the embedder for `operation` on two numbers.
pub open spec fn ask(s: State, operation: Operation, a: u64, b: u64) -> Outcome {
    Outcome {
        state: s.with_control(Control::Await(Request::Arithmetic(operation, a, b))),
        action: ActionView::Arithmetic(operation, a, b),
    }
}

/// Arithmetic on two numbers; any other operands are an error.
pub open spec fn apply_arithmetic(
    s: State,
    operator: usize,
    operation: Operation,
    left: LoxObject,
    right: LoxObject,
) -> Outcome {
    match (left, right) {
        (LoxObject::Number(a), LoxObject::Number(b)) => ask(s, operation, a, b),
        _ => s.fail(s.error_at(operator, "Operands must be numbers."@)),
    }
}

/// `+` adds two numbers and joins two strings.
pub open spec fn apply_plus(s: State, operator: usize, left: LoxObject, right: LoxObject) -> Outcome {
    match (left, right) {
        (LoxObject::Number(a), LoxObject::Number(b)) => ask(s, Operation::Add, a, b),
        (LoxObject::String(a), LoxObject::String(b)) => State {
            strings: s.strings.push(s.string(a) + s.string(b)),
            ..s
        }.produce(LoxObject::String(s.strings.len() as usize)),
        _ => s.fail(s.error_at(operator, "Operands must both be numbers or both strings."@)),
    }
}

/// The order of two numbers under the comparison operator `kind`.
pub open spec fn compare(kind: TokenType, a: u64, b: u64) -> bool {
    match kind {
        TokenType::Greater => number_lt(b, a),
        TokenType::GreaterEqual => number_le(b, a),
        TokenType::Less => number_lt(a, b),
        _ => number_le(a, b),
    }
}

/// A comparison of two numbers; any other operands are an error.
pub open spec fn apply_comparison(
    s: State,
    operator: usize,
    kind: TokenType,
    left: LoxObject,
    right: LoxObject,
) -> Outcome {
    match (left, right) {
        (LoxObject::Number(a), LoxObject::Number(b)) => s.produce(
            LoxObject::Bool(compare(kind, a, b)),
        ),
        _ => s.fail(s.error_at(operator, "Operands must be numbers."@)),
    }
}

/// A binary operator applied to its two operands.
pub open spec fn apply_binary(s: State, operator: usize, left: LoxObject, right: LoxObject) -> Outcome {
    match s.token(s.unit, operator) {
        Some(t) => match t.token_type {
            TokenType::Minus => apply_arithmetic(s, operator, Operation::Subtract, left, right),
            TokenType::Slash => apply_arithmetic(s, operator, Operation::Divide, left, right),
            TokenType::Star => apply_arithmetic(s, operator, Operation::Multiply, left, right),
            TokenType::Plus => apply_plus(s, operator, left, right),
            TokenType::Greater | TokenType::GreaterEqual | TokenType::Less | TokenType::LessEqual =>
                apply_comparison(s, operator, t.token_type, left, right),
            TokenType::EqualEqual => s.produce(LoxObject::Bool(is_equal(s, left, right))),
            TokenType::BangEqual => s.produce(LoxObject::Bool(!is_equal(s, left, right))),
            _ => s.malformed(),
        },
        None => s.malformed(),
    }
}

/// Both operands of the binary expression are on the operand stack.
pub open spec fn finish_binary(s: State, operator: usize) -> Outcome {
    if s.values.len() < 2 {
        s.malformed()
    } else {
        apply_binary(
            s.pop_value().pop_value(),
            operator,
            s.values[s.values.len() - 2],
            s.values[s.values.len() - 1],
        )
    }
}

/// An assignment stores its value where the variable lives and yields it.
pub open spec fn finish_assign(s: State, expr: usize, name: usize, value: LoxObject) -> Outcome {
    match s.token(s.unit, name) {
        Some(t) => match s.home(expr) {
            Some(scope) => match assigned(s.scopes, scope, t.lexeme@, value) {
                Some(scopes) => State { scopes, ..s }.with_control(Control::Value).go(),
                None => s.fail(undefined_variable(t@)),
            },
            None => s.fail(undefined_variable(t@)),
        },
        None => s.malformed(),
    }
}

/// Whether the left operand `left` of a logical operator of kind `kind`
/// decides the result, so that the right operand is not evaluated.
pub open spec fn short_circuits(kind: TokenType, left: LoxObject) -> bool {
    if kind == TokenType::Or {
        left.truthy()
    } else {
        !left.truthy()
    }
}

/// The left operand of a logical expression is on top of the operands: it
/// is the result, or it is dropped and the right operand is evaluated.
pub open spec fn finish_logical(s: State, operator: usize, right: usize, left: LoxObject) -> Outcome {
    match s.token(s.unit, operator) {
        Some(t) => if short_circuits(t.token_type, left) {
            s.with_control(Control::Value).go()
        } else {
            s.pop_value().eval(Evalable::Expr(right))
        },
        None => s.malformed(),
    }
}

/// The scope of a call: each parameter from `index` on bound to its
/// argument, on top of `bound`.
pub open spec fn bind_parameters(
    s: State,
    unit: usize,
    params: List,
    arguments: Seq<LoxObject>,
    index: nat,
    bound: Map<Seq<char>, LoxObject>,
) -> Option<Map<Seq<char>, LoxObject>>
    decreases arguments.len() - index,
{
    if index >= arguments.len() {
        Some(bound)
    } else if unit >= s.units.len() || index > usize::MAX {
        None
    } else {
        match s.units[unit as int].program.spec_item(params, index as usize) {
            Some(name) => match s.token(unit, name) {
                Some(t) => bind_parameters(
                    s,
                    unit,
                    params,
                    arguments,
                    index + 1,
                    bound.insert(t.lexeme@, arguments[index as int]),
                ),
                None => None,
            },
            None => None,
        }
    }
}

/// The call: the callee and the arguments are on the operand stack. The body
/// runs in a fresh scope inside the scope that the closure captured.
pub open spec fn invoke(s: State, c: Call) -> Outcome {
    let count = c.arguments.len;
    if s.values.len() < count + 1 {
        s.malformed()
    } else {
        let base = s.values.len() - count - 1;
        match s.values[base] {
            LoxObject::Function(f) => if f.arity != count {
                s.fail(s.error_at(c.paren, "Parameters and arguments mismatch in number."@))
            } else {
                match s.declaration(f) {
                    Some(d) => match bind_parameters(
                        s,
                        f.unit,
                        d.params,
                        s.values.subrange(base + 1, s.values.len() as int),
                        0,
                        Map::empty(),
                    ) {
                        Some(bound) => State {
                            scopes: s.scopes.push(
                                Scope { values: bound, enclosing: Some(f.environment) },
                            ),
                            values: s.values.take(base),
                            frames: s.frames.push(
                                Frame::CallBody { environment: s.environment, unit: s.unit },
                            ).push(Frame::Block { statements: d.body, next: 0, restore: None }),
                            control: Control::Normal,
                            environment: s.scopes.len() as usize,
                            unit: f.unit,
                            ..s
                        }.go(),
                        None => s.malformed(),
                    },
                    None => s.malformed(),
                }
            },
            _ => s.fail(s.error_at(c.paren, "Can only call functions and classes"@)),
        }
    }
}

/// Argument `index` of the call is to be evaluated next, or, if there is no
/// such argument, the call is made.
pub open spec fn next_argument(s: State, call: usize, c: Call, index: usize) -> Outcome {
    if index < c.arguments.len {
        match s.program() {
            Some(program) => match program.spec_item(c.arguments, index) {
                Some(argument) => s.push_frame(Frame::Argument { call, index }).eval(
                    Evalable::Expr(argument),
                ),
                None => s.malformed(),
            },
            None => s.malformed(),
        }
    } else {
        invoke(s, c)
    }
}

/// The expression of the current unit with index `id`.
pub open spec fn expr_at(s: State, id: usize) -> Option<Expr> {
    match s.program() {
        Some(program) => program.spec_expr(id),
        None => None,
    }
}

/// The statement of the current unit with index `id`.
pub open spec fn stmt_at(s: State, id: usize) -> Option<Stmt> {
    match s.program() {
        Some(program) => program.spec_stmt(id),
        None => None,
    }
}

/// An expression has produced `value`, which is on top of the operands, and
/// `frame` has been taken off the pending work.
pub open spec fn resume_value(s: State, frame: Frame, value: LoxObject) -> Outcome {
    match frame {
        Frame::Unary(id) => match expr_at(s, id) {
            Some(Expr::Unary(u)) => apply_unary(s.pop_value(), u.operator, value),
            _ => s.malformed(),
        },
        Frame::BinaryLeft(id) => match expr_at(s, id) {
            Some(Expr::Binary(b)) => s.push_frame(Frame::BinaryRight(id)).eval(
                Evalable::Expr(b.right),
            ),
            _ => s.malformed(),
        },
        Frame::BinaryRight(id) => match expr_at(s, id) {
            Some(Expr::Binary(b)) => finish_binary(s, b.operator),
            _ => s.malformed(),
        },
        Frame::Assign(id) => match expr_at(s, id) {
            Some(Expr::Assign(a)) => finish_assign(s, id, a.name, value),
            _ => s.malformed(),
        },
        Frame::Logical(id) => match expr_at(s, id) {
            Some(Expr::Logical(l)) => finish_logical(s, l.operator, l.right, value),
            _ => s.malformed(),
        },
        Frame::Callee(id) => match expr_at(s, id) {
            Some(Expr::Call(c)) => next_argument(s, id, c, 0),
            _ => s.malformed(),
        },
        Frame::Argument { call, index } => match expr_at(s, call) {
            Some(Expr::Call(c)) => if index < usize::MAX {
                next_argument(s, call, c, (index + 1) as usize)
            } else {
                s.malformed()
            },
            _ => s.malformed(),
        },
        Frame::Discard => s.pop_value().with_control(Control::Normal).go(),
        Frame::Print => Outcome {
            state: s.pop_value().with_control(Control::Normal),
            action: printed(s, value),
        },
        Frame::Define(id) => match stmt_at(s, id) {
            Some(Stmt::Var(v)) => match s.token(s.unit, v.name) {
                Some(t) => State {
                    scopes: defined(s.scopes, s.environment, t.lexeme@, value),
                    ..s
                }.pop_value().with_control(Control::Normal).go(),
                None => s.malformed(),
            },
            _ => s.malformed(),
        },
        Frame::Branch(id) => match stmt_at(s, id) {
            Some(Stmt::If(i)) => if value.truthy() {
                s.pop_value().eval(Evalable::Stmt(i.then_branch))
            } else {
                match i.else_branch {
                    Some(e) => s.pop_value().eval(Evalable::Stmt(e)),
                    None => s.pop_value().with_control(Control::Normal).go(),
                }
            },
            _ => s.malformed(),
        },
        Frame::LoopCondition(id) => match stmt_at(s, id) {
            Some(Stmt::While(w)) => if value.truthy() {
                s.pop_value().push_frame(Frame::LoopBody(id)).eval(Evalable::Stmt(w.body))
            } else {
                s.pop_value().with_control(Control::Normal).go()
            },
            _ => s.malformed(),
        },
        Frame::Return => s.with_control(Control::Returning).go(),
        _ => s.malformed(),
    }
}

/// A statement has completed normally and `frame` has been taken off the
/// pending work.
pub open spec fn resume_normal(s: State, frame: Frame) -> Outcome {
    match frame {
        Frame::Block { statements, next, restore } => {
            let item = match s.program() {
                Some(program) => program.spec_item(statements, next),
                None => None,
            };
            match item {
                Some(statement) => if next < usize::MAX {
                    s.push_frame(
                        Frame::Block { statements, next: (next + 1) as usize, restore },
                    ).eval(Evalable::Stmt(statement))
                } else {
                    s.malformed()
                },
                None => match restore {
                    Some(scope) => State { environment: scope, ..s }.go(),
                    None => s.go(),
                },
            }
        },
        Frame::LoopBody(id) => match stmt_at(s, id) {
            Some(Stmt::While(w)) => s.push_frame(Frame::LoopCondition(id)).eval(
                Evalable::Expr(w.condition),
            ),
            _ => s.malformed(),
        },
        Frame::CallBody { environment, unit } => State { environment, unit, ..s }.produce(
            LoxObject::Nil,
        ),
        Frame::Program { next } => {
            let item = match s.program() {
                Some(program) => if next < program.statements@.len() {
                    Some(program.statements@[next as int])
                } else {
                    None
                },
                None => None,
            };
            match item {
                Some(statement) => if next < usize::MAX {
                    s.push_frame(Frame::Program { next: (next + 1) as usize }).eval(
                        Evalable::Stmt(statement),
                    )
                } else {
                    s.malformed()
                },
                None => s.go(),
            }
        },
        _ => s.malformed(),
    }
}

/// A `return` is on its way out and `frame` has been taken off the pending
/// work. The innermost call receives the value. A block on the way restores
/// its scope. At the top level, outside any function, the value is dropped
/// and the program goes on with its next statement.
pub open spec fn resume_returning(s: State, frame: Frame) -> Outcome {
    match frame {
        Frame::CallBody { environment, unit } => State { environment, unit, ..s }.with_control(
            Control::Value,
        ).go(),
        Frame::Block { statements, next, restore } => match restore {
            Some(scope) => State { environment: scope, ..s }.go(),
            None => s.go(),
        },
        Frame::Program { next } => s.push_frame(frame).pop_value().with_control(
            Control::Normal,
        ).go(),
        _ => s.go(),
    }
}

/// The request that the machine is waiting on, asked again.
pub open spec fn repeat(s: State, request: Request) -> Outcome {
    match request {
        Request::Numeral(token) => match s.token(s.unit, token) {
            Some(t) => Outcome { state: s, action: ActionView::ParseNumber(t.lexeme@) },
            None => s.malformed(),
        },
        Request::Arithmetic(operation, a, b) => Outcome {
            state: s,
            action: ActionView::Arithmetic(operation, a, b),
        },
    }
}

/// One step of the machine.
pub open spec fn step(s: State) -> Outcome {
    match s.control {
        Control::Idle => Outcome { state: s, action: ActionView::Finished },
        Control::Await(request) => repeat(s, request),
        Control::Eval(Evalable::Expr(id)) => eval_expr(s, id),
        Control::Eval(Evalable::Stmt(id)) => eval_stmt(s, id),
        Control::Value => if s.frames.len() == 0 || s.values.len() == 0 {
            s.malformed()
        } else {
            resume_value(s.pop_frame(), s.frames.last(), s.values.last())
        },
        Control::Normal => if s.frames.len() == 0 {
            Outcome { state: s.with_control(Control::Idle), action: ActionView::Finished }
        } else {
            resume_normal(s.pop_frame(), s.frames.last())
        },
        Control::Returning => if s.frames.len() == 0 || s.values.len() == 0 {
            s.malformed()
        } else {
            resume_returning(s.pop_frame(), s.frames.last())
        },
    }
}

/// The answer to a request: the number is what the awaited expression
/// produces. Without a request, the state is as it was.
pub open spec fn supply(s: State, bits: u64) -> State {
    match s.control {
        Control::Await(_) => s.push_value(LoxObject::Number(bits)).with_control(Control::Value),
        _ => s,
    }
}

/// The state in which `unit`, newly loaded, is about to run: whatever ran
/// before is abandoned, and the current scope is the global one.
pub open spec fn load(s: State, unit: Unit) -> State {
    State {
        units: s.units.push(unit),
        values: Seq::empty(),
        frames: seq![Frame::Program { next: 0 }],
        control: Control::Normal,
        environment: 0,
        unit: s.units.len() as usize,
        ..s
    }
}

/// Up to `budget` steps, stopping at the first that asks something of the
/// embedder or reports to it.
pub open spec fn run(s: State, budget: nat) -> Outcome
    decreases budget,
{
    if budget == 0 {
        s.go()
    } else {
        let next = step(s);
        if next.action is Continue {
            run(next.state, (budget - 1) as nat)
        } else {
            next
        }
    }
}


/// Short-circuit evaluation. When the left operand of `or` is truthy, or
/// that of `and` is falsey, the step leaves the left operand itself as the
/// value of the whole and drops the only pending reference to the right
/// operand, which is therefore never evaluated. Otherwise the step drops
/// the left operand and starts to evaluate the right one. For any logical
/// operator, one of the two happens.
pub proof fn lemma_short_circuit(s: State, id: usize, left: LoxObject)
    requires
        s.control == Control::Value,
        s.frames.len() > 0,
        s.frames.last() == Frame::Logical(id),
        s.values.len() > 0,
        s.values.last() == left,
        expr_at(s, id) is Some,
        expr_at(s, id)->Some_0 is Logical,
        s.token(s.unit, expr_at(s, id)->Some_0->Logical_0.operator) is Some,
    ensures
        ({
            let l = expr_at(s, id)->Some_0->Logical_0;
            let kind = s.token(s.unit, l.operator)->Some_0.token_type;
            let skipped = s.pop_frame().with_control(Control::Value).go();
            let taken = s.pop_frame().pop_value().eval(Evalable::Expr(l.right));
            &&& kind == TokenType::Or ==> (step(s) == taken <==> !left.truthy())
            &&& kind == TokenType::And ==> (step(s) == taken <==> left.truthy())
            &&& step(s) == skipped || step(s) == taken
            &&& skipped != taken
            &&& skipped.state.values.last() == left
        }),
{
}

/// Equality never fails: `==` and `!=` produce a boolean for any two values.
pub proof fn lemma_equality_is_total(s: State, operator: usize, a: LoxObject, b: LoxObject)
    requires
        s.token(s.unit, operator) is Some,
        ({
            let kind = s.token(s.unit, operator)->Some_0.token_type;
            kind == TokenType::EqualEqual || kind == TokenType::BangEqual
        }),
    ensures
        ({
            let kind = s.token(s.unit, operator)->Some_0.token_type;
            apply_binary(s, operator, a, b) == s.produce(
                LoxObject::Bool(
                    if kind == TokenType::EqualEqual {
                        is_equal(s, a, b)
                    } else {
                        !is_equal(s, a, b)
                    },
                ),
            )
        }),
{
}

/// Every value equals itself, but for a number that is not a number.
pub proof fn lemma_equality_is_reflexive(s: State, a: LoxObject)
    requires
        a matches LoxObject::Number(n) ==> !crate::number::is_nan(n),
    ensures
        is_equal(s, a, a),
{
}

/// Values of different variants are never equal.
pub proof fn lemma_variants_differ(s: State, a: LoxObject, b: LoxObject)
    requires
        (a is Nil) != (b is Nil) || (a is Bool) != (b is Bool) || (a is Number) != (b is Number) || (
        a is String) != (b is String) || (a is Function) != (b is Function),
    ensures
        !is_equal(s, a, b),
{
}

/// Whether a `return` on its way out passes `frame` by: every frame but the
/// boundary of a call and the list of top-level statements.
pub open spec fn passed_by(frame: Frame) -> bool {
    !(frame is CallBody) && !(frame is Program)
}

/// Return propagation. A `return` whose value is on top of the operands,
/// with `depth` frames of blocks and loops between it and the innermost
/// call, reaches that call in `depth + 1` steps: the call's frame and all
/// above it are gone, the value is still on top of the operands and is now
/// the value of the call expression, and the caller's scope and unit are
/// current again.
pub proof fn lemma_return_propagates(s: State, depth: nat)
    requires
        s.control == Control::Returning,
        s.values.len() > 0,
        depth < s.frames.len(),
        s.frames[s.frames.len() - 1 - depth] is CallBody,
        forall|i: int| s.frames.len() - 1 - depth < i < s.frames.len() ==> passed_by(s.frames[i]),
    ensures
        ({
            let call = s.frames[s.frames.len() - 1 - depth];
            run(s, depth + 1) == (State {
                frames: s.frames.take(s.frames.len() - 1 - depth),
                control: Control::Value,
                environment: call->CallBody_environment,
                unit: call->CallBody_unit,
                ..s
            }).go()
        }),
    decreases depth,
{
    let next = step(s);
    let top = s.frames.last();
    reveal_with_fuel(run, 2);
    if depth == 0 {
        assert(s.frames.drop_last() =~= s.frames.take(s.frames.len() - 1));
    } else {
        assert(passed_by(top));
        assert(next.action is Continue);
        assert(next.state.frames == s.frames.drop_last());
        assert forall|i: int|
            next.state.frames.len() - 1 - (depth - 1) < i
                < next.state.frames.len() implies passed_by(next.state.frames[i]) by {
            assert(next.state.frames[i] == s.frames[i]);
        }
        lemma_return_propagates(next.state, (depth - 1) as nat);
        assert(next.state.frames.take(next.state.frames.len() - 1 - (depth - 1)) =~= s.frames.take(
            s.frames.len() - 1 - depth,
        ));
    }
}

/// Closure capture. A call runs in a fresh scope directly inside the scope
/// that the closure captured, whatever that scope holds when the call is
/// made. So a name that no parameter shadows is read from, and assigned in,
/// the very scope in which the captured scope finds it at call time.
pub proof fn lemma_call_sees_captured_scope(s: State, c: Call, name: Seq<char>)
    requires
        invoke(s, c).action is Continue,
        invoke(s, c).state.control == Control::Normal,
        s.scopes.len() <= usize::MAX,
        s.values.len() >= c.arguments.len + 1,
        s.values[s.values.len() - c.arguments.len - 1] is Function,
        ({
            let f = s.values[s.values.len() - c.arguments.len - 1]->Function_0;
            f.environment < s.scopes.len()
        }),
        !invoke(s, c).state.scopes.last().values.contains_key(name),
    ensures
        ({
            let f = s.values[s.values.len() - c.arguments.len - 1]->Function_0;
            let after = invoke(s, c).state;
            &&& after.scopes.len() == s.scopes.len() + 1
            &&& after.environment == s.scopes.len()
            &&& after.scopes.last().enclosing == Some(f.environment)
            &&& forall|i: int| 0 <= i < s.scopes.len() ==> after.scopes[i] == s.scopes[i]
            &&& crate::environment::holder(after.scopes, after.environment, name)
                == crate::environment::holder(s.scopes, f.environment, name)
            &&& lookup(after.scopes, after.environment, name) == lookup(
                s.scopes,
                f.environment,
                name,
            )
        }),
{
    let f = s.values[s.values.len() - c.arguments.len - 1]->Function_0;
    let after = invoke(s, c).state;
    assert(f.arity == c.arguments.len);
    assert(s.declaration(f) is Some);
    let d = s.declaration(f)->Some_0;
    let bound = bind_parameters(
        s,
        f.unit,
        d.params,
        s.values.subrange(s.values.len() - c.arguments.len, s.values.len() as int),
        0,
        Map::empty(),
    );
    assert(bound is Some);
    assert(after.scopes == s.scopes.push(
        Scope { values: bound->Some_0, enclosing: Some(f.environment) },
    ));
    assert(after.environment == s.scopes.len());
    crate::environment::lemma_holder_ignores_later_scopes(
        s.scopes,
        after.scopes,
        f.environment,
        name,
    );
    crate::environment::lemma_holder_binds(s.scopes, f.environment, name);
}


/// A run may be split: running `first + second` steps is running `first`
/// steps and, unless they ended with a request or a report, `second` more.
pub proof fn lemma_run_resumes(s: State, first: nat, second: nat)
    ensures
        run(s, first + second) == if run(s, first).action is Continue {
            run(run(s, first).state, second)
        } else {
            run(s, first)
        },
    decreases first,
{
    if first > 0 {
        let next = step(s);
        if next.action is Continue {
            lemma_run_resumes(next.state, (first - 1) as nat, second);
            assert(run(s, first) == run(next.state, (first - 1) as nat));
            assert(run(s, first + second) == run(next.state, (first + second - 1) as nat));
        }
    } else {
        assert(run(s, 0) == s.go());
    }
}

} // verus!
