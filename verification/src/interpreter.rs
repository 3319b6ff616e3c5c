//! The evaluator.
//!
//! [`Interpreter`] holds the state of the abstract machine of
//! [`crate::machine`], and every method here is proved to make exactly the
//! transition that the machine's semantics prescribes.
//!
//! A run is driven from outside. [`Interpreter::interpret`] loads a program;
//! [`Interpreter::run`] then runs it until the machine needs its embedder: to
//! print, to read a numeral, or to do arithmetic on two numbers. For the last
//! two the embedder answers with [`Interpreter::supply`] and calls
//! [`Interpreter::run`] again.

use crate::agreement::{
    accepted, agrees, lemma_fresh_agrees, lemma_load_resolved_agrees, lemma_step_agrees,
    lemma_supply_agrees,
};
use crate::ast::{List, Program};
use crate::environment::{defined, scope_views, Environment, Scope};
use crate::error::LoxError;
use crate::expr::{Call, Expr, LiteralKind};
use crate::lox_object::{FunctionObject, LoxObject};
use crate::machine;
use crate::machine::{
    ActionView, Control, Evalable, Frame, Operation, Outcome, Request, State, Unit,
};
use crate::number;
use crate::stmt::{is_truthy, Function, Stmt};
use crate::token::{Literal, Token, TokenType};
use vstd::prelude::*;

verus! {

/// What a step asks of the embedder, or reports to it.
#[derive(Debug, PartialEq)]
pub enum Action {
    /// Nothing; the run goes on.
    Continue,
    /// Write the text and a line break.
    Print(String),
    /// Write the number and a line break.
    PrintNumber(u64),
    /// Supply the number that the numeral denotes.
    ParseNumber(String),
    /// Supply the result of the operation.
    Arithmetic(Operation, u64, u64),
    /// The program has run to its end.
    Finished,
    /// A runtime error has ended the run.
    Failed(LoxError),
}

impl View for Action {
    type V = ActionView;

    open spec fn view(&self) -> ActionView {
        match *self {
            Action::Continue => ActionView::Continue,
            Action::Print(text) => ActionView::Print(text@),
            Action::PrintNumber(bits) => ActionView::PrintNumber(bits),
            Action::ParseNumber(text) => ActionView::ParseNumber(text@),
            Action::Arithmetic(operation, a, b) => ActionView::Arithmetic(operation, a, b),
            Action::Finished => ActionView::Finished,
            Action::Failed(error) => ActionView::Failed(error@),
        }
    }
}

pub open spec fn string_views(strings: Seq<String>) -> Seq<Seq<char>> {
    strings.map_values(|s: String| s@)
}

/// The interpreter: the loaded programs, the string heap, the scopes (the
/// first of which is the global one), the operands, the pending work, and
/// what is being done.
pub struct Interpreter {
    pub units: Vec<Unit>,
    pub strings: Vec<String>,
    pub environments: Vec<Environment>,
    pub values: Vec<LoxObject>,
    pub frames: Vec<Frame>,
    pub control: Control,
    pub environment: usize,
    pub unit: usize,
}

impl View for Interpreter {
    type V = State;

    open spec fn view(&self) -> State {
        State {
            units: self.units@,
            strings: string_views(self.strings@),
            scopes: scope_views(self.environments@),
            values: self.values@,
            frames: self.frames@,
            control: self.control,
            environment: self.environment,
            unit: self.unit,
        }
    }
}

impl Interpreter {
    /// The outcome of a step that left the interpreter as it is and
    /// returned `action`.
    pub open spec fn after(&self, action: Action) -> Outcome {
        Outcome { state: self@, action: action@ }
    }

    /// An interpreter with an empty global scope and no program.
    pub fn new() -> (i: Interpreter)
        ensures
            i@ == (State {
                units: Seq::empty(),
                strings: Seq::empty(),
                scopes: seq![Scope { values: Map::empty(), enclosing: None }],
                values: Seq::empty(),
                frames: Seq::empty(),
                control: Control::Idle,
                environment: 0,
                unit: 0,
            }),
            agrees(i@),
    {
        let mut environments: Vec<Environment> = Vec::new();
        environments.push(Environment::new());
        let i = Interpreter {
            units: Vec::new(),
            strings: Vec::new(),
            environments,
            values: Vec::new(),
            frames: Vec::new(),
            control: Control::Idle,
            environment: 0,
            unit: 0,
        };
        assert(i@.scopes =~= seq![Scope { values: Map::empty(), enclosing: None }]);
        assert(i@.strings =~= Seq::empty());
        proof {
            lemma_fresh_agrees(i@);
        }
        i
    }

    /// Loads `program`, with the resolver's side table `locals`, and makes it
    /// the program to run. The global scope and what it binds stay.
    ///
    /// If the front end accepted the program, the interpreter goes on to
    /// agree with static scoping.
    pub fn interpret(&mut self, program: Program, locals: Vec<Option<usize>>)
        ensures
            final(self)@ == machine::load(old(self)@, Unit { program, locals }),
            agrees(old(self)@) && accepted(program@, locals@) ==> agrees(final(self)@),
    {
        let ghost loaded = Unit { program, locals };
        let unit = self.units.len();
        self.units.push(Unit { program, locals });
        self.values.clear();
        self.frames.clear();
        self.frames.push(Frame::Program { next: 0 });
        self.control = Control::Normal;
        self.environment = 0;
        self.unit = unit;
        assert(self@.frames =~= seq![Frame::Program { next: 0 }]);
        proof {
            assert(self.units.len() <= usize::MAX);
            if agrees(old(self)@) && accepted(loaded.program@, loaded.locals@) {
                lemma_load_resolved_agrees(old(self)@, loaded);
            }
        }
    }

    /// Runs up to `budget` steps, and stops early at the first step that
    /// asks something of the embedder or reports to it.
    ///
    /// An interpreter that agrees with static scoping goes on to agree.
    pub fn run(&mut self, budget: usize) -> (a: Action)
        ensures
            final(self).after(a) == machine::run(old(self)@, budget as nat),
            agrees(old(self)@) ==> agrees(final(self)@),
    {
        let mut left = budget;
        while left > 0
            invariant
                machine::run(self@, left as nat) == machine::run(old(self)@, budget as nat),
                agrees(old(self)@) ==> agrees(self@),
            decreases left,
        {
            let action = self.step();
            match action {
                Action::Continue => {},
                _ => {
                    return action;
                },
            }
            left -= 1;
        }
        Action::Continue
    }

    /// The answer to a request for a number.
    pub fn supply(&mut self, bits: u64)
        ensures
            final(self)@ == machine::supply(old(self)@, bits),
            agrees(old(self)@) ==> agrees(final(self)@),
    {
        proof {
            if agrees(self@) {
                lemma_supply_agrees(self@, bits);
            }
        }
        match self.control {
            Control::Await(_) => {
                self.push_value(LoxObject::Number(bits));
                self.control = Control::Value;
            },
            _ => {},
        }
    }

    /// One step of the machine.
    ///
    /// An interpreter that agrees with static scoping goes on to agree: when
    /// it reads a resolved variable, the scope that the resolver's depth
    /// leads to binds the variable.
    pub fn step(&mut self) -> (a: Action)
        ensures
            final(self).after(a) == machine::step(old(self)@),
            agrees(old(self)@) ==> agrees(final(self)@),
    {
        let a = self.advance();
        proof {
            assert(self.environments.len() <= usize::MAX);
            if agrees(old(self)@) {
                lemma_step_agrees(old(self)@);
            }
        }
        a
    }

    /// One step of the machine.
    fn advance(&mut self) -> (a: Action)
        ensures
            final(self).after(a) == machine::step(old(self)@),
    {
        match self.control {
            Control::Idle => Action::Finished,
            Control::Await(request) => self.repeat(request),
            Control::Eval(node) => self.eval(node),
            Control::Value => {
                if self.frames.len() == 0 || self.values.len() == 0 {
                    self.malformed()
                } else {
                    let value = self.values[self.values.len() - 1];
                    match self.pop_frame() {
                        Some(frame) => self.resume_value(frame, value),
                        None => self.malformed(),
                    }
                }
            },
            Control::Normal => {
                match self.pop_frame() {
                    Some(frame) => self.resume_normal(frame),
                    None => {
                        self.control = Control::Idle;
                        Action::Finished
                    },
                }
            },
            Control::Returning => {
                if self.frames.len() == 0 || self.values.len() == 0 {
                    self.malformed()
                } else {
                    match self.pop_frame() {
                        Some(frame) => self.resume_returning(frame),
                        None => self.malformed(),
                    }
                }
            },
        }
    }

    /// Starts the evaluation of a node.
    pub fn eval(&mut self, node: Evalable) -> (a: Action)
        ensures
            final(self).after(a) == (match node {
                Evalable::Expr(id) => machine::eval_expr(old(self)@, id),
                Evalable::Stmt(id) => machine::eval_stmt(old(self)@, id),
            }),
    {
        match node {
            Evalable::Expr(id) => self.eval_expr(id),
            Evalable::Stmt(id) => self.eval_stmt(id),
        }
    }

    fn repeat(&mut self, request: Request) -> (a: Action)
        ensures
            final(self).after(a) == machine::repeat(old(self)@, request),
    {
        match request {
            Request::Numeral(token) => {
                let numeral = match self.token(self.unit, token) {
                    Some(t) => Some(t.lexeme.clone()),
                    None => None,
                };
                match numeral {
                    Some(text) => Action::ParseNumber(text),
                    None => self.malformed(),
                }
            },
            Request::Arithmetic(operation, a, b) => Action::Arithmetic(operation, a, b),
        }
    }

    fn eval_expr(&mut self, id: usize) -> (a: Action)
        ensures
            final(self).after(a) == machine::eval_expr(old(self)@, id),
    {
        match self.expr_at(id) {
            Some(Expr::Literal(l)) => self.eval_literal(l.value),
            Some(Expr::Unary(u)) => {
                self.push_frame(Frame::Unary(id));
                self.go(Evalable::Expr(u.expr))
            },
            Some(Expr::Binary(b)) => {
                self.push_frame(Frame::BinaryLeft(id));
                self.go(Evalable::Expr(b.left))
            },
            Some(Expr::Grouping(g)) => self.go(Evalable::Expr(g.expr)),
            Some(Expr::NoOp(_)) => self.produce(LoxObject::Nil),
            Some(Expr::Variable(v)) => self.eval_variable(id, v.name),
            Some(Expr::Assign(a)) => {
                self.push_frame(Frame::Assign(id));
                self.go(Evalable::Expr(a.value))
            },
            Some(Expr::Logical(l)) => {
                self.push_frame(Frame::Logical(id));
                self.go(Evalable::Expr(l.left))
            },
            Some(Expr::Call(c)) => {
                self.push_frame(Frame::Callee(id));
                self.go(Evalable::Expr(c.callee))
            },
            None => self.malformed(),
        }
    }

    fn eval_literal(&mut self, value: LiteralKind) -> (a: Action)
        ensures
            final(self).after(a) == machine::eval_literal(old(self)@, value),
    {
        match value {
            LiteralKind::Nil => self.produce(LoxObject::Nil),
            LiteralKind::True => self.produce(LoxObject::Bool(true)),
            LiteralKind::False => self.produce(LoxObject::Bool(false)),
            LiteralKind::String(token) => {
                let text = match self.token(self.unit, token) {
                    Some(t) => match &t.literal {
                        Some(Literal::String(text)) => Some(text.clone()),
                        _ => None,
                    },
                    None => None,
                };
                match text {
                    Some(text) => {
                        let handle = self.add_string(text);
                        self.produce(LoxObject::String(handle))
                    },
                    None => self.malformed(),
                }
            },
            LiteralKind::Num(token) => {
                let numeral = match self.token(self.unit, token) {
                    Some(t) => Some(t.lexeme.clone()),
                    None => None,
                };
                match numeral {
                    Some(text) => {
                        self.control = Control::Await(Request::Numeral(token));
                        Action::ParseNumber(text)
                    },
                    None => self.malformed(),
                }
            },
        }
    }

    fn eval_variable(&mut self, expr: usize, name: usize) -> (a: Action)
        ensures
            final(self).after(a) == machine::eval_variable(old(self)@, expr, name),
    {
        let found = match self.token(self.unit, name) {
            Some(t) => Some(
                match self.home(expr) {
                    Some(scope) => Environment::get(&self.environments, scope, t),
                    None => Err(Environment::undefined(t)),
                },
            ),
            None => None,
        };
        match found {
            Some(Ok(value)) => self.produce(value),
            Some(Err(error)) => self.fail(error),
            None => self.malformed(),
        }
    }

    fn eval_stmt(&mut self, id: usize) -> (a: Action)
        ensures
            final(self).after(a) == machine::eval_stmt(old(self)@, id),
    {
        match self.stmt_at(id) {
            Some(Stmt::Expression(e)) => {
                self.push_frame(Frame::Discard);
                self.go(Evalable::Expr(e.expr))
            },
            Some(Stmt::Print(p)) => {
                self.push_frame(Frame::Print);
                self.go(Evalable::Expr(p.expr))
            },
            Some(Stmt::Var(v)) => {
                self.push_frame(Frame::Define(id));
                self.go(Evalable::Expr(v.initializer))
            },
            Some(Stmt::Block(b)) => self.eval_block(b.statements),
            Some(Stmt::If(i)) => {
                self.push_frame(Frame::Branch(id));
                self.go(Evalable::Expr(i.condition))
            },
            Some(Stmt::While(w)) => {
                self.push_frame(Frame::LoopCondition(id));
                self.go(Evalable::Expr(w.condition))
            },
            Some(Stmt::Function(f)) => self.eval_function(id, f),
            Some(Stmt::Return(r)) => match r.value {
                Some(e) => {
                    self.push_frame(Frame::Return);
                    self.go(Evalable::Expr(e))
                },
                None => {
                    self.push_value(LoxObject::Nil);
                    self.control = Control::Returning;
                    Action::Continue
                },
            },
            None => self.malformed(),
        }
    }

    fn eval_block(&mut self, statements: List) -> (a: Action)
        ensures
            final(self).after(a) == machine::eval_block(old(self)@, statements),
    {
        let outer = self.environment;
        let inner = self.add_scope(Environment::new_with_enclosing(outer));
        self.environment = inner;
        self.push_frame(Frame::Block { statements, next: 0, restore: Some(outer) });
        self.control = Control::Normal;
        Action::Continue
    }

    fn eval_function(&mut self, id: usize, f: Function) -> (a: Action)
        ensures
            final(self).after(a) == machine::eval_function(old(self)@, id, f),
    {
        let name = match self.token(self.unit, f.name) {
            Some(t) => Some(t.lexeme.clone()),
            None => None,
        };
        match name {
            Some(name) => {
                let function = LoxObject::Function(
                    FunctionObject {
                        arity: f.params.len,
                        unit: self.unit,
                        declaration: id,
                        environment: self.environment,
                    },
                );
                self.define(name, function);
                self.control = Control::Normal;
                Action::Continue
            },
            None => self.malformed(),
        }
    }

    fn resume_value(&mut self, frame: Frame, value: LoxObject) -> (a: Action)
        ensures
            final(self).after(a) == machine::resume_value(old(self)@, frame, value),
    {
        match frame {
            Frame::Unary(id) => match self.expr_at(id) {
                Some(Expr::Unary(u)) => {
                    self.pop_value();
                    self.apply_unary(u.operator, value)
                },
                _ => self.malformed(),
            },
            Frame::BinaryLeft(id) => match self.expr_at(id) {
                Some(Expr::Binary(b)) => {
                    self.push_frame(Frame::BinaryRight(id));
                    self.go(Evalable::Expr(b.right))
                },
                _ => self.malformed(),
            },
            Frame::BinaryRight(id) => match self.expr_at(id) {
                Some(Expr::Binary(b)) => self.finish_binary(b.operator),
                _ => self.malformed(),
            },
            Frame::Assign(id) => match self.expr_at(id) {
                Some(Expr::Assign(a)) => self.finish_assign(id, a.name, value),
                _ => self.malformed(),
            },
            Frame::Logical(id) => match self.expr_at(id) {
                Some(Expr::Logical(l)) => self.finish_logical(l.operator, l.right, value),
                _ => self.malformed(),
            },
            Frame::Callee(id) => match self.expr_at(id) {
                Some(Expr::Call(c)) => self.next_argument(id, c, 0),
                _ => self.malformed(),
            },
            Frame::Argument { call, index } => match self.expr_at(call) {
                Some(Expr::Call(c)) => {
                    if index < usize::MAX {
                        self.next_argument(call, c, index + 1)
                    } else {
                        self.malformed()
                    }
                },
                _ => self.malformed(),
            },
            Frame::Discard => {
                self.pop_value();
                self.control = Control::Normal;
                Action::Continue
            },
            Frame::Print => {
                let action = self.printed(value);
                self.pop_value();
                self.control = Control::Normal;
                action
            },
            Frame::Define(id) => match self.stmt_at(id) {
                Some(Stmt::Var(v)) => {
                    let name = match self.token(self.unit, v.name) {
                        Some(t) => Some(t.lexeme.clone()),
                        None => None,
                    };
                    match name {
                        Some(name) => {
                            self.define(name, value);
                            self.pop_value();
                            self.control = Control::Normal;
                            Action::Continue
                        },
                        None => self.malformed(),
                    }
                },
                _ => self.malformed(),
            },
            Frame::Branch(id) => match self.stmt_at(id) {
                Some(Stmt::If(i)) => {
                    self.pop_value();
                    if is_truthy(value) {
                        self.go(Evalable::Stmt(i.then_branch))
                    } else {
                        match i.else_branch {
                            Some(e) => self.go(Evalable::Stmt(e)),
                            None => {
                                self.control = Control::Normal;
                                Action::Continue
                            },
                        }
                    }
                },
                _ => self.malformed(),
            },
            Frame::LoopCondition(id) => match self.stmt_at(id) {
                Some(Stmt::While(w)) => {
                    self.pop_value();
                    if is_truthy(value) {
                        self.push_frame(Frame::LoopBody(id));
                        self.go(Evalable::Stmt(w.body))
                    } else {
                        self.control = Control::Normal;
                        Action::Continue
                    }
                },
                _ => self.malformed(),
            },
            Frame::Return => {
                self.control = Control::Returning;
                Action::Continue
            },
            _ => self.malformed(),
        }
    }

    fn apply_unary(&mut self, operator: usize, value: LoxObject) -> (a: Action)
        ensures
            final(self).after(a) == machine::apply_unary(old(self)@, operator, value),
    {
        let kind = match self.token(self.unit, operator) {
            Some(t) => Some(t.token_type),
            None => None,
        };
        match kind {
            Some(TokenType::Minus) => match value {
                LoxObject::Number(n) => self.produce(LoxObject::Number(number::negate(n))),
                _ => {
                    let error = self.error_at(operator, "Operand must be number.");
                    self.fail(error)
                },
            },
            Some(TokenType::Bang) => self.produce(LoxObject::Bool(!is_truthy(value))),
            _ => self.malformed(),
        }
    }

    fn finish_binary(&mut self, operator: usize) -> (a: Action)
        ensures
            final(self).after(a) == machine::finish_binary(old(self)@, operator),
    {
        let len = self.values.len();
        if len < 2 {
            self.malformed()
        } else {
            let left = self.values[len - 2];
            let right = self.values[len - 1];
            self.pop_value();
            self.pop_value();
            self.apply_binary(operator, left, right)
        }
    }

    fn apply_binary(&mut self, operator: usize, left: LoxObject, right: LoxObject) -> (a: Action)
        ensures
            final(self).after(a) == machine::apply_binary(old(self)@, operator, left, right),
    {
        let kind = match self.token(self.unit, operator) {
            Some(t) => Some(t.token_type),
            None => None,
        };
        match kind {
            Some(TokenType::Minus) => self.apply_arithmetic(
                operator,
                Operation::Subtract,
                left,
                right,
            ),
            Some(TokenType::Slash) => self.apply_arithmetic(operator, Operation::Divide, left, right),
            Some(TokenType::Star) => self.apply_arithmetic(
                operator,
                Operation::Multiply,
                left,
                right,
            ),
            Some(TokenType::Plus) => self.apply_plus(operator, left, right),
            Some(TokenType::Greater) => self.apply_comparison(
                operator,
                TokenType::Greater,
                left,
                right,
            ),
            Some(TokenType::GreaterEqual) => self.apply_comparison(
                operator,
                TokenType::GreaterEqual,
                left,
                right,
            ),
            Some(TokenType::Less) => self.apply_comparison(operator, TokenType::Less, left, right),
            Some(TokenType::LessEqual) => self.apply_comparison(
                operator,
                TokenType::LessEqual,
                left,
                right,
            ),
            Some(TokenType::EqualEqual) => {
                let equal = self.is_equal(&left, &right);
                self.produce(LoxObject::Bool(equal))
            },
            Some(TokenType::BangEqual) => {
                let equal = self.is_equal(&left, &right);
                self.produce(LoxObject::Bool(!equal))
            },
            _ => self.malformed(),
        }
    }

    fn ask(&mut self, operation: Operation, a: u64, b: u64) -> (action: Action)
        ensures
            final(self).after(action) == machine::ask(old(self)@, operation, a, b),
    {
        self.control = Control::Await(Request::Arithmetic(operation, a, b));
        Action::Arithmetic(operation, a, b)
    }

    fn apply_arithmetic(
        &mut self,
        operator: usize,
        operation: Operation,
        left: LoxObject,
        right: LoxObject,
    ) -> (a: Action)
        ensures
            final(self).after(a) == machine::apply_arithmetic(
                old(self)@,
                operator,
                operation,
                left,
                right,
            ),
    {
        match (left, right) {
            (LoxObject::Number(a), LoxObject::Number(b)) => self.ask(operation, a, b),
            _ => {
                let error = self.error_at(operator, "Operands must be numbers.");
                self.fail(error)
            },
        }
    }

    fn apply_plus(&mut self, operator: usize, left: LoxObject, right: LoxObject) -> (a: Action)
        ensures
            final(self).after(a) == machine::apply_plus(old(self)@, operator, left, right),
    {
        match (left, right) {
            (LoxObject::Number(a), LoxObject::Number(b)) => self.ask(Operation::Add, a, b),
            (LoxObject::String(a), LoxObject::String(b)) => {
                let joined = self.string(a).concat(self.string(b).as_str());
                let handle = self.add_string(joined);
                self.produce(LoxObject::String(handle))
            },
            _ => {
                let error = self.error_at(
                    operator,
                    "Operands must both be numbers or both strings.",
                );
                self.fail(error)
            },
        }
    }

    fn apply_comparison(
        &mut self,
        operator: usize,
        kind: TokenType,
        left: LoxObject,
        right: LoxObject,
    ) -> (a: Action)
        ensures
            final(self).after(a) == machine::apply_comparison(
                old(self)@,
                operator,
                kind,
                left,
                right,
            ),
    {
        match (left, right) {
            (LoxObject::Number(a), LoxObject::Number(b)) => {
                let holds = match kind {
                    TokenType::Greater => number::less(b, a),
                    TokenType::GreaterEqual => number::less_equal(b, a),
                    TokenType::Less => number::less(a, b),
                    _ => number::less_equal(a, b),
                };
                self.produce(LoxObject::Bool(holds))
            },
            _ => {
                let error = self.error_at(operator, "Operands must be numbers.");
                self.fail(error)
            },
        }
    }

    /// `left == right` in the language.
    pub fn is_equal(&self, left: &LoxObject, right: &LoxObject) -> (r: bool)
        ensures
            r == machine::is_equal(self@, *left, *right),
    {
        match (*left, *right) {
            (LoxObject::Nil, LoxObject::Nil) => true,
            (LoxObject::Bool(x), LoxObject::Bool(y)) => x == y,
            (LoxObject::Number(x), LoxObject::Number(y)) => number::equal(x, y),
            (LoxObject::String(x), LoxObject::String(y)) => self.string(x) == self.string(y),
            (LoxObject::Function(f), LoxObject::Function(g)) => f.arity == g.arity && f.unit
                == g.unit && f.declaration == g.declaration,
            _ => false,
        }
    }

    fn finish_assign(&mut self, expr: usize, name: usize, value: LoxObject) -> (a: Action)
        ensures
            final(self).after(a) == machine::finish_assign(old(self)@, expr, name, value),
    {
        let home = self.home(expr);
        let stored = match self.token_copy(self.unit, name) {
            Some(t) => Some(
                match home {
                    Some(scope) => Environment::assign(&mut self.environments, scope, &t, value),
                    None => Err(Environment::undefined(&t)),
                },
            ),
            None => None,
        };
        match stored {
            Some(Ok(())) => {
                self.control = Control::Value;
                Action::Continue
            },
            Some(Err(error)) => self.fail(error),
            None => self.malformed(),
        }
    }

    fn finish_logical(&mut self, operator: usize, right: usize, left: LoxObject) -> (a: Action)
        ensures
            final(self).after(a) == machine::finish_logical(old(self)@, operator, right, left),
    {
        let kind = match self.token(self.unit, operator) {
            Some(t) => Some(t.token_type),
            None => None,
        };
        match kind {
            Some(kind) => {
                let decided = if kind == TokenType::Or {
                    is_truthy(left)
                } else {
                    !is_truthy(left)
                };
                if decided {
                    self.control = Control::Value;
                    Action::Continue
                } else {
                    self.pop_value();
                    self.go(Evalable::Expr(right))
                }
            },
            None => self.malformed(),
        }
    }

    fn next_argument(&mut self, call: usize, c: Call, index: usize) -> (a: Action)
        ensures
            final(self).after(a) == machine::next_argument(old(self)@, call, c, index),
    {
        if index < c.arguments.len {
            let argument = if self.unit < self.units.len() {
                self.units[self.unit].program.item(c.arguments, index)
            } else {
                None
            };
            match argument {
                Some(argument) => {
                    self.push_frame(Frame::Argument { call, index });
                    self.go(Evalable::Expr(argument))
                },
                None => self.malformed(),
            }
        } else {
            self.invoke(c)
        }
    }

    /// Makes the call `c`, whose callee and arguments are on the operand
    /// stack.
    fn invoke(&mut self, c: Call) -> (a: Action)
        ensures
            final(self).after(a) == machine::invoke(old(self)@, c),
    {
        let count = c.arguments.len;
        let len = self.values.len();
        if len == 0 || count > len - 1 {
            return self.malformed();
        }
        let base = len - count - 1;
        match self.values[base] {
            LoxObject::Function(f) => {
                if f.arity != count {
                    let error = self.error_at(
                        c.paren,
                        "Parameters and arguments mismatch in number.",
                    );
                    return self.fail(error);
                }
                let d = match self.declaration(f) {
                    Some(d) => d,
                    None => {
                        return self.malformed();
                    },
                };
                let ghost arguments = self.values@.subrange(base + 1, len as int);
                let ghost whole = machine::bind_parameters(
                    self@,
                    f.unit,
                    d.params,
                    arguments,
                    0,
                    Map::empty(),
                );
                let mut scope = Environment::new_with_enclosing(f.environment);
                let mut index: usize = 0;
                while index < count
                    invariant
                        self == old(self),
                        index <= count,
                        count == c.arguments.len,
                        arguments.len() == count,
                        self.values@[base as int] == LoxObject::Function(f),
                        f.arity == count,
                        self@.declaration(f) == Some(d),
                        whole == machine::bind_parameters(
                            self@,
                            f.unit,
                            d.params,
                            arguments,
                            0,
                            Map::empty(),
                        ),
                        base + 1 + count == len,
                        len == self.values@.len(),
                        arguments == self.values@.subrange(base + 1, len as int),
                        f.unit < self.units@.len(),
                        scope@.enclosing == Some(f.environment),
                        machine::bind_parameters(
                            self@,
                            f.unit,
                            d.params,
                            arguments,
                            index as nat,
                            scope@.values,
                        ) == whole,
                    decreases count - index,
                {
                    let name = match self.units[f.unit].program.item(d.params, index) {
                        Some(n) => match self.token(f.unit, n) {
                            Some(t) => Some(t.lexeme.clone()),
                            None => None,
                        },
                        None => None,
                    };
                    match name {
                        Some(name) => {
                            scope.define(name, self.values[base + 1 + index]);
                        },
                        None => {
                            return self.malformed();
                        },
                    }
                    index += 1;
                }
                let caller = Frame::CallBody { environment: self.environment, unit: self.unit };
                let inner = self.add_scope(scope);
                self.truncate_values(base);
                self.push_frame(caller);
                self.push_frame(Frame::Block { statements: d.body, next: 0, restore: None });
                self.control = Control::Normal;
                self.environment = inner;
                self.unit = f.unit;
                Action::Continue
            },
            _ => {
                let error = self.error_at(c.paren, "Can only call functions and classes");
                self.fail(error)
            },
        }
    }

    fn resume_normal(&mut self, frame: Frame) -> (a: Action)
        ensures
            final(self).after(a) == machine::resume_normal(old(self)@, frame),
    {
        match frame {
            Frame::Block { statements, next, restore } => {
                let item = if self.unit < self.units.len() {
                    self.units[self.unit].program.item(statements, next)
                } else {
                    None
                };
                match item {
                    Some(statement) => {
                        if next < usize::MAX {
                            self.push_frame(Frame::Block { statements, next: next + 1, restore });
                            self.go(Evalable::Stmt(statement))
                        } else {
                            self.malformed()
                        }
                    },
                    None => {
                        match restore {
                            Some(scope) => {
                                self.environment = scope;
                            },
                            None => {},
                        }
                        Action::Continue
                    },
                }
            },
            Frame::LoopBody(id) => match self.stmt_at(id) {
                Some(Stmt::While(w)) => {
                    self.push_frame(Frame::LoopCondition(id));
                    self.go(Evalable::Expr(w.condition))
                },
                _ => self.malformed(),
            },
            Frame::CallBody { environment, unit } => {
                self.environment = environment;
                self.unit = unit;
                self.produce(LoxObject::Nil)
            },
            Frame::Program { next } => {
                let item = if self.unit < self.units.len() && next
                    < self.units[self.unit].program.statements.len() {
                    Some(self.units[self.unit].program.statements[next])
                } else {
                    None
                };
                match item {
                    Some(statement) => {
                        if next < usize::MAX {
                            self.push_frame(Frame::Program { next: next + 1 });
                            self.go(Evalable::Stmt(statement))
                        } else {
                            self.malformed()
                        }
                    },
                    None => Action::Continue,
                }
            },
            _ => self.malformed(),
        }
    }

    fn resume_returning(&mut self, frame: Frame) -> (a: Action)
        ensures
            final(self).after(a) == machine::resume_returning(old(self)@, frame),
    {
        match frame {
            Frame::CallBody { environment, unit } => {
                self.environment = environment;
                self.unit = unit;
                self.control = Control::Value;
                Action::Continue
            },
            Frame::Block { statements, next, restore } => {
                match restore {
                    Some(scope) => {
                        self.environment = scope;
                    },
                    None => {},
                }
                Action::Continue
            },
            Frame::Program { next } => {
                self.push_frame(frame);
                self.pop_value();
                self.control = Control::Normal;
                Action::Continue
            },
            _ => Action::Continue,
        }
    }

    /// What printing `value` asks of the embedder: the text of the value, or,
    /// for a number, the number itself.
    pub fn printed(&self, value: LoxObject) -> (a: Action)
        ensures
            a@ == machine::printed(self@, value),
    {
        match value {
            LoxObject::Nil => Action::Print(String::from_str("nil")),
            LoxObject::Bool(b) => Action::Print(
                if b {
                    String::from_str("true")
                } else {
                    String::from_str("false")
                },
            ),
            LoxObject::Number(n) => Action::PrintNumber(n),
            LoxObject::String(h) => Action::Print(self.string(h)),
            LoxObject::Function(f) => Action::Print(
                String::from_str("<fn ").concat(self.function_name(f).as_str()).concat(">"),
            ),
        }
    }

    fn function_name(&self, f: FunctionObject) -> (r: String)
        ensures
            r@ == self@.function_name(f),
    {
        match self.declaration(f) {
            Some(d) => match self.token(f.unit, d.name) {
                Some(t) => t.lexeme.clone(),
                None => String::new(),
            },
            None => String::new(),
        }
    }

    fn declaration(&self, f: FunctionObject) -> (r: Option<Function>)
        ensures
            r == self@.declaration(f),
    {
        if f.unit < self.units.len() {
            match self.units[f.unit].program.stmt(f.declaration) {
                Some(Stmt::Function(d)) => Some(d),
                _ => None,
            }
        } else {
            None
        }
    }

    fn expr_at(&self, id: usize) -> (r: Option<Expr>)
        ensures
            r == machine::expr_at(self@, id),
    {
        if self.unit < self.units.len() {
            self.units[self.unit].program.expr(id)
        } else {
            None
        }
    }

    fn stmt_at(&self, id: usize) -> (r: Option<Stmt>)
        ensures
            r == machine::stmt_at(self@, id),
    {
        if self.unit < self.units.len() {
            self.units[self.unit].program.stmt(id)
        } else {
            None
        }
    }

    fn token(&self, unit: usize, index: usize) -> (r: Option<&Token>)
        ensures
            match r {
                Some(t) => self@.token(unit, index) == Some(*t),
                None => self@.token(unit, index) is None,
            },
    {
        if unit < self.units.len() && index < self.units[unit].program.tokens.len() {
            Some(&self.units[unit].program.tokens[index])
        } else {
            None
        }
    }

    fn token_copy(&self, unit: usize, index: usize) -> (r: Option<Token>)
        ensures
            r == self@.token(unit, index),
    {
        match self.token(unit, index) {
            Some(t) => Some(t.clone()),
            None => None,
        }
    }

    fn home(&self, expr: usize) -> (r: Option<usize>)
        ensures
            r == self@.home(expr),
    {
        let depth = if self.unit < self.units.len() && expr < self.units[self.unit].locals.len() {
            self.units[self.unit].locals[expr]
        } else {
            None
        };
        match depth {
            Some(d) => Environment::ancestor(&self.environments, self.environment, d),
            None => Some(0),
        }
    }

    fn string(&self, handle: usize) -> (r: String)
        ensures
            r@ == self@.string(handle),
    {
        if handle < self.strings.len() {
            self.strings[handle].clone()
        } else {
            String::new()
        }
    }

    fn error_at(&self, token: usize, message: &str) -> (e: LoxError)
        ensures
            e@ == self@.error_at(token, message@),
    {
        match self.token(self.unit, token) {
            Some(t) => LoxError::error(t.line, String::from_str(message), t.position),
            None => LoxError::error(0, String::from_str(message), 0),
        }
    }

    fn go(&mut self, node: Evalable) -> (a: Action)
        ensures
            final(self).after(a) == old(self)@.eval(node),
    {
        self.control = Control::Eval(node);
        Action::Continue
    }

    fn produce(&mut self, value: LoxObject) -> (a: Action)
        ensures
            final(self).after(a) == old(self)@.produce(value),
    {
        self.push_value(value);
        self.control = Control::Value;
        Action::Continue
    }

    fn fail(&mut self, error: LoxError) -> (a: Action)
        ensures
            final(self).after(a) == old(self)@.fail(error@),
    {
        self.values.clear();
        self.frames.clear();
        self.control = Control::Idle;
        self.environment = 0;
        Action::Failed(error)
    }

    fn malformed(&mut self) -> (a: Action)
        ensures
            final(self).after(a) == old(self)@.malformed(),
    {
        self.fail(LoxError::error(0, String::from_str("Malformed program."), 0))
    }

    fn push_frame(&mut self, frame: Frame)
        ensures
            final(self)@ == old(self)@.push_frame(frame),
    {
        self.frames.push(frame);
    }

    fn pop_frame(&mut self) -> (r: Option<Frame>)
        ensures
            match r {
                Some(frame) => old(self)@.frames.len() > 0 && frame == old(self)@.frames.last()
                    && final(self)@ == old(self)@.pop_frame(),
                None => old(self)@.frames.len() == 0 && final(self)@ == old(self)@,
            },
    {
        self.frames.pop()
    }

    fn push_value(&mut self, value: LoxObject)
        ensures
            final(self)@ == old(self)@.push_value(value),
    {
        self.values.push(value);
    }

    fn pop_value(&mut self)
        ensures
            final(self)@ == old(self)@.pop_value(),
    {
        self.values.pop();
    }

    fn truncate_values(&mut self, len: usize)
        requires
            len <= old(self).values@.len(),
        ensures
            final(self)@ == (State { values: old(self)@.values.take(len as int), ..old(self)@ }),
    {
        self.values.truncate(len);
        assert(self.values@ =~= old(self)@.values.take(len as int));
    }

    fn add_string(&mut self, text: String) -> (handle: usize)
        ensures
            final(self)@ == (State { strings: old(self)@.strings.push(text@), ..old(self)@ }),
            handle == old(self)@.strings.len(),
    {
        let handle = self.strings.len();
        self.strings.push(text);
        assert(self@.strings =~= old(self)@.strings.push(text@));
        handle
    }

    fn add_scope(&mut self, scope: Environment) -> (id: usize)
        ensures
            final(self)@ == (State { scopes: old(self)@.scopes.push(scope@), ..old(self)@ }),
            id == old(self)@.scopes.len(),
    {
        let id = self.environments.len();
        self.environments.push(scope);
        assert(self@.scopes =~= old(self)@.scopes.push(scope@));
        id
    }

    /// Binds `name` to `value` in the current scope.
    fn define(&mut self, name: String, value: LoxObject)
        ensures
            final(self)@ == (State {
                scopes: defined(
                    old(self)@.scopes,
                    old(self)@.environment,
                    name@,
                    value,
                ),
                ..old(self)@
            }),
    {
        if self.environment < self.environments.len() {
            self.environments[self.environment].define(name, value);
        }
        assert(self@.scopes =~= defined(
            old(self)@.scopes,
            old(self)@.environment,
            name@,
            value,
        ));
    }
}

} // verus!
