//! Statement nodes.

use crate::ast::List;
use crate::lox_object::LoxObject;
use vstd::prelude::*;

verus! {

#[derive(Clone, Copy, Debug, PartialEq, Eq, Structural)]
pub struct Expression {
    pub expr: usize,
}

#[derive(Clone, Copy, Debug, PartialEq, Eq, Structural)]
pub struct Print {
    pub expr: usize,
}

#[derive(Clone, Copy, Debug, PartialEq, Eq, Structural)]
pub struct Var {
    pub name: usize,
    pub initializer: usize,
}

/// A block; `statements` lists statements.
#[derive(Clone, Copy, Debug, PartialEq, Eq, Structural)]
pub struct Block {
    pub statements: List,
}

#[derive(Clone, Copy, Debug, PartialEq, Eq, Structural)]
pub struct If {
    pub condition: usize,
    pub then_branch: usize,
    pub else_branch: Option<usize>,
}

#[derive(Clone, Copy, Debug, PartialEq, Eq, Structural)]
pub struct While {
    pub condition: usize,
    pub body: usize,
}

/// A function declaration; `params` lists name tokens, `body` statements.
#[derive(Clone, Copy, Debug, PartialEq, Eq, Structural)]
pub struct Function {
    pub name: usize,
    pub params: List,
    pub body: List,
}

#[derive(Clone, Copy, Debug, PartialEq, Eq, Structural)]
pub struct Return {
    pub keyword: usize,
    pub value: Option<usize>,
}

#[derive(Clone, Copy, Debug, PartialEq, Eq, Structural)]
pub enum Stmt {
    Expression(Expression),
    Print(Print),
    Var(Var),
    Block(Block),
    If(If),
    While(While),
    Function(Function),
    Return(Return),
}

/// The variant of a statement; a block's kind carries its statements.
#[derive(Clone, Copy, Debug, PartialEq, Eq, Structural)]
pub enum Kind {
    Expression,
    Print,
    Var,
    Block(List),
    If,
    While,
    Function,
    Return,
}

impl Stmt {
    pub open spec fn spec_kind(self) -> Kind {
        match self {
            Stmt::Expression(_) => Kind::Expression,
            Stmt::Print(_) => Kind::Print,
            Stmt::Var(_) => Kind::Var,
            Stmt::Block(b) => Kind::Block(b.statements),
            Stmt::If(_) => Kind::If,
            Stmt::While(_) => Kind::While,
            Stmt::Function(_) => Kind::Function,
            Stmt::Return(_) => Kind::Return,
        }
    }

    #[verifier::when_used_as_spec(spec_kind)]
    pub fn kind(self) -> (k: Kind)
        ensures
            k == self.spec_kind(),
    {
        match self {
            Stmt::Expression(_) => Kind::Expression,
            Stmt::Print(_) => Kind::Print,
            Stmt::Var(_) => Kind::Var,
            Stmt::Block(b) => Kind::Block(b.statements),
            Stmt::If(_) => Kind::If,
            Stmt::While(_) => Kind::While,
            Stmt::Function(_) => Kind::Function,
            Stmt::Return(_) => Kind::Return,
        }
    }
}

/// Truthiness: `nil` and `false` are falsey, every other value is truthy.
pub fn is_truthy(object: LoxObject) -> (r: bool)
    ensures
        r == object.truthy(),
{
    match object {
        LoxObject::Nil => false,
        LoxObject::Bool(b) => b,
        _ => true,
    }
}

} // verus!
