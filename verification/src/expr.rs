//! Expression nodes.
//!
//! Nodes live in the arrays of a [`Program`](crate::ast::Program). A node
//! names its children by their index in those arrays and its tokens by their
//! index in the token array, so a node's index is its identity.

use crate::ast::List;
use vstd::prelude::*;

verus! {

/// What a literal expression denotes. `String` and `Num` name the token that
/// carries the text.
#[derive(Clone, Copy, Debug, PartialEq, Eq, Structural)]
pub enum LiteralKind {
    String(usize),
    Num(usize),
    True,
    False,
    Nil,
}

#[derive(Clone, Copy, Debug, PartialEq, Eq, Structural)]
pub struct Literal {
    pub value: LiteralKind,
}

#[derive(Clone, Copy, Debug, PartialEq, Eq, Structural)]
pub struct Unary {
    pub operator: usize,
    pub expr: usize,
}

#[derive(Clone, Copy, Debug, PartialEq, Eq, Structural)]
pub struct Binary {
    pub left: usize,
    pub operator: usize,
    pub right: usize,
}

#[derive(Clone, Copy, Debug, PartialEq, Eq, Structural)]
pub struct Grouping {
    pub expr: usize,
}

/// The expression that does nothing and yields `nil`.
#[derive(Clone, Copy, Debug, PartialEq, Eq, Structural)]
pub struct NoOp {}

#[derive(Clone, Copy, Debug, PartialEq, Eq, Structural)]
pub struct Variable {
    pub name: usize,
}

#[derive(Clone, Copy, Debug, PartialEq, Eq, Structural)]
pub struct Assign {
    pub name: usize,
    pub value: usize,
}

#[derive(Clone, Copy, Debug, PartialEq, Eq, Structural)]
pub struct Logical {
    pub left: usize,
    pub operator: usize,
    pub right: usize,
}

/// A call. `paren` is the closing parenthesis; `arguments` lists expressions.
#[derive(Clone, Copy, Debug, PartialEq, Eq, Structural)]
pub struct Call {
    pub callee: usize,
    pub paren: usize,
    pub arguments: List,
}

#[derive(Clone, Copy, Debug, PartialEq, Eq, Structural)]
pub enum Expr {
    Literal(Literal),
    Unary(Unary),
    Binary(Binary),
    Grouping(Grouping),
    NoOp(NoOp),
    Variable(Variable),
    Assign(Assign),
    Logical(Logical),
    Call(Call),
}

/// The variant of an expression; a variable's kind carries its name token.
#[derive(Clone, Copy, Debug, PartialEq, Eq, Structural)]
pub enum Kind {
    Literal,
    Unary,
    Binary,
    Grouping,
    NoOp,
    Variable(usize),
    Assign,
    Logical,
    Call,
}

impl Expr {
    pub open spec fn spec_kind(self) -> Kind {
        match self {
            Expr::Literal(_) => Kind::Literal,
            Expr::Unary(_) => Kind::Unary,
            Expr::Binary(_) => Kind::Binary,
            Expr::Grouping(_) => Kind::Grouping,
            Expr::NoOp(_) => Kind::NoOp,
            Expr::Variable(v) => Kind::Variable(v.name),
            Expr::Assign(_) => Kind::Assign,
            Expr::Logical(_) => Kind::Logical,
            Expr::Call(_) => Kind::Call,
        }
    }

    #[verifier::when_used_as_spec(spec_kind)]
    pub fn kind(self) -> (k: Kind)
        ensures
            k == self.spec_kind(),
    {
        match self {
            Expr::Literal(_) => Kind::Literal,
            Expr::Unary(_) => Kind::Unary,
            Expr::Binary(_) => Kind::Binary,
            Expr::Grouping(_) => Kind::Grouping,
            Expr::NoOp(_) => Kind::NoOp,
            Expr::Variable(v) => Kind::Variable(v.name),
            Expr::Assign(_) => Kind::Assign,
            Expr::Logical(_) => Kind::Logical,
            Expr::Call(_) => Kind::Call,
        }
    }
}

} // verus!
