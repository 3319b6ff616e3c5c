//! Runtime values.

use vstd::prelude::*;

verus! {

/// A closure: a function declaration together with the environment in which
/// the declaration was executed.
///
/// `unit` names the loaded program that holds the declaration, `declaration`
/// the statement within it, and `environment` the captured scope.
#[derive(Clone, Copy, Debug, PartialEq, Eq, Structural)]
pub struct FunctionObject {
    pub arity: usize,
    pub unit: usize,
    pub declaration: usize,
    pub environment: usize,
}

/// A runtime value.
///
/// A number is held as the bit pattern of its IEEE-754 binary64
/// representation. A string is a handle into the interpreter's string heap.
#[derive(Clone, Copy, Debug, PartialEq, Eq, Structural)]
pub enum LoxObject {
    Nil,
    Bool(bool),
    Number(u64),
    String(usize),
    Function(FunctionObject),
}

impl LoxObject {
    /// Truthiness: `nil` and `false` are falsey, every other value is truthy.
    pub open spec fn truthy(self) -> bool {
        match self {
            LoxObject::Nil => false,
            LoxObject::Bool(b) => b,
            _ => true,
        }
    }
}

} // verus!
