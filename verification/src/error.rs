//! Diagnostics shared by every phase of the interpreter.

use vstd::prelude::*;

verus! {

/// A diagnostic: where in the source it arose and what went wrong.
#[derive(Debug, PartialEq)]
pub struct LoxError {
    pub line: usize,
    pub message: String,
    pub position: usize,
}

/// The mathematical content of a [`LoxError`].
pub struct LoxErrorView {
    pub line: usize,
    pub message: Seq<char>,
    pub position: usize,
}

impl View for LoxError {
    type V = LoxErrorView;

    open spec fn view(&self) -> LoxErrorView {
        LoxErrorView { line: self.line, message: self.message@, position: self.position }
    }
}

pub open spec fn error_views(errors: Seq<LoxError>) -> Seq<LoxErrorView> {
    errors.map_values(|e: LoxError| e@)
}

/// How a run of the front end and evaluator ended.
#[derive(Clone, Copy, Debug, PartialEq, Eq, Structural)]
pub enum RuntimeResult {
    Safe,
    LexicalError,
    ParserError,
    ResolverError,
    InterpreterError,
}

impl RuntimeResult {
    /// The exit status of a process whose run ended this way: 0 for
    /// success, 65 for an error found before execution, 70 for a runtime
    /// error.
    pub open spec fn spec_exit_code(self) -> u8 {
        match self {
            RuntimeResult::Safe => 0,
            RuntimeResult::LexicalError => 65,
            RuntimeResult::ParserError => 65,
            RuntimeResult::ResolverError => 65,
            RuntimeResult::InterpreterError => 70,
        }
    }

    #[verifier::when_used_as_spec(spec_exit_code)]
    pub fn exit_code(self) -> (code: u8)
        ensures
            code == self.spec_exit_code(),
    {
        match self {
            RuntimeResult::Safe => 0,
            RuntimeResult::LexicalError => 65,
            RuntimeResult::ParserError => 65,
            RuntimeResult::ResolverError => 65,
            RuntimeResult::InterpreterError => 70,
        }
    }
}

/// The decimal digit `d`.
pub open spec fn digit(d: nat) -> Seq<char> {
    if d == 0 {
        "0"@
    } else if d == 1 {
        "1"@
    } else if d == 2 {
        "2"@
    } else if d == 3 {
        "3"@
    } else if d == 4 {
        "4"@
    } else if d == 5 {
        "5"@
    } else if d == 6 {
        "6"@
    } else if d == 7 {
        "7"@
    } else if d == 8 {
        "8"@
    } else {
        "9"@
    }
}

/// The decimal numeral of `n`, without leading zeros.
pub open spec fn decimal(n: nat) -> Seq<char>
    decreases n,
{
    if n < 10 {
        digit(n)
    } else {
        decimal(n / 10) + digit(n % 10)
    }
}

/// The text of a diagnostic: `[line L, position P] Error: <message>`.
pub open spec fn report_text(e: LoxErrorView) -> Seq<char> {
    "[line "@ + decimal(e.line as nat) + ", position "@ + decimal(e.position as nat)
        + "] Error: "@ + e.message
}

fn digit_text(d: usize) -> (r: &'static str)
    requires
        d < 10,
    ensures
        r@ == digit(d as nat),
{
    if d == 0 {
        "0"
    } else if d == 1 {
        "1"
    } else if d == 2 {
        "2"
    } else if d == 3 {
        "3"
    } else if d == 4 {
        "4"
    } else if d == 5 {
        "5"
    } else if d == 6 {
        "6"
    } else if d == 7 {
        "7"
    } else if d == 8 {
        "8"
    } else {
        "9"
    }
}

/// The decimal numeral of `n`.
pub fn decimal_text(n: usize) -> (r: String)
    ensures
        r@ == decimal(n as nat),
    decreases n,
{
    if n < 10 {
        String::from_str(digit_text(n))
    } else {
        decimal_text(n / 10).concat(digit_text(n % 10))
    }
}

impl LoxError {
    /// Builds a diagnostic from its three parts.
    pub fn error(line: usize, message: String, position: usize) -> (e: LoxError)
        ensures
            e@ == (LoxErrorView { line, message: message@, position }),
    {
        LoxError { line, message, position }
    }

    /// The text of this diagnostic, as it is shown to the user.
    pub fn to_string(&self) -> (r: String)
        ensures
            r@ == report_text(self@),
    {
        String::from_str("[line ").concat(decimal_text(self.line).as_str()).concat(
            ", position ",
        ).concat(decimal_text(self.position).as_str()).concat("] Error: ").concat(
            self.message.as_str(),
        )
    }
}

} // verus!
