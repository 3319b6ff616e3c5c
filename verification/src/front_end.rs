//! The phases before execution, in order: scanning, parsing, resolution. A
//! phase that finds errors stops the front end there.

use crate::agreement::accepted;
use crate::ast::{Program, ProgramView};
use crate::error::{error_views, LoxError, LoxErrorView, RuntimeResult};
use crate::parser::{describe, fresh, program_spec, ParseState, Parser};
use crate::resolver::{resolve_program, Resolver};
use crate::scanner::{scan, Scanner};
use crate::token::token_views;
use vstd::prelude::*;

verus! {

/// A program that is ready to run: the syntax tree and the resolver's side
/// table.
pub struct Compiled {
    pub program: Program,
    pub locals: Vec<Option<usize>>,
}

/// The errors of the phase that stopped the front end.
pub struct Rejected {
    pub phase: RuntimeResult,
    pub errors: Vec<LoxError>,
}

/// What parsing the tokens of `src` leaves: the final state and the
/// top-level statements.
pub open spec fn parse(src: Seq<char>) -> (ParseState, Seq<usize>) {
    program_spec(scan(src).tokens, fresh(), Seq::empty())
}

/// The program that `src` denotes.
pub open spec fn program_of(src: Seq<char>) -> ProgramView {
    ProgramView {
        tokens: scan(src).tokens,
        exprs: parse(src).0.exprs,
        stmts: parse(src).0.stmts,
        lists: parse(src).0.lists,
        statements: parse(src).1,
    }
}

/// The phase that stops the front end on `src`, or `Safe` if none does.
pub open spec fn verdict(src: Seq<char>) -> RuntimeResult {
    if scan(src).errors.len() > 0 {
        RuntimeResult::LexicalError
    } else if parse(src).0.errors.len() > 0 {
        RuntimeResult::ParserError
    } else if resolve_program(program_of(src)).errors.len() > 0 {
        RuntimeResult::ResolverError
    } else {
        RuntimeResult::Safe
    }
}

/// The diagnostics of the phase that stops the front end on `src`.
pub open spec fn complaints(src: Seq<char>) -> Seq<LoxErrorView> {
    match verdict(src) {
        RuntimeResult::LexicalError => scan(src).errors,
        RuntimeResult::ParserError => parse(src).0.errors.map_values(
            |e| describe(scan(src).tokens, e),
        ),
        RuntimeResult::ResolverError => resolve_program(program_of(src)).errors,
        _ => Seq::empty(),
    }
}

/// Scans `source`.
fn scan_phase(source: String) -> (r: Result<Vec<crate::token::Token>, Vec<LoxError>>)
    ensures
        match r {
            Ok(tokens) => {
                &&& scan(source@).errors.len() == 0
                &&& token_views(tokens@) == scan(source@).tokens
                &&& tokens@.len() > 0
                &&& tokens@.last().token_type == crate::token::TokenType::EOF
            },
            Err(errors) => scan(source@).errors.len() > 0 && error_views(errors@) == scan(
                source@,
            ).errors,
        },
{
    let scanner = Scanner::new(source);
    assert(token_views(scanner.tokens@) =~= Seq::empty());
    let r = scanner.scan_tokens();
    proof {
        let rest = scan(source@);
        assert(Seq::<crate::token::TokenView>::empty() + rest.tokens =~= rest.tokens);
    }
    r
}

/// Parses `tokens`, which end with the end-of-input token.
fn parse_phase(tokens: Vec<crate::token::Token>) -> (r: Result<Program, Vec<LoxError>>)
    requires
        tokens@.len() > 0,
        tokens@.last().token_type == crate::token::TokenType::EOF,
    ensures
        ({
            let parsed = program_spec(token_views(tokens@), fresh(), Seq::empty());
            match r {
                Ok(program) => {
                    &&& parsed.0.errors.len() == 0
                    &&& program@.well_formed()
                    &&& program@.is_tree()
                    &&& program@.branches_plain()
                    &&& program@ == (ProgramView {
                        tokens: token_views(tokens@),
                        exprs: parsed.0.exprs,
                        stmts: parsed.0.stmts,
                        lists: parsed.0.lists,
                        statements: parsed.1,
                    })
                },
                Err(errors) => {
                    &&& parsed.0.errors.len() > 0
                    &&& error_views(errors@) == parsed.0.errors.map_values(
                        |e| describe(token_views(tokens@), e),
                    )
                },
            }
        }),
{
    let mut parser = Parser::new(tokens);
    parser.parse();
    if parser.errors.len() > 0 {
        let errors = parser.diagnostics();
        assert(error_views(errors@) =~= parser.errors@.map_values(
            |e| describe(token_views(tokens@), e),
        ));
        return Err(errors);
    }
    Ok(parser.into_program())
}

/// Resolves `program`.
fn resolve_phase(program: &Program) -> (r: Result<Vec<Option<usize>>, Vec<LoxError>>)
    ensures
        match r {
            Ok(locals) => {
                &&& resolve_program(program@).errors.len() == 0
                &&& locals@ == resolve_program(program@).locals
            },
            Err(errors) => {
                &&& resolve_program(program@).errors.len() > 0
                &&& error_views(errors@) == resolve_program(program@).errors
            },
        },
{
    let mut resolver = Resolver::new(program);
    resolver.resolve(program);
    if resolver.errors.len() > 0 {
        return Err(resolver.errors);
    }
    Ok(resolver.locals)
}

/// Scans, parses and resolves `source`.
pub fn compile(source: String) -> (r: Result<Compiled, Rejected>)
    ensures
        match r {
            Ok(c) => {
                &&& verdict(source@) == RuntimeResult::Safe
                &&& accepted(c.program@, c.locals@)
                &&& c.program@ == program_of(source@)
                &&& c.locals@ == resolve_program(program_of(source@)).locals
            },
            Err(e) => {
                &&& verdict(source@) != RuntimeResult::Safe
                &&& e.phase == verdict(source@)
                &&& error_views(e.errors@) == complaints(source@)
            },
        },
{
    let ghost src = source@;
    let tokens = match scan_phase(source) {
        Ok(tokens) => tokens,
        Err(errors) => {
            return Err(Rejected { phase: RuntimeResult::LexicalError, errors });
        },
    };
    let program = match parse_phase(tokens) {
        Ok(program) => program,
        Err(errors) => {
            return Err(Rejected { phase: RuntimeResult::ParserError, errors });
        },
    };
    match resolve_phase(&program) {
        Ok(locals) => Ok(Compiled { program, locals }),
        Err(errors) => Err(Rejected { phase: RuntimeResult::ResolverError, errors }),
    }
}

} // verus!
