//! Static resolution of variables.
//!
//! One pass over a program finds, for each use of a variable, how many scopes
//! lie between the use and the scope that declares the variable, and reports
//! each variable that is read in its own initializer. A name that no scope
//! declares is left to the global scope.
//!
//! A node is visited from its parent only if its index is smaller than the
//! parent's, so the pass ends on any program. In a well-formed program every
//! child has a smaller index than its parent, and every node is visited.

use crate::ast::{List, Program, ProgramView};
use crate::error::{error_views, LoxError, LoxErrorView};
use crate::expr::Expr;
use crate::stmt::{Function, Stmt};
use crate::token::{Token, TokenView};
use vstd::hash_map::StringHashMap;
use vstd::prelude::*;

verus! {

/// What the resolver knows: the stack of scopes, each mapping a declared
/// name to whether its initializer has been resolved; the depth found for
/// each expression; and the errors found.
pub struct Resolution {
    pub scopes: Seq<Map<Seq<char>, bool>>,
    pub locals: Seq<Option<usize>>,
    pub errors: Seq<LoxErrorView>,
}

pub open spec fn own_initializer(name: TokenView) -> LoxErrorView {
    LoxErrorView {
        line: name.line,
        message: "Can't read local variable in its own initializer."@,
        position: name.position,
    }
}

pub open spec fn begin_scope(r: Resolution) -> Resolution {
    Resolution { scopes: r.scopes.push(Map::empty()), ..r }
}

pub open spec fn end_scope(r: Resolution) -> Resolution {
    if r.scopes.len() > 0 {
        Resolution { scopes: r.scopes.drop_last(), ..r }
    } else {
        r
    }
}

/// `name` is entered in the innermost scope with readiness `ready`; outside
/// every scope nothing is entered.
pub open spec fn enter(r: Resolution, name: Seq<char>, ready: bool) -> Resolution {
    if r.scopes.len() > 0 {
        Resolution {
            scopes: r.scopes.update(r.scopes.len() - 1, r.scopes.last().insert(name, ready)),
            ..r
        }
    } else {
        r
    }
}

pub open spec fn declare(r: Resolution, name: Seq<char>) -> Resolution {
    enter(r, name, false)
}

pub open spec fn define(r: Resolution, name: Seq<char>) -> Resolution {
    enter(r, name, true)
}

/// How many scopes lie between the innermost of `scopes` and the innermost
/// one that declares `name`.
pub open spec fn distance(scopes: Seq<Map<Seq<char>, bool>>, name: Seq<char>) -> Option<nat>
    decreases scopes.len(),
{
    if scopes.len() == 0 {
        None
    } else if scopes.last().contains_key(name) {
        Some(0)
    } else {
        match distance(scopes.drop_last(), name) {
            Some(d) => Some(d + 1),
            None => None,
        }
    }
}

/// The depth of `name` is recorded for expression `expr`, if a scope declares
/// the name.
pub open spec fn resolve_local(r: Resolution, expr: usize, name: Seq<char>) -> Resolution {
    match distance(r.scopes, name) {
        Some(d) => if expr < r.locals.len() {
            Resolution { locals: r.locals.update(expr as int, Some(d as usize)), ..r }
        } else {
            r
        },
        None => r,
    }
}

/// Whether `name` is being declared in the innermost scope and its
/// initializer has not been resolved yet.
pub open spec fn in_own_initializer(r: Resolution, name: Seq<char>) -> bool {
    r.scopes.len() > 0 && r.scopes.last().contains_key(name) && !r.scopes.last()[name]
}

pub open spec fn resolve_variable(p: ProgramView, r: Resolution, expr: usize, name: usize) -> Resolution {
    match p.token(name) {
        Some(t) => if in_own_initializer(r, t.lexeme) {
            Resolution { errors: r.errors.push(own_initializer(t)), ..r }
        } else {
            resolve_local(r, expr, t.lexeme)
        },
        None => r,
    }
}

/// Expressions `index` and later of `list`, which belong to the node
/// `parent`, are resolved in order.
pub open spec fn resolve_exprs(
    p: ProgramView,
    r: Resolution,
    parent: usize,
    list: List,
    index: usize,
) -> Resolution
    decreases parent, list.len - index,
{
    if index >= list.len {
        r
    } else {
        let next = match p.item(list, index) {
            Some(child) => if child < parent {
                resolve_expr(p, r, child)
            } else {
                r
            },
            None => r,
        };
        resolve_exprs(p, next, parent, list, (index + 1) as usize)
    }
}

/// The child `child` of the expression `parent` is resolved.
pub open spec fn resolve_child(p: ProgramView, r: Resolution, parent: usize, child: usize) -> Resolution
    decreases parent, 0nat,
{
    if child < parent {
        resolve_expr(p, r, child)
    } else {
        r
    }
}

/// The expression `id` is resolved.
pub open spec fn resolve_expr(p: ProgramView, r: Resolution, id: usize) -> Resolution
    decreases id, usize::MAX + 1,
{
    match p.expr(id) {
        Some(Expr::Unary(u)) => resolve_child(p, r, id, u.expr),
        Some(Expr::Binary(b)) => resolve_child(p, resolve_child(p, r, id, b.left), id, b.right),
        Some(Expr::Grouping(g)) => resolve_child(p, r, id, g.expr),
        Some(Expr::Variable(v)) => resolve_variable(p, r, id, v.name),
        Some(Expr::Assign(a)) => match p.token(a.name) {
            Some(t) => resolve_local(resolve_child(p, r, id, a.value), id, t.lexeme),
            None => resolve_child(p, r, id, a.value),
        },
        Some(Expr::Logical(l)) => resolve_child(p, resolve_child(p, r, id, l.left), id, l.right),
        Some(Expr::Call(c)) => resolve_exprs(
            p,
            resolve_child(p, r, id, c.callee),
            id,
            c.arguments,
            0,
        ),
        _ => r,
    }
}

/// The name of token `name` is entered in the innermost scope.
pub open spec fn enter_token(p: ProgramView, r: Resolution, name: usize, ready: bool) -> Resolution {
    match p.token(name) {
        Some(t) => enter(r, t.lexeme, ready),
        None => r,
    }
}

/// Parameters `index` and later of `params` are declared and defined.
pub open spec fn resolve_params(p: ProgramView, r: Resolution, params: List, index: usize) -> Resolution
    decreases params.len - index,
{
    if index >= params.len {
        r
    } else {
        let next = match p.item(params, index) {
            Some(name) => enter_token(p, enter_token(p, r, name, false), name, true),
            None => r,
        };
        resolve_params(p, next, params, (index + 1) as usize)
    }
}

/// Statements `index` and later of `list`, which belong to the node
/// `parent`, are resolved in order.
pub open spec fn resolve_stmts(
    p: ProgramView,
    r: Resolution,
    parent: usize,
    list: List,
    index: usize,
) -> Resolution
    decreases parent, list.len - index,
{
    if index >= list.len {
        r
    } else {
        let next = match p.item(list, index) {
            Some(child) => if child < parent {
                resolve_stmt(p, r, child)
            } else {
                r
            },
            None => r,
        };
        resolve_stmts(p, next, parent, list, (index + 1) as usize)
    }
}

/// The child `child` of the statement `parent` is resolved.
pub open spec fn resolve_inner(p: ProgramView, r: Resolution, parent: usize, child: usize) -> Resolution
    decreases parent, 0nat,
{
    if child < parent {
        resolve_stmt(p, r, child)
    } else {
        r
    }
}

/// A function: its name is declared and defined in the current scope, so
/// that the function can call itself; its parameters and its body share one
/// new scope.
pub open spec fn resolve_function(p: ProgramView, r: Resolution, id: usize, f: Function) -> Resolution
    decreases id, usize::MAX + 1,
{
    let named = enter_token(p, enter_token(p, r, f.name, false), f.name, true);
    let inside = resolve_params(p, begin_scope(named), f.params, 0);
    end_scope(resolve_stmts(p, inside, id, f.body, 0))
}

/// The statement `id` is resolved.
pub open spec fn resolve_stmt(p: ProgramView, r: Resolution, id: usize) -> Resolution
    decreases id, usize::MAX + 2,
{
    match p.stmt(id) {
        Some(Stmt::Expression(e)) => resolve_expr(p, r, e.expr),
        Some(Stmt::Print(s)) => resolve_expr(p, r, s.expr),
        Some(Stmt::Var(v)) => enter_token(
            p,
            resolve_expr(p, enter_token(p, r, v.name, false), v.initializer),
            v.name,
            true,
        ),
        Some(Stmt::Block(b)) => end_scope(resolve_stmts(p, begin_scope(r), id, b.statements, 0)),
        Some(Stmt::If(i)) => {
            let then = resolve_inner(p, resolve_expr(p, r, i.condition), id, i.then_branch);
            match i.else_branch {
                Some(e) => resolve_inner(p, then, id, e),
                None => then,
            }
        },
        Some(Stmt::While(w)) => resolve_inner(p, resolve_expr(p, r, w.condition), id, w.body),
        Some(Stmt::Function(f)) => resolve_function(p, r, id, f),
        Some(Stmt::Return(s)) => match s.value {
            Some(e) => resolve_expr(p, r, e),
            None => r,
        },
        None => r,
    }
}

/// Top-level statements `index` and later are resolved in order.
pub open spec fn resolve_from(p: ProgramView, r: Resolution, index: nat) -> Resolution
    decreases p.statements.len() - index,
{
    if index >= p.statements.len() {
        r
    } else {
        resolve_from(p, resolve_stmt(p, r, p.statements[index as int]), index + 1)
    }
}

/// The resolver's state before anything is resolved: no scope, no depth,
/// no error.
pub open spec fn unresolved(p: ProgramView) -> Resolution {
    Resolution {
        scopes: Seq::empty(),
        locals: Seq::new(p.exprs.len(), |i: int| None::<usize>),
        errors: Seq::empty(),
    }
}

/// The resolution of a whole program.
pub open spec fn resolve_program(p: ProgramView) -> Resolution {
    resolve_from(p, unresolved(p), 0)
}


pub open spec fn scope_maps(scopes: Seq<StringHashMap<bool>>) -> Seq<Map<Seq<char>, bool>> {
    scopes.map_values(|m: StringHashMap<bool>| m@)
}

/// The depth that the resolver records for a name is the distance to a scope
/// that declares the name, and no scope nearer than that declares it.
pub proof fn lemma_distance_is_innermost(scopes: Seq<Map<Seq<char>, bool>>, name: Seq<char>)
    ensures
        match distance(scopes, name) {
            Some(d) => {
                &&& d < scopes.len()
                &&& scopes[scopes.len() - 1 - d].contains_key(name)
                &&& forall|nearer: int|
                    0 <= nearer < d ==> !(#[trigger] scopes[scopes.len() - 1
                        - nearer]).contains_key(name)
            },
            None => forall|i: int| 0 <= i < scopes.len() ==> !(#[trigger] scopes[i]).contains_key(name),
        },
    decreases scopes.len(),
{
    if scopes.len() > 0 && !scopes.last().contains_key(name) {
        let outer = scopes.drop_last();
        lemma_distance_is_innermost(outer, name);
        match distance(outer, name) {
            Some(d) => {
                assert(outer[outer.len() - 1 - d] == scopes[scopes.len() - 1 - (d + 1)]);
                assert forall|nearer: int| 0 <= nearer < d + 1 implies !(#[trigger] scopes[scopes.len()
                    - 1 - nearer]).contains_key(name) by {
                    if nearer > 0 {
                        assert(scopes[scopes.len() - 1 - nearer] == outer[outer.len() - 1 - (nearer
                            - 1)]);
                    }
                }
            },
            None => {
                assert forall|i: int| 0 <= i < scopes.len() implies !(#[trigger] scopes[i]).contains_key(
                    name,
                ) by {
                    if i < outer.len() {
                        assert(scopes[i] == outer[i]);
                    }
                }
            },
        }
    }
}

/// Resolution is a function of the syntax tree: two programs with the same
/// tokens, nodes and statements resolve to the same depths and errors.
pub proof fn lemma_resolution_is_determined(a: Program, b: Program)
    requires
        a@ == b@,
    ensures
        resolve_program(a@).locals == resolve_program(b@).locals,
        resolve_program(a@).errors == resolve_program(b@).errors,
{
}

/// The resolver.
pub struct Resolver {
    pub scopes: Vec<StringHashMap<bool>>,
    pub locals: Vec<Option<usize>>,
    pub errors: Vec<LoxError>,
}

impl View for Resolver {
    type V = Resolution;

    open spec fn view(&self) -> Resolution {
        Resolution {
            scopes: scope_maps(self.scopes@),
            locals: self.locals@,
            errors: error_views(self.errors@),
        }
    }
}

impl Resolver {
    /// A resolver for `program`, before anything is resolved.
    pub fn new(program: &Program) -> (r: Resolver)
        ensures
            r@ == unresolved(program@),
    {
        let mut locals: Vec<Option<usize>> = Vec::new();
        let count = program.exprs.len();
        while locals.len() < count
            invariant
                locals@.len() <= count,
                count == program.exprs@.len(),
                forall|i: int| 0 <= i < locals@.len() ==> locals@[i] == None::<usize>,
            decreases count - locals@.len(),
        {
            locals.push(None);
        }
        let r = Resolver { scopes: Vec::new(), locals, errors: Vec::new() };
        assert(r@.locals =~= unresolved(program@).locals);
        assert(r@.scopes =~= unresolved(program@).scopes);
        assert(r@.errors =~= unresolved(program@).errors);
        r
    }

    /// Resolves `program`, starting from this resolver's state.
    pub fn resolve(&mut self, program: &Program)
        ensures
            final(self)@ == resolve_from(program@, old(self)@, 0),
    {
        let mut index: usize = 0;
        while index < program.statements.len()
            invariant
                resolve_from(program@, self@, index as nat) == resolve_from(program@, old(self)@, 0),
            decreases program.statements@.len() - index,
        {
            self.resolve_stmt(program, program.statements[index]);
            index += 1;
        }
    }

    pub fn begin_scope(&mut self)
        ensures
            final(self)@ == begin_scope(old(self)@),
    {
        self.scopes.push(StringHashMap::new());
        assert(self@.scopes =~= begin_scope(old(self)@).scopes);
    }

    pub fn end_scope(&mut self)
        ensures
            final(self)@ == end_scope(old(self)@),
    {
        self.scopes.pop();
        assert(self@.scopes =~= end_scope(old(self)@).scopes);
    }

    /// Enters `name` in the innermost scope as not yet ready.
    pub fn declare(&mut self, name: &Token)
        ensures
            final(self)@ == declare(old(self)@, name.lexeme@),
    {
        self.enter(name, false);
    }

    /// Marks `name` in the innermost scope as ready.
    pub fn define(&mut self, name: &Token)
        ensures
            final(self)@ == define(old(self)@, name.lexeme@),
    {
        self.enter(name, true);
    }

    fn enter(&mut self, name: &Token, ready: bool)
        ensures
            final(self)@ == enter(old(self)@, name.lexeme@, ready),
    {
        let depth = self.scopes.len();
        if depth > 0 {
            self.scopes[depth - 1].insert(name.lexeme.clone(), ready);
        }
        assert(self@.scopes =~= enter(old(self)@, name.lexeme@, ready).scopes);
    }

    /// How many scopes lie between the innermost scope and the innermost
    /// one that declares `name`.
    pub fn distance(&self, name: &str) -> (r: Option<usize>)
        ensures
            match r {
                Some(d) => distance(self@.scopes, name@) == Some(d as nat),
                None => distance(self@.scopes, name@) is None,
            },
    {
        let ghost scopes = self@.scopes;
        let count = self.scopes.len();
        let mut i = count;
        assert(scopes.take(i as int) =~= scopes);
        while i > 0
            invariant
                i <= count,
                count == self.scopes@.len(),
                scopes == self@.scopes,
                distance(scopes, name@) == match distance(scopes.take(i as int), name@) {
                    Some(d) => Some((d + (count - i)) as nat),
                    None => None,
                },
            decreases i,
        {
            assert(scopes.take(i as int).drop_last() =~= scopes.take(i - 1));
            assert(scopes.take(i as int).last() == self.scopes@[i - 1]@);
            if self.scopes[i - 1].contains_key(name) {
                return Some(count - i);
            }
            i -= 1;
        }
        None
    }

    /// Records the depth of `name` for expression `expr`, if a scope
    /// declares the name.
    pub fn resolve_local(&mut self, expr: usize, name: &Token)
        ensures
            final(self)@ == resolve_local(old(self)@, expr, name.lexeme@),
    {
        match self.distance(name.lexeme.as_str()) {
            Some(d) => {
                if expr < self.locals.len() {
                    self.locals[expr] = Some(d);
                }
            },
            None => {},
        }
    }

    fn resolve_variable(&mut self, program: &Program, expr: usize, name: usize)
        ensures
            final(self)@ == resolve_variable(program@, old(self)@, expr, name),
    {
        match program.token(name) {
            Some(t) => {
                let depth = self.scopes.len();
                let unready = depth > 0 && match self.scopes[depth - 1].get(t.lexeme.as_str()) {
                    Some(ready) => !*ready,
                    None => false,
                };
                if unready {
                    self.errors.push(
                        LoxError::error(
                            t.line,
                            String::from_str("Can't read local variable in its own initializer."),
                            t.position,
                        ),
                    );
                    assert(self@.errors =~= old(self)@.errors.push(own_initializer(t@)));
                } else {
                    self.resolve_local(expr, t);
                }
            },
            None => {},
        }
    }

    fn resolve_child(&mut self, program: &Program, parent: usize, child: usize)
        ensures
            final(self)@ == resolve_child(program@, old(self)@, parent, child),
        decreases parent, 0nat,
    {
        if child < parent {
            self.resolve_expr(program, child);
        }
    }

    /// Resolves the expression `id`.
    pub fn resolve_expr(&mut self, program: &Program, id: usize)
        ensures
            final(self)@ == resolve_expr(program@, old(self)@, id),
        decreases id, usize::MAX + 1,
    {
        match program.expr(id) {
            Some(Expr::Unary(u)) => self.resolve_child(program, id, u.expr),
            Some(Expr::Binary(b)) => {
                self.resolve_child(program, id, b.left);
                self.resolve_child(program, id, b.right);
            },
            Some(Expr::Grouping(g)) => self.resolve_child(program, id, g.expr),
            Some(Expr::Variable(v)) => self.resolve_variable(program, id, v.name),
            Some(Expr::Assign(a)) => {
                self.resolve_child(program, id, a.value);
                match program.token(a.name) {
                    Some(t) => self.resolve_local(id, t),
                    None => {},
                }
            },
            Some(Expr::Logical(l)) => {
                self.resolve_child(program, id, l.left);
                self.resolve_child(program, id, l.right);
            },
            Some(Expr::Call(c)) => {
                self.resolve_child(program, id, c.callee);
                let ghost whole = resolve_exprs(program@, self@, id, c.arguments, 0);
                let mut index: usize = 0;
                while index < c.arguments.len
                    invariant
                        resolve_exprs(program@, self@, id, c.arguments, index) == whole,
                    decreases c.arguments.len - index,
                {
                    match program.item(c.arguments, index) {
                        Some(child) => {
                            if child < id {
                                self.resolve_expr(program, child);
                            }
                        },
                        None => {},
                    }
                    index += 1;
                }
            },
            _ => {},
        }
    }

    fn enter_token(&mut self, program: &Program, name: usize, ready: bool)
        ensures
            final(self)@ == enter_token(program@, old(self)@, name, ready),
    {
        match program.token(name) {
            Some(t) => self.enter(t, ready),
            None => {},
        }
    }

    fn resolve_inner(&mut self, program: &Program, parent: usize, child: usize)
        ensures
            final(self)@ == resolve_inner(program@, old(self)@, parent, child),
        decreases parent, 0nat,
    {
        if child < parent {
            self.resolve_stmt(program, child);
        }
    }

    fn resolve_stmts(&mut self, program: &Program, parent: usize, list: List)
        ensures
            final(self)@ == resolve_stmts(program@, old(self)@, parent, list, 0),
        decreases parent, usize::MAX as nat,
    {
        let ghost whole = resolve_stmts(program@, self@, parent, list, 0);
        let mut index: usize = 0;
        while index < list.len
            invariant
                resolve_stmts(program@, self@, parent, list, index) == whole,
            decreases list.len - index,
        {
            match program.item(list, index) {
                Some(child) => {
                    if child < parent {
                        self.resolve_stmt(program, child);
                    }
                },
                None => {},
            }
            index += 1;
        }
    }

    /// Resolves the function declaration `f`, which is statement `id`.
    pub fn resolve_function(&mut self, program: &Program, id: usize, f: Function)
        ensures
            final(self)@ == resolve_function(program@, old(self)@, id, f),
        decreases id, usize::MAX + 1,
    {
        self.enter_token(program, f.name, false);
        self.enter_token(program, f.name, true);
        self.begin_scope();
        let ghost whole = resolve_params(program@, self@, f.params, 0);
        let mut index: usize = 0;
        while index < f.params.len
            invariant
                resolve_params(program@, self@, f.params, index) == whole,
            decreases f.params.len - index,
        {
            match program.item(f.params, index) {
                Some(name) => {
                    self.enter_token(program, name, false);
                    self.enter_token(program, name, true);
                },
                None => {},
            }
            index += 1;
        }
        self.resolve_stmts(program, id, f.body);
        self.end_scope();
    }

    /// Resolves the statement `id`.
    pub fn resolve_stmt(&mut self, program: &Program, id: usize)
        ensures
            final(self)@ == resolve_stmt(program@, old(self)@, id),
        decreases id, usize::MAX + 2,
    {
        match program.stmt(id) {
            Some(Stmt::Expression(e)) => self.resolve_expr(program, e.expr),
            Some(Stmt::Print(s)) => self.resolve_expr(program, s.expr),
            Some(Stmt::Var(v)) => {
                self.enter_token(program, v.name, false);
                self.resolve_expr(program, v.initializer);
                self.enter_token(program, v.name, true);
            },
            Some(Stmt::Block(b)) => {
                self.begin_scope();
                self.resolve_stmts(program, id, b.statements);
                self.end_scope();
            },
            Some(Stmt::If(i)) => {
                self.resolve_expr(program, i.condition);
                self.resolve_inner(program, id, i.then_branch);
                match i.else_branch {
                    Some(e) => self.resolve_inner(program, id, e),
                    None => {},
                }
            },
            Some(Stmt::While(w)) => {
                self.resolve_expr(program, w.condition);
                self.resolve_inner(program, id, w.body);
            },
            Some(Stmt::Function(f)) => self.resolve_function(program, id, f),
            Some(Stmt::Return(s)) => match s.value {
                Some(e) => self.resolve_expr(program, e),
                None => {},
            },
            None => {},
        }
    }
}

} // verus!
