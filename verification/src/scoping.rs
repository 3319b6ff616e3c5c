//! Static scoping.
//!
//! The resolver's side table says, for a use of a variable, how many scopes
//! out the variable lives. A program is well scoped under its side table if
//! every such claim is true of the names that are in scope where the use
//! stands. This module defines that notion over a chain of sets of names,
//! innermost last, and shows that what is well scoped stays so when scopes
//! come to bind more names.

use crate::ast::{List, ProgramView};
use crate::expr::Expr;
use crate::stmt::Stmt;
use vstd::prelude::*;

verus! {

/// The names bound by each scope of a chain, the innermost scope last.
pub type Chain = Seq<Set<Seq<char>>>;

/// The scope `depth` levels out from the innermost scope of `chain` binds
/// `name`.
pub open spec fn chain_has(chain: Chain, depth: nat, name: Seq<char>) -> bool {
    depth < chain.len() && chain[chain.len() - 1 - depth].contains(name)
}

/// `chain` with `name` bound in its innermost scope.
pub open spec fn with_name(chain: Chain, name: Seq<char>) -> Chain {
    if chain.len() > 0 {
        chain.update(chain.len() - 1, chain.last().insert(name))
    } else {
        chain
    }
}

/// `wider` has the scopes of `chain`, each binding at least the same names.
pub open spec fn covers(wider: Chain, chain: Chain) -> bool {
    &&& wider.len() == chain.len()
    &&& forall|k: int| 0 <= k < chain.len() ==> #[trigger] chain[k].subset_of(wider[k])
}

/// What the side table says of the read of `name` in expression `id` is
/// true in `chain`.
pub open spec fn read_ok(
    locals: Seq<Option<usize>>,
    id: usize,
    name: Seq<char>,
    chain: Chain,
) -> bool {
    id < locals.len() ==> (locals[id as int] matches Some(d) ==> chain_has(chain, d as nat, name))
}

/// Arguments `index` and later of the call `parent` are well scoped.
pub open spec fn args_ok(
    p: ProgramView,
    locals: Seq<Option<usize>>,
    parent: usize,
    list: List,
    index: usize,
    chain: Chain,
) -> bool
    decreases parent, list.len - index,
{
    if index >= list.len {
        true
    } else {
        &&& match p.item(list, index) {
            Some(child) => child < parent ==> expr_ok(p, locals, child, chain),
            None => true,
        }
        &&& args_ok(p, locals, parent, list, (index + 1) as usize, chain)
    }
}

/// The child `child` of the expression `parent` is well scoped.
pub open spec fn child_ok(
    p: ProgramView,
    locals: Seq<Option<usize>>,
    parent: usize,
    child: usize,
    chain: Chain,
) -> bool
    decreases parent, 0nat,
{
    child < parent ==> expr_ok(p, locals, child, chain)
}

/// Every read of a resolved variable in the expression `id` finds its
/// variable where the side table says, if the expression is evaluated in
/// `chain`.
pub open spec fn expr_ok(p: ProgramView, locals: Seq<Option<usize>>, id: usize, chain: Chain) -> bool
    decreases id, usize::MAX + 1,
{
    match p.expr(id) {
        Some(Expr::Unary(u)) => child_ok(p, locals, id, u.expr, chain),
        Some(Expr::Binary(b)) => child_ok(p, locals, id, b.left, chain) && child_ok(
            p,
            locals,
            id,
            b.right,
            chain,
        ),
        Some(Expr::Grouping(g)) => child_ok(p, locals, id, g.expr, chain),
        Some(Expr::Variable(v)) => match p.token(v.name) {
            Some(t) => read_ok(locals, id, t.lexeme, chain),
            None => true,
        },
        Some(Expr::Assign(a)) => child_ok(p, locals, id, a.value, chain),
        Some(Expr::Logical(l)) => child_ok(p, locals, id, l.left, chain) && child_ok(
            p,
            locals,
            id,
            l.right,
            chain,
        ),
        Some(Expr::Call(c)) => child_ok(p, locals, id, c.callee, chain) && args_ok(
            p,
            locals,
            id,
            c.arguments,
            0,
            chain,
        ),
        _ => true,
    }
}

/// The name that token `token` spells, if the token exists.
pub open spec fn name_of(p: ProgramView, token: usize) -> Option<Seq<char>> {
    match p.token(token) {
        Some(t) => Some(t.lexeme),
        None => None,
    }
}

/// The name that the statement `id` declares in the scope it runs in.
pub open spec fn declares(p: ProgramView, id: usize) -> Option<Seq<char>> {
    match p.stmt(id) {
        Some(Stmt::Var(v)) => name_of(p, v.name),
        Some(Stmt::Function(f)) => name_of(p, f.name),
        _ => None,
    }
}

/// The chain after the statement `id` has run in `chain`.
pub open spec fn chain_after(p: ProgramView, id: usize, chain: Chain) -> Chain {
    match declares(p, id) {
        Some(name) => with_name(chain, name),
        None => chain,
    }
}

/// The names of parameters `index` and later of `params`.
pub open spec fn param_names(p: ProgramView, params: List, index: usize) -> Set<Seq<char>>
    decreases params.len - index,
{
    if index >= params.len {
        Set::empty()
    } else {
        let rest = param_names(p, params, (index + 1) as usize);
        match p.item(params, index) {
            Some(token) => match name_of(p, token) {
                Some(name) => rest.insert(name),
                None => rest,
            },
            None => rest,
        }
    }
}

/// Statements `index` and later of `list` are well scoped if they run, in
/// order, from `chain` on. Only entries less than `bound` count.
pub open spec fn stmts_ok(
    p: ProgramView,
    locals: Seq<Option<usize>>,
    bound: usize,
    list: List,
    index: usize,
    chain: Chain,
) -> bool
    decreases bound, list.len - index,
{
    if index >= list.len {
        true
    } else {
        match p.item(list, index) {
            Some(child) => if child < bound {
                &&& stmt_ok(p, locals, child, chain)
                &&& stmts_ok(
                    p,
                    locals,
                    bound,
                    list,
                    (index + 1) as usize,
                    chain_after(p, child, chain),
                )
            } else {
                stmts_ok(p, locals, bound, list, (index + 1) as usize, chain)
            },
            None => stmts_ok(p, locals, bound, list, (index + 1) as usize, chain),
        }
    }
}

/// The statement `child` in the statement `parent` is well scoped.
pub open spec fn inner_ok(
    p: ProgramView,
    locals: Seq<Option<usize>>,
    parent: usize,
    child: usize,
    chain: Chain,
) -> bool
    decreases parent, 0nat,
{
    child < parent ==> stmt_ok(p, locals, child, chain)
}

/// Every read of a resolved variable in the statement `id` finds its
/// variable where the side table says, if the statement runs in `chain`.
pub open spec fn stmt_ok(p: ProgramView, locals: Seq<Option<usize>>, id: usize, chain: Chain) -> bool
    decreases id, usize::MAX + 1,
{
    match p.stmt(id) {
        Some(Stmt::Expression(e)) => expr_ok(p, locals, e.expr, chain),
        Some(Stmt::Print(s)) => expr_ok(p, locals, s.expr, chain),
        Some(Stmt::Var(v)) => expr_ok(p, locals, v.initializer, chain),
        Some(Stmt::Block(b)) => stmts_ok(
            p,
            locals,
            id,
            b.statements,
            0,
            chain.push(Set::empty()),
        ),
        Some(Stmt::If(i)) => {
            &&& expr_ok(p, locals, i.condition, chain)
            &&& inner_ok(p, locals, id, i.then_branch, chain)
            &&& i.else_branch matches Some(e) ==> inner_ok(p, locals, id, e, chain)
        },
        Some(Stmt::While(w)) => expr_ok(p, locals, w.condition, chain) && inner_ok(
            p,
            locals,
            id,
            w.body,
            chain,
        ),
        Some(Stmt::Function(f)) => stmts_ok(
            p,
            locals,
            id,
            f.body,
            0,
            chain_after(p, id, chain).push(param_names(p, f.params, 0)),
        ),
        Some(Stmt::Return(r)) => r.value matches Some(e) ==> expr_ok(p, locals, e, chain),
        None => true,
    }
}

/// Top-level statements `index` and later are well scoped if they run, in
/// order, from `chain` on.
pub open spec fn roots_ok(
    p: ProgramView,
    locals: Seq<Option<usize>>,
    index: nat,
    chain: Chain,
) -> bool
    decreases p.statements.len() - index,
{
    if index >= p.statements.len() {
        true
    } else {
        &&& stmt_ok(p, locals, p.statements[index as int], chain)
        &&& roots_ok(p, locals, index + 1, chain_after(p, p.statements[index as int], chain))
    }
}


/// Binding a name, or opening a scope, keeps a wider chain wider.
pub proof fn lemma_covers_grows(wider: Chain, chain: Chain, name: Seq<char>, names: Set<Seq<char>>)
    requires
        covers(wider, chain),
    ensures
        covers(with_name(wider, name), with_name(chain, name)),
        covers(wider.push(names), chain.push(names)),
        covers(with_name(chain, name), chain),
        covers(chain, chain),
{
    assert forall|k: int| 0 <= k < chain.len() implies (#[trigger] with_name(chain, name)[k]).subset_of(
        with_name(wider, name)[k],
    ) by {
        assert(chain[k].subset_of(wider[k]));
    }
    assert forall|k: int| 0 <= k < chain.push(names).len() implies (#[trigger] chain.push(
        names,
    )[k]).subset_of(wider.push(names)[k]) by {
        if k < chain.len() {
            assert(chain[k].subset_of(wider[k]));
        }
    }
    assert forall|k: int| 0 <= k < chain.len() implies (#[trigger] chain[k]).subset_of(
        with_name(chain, name)[k],
    ) by {}
}

/// What is well scoped in a chain is well scoped in every wider chain.
pub proof fn lemma_args_wider(
    p: ProgramView,
    locals: Seq<Option<usize>>,
    parent: usize,
    list: List,
    index: usize,
    chain: Chain,
    wider: Chain,
)
    requires
        covers(wider, chain),
        args_ok(p, locals, parent, list, index, chain),
    ensures
        args_ok(p, locals, parent, list, index, wider),
    decreases parent, list.len - index,
{
    if index < list.len {
        match p.item(list, index) {
            Some(child) => {
                if child < parent {
                    lemma_expr_wider(p, locals, child, chain, wider);
                }
            },
            None => {},
        }
        lemma_args_wider(p, locals, parent, list, (index + 1) as usize, chain, wider);
    }
}

/// What is well scoped in a chain is well scoped in every wider chain.
pub proof fn lemma_child_wider(
    p: ProgramView,
    locals: Seq<Option<usize>>,
    parent: usize,
    child: usize,
    chain: Chain,
    wider: Chain,
)
    requires
        covers(wider, chain),
        child_ok(p, locals, parent, child, chain),
    ensures
        child_ok(p, locals, parent, child, wider),
    decreases parent, 0nat,
{
    if child < parent {
        lemma_expr_wider(p, locals, child, chain, wider);
    }
}

/// What is well scoped in a chain is well scoped in every wider chain.
pub proof fn lemma_expr_wider(
    p: ProgramView,
    locals: Seq<Option<usize>>,
    id: usize,
    chain: Chain,
    wider: Chain,
)
    requires
        covers(wider, chain),
        expr_ok(p, locals, id, chain),
    ensures
        expr_ok(p, locals, id, wider),
    decreases id, usize::MAX + 1,
{
    match p.expr(id) {
        Some(Expr::Unary(u)) => lemma_child_wider(p, locals, id, u.expr, chain, wider),
        Some(Expr::Binary(b)) => {
            lemma_child_wider(p, locals, id, b.left, chain, wider);
            lemma_child_wider(p, locals, id, b.right, chain, wider);
        },
        Some(Expr::Grouping(g)) => lemma_child_wider(p, locals, id, g.expr, chain, wider),
        Some(Expr::Variable(v)) => {
            match p.token(v.name) {
                Some(t) => {
                    if id < locals.len() {
                        match locals[id as int] {
                            Some(d) => {
                                assert(chain[chain.len() - 1 - d].subset_of(
                                    wider[chain.len() - 1 - d],
                                ));
                            },
                            None => {},
                        }
                    }
                },
                None => {},
            }
        },
        Some(Expr::Assign(a)) => lemma_child_wider(p, locals, id, a.value, chain, wider),
        Some(Expr::Logical(l)) => {
            lemma_child_wider(p, locals, id, l.left, chain, wider);
            lemma_child_wider(p, locals, id, l.right, chain, wider);
        },
        Some(Expr::Call(c)) => {
            lemma_child_wider(p, locals, id, c.callee, chain, wider);
            lemma_args_wider(p, locals, id, c.arguments, 0, chain, wider);
        },
        _ => {},
    }
}

/// What is well scoped in a chain is well scoped in every wider chain.
pub proof fn lemma_stmts_wider(
    p: ProgramView,
    locals: Seq<Option<usize>>,
    bound: usize,
    list: List,
    index: usize,
    chain: Chain,
    wider: Chain,
)
    requires
        covers(wider, chain),
        stmts_ok(p, locals, bound, list, index, chain),
    ensures
        stmts_ok(p, locals, bound, list, index, wider),
    decreases bound, list.len - index,
{
    if index < list.len {
        match p.item(list, index) {
            Some(child) => {
                if child < bound {
                    lemma_stmt_wider(p, locals, child, chain, wider);
                    lemma_after_wider(p, child, chain, wider);
                    lemma_stmts_wider(
                        p,
                        locals,
                        bound,
                        list,
                        (index + 1) as usize,
                        chain_after(p, child, chain),
                        chain_after(p, child, wider),
                    );
                } else {
                    lemma_stmts_wider(p, locals, bound, list, (index + 1) as usize, chain, wider);
                }
            },
            None => {
                lemma_stmts_wider(p, locals, bound, list, (index + 1) as usize, chain, wider);
            },
        }
    }
}

/// A statement keeps a wider chain wider.
pub proof fn lemma_after_wider(p: ProgramView, id: usize, chain: Chain, wider: Chain)
    requires
        covers(wider, chain),
    ensures
        covers(chain_after(p, id, wider), chain_after(p, id, chain)),
{
    match declares(p, id) {
        Some(name) => lemma_covers_grows(wider, chain, name, Set::empty()),
        None => {},
    }
}

/// What is well scoped in a chain is well scoped in every wider chain.
pub proof fn lemma_inner_wider(
    p: ProgramView,
    locals: Seq<Option<usize>>,
    parent: usize,
    child: usize,
    chain: Chain,
    wider: Chain,
)
    requires
        covers(wider, chain),
        inner_ok(p, locals, parent, child, chain),
    ensures
        inner_ok(p, locals, parent, child, wider),
    decreases parent, 0nat,
{
    if child < parent {
        lemma_stmt_wider(p, locals, child, chain, wider);
    }
}

/// What is well scoped in a chain is well scoped in every wider chain.
pub proof fn lemma_stmt_wider(
    p: ProgramView,
    locals: Seq<Option<usize>>,
    id: usize,
    chain: Chain,
    wider: Chain,
)
    requires
        covers(wider, chain),
        stmt_ok(p, locals, id, chain),
    ensures
        stmt_ok(p, locals, id, wider),
    decreases id, usize::MAX + 1,
{
    match p.stmt(id) {
        Some(Stmt::Expression(e)) => lemma_expr_wider(p, locals, e.expr, chain, wider),
        Some(Stmt::Print(s)) => lemma_expr_wider(p, locals, s.expr, chain, wider),
        Some(Stmt::Var(v)) => lemma_expr_wider(p, locals, v.initializer, chain, wider),
        Some(Stmt::Block(b)) => {
            lemma_covers_grows(wider, chain, Seq::empty(), Set::empty());
            lemma_stmts_wider(
                p,
                locals,
                id,
                b.statements,
                0,
                chain.push(Set::empty()),
                wider.push(Set::empty()),
            );
        },
        Some(Stmt::If(i)) => {
            lemma_expr_wider(p, locals, i.condition, chain, wider);
            lemma_inner_wider(p, locals, id, i.then_branch, chain, wider);
            match i.else_branch {
                Some(e) => lemma_inner_wider(p, locals, id, e, chain, wider),
                None => {},
            }
        },
        Some(Stmt::While(w)) => {
            lemma_expr_wider(p, locals, w.condition, chain, wider);
            lemma_inner_wider(p, locals, id, w.body, chain, wider);
        },
        Some(Stmt::Function(f)) => {
            lemma_after_wider(p, id, chain, wider);
            lemma_covers_grows(
                chain_after(p, id, wider),
                chain_after(p, id, chain),
                Seq::empty(),
                param_names(p, f.params, 0),
            );
            lemma_stmts_wider(
                p,
                locals,
                id,
                f.body,
                0,
                chain_after(p, id, chain).push(param_names(p, f.params, 0)),
                chain_after(p, id, wider).push(param_names(p, f.params, 0)),
            );
        },
        Some(Stmt::Return(r)) => match r.value {
            Some(e) => lemma_expr_wider(p, locals, e, chain, wider),
            None => {},
        },
        None => {},
    }
}

/// What is well scoped in a chain is well scoped in every wider chain.
pub proof fn lemma_roots_wider(
    p: ProgramView,
    locals: Seq<Option<usize>>,
    index: nat,
    chain: Chain,
    wider: Chain,
)
    requires
        covers(wider, chain),
        roots_ok(p, locals, index, chain),
    ensures
        roots_ok(p, locals, index, wider),
    decreases p.statements.len() - index,
{
    if index < p.statements.len() {
        let id = p.statements[index as int];
        lemma_stmt_wider(p, locals, id, chain, wider);
        lemma_after_wider(p, id, chain, wider);
        lemma_roots_wider(
            p,
            locals,
            index + 1,
            chain_after(p, id, chain),
            chain_after(p, id, wider),
        );
    }
}

} // verus!
