//! The resolver's findings are true of static scoping: a tree that resolves
//! without error is well scoped under the side table that the resolver
//! made for it.

use crate::ast::{lemma_nodes_fit, List, ProgramView, Windows};
use crate::expr::Expr;
use crate::resolver::{
    begin_scope, distance, end_scope, enter_token, in_own_initializer,
    lemma_distance_is_innermost, resolve_child, resolve_expr, resolve_exprs, resolve_from,
    resolve_local, resolve_params, resolve_program, resolve_stmt, resolve_stmts,
    resolve_variable, unresolved, Resolution,
};
use crate::scoping::{
    args_ok, chain_after, chain_has, child_ok, declares, expr_ok, param_names, read_ok, roots_ok,
    stmt_ok, stmts_ok, Chain,
};
use crate::stmt::Stmt;
use vstd::prelude::*;

verus! {

/// No depth is recorded for the expressions from `low` up to, but not
/// including, `high`.
pub open spec fn blank(locals: Seq<Option<usize>>, low: int, high: int) -> bool {
    forall|k: int| low <= k < high && 0 <= k < locals.len() ==> #[trigger] locals[k] is None
}

/// The side tables `a` and `b` record the same outside the window from `low`
/// to `high`.
pub open spec fn same_outside(a: Seq<Option<usize>>, b: Seq<Option<usize>>, low: int, high: int) -> bool {
    &&& a.len() == b.len()
    &&& forall|k: int| 0 <= k < a.len() && !(low <= k < high) ==> #[trigger] a[k] == b[k]
}

/// The side tables `a` and `b` record the same inside the window from `low`
/// to `high`.
pub open spec fn same_inside(a: Seq<Option<usize>>, b: Seq<Option<usize>>, low: int, high: int) -> bool {
    &&& a.len() == b.len()
    &&& forall|k: int| 0 <= k < a.len() && low <= k < high ==> #[trigger] a[k] == b[k]
}

/// The chain `chain` stands for the resolver's scopes `scopes`, below which
/// lies the global scope: it binds every name whose declaration is
/// complete.
pub open spec fn models(chain: Chain, scopes: Seq<Map<Seq<char>, bool>>) -> bool {
    &&& chain.len() == scopes.len() + 1
    &&& forall|k: int, name: Seq<char>|
        0 <= k < scopes.len() && (#[trigger] scopes[k].contains_key(name)) && scopes[k][name]
            ==> chain[k + 1].contains(name)
}

/// Every declaration in every scope but the innermost is complete.
pub open spec fn outer_ready(scopes: Seq<Map<Seq<char>, bool>>) -> bool {
    forall|k: int, name: Seq<char>|
        0 <= k < scopes.len() - 1 && (#[trigger] scopes[k].contains_key(name)) ==> scopes[k][name]
}

/// Every declaration in every scope is complete.
pub open spec fn all_ready(scopes: Seq<Map<Seq<char>, bool>>) -> bool {
    forall|k: int, name: Seq<char>|
        0 <= k < scopes.len() && (#[trigger] scopes[k].contains_key(name)) ==> scopes[k][name]
}

/// `later` has the errors of `r`, and maybe more.
pub open spec fn errs(r: Resolution, later: Resolution) -> bool {
    &&& r.errors.len() <= later.errors.len()
    &&& r.errors.len() == later.errors.len() ==> later.errors == r.errors
}

/// What resolving leaves of the state in which it started: the scopes, the
/// side table outside the window, and the errors.
pub open spec fn keeps(r: Resolution, later: Resolution, low: int, high: int) -> bool {
    &&& later.scopes == r.scopes
    &&& same_outside(r.locals, later.locals, low, high)
    &&& errs(r, later)
}

/// What is well scoped under a side table is well scoped under every side
/// table that records the same in the window of the expression.
pub proof fn lemma_expr_local(
    p: ProgramView,
    w: Windows,
    a: Seq<Option<usize>>,
    b: Seq<Option<usize>>,
    id: usize,
    chain: Chain,
)
    requires
        p.well_formed(),
        p.windowed(w),
        id < p.exprs.len(),
        same_inside(a, b, w.expr_low[id as int], id + 1),
        expr_ok(p, a, id, chain),
    ensures
        expr_ok(p, b, id, chain),
    decreases id, usize::MAX + 1,
{
    lemma_nodes_fit(p);
    let low = w.expr_low[id as int];
    assert(p.expr_fits(p.exprs[id as int], id as int));
    assert(p.expr_windowed(w, p.exprs[id as int], id as int, low));
    match p.exprs[id as int] {
        Expr::Unary(u) => lemma_narrow(p, w, a, b, id, u.expr, chain),
        Expr::Binary(e) => {
            lemma_narrow(p, w, a, b, id, e.left, chain);
            lemma_narrow(p, w, a, b, id, e.right, chain);
        },
        Expr::Grouping(g) => lemma_narrow(p, w, a, b, id, g.expr, chain),
        Expr::Variable(v) => {
            if id < a.len() {
                assert(a[id as int] == b[id as int]);
            }
        },
        Expr::Assign(e) => lemma_narrow(p, w, a, b, id, e.value, chain),
        Expr::Logical(e) => {
            lemma_narrow(p, w, a, b, id, e.left, chain);
            lemma_narrow(p, w, a, b, id, e.right, chain);
        },
        Expr::Call(c) => {
            lemma_narrow(p, w, a, b, id, c.callee, chain);
            lemma_args_local(p, w, a, b, id, c.arguments, 0, chain);
        },
        _ => {},
    }
}

/// The same, for a child whose window lies in the window of its parent.
pub proof fn lemma_narrow(
    p: ProgramView,
    w: Windows,
    a: Seq<Option<usize>>,
    b: Seq<Option<usize>>,
    parent: usize,
    child: usize,
    chain: Chain,
)
    requires
        p.well_formed(),
        p.windowed(w),
        parent < p.exprs.len(),
        child < parent,
        w.expr_low[parent as int] <= w.expr_low[child as int],
        same_inside(a, b, w.expr_low[parent as int], parent + 1),
        child_ok(p, a, parent, child, chain),
    ensures
        child_ok(p, b, parent, child, chain),
    decreases parent, 0nat,
{
    lemma_expr_local(p, w, a, b, child, chain);
}

/// The same, for the arguments of a call.
pub proof fn lemma_args_local(
    p: ProgramView,
    w: Windows,
    a: Seq<Option<usize>>,
    b: Seq<Option<usize>>,
    parent: usize,
    list: List,
    index: usize,
    chain: Chain,
)
    requires
        p.well_formed(),
        p.windowed(w),
        parent < p.exprs.len(),
        p.exprs[parent as int] is Call,
        p.exprs[parent as int]->Call_0.arguments == list,
        same_inside(a, b, w.expr_low[parent as int], parent + 1),
        args_ok(p, a, parent, list, index, chain),
    ensures
        args_ok(p, b, parent, list, index, chain),
    decreases parent, list.len - index,
{
    if index < list.len {
        lemma_nodes_fit(p);
        let c = p.exprs[parent as int]->Call_0;
        assert(p.expr_fits(p.exprs[parent as int], parent as int));
        assert(p.expr_windowed(w, p.exprs[parent as int], parent as int, w.expr_low[parent as int]));
        match p.item(list, index) {
            Some(child) => {
                assert(p.lists[list.start + index] == child);
                assert(child < parent);
                assert(c.callee < w.expr_low[child as int]);
                assert(p.expr_windowed(
                    w,
                    p.exprs[c.callee as int],
                    c.callee as int,
                    w.expr_low[c.callee as int],
                ));
                lemma_expr_local(p, w, a, b, child, chain);
            },
            None => {},
        }
        lemma_args_local(p, w, a, b, parent, list, (index + 1) as usize, chain);
    }
}


/// A window that was blank stays blank if the side table changes outside it
/// only.
pub proof fn lemma_stays_blank(
    a: Seq<Option<usize>>,
    b: Seq<Option<usize>>,
    low: int,
    high: int,
    changed_low: int,
    changed_high: int,
)
    requires
        blank(a, low, high),
        same_outside(a, b, changed_low, changed_high),
        changed_high <= low || high <= changed_low,
    ensures
        blank(b, low, high),
{
    assert forall|k: int| low <= k < high && 0 <= k < b.len() implies #[trigger] b[k] is None by {
        assert(a[k] == b[k]);
        assert(a[k] is None);
    }
}

/// A window that is blank has blank windows inside it.
pub proof fn lemma_blank_inside(a: Seq<Option<usize>>, low: int, high: int, inner_low: int, inner_high: int)
    requires
        blank(a, low, high),
        low <= inner_low,
        inner_high <= high,
    ensures
        blank(a, inner_low, inner_high),
{
}

/// What the resolver records for a variable is true of the chain that
/// stands for its scopes.
pub proof fn lemma_resolve_variable(
    p: ProgramView,
    r: Resolution,
    id: usize,
    name: usize,
    chain: Chain,
)
    requires
        id < r.locals.len(),
        r.locals[id as int] is None,
        r.scopes.len() <= usize::MAX,
        outer_ready(r.scopes),
        models(chain, r.scopes),
    ensures
        ({
            let later = resolve_variable(p, r, id, name);
            &&& keeps(r, later, id as int, id + 1)
            &&& later.errors.len() == r.errors.len() ==> (p.token(name) matches Some(t) ==> read_ok(
                later.locals,
                id,
                t.lexeme,
                chain,
            ))
        }),
{
    match p.token(name) {
        Some(t) => {
            if !in_own_initializer(r, t.lexeme) {
                lemma_distance_is_innermost(r.scopes, t.lexeme);
                match distance(r.scopes, t.lexeme) {
                    Some(d) => {
                        let level = r.scopes.len() - 1 - d;
                        assert(r.scopes[level].contains_key(t.lexeme));
                        assert(r.scopes[level][t.lexeme]);
                        assert(chain[level + 1].contains(t.lexeme));
                        assert(chain_has(chain, d, t.lexeme));
                    },
                    None => {},
                }
            }
        },
        None => {},
    }
}

/// Resolving the arguments of a call from `index` on touches the side table
/// from `floor` up to the call only, and what it records is true.
pub proof fn lemma_resolve_args(
    p: ProgramView,
    w: Windows,
    r: Resolution,
    parent: usize,
    list: List,
    index: usize,
    floor: int,
    chain: Chain,
)
    requires
        p.well_formed(),
        p.windowed(w),
        parent < p.exprs.len(),
        p.exprs[parent as int] is Call,
        p.exprs[parent as int]->Call_0.arguments == list,
        index <= list.len,
        r.locals.len() == p.exprs.len(),
        r.scopes.len() <= usize::MAX,
        0 <= floor,
        forall|k: int| list.start + index <= k < list.start + list.len ==> floor <= w.expr_low[#[trigger] p.lists[k] as int],
        blank(r.locals, floor, parent as int),
        outer_ready(r.scopes),
        models(chain, r.scopes),
    ensures
        ({
            let later = resolve_exprs(p, r, parent, list, index);
            &&& keeps(r, later, floor, parent as int)
            &&& later.errors.len() == r.errors.len() ==> args_ok(
                p,
                later.locals,
                parent,
                list,
                index,
                chain,
            )
        }),
    decreases parent, list.len - index,
{
    if index < list.len {
        lemma_nodes_fit(p);
        let c = p.exprs[parent as int]->Call_0;
        assert(p.expr_fits(p.exprs[parent as int], parent as int));
        assert(p.expr_windowed(w, p.exprs[parent as int], parent as int, w.expr_low[parent as int]));
        let child = p.lists[list.start + index];
        assert(p.item(list, index) == Some(child));
        assert(child < parent);
        assert(floor <= w.expr_low[child as int]);
        assert(p.expr_windowed(w, p.exprs[child as int], child as int, w.expr_low[child as int]));
        lemma_resolve_expr(p, w, r, child, chain);
        let next = resolve_expr(p, r, child);
        assert forall|k: int|
            list.start + index + 1 <= k < list.start + list.len implies child + 1
            <= w.expr_low[#[trigger] p.lists[k] as int] by {
            assert(p.lists[list.start + index] < w.expr_low[p.lists[k] as int]);
        }
        lemma_blank_inside(r.locals, floor, parent as int, child + 1, parent as int);
        lemma_stays_blank(
            r.locals,
            next.locals,
            child + 1,
            parent as int,
            w.expr_low[child as int],
            child + 1,
        );
        lemma_resolve_args(p, w, next, parent, list, (index + 1) as usize, child + 1, chain);
        let later = resolve_exprs(p, next, parent, list, (index + 1) as usize);
        if later.errors.len() == r.errors.len() {
            lemma_expr_local(p, w, next.locals, later.locals, child, chain);
        }
    }
}

/// Resolving a child of an expression: see [`lemma_resolve_expr`].
pub proof fn lemma_resolve_child(
    p: ProgramView,
    w: Windows,
    r: Resolution,
    parent: usize,
    child: usize,
    chain: Chain,
)
    requires
        p.well_formed(),
        p.windowed(w),
        parent < p.exprs.len(),
        child < parent,
        r.locals.len() == p.exprs.len(),
        r.scopes.len() <= usize::MAX,
        blank(r.locals, w.expr_low[child as int], child + 1),
        outer_ready(r.scopes),
        models(chain, r.scopes),
    ensures
        ({
            let later = resolve_child(p, r, parent, child);
            &&& keeps(r, later, w.expr_low[child as int], child + 1)
            &&& later.errors.len() == r.errors.len() ==> child_ok(
                p,
                later.locals,
                parent,
                child,
                chain,
            )
        }),
    decreases parent, 0nat,
{
    lemma_resolve_expr(p, w, r, child, chain);
}

/// Resolving an expression touches the side table in the window of the
/// expression only, leaves the scopes as they are, and, if it finds no
/// error, records only what is true of the chain that stands for the scopes.
pub proof fn lemma_resolve_expr(p: ProgramView, w: Windows, r: Resolution, id: usize, chain: Chain)
    requires
        p.well_formed(),
        p.windowed(w),
        id < p.exprs.len(),
        r.locals.len() == p.exprs.len(),
        r.scopes.len() <= usize::MAX,
        blank(r.locals, w.expr_low[id as int], id + 1),
        outer_ready(r.scopes),
        models(chain, r.scopes),
    ensures
        ({
            let later = resolve_expr(p, r, id);
            &&& keeps(r, later, w.expr_low[id as int], id + 1)
            &&& later.errors.len() == r.errors.len() ==> expr_ok(p, later.locals, id, chain)
        }),
    decreases id, usize::MAX + 1,
{
    lemma_nodes_fit(p);
    let low = w.expr_low[id as int];
    let later = resolve_expr(p, r, id);
    assert(p.expr_fits(p.exprs[id as int], id as int));
    assert(p.expr_windowed(w, p.exprs[id as int], id as int, low));
    match p.exprs[id as int] {
        Expr::Unary(u) => {
            assert(p.expr_windowed(w, p.exprs[u.expr as int], u.expr as int, w.expr_low[u.expr as int]));
            lemma_resolve_child(p, w, r, id, u.expr, chain);
        },
        Expr::Grouping(g) => {
            assert(p.expr_windowed(w, p.exprs[g.expr as int], g.expr as int, w.expr_low[g.expr as int]));
            lemma_resolve_child(p, w, r, id, g.expr, chain);
        },
        Expr::Binary(e) => lemma_resolve_pair(p, w, r, id, e.left, e.right, chain),
        Expr::Logical(e) => lemma_resolve_pair(p, w, r, id, e.left, e.right, chain),
        Expr::Variable(v) => {
            assert(r.locals[id as int] is None);
            lemma_resolve_variable(p, r, id, v.name, chain);
        },
        Expr::Assign(e) => {
            assert(p.expr_windowed(w, p.exprs[e.value as int], e.value as int, w.expr_low[e.value as int]));
            lemma_resolve_child(p, w, r, id, e.value, chain);
            let next = resolve_child(p, r, id, e.value);
            match p.token(e.name) {
                Some(t) => {
                    let last = resolve_local(next, id, t.lexeme);
                    assert(last == later);
                    if later.errors.len() == r.errors.len() {
                        lemma_expr_local(p, w, next.locals, later.locals, e.value, chain);
                    }
                },
                None => {},
            }
        },
        Expr::Call(c) => {
            assert(p.expr_windowed(w, p.exprs[c.callee as int], c.callee as int, w.expr_low[c.callee as int]));
            lemma_resolve_child(p, w, r, id, c.callee, chain);
            let next = resolve_child(p, r, id, c.callee);
            lemma_blank_inside(r.locals, low, id + 1, c.callee + 1, id as int);
            lemma_stays_blank(
                r.locals,
                next.locals,
                c.callee + 1,
                id as int,
                w.expr_low[c.callee as int],
                c.callee + 1,
            );
            lemma_resolve_args(p, w, next, id, c.arguments, 0, c.callee + 1, chain);
            if later.errors.len() == r.errors.len() {
                lemma_expr_local(p, w, next.locals, later.locals, c.callee, chain);
            }
        },
        _ => {},
    }
}

/// Resolving the two operands of an operator: see [`lemma_resolve_expr`].
pub proof fn lemma_resolve_pair(
    p: ProgramView,
    w: Windows,
    r: Resolution,
    id: usize,
    left: usize,
    right: usize,
    chain: Chain,
)
    requires
        p.well_formed(),
        p.windowed(w),
        id < p.exprs.len(),
        left < id,
        right < id,
        w.expr_low[id as int] <= w.expr_low[left as int],
        left < w.expr_low[right as int],
        r.locals.len() == p.exprs.len(),
        r.scopes.len() <= usize::MAX,
        blank(r.locals, w.expr_low[id as int], id + 1),
        outer_ready(r.scopes),
        models(chain, r.scopes),
    ensures
        ({
            let later = resolve_child(p, resolve_child(p, r, id, left), id, right);
            &&& keeps(r, later, w.expr_low[id as int], id + 1)
            &&& later.errors.len() == r.errors.len() ==> child_ok(p, later.locals, id, left, chain)
                && child_ok(p, later.locals, id, right, chain)
        }),
    decreases id, 1nat,
{
    assert(p.expr_windowed(w, p.exprs[left as int], left as int, w.expr_low[left as int]));
    assert(p.expr_windowed(w, p.exprs[right as int], right as int, w.expr_low[right as int]));
    lemma_resolve_child(p, w, r, id, left, chain);
    let next = resolve_child(p, r, id, left);
    lemma_blank_inside(
        r.locals,
        w.expr_low[id as int],
        id + 1,
        w.expr_low[right as int],
        right + 1,
    );
    lemma_stays_blank(
        r.locals,
        next.locals,
        w.expr_low[right as int],
        right + 1,
        w.expr_low[left as int],
        left + 1,
    );
    lemma_resolve_child(p, w, next, id, right, chain);
    let later = resolve_child(p, next, id, right);
    if later.errors.len() == r.errors.len() {
        lemma_expr_local(p, w, next.locals, later.locals, left, chain);
    }
}


/// What is well scoped under a side table is well scoped under every side
/// table that records the same in the window of the statement.
pub proof fn lemma_stmt_local(
    p: ProgramView,
    w: Windows,
    a: Seq<Option<usize>>,
    b: Seq<Option<usize>>,
    id: usize,
    chain: Chain,
)
    requires
        p.well_formed(),
        p.windowed(w),
        id < p.stmts.len(),
        same_inside(a, b, w.stmt_low[id as int], w.stmt_high[id as int]),
        stmt_ok(p, a, id, chain),
    ensures
        stmt_ok(p, b, id, chain),
    decreases id, usize::MAX + 1,
{
    lemma_nodes_fit(p);
    let low = w.stmt_low[id as int];
    let high = w.stmt_high[id as int];
    assert(p.stmt_fits(p.stmts[id as int], id as int));
    assert(p.stmt_windowed(w, p.stmts[id as int], low, high));
    match p.stmts[id as int] {
        Stmt::Expression(e) => lemma_expr_local(p, w, a, b, e.expr, chain),
        Stmt::Print(e) => lemma_expr_local(p, w, a, b, e.expr, chain),
        Stmt::Var(v) => lemma_expr_local(p, w, a, b, v.initializer, chain),
        Stmt::Block(k) => lemma_stmts_local(p, w, a, b, id, k.statements, 0, low, high, chain.push(Set::empty())),
        Stmt::If(i) => {
            assert(p.stmt_windowed(
                w,
                p.stmts[i.then_branch as int],
                w.stmt_low[i.then_branch as int],
                w.stmt_high[i.then_branch as int],
            ));
            lemma_expr_local(p, w, a, b, i.condition, chain);
            lemma_stmt_local(p, w, a, b, i.then_branch, chain);
            match i.else_branch {
                Some(e) => {
                    assert(p.stmt_windowed(
                        w,
                        p.stmts[e as int],
                        w.stmt_low[e as int],
                        w.stmt_high[e as int],
                    ));
                    lemma_stmt_local(p, w, a, b, e, chain);
                },
                None => {},
            }
        },
        Stmt::While(l) => {
            assert(p.stmt_windowed(
                w,
                p.stmts[l.body as int],
                w.stmt_low[l.body as int],
                w.stmt_high[l.body as int],
            ));
            lemma_expr_local(p, w, a, b, l.condition, chain);
            lemma_stmt_local(p, w, a, b, l.body, chain);
        },
        Stmt::Function(f) => lemma_stmts_local(
            p,
            w,
            a,
            b,
            id,
            f.body,
            0,
            low,
            high,
            chain_after(p, id, chain).push(param_names(p, f.params, 0)),
        ),
        Stmt::Return(r) => match r.value {
            Some(e) => lemma_expr_local(p, w, a, b, e, chain),
            None => {},
        },
    }
}

/// The same, for the statements of a list from `index` on.
pub proof fn lemma_stmts_local(
    p: ProgramView,
    w: Windows,
    a: Seq<Option<usize>>,
    b: Seq<Option<usize>>,
    parent: usize,
    list: List,
    index: usize,
    low: int,
    high: int,
    chain: Chain,
)
    requires
        p.well_formed(),
        p.windowed(w),
        parent < p.stmts.len(),
        p.list_below(list, parent as int),
        p.list_windowed(w, list, low, high),
        same_inside(a, b, low, high),
        stmts_ok(p, a, parent, list, index, chain),
    ensures
        stmts_ok(p, b, parent, list, index, chain),
    decreases parent, list.len - index,
{
    if index < list.len {
        let child = p.lists[list.start + index];
        assert(p.item(list, index) == Some(child));
        assert(child < parent);
        assert(low <= w.stmt_low[child as int] && w.stmt_high[child as int] <= high);
        lemma_stmt_local(p, w, a, b, child, chain);
        lemma_stmts_local(
            p,
            w,
            a,
            b,
            parent,
            list,
            (index + 1) as usize,
            low,
            high,
            chain_after(p, child, chain),
        );
    }
}


/// The scopes after the statement `id` has been resolved in `scopes`: if the
/// statement declares a name, the innermost scope has it, complete.
pub open spec fn scopes_after(
    p: ProgramView,
    id: usize,
    scopes: Seq<Map<Seq<char>, bool>>,
) -> Seq<Map<Seq<char>, bool>> {
    match declares(p, id) {
        Some(name) => if scopes.len() > 0 {
            scopes.update(scopes.len() - 1, scopes.last().insert(name, true))
        } else {
            scopes
        },
        None => scopes,
    }
}

/// The expression `x` lies in the window of one of the statements of `list`
/// from `index` on.
pub open spec fn in_rest(p: ProgramView, w: Windows, list: List, index: int, x: int) -> bool
    decreases list.len - index,
{
    if 0 <= index < list.len {
        let child = p.lists[list.start + index];
        (w.stmt_low[child as int] <= x < w.stmt_high[child as int]) || in_rest(
            p,
            w,
            list,
            index + 1,
            x,
        )
    } else {
        false
    }
}

/// What lies in the window of a later statement of a list lies in the
/// window of the list and not in the window of an earlier statement.
pub proof fn lemma_in_rest(p: ProgramView, w: Windows, list: List, index: int, x: int, low: int, high: int)
    requires
        p.list_windowed(w, list, low, high),
        0 <= index,
        in_rest(p, w, list, index, x),
    ensures
        low <= x < high,
        forall|k: int|
            0 <= k < index && k < list.len ==> !(w.stmt_low[#[trigger] p.lists[list.start + k] as int] <= x
                < w.stmt_high[p.lists[list.start + k] as int]),
    decreases list.len - index,
{
    let child = p.lists[list.start + index];
    if w.stmt_low[child as int] <= x < w.stmt_high[child as int] {
        assert forall|k: int| 0 <= k < index && k < list.len implies !(w.stmt_low[#[trigger] p.lists[list.start
            + k] as int] <= x < w.stmt_high[p.lists[list.start + k] as int]) by {
            let i = list.start + k;
            let j = list.start + index;
            assert(w.stmt_high[p.lists[i] as int] <= w.stmt_low[p.lists[j] as int] || w.stmt_high[p.lists[j] as int]
                <= w.stmt_low[p.lists[i] as int]);
        }
    } else {
        lemma_in_rest(p, w, list, index + 1, x, low, high);
    }
}

/// Declaring and defining the parameters of a function enters their names,
/// complete, in the innermost scope, and nothing else.
pub proof fn lemma_resolve_params(p: ProgramView, r: Resolution, params: List, index: usize)
    requires
        r.scopes.len() > 0,
        all_ready(r.scopes),
    ensures
        ({
            let later = resolve_params(p, r, params, index);
            &&& later.scopes.len() == r.scopes.len()
            &&& later.scopes.drop_last() == r.scopes.drop_last()
            &&& later.locals == r.locals
            &&& later.errors == r.errors
            &&& all_ready(later.scopes)
            &&& forall|name: Seq<char>| #[trigger]
                later.scopes.last().contains_key(name) ==> r.scopes.last().contains_key(name)
                    || param_names(p, params, index).contains(name)
        }),
    decreases params.len - index,
{
    if index < params.len {
        let next = match p.item(params, index) {
            Some(name) => enter_token(p, enter_token(p, r, name, false), name, true),
            None => r,
        };
        assert(next.scopes.len() == r.scopes.len());
        assert(next.scopes.drop_last() =~= r.scopes.drop_last());
        assert(all_ready(next.scopes));
        lemma_resolve_params(p, next, params, (index + 1) as usize);
        let later = resolve_params(p, next, params, (index + 1) as usize);
        assert(later.scopes.drop_last() == r.scopes.drop_last());
    } else {
        assert(r.scopes.drop_last() =~= r.scopes.drop_last());
    }
}

/// Resolving the statements of a list from `index` on touches the side
/// table in their windows only, leaves the scopes around the innermost as
/// they are, and, if it finds no error, records only what is true.
pub proof fn lemma_resolve_stmts(
    p: ProgramView,
    w: Windows,
    r: Resolution,
    parent: usize,
    list: List,
    index: usize,
    low: int,
    high: int,
    chain: Chain,
)
    requires
        p.well_formed(),
        p.windowed(w),
        p.branches_plain(),
        parent < p.stmts.len(),
        p.list_below(list, parent as int),
        p.list_windowed(w, list, low, high),
        index <= list.len,
        r.locals.len() == p.exprs.len(),
        r.scopes.len() > 0,
        r.scopes.len() + parent <= usize::MAX,
        forall|x: int| 0 <= x < r.locals.len() && in_rest(p, w, list, index as int, x) ==> #[trigger] r.locals[x] is None,
        all_ready(r.scopes),
        models(chain, r.scopes),
    ensures
        ({
            let later = resolve_stmts(p, r, parent, list, index);
            &&& later.scopes.len() == r.scopes.len()
            &&& later.scopes.drop_last() == r.scopes.drop_last()
            &&& all_ready(later.scopes)
            &&& errs(r, later)
            &&& later.locals.len() == r.locals.len()
            &&& forall|x: int|
                0 <= x < r.locals.len() && !in_rest(p, w, list, index as int, x)
                    ==> #[trigger] later.locals[x] == r.locals[x]
            &&& later.errors.len() == r.errors.len() ==> stmts_ok(
                p,
                later.locals,
                parent,
                list,
                index,
                chain,
            )
        }),
    decreases parent, list.len - index,
{
    if index < list.len {
        let child = p.lists[list.start + index];
        let child_low = w.stmt_low[child as int];
        let child_high = w.stmt_high[child as int];
        assert(p.item(list, index) == Some(child));
        assert(child < parent);
        assert forall|k: int| child_low <= k < child_high && 0 <= k < r.locals.len() implies #[trigger] r.locals[k] is None by {
            assert(in_rest(p, w, list, index as int, k));
        }
        lemma_resolve_stmt(p, w, r, child, chain);
        let next = resolve_stmt(p, r, child);
        assert(next.scopes.len() == r.scopes.len());
        assert(next.scopes.drop_last() =~= r.scopes.drop_last());
        assert forall|x: int|
            0 <= x < next.locals.len() && in_rest(p, w, list, index + 1, x) implies #[trigger] next.locals[x] is None by {
            lemma_in_rest(p, w, list, index + 1, x, low, high);
            assert(!(w.stmt_low[p.lists[list.start + index] as int] <= x < w.stmt_high[p.lists[list.start
                + index] as int]));
            assert(in_rest(p, w, list, index as int, x));
            assert(next.locals[x] == r.locals[x]);
        }
        lemma_resolve_stmts(
            p,
            w,
            next,
            parent,
            list,
            (index + 1) as usize,
            low,
            high,
            chain_after(p, child, chain),
        );
        let later = resolve_stmts(p, next, parent, list, (index + 1) as usize);
        assert(later == resolve_stmts(p, r, parent, list, index));
        assert forall|x: int|
            0 <= x < r.locals.len() && !in_rest(p, w, list, index as int, x) implies #[trigger] later.locals[x]
            == r.locals[x] by {
            assert(!in_rest(p, w, list, index + 1, x));
            assert(next.locals[x] == r.locals[x]);
        }
        if later.errors.len() == r.errors.len() {
            assert forall|k: int|
                0 <= k < next.locals.len() && child_low <= k < child_high implies #[trigger] next.locals[k]
                == later.locals[k] by {
                if in_rest(p, w, list, index + 1, k) {
                    lemma_in_rest(p, w, list, index + 1, k, low, high);
                    assert(!(w.stmt_low[p.lists[list.start + index] as int] <= k
                        < w.stmt_high[p.lists[list.start + index] as int]));
                }
            }
            lemma_stmt_local(p, w, next.locals, later.locals, child, chain);
        }
    } else {
        assert(r.scopes.drop_last() =~= r.scopes.drop_last());
    }
}

/// Resolving a statement touches the side table in the window of the
/// statement only, enters in the scopes what the statement declares, and,
/// if it finds no error, records only what is true of the chain that stands
/// for the scopes.
pub proof fn lemma_resolve_stmt(p: ProgramView, w: Windows, r: Resolution, id: usize, chain: Chain)
    requires
        p.well_formed(),
        p.windowed(w),
        p.branches_plain(),
        id < p.stmts.len(),
        r.locals.len() == p.exprs.len(),
        r.scopes.len() + id < usize::MAX,
        blank(r.locals, w.stmt_low[id as int], w.stmt_high[id as int]),
        all_ready(r.scopes),
        models(chain, r.scopes),
    ensures
        ({
            let later = resolve_stmt(p, r, id);
            &&& later.scopes == scopes_after(p, id, r.scopes)
            &&& same_outside(r.locals, later.locals, w.stmt_low[id as int], w.stmt_high[id as int])
            &&& errs(r, later)
            &&& all_ready(later.scopes)
            &&& models(chain_after(p, id, chain), later.scopes)
            &&& later.errors.len() == r.errors.len() ==> stmt_ok(p, later.locals, id, chain)
        }),
    decreases id, usize::MAX + 2,
{
    lemma_nodes_fit(p);
    let low = w.stmt_low[id as int];
    let high = w.stmt_high[id as int];
    let later = resolve_stmt(p, r, id);
    assert(p.stmt_fits(p.stmts[id as int], id as int));
    assert(p.stmt_windowed(w, p.stmts[id as int], low, high));
    match p.stmts[id as int] {
        Stmt::Expression(e) => {
            lemma_blank_inside(r.locals, low, high, w.expr_low[e.expr as int], e.expr + 1);
            lemma_resolve_expr(p, w, r, e.expr, chain);
        },
        Stmt::Print(e) => {
            lemma_blank_inside(r.locals, low, high, w.expr_low[e.expr as int], e.expr + 1);
            lemma_resolve_expr(p, w, r, e.expr, chain);
        },
        Stmt::Return(e) => {
            match e.value {
                Some(value) => {
                    lemma_blank_inside(r.locals, low, high, w.expr_low[value as int], value + 1);
                    lemma_resolve_expr(p, w, r, value, chain);
                },
                None => {},
            }
        },
        Stmt::Var(v) => {
            let declared = enter_token(p, r, v.name, false);
            let resolved = resolve_expr(p, declared, v.initializer);
            lemma_blank_inside(
                r.locals,
                low,
                high,
                w.expr_low[v.initializer as int],
                v.initializer + 1,
            );
            assert(outer_ready(declared.scopes));
            assert(models(chain, declared.scopes));
            lemma_resolve_expr(p, w, declared, v.initializer, chain);
            assert(later == enter_token(p, resolved, v.name, true));
            assert(later.scopes =~~= scopes_after(p, id, r.scopes));
        },
        Stmt::Block(b) => {
            let opened = begin_scope(r);
            assert(opened.scopes.drop_last() =~= r.scopes);
            assert forall|x: int|
                0 <= x < opened.locals.len() && in_rest(p, w, b.statements, 0, x) implies #[trigger] opened.locals[x] is None by {
                lemma_in_rest(p, w, b.statements, 0, x, low, high);
            }
            lemma_resolve_stmts(
                p,
                w,
                opened,
                id,
                b.statements,
                0,
                low,
                high,
                chain.push(Set::empty()),
            );
            let inside = resolve_stmts(p, opened, id, b.statements, 0);
            assert(later == end_scope(inside));
            assert forall|x: int| 0 <= x < r.locals.len() && !(low <= x < high) implies #[trigger] r.locals[x]
                == later.locals[x] by {
                if in_rest(p, w, b.statements, 0, x) {
                    lemma_in_rest(p, w, b.statements, 0, x, low, high);
                }
            }
        },
        Stmt::If(i) => lemma_resolve_if(p, w, r, id, chain),
        Stmt::While(l) => lemma_resolve_while(p, w, r, id, chain),
        Stmt::Function(f) => lemma_resolve_function(p, w, r, id, chain),
    }
}

/// Resolving a `while` statement: see [`lemma_resolve_stmt`].
pub proof fn lemma_resolve_while(p: ProgramView, w: Windows, r: Resolution, id: usize, chain: Chain)
    requires
        p.well_formed(),
        p.windowed(w),
        p.branches_plain(),
        id < p.stmts.len(),
        p.stmts[id as int] is While,
        r.locals.len() == p.exprs.len(),
        r.scopes.len() + id < usize::MAX,
        blank(r.locals, w.stmt_low[id as int], w.stmt_high[id as int]),
        all_ready(r.scopes),
        models(chain, r.scopes),
    ensures
        ({
            let later = resolve_stmt(p, r, id);
            &&& later.scopes == r.scopes
            &&& same_outside(r.locals, later.locals, w.stmt_low[id as int], w.stmt_high[id as int])
            &&& errs(r, later)
            &&& later.errors.len() == r.errors.len() ==> stmt_ok(p, later.locals, id, chain)
        }),
    decreases id, usize::MAX + 1,
{
    lemma_nodes_fit(p);
    let low = w.stmt_low[id as int];
    let high = w.stmt_high[id as int];
    let l = p.stmts[id as int]->While_0;
    assert(p.stmt_fits(p.stmts[id as int], id as int));
    assert(p.stmt_windowed(w, p.stmts[id as int], low, high));
    let body_low = w.stmt_low[l.body as int];
    let body_high = w.stmt_high[l.body as int];
    assert(p.stmt_windowed(w, p.stmts[l.body as int], body_low, body_high));
    lemma_blank_inside(r.locals, low, high, w.expr_low[l.condition as int], l.condition + 1);
    lemma_resolve_expr(p, w, r, l.condition, chain);
    let first = resolve_expr(p, r, l.condition);
    lemma_blank_inside(r.locals, low, high, body_low, body_high);
    lemma_stays_blank(
        r.locals,
        first.locals,
        body_low,
        body_high,
        w.expr_low[l.condition as int],
        l.condition + 1,
    );
    lemma_resolve_stmt(p, w, first, l.body, chain);
    let later = resolve_stmt(p, first, l.body);
    assert(declares(p, l.body) is None);
    if later.errors.len() == r.errors.len() {
        lemma_expr_local(p, w, first.locals, later.locals, l.condition, chain);
    }
}

/// Resolving an `if` statement: see [`lemma_resolve_stmt`].
pub proof fn lemma_resolve_if(p: ProgramView, w: Windows, r: Resolution, id: usize, chain: Chain)
    requires
        p.well_formed(),
        p.windowed(w),
        p.branches_plain(),
        id < p.stmts.len(),
        p.stmts[id as int] is If,
        r.locals.len() == p.exprs.len(),
        r.scopes.len() + id < usize::MAX,
        blank(r.locals, w.stmt_low[id as int], w.stmt_high[id as int]),
        all_ready(r.scopes),
        models(chain, r.scopes),
    ensures
        ({
            let later = resolve_stmt(p, r, id);
            &&& later.scopes == r.scopes
            &&& same_outside(r.locals, later.locals, w.stmt_low[id as int], w.stmt_high[id as int])
            &&& errs(r, later)
            &&& later.errors.len() == r.errors.len() ==> stmt_ok(p, later.locals, id, chain)
        }),
    decreases id, usize::MAX + 1,
{
    lemma_nodes_fit(p);
    let low = w.stmt_low[id as int];
    let high = w.stmt_high[id as int];
    let i = p.stmts[id as int]->If_0;
    assert(p.stmt_fits(p.stmts[id as int], id as int));
    assert(p.stmt_windowed(w, p.stmts[id as int], low, high));
    let then_low = w.stmt_low[i.then_branch as int];
    let then_high = w.stmt_high[i.then_branch as int];
    assert(p.stmt_windowed(w, p.stmts[i.then_branch as int], then_low, then_high));
    lemma_blank_inside(r.locals, low, high, w.expr_low[i.condition as int], i.condition + 1);
    lemma_resolve_expr(p, w, r, i.condition, chain);
    let first = resolve_expr(p, r, i.condition);
    lemma_blank_inside(r.locals, low, high, then_low, then_high);
    lemma_stays_blank(
        r.locals,
        first.locals,
        then_low,
        then_high,
        w.expr_low[i.condition as int],
        i.condition + 1,
    );
    lemma_resolve_stmt(p, w, first, i.then_branch, chain);
    let second = resolve_stmt(p, first, i.then_branch);
    assert(declares(p, i.then_branch) is None);
    match i.else_branch {
        Some(e) => {
            let else_low = w.stmt_low[e as int];
            let else_high = w.stmt_high[e as int];
            assert(p.stmt_windowed(w, p.stmts[e as int], else_low, else_high));
            lemma_blank_inside(r.locals, low, high, else_low, else_high);
            lemma_stays_blank(
                r.locals,
                first.locals,
                else_low,
                else_high,
                w.expr_low[i.condition as int],
                i.condition + 1,
            );
            lemma_stays_blank(first.locals, second.locals, else_low, else_high, then_low, then_high);
            lemma_resolve_stmt(p, w, second, e, chain);
            let later = resolve_stmt(p, second, e);
            assert(declares(p, e) is None);
            if later.errors.len() == r.errors.len() {
                lemma_expr_local(p, w, first.locals, second.locals, i.condition, chain);
                lemma_expr_local(p, w, second.locals, later.locals, i.condition, chain);
                lemma_stmt_local(p, w, second.locals, later.locals, i.then_branch, chain);
            }
        },
        None => {
            if second.errors.len() == r.errors.len() {
                lemma_expr_local(p, w, first.locals, second.locals, i.condition, chain);
            }
        },
    }
}

/// Resolving a function declaration: see [`lemma_resolve_stmt`].
pub proof fn lemma_resolve_function(p: ProgramView, w: Windows, r: Resolution, id: usize, chain: Chain)
    requires
        p.well_formed(),
        p.windowed(w),
        p.branches_plain(),
        id < p.stmts.len(),
        p.stmts[id as int] is Function,
        r.locals.len() == p.exprs.len(),
        r.scopes.len() + id < usize::MAX,
        blank(r.locals, w.stmt_low[id as int], w.stmt_high[id as int]),
        all_ready(r.scopes),
        models(chain, r.scopes),
    ensures
        ({
            let later = resolve_stmt(p, r, id);
            &&& later.scopes == scopes_after(p, id, r.scopes)
            &&& same_outside(r.locals, later.locals, w.stmt_low[id as int], w.stmt_high[id as int])
            &&& errs(r, later)
            &&& all_ready(later.scopes)
            &&& models(chain_after(p, id, chain), later.scopes)
            &&& later.errors.len() == r.errors.len() ==> stmt_ok(p, later.locals, id, chain)
        }),
    decreases id, usize::MAX + 1,
{
    lemma_nodes_fit(p);
    let low = w.stmt_low[id as int];
    let high = w.stmt_high[id as int];
    let f = p.stmts[id as int]->Function_0;
    assert(p.stmt_fits(p.stmts[id as int], id as int));
    assert(p.stmt_windowed(w, p.stmts[id as int], low, high));
    let named = enter_token(p, enter_token(p, r, f.name, false), f.name, true);
    assert(named.scopes =~~= scopes_after(p, id, r.scopes));
    assert(all_ready(named.scopes));
    let outer = chain_after(p, id, chain);
    assert(models(outer, named.scopes));
    let opened = begin_scope(named);
    assert(opened.scopes.drop_last() =~= named.scopes);
    lemma_resolve_params(p, opened, f.params, 0);
    let inside = resolve_params(p, opened, f.params, 0);
    let inner = outer.push(param_names(p, f.params, 0));
    assert(models(inner, inside.scopes)) by {
        assert forall|k: int, name: Seq<char>|
            0 <= k < inside.scopes.len() && (#[trigger] inside.scopes[k].contains_key(name))
                && inside.scopes[k][name] implies inner[k + 1].contains(name) by {
            if k < inside.scopes.len() - 1 {
                assert(inside.scopes[k] == inside.scopes.drop_last()[k]);
                assert(named.scopes[k] == opened.scopes.drop_last()[k]);
                assert(inside.scopes[k] == named.scopes[k]);
            } else {
                assert(inside.scopes.last().contains_key(name));
                assert(!opened.scopes.last().contains_key(name));
            }
        }
    }
    assert forall|x: int|
        0 <= x < inside.locals.len() && in_rest(p, w, f.body, 0, x) implies #[trigger] inside.locals[x] is None by {
        lemma_in_rest(p, w, f.body, 0, x, low, high);
    }
    lemma_resolve_stmts(p, w, inside, id, f.body, 0, low, high, inner);
    let done = resolve_stmts(p, inside, id, f.body, 0);
    let later = end_scope(done);
    assert(later == resolve_stmt(p, r, id));
    assert(later.scopes =~= named.scopes) by {
        assert(done.scopes.drop_last() == inside.scopes.drop_last());
    }
    assert forall|x: int| 0 <= x < r.locals.len() && !(low <= x < high) implies #[trigger] r.locals[x]
        == later.locals[x] by {
        if in_rest(p, w, f.body, 0, x) {
            lemma_in_rest(p, w, f.body, 0, x, low, high);
        }
    }
}


/// The expression `x` lies in the window of one of the top-level statements
/// from `index` on.
pub open spec fn in_roots(p: ProgramView, w: Windows, index: int, x: int) -> bool
    decreases p.statements.len() - index,
{
    if 0 <= index < p.statements.len() {
        let child = p.statements[index];
        (w.stmt_low[child as int] <= x < w.stmt_high[child as int]) || in_roots(p, w, index + 1, x)
    } else {
        false
    }
}

/// What lies in the window of a later top-level statement does not lie in
/// the window of an earlier one.
pub proof fn lemma_in_roots(p: ProgramView, w: Windows, index: int, x: int)
    requires
        p.windowed(w),
        0 <= index,
        in_roots(p, w, index, x),
    ensures
        forall|k: int|
            0 <= k < index && k < p.statements.len() ==> !(w.stmt_low[#[trigger] p.statements[k] as int] <= x
                < w.stmt_high[p.statements[k] as int]),
    decreases p.statements.len() - index,
{
    let child = p.statements[index];
    if w.stmt_low[child as int] <= x < w.stmt_high[child as int] {
        assert forall|k: int| 0 <= k < index && k < p.statements.len() implies !(w.stmt_low[#[trigger] p.statements[k] as int]
            <= x < w.stmt_high[p.statements[k] as int]) by {
            assert(w.stmt_high[p.statements[k] as int] <= w.stmt_low[p.statements[index] as int]
                || w.stmt_high[p.statements[index] as int] <= w.stmt_low[p.statements[k] as int]);
        }
    } else {
        lemma_in_roots(p, w, index + 1, x);
    }
}

/// Resolving the top-level statements from `index` on: see
/// [`lemma_resolve_stmts`].
pub proof fn lemma_resolve_roots(p: ProgramView, w: Windows, r: Resolution, index: nat, chain: Chain)
    requires
        p.well_formed(),
        p.windowed(w),
        p.branches_plain(),
        p.stmts.len() <= usize::MAX,
        index <= p.statements.len(),
        r.locals.len() == p.exprs.len(),
        r.scopes.len() == 0,
        chain.len() == 1,
        forall|x: int| 0 <= x < r.locals.len() && in_roots(p, w, index as int, x) ==> #[trigger] r.locals[x] is None,
    ensures
        ({
            let later = resolve_from(p, r, index);
            &&& errs(r, later)
            &&& later.locals.len() == r.locals.len()
            &&& forall|x: int|
                0 <= x < r.locals.len() && !in_roots(p, w, index as int, x)
                    ==> #[trigger] later.locals[x] == r.locals[x]
            &&& later.errors.len() == r.errors.len() ==> roots_ok(p, later.locals, index, chain)
        }),
    decreases p.statements.len() - index,
{
    if index < p.statements.len() {
        lemma_nodes_fit(p);
        let child = p.statements[index as int];
        let child_low = w.stmt_low[child as int];
        let child_high = w.stmt_high[child as int];
        assert(child < p.stmts.len());
        assert forall|k: int| child_low <= k < child_high && 0 <= k < r.locals.len() implies #[trigger] r.locals[k] is None by {
            assert(in_roots(p, w, index as int, k));
        }
        lemma_resolve_stmt(p, w, r, child, chain);
        let next = resolve_stmt(p, r, child);
        let after = chain_after(p, child, chain);
        assert(next.scopes.len() == 0);
        assert forall|x: int|
            0 <= x < next.locals.len() && in_roots(p, w, (index + 1) as int, x) implies #[trigger] next.locals[x] is None by {
            lemma_in_roots(p, w, (index + 1) as int, x);
            assert(!(w.stmt_low[p.statements[index as int] as int] <= x
                < w.stmt_high[p.statements[index as int] as int]));
            assert(in_roots(p, w, index as int, x));
            assert(next.locals[x] == r.locals[x]);
        }
        lemma_resolve_roots(p, w, next, index + 1, after);
        let later = resolve_from(p, next, index + 1);
        assert forall|x: int|
            0 <= x < r.locals.len() && !in_roots(p, w, index as int, x) implies #[trigger] later.locals[x]
            == r.locals[x] by {
            assert(!in_roots(p, w, (index + 1) as int, x));
            assert(next.locals[x] == r.locals[x]);
        }
        if later.errors.len() == r.errors.len() {
            assert forall|k: int|
                0 <= k < next.locals.len() && child_low <= k < child_high implies #[trigger] next.locals[k]
                == later.locals[k] by {
                if in_roots(p, w, (index + 1) as int, k) {
                    lemma_in_roots(p, w, (index + 1) as int, k);
                    assert(!(w.stmt_low[p.statements[index as int] as int] <= k
                        < w.stmt_high[p.statements[index as int] as int]));
                }
            }
            lemma_stmt_local(p, w, next.locals, later.locals, child, chain);
        }
    }
}

/// The resolver's findings are true. If a well-formed tree, in which no
/// branch or loop body is a declaration, resolves without error, then it is
/// well scoped under the side table that the resolver made, whatever the
/// global scope binds.
pub proof fn lemma_resolved_is_scoped(p: ProgramView, global: Set<Seq<char>>)
    requires
        p.well_formed(),
        p.is_tree(),
        p.branches_plain(),
        p.stmts.len() <= usize::MAX,
        resolve_program(p).errors.len() == 0,
    ensures
        roots_ok(p, resolve_program(p).locals, 0, seq![global]),
{
    let w = choose|w: Windows| p.windowed(w);
    let r = unresolved(p);
    lemma_resolve_roots(p, w, r, 0, seq![global]);
}

} // verus!
