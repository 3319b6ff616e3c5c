//! The syntax tree of a program, kept in flat arrays.

use crate::expr::{Expr, LiteralKind};
use crate::stmt::Stmt;
use crate::token::{token_views, Token, TokenView};
use vstd::prelude::*;

verus! {

/// A run of `len` consecutive entries of a program's `lists` array, starting
/// at `start`: the children of one node, in order.
#[derive(Clone, Copy, Debug, PartialEq, Eq, Structural)]
pub struct List {
    pub start: usize,
    pub len: usize,
}

/// A parsed program.
///
/// `statements` names the top-level statements in order. Every other index
/// held by a node refers to `exprs`, `stmts`, `tokens` or, through a
/// [`List`], to `lists`.
pub struct Program {
    pub tokens: Vec<Token>,
    pub exprs: Vec<Expr>,
    pub stmts: Vec<Stmt>,
    pub lists: Vec<usize>,
    pub statements: Vec<usize>,
}

/// The mathematical content of a [`Program`].
pub struct ProgramView {
    pub tokens: Seq<TokenView>,
    pub exprs: Seq<Expr>,
    pub stmts: Seq<Stmt>,
    pub lists: Seq<usize>,
    pub statements: Seq<usize>,
}

impl View for Program {
    type V = ProgramView;

    open spec fn view(&self) -> ProgramView {
        ProgramView {
            tokens: token_views(self.tokens@),
            exprs: self.exprs@,
            stmts: self.stmts@,
            lists: self.lists@,
            statements: self.statements@,
        }
    }
}

impl ProgramView {
    pub open spec fn expr(self, id: usize) -> Option<Expr> {
        if id < self.exprs.len() {
            Some(self.exprs[id as int])
        } else {
            None
        }
    }

    pub open spec fn stmt(self, id: usize) -> Option<Stmt> {
        if id < self.stmts.len() {
            Some(self.stmts[id as int])
        } else {
            None
        }
    }

    pub open spec fn item(self, list: List, index: usize) -> Option<usize> {
        if index < list.len && list.start + index < self.lists.len() {
            Some(self.lists[list.start + index])
        } else {
            None
        }
    }

    pub open spec fn token(self, index: usize) -> Option<TokenView> {
        if index < self.tokens.len() {
            Some(self.tokens[index as int])
        } else {
            None
        }
    }

    /// `list` lies within the `lists` array and each of its entries is less
    /// than `bound`.
    pub open spec fn list_below(self, list: List, bound: int) -> bool {
        &&& list.start + list.len <= self.lists.len()
        &&& forall|k: int|
            list.start <= k < list.start + list.len ==> #[trigger] self.lists[k] < bound
    }

    /// The expression `e` may stand at index `id`: its tokens exist and its
    /// children stand before it.
    pub open spec fn expr_fits(self, e: Expr, id: int) -> bool {
        match e {
            Expr::Literal(l) => match l.value {
                LiteralKind::String(t) => t < self.tokens.len(),
                LiteralKind::Num(t) => t < self.tokens.len(),
                _ => true,
            },
            Expr::Unary(u) => u.operator < self.tokens.len() && u.expr < id,
            Expr::Binary(b) => b.operator < self.tokens.len() && b.left < id && b.right < id,
            Expr::Grouping(g) => g.expr < id,
            Expr::NoOp(_) => true,
            Expr::Variable(v) => v.name < self.tokens.len(),
            Expr::Assign(a) => a.name < self.tokens.len() && a.value < id,
            Expr::Logical(l) => l.operator < self.tokens.len() && l.left < id && l.right < id,
            Expr::Call(c) => c.paren < self.tokens.len() && c.callee < id && self.list_below(
                c.arguments,
                id,
            ),
        }
    }

    /// The statement `s` may stand at index `id`: its tokens and expressions
    /// exist and the statements in it stand before it.
    pub open spec fn stmt_fits(self, s: Stmt, id: int) -> bool {
        match s {
            Stmt::Expression(e) => e.expr < self.exprs.len(),
            Stmt::Print(p) => p.expr < self.exprs.len(),
            Stmt::Var(v) => v.name < self.tokens.len() && v.initializer < self.exprs.len(),
            Stmt::Block(b) => self.list_below(b.statements, id),
            Stmt::If(i) => i.condition < self.exprs.len() && i.then_branch < id && (
            i.else_branch matches Some(e) ==> e < id),
            Stmt::While(w) => w.condition < self.exprs.len() && w.body < id,
            Stmt::Function(f) => f.name < self.tokens.len() && self.list_below(
                f.params,
                self.tokens.len() as int,
            ) && self.list_below(f.body, id),
            Stmt::Return(r) => r.keyword < self.tokens.len() && (r.value matches Some(e) ==> e
                < self.exprs.len()),
        }
    }

    /// Every index in the program names something, and every node stands
    /// after the nodes it is made of.
    #[verifier::opaque]
    pub open spec fn well_formed(self) -> bool {
        &&& forall|i: int|
            0 <= i < self.exprs.len() ==> self.expr_fits(#[trigger] self.exprs[i], i)
        &&& forall|j: int|
            0 <= j < self.stmts.len() ==> self.stmt_fits(#[trigger] self.stmts[j], j)
        &&& forall|k: int|
            0 <= k < self.statements.len() ==> #[trigger] self.statements[k] < self.stmts.len()
    }

    /// `later` has everything that this program has, at the same places.
    pub open spec fn grows_to(self, later: ProgramView) -> bool {
        &&& later.tokens == self.tokens
        &&& self.exprs.len() <= later.exprs.len()
        &&& self.stmts.len() <= later.stmts.len()
        &&& self.lists.len() <= later.lists.len()
        &&& forall|k: int| 0 <= k < self.lists.len() ==> #[trigger] later.lists[k] == self.lists[k]
    }
}

/// Where the expressions of each node's subtree stand among the expressions
/// of the program: those of expression `i` from `expr_low[i]` up to `i`,
/// those of statement `j` from `stmt_low[j]` up to, but not including,
/// `stmt_high[j]`.
pub struct Windows {
    pub expr_low: Seq<int>,
    pub stmt_low: Seq<int>,
    pub stmt_high: Seq<int>,
}

impl ProgramView {
    /// The windows of the statements of `list` lie in the window from `low`
    /// to `high`, and no two of them overlap.
    pub open spec fn list_windowed(self, w: Windows, list: List, low: int, high: int) -> bool {
        &&& forall|k: int|
            list.start <= k < list.start + list.len ==> {
                &&& low <= w.stmt_low[#[trigger] self.lists[k] as int]
                &&& w.stmt_high[self.lists[k] as int] <= high
            }
        &&& forall|i: int, j: int|
            list.start <= i < list.start + list.len && list.start <= j < list.start + list.len && i
                != j ==> {
                ||| w.stmt_high[#[trigger] self.lists[i] as int] <= w.stmt_low[#[trigger] self.lists[j] as int]
                ||| w.stmt_high[self.lists[j] as int] <= w.stmt_low[self.lists[i] as int]
            }
    }

    /// The expression `e`, which stands at index `id`, has the window that
    /// starts at `low`: the windows of its children lie in it, one after
    /// the other.
    pub open spec fn expr_windowed(self, w: Windows, e: Expr, id: int, low: int) -> bool {
        &&& 0 <= low <= id
        &&& match e {
            Expr::Unary(u) => low <= w.expr_low[u.expr as int],
            Expr::Binary(b) => low <= w.expr_low[b.left as int] && b.left < w.expr_low[b.right as int],
            Expr::Grouping(g) => low <= w.expr_low[g.expr as int],
            Expr::Assign(a) => low <= w.expr_low[a.value as int],
            Expr::Logical(l) => low <= w.expr_low[l.left as int] && l.left < w.expr_low[l.right as int],
            Expr::Call(c) => {
                &&& low <= w.expr_low[c.callee as int]
                &&& forall|k: int|
                    c.arguments.start <= k < c.arguments.start + c.arguments.len ==> c.callee
                        < w.expr_low[#[trigger] self.lists[k] as int]
                &&& forall|i: int, j: int|
                    c.arguments.start <= i < j < c.arguments.start + c.arguments.len
                        ==> #[trigger] self.lists[i] < w.expr_low[#[trigger] self.lists[j] as int]
            },
            _ => true,
        }
    }

    /// The statement `s`, which stands at index `id`, has the window from
    /// `low` to `high`: the windows of its expressions and of the
    /// statements in it lie in it, and no two of them overlap.
    pub open spec fn stmt_windowed(self, w: Windows, s: Stmt, low: int, high: int) -> bool {
        &&& 0 <= low <= high <= self.exprs.len()
        &&& match s {
            Stmt::Expression(e) => low <= w.expr_low[e.expr as int] && e.expr < high,
            Stmt::Print(e) => low <= w.expr_low[e.expr as int] && e.expr < high,
            Stmt::Var(v) => low <= w.expr_low[v.initializer as int] && v.initializer < high,
            Stmt::Block(b) => self.list_windowed(w, b.statements, low, high),
            Stmt::If(i) => {
                &&& low <= w.expr_low[i.condition as int]
                &&& i.condition < w.stmt_low[i.then_branch as int]
                &&& w.stmt_high[i.then_branch as int] <= high
                &&& i.else_branch matches Some(e) ==> w.stmt_high[i.then_branch as int]
                    <= w.stmt_low[e as int] && w.stmt_high[e as int] <= high
            },
            Stmt::While(l) => {
                &&& low <= w.expr_low[l.condition as int]
                &&& l.condition < w.stmt_low[l.body as int]
                &&& w.stmt_high[l.body as int] <= high
            },
            Stmt::Function(f) => self.list_windowed(w, f.body, low, high),
            Stmt::Return(r) => r.value matches Some(e) ==> low <= w.expr_low[e as int] && e < high,
        }
    }

    /// `w` gives every node of the program a window.
    pub open spec fn windowed(self, w: Windows) -> bool {
        &&& w.expr_low.len() == self.exprs.len()
        &&& w.stmt_low.len() == self.stmts.len()
        &&& w.stmt_high.len() == self.stmts.len()
        &&& forall|i: int|
            0 <= i < self.exprs.len() ==> self.expr_windowed(
                w,
                #[trigger] self.exprs[i],
                i,
                w.expr_low[i],
            )
        &&& forall|j: int|
            0 <= j < self.stmts.len() ==> self.stmt_windowed(
                w,
                #[trigger] self.stmts[j],
                w.stmt_low[j],
                w.stmt_high[j],
            )
        &&& forall|i: int, j: int|
            0 <= i < self.statements.len() && 0 <= j < self.statements.len() && i != j ==> {
                ||| w.stmt_high[#[trigger] self.statements[i] as int] <= w.stmt_low[#[trigger] self.statements[j] as int]
                ||| w.stmt_high[self.statements[j] as int] <= w.stmt_low[self.statements[i] as int]
            }
    }

    /// The statement `id` declares nothing in the scope it runs in.
    pub open spec fn plain(self, id: usize) -> bool {
        match self.stmt(id) {
            Some(Stmt::Var(_)) => false,
            Some(Stmt::Function(_)) => false,
            _ => true,
        }
    }

    /// The branches of every `if` and the body of every `while` are
    /// statements that declare nothing, as the grammar has it.
    pub open spec fn branches_plain(self) -> bool {
        forall|j: int|
            0 <= j < self.stmts.len() ==> match #[trigger] self.stmts[j] {
                Stmt::If(i) => self.plain(i.then_branch) && (i.else_branch matches Some(e)
                    ==> self.plain(e)),
                Stmt::While(l) => self.plain(l.body),
                _ => true,
            }
    }

    /// The program is a tree: no expression belongs to two nodes.
    pub open spec fn is_tree(self) -> bool {
        exists|w: Windows| self.windowed(w)
    }

    /// `w` gives every node a window, and the branches of every `if` and the
    /// body of every `while` declare nothing.
    #[verifier::opaque]
    pub open spec fn tidy(self, w: Windows) -> bool {
        self.windowed(w) && self.branches_plain()
    }

    /// The statement `s` has no branch or loop body that declares a name.
    pub open spec fn stmt_plain(self, s: Stmt) -> bool {
        match s {
            Stmt::If(i) => self.plain(i.then_branch) && (i.else_branch matches Some(e)
                ==> self.plain(e)),
            Stmt::While(l) => self.plain(l.body),
            _ => true,
        }
    }
}

/// A tidy program is a tree in which no branch or loop body is a
/// declaration.
pub proof fn lemma_tidy_is_tree(p: ProgramView, w: Windows)
    requires
        p.tidy(w),
    ensures
        p.windowed(w),
        p.is_tree(),
        p.branches_plain(),
{
    reveal(ProgramView::tidy);
}

/// A program with no nodes is tidy.
pub proof fn lemma_empty_is_tidy(p: ProgramView, w: Windows)
    requires
        p.exprs.len() == 0,
        p.stmts.len() == 0,
        p.statements.len() == 0,
        w.expr_low.len() == 0,
        w.stmt_low.len() == 0,
        w.stmt_high.len() == 0,
    ensures
        p.tidy(w),
{
    reveal(ProgramView::tidy);
}

/// `v` gives the nodes of `p` the windows that `w` gives them.
pub open spec fn keeps_windows(p: ProgramView, w: Windows, v: Windows) -> bool {
    &&& w.expr_low.len() == p.exprs.len()
    &&& w.stmt_low.len() == p.stmts.len()
    &&& w.stmt_high.len() == p.stmts.len()
    &&& v.expr_low.len() >= w.expr_low.len()
    &&& v.stmt_low.len() >= w.stmt_low.len()
    &&& v.stmt_high.len() >= w.stmt_high.len()
    &&& forall|i: int| 0 <= i < w.expr_low.len() ==> #[trigger] v.expr_low[i] == w.expr_low[i]
    &&& forall|j: int| 0 <= j < w.stmt_low.len() ==> #[trigger] v.stmt_low[j] == w.stmt_low[j]
    &&& forall|j: int| 0 <= j < w.stmt_high.len() ==> #[trigger] v.stmt_high[j] == w.stmt_high[j]
}

/// A node that has its window in a program has it in every program that
/// the program grows to, under windows that keep those of the program.
pub proof fn lemma_windowed_later(p: ProgramView, q: ProgramView, w: Windows, v: Windows)
    requires
        p.grows_to(q),
        keeps_windows(p, w, v),
    ensures
        forall|e: Expr, id: int, low: int|
            id <= p.exprs.len() && p.expr_fits(e, id) && #[trigger] p.expr_windowed(w, e, id, low)
                ==> q.expr_windowed(v, e, id, low),
        forall|s: Stmt, id: int, low: int, high: int|
            id <= p.stmts.len() && #[trigger] p.stmt_fits(s, id) && #[trigger] p.stmt_windowed(w, s, low, high)
                ==> q.stmt_windowed(v, s, low, high),
        forall|list: List, bound: int, low: int, high: int|
            bound <= p.stmts.len() && #[trigger] p.list_below(list, bound) && #[trigger] p.list_windowed(
                w,
                list,
                low,
                high,
            ) ==> q.list_windowed(v, list, low, high),
{
    assert forall|list: List, bound: int, low: int, high: int|
        bound <= p.stmts.len() && #[trigger] p.list_below(list, bound) && #[trigger] p.list_windowed(
            w,
            list,
            low,
            high,
        ) implies q.list_windowed(v, list, low, high) by {
        assert forall|k: int| list.start <= k < list.start + list.len implies {
            &&& low <= v.stmt_low[#[trigger] q.lists[k] as int]
            &&& v.stmt_high[q.lists[k] as int] <= high
        } by {
            assert(q.lists[k] == p.lists[k]);
            assert(p.lists[k] < bound);
            assert(v.stmt_low[p.lists[k] as int] == w.stmt_low[p.lists[k] as int]);
            assert(v.stmt_high[p.lists[k] as int] == w.stmt_high[p.lists[k] as int]);
        }
        assert forall|i: int, j: int|
            list.start <= i < list.start + list.len && list.start <= j < list.start + list.len && i
                != j implies {
            ||| v.stmt_high[#[trigger] q.lists[i] as int] <= v.stmt_low[#[trigger] q.lists[j] as int]
            ||| v.stmt_high[q.lists[j] as int] <= v.stmt_low[q.lists[i] as int]
        } by {
            assert(q.lists[i] == p.lists[i] && q.lists[j] == p.lists[j]);
            assert(p.lists[i] < bound && p.lists[j] < bound);
            assert(v.stmt_low[p.lists[i] as int] == w.stmt_low[p.lists[i] as int]);
            assert(v.stmt_high[p.lists[i] as int] == w.stmt_high[p.lists[i] as int]);
            assert(v.stmt_low[p.lists[j] as int] == w.stmt_low[p.lists[j] as int]);
            assert(v.stmt_high[p.lists[j] as int] == w.stmt_high[p.lists[j] as int]);
        }
    }
    assert forall|e: Expr, id: int, low: int|
        id <= p.exprs.len() && p.expr_fits(e, id) && #[trigger] p.expr_windowed(w, e, id, low) implies q.expr_windowed(
        v,
        e,
        id,
        low,
    ) by {
        match e {
            Expr::Call(c) => {
                assert forall|k: int|
                    c.arguments.start <= k < c.arguments.start + c.arguments.len implies c.callee
                    < v.expr_low[#[trigger] q.lists[k] as int] by {
                    assert(q.lists[k] == p.lists[k]);
                    assert(p.lists[k] < id);
                    assert(v.expr_low[p.lists[k] as int] == w.expr_low[p.lists[k] as int]);
                }
                assert forall|i: int, j: int|
                    c.arguments.start <= i < j < c.arguments.start + c.arguments.len implies #[trigger] q.lists[i]
                    < v.expr_low[#[trigger] q.lists[j] as int] by {
                    assert(q.lists[i] == p.lists[i] && q.lists[j] == p.lists[j]);
                    assert(p.lists[j] < id);
                    assert(v.expr_low[p.lists[j] as int] == w.expr_low[p.lists[j] as int]);
                }
            },
            _ => {},
        }
    }
    assert forall|s: Stmt, id: int, low: int, high: int|
        id <= p.stmts.len() && #[trigger] p.stmt_fits(s, id) && #[trigger] p.stmt_windowed(w, s, low, high) implies q.stmt_windowed(
        v,
        s,
        low,
        high,
    ) by {
        match s {
            Stmt::Block(b) => {
                assert(p.list_below(b.statements, id) && p.list_windowed(w, b.statements, low, high));
            },
            Stmt::Function(f) => {
                assert(p.list_below(f.body, id) && p.list_windowed(w, f.body, low, high));
            },
            _ => {},
        }
    }
}

/// A tidy program stays tidy when it grows by nodes that have their windows
/// and by top-level statements whose windows follow one another.
pub proof fn lemma_growth_is_tidy(p: ProgramView, q: ProgramView, w: Windows, v: Windows)
    requires
        p.well_formed(),
        q.well_formed(),
        p.tidy(w),
        p.grows_to(q),
        keeps_windows(p, w, v),
        v.expr_low.len() == q.exprs.len(),
        v.stmt_low.len() == q.stmts.len(),
        v.stmt_high.len() == q.stmts.len(),
        forall|i: int| 0 <= i < p.exprs.len() ==> q.exprs[i] == p.exprs[i],
        forall|j: int| 0 <= j < p.stmts.len() ==> q.stmts[j] == p.stmts[j],
        forall|i: int|
            p.exprs.len() <= i < q.exprs.len() ==> q.expr_windowed(
                v,
                #[trigger] q.exprs[i],
                i,
                v.expr_low[i],
            ),
        forall|j: int|
            p.stmts.len() <= j < q.stmts.len() ==> q.stmt_windowed(
                v,
                #[trigger] q.stmts[j],
                v.stmt_low[j],
                v.stmt_high[j],
            ) && q.stmt_plain(q.stmts[j]),
        forall|i: int, j: int|
            0 <= i < q.statements.len() && 0 <= j < q.statements.len() && i != j ==> {
                ||| v.stmt_high[#[trigger] q.statements[i] as int] <= v.stmt_low[#[trigger] q.statements[j] as int]
                ||| v.stmt_high[q.statements[j] as int] <= v.stmt_low[q.statements[i] as int]
            },
    ensures
        q.tidy(v),
{
    reveal(ProgramView::tidy);
    lemma_nodes_fit(p);
    lemma_windowed_later(p, q, w, v);
    assert forall|i: int| 0 <= i < q.exprs.len() implies q.expr_windowed(
        v,
        #[trigger] q.exprs[i],
        i,
        v.expr_low[i],
    ) by {
        if i < p.exprs.len() {
            assert(p.expr_fits(p.exprs[i], i));
            assert(p.expr_windowed(w, p.exprs[i], i, w.expr_low[i]));
        }
    }
    assert forall|j: int| 0 <= j < q.stmts.len() implies q.stmt_windowed(
        v,
        #[trigger] q.stmts[j],
        v.stmt_low[j],
        v.stmt_high[j],
    ) by {
        if j < p.stmts.len() {
            assert(p.stmt_fits(p.stmts[j], j));
            assert(p.stmt_windowed(w, p.stmts[j], w.stmt_low[j], w.stmt_high[j]));
        }
    }
    assert forall|j: int| 0 <= j < q.stmts.len() implies match #[trigger] q.stmts[j] {
        Stmt::If(i) => q.plain(i.then_branch) && (i.else_branch matches Some(e) ==> q.plain(e)),
        Stmt::While(l) => q.plain(l.body),
        _ => true,
    } by {
        if j < p.stmts.len() {
            assert(p.stmt_fits(p.stmts[j], j));
            match p.stmts[j] {
                Stmt::If(i) => {
                    assert(q.stmts[i.then_branch as int] == p.stmts[i.then_branch as int]);
                    match i.else_branch {
                        Some(e) => {
                            assert(q.stmts[e as int] == p.stmts[e as int]);
                        },
                        None => {},
                    }
                },
                Stmt::While(l) => {
                    assert(q.stmts[l.body as int] == p.stmts[l.body as int]);
                },
                _ => {},
            }
        } else {
            assert(q.stmt_plain(q.stmts[j]));
        }
    }
}

/// A node that fits a program fits every program that the program grows to.
pub proof fn lemma_fits_later(p: ProgramView, q: ProgramView)
    requires
        p.grows_to(q),
    ensures
        forall|list: List, bound: int| #[trigger] p.list_below(list, bound) ==> q.list_below(list, bound),
        forall|e: Expr, id: int| #[trigger] p.expr_fits(e, id) ==> q.expr_fits(e, id),
        forall|s: Stmt, id: int| #[trigger] p.stmt_fits(s, id) ==> q.stmt_fits(s, id),
{
    assert forall|list: List, bound: int| #[trigger] p.list_below(list, bound) implies q.list_below(
        list,
        bound,
    ) by {
        assert forall|k: int| list.start <= k < list.start + list.len implies #[trigger] q.lists[k]
            < bound by {
            assert(p.lists[k] < bound);
        }
    }
}

/// In a well-formed program every node fits where it stands.
pub proof fn lemma_nodes_fit(p: ProgramView)
    requires
        p.well_formed(),
    ensures
        forall|i: int| 0 <= i < p.exprs.len() ==> p.expr_fits(#[trigger] p.exprs[i], i),
        forall|j: int| 0 <= j < p.stmts.len() ==> p.stmt_fits(#[trigger] p.stmts[j], j),
        forall|k: int| 0 <= k < p.statements.len() ==> #[trigger] p.statements[k] < p.stmts.len(),
{
    reveal(ProgramView::well_formed);
}

/// A program with no nodes is well formed.
pub proof fn lemma_empty_is_well_formed(p: ProgramView)
    requires
        p.exprs.len() == 0,
        p.stmts.len() == 0,
        p.statements.len() == 0,
    ensures
        p.well_formed(),
{
    reveal(ProgramView::well_formed);
}

/// A well-formed program stays well formed when it grows by nodes that fit,
/// by lists, and by top-level statements that exist.
pub proof fn lemma_growth_is_well_formed(p: ProgramView, q: ProgramView)
    requires
        p.well_formed(),
        p.grows_to(q),
        forall|i: int| 0 <= i < p.exprs.len() ==> q.exprs[i] == p.exprs[i],
        forall|j: int| 0 <= j < p.stmts.len() ==> q.stmts[j] == p.stmts[j],
        forall|i: int| p.exprs.len() <= i < q.exprs.len() ==> q.expr_fits(#[trigger] q.exprs[i], i),
        forall|j: int| p.stmts.len() <= j < q.stmts.len() ==> q.stmt_fits(#[trigger] q.stmts[j], j),
        forall|k: int| 0 <= k < q.statements.len() ==> #[trigger] q.statements[k] < q.stmts.len(),
    ensures
        q.well_formed(),
{
    reveal(ProgramView::well_formed);
    lemma_fits_later(p, q);
    assert forall|i: int| 0 <= i < q.exprs.len() implies q.expr_fits(#[trigger] q.exprs[i], i) by {
        if i < p.exprs.len() {
            assert(p.expr_fits(p.exprs[i], i));
        }
    }
    assert forall|j: int| 0 <= j < q.stmts.len() implies q.stmt_fits(#[trigger] q.stmts[j], j) by {
        if j < p.stmts.len() {
            assert(p.stmt_fits(p.stmts[j], j));
        }
    }
}

impl Program {
    /// The expression with index `id`, if there is one.
    pub open spec fn spec_expr(&self, id: usize) -> Option<Expr> {
        if id < self.exprs@.len() {
            Some(self.exprs@[id as int])
        } else {
            None
        }
    }

    /// The statement with index `id`, if there is one.
    pub open spec fn spec_stmt(&self, id: usize) -> Option<Stmt> {
        if id < self.stmts@.len() {
            Some(self.stmts@[id as int])
        } else {
            None
        }
    }

    /// The `index`-th entry of `list`, if the list has one and it lies in
    /// the `lists` array.
    pub open spec fn spec_item(&self, list: List, index: usize) -> Option<usize> {
        if index < list.len && list.start + index < self.lists@.len() {
            Some(self.lists@[list.start + index])
        } else {
            None
        }
    }

    /// Token `index`, if there is one.
    pub fn token(&self, index: usize) -> (r: Option<&Token>)
        ensures
            match r {
                Some(t) => self@.token(index) == Some(t@) && index < self.tokens@.len() && *t
                    == self.tokens@[index as int],
                None => self@.token(index) is None,
            },
    {
        if index < self.tokens.len() {
            Some(&self.tokens[index])
        } else {
            None
        }
    }

    #[verifier::when_used_as_spec(spec_expr)]
    pub fn expr(&self, id: usize) -> (r: Option<Expr>)
        ensures
            r == self.spec_expr(id),
    {
        if id < self.exprs.len() {
            Some(self.exprs[id])
        } else {
            None
        }
    }

    #[verifier::when_used_as_spec(spec_stmt)]
    pub fn stmt(&self, id: usize) -> (r: Option<Stmt>)
        ensures
            r == self.spec_stmt(id),
    {
        if id < self.stmts.len() {
            Some(self.stmts[id])
        } else {
            None
        }
    }

    #[verifier::when_used_as_spec(spec_item)]
    pub fn item(&self, list: List, index: usize) -> (r: Option<usize>)
        ensures
            r == self.spec_item(list, index),
    {
        if index < list.len && list.start < self.lists.len() && index < self.lists.len()
            - list.start {
            Some(self.lists[list.start + index])
        } else {
            None
        }
    }
}

} // verus!
