//! The agreement of evaluation with static scoping.
//!
//! [`agrees`] is an invariant of the machine: every piece of program that is
//! pending, in a frame, in a closure or as the node being evaluated, is well
//! scoped in the chain of scopes it will run in. The invariant holds when a
//! well-scoped program is loaded and is kept by every step. Under it, the
//! read of a resolved variable finds the variable in the scope that the
//! resolver's depth leads to.

use crate::ast::{lemma_nodes_fit, List, ProgramView};
use crate::environment::{
    ancestor, defined, holder, lemma_assignment_keeps_names, lemma_holder_binds, Scope,
};
use crate::expr::{Call, Expr};
use crate::lox_object::{FunctionObject, LoxObject};
use crate::machine::{
    apply_binary, apply_unary, bind_parameters, eval_block, eval_expr, eval_function,
    eval_literal, eval_stmt, eval_variable, expr_at, finish_assign, finish_logical, invoke, load,
    next_argument, resume_normal, resume_returning, resume_value, step, stmt_at, supply, Control,
    Evalable, Frame, State, Unit,
};
use crate::resolution::lemma_resolved_is_scoped;
use crate::resolver::resolve_program;
use crate::scoping::{
    args_ok, chain_after, covers, declares, expr_ok, lemma_after_wider, lemma_covers_grows,
    lemma_expr_wider, lemma_roots_wider, lemma_stmt_wider, lemma_stmts_wider, param_names,
    roots_ok, stmt_ok, stmts_ok, with_name, Chain,
};
use crate::stmt::{Block, Function, Stmt};
use vstd::prelude::*;

verus! {

/// The names bound by `scope` and by the scopes around it, innermost last.
pub open spec fn chain_of(scopes: Seq<Scope>, scope: usize) -> Chain
    decreases scope,
{
    if scope >= scopes.len() {
        Seq::empty()
    } else {
        let names = scopes[scope as int].values.dom();
        match scopes[scope as int].enclosing {
            Some(outer) => if outer < scope {
                chain_of(scopes, outer).push(names)
            } else {
                seq![names]
            },
            None => seq![names],
        }
    }
}

/// Every scope is enclosed by a scope that was made before it.
pub open spec fn linked(scopes: Seq<Scope>) -> bool {
    forall|i: int|
        0 <= i < scopes.len() ==> ((#[trigger] scopes[i]).enclosing matches Some(outer) ==> outer < i)
}

/// `later` has the units and the scopes of `s`, and each scope binds at
/// least the names it bound.
pub open spec fn grows(s: State, later: State) -> bool {
    &&& s.units.len() <= later.units.len()
    &&& forall|u: int| 0 <= u < s.units.len() ==> #[trigger] later.units[u] == s.units[u]
    &&& s.scopes.len() <= later.scopes.len()
    &&& forall|i: int|
        0 <= i < s.scopes.len() ==> (#[trigger] later.scopes[i]).enclosing == s.scopes[i].enclosing
            && s.scopes[i].values.dom().subset_of(later.scopes[i].values.dom())
}

/// The program of unit `unit`.
pub open spec fn program(s: State, unit: usize) -> ProgramView {
    s.units[unit as int].program@
}

/// The side table of unit `unit`.
pub open spec fn locals(s: State, unit: usize) -> Seq<Option<usize>> {
    s.units[unit as int].locals@
}

/// The body of the closure `f` is well scoped in the scope of a call.
pub open spec fn closure_ok(s: State, f: FunctionObject) -> bool {
    &&& f.unit < s.units.len()
    &&& f.environment < s.scopes.len()
    &&& match s.declaration(f) {
        Some(d) => {
            &&& f.arity == d.params.len
            &&& stmts_ok(
                program(s, f.unit),
                locals(s, f.unit),
                f.declaration,
                d.body,
                0,
                chain_of(s.scopes, f.environment).push(
                    param_names(program(s, f.unit), d.params, 0),
                ),
            )
        },
        None => false,
    }
}

pub open spec fn value_ok(s: State, value: LoxObject) -> bool {
    value matches LoxObject::Function(f) ==> closure_ok(s, f)
}

/// Every closure on the operand stack and in the scopes is well scoped.
pub open spec fn values_ok(s: State) -> bool {
    &&& forall|k: int| 0 <= k < s.values.len() ==> value_ok(s, #[trigger] s.values[k])
    &&& forall|i: int, name: Seq<char>|
        0 <= i < s.scopes.len() && s.scopes[i].values.dom().contains(name) ==> value_ok(
            s,
            #[trigger] s.scopes[i].values[name],
        )
}

/// How the declaration of the statement that a list of statements is at is
/// known to be made: it has been made; or the frame above will make it; or
/// the statement is about to run.
pub enum Pending {
    Settled,
    Above(Frame),
    Now(Control),
}

/// The name that the statement `prev`, which runs in `scope`, declares is
/// bound there, or is about to be.
pub open spec fn delivered(s: State, p: ProgramView, prev: usize, scope: usize, how: Pending) -> bool {
    match declares(p, prev) {
        Some(name) => {
            ||| s.scopes[scope as int].values.dom().contains(name)
            ||| how == Pending::Above(Frame::Define(prev))
            ||| how == Pending::Now(Control::Eval(Evalable::Stmt(prev)))
        },
        None => true,
    }
}

/// A frame that holds statements still to run.
pub open spec fn holds_statements(frame: Frame) -> bool {
    frame is Block || frame is LoopBody || frame is Program || frame is CallBody
}

/// A frame that stands directly on a frame that holds statements: one that
/// holds statements itself, or waits for the value of a statement's
/// expression.
pub open spec fn stands_on_statements(frame: Frame) -> bool {
    frame is Block || frame is LoopBody || frame is Discard || frame is Print || frame is Define
        || frame is Branch || frame is LoopCondition || frame is Return
}

/// What `frame` still has to run is well scoped in the scope `scope` of unit
/// `unit`, which are current when the frame is next on top.
pub open spec fn frame_ok(s: State, frame: Frame, scope: usize, unit: usize, how: Pending) -> bool {
    let p = program(s, unit);
    let l = locals(s, unit);
    let chain = chain_of(s.scopes, scope);
    match frame {
        Frame::BinaryLeft(id) => expr_ok(p, l, id, chain),
        Frame::Logical(id) => expr_ok(p, l, id, chain),
        Frame::Callee(id) => expr_ok(p, l, id, chain),
        Frame::Argument { call, index } => expr_ok(p, l, call, chain),
        Frame::Branch(id) => stmt_ok(p, l, id, chain),
        Frame::LoopCondition(id) => stmt_ok(p, l, id, chain),
        Frame::LoopBody(id) => stmt_ok(p, l, id, chain),
        Frame::Block { statements, next, restore } => {
            &&& restore matches Some(r) ==> r < s.scopes.len()
            &&& if next == 0 {
                stmts_ok(p, l, usize::MAX, statements, 0, chain)
            } else {
                match p.item(statements, (next - 1) as usize) {
                    Some(prev) => {
                        &&& stmts_ok(
                            p,
                            l,
                            usize::MAX,
                            statements,
                            next,
                            chain_after(p, prev, chain),
                        )
                        &&& delivered(s, p, prev, scope, how)
                    },
                    None => stmts_ok(p, l, usize::MAX, statements, next, chain),
                }
            }
        },
        Frame::Program { next } => {
            if next == 0 {
                roots_ok(p, l, 0, chain)
            } else if next <= p.statements.len() {
                let prev = p.statements[next - 1];
                &&& roots_ok(p, l, next as nat, chain_after(p, prev, chain))
                &&& delivered(s, p, prev, scope, how)
            } else {
                true
            }
        },
        Frame::CallBody { environment, unit: caller } => environment < s.scopes.len() && caller
            < s.units.len(),
        _ => true,
    }
}

/// The scope and the unit that are current once `frame` is done.
pub open spec fn left(frame: Frame, scope: usize, unit: usize) -> (usize, usize) {
    match frame {
        Frame::Block { statements, next, restore: Some(r) } => (r, unit),
        Frame::CallBody { environment, unit: caller } => (environment, caller),
        _ => (scope, unit),
    }
}

/// The lowest `count` frames are well scoped, `scope` and `unit` being
/// current when the topmost of them is next on top.
pub open spec fn stack_ok(s: State, count: nat, scope: usize, unit: usize, how: Pending) -> bool
    decreases count,
{
    if count == 0 || count > s.frames.len() {
        true
    } else {
        let frame = s.frames[count - 1];
        &&& scope < s.scopes.len()
        &&& unit < s.units.len()
        &&& frame_ok(s, frame, scope, unit, how)
        &&& stands_on_statements(frame) ==> count >= 2 && holds_statements(s.frames[count - 2])
        &&& frame is Program ==> count == 1
        &&& stack_ok(
            s,
            (count - 1) as nat,
            left(frame, scope, unit).0,
            left(frame, scope, unit).1,
            Pending::Above(frame),
        )
    }
}

/// What is being evaluated is well scoped in the current scope.
pub open spec fn control_ok(s: State) -> bool {
    match s.control {
        Control::Eval(Evalable::Expr(id)) => {
            &&& s.environment < s.scopes.len()
            &&& s.unit < s.units.len()
            &&& expr_ok(program(s, s.unit), locals(s, s.unit), id, chain_of(s.scopes, s.environment))
        },
        Control::Eval(Evalable::Stmt(id)) => {
            &&& s.environment < s.scopes.len()
            &&& s.unit < s.units.len()
            &&& stmt_ok(program(s, s.unit), locals(s, s.unit), id, chain_of(s.scopes, s.environment))
            &&& s.frames.len() > 0 && holds_statements(s.frames.last())
        },
        Control::Normal => s.frames.len() > 0 ==> holds_statements(s.frames.last()),
        Control::Returning => s.frames.len() > 0 ==> holds_statements(s.frames.last()),
        _ => true,
    }
}

/// Everything but the frames and what is being evaluated agrees with static
/// scoping.
pub open spec fn grounded(s: State) -> bool {
    &&& s.scopes.len() > 0
    &&& s.scopes.len() <= usize::MAX
    &&& s.units.len() <= usize::MAX
    &&& linked(s.scopes)
    &&& forall|u: int|
        0 <= u < s.units.len() ==> (#[trigger] s.units[u]).program@.well_formed()
            && s.units[u].program@.stmts.len() <= usize::MAX
    &&& values_ok(s)
}

/// The state agrees with static scoping.
pub open spec fn agrees(s: State) -> bool {
    &&& grounded(s)
    &&& control_ok(s)
    &&& stack_ok(s, s.frames.len(), s.environment, s.unit, Pending::Now(s.control))
}

/// The scope `depth` links out from `scope` is the one whose names stand
/// `depth` places from the end of the chain of `scope`.
pub proof fn lemma_chain_follows_links(scopes: Seq<Scope>, scope: usize, depth: nat)
    requires
        linked(scopes),
        depth < chain_of(scopes, scope).len(),
    ensures
        ancestor(scopes, scope, depth) is Some,
        ancestor(scopes, scope, depth)->Some_0 < scopes.len(),
        chain_of(scopes, scope)[chain_of(scopes, scope).len() - 1 - depth] == scopes[ancestor(
            scopes,
            scope,
            depth,
        )->Some_0 as int].values.dom(),
    decreases depth,
{
    if depth > 0 {
        match scopes[scope as int].enclosing {
            Some(outer) => {
                assert(outer < scope);
                lemma_chain_follows_links(scopes, outer, (depth - 1) as nat);
            },
            None => {},
        }
    }
}

/// The chain of a scope is as long in a later state, and covers the chain
/// that it was.
pub proof fn lemma_chain_grows(s: State, later: State, scope: usize)
    requires
        grows(s, later),
        scope < s.scopes.len(),
    ensures
        covers(chain_of(later.scopes, scope), chain_of(s.scopes, scope)),
    decreases scope,
{
    let old_chain = chain_of(s.scopes, scope);
    let new_chain = chain_of(later.scopes, scope);
    assert(later.scopes[scope as int].enclosing == s.scopes[scope as int].enclosing);
    match s.scopes[scope as int].enclosing {
        Some(outer) => {
            if outer < scope {
                lemma_chain_grows(s, later, outer);
                assert forall|k: int| 0 <= k < old_chain.len() implies (#[trigger] old_chain[k]).subset_of(
                    new_chain[k],
                ) by {
                    if k < old_chain.len() - 1 {
                        assert(chain_of(s.scopes, outer)[k].subset_of(
                            chain_of(later.scopes, outer)[k],
                        ));
                    }
                }
            }
        },
        None => {},
    }
}


/// A way of knowing that promises nothing: the declaration has been made.
pub open spec fn promises_nothing(how: Pending) -> bool {
    match how {
        Pending::Settled => true,
        Pending::Above(frame) => !(frame is Define),
        Pending::Now(control) => !(control is Eval && control->Eval_0 is Stmt),
    }
}

/// The statement whose declaration `how` promises.
pub open spec fn promised(how: Pending) -> Option<usize> {
    match how {
        Pending::Above(Frame::Define(id)) => Some(id),
        Pending::Now(Control::Eval(Evalable::Stmt(id))) => Some(id),
        _ => None,
    }
}

/// `how` may be replaced by `now` as the way of knowing that a declaration
/// is made in `scope`: they promise the same; or what `how` promises is no
/// declaration, or has been made.
pub open spec fn may_become(s: State, scope: usize, unit: usize, how: Pending, now: Pending) -> bool {
    match promised(how) {
        Some(id) => {
            ||| promised(now) == Some(id)
            ||| match declares(program(s, unit), id) {
                Some(name) => scope < s.scopes.len() && s.scopes[scope as int].values.dom().contains(
                    name,
                ),
                None => true,
            }
        },
        None => true,
    }
}

/// The way of knowing that the topmost frame's declaration is made may be
/// replaced.
pub proof fn lemma_retarget(
    s: State,
    count: nat,
    scope: usize,
    unit: usize,
    how: Pending,
    now: Pending,
)
    requires
        stack_ok(s, count, scope, unit, how),
        may_become(s, scope, unit, how, now),
    ensures
        stack_ok(s, count, scope, unit, now),
{
}

/// The chain of a scope depends on that scope and the scopes made before it.
pub proof fn lemma_chain_prefix(scopes: Seq<Scope>, other: Seq<Scope>, scope: usize)
    requires
        scope < scopes.len(),
        scope < other.len(),
        forall|i: int| 0 <= i <= scope ==> other[i] == scopes[i],
    ensures
        chain_of(other, scope) == chain_of(scopes, scope),
    decreases scope,
{
    match scopes[scope as int].enclosing {
        Some(outer) => {
            if outer < scope {
                lemma_chain_prefix(scopes, other, outer);
            }
        },
        None => {},
    }
}

/// Defining a name in a scope binds the name in the innermost scope of the
/// scope's chain.
pub proof fn lemma_chain_defined(scopes: Seq<Scope>, scope: usize, name: Seq<char>, value: LoxObject)
    requires
        scope < scopes.len(),
    ensures
        chain_of(defined(scopes, scope, name, value), scope) == with_name(
            chain_of(scopes, scope),
            name,
        ),
{
    let after = defined(scopes, scope, name, value);
    match scopes[scope as int].enclosing {
        Some(outer) => {
            if outer < scope {
                lemma_chain_prefix(scopes, after, outer);
            }
        },
        None => {},
    }
    assert(chain_of(after, scope) =~= with_name(chain_of(scopes, scope), name));
}

/// Which entries of a list of statements count does not matter if all do.
pub proof fn lemma_bound(
    p: ProgramView,
    l: Seq<Option<usize>>,
    bound: usize,
    other: usize,
    list: List,
    index: usize,
    chain: Chain,
)
    requires
        p.list_below(list, bound as int),
        p.list_below(list, other as int),
    ensures
        stmts_ok(p, l, bound, list, index, chain) == stmts_ok(p, l, other, list, index, chain),
    decreases list.len - index,
{
    if index < list.len {
        match p.item(list, index) {
            Some(child) => {
                assert(p.lists[list.start + index] < bound);
                assert(p.lists[list.start + index] < other);
                lemma_bound(
                    p,
                    l,
                    bound,
                    other,
                    list,
                    (index + 1) as usize,
                    chain_after(p, child, chain),
                );
            },
            None => {
                lemma_bound(p, l, bound, other, list, (index + 1) as usize, chain);
            },
        }
    }
}

/// A closure that is well scoped stays so in a later state.
pub proof fn lemma_closure_stays(s: State, later: State, f: FunctionObject)
    requires
        grows(s, later),
        closure_ok(s, f),
    ensures
        closure_ok(later, f),
{
    let d = s.declaration(f)->Some_0;
    let p = program(s, f.unit);
    assert(later.units[f.unit as int] == s.units[f.unit as int]);
    lemma_chain_grows(s, later, f.environment);
    lemma_covers_grows(
        chain_of(later.scopes, f.environment),
        chain_of(s.scopes, f.environment),
        Seq::empty(),
        param_names(p, d.params, 0),
    );
    lemma_stmts_wider(
        p,
        locals(s, f.unit),
        f.declaration,
        d.body,
        0,
        chain_of(s.scopes, f.environment).push(param_names(p, d.params, 0)),
        chain_of(later.scopes, f.environment).push(param_names(p, d.params, 0)),
    );
}

/// A frame that is well scoped stays so in a later state.
pub proof fn lemma_frame_stays(
    s: State,
    later: State,
    frame: Frame,
    scope: usize,
    unit: usize,
    how: Pending,
    now: Pending,
)
    requires
        grows(s, later),
        scope < s.scopes.len(),
        unit < s.units.len(),
        frame_ok(s, frame, scope, unit, how),
        now == how || promises_nothing(how),
    ensures
        frame_ok(later, frame, scope, unit, now),
{
    let p = program(s, unit);
    let l = locals(s, unit);
    let chain = chain_of(s.scopes, scope);
    let wider = chain_of(later.scopes, scope);
    assert(later.units[unit as int] == s.units[unit as int]);
    assert(later.scopes[scope as int].enclosing == s.scopes[scope as int].enclosing);
    assert(s.scopes[scope as int].values.dom().subset_of(later.scopes[scope as int].values.dom()));
    lemma_chain_grows(s, later, scope);
    match frame {
        Frame::BinaryLeft(id) => lemma_expr_wider(p, l, id, chain, wider),
        Frame::Logical(id) => lemma_expr_wider(p, l, id, chain, wider),
        Frame::Callee(id) => lemma_expr_wider(p, l, id, chain, wider),
        Frame::Argument { call, index } => lemma_expr_wider(p, l, call, chain, wider),
        Frame::Branch(id) => lemma_stmt_wider(p, l, id, chain, wider),
        Frame::LoopCondition(id) => lemma_stmt_wider(p, l, id, chain, wider),
        Frame::LoopBody(id) => lemma_stmt_wider(p, l, id, chain, wider),
        Frame::Block { statements, next, restore } => {
            if next == 0 {
                lemma_stmts_wider(p, l, usize::MAX, statements, 0, chain, wider);
            } else {
                match p.item(statements, (next - 1) as usize) {
                    Some(prev) => {
                        lemma_after_wider(p, prev, chain, wider);
                        lemma_stmts_wider(
                            p,
                            l,
                            usize::MAX,
                            statements,
                            next,
                            chain_after(p, prev, chain),
                            chain_after(p, prev, wider),
                        );
                    },
                    None => {
                        lemma_stmts_wider(
                            p,
                            l,
                            usize::MAX,
                            statements,
                            next,
                            chain,
                            wider,
                        );
                    },
                }
            }
        },
        Frame::Program { next } => {
            if next == 0 {
                lemma_roots_wider(p, l, 0, chain, wider);
            } else if next <= p.statements.len() {
                let prev = p.statements[next - 1];
                lemma_after_wider(p, prev, chain, wider);
                lemma_roots_wider(
                    p,
                    l,
                    next as nat,
                    chain_after(p, prev, chain),
                    chain_after(p, prev, wider),
                );
            }
        },
        _ => {},
    }
}

/// Frames that are well scoped stay so in a later state that has the same
/// frames.
pub proof fn lemma_stack_stays(
    s: State,
    later: State,
    count: nat,
    scope: usize,
    unit: usize,
    how: Pending,
    now: Pending,
)
    requires
        grows(s, later),
        count <= s.frames.len(),
        count <= later.frames.len(),
        forall|k: int| 0 <= k < count ==> later.frames[k] == s.frames[k],
        stack_ok(s, count, scope, unit, how),
        now == how || promises_nothing(how),
    ensures
        stack_ok(later, count, scope, unit, now),
    decreases count,
{
    if count > 0 {
        let frame = s.frames[count - 1];
        assert(later.frames[count - 1] == frame);
        if count >= 2 {
            assert(later.frames[count - 2] == s.frames[count - 2]);
        }
        lemma_frame_stays(s, later, frame, scope, unit, how, now);
        lemma_stack_stays(
            s,
            later,
            (count - 1) as nat,
            left(frame, scope, unit).0,
            left(frame, scope, unit).1,
            Pending::Above(frame),
            Pending::Above(frame),
        );
    }
}

/// The read of a resolved variable finds the variable where the resolver
/// said: in a state that agrees with static scoping, when the variable of
/// expression `id`, resolved to depth `depth`, is about to be read, the
/// scope `depth` links out from the current scope exists and binds the
/// variable's name, and the step yields the value that it binds the name
/// to.
pub proof fn lemma_resolved_read_lands(s: State, id: usize, depth: usize)
    requires
        agrees(s),
        s.control == Control::Eval(Evalable::Expr(id)),
        expr_at(s, id) is Some,
        expr_at(s, id)->Some_0 is Variable,
        s.token(s.unit, expr_at(s, id)->Some_0->Variable_0.name) is Some,
        s.depth(id) == Some(depth),
    ensures
        ({
            let v = expr_at(s, id)->Some_0->Variable_0;
            let name = s.token(s.unit, v.name)->Some_0.lexeme@;
            &&& ancestor(s.scopes, s.environment, depth as nat) is Some
            &&& ancestor(s.scopes, s.environment, depth as nat)->Some_0 < s.scopes.len()
            &&& s.scopes[ancestor(
                s.scopes,
                s.environment,
                depth as nat,
            )->Some_0 as int].values.contains_key(name)
            &&& step(s) == s.produce(
                s.scopes[ancestor(s.scopes, s.environment, depth as nat)->Some_0 as int].values[name],
            )
        }),
{
    let p = program(s, s.unit);
    let v = expr_at(s, id)->Some_0->Variable_0;
    assert(p.expr(id) == Some(Expr::Variable(v)));
    assert(p.token(v.name) == Some(s.token(s.unit, v.name)->Some_0@));
    lemma_chain_follows_links(s.scopes, s.environment, depth as nat);
}


/// A later state is grounded if its scopes are linked, its units are well
/// formed and each of its values is well scoped, in it or in the earlier
/// state.
pub proof fn lemma_grounded_later(s: State, later: State)
    requires
        grounded(s),
        grows(s, later),
        later.scopes.len() <= usize::MAX,
        later.units.len() <= usize::MAX,
        linked(later.scopes),
        forall|u: int|
            s.units.len() <= u < later.units.len() ==> (#[trigger] later.units[u]).program@.well_formed()
                && later.units[u].program@.stmts.len() <= usize::MAX,
        forall|k: int|
            0 <= k < later.values.len() ==> value_ok(s, #[trigger] later.values[k]) || value_ok(
                later,
                later.values[k],
            ),
        forall|i: int, name: Seq<char>|
            0 <= i < later.scopes.len() && later.scopes[i].values.dom().contains(name) ==> value_ok(
                s,
                #[trigger] later.scopes[i].values[name],
            ) || value_ok(later, later.scopes[i].values[name]),
    ensures
        grounded(later),
{
    assert forall|u: int| 0 <= u < later.units.len() implies (#[trigger] later.units[u]).program@.well_formed()
        && later.units[u].program@.stmts.len() <= usize::MAX by {
        if u < s.units.len() {
            assert(later.units[u] == s.units[u]);
        }
    }
    assert forall|k: int| 0 <= k < later.values.len() implies value_ok(
        later,
        #[trigger] later.values[k],
    ) by {
        match later.values[k] {
            LoxObject::Function(f) => {
                if value_ok(s, later.values[k]) {
                    lemma_closure_stays(s, later, f);
                }
            },
            _ => {},
        }
    }
    assert forall|i: int, name: Seq<char>|
        0 <= i < later.scopes.len() && later.scopes[i].values.dom().contains(name) implies value_ok(
        later,
        #[trigger] later.scopes[i].values[name],
    ) by {
        match later.scopes[i].values[name] {
            LoxObject::Function(f) => {
                if value_ok(s, later.scopes[i].values[name]) {
                    lemma_closure_stays(s, later, f);
                }
            },
            _ => {},
        }
    }
}

/// After a failure the state agrees with static scoping.
pub proof fn lemma_reset_agrees(s: State)
    requires
        grounded(s),
    ensures
        agrees(s.reset()),
{
    lemma_grounded_later(s, s.reset());
}

/// A state that differs from one that agrees in its strings, its operands
/// and what it is doing, but has no new closure among its operands, and
/// whose new doing is not the start of a node, agrees too.
pub proof fn lemma_same_frames_agree(s: State, later: State)
    requires
        agrees(s),
        may_become(s, s.environment, s.unit, Pending::Now(s.control), Pending::Now(later.control)),
        later.units == s.units,
        later.scopes == s.scopes,
        later.frames == s.frames,
        later.environment == s.environment,
        later.unit == s.unit,
        !(later.control is Eval),
        later.control is Normal || later.control is Returning ==> s.frames.len() > 0
            ==> holds_statements(s.frames.last()),
        forall|k: int| 0 <= k < later.values.len() ==> value_ok(s, #[trigger] later.values[k]),
    ensures
        agrees(later),
{
    lemma_grounded_later(s, later);
    lemma_retarget(
        s,
        s.frames.len(),
        s.environment,
        s.unit,
        Pending::Now(s.control),
        Pending::Now(later.control),
    );
    lemma_stack_stays(
        s,
        later,
        s.frames.len(),
        s.environment,
        s.unit,
        Pending::Now(later.control),
        Pending::Now(later.control),
    );
}

/// A state in which a frame has been put on the frames of a state that
/// agrees, and the evaluation of an expression has been started, agrees if
/// the frame and the expression are well scoped in the current scope.
pub proof fn lemma_descend_agrees(s: State, later: State, frame: Frame, child: usize)
    requires
        agrees(s),
        s.environment < s.scopes.len(),
        s.unit < s.units.len(),
        later.units == s.units,
        later.scopes == s.scopes,
        later.frames == s.frames.push(frame),
        later.environment == s.environment,
        later.unit == s.unit,
        later.control == Control::Eval(Evalable::Expr(child)),
        forall|k: int| 0 <= k < later.values.len() ==> value_ok(s, #[trigger] later.values[k]),
        frame_ok(s, frame, s.environment, s.unit, Pending::Settled),
        !(frame is Program),
        left(frame, s.environment, s.unit) == (s.environment, s.unit),
        stands_on_statements(frame) ==> s.frames.len() > 0 && holds_statements(s.frames.last()),
        may_become(s, s.environment, s.unit, Pending::Now(s.control), Pending::Above(frame)),
        expr_ok(
            program(s, s.unit),
            locals(s, s.unit),
            child,
            chain_of(s.scopes, s.environment),
        ),
    ensures
        agrees(later),
{
    lemma_grounded_later(s, later);
    let count = s.frames.len();
    lemma_frame_stays(
        s,
        later,
        frame,
        s.environment,
        s.unit,
        Pending::Settled,
        Pending::Now(later.control),
    );
    if count > 0 {
        let top = s.frames[count - 1];
        let below = left(top, s.environment, s.unit);
        lemma_retarget(
            s,
            count,
            s.environment,
            s.unit,
            Pending::Now(s.control),
            Pending::Above(frame),
        );
        assert(frame_ok(s, top, s.environment, s.unit, Pending::Above(frame)));
        lemma_frame_stays(
            s,
            later,
            top,
            s.environment,
            s.unit,
            Pending::Above(frame),
            Pending::Above(frame),
        );
        lemma_stack_stays(
            s,
            later,
            (count - 1) as nat,
            below.0,
            below.1,
            Pending::Above(top),
            Pending::Above(top),
        );
        assert(later.frames[count - 1] == top);
        if count >= 2 {
            assert(later.frames[count - 2] == s.frames[count - 2]);
        }
        assert(stack_ok(later, count, s.environment, s.unit, Pending::Above(frame)));
    }
    assert(later.frames[count as int] == frame);
    assert(grounded(later));
    assert(control_ok(later));
    assert(frame_ok(later, frame, s.environment, s.unit, Pending::Now(later.control)));
    assert(stands_on_statements(frame) ==> count + 1 >= 2 && holds_statements(
        later.frames[count - 1],
    ));
    assert(stack_ok(later, count, s.environment, s.unit, Pending::Above(frame)));
    assert(stack_ok(later, count + 1, s.environment, s.unit, Pending::Now(later.control)));
}

/// Starting to evaluate an expression keeps the agreement.
pub proof fn lemma_eval_expr_agrees(s: State, id: usize)
    requires
        agrees(s),
        s.control == Control::Eval(Evalable::Expr(id)),
    ensures
        agrees(eval_expr(s, id).state),
{
    let later = eval_expr(s, id).state;
    let p = program(s, s.unit);
    let l = locals(s, s.unit);
    let chain = chain_of(s.scopes, s.environment);
    lemma_reset_agrees(s);
    lemma_nodes_fit(p);
    match p.expr(id) {
        Some(e) => {
            assert(p.expr_fits(p.exprs[id as int], id as int));
            match e {
                Expr::Literal(lit) => {
                    if !(eval_literal(s, lit.value).action is Failed) {
                        if eval_literal(s, lit.value).action is ParseNumber {
                            lemma_same_frames_agree(s, later);
                        } else {
                            lemma_same_frames_agree(s, later);
                        }
                    }
                },
                Expr::Unary(u) => lemma_descend_agrees(s, later, Frame::Unary(id), u.expr),
                Expr::Binary(b) => lemma_descend_agrees(s, later, Frame::BinaryLeft(id), b.left),
                Expr::Grouping(g) => {
                    lemma_grounded_later(s, later);
                    lemma_stack_stays(
                        s,
                        later,
                        s.frames.len(),
                        s.environment,
                        s.unit,
                        Pending::Now(s.control),
                        Pending::Now(later.control),
                    );
                },
                Expr::NoOp(_) => lemma_same_frames_agree(s, later),
                Expr::Variable(v) => {
                    if !(eval_variable(s, id, v.name).action is Failed) {
                        let t = s.token(s.unit, v.name)->Some_0;
                        let scope = s.home(id)->Some_0;
                        lemma_holder_binds(s.scopes, scope, t.lexeme@);
                        lemma_same_frames_agree(s, later);
                    }
                },
                Expr::Assign(a) => lemma_descend_agrees(s, later, Frame::Assign(id), a.value),
                Expr::Logical(g) => lemma_descend_agrees(s, later, Frame::Logical(id), g.left),
                Expr::Call(c) => lemma_descend_agrees(s, later, Frame::Callee(id), c.callee),
            }
        },
        None => {},
    }
}


/// Entering a block keeps the agreement.
pub proof fn lemma_eval_block_agrees(s: State, id: usize, statements: List)
    requires
        agrees(s),
        s.scopes.len() < usize::MAX,
        s.control == Control::Eval(Evalable::Stmt(id)),
        program(s, s.unit).stmt(id) == Some(Stmt::Block(Block { statements })),
    ensures
        agrees(eval_block(s, statements).state),
{
    let later = eval_block(s, statements).state;
    let p = program(s, s.unit);
    let l = locals(s, s.unit);
    let chain = chain_of(s.scopes, s.environment);
    let inner = s.scopes.len() as usize;
    let frame = Frame::Block { statements, next: 0, restore: Some(s.environment) };
    let count = s.frames.len();
    lemma_nodes_fit(p);
    assert(p.stmt_fits(p.stmts[id as int], id as int));
    lemma_grounded_later(s, later);
    lemma_chain_prefix(s.scopes, later.scopes, s.environment);
    assert(chain_of(later.scopes, inner) == chain.push(Set::empty())) by {
        assert(later.scopes[inner as int].values.dom() =~= Set::<Seq<char>>::empty());
    }
    assert(p.list_below(statements, usize::MAX as int)) by {
        assert forall|k: int|
            statements.start <= k < statements.start + statements.len implies #[trigger] p.lists[k]
            < usize::MAX by {
            assert(p.lists[k] < id);
        }
    }
    lemma_bound(p, l, id, usize::MAX, statements, 0, chain.push(Set::empty()));
    lemma_retarget(
        s,
        count,
        s.environment,
        s.unit,
        Pending::Now(s.control),
        Pending::Above(frame),
    );
    lemma_stack_stays(
        s,
        later,
        count,
        s.environment,
        s.unit,
        Pending::Above(frame),
        Pending::Above(frame),
    );
    assert(later.frames[count as int] == frame);
    assert(later.frames[count - 1] == s.frames[count - 1]);
    assert(frame_ok(later, frame, inner, s.unit, Pending::Now(later.control)));
    assert(stack_ok(later, count + 1, inner, s.unit, Pending::Now(later.control)));
}

/// Declaring a function keeps the agreement.
pub proof fn lemma_eval_function_agrees(s: State, id: usize, f: Function)
    requires
        agrees(s),
        s.control == Control::Eval(Evalable::Stmt(id)),
        program(s, s.unit).stmt(id) == Some(Stmt::Function(f)),
    ensures
        agrees(eval_function(s, id, f).state),
{
    let later = eval_function(s, id, f).state;
    let p = program(s, s.unit);
    let l = locals(s, s.unit);
    let chain = chain_of(s.scopes, s.environment);
    let count = s.frames.len();
    lemma_reset_agrees(s);
    if s.token(s.unit, f.name) is Some {
        let t = s.token(s.unit, f.name)->Some_0;
        let name = t.lexeme@;
        let closure = FunctionObject {
            arity: f.params.len,
            unit: s.unit,
            declaration: id,
            environment: s.environment,
        };
        assert(p.token(f.name) == Some(t@));
        assert(declares(p, id) == Some(name));
        lemma_chain_defined(s.scopes, s.environment, name, LoxObject::Function(closure));
        assert(later.declaration(closure) == Some(f));
        assert(closure_ok(later, closure));
        assert(grows(s, later));
        assert(linked(later.scopes));
        assert forall|i: int, n: Seq<char>|
            0 <= i < later.scopes.len() && later.scopes[i].values.dom().contains(n) implies value_ok(
            s,
            #[trigger] later.scopes[i].values[n],
        ) || value_ok(later, later.scopes[i].values[n]) by {
            if i == s.environment && n == name {
            } else {
                assert(s.scopes[i].values.dom().contains(n));
                assert(later.scopes[i].values[n] == s.scopes[i].values[n]);
            }
        }
        lemma_grounded_later(s, later);
        lemma_stack_stays(
            s,
            later,
            count,
            s.environment,
            s.unit,
            Pending::Now(s.control),
            Pending::Now(s.control),
        );
        lemma_retarget(
            later,
            count,
            s.environment,
            s.unit,
            Pending::Now(s.control),
            Pending::Now(later.control),
        );
    }
}

/// Starting to run a statement keeps the agreement.
pub proof fn lemma_eval_stmt_agrees(s: State, id: usize)
    requires
        agrees(s),
        eval_stmt(s, id).state.scopes.len() <= usize::MAX,
        s.control == Control::Eval(Evalable::Stmt(id)),
    ensures
        agrees(eval_stmt(s, id).state),
{
    let later = eval_stmt(s, id).state;
    let p = program(s, s.unit);
    lemma_reset_agrees(s);
    match p.stmt(id) {
        Some(Stmt::Expression(e)) => lemma_descend_agrees(s, later, Frame::Discard, e.expr),
        Some(Stmt::Print(e)) => lemma_descend_agrees(s, later, Frame::Print, e.expr),
        Some(Stmt::Var(v)) => lemma_descend_agrees(s, later, Frame::Define(id), v.initializer),
        Some(Stmt::Block(b)) => lemma_eval_block_agrees(s, id, b.statements),
        Some(Stmt::If(i)) => lemma_descend_agrees(s, later, Frame::Branch(id), i.condition),
        Some(Stmt::While(w)) => lemma_descend_agrees(
            s,
            later,
            Frame::LoopCondition(id),
            w.condition,
        ),
        Some(Stmt::Function(f)) => lemma_eval_function_agrees(s, id, f),
        Some(Stmt::Return(r)) => match r.value {
            Some(e) => lemma_descend_agrees(s, later, Frame::Return, e),
            None => lemma_same_frames_agree(s, later),
        },
        None => {},
    }
}


/// A later state with the same frames, scope and unit agrees if what it
/// is doing is well scoped and its values are.
pub proof fn lemma_carry(s: State, later: State)
    requires
        agrees(s),
        grows(s, later),
        later.units == s.units,
        later.scopes.len() <= usize::MAX,
        linked(later.scopes),
        later.frames == s.frames,
        later.environment == s.environment,
        later.unit == s.unit,
        control_ok(later),
        may_become(
            later,
            s.environment,
            s.unit,
            Pending::Now(s.control),
            Pending::Now(later.control),
        ),
        forall|k: int|
            0 <= k < later.values.len() ==> value_ok(s, #[trigger] later.values[k]) || value_ok(
                later,
                later.values[k],
            ),
        forall|i: int, name: Seq<char>|
            0 <= i < later.scopes.len() && later.scopes[i].values.dom().contains(name) ==> value_ok(
                s,
                #[trigger] later.scopes[i].values[name],
            ) || value_ok(later, later.scopes[i].values[name]),
    ensures
        agrees(later),
{
    lemma_grounded_later(s, later);
    lemma_stack_stays(
        s,
        later,
        s.frames.len(),
        s.environment,
        s.unit,
        Pending::Now(s.control),
        Pending::Now(s.control),
    );
    lemma_retarget(
        later,
        s.frames.len(),
        s.environment,
        s.unit,
        Pending::Now(s.control),
        Pending::Now(later.control),
    );
}

/// A later state with one more frame agrees if the frame is well scoped
/// and leaves the scope and the unit that were current.
pub proof fn lemma_carry_push(s: State, later: State, frame: Frame)
    requires
        agrees(s),
        grows(s, later),
        later.units == s.units,
        later.scopes.len() <= usize::MAX,
        linked(later.scopes),
        later.frames == s.frames.push(frame),
        later.environment < later.scopes.len(),
        later.unit < later.units.len(),
        s.frames.len() > 0 ==> s.environment < s.scopes.len() && s.unit < s.units.len(),
        left(frame, later.environment, later.unit) == (s.environment, s.unit),
        !(frame is Program),
        frame_ok(later, frame, later.environment, later.unit, Pending::Now(later.control)),
        stands_on_statements(frame) ==> s.frames.len() > 0 && holds_statements(s.frames.last()),
        control_ok(later),
        may_become(later, s.environment, s.unit, Pending::Now(s.control), Pending::Above(frame)),
        forall|k: int|
            0 <= k < later.values.len() ==> value_ok(s, #[trigger] later.values[k]) || value_ok(
                later,
                later.values[k],
            ),
        forall|i: int, name: Seq<char>|
            0 <= i < later.scopes.len() && later.scopes[i].values.dom().contains(name) ==> value_ok(
                s,
                #[trigger] later.scopes[i].values[name],
            ) || value_ok(later, later.scopes[i].values[name]),
    ensures
        agrees(later),
{
    let count = s.frames.len();
    lemma_grounded_later(s, later);
    lemma_stack_stays(
        s,
        later,
        count,
        s.environment,
        s.unit,
        Pending::Now(s.control),
        Pending::Now(s.control),
    );
    lemma_retarget(
        later,
        count,
        s.environment,
        s.unit,
        Pending::Now(s.control),
        Pending::Above(frame),
    );
    assert(later.frames[count as int] == frame);
    if count > 0 {
        assert(later.frames[count - 1] == s.frames[count - 1]);
    }
    assert(stack_ok(later, count + 1, later.environment, later.unit, Pending::Now(later.control)));
}

/// The state in which the topmost frame has been taken off, the scope and
/// the unit it leaves are current, and nothing is being evaluated.
pub open spec fn popped(s: State) -> State {
    State {
        frames: s.frames.drop_last(),
        environment: left(s.frames.last(), s.environment, s.unit).0,
        unit: left(s.frames.last(), s.environment, s.unit).1,
        control: Control::Value,
        ..s
    }
}

/// Taking off the topmost frame, unless it is about to define a variable,
/// keeps the agreement.
pub proof fn lemma_pop(s: State)
    requires
        agrees(s),
        s.frames.len() > 0,
        !(s.frames.last() is Define),
    ensures
        agrees(popped(s)),
        frame_ok(s, s.frames.last(), s.environment, s.unit, Pending::Now(s.control)),
        s.environment < s.scopes.len(),
        s.unit < s.units.len(),
        stands_on_statements(s.frames.last()) ==> popped(s).frames.len() > 0 && holds_statements(
            popped(s).frames.last(),
        ),
{
    let later = popped(s);
    let top = s.frames.last();
    let count = s.frames.len();
    lemma_grounded_later(s, later);
    lemma_stack_stays(
        s,
        later,
        (count - 1) as nat,
        later.environment,
        later.unit,
        Pending::Above(top),
        Pending::Now(later.control),
    );
}

/// Applying a unary operator keeps the agreement.
pub proof fn lemma_apply_unary_agrees(s: State, operator: usize, value: LoxObject)
    requires
        agrees(s),
        s.control == Control::Value,
    ensures
        agrees(apply_unary(s, operator, value).state),
{
    let later = apply_unary(s, operator, value).state;
    lemma_reset_agrees(s);
    if !(apply_unary(s, operator, value).action is Failed) {
        lemma_carry(s, later);
    }
}

/// Applying a binary operator keeps the agreement.
pub proof fn lemma_apply_binary_agrees(s: State, operator: usize, a: LoxObject, b: LoxObject)
    requires
        agrees(s),
        s.control == Control::Value,
    ensures
        agrees(apply_binary(s, operator, a, b).state),
{
    let later = apply_binary(s, operator, a, b).state;
    lemma_reset_agrees(s);
    if !(apply_binary(s, operator, a, b).action is Failed) {
        lemma_carry(s, later);
    }
}

/// Storing the value of an assignment keeps the agreement.
pub proof fn lemma_finish_assign_agrees(s: State, expr: usize, name: usize, value: LoxObject)
    requires
        agrees(s),
        s.control == Control::Value,
        value_ok(s, value),
    ensures
        agrees(finish_assign(s, expr, name, value).state),
{
    let later = finish_assign(s, expr, name, value).state;
    lemma_reset_agrees(s);
    if !(finish_assign(s, expr, name, value).action is Failed) {
        let t = s.token(s.unit, name)->Some_0;
        let scope = s.home(expr)->Some_0;
        lemma_holder_binds(s.scopes, scope, t.lexeme@);
        lemma_assignment_keeps_names(s.scopes, scope, t.lexeme@, value);
        let h = holder(s.scopes, scope, t.lexeme@)->Some_0;
        assert forall|i: int, n: Seq<char>|
            0 <= i < later.scopes.len() && later.scopes[i].values.dom().contains(n) implies value_ok(
            s,
            #[trigger] later.scopes[i].values[n],
        ) || value_ok(later, later.scopes[i].values[n]) by {
            if i == h && n == t.lexeme@ {
            } else {
                assert(s.scopes[i].values.dom().contains(n));
                assert(later.scopes[i].values[n] == s.scopes[i].values[n]);
            }
        }
        lemma_carry(s, later);
    }
}

/// An argument of a well-scoped call is well scoped.
pub proof fn lemma_arg_ok(
    p: ProgramView,
    l: Seq<Option<usize>>,
    parent: usize,
    list: List,
    index: usize,
    k: usize,
    chain: Chain,
)
    requires
        args_ok(p, l, parent, list, index, chain),
        index <= k < list.len,
        p.item(list, k) is Some,
        p.item(list, k)->Some_0 < parent,
    ensures
        expr_ok(p, l, p.item(list, k)->Some_0, chain),
    decreases k - index,
{
    if index < k {
        lemma_arg_ok(p, l, parent, list, (index + 1) as usize, k, chain);
    }
}


/// The scope of a call binds the names of the parameters, and binds them to
/// well-scoped values.
pub proof fn lemma_bind(
    s: State,
    unit: usize,
    params: List,
    arguments: Seq<LoxObject>,
    index: nat,
    bound: Map<Seq<char>, LoxObject>,
)
    requires
        bind_parameters(s, unit, params, arguments, index, bound) is Some,
        index <= arguments.len(),
        arguments.len() == params.len,
        forall|name: Seq<char>| bound.dom().contains(name) ==> value_ok(s, #[trigger] bound[name]),
        forall|k: int| 0 <= k < arguments.len() ==> value_ok(s, #[trigger] arguments[k]),
    ensures
        ({
            let made = bind_parameters(s, unit, params, arguments, index, bound)->Some_0;
            &&& bound.dom().subset_of(made.dom())
            &&& param_names(program(s, unit), params, index as usize).subset_of(made.dom())
            &&& forall|name: Seq<char>|
                made.dom().contains(name) ==> value_ok(s, #[trigger] made[name])
        }),
    decreases arguments.len() - index,
{
    if index < arguments.len() {
        let p = program(s, unit);
        let token = s.units[unit as int].program.spec_item(params, index as usize)->Some_0;
        let t = s.token(unit, token)->Some_0;
        assert(p.item(params, index as usize) == Some(token));
        assert(p.token(token) == Some(t@));
        let next = bound.insert(t.lexeme@, arguments[index as int]);
        assert forall|name: Seq<char>| next.dom().contains(name) implies value_ok(
            s,
            #[trigger] next[name],
        ) by {
            if name != t.lexeme@ {
                assert(bound.dom().contains(name));
            }
        }
        lemma_bind(s, unit, params, arguments, index + 1, next);
    }
}

/// Making a call keeps the agreement.
pub proof fn lemma_invoke_agrees(s: State, c: Call)
    requires
        agrees(s),
        s.control == Control::Value,
        s.environment < s.scopes.len(),
        s.unit < s.units.len(),
        invoke(s, c).state.scopes.len() <= usize::MAX,
    ensures
        agrees(invoke(s, c).state),
{
    let later = invoke(s, c).state;
    lemma_reset_agrees(s);
    if !(invoke(s, c).action is Failed) {
        let count = c.arguments.len;
        let base = s.values.len() - count - 1;
        let f = s.values[base]->Function_0;
        assert(value_ok(s, s.values[base]));
        let d = s.declaration(f)->Some_0;
        let p = program(s, f.unit);
        let l = locals(s, f.unit);
        let arguments = s.values.subrange(base + 1, s.values.len() as int);
        let bound = bind_parameters(s, f.unit, d.params, arguments, 0, Map::empty())->Some_0;
        let inner = s.scopes.len() as usize;
        let call = Frame::CallBody { environment: s.environment, unit: s.unit };
        let body = Frame::Block { statements: d.body, next: 0, restore: None };
        assert forall|k: int| 0 <= k < arguments.len() implies value_ok(
            s,
            #[trigger] arguments[k],
        ) by {
            assert(arguments[k] == s.values[base + 1 + k]);
        }
        lemma_bind(s, f.unit, d.params, arguments, 0, Map::empty());
        let mid = State {
            scopes: later.scopes,
            values: later.values,
            frames: s.frames.push(call),
            control: Control::Normal,
            environment: inner,
            unit: f.unit,
            ..s
        };
        assert(mid.scopes == s.scopes.push(
            Scope { values: bound, enclosing: Some(f.environment) },
        ));
        assert forall|k: int| 0 <= k < mid.values.len() implies value_ok(
            s,
            #[trigger] mid.values[k],
        ) by {
            assert(mid.values[k] == s.values[k]);
        }
        assert forall|i: int, name: Seq<char>|
            0 <= i < mid.scopes.len() && mid.scopes[i].values.dom().contains(name) implies value_ok(
            s,
            #[trigger] mid.scopes[i].values[name],
        ) || value_ok(mid, mid.scopes[i].values[name]) by {
            if i < s.scopes.len() {
                assert(mid.scopes[i] == s.scopes[i]);
            }
        }
        lemma_carry_push(s, mid, call);
        lemma_nodes_fit(p);
        assert(p.stmt_fits(p.stmts[f.declaration as int], f.declaration as int));
        assert(p.list_below(d.body, usize::MAX as int)) by {
            assert forall|k: int|
                d.body.start <= k < d.body.start + d.body.len implies #[trigger] p.lists[k]
                < usize::MAX by {
                assert(p.lists[k] < f.declaration);
            }
        }
        let formal = chain_of(s.scopes, f.environment).push(param_names(p, d.params, 0));
        lemma_bound(p, l, f.declaration, usize::MAX, d.body, 0, formal);
        lemma_chain_prefix(s.scopes, later.scopes, f.environment);
        let actual = chain_of(later.scopes, inner);
        assert(actual == chain_of(s.scopes, f.environment).push(bound.dom()));
        assert(covers(actual, formal)) by {
            assert forall|k: int| 0 <= k < formal.len() implies (#[trigger] formal[k]).subset_of(
                actual[k],
            ) by {}
        }
        lemma_stmts_wider(p, l, usize::MAX, d.body, 0, formal, actual);
        assert(later.frames == mid.frames.push(body));
        assert(frame_ok(later, body, inner, f.unit, Pending::Now(later.control)));
        lemma_carry_push(mid, later, body);
    }
}

/// Going on to the next argument of a call, or making the call, keeps the
/// agreement.
pub proof fn lemma_next_argument_agrees(s: State, call: usize, c: Call, index: usize)
    requires
        agrees(s),
        s.control == Control::Value,
        s.environment < s.scopes.len(),
        s.unit < s.units.len(),
        next_argument(s, call, c, index).state.scopes.len() <= usize::MAX,
        expr_at(s, call) == Some(Expr::Call(c)),
        expr_ok(program(s, s.unit), locals(s, s.unit), call, chain_of(s.scopes, s.environment)),
    ensures
        agrees(next_argument(s, call, c, index).state),
{
    let later = next_argument(s, call, c, index).state;
    let p = program(s, s.unit);
    let l = locals(s, s.unit);
    lemma_reset_agrees(s);
    if index < c.arguments.len {
        if !(next_argument(s, call, c, index).action is Failed) {
            let argument = p.item(c.arguments, index)->Some_0;
            lemma_nodes_fit(p);
            assert(p.expr_fits(p.exprs[call as int], call as int));
            assert(p.lists[c.arguments.start + index] < call);
            lemma_arg_ok(p, l, call, c.arguments, 0, index, chain_of(s.scopes, s.environment));
            lemma_carry_push(s, later, Frame::Argument { call, index });
        }
    } else {
        lemma_invoke_agrees(s, c);
    }
}


/// Defining a variable keeps the agreement.
pub proof fn lemma_define_agrees(s: State, id: usize)
    requires
        agrees(s),
        s.control == Control::Value,
        s.frames.len() > 0,
        s.values.len() > 0,
        s.frames.last() == Frame::Define(id),
    ensures
        agrees(resume_value(s.pop_frame(), s.frames.last(), s.values.last()).state),
{
    let value = s.values.last();
    let later = resume_value(s.pop_frame(), s.frames.last(), value).state;
    let p = program(s, s.unit);
    let count = s.frames.len();
    lemma_reset_agrees(s);
    lemma_reset_agrees(s.pop_frame());
    assert(s.pop_frame().reset() == s.reset());
    if !(resume_value(s.pop_frame(), s.frames.last(), value).action is Failed) {
        let v = stmt_at(s.pop_frame(), id)->Some_0->Var_0;
        let t = s.token(s.unit, v.name)->Some_0;
        let name = t.lexeme@;
        assert(p.stmt(id) == Some(Stmt::Var(v)));
        assert(p.token(v.name) == Some(t@));
        assert(declares(p, id) == Some(name));
        assert(value_ok(s, value));
        assert(later.scopes == defined(s.scopes, s.environment, name, value));
        assert forall|i: int, n: Seq<char>|
            0 <= i < later.scopes.len() && later.scopes[i].values.dom().contains(n) implies value_ok(
            s,
            #[trigger] later.scopes[i].values[n],
        ) || value_ok(later, later.scopes[i].values[n]) by {
            if i == s.environment && n == name {
            } else {
                assert(s.scopes[i].values.dom().contains(n));
                assert(later.scopes[i].values[n] == s.scopes[i].values[n]);
            }
        }
        assert forall|k: int| 0 <= k < later.values.len() implies value_ok(
            s,
            #[trigger] later.values[k],
        ) || value_ok(later, later.values[k]) by {
            assert(later.values[k] == s.values[k]);
        }
        lemma_grounded_later(s, later);
        lemma_stack_stays(
            s,
            later,
            (count - 1) as nat,
            s.environment,
            s.unit,
            Pending::Above(Frame::Define(id)),
            Pending::Above(Frame::Define(id)),
        );
        lemma_retarget(
            later,
            (count - 1) as nat,
            s.environment,
            s.unit,
            Pending::Above(Frame::Define(id)),
            Pending::Now(later.control),
        );
    }
}

/// The state without its topmost operand agrees if the state does.
pub proof fn lemma_drop_value(s: State)
    requires
        agrees(s),
        s.control == Control::Value,
    ensures
        agrees(s.pop_value()),
{
    let later = s.pop_value();
    assert forall|k: int| 0 <= k < later.values.len() implies value_ok(
        s,
        #[trigger] later.values[k],
    ) || value_ok(later, later.values[k]) by {
        assert(later.values[k] == s.values[k]);
    }
    lemma_carry(s, later);
}

/// Resuming an expression frame with the value it waited for keeps the
/// agreement.
pub proof fn lemma_resume_expression_agrees(s: State)
    requires
        agrees(s),
        s.control == Control::Value,
        s.frames.len() > 0,
        s.values.len() > 0,
        resume_value(s.pop_frame(), s.frames.last(), s.values.last()).state.scopes.len()
            <= usize::MAX,
        s.frames.last() is Unary || s.frames.last() is BinaryLeft || s.frames.last() is BinaryRight
            || s.frames.last() is Assign || s.frames.last() is Logical || s.frames.last() is Callee
            || s.frames.last() is Argument,
    ensures
        agrees(resume_value(s.pop_frame(), s.frames.last(), s.values.last()).state),
{
    let frame = s.frames.last();
    let value = s.values.last();
    let m = s.pop_frame();
    let later = resume_value(m, frame, value).state;
    let p = program(s, s.unit);
    let l = locals(s, s.unit);
    let chain = chain_of(s.scopes, s.environment);
    lemma_pop(s);
    assert(m == popped(s));
    lemma_reset_agrees(m);
    lemma_nodes_fit(p);
    assert(value_ok(m, value));
    match frame {
        Frame::Unary(id) => {
            match expr_at(m, id) {
                Some(Expr::Unary(u)) => {
                    lemma_drop_value(m);
                    lemma_apply_unary_agrees(m.pop_value(), u.operator, value);
                },
                _ => {},
            }
        },
        Frame::BinaryLeft(id) => {
            match expr_at(m, id) {
                Some(Expr::Binary(b)) => {
                    assert(p.expr_fits(p.exprs[id as int], id as int));
                    lemma_carry_push(m, later, Frame::BinaryRight(id));
                },
                _ => {},
            }
        },
        Frame::BinaryRight(id) => {
            match expr_at(m, id) {
                Some(Expr::Binary(b)) => {
                    if m.values.len() >= 2 {
                        lemma_drop_value(m);
                        lemma_drop_value(m.pop_value());
                        lemma_apply_binary_agrees(
                            m.pop_value().pop_value(),
                            b.operator,
                            m.values[m.values.len() - 2],
                            m.values[m.values.len() - 1],
                        );
                    }
                },
                _ => {},
            }
        },
        Frame::Assign(id) => {
            match expr_at(m, id) {
                Some(Expr::Assign(a)) => lemma_finish_assign_agrees(m, id, a.name, value),
                _ => {},
            }
        },
        Frame::Logical(id) => {
            match expr_at(m, id) {
                Some(Expr::Logical(g)) => {
                    if !(finish_logical(m, g.operator, g.right, value).action is Failed) {
                        assert(p.expr_fits(p.exprs[id as int], id as int));
                        if later.control is Value {
                            lemma_carry(m, later);
                        } else {
                            lemma_drop_value(m);
                            lemma_carry(m.pop_value(), later);
                        }
                    }
                },
                _ => {},
            }
        },
        Frame::Callee(id) => {
            match expr_at(m, id) {
                Some(Expr::Call(c)) => lemma_next_argument_agrees(m, id, c, 0),
                _ => {},
            }
        },
        Frame::Argument { call, index } => {
            match expr_at(m, call) {
                Some(Expr::Call(c)) => {
                    if index < usize::MAX {
                        lemma_next_argument_agrees(m, call, c, (index + 1) as usize);
                    }
                },
                _ => {},
            }
        },
        _ => {},
    }
}

/// Resuming a statement with the value of its expression keeps the
/// agreement.
pub proof fn lemma_resume_statement_agrees(s: State)
    requires
        agrees(s),
        s.control == Control::Value,
        s.frames.len() > 0,
        s.values.len() > 0,
        s.frames.last() is Discard || s.frames.last() is Print || s.frames.last() is Branch
            || s.frames.last() is LoopCondition || s.frames.last() is Return,
    ensures
        agrees(resume_value(s.pop_frame(), s.frames.last(), s.values.last()).state),
{
    let frame = s.frames.last();
    let value = s.values.last();
    let m = s.pop_frame();
    let later = resume_value(m, frame, value).state;
    let p = program(s, s.unit);
    lemma_pop(s);
    assert(m == popped(s));
    lemma_reset_agrees(m);
    lemma_nodes_fit(p);
    lemma_drop_value(m);
    match frame {
        Frame::Discard => lemma_carry(m.pop_value(), later),
        Frame::Print => lemma_carry(m.pop_value(), later),
        Frame::Branch(id) => {
            match stmt_at(m, id) {
                Some(Stmt::If(i)) => {
                    assert(p.stmt_fits(p.stmts[id as int], id as int));
                    lemma_carry(m.pop_value(), later);
                },
                _ => {},
            }
        },
        Frame::LoopCondition(id) => {
            match stmt_at(m, id) {
                Some(Stmt::While(w)) => {
                    assert(p.stmt_fits(p.stmts[id as int], id as int));
                    if value.truthy() {
                        lemma_carry_push(m.pop_value(), later, Frame::LoopBody(id));
                    } else {
                        lemma_carry(m.pop_value(), later);
                    }
                },
                _ => {},
            }
        },
        Frame::Return => lemma_carry(m, later),
        _ => {},
    }
}

/// Resuming a frame with a value keeps the agreement.
pub proof fn lemma_resume_value_agrees(s: State)
    requires
        agrees(s),
        s.control == Control::Value,
        s.frames.len() > 0,
        s.values.len() > 0,
        resume_value(s.pop_frame(), s.frames.last(), s.values.last()).state.scopes.len()
            <= usize::MAX,
    ensures
        agrees(resume_value(s.pop_frame(), s.frames.last(), s.values.last()).state),
{
    let frame = s.frames.last();
    lemma_reset_agrees(s);
    assert(s.pop_frame().reset() == s.reset());
    match frame {
        Frame::Define(id) => lemma_define_agrees(s, id),
        Frame::Unary(_) => lemma_resume_expression_agrees(s),
        Frame::BinaryLeft(_) => lemma_resume_expression_agrees(s),
        Frame::BinaryRight(_) => lemma_resume_expression_agrees(s),
        Frame::Assign(_) => lemma_resume_expression_agrees(s),
        Frame::Logical(_) => lemma_resume_expression_agrees(s),
        Frame::Callee(_) => lemma_resume_expression_agrees(s),
        Frame::Argument { .. } => lemma_resume_expression_agrees(s),
        Frame::Discard => lemma_resume_statement_agrees(s),
        Frame::Print => lemma_resume_statement_agrees(s),
        Frame::Branch(_) => lemma_resume_statement_agrees(s),
        Frame::LoopCondition(_) => lemma_resume_statement_agrees(s),
        Frame::Return => lemma_resume_statement_agrees(s),
        _ => {},
    }
}


/// Once the declaration of a statement has been made, the chain of the scope
/// it ran in covers the chain after the statement.
pub proof fn lemma_made(s: State, p: ProgramView, prev: usize, scope: usize, how: Pending)
    requires
        scope < s.scopes.len(),
        delivered(s, p, prev, scope, how),
        promised(how) is None,
    ensures
        covers(chain_of(s.scopes, scope), chain_after(p, prev, chain_of(s.scopes, scope))),
{
    let chain = chain_of(s.scopes, scope);
    assert(chain.len() > 0 && chain.last() == s.scopes[scope as int].values.dom());
    match declares(p, prev) {
        Some(name) => {
            assert(with_name(chain, name) =~= chain) by {
                assert(chain.last().insert(name) =~= chain.last());
            }
        },
        None => {},
    }
    lemma_covers_grows(chain, chain, Seq::empty(), Set::empty());
}

/// Going on with the next statement of a block, or leaving the block, keeps
/// the agreement.
pub proof fn lemma_resume_block_agrees(s: State)
    requires
        agrees(s),
        s.control == Control::Normal,
        s.frames.len() > 0,
        s.frames.last() is Block,
    ensures
        agrees(resume_normal(s.pop_frame(), s.frames.last()).state),
{
    let frame = s.frames.last();
    let m = s.pop_frame();
    let later = resume_normal(m, frame).state;
    let p = program(s, s.unit);
    let l = locals(s, s.unit);
    let chain = chain_of(s.scopes, s.environment);
    let count = s.frames.len();
    lemma_reset_agrees(s);
    assert(m.reset() == s.reset());
    match frame {
        Frame::Block { statements, next, restore } => {
            match p.item(statements, next) {
                Some(statement) => {
                    if next < usize::MAX {
                        let again = Frame::Block {
                            statements,
                            next: (next + 1) as usize,
                            restore,
                        };
                        if next > 0 {
                            match p.item(statements, (next - 1) as usize) {
                                Some(prev) => {
                                    lemma_made(s, p, prev, s.environment, Pending::Now(s.control));
                                    lemma_stmts_wider(
                                        p,
                                        l,
                                        usize::MAX,
                                        statements,
                                        next,
                                        chain_after(p, prev, chain),
                                        chain,
                                    );
                                },
                                None => {},
                            }
                        }
                        assert(stmts_ok(p, l, usize::MAX, statements, next, chain));
                        assert(stmt_ok(p, l, statement, chain));
                        assert(stmts_ok(
                            p,
                            l,
                            usize::MAX,
                            statements,
                            (next + 1) as usize,
                            chain_after(p, statement, chain),
                        ));
                        lemma_grounded_later(s, later);
                        lemma_stack_stays(
                            s,
                            later,
                            (count - 1) as nat,
                            left(frame, s.environment, s.unit).0,
                            left(frame, s.environment, s.unit).1,
                            Pending::Above(frame),
                            Pending::Above(again),
                        );
                        assert(later.frames[count - 1] == again);
                        assert(later.frames[count - 2] == s.frames[count - 2]);
                        assert(frame_ok(
                            later,
                            again,
                            s.environment,
                            s.unit,
                            Pending::Now(later.control),
                        ));
                        assert(stack_ok(
                            later,
                            count,
                            s.environment,
                            s.unit,
                            Pending::Now(later.control),
                        ));
                    }
                },
                None => {
                    lemma_pop(s);
                    lemma_carry(popped(s), later);
                },
            }
        },
        _ => {},
    }
}

/// Going on with the next top-level statement, or ending the program, keeps
/// the agreement.
pub proof fn lemma_resume_program_agrees(s: State)
    requires
        agrees(s),
        s.control == Control::Normal,
        s.frames.len() > 0,
        s.frames.last() is Program,
    ensures
        agrees(resume_normal(s.pop_frame(), s.frames.last()).state),
{
    let frame = s.frames.last();
    let m = s.pop_frame();
    let later = resume_normal(m, frame).state;
    let p = program(s, s.unit);
    let l = locals(s, s.unit);
    let chain = chain_of(s.scopes, s.environment);
    let count = s.frames.len();
    lemma_reset_agrees(s);
    assert(m.reset() == s.reset());
    match frame {
        Frame::Program { next } => {
            if next < p.statements.len() {
                let statement = p.statements[next as int];
                if next < usize::MAX {
                    let again = Frame::Program { next: (next + 1) as usize };
                    if next > 0 {
                        let prev = p.statements[next - 1];
                        lemma_made(s, p, prev, s.environment, Pending::Now(s.control));
                        lemma_roots_wider(p, l, next as nat, chain_after(p, prev, chain), chain);
                    }
                    assert(roots_ok(p, l, next as nat, chain));
                    lemma_grounded_later(s, later);
                    assert(count == 1);
                    assert(stmt_ok(p, l, statement, chain));
                    assert(roots_ok(p, l, (next + 1) as nat, chain_after(p, statement, chain)));
                    assert(later.units == s.units && later.scopes == s.scopes);
                    assert(later.frames[count - 1] == again);
                    assert(frame_ok(
                        later,
                        again,
                        s.environment,
                        s.unit,
                        Pending::Now(later.control),
                    ));
                    assert(s.environment < later.scopes.len());
                    assert(s.unit < later.units.len());
                    assert(later.frames.len() == 1);
                    assert(later.frames[0] == again);
                    assert(!stands_on_statements(again));
                    assert(stack_ok(later, 0, s.environment, s.unit, Pending::Above(again)));
                    assert(stack_ok(
                        later,
                        1,
                        s.environment,
                        s.unit,
                        Pending::Now(later.control),
                    ));
                    assert(later.environment == s.environment && later.unit == s.unit);
                    assert(control_ok(later));
                }
            } else {
                lemma_pop(s);
                lemma_carry(popped(s), later);
            }
        },
        _ => {},
    }
}

/// Resuming a frame after a statement has completed keeps the agreement.
pub proof fn lemma_resume_normal_agrees(s: State)
    requires
        agrees(s),
        s.control == Control::Normal,
        s.frames.len() > 0,
    ensures
        agrees(resume_normal(s.pop_frame(), s.frames.last()).state),
{
    let frame = s.frames.last();
    let m = s.pop_frame();
    let later = resume_normal(m, frame).state;
    let p = program(s, s.unit);
    lemma_reset_agrees(s);
    assert(m.reset() == s.reset());
    match frame {
        Frame::Block { .. } => lemma_resume_block_agrees(s),
        Frame::Program { .. } => lemma_resume_program_agrees(s),
        Frame::LoopBody(id) => {
            lemma_pop(s);
            match stmt_at(m, id) {
                Some(Stmt::While(w)) => {
                    lemma_carry_push(popped(s), later, Frame::LoopCondition(id));
                },
                _ => {},
            }
        },
        Frame::CallBody { environment, unit } => {
            lemma_pop(s);
            lemma_carry(popped(s), later);
        },
        _ => {},
    }
}

/// Passing a `return` on through a frame, or handing it to the call, keeps
/// the agreement.
pub proof fn lemma_resume_returning_agrees(s: State)
    requires
        agrees(s),
        s.control == Control::Returning,
        s.frames.len() > 0,
        s.values.len() > 0,
    ensures
        agrees(resume_returning(s.pop_frame(), s.frames.last()).state),
{
    let frame = s.frames.last();
    let m = s.pop_frame();
    let later = resume_returning(m, frame).state;
    match frame {
        Frame::Program { next } => {
            assert(later.frames =~= s.frames);
            assert forall|k: int| 0 <= k < later.values.len() implies value_ok(
                s,
                #[trigger] later.values[k],
            ) || value_ok(later, later.values[k]) by {
                assert(later.values[k] == s.values[k]);
            }
            lemma_carry(s, later);
        },
        _ => {
            lemma_pop(s);
            lemma_carry(popped(s), later);
        },
    }
}

/// Answering a request keeps the agreement.
pub proof fn lemma_supply_agrees(s: State, bits: u64)
    requires
        agrees(s),
    ensures
        agrees(supply(s, bits)),
{
    let later = supply(s, bits);
    if s.control is Await {
        assert forall|k: int| 0 <= k < later.values.len() implies value_ok(
            s,
            #[trigger] later.values[k],
        ) || value_ok(later, later.values[k]) by {
            if k < s.values.len() {
                assert(later.values[k] == s.values[k]);
            }
        }
        lemma_carry(s, later);
    }
}

/// Every step keeps the agreement of the state with static scoping, as long
/// as the scopes can still be counted.
pub proof fn lemma_step_agrees(s: State)
    requires
        agrees(s),
        step(s).state.scopes.len() <= usize::MAX,
    ensures
        agrees(step(s).state),
{
    lemma_reset_agrees(s);
    match s.control {
        Control::Idle => {},
        Control::Await(request) => {},
        Control::Eval(Evalable::Expr(id)) => lemma_eval_expr_agrees(s, id),
        Control::Eval(Evalable::Stmt(id)) => lemma_eval_stmt_agrees(s, id),
        Control::Value => {
            if s.frames.len() > 0 && s.values.len() > 0 {
                lemma_resume_value_agrees(s);
            }
        },
        Control::Normal => {
            if s.frames.len() > 0 {
                lemma_resume_normal_agrees(s);
            } else {
                lemma_carry(s, step(s).state);
            }
        },
        Control::Returning => {
            if s.frames.len() > 0 && s.values.len() > 0 {
                lemma_resume_returning_agrees(s);
            }
        },
    }
}

/// A fresh machine agrees with static scoping.
pub proof fn lemma_fresh_agrees(s: State)
    requires
        s.units.len() == 0,
        s.scopes == seq![Scope { values: Map::empty(), enclosing: None }],
        s.values.len() == 0,
        s.frames.len() == 0,
        s.control == Control::Idle,
        s.environment == 0,
    ensures
        agrees(s),
{
}

/// Loading a well-formed program that is well scoped in the global scope
/// keeps the agreement.
pub proof fn lemma_load_agrees(s: State, unit: Unit)
    requires
        agrees(s),
        load(s, unit).units.len() <= usize::MAX,
        unit.program@.well_formed(),
        roots_ok(unit.program@, unit.locals@, 0, chain_of(s.scopes, 0)),
    ensures
        agrees(load(s, unit)),
{
    let later = load(s, unit);
    assert(unit.program@.stmts.len() <= usize::MAX) by {
        assert(unit.program.stmts.len() <= usize::MAX);
    }
    lemma_grounded_later(s, later);
    assert(later.frames[0] == Frame::Program { next: 0 });
    assert(later.unit == s.units.len());
    assert(later.units[later.unit as int] == unit);
    assert(later.scopes == s.scopes);
    assert(program(later, later.unit) == unit.program@);
    assert(locals(later, later.unit) == unit.locals@);
    assert(frame_ok(later, later.frames[0], 0, later.unit, Pending::Now(later.control)));
    assert(stack_ok(later, 0, 0, later.unit, Pending::Above(later.frames[0])));
    assert(stack_ok(later, 1, 0, later.unit, Pending::Now(later.control)));
}


/// What the front end establishes of a program and its side table before
/// it hands them on: the program is a well-formed tree in which no branch or
/// loop body is a declaration, it resolved without error, and the side table
/// is the one that the resolver made.
pub open spec fn accepted(program: ProgramView, locals: Seq<Option<usize>>) -> bool {
    &&& program.well_formed()
    &&& program.is_tree()
    &&& program.branches_plain()
    &&& resolve_program(program).errors.len() == 0
    &&& locals == resolve_program(program).locals
}

/// Loading a program that the front end accepted keeps the agreement.
pub proof fn lemma_load_resolved_agrees(s: State, unit: Unit)
    requires
        agrees(s),
        load(s, unit).units.len() <= usize::MAX,
        accepted(unit.program@, unit.locals@),
    ensures
        agrees(load(s, unit)),
{
    let global = s.scopes[0].values.dom();
    assert(unit.program@.stmts.len() <= usize::MAX) by {
        assert(unit.program.stmts.len() <= usize::MAX);
    }
    lemma_resolved_is_scoped(unit.program@, global);
    assert(chain_of(s.scopes, 0) == seq![global]);
    lemma_load_agrees(s, unit);
}

} // verus!
