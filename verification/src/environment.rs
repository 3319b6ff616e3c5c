//! Lexical scopes.
//!
//! Every scope lives in one array, which only grows. A scope names its
//! enclosing scope by index, and a closure names the scope it captured the
//! same way, so a scope is shared by reference among everything that names
//! it.

use crate::error::{LoxError, LoxErrorView};
use crate::lox_object::LoxObject;
use crate::token::{Token, TokenView};
use vstd::hash_map::StringHashMap;
use vstd::prelude::*;

verus! {

/// One scope: its bindings and the scope around it.
pub struct Environment {
    pub values: StringHashMap<LoxObject>,
    pub enclosing: Option<usize>,
}

/// The mathematical content of an [`Environment`].
pub struct Scope {
    pub values: Map<Seq<char>, LoxObject>,
    pub enclosing: Option<usize>,
}

impl View for Environment {
    type V = Scope;

    open spec fn view(&self) -> Scope {
        Scope { values: self.values@, enclosing: self.enclosing }
    }
}

pub open spec fn scope_views(scopes: Seq<Environment>) -> Seq<Scope> {
    scopes.map_values(|e: Environment| e@)
}

/// The scope reached from `scope` by following `depth` enclosing links.
pub open spec fn ancestor(scopes: Seq<Scope>, scope: usize, depth: nat) -> Option<usize>
    decreases depth,
{
    if scope >= scopes.len() {
        None
    } else if depth == 0 {
        Some(scope)
    } else {
        match scopes[scope as int].enclosing {
            Some(outer) => ancestor(scopes, outer, (depth - 1) as nat),
            None => None,
        }
    }
}

/// The nearest scope, from `scope` outwards, that binds `name`.
///
/// A scope's enclosing scope was made before it, so it has a smaller index;
/// a link that does not point to a smaller index ends the walk.
pub open spec fn holder(scopes: Seq<Scope>, scope: usize, name: Seq<char>) -> Option<usize>
    decreases scope,
{
    if scope >= scopes.len() {
        None
    } else if scopes[scope as int].values.contains_key(name) {
        Some(scope)
    } else {
        match scopes[scope as int].enclosing {
            Some(outer) => if outer < scope {
                holder(scopes, outer, name)
            } else {
                None
            },
            None => None,
        }
    }
}

/// The value that `name` has when seen from `scope`.
pub open spec fn lookup(scopes: Seq<Scope>, scope: usize, name: Seq<char>) -> Option<LoxObject> {
    match holder(scopes, scope, name) {
        Some(h) => Some(scopes[h as int].values[name]),
        None => None,
    }
}

/// The scope `scope` with `name` bound to `value`, whatever it was before.
pub open spec fn bind(scope: Scope, name: Seq<char>, value: LoxObject) -> Scope {
    Scope { values: scope.values.insert(name, value), enclosing: scope.enclosing }
}

/// The scopes after `name` has been defined in `scope`.
pub open spec fn defined(
    scopes: Seq<Scope>,
    scope: usize,
    name: Seq<char>,
    value: LoxObject,
) -> Seq<Scope> {
    if scope < scopes.len() {
        scopes.update(scope as int, bind(scopes[scope as int], name, value))
    } else {
        scopes
    }
}

/// The scopes after `value` has been assigned to `name`, seen from `scope`:
/// the nearest scope that binds `name` is updated. Assignment never makes a
/// binding; without one there is no result.
pub open spec fn assigned(
    scopes: Seq<Scope>,
    scope: usize,
    name: Seq<char>,
    value: LoxObject,
) -> Option<Seq<Scope>> {
    match holder(scopes, scope, name) {
        Some(h) => Some(defined(scopes, h, name, value)),
        None => None,
    }
}

pub open spec fn undefined_variable(name: TokenView) -> LoxErrorView {
    LoxErrorView {
        line: name.line,
        message: "Undefined variable '"@ + name.lexeme + "'."@,
        position: name.position,
    }
}

/// The nearest binding of a name is found where the name is held, and the
/// holder lies in the array.
pub proof fn lemma_holder_binds(scopes: Seq<Scope>, scope: usize, name: Seq<char>)
    ensures
        holder(scopes, scope, name) matches Some(h) ==> h <= scope && h < scopes.len()
            && scopes[h as int].values.contains_key(name),
    decreases scope,
{
    if scope < scopes.len() && !scopes[scope as int].values.contains_key(name) {
        match scopes[scope as int].enclosing {
            Some(outer) => {
                if outer < scope {
                    lemma_holder_binds(scopes, outer, name);
                }
            },
            None => {},
        }
    }
}

/// What a scope sees does not depend on scopes that were made after it.
pub proof fn lemma_holder_ignores_later_scopes(
    scopes: Seq<Scope>,
    longer: Seq<Scope>,
    scope: usize,
    name: Seq<char>,
)
    requires
        scope < scopes.len() <= longer.len(),
        forall|i: int| 0 <= i <= scope ==> longer[i] == scopes[i],
    ensures
        holder(longer, scope, name) == holder(scopes, scope, name),
    decreases scope,
{
    if !scopes[scope as int].values.contains_key(name) {
        match scopes[scope as int].enclosing {
            Some(outer) => {
                if outer < scope {
                    lemma_holder_ignores_later_scopes(scopes, longer, outer, name);
                }
            },
            None => {},
        }
    }
}

/// An assignment is seen from every scope that finds the name in the same
/// place: scopes are shared, not copied.
pub proof fn lemma_assignment_is_shared(
    scopes: Seq<Scope>,
    writer: usize,
    reader: usize,
    name: Seq<char>,
    value: LoxObject,
)
    requires
        holder(scopes, writer, name) is Some,
        holder(scopes, reader, name) == holder(scopes, writer, name),
    ensures
        assigned(scopes, writer, name, value) is Some,
        lookup(assigned(scopes, writer, name, value)->Some_0, reader, name) == Some(value),
{
    let h = holder(scopes, writer, name)->Some_0;
    lemma_holder_binds(scopes, writer, name);
    let after = defined(scopes, h, name, value);
    lemma_holder_after_define(scopes, h, reader, name, value);
}

/// Assignment never makes a binding, and it removes none: every scope binds
/// the same names after it as before, and is enclosed by the same scope.
pub proof fn lemma_assignment_keeps_names(
    scopes: Seq<Scope>,
    scope: usize,
    name: Seq<char>,
    value: LoxObject,
)
    requires
        assigned(scopes, scope, name, value) is Some,
    ensures
        ({
            let after = assigned(scopes, scope, name, value)->Some_0;
            &&& after.len() == scopes.len()
            &&& forall|i: int|
                0 <= i < scopes.len() ==> (#[trigger] after[i]).values.dom() =~= scopes[i].values.dom()
                    && after[i].enclosing == scopes[i].enclosing
        }),
{
    lemma_holder_binds(scopes, scope, name);
}

/// Defining a name in the scope where `reader` already finds it does not
/// change where `reader` finds it.
pub proof fn lemma_holder_after_define(
    scopes: Seq<Scope>,
    h: usize,
    reader: usize,
    name: Seq<char>,
    value: LoxObject,
)
    requires
        holder(scopes, reader, name) == Some(h),
    ensures
        holder(defined(scopes, h, name, value), reader, name) == Some(h),
    decreases reader,
{
    lemma_holder_binds(scopes, reader, name);
    let after = defined(scopes, h, name, value);
    if reader < scopes.len() && !scopes[reader as int].values.contains_key(name) {
        match scopes[reader as int].enclosing {
            Some(outer) => {
                if outer < reader {
                    lemma_holder_after_define(scopes, h, outer, name, value);
                }
            },
            None => {},
        }
    }
}

impl Environment {
    /// A scope with no bindings and nothing around it.
    pub fn new() -> (e: Environment)
        ensures
            e@ == (Scope { values: Map::empty(), enclosing: None }),
    {
        Environment { values: StringHashMap::new(), enclosing: None }
    }

    /// A scope with no bindings inside the scope `enclosing`.
    pub fn new_with_enclosing(enclosing: usize) -> (e: Environment)
        ensures
            e@ == (Scope { values: Map::empty(), enclosing: Some(enclosing) }),
    {
        Environment { values: StringHashMap::new(), enclosing: Some(enclosing) }
    }

    /// Binds `name` to `value` in this scope, replacing any earlier binding.
    pub fn define(&mut self, name: String, value: LoxObject)
        ensures
            final(self)@ == bind(old(self)@, name@, value),
    {
        self.values.insert(name, value);
    }

    /// The scope reached from `scope` by following `depth` enclosing links.
    pub fn ancestor(scopes: &Vec<Environment>, scope: usize, depth: usize) -> (r: Option<usize>)
        ensures
            r == ancestor(scope_views(scopes@), scope, depth as nat),
    {
        let mut at = scope;
        let mut left = depth;
        while left > 0
            invariant
                ancestor(scope_views(scopes@), at, left as nat) == ancestor(
                    scope_views(scopes@),
                    scope,
                    depth as nat,
                ),
            decreases left,
        {
            if at >= scopes.len() {
                return None;
            }
            match scopes[at].enclosing {
                Some(outer) => {
                    at = outer;
                    left -= 1;
                },
                None => {
                    return None;
                },
            }
        }
        if at < scopes.len() {
            Some(at)
        } else {
            None
        }
    }

    /// The nearest scope, from `scope` outwards, that binds `name`.
    pub fn holder(scopes: &Vec<Environment>, scope: usize, name: &str) -> (r: Option<usize>)
        ensures
            r == holder(scope_views(scopes@), scope, name@),
    {
        let mut at = scope;
        loop
            invariant
                holder(scope_views(scopes@), at, name@) == holder(
                    scope_views(scopes@),
                    scope,
                    name@,
                ),
            decreases at,
        {
            if at >= scopes.len() {
                return None;
            }
            if scopes[at].values.contains_key(name) {
                return Some(at);
            }
            match scopes[at].enclosing {
                Some(outer) => {
                    if outer < at {
                        at = outer;
                    } else {
                        return None;
                    }
                },
                None => {
                    return None;
                },
            }
        }
    }

    /// The value of the variable `name`, seen from `scope`.
    pub fn get(scopes: &Vec<Environment>, scope: usize, name: &Token) -> (r: Result<
        LoxObject,
        LoxError,
    >)
        ensures
            match lookup(scope_views(scopes@), scope, name.lexeme@) {
                Some(value) => r == Ok::<LoxObject, LoxError>(value),
                None => r is Err && r->Err_0@ == undefined_variable(name@),
            },
    {
        proof {
            lemma_holder_binds(scope_views(scopes@), scope, name.lexeme@);
        }
        match Environment::holder(scopes, scope, name.lexeme.as_str()) {
            Some(h) => {
                match scopes[h].values.get(name.lexeme.as_str()) {
                    Some(x) => Ok(*x),
                    None => Err(Environment::undefined(name)),
                }
            },
            None => Err(Environment::undefined(name)),
        }
    }

    /// Assigns `value` to the variable `name`, seen from `scope`.
    pub fn assign(scopes: &mut Vec<Environment>, scope: usize, name: &Token, value: LoxObject) -> (r:
        Result<(), LoxError>)
        ensures
            match assigned(scope_views(old(scopes)@), scope, name.lexeme@, value) {
                Some(after) => r is Ok && scope_views(final(scopes)@) == after,
                None => r is Err && r->Err_0@ == undefined_variable(name@) && final(scopes)@ == old(
                    scopes,
                )@,
            },
    {
        proof {
            lemma_holder_binds(scope_views(scopes@), scope, name.lexeme@);
        }
        match Environment::holder(scopes, scope, name.lexeme.as_str()) {
            Some(h) => {
                scopes[h].define(name.lexeme.clone(), value);
                assert(scope_views(scopes@) =~= defined(
                    scope_views(old(scopes)@),
                    h,
                    name.lexeme@,
                    value,
                ));
                Ok(())
            },
            None => Err(Environment::undefined(name)),
        }
    }

    /// The error for a variable that nothing binds.
    pub fn undefined(name: &Token) -> (e: LoxError)
        ensures
            e@ == undefined_variable(name@),
    {
        let message = String::from_str("Undefined variable '").concat(name.lexeme.as_str()).concat(
            "'.",
        );
        LoxError::error(name.line, message, name.position)
    }
}

} // verus!
