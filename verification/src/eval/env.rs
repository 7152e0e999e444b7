//! The environment: a stack of scopes that bind names to values.

use crate::eval::value::{Value, ValueView};
use vstd::prelude::*;

verus! {

/// One layer of bindings: each name is bound to one value.
pub type Scope = Map<Seq<char>, ValueView>;

/// The bindings that a list of entries makes; a later entry overrides an
/// earlier one of the same name.
pub open spec fn scope_view(entries: Seq<(String, Value)>) -> Scope
    decreases entries.len(),
{
    if entries.len() == 0 {
        Map::empty()
    } else {
        scope_view(entries.drop_last()).insert(entries.last().0@, entries.last().1@)
    }
}

/// The mathematical value of a stack of scopes, the outermost first.
pub open spec fn scopes_view(scopes: Seq<Vec<(String, Value)>>) -> Seq<Scope> {
    Seq::new(scopes.len(), |i: int| scope_view(scopes[i]@))
}

/// The value that `name` is bound to: that of the innermost scope that binds
/// it, or `None` where no scope does.
pub open spec fn lookup(env: Seq<Scope>, name: Seq<char>) -> Option<ValueView>
    decreases env.len(),
{
    if env.len() == 0 {
        None
    } else if env.last().contains_key(name) {
        Some(env.last()[name])
    } else {
        lookup(env.drop_last(), name)
    }
}

/// `env` with `name` bound to `value` in the innermost scope; the scopes
/// around it are unchanged.
pub open spec fn bind(env: Seq<Scope>, name: Seq<char>, value: ValueView) -> Seq<Scope> {
    env.update(env.len() - 1, env.last().insert(name, value))
}

/// A name is bound where an entry holds it, to the value of the last such
/// entry.
pub proof fn lemma_scope_entry(entries: Seq<(String, Value)>, i: int)
    requires
        0 <= i < entries.len(),
        forall|j: int| i < j < entries.len() ==> (#[trigger] entries[j]).0@ != entries[i].0@,
    ensures
        scope_view(entries).contains_key(entries[i].0@),
        scope_view(entries)[entries[i].0@] == entries[i].1@,
    decreases entries.len(),
{
    if i < entries.len() - 1 {
        let front = entries.drop_last();
        assert(front[i] == entries[i]);
        assert forall|j: int| i < j < front.len() implies (#[trigger] front[j]).0@
            != front[i].0@ by {
            assert(front[j] == entries[j]);
        }
        lemma_scope_entry(front, i);
        assert(entries[entries.len() - 1].0@ != entries[i].0@);
    }
}

/// A name that no entry holds is not bound.
pub proof fn lemma_scope_missing(entries: Seq<(String, Value)>, name: Seq<char>)
    requires
        forall|j: int| 0 <= j < entries.len() ==> (#[trigger] entries[j]).0@ != name,
    ensures
        !scope_view(entries).contains_key(name),
    decreases entries.len(),
{
    if entries.len() > 0 {
        let front = entries.drop_last();
        assert forall|j: int| 0 <= j < front.len() implies (#[trigger] front[j]).0@ != name by {
            assert(front[j] == entries[j]);
        }
        lemma_scope_missing(front, name);
        assert(entries[entries.len() - 1].0@ != name);
    }
}

/// Replacing the last entry of a name binds the name anew and changes
/// nothing else.
pub proof fn lemma_scope_replace(entries: Seq<(String, Value)>, i: int, entry: (String, Value))
    requires
        0 <= i < entries.len(),
        entries[i].0@ == entry.0@,
        forall|j: int| i < j < entries.len() ==> (#[trigger] entries[j]).0@ != entry.0@,
    ensures
        scope_view(entries.update(i, entry)) == scope_view(entries).insert(entry.0@, entry.1@),
    decreases entries.len(),
{
    let changed = entries.update(i, entry);
    let front = entries.drop_last();
    if i == entries.len() - 1 {
        assert(changed.drop_last() =~= front);
        assert(scope_view(changed) =~= scope_view(entries).insert(entry.0@, entry.1@));
    } else {
        assert(front[i] == entries[i]);
        assert forall|j: int| i < j < front.len() implies (#[trigger] front[j]).0@
            != entry.0@ by {
            assert(front[j] == entries[j]);
        }
        lemma_scope_replace(front, i, entry);
        assert(changed.drop_last() =~= front.update(i, entry));
        assert(changed.last() == entries.last());
        assert(entries[entries.len() - 1].0@ != entry.0@);
        assert(scope_view(changed) =~= scope_view(entries).insert(entry.0@, entry.1@));
    }
}

/// A later binding of a name overwrites an earlier one.
pub proof fn lemma_rebind(env: Seq<Scope>, name: Seq<char>, first: ValueView, second: ValueView)
    requires
        env.len() > 0,
    ensures
        lookup(bind(env, name, first), name) == Some(first),
        bind(bind(env, name, first), name, second) == bind(env, name, second),
        lookup(bind(bind(env, name, first), name, second), name) == Some(second),
{
    assert(bind(bind(env, name, first), name, second) =~= bind(env, name, second)) by {
        assert(env.last().insert(name, first).insert(name, second) =~= env.last().insert(
            name,
            second,
        ));
    }
}

/// The bindings of a session.
///
/// The outermost scope is there from the start and stays; names are looked up
/// from the innermost scope outwards.
pub struct Env {
    scopes: Vec<Vec<(String, Value)>>,
}

impl View for Env {
    type V = Seq<Scope>;

    closed spec fn view(&self) -> Seq<Scope> {
        scopes_view(self.scopes@)
    }
}

/// The index of the last entry that holds `name`.
fn find(entries: &Vec<(String, Value)>, name: &String) -> (found: Option<usize>)
    ensures
        match found {
            Some(i) => {
                &&& i < entries.len()
                &&& entries[i as int].0@ == name@
                &&& forall|j: int| i < j < entries.len() ==> (#[trigger] entries[j]).0@ != name@
            },
            None => forall|j: int| 0 <= j < entries.len() ==> (#[trigger] entries[j]).0@ != name@,
        },
{
    let mut i = entries.len();
    while i > 0
        invariant
            i <= entries.len(),
            forall|j: int| i <= j < entries.len() ==> (#[trigger] entries[j]).0@ != name@,
        decreases i,
    {
        i = i - 1;
        if entries[i].0 == *name {
            return Some(i);
        }
    }
    None
}

impl Env {
    /// An environment of one scope, which holds `builtins`; where a name
    /// occurs twice among them, the later entry counts.
    pub fn new(builtins: Vec<(String, Value)>) -> (env: Self)
        ensures
            env@ == seq![scope_view(builtins@)],
    {
        let mut scopes: Vec<Vec<(String, Value)>> = Vec::new();
        scopes.push(builtins);
        let env = Env { scopes };
        assert(env@ =~= seq![scope_view(builtins@)]);
        env
    }

    /// Binds `name` to `value` in the innermost scope, in place of what it was
    /// bound to there.
    pub fn add_binding(&mut self, name: String, value: Value)
        requires
            old(self)@.len() > 0,
        ensures
            final(self)@ == bind(old(self)@, name@, value@),
    {
        let mut scope = self.scopes.pop().unwrap();
        let ghost outer = self.scopes@;
        let ghost entries = scope@;
        match find(&scope, &name) {
            Some(i) => {
                proof {
                    lemma_scope_replace(entries, i as int, (name, value));
                }
                scope.set(i, (name, value));
            },
            None => {
                assert(entries.push((name, value)).drop_last() =~= entries);
                scope.push((name, value));
            },
        }
        self.scopes.push(scope);
        assert(self@ =~= bind(old(self)@, name@, value@));
    }

    /// The value that `name` is bound to in the innermost scope that binds
    /// it.
    pub fn get_binding(&self, name: String) -> (value: Option<&Value>)
        ensures
            match lookup(self@, name@) {
                Some(bound) => value matches Some(found) && found@ == bound,
                None => value is None,
            },
    {
        let mut i = self.scopes.len();
        assert(self@.take(i as int) =~= self@);
        while i > 0
            invariant
                i <= self.scopes.len(),
                lookup(self@, name@) == lookup(self@.take(i as int), name@),
            decreases i,
        {
            i = i - 1;
            assert(self@.take(i + 1).drop_last() =~= self@.take(i as int));
            assert(self@.take(i + 1).last() == scope_view(self.scopes[i as int]@));
            match find(&self.scopes[i], &name) {
                Some(j) => {
                    proof {
                        lemma_scope_entry(self.scopes[i as int]@, j as int);
                    }
                    return Some(&self.scopes[i][j].1);
                },
                None => {
                    proof {
                        lemma_scope_missing(self.scopes[i as int]@, name@);
                    }
                },
            }
        }
        None
    }

    /// Opens a new innermost scope, which binds nothing.
    pub fn push_scope(&mut self)
        ensures
            final(self)@ == old(self)@.push(Map::empty()),
    {
        self.scopes.push(Vec::new());
        assert(self@ =~= old(self)@.push(Map::empty()));
    }

    /// Closes the innermost scope. The outermost scope cannot be closed.
    pub fn pop_scope(&mut self)
        requires
            old(self)@.len() > 1,
        ensures
            final(self)@ == old(self)@.drop_last(),
    {
        self.scopes.pop();
        assert(self@ =~= old(self)@.drop_last());
    }

    /// The number of scopes.
    pub fn depth(&self) -> (n: usize)
        ensures
            n == self@.len(),
    {
        self.scopes.len()
    }
}

} // verus!
