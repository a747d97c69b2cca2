//! The variable environment.
use crate::interpreter::{Value, ValueModel};
use vstd::prelude::*;

verus! {

/// The index of the first binding of `name` at or after `from`, or the length of `env`
/// where there is none.
pub open spec fn first_from(env: Seq<(Seq<char>, ValueModel)>, name: Seq<char>, from: int) -> int
    decreases env.len() - from,
{
    if from < 0 || from >= env.len() {
        env.len() as int
    } else if env[from].0 == name {
        from
    } else {
        first_from(env, name, from + 1)
    }
}

/// The index of the first binding of `name`, or the length of `env`.
pub open spec fn index_of(env: Seq<(Seq<char>, ValueModel)>, name: Seq<char>) -> int {
    first_from(env, name, 0)
}

/// The value bound to `name`, if any.
pub open spec fn lookup(env: Seq<(Seq<char>, ValueModel)>, name: Seq<char>) -> Option<
    ValueModel,
> {
    let i = index_of(env, name);
    if i < env.len() {
        Some(env[i].1)
    } else {
        None
    }
}

/// `env` with `name` bound to `value`: in place where `name` was bound, at the end
/// where it was not.
pub open spec fn bind(env: Seq<(Seq<char>, ValueModel)>, name: Seq<char>, value: ValueModel) -> Seq<
    (Seq<char>, ValueModel),
> {
    let i = index_of(env, name);
    if i < env.len() {
        env.update(i, (name, value))
    } else {
        env.push((name, value))
    }
}

/// No name is bound twice.
pub open spec fn unique_names(env: Seq<(Seq<char>, ValueModel)>) -> bool {
    forall|i: int, j: int| 0 <= i < j < env.len() ==> env[i].0 != env[j].0
}

/// `first_from` finds a binding of `name` and none stands between `from` and it, or
/// it finds none and none stands at or after `from`.
pub proof fn lemma_first_from(env: Seq<(Seq<char>, ValueModel)>, name: Seq<char>, from: int)
    requires
        0 <= from <= env.len(),
    ensures
        from <= first_from(env, name, from) <= env.len(),
        first_from(env, name, from) < env.len() ==> env[first_from(env, name, from)].0 == name,
        forall|k: int| from <= k < first_from(env, name, from) ==> (#[trigger] env[k]).0 != name,
    decreases env.len() - from,
{
    if from < env.len() && env[from].0 != name {
        lemma_first_from(env, name, from + 1);
    }
}

/// A mapping from names to values that keeps the order in which names were first bound.
#[derive(Debug)]
pub struct Context {
    pub stack: Vec<(String, Value)>,
}

impl View for Context {
    type V = Seq<(Seq<char>, ValueModel)>;

    open spec fn view(&self) -> Seq<(Seq<char>, ValueModel)> {
        Seq::new(self.stack.len() as nat, |i: int| (self.stack[i].0@, self.stack[i].1@))
    }
}

impl Clone for Context {
    fn clone(&self) -> (r: Self)
        ensures
            r@ == self@,
    {
        let mut stack: Vec<(String, Value)> = Vec::new();
        let mut i: usize = 0;
        while i < self.stack.len()
            invariant
                i <= self.stack.len(),
                stack.len() == i,
                forall|j: int|
                    0 <= j < i ==> stack[j].0@ == self.stack[j].0@ && stack[j].1@
                        == self.stack[j].1@,
            decreases self.stack.len() - i,
        {
            let name = self.stack[i].0.clone();
            let value = self.stack[i].1.clone();
            stack.push((name, value));
            i += 1;
        }
        let r = Context { stack };
        assert(r@ =~= self@);
        r
    }
}

impl Context {
    /// Every name is bound at most once.
    pub open spec fn well_formed(&self) -> bool {
        unique_names(self@)
    }

    /// The environment that binds nothing.
    pub fn new() -> (r: Self)
        ensures
            r@ == Seq::<(Seq<char>, ValueModel)>::empty(),
            r.well_formed(),
    {
        let r = Self { stack: Vec::new() };
        assert(r@ =~= Seq::<(Seq<char>, ValueModel)>::empty());
        r
    }

    /// Binds `var` to a copy of `value`, overwriting the binding `var` had.
    pub fn set(&mut self, var: &String, value: &Value)
        ensures
            final(self)@ == bind(old(self)@, var@, value@),
            old(self).well_formed() ==> final(self).well_formed(),
            lookup(final(self)@, var@) == Some(value@),
            forall|other: Seq<char>|
                other != var@ ==> lookup(final(self)@, other) == lookup(old(self)@, other),
    {
        let ghost before = self@;
        proof {
            lemma_lookup_after_bind(before, var@, value@, var@);
            assert forall|other: Seq<char>| other != var@ implies #[trigger] lookup(
                bind(before, var@, value@),
                other,
            ) == lookup(before, other) by {
                lemma_lookup_after_bind(before, var@, value@, other);
            }
        }
        let mut i: usize = 0;
        while i < self.stack.len()
            invariant
                i <= self.stack.len(),
                self@ == before,
                before == old(self)@,
                lookup(bind(before, var@, value@), var@) == Some(value@),
                forall|other: Seq<char>|
                    other != var@ ==> #[trigger] lookup(bind(before, var@, value@), other)
                        == lookup(before, other),
                first_from(before, var@, 0) == first_from(before, var@, i as int),
            decreases self.stack.len() - i,
        {
            if self.stack[i].0 == *var {
                proof {
                    assert(before[i as int].0 == var@);
                    assert(first_from(before, var@, i as int) == i);
                }
                self.stack.set(i, (var.clone(), value.clone()));
                proof {
                    assert(self@ =~= before.update(i as int, (var@, value@)));
                    lemma_bind_keeps_unique(before, var@, value@);
                }
                return ;
            }
            proof {
                assert(before[i as int].0 != var@);
                assert(first_from(before, var@, i as int) == first_from(before, var@, i + 1));
            }
            i += 1;
        }
        proof {
            assert(first_from(before, var@, i as int) == before.len());
        }
        self.stack.push((var.clone(), value.clone()));
        proof {
            assert(self@ =~= before.push((var@, value@)));
            lemma_bind_keeps_unique(before, var@, value@);
        }
    }

    /// A copy of the value bound to `var`, if any. The environment stays as it is.
    pub fn get(&mut self, var: &String) -> (r: Option<Value>)
        ensures
            final(self)@ == old(self)@,
            match r {
                Some(value) => lookup(old(self)@, var@) == Some(value@),
                None => lookup(old(self)@, var@) is None,
            },
    {
        let mut i: usize = 0;
        while i < self.stack.len()
            invariant
                i <= self.stack.len(),
                *self == *old(self),
                first_from(self@, var@, 0) == first_from(self@, var@, i as int),
            decreases self.stack.len() - i,
        {
            if self.stack[i].0 == *var {
                proof {
                    assert(self@[i as int].0 == var@);
                    assert(first_from(self@, var@, i as int) == i);
                }
                return Some(self.stack[i].1.clone());
            }
            proof {
                assert(self@[i as int].0 != var@);
                assert(first_from(self@, var@, i as int) == first_from(self@, var@, i + 1));
            }
            i += 1;
        }
        proof {
            assert(first_from(self@, var@, i as int) == self@.len());
        }
        None
    }
}

/// Binding keeps names unique.
pub proof fn lemma_bind_keeps_unique(
    env: Seq<(Seq<char>, ValueModel)>,
    name: Seq<char>,
    value: ValueModel,
)
    ensures
        unique_names(env) ==> unique_names(bind(env, name, value)),
{
    lemma_first_from(env, name, 0);
}

/// After binding, looking the name up gives the value bound, and every other name
/// gives what it gave before.
pub proof fn lemma_lookup_after_bind(
    env: Seq<(Seq<char>, ValueModel)>,
    name: Seq<char>,
    value: ValueModel,
    other: Seq<char>,
)
    ensures
        lookup(bind(env, name, value), name) == Some(value),
        other != name ==> lookup(bind(env, name, value), other) == lookup(env, other),
{
    let after = bind(env, name, value);
    lemma_first_from(env, name, 0);
    lemma_first_from(after, name, 0);
    lemma_first_from(env, other, 0);
    lemma_first_from(after, other, 0);
    let i = index_of(env, name);
    if i < env.len() {
        assert(after[i].0 == name);
    } else {
        assert(after[env.len() as int].0 == name);
    }
    if other != name {
        let a = index_of(env, other);
        let b = index_of(after, other);
        if a < env.len() {
            assert(after[a].0 == other);
        }
        if b < after.len() {
            if b < env.len() {
                assert(env[b].0 == other);
            }
        }
    }
}

/// Binding a name that is bound keeps the length and the places of all names;
/// binding a new name adds it at the end.
pub proof fn lemma_bind_keeps_order(
    env: Seq<(Seq<char>, ValueModel)>,
    name: Seq<char>,
    value: ValueModel,
)
    ensures
        lookup(env, name) is Some ==> bind(env, name, value).len() == env.len(),
        lookup(env, name) is None ==> bind(env, name, value).len() == env.len() + 1,
        forall|k: int| 0 <= k < env.len() ==> (#[trigger] bind(env, name, value)[k]).0 == env[k].0,
{
    lemma_first_from(env, name, 0);
}

} // verus!
