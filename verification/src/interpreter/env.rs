use vstd::prelude::*;
use crate::interpreter::value::{duplicate_value, env_model, lemma_env_model, Val, Value, value_model};
use crate::ir::Ident;

verus! {

/// The bindings in scope, innermost last.
#[derive(Debug)]
pub struct Env(pub Vec<(Ident, Value)>);

/// A length of an environment, to truncate it back to.
#[derive(Clone, Copy, Debug)]
pub struct EnvLen(pub usize);

/// The value of the innermost binding of `k` in `env`.
pub open spec fn lookup(env: Seq<(Ident, Val)>, k: Ident) -> Option<Val>
    decreases env.len(),
{
    if env.len() == 0 {
        None
    } else if env.last().0 == k {
        Some(env.last().1)
    } else {
        lookup(env.drop_last(), k)
    }
}

/// Binding `k` to `v` shadows every earlier binding of `k`: looking `k` up
/// gives `v`, and looking up any other name gives what it gave before.
pub proof fn law_lookup_after_push(env: Seq<(Ident, Val)>, k: Ident, v: Val, other: Ident)
    ensures
        lookup(env.push((k, v)), k) == Some(v),
        other != k ==> lookup(env.push((k, v)), other) == lookup(env, other),
{
    assert(env.push((k, v)).drop_last() =~= env);
}

/// Truncating to the length that the bindings had before a push or an append
/// gives them back as they were; so does a pop after a push.
pub proof fn law_truncate_restores(env: Seq<(Ident, Val)>, more: Seq<(Ident, Val)>, b: (Ident, Val))
    ensures
        (env + more).take(env.len() as int) == env,
        env.push(b).take(env.len() as int) == env,
        env.push(b).drop_last() == env,
{
    assert((env + more).take(env.len() as int) =~= env);
    assert(env.push(b).take(env.len() as int) =~= env);
    assert(env.push(b).drop_last() =~= env);
}

impl View for Env {
    type V = Seq<(Ident, Val)>;

    open spec fn view(&self) -> Seq<(Ident, Val)> {
        env_model(self.0@)
    }
}

impl Env {
    /// An environment with no binding.
    pub fn new() -> (r: Env)
        ensures
            r@ == Seq::<(Ident, Val)>::empty(),
    {
        Env(Vec::new())
    }

    /// Binds `k` to `v`, innermost.
    pub fn push(&mut self, k: Ident, v: Value)
        ensures
            final(self)@ == old(self)@.push((k, value_model(v))),
            final(self).0@ == old(self).0@.push((k, v)),
    {
        self.0.push((k, v));
        proof {
            assert(self.0@.drop_last() =~= old(self).0@);
        }
    }

    /// Removes the innermost binding, if there is one.
    pub fn pop(&mut self)
        ensures
            old(self)@.len() > 0 ==> final(self)@ == old(self)@.drop_last(),
            old(self)@.len() == 0 ==> final(self)@ == old(self)@,
            old(self).0@.len() > 0 ==> final(self).0@ == old(self).0@.drop_last(),
            old(self).0@.len() == 0 ==> final(self).0@ == old(self).0@,
    {
        proof {
            lemma_env_model(self.0@);
        }
        let _ = self.0.pop();
    }

    /// The value of the innermost binding of `k`.
    pub fn get(&self, k: Ident) -> (r: Option<Value>)
        ensures
            match r {
                Some(v) => lookup(self@, k) == Some(value_model(v)),
                None => lookup(self@, k) is None,
            },
    {
        let mut i = self.0.len();
        assert(self.0@.take(i as int) =~= self.0@);
        while i > 0
            invariant
                i <= self.0@.len(),
                lookup(self@, k) == lookup(env_model(self.0@.take(i as int)), k),
            decreases i,
        {
            let ghost prefix = self.0@.take(i as int);
            assert(prefix.drop_last() =~= self.0@.take(i - 1));
            assert(env_model(prefix).drop_last() =~= env_model(prefix.drop_last()));
            assert(prefix.last() == self.0@[i - 1]);
            if self.0[i - 1].0 == k {
                let v = duplicate_value(&self.0[i - 1].1);
                return Some(v);
            }
            i = i - 1;
        }
        None
    }

    /// The number of bindings.
    pub fn len(&self) -> (r: EnvLen)
        ensures
            r.0 == self@.len(),
            r.0 == self.0@.len(),
    {
        proof {
            lemma_env_model(self.0@);
        }
        EnvLen(self.0.len())
    }

    /// Moves the bindings of `other` after those of `self`.
    pub fn append(&mut self, other: &mut Env)
        ensures
            final(self)@ == old(self)@ + old(other)@,
            final(other)@ == Seq::<(Ident, Val)>::empty(),
            final(self).0@ == old(self).0@ + old(other).0@,
    {
        self.0.append(&mut other.0);
        proof {
            crate::interpreter::value::lemma_env_model_add(old(self).0@, old(other).0@);
        }
    }

    /// Keeps the first `len` bindings.
    pub fn truncate(&mut self, len: EnvLen)
        ensures
            len.0 <= old(self)@.len() ==> final(self)@ == old(self)@.take(len.0 as int),
            len.0 > old(self)@.len() ==> final(self)@ == old(self)@,
            len.0 <= old(self).0@.len() ==> final(self).0@ == old(self).0@.take(len.0 as int),
    {
        proof {
            lemma_env_model(self.0@);
        }
        self.0.truncate(len.0);
        proof {
            if len.0 <= old(self).0@.len() {
                crate::interpreter::value::lemma_env_model_take(old(self).0@, len.0 as int);
                assert(old(self).0@.subrange(0, len.0 as int) =~= old(self).0@.take(len.0 as int));
            }
        }
    }
}

} // verus!
