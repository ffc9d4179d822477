use vstd::prelude::*;
use crate::interpreter::value::{value_model, Val, Value};
use crate::span::Spanned;
use crate::text::same_text;

verus! {

/// Bindings from names to values, innermost last.
#[derive(Debug)]
pub struct Scopes(pub Vec<(Spanned<&'static str>, Value)>);

/// A length of a `Scopes`, to truncate it back to.
#[derive(Clone, Copy, Debug)]
pub struct ScopeLen(pub usize);

/// The mathematical form of scopes: names and values.
pub open spec fn scopes_model(s: Seq<(Spanned<&'static str>, Value)>) -> Seq<(Seq<char>, Val)> {
    s.map_values(|e: (Spanned<&'static str>, Value)| (e.0.inner@, value_model(e.1)))
}

/// The value of the innermost binding of `k`.
pub open spec fn lookup_name(s: Seq<(Seq<char>, Val)>, k: Seq<char>) -> Option<Val>
    decreases s.len(),
{
    if s.len() == 0 {
        None
    } else if s.last().0 == k {
        Some(s.last().1)
    } else {
        lookup_name(s.drop_last(), k)
    }
}

/// Binding `k` to `v` shadows every earlier binding of `k`: looking `k` up
/// gives `v`, and looking up any other name gives what it gave before.
pub proof fn law_lookup_name_after_push(s: Seq<(Seq<char>, Val)>, k: Seq<char>, v: Val, other: Seq<char>)
    ensures
        lookup_name(s.push((k, v)), k) == Some(v),
        other != k ==> lookup_name(s.push((k, v)), other) == lookup_name(s, other),
{
    assert(s.push((k, v)).drop_last() =~= s);
}

/// Truncating to the length that the bindings had before a push gives them
/// back as they were; so does a pop.
pub proof fn law_scopes_truncate_restores(s: Seq<(Seq<char>, Val)>, b: (Seq<char>, Val))
    ensures
        s.push(b).take(s.len() as int) == s,
        s.push(b).drop_last() == s,
{
    assert(s.push(b).take(s.len() as int) =~= s);
    assert(s.push(b).drop_last() =~= s);
}

impl View for Scopes {
    type V = Seq<(Seq<char>, Val)>;

    open spec fn view(&self) -> Seq<(Seq<char>, Val)> {
        scopes_model(self.0@)
    }
}

impl Scopes {
    pub fn new() -> (r: Scopes)
        ensures
            r@ == Seq::<(Seq<char>, Val)>::empty(),
    {
        let r = Scopes(Vec::new());
        assert(r@ =~= Seq::<(Seq<char>, Val)>::empty());
        r
    }

    /// Binds `k` to `v`, innermost.
    pub fn push(&mut self, k: Spanned<&'static str>, v: Value)
        ensures
            final(self)@ == old(self)@.push((k.inner@, value_model(v))),
    {
        self.0.push((k, v));
        assert(self@ =~= old(self)@.push((k.inner@, value_model(v))));
    }

    /// Removes the innermost binding, if there is one.
    pub fn pop(&mut self)
        ensures
            old(self)@.len() > 0 ==> final(self)@ == old(self)@.drop_last(),
            old(self)@.len() == 0 ==> final(self)@ == old(self)@,
    {
        let _ = self.0.pop();
        assert(old(self)@.len() > 0 ==> self@ =~= old(self)@.drop_last());
        assert(old(self)@.len() == 0 ==> self@ =~= old(self)@);
    }

    /// The value of the innermost binding of `k`.
    pub fn get(&self, k: &'static str) -> (r: Option<&Value>)
        ensures
            match r {
                Some(v) => lookup_name(self@, k@) == Some(value_model(*v)),
                None => lookup_name(self@, k@) is None,
            },
    {
        let mut i = self.0.len();
        assert(scopes_model(self.0@.take(i as int)) =~= self@);
        while i > 0
            invariant
                i <= self.0@.len(),
                lookup_name(self@, k@) == lookup_name(scopes_model(self.0@.take(i as int)), k@),
            decreases i,
        {
            let ghost prefix = self.0@.take(i as int);
            assert(scopes_model(prefix).drop_last() =~= scopes_model(self.0@.take(i - 1)));
            if same_text(self.0[i - 1].0.inner, k) {
                return Some(&self.0[i - 1].1);
            }
            i = i - 1;
        }
        None
    }

    /// The number of bindings.
    pub fn len(&self) -> (r: ScopeLen)
        ensures
            r.0 == self@.len(),
    {
        ScopeLen(self.0.len())
    }

    /// Keeps the first `len` bindings.
    pub fn truncate(&mut self, len: ScopeLen)
        ensures
            len.0 <= old(self)@.len() ==> final(self)@ == old(self)@.take(len.0 as int),
            len.0 > old(self)@.len() ==> final(self)@ == old(self)@,
    {
        self.0.truncate(len.0);
        assert(len.0 <= old(self)@.len() ==> self@ =~= old(self)@.take(len.0 as int));
        assert(len.0 > old(self)@.len() ==> self@ =~= old(self)@);
    }
}

} // verus!
