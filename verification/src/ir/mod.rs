pub mod ast;
pub mod pretty_print;
pub mod typed;
pub mod token;
use vstd::prelude::*;
use lasso::{Key, Rodeo, Spur};
use std::collections::hash_map::RandomState;

verus! {

#[verifier::external_type_specification]
#[verifier::external_body]
#[verifier::reject_recursive_types(K)]
#[verifier::reject_recursive_types(S)]
pub struct ExRodeo<K, S>(Rodeo<K, S>);

#[verifier::external_type_specification]
#[verifier::external_body]
pub struct ExSpur(Spur);

/// The strings that a `Rodeo` holds: the string with key index `i` is at `i`.
pub uninterp spec fn rodeo_strings(r: Rodeo<Spur, RandomState>) -> Seq<Seq<char>>;

/// `Rodeo::new`: an interner that holds no string.
#[verifier::external_body]
fn rodeo_new() -> (r: Rodeo<Spur, RandomState>)
    ensures
        rodeo_strings(r) == Seq::<Seq<char>>::empty(),
{
    Rodeo::new()
}

/// `Rodeo::get_or_intern`: the key index of `s`. A string that the
/// interner holds keeps its index and the interner is unchanged; a new
/// string is appended and gets the next index. The call panics when the
/// key space (`u32::MAX - 1` strings) is exhausted, which `requires`
/// leaves out.
#[verifier::external_body]
fn rodeo_get_or_intern(r: &mut Rodeo<Spur, RandomState>, s: &str) -> (k: usize)
    requires
        rodeo_strings(*old(r)).len() + 1 < u32::MAX,
    ensures
        rodeo_strings(*old(r)).contains(s@) ==> {
            &&& rodeo_strings(*final(r)) == rodeo_strings(*old(r))
            &&& k < rodeo_strings(*old(r)).len()
            &&& rodeo_strings(*old(r))[k as int] == s@
        },
        !rodeo_strings(*old(r)).contains(s@) ==> {
            &&& rodeo_strings(*final(r)) == rodeo_strings(*old(r)).push(s@)
            &&& k == rodeo_strings(*old(r)).len()
        },
{
    r.get_or_intern(s).into_usize()
}

/// `Rodeo::resolve`: the string with key index `k`. It panics on an index
/// that the interner does not hold, which `requires` leaves out.
#[verifier::external_body]
fn rodeo_resolve<'a>(r: &'a Rodeo<Spur, RandomState>, k: usize) -> (s: &'a str)
    requires
        k < rodeo_strings(*r).len(),
        k + 1 < u32::MAX,
    ensures
        s@ == rodeo_strings(*r)[k as int],
{
    r.resolve(&Spur::try_from_usize(k).unwrap())
}

/// A table of interned names: each distinct name has one index.
pub struct Interner {
    rodeo: Rodeo<Spur, RandomState>,
}

/// An interned name, identified by its index in an `Interner`.
#[derive(Clone, Copy, Debug, Hash, PartialEq, Eq, Structural)]
pub struct Ident(pub usize);

impl Interner {
    /// The names held, by index.
    pub closed spec fn names(&self) -> Seq<Seq<char>> {
        rodeo_strings(self.rodeo)
    }

    /// Whether the names are pairwise distinct and fit the key space.
    pub open spec fn wf(&self) -> bool {
        &&& self.names().len() + 1 < u32::MAX
        &&& forall|i: int, j: int|
            0 <= i < j < self.names().len() ==> self.names()[i] != self.names()[j]
    }

    /// Whether `ident` names an entry of this interner.
    pub open spec fn holds(&self, ident: Ident) -> bool {
        ident.0 < self.names().len()
    }

    /// The name of `ident`.
    pub open spec fn name_of(&self, ident: Ident) -> Seq<char> {
        self.names()[ident.0 as int]
    }

    /// An interner that holds no name.
    pub fn new() -> (r: Interner)
        ensures
            r.names() == Seq::<Seq<char>>::empty(),
            r.wf(),
    {
        Interner { rodeo: rodeo_new() }
    }

    pub fn len(&self) -> (r: usize)
        ensures
            r == self.names().len(),
    {
        let n = rodeo_len(&self.rodeo);
        n
    }

    /// The identifier of `name`, adding it when it is new.
    pub fn get_or_intern(&mut self, name: &str) -> (r: Ident)
        requires
            old(self).wf(),
            old(self).names().len() + 2 < u32::MAX,
        ensures
            final(self).wf(),
            final(self).holds(r),
            final(self).name_of(r) == name@,
            old(self).names().contains(name@) ==> final(self).names() == old(self).names(),
            !old(self).names().contains(name@) ==> final(self).names() == old(self).names().push(
                name@,
            ),
            old(self).names().is_prefix_of(final(self).names()),
    {
        let k = rodeo_get_or_intern(&mut self.rodeo, name);
        proof {
            let o = rodeo_strings(old(self).rodeo);
            let n = rodeo_strings(self.rodeo);
            if !o.contains(name@) {
                assert forall|i: int, j: int| 0 <= i < j < n.len() implies n[i] != n[j] by {
                    if j == o.len() {
                        assert(o[i] == n[i]);
                        assert(o.contains(o[i]));
                    } else {
                        assert(o[i] == n[i] && o[j] == n[j]);
                    }
                }
                assert(o.is_prefix_of(n));
            } else {
                assert(o.is_prefix_of(n));
            }
        }
        Ident(k)
    }

    /// The name of `ident`.
    pub fn resolve(&self, ident: Ident) -> (r: &str)
        requires
            self.wf(),
            self.holds(ident),
        ensures
            r@ == self.name_of(ident),
    {
        rodeo_resolve(&self.rodeo, ident.0)
    }
}

/// In a well-formed interner a name has one identifier: two held
/// identifiers with the same name are the same. With the contract of
/// `get_or_intern`, interning a name twice gives the same identifier.
pub proof fn law_one_identifier_per_name(interner: Interner, a: Ident, b: Ident)
    requires
        interner.wf(),
        interner.holds(a),
        interner.holds(b),
        interner.name_of(a) == interner.name_of(b),
    ensures
        a == b,
{
    if a.0 < b.0 {
        assert(interner.names()[a.0 as int] != interner.names()[b.0 as int]);
    } else if b.0 < a.0 {
        assert(interner.names()[b.0 as int] != interner.names()[a.0 as int]);
    }
}

/// `Rodeo::len`: the number of strings held.
#[verifier::external_body]
fn rodeo_len(r: &Rodeo<Spur, RandomState>) -> (n: usize)
    ensures
        n == rodeo_strings(*r).len(),
{
    r.len()
}

impl Ident {
    /// The name of the identifier in `interner`.
    pub fn resolve(self, interner: &Interner) -> (r: &str)
        requires
            interner.wf(),
            interner.holds(self),
        ensures
            r@ == interner.name_of(self),
    {
        interner.resolve(self)
    }

    /// The identifier of `name` in `interner`, adding the name when it is new.
    pub fn get_or_intern(interner: &mut Interner, name: &str) -> (r: Ident)
        requires
            old(interner).wf(),
            old(interner).names().len() + 2 < u32::MAX,
        ensures
            final(interner).wf(),
            final(interner).holds(r),
            final(interner).name_of(r) == name@,
            old(interner).names().contains(name@) ==> final(interner).names() == old(
                interner,
            ).names(),
            !old(interner).names().contains(name@) ==> final(interner).names() == old(
                interner,
            ).names().push(name@),
            old(interner).names().is_prefix_of(final(interner).names()),
    {
        interner.get_or_intern(name)
    }
}

} // verus!
