//! The set of calls that are still going on.

use vstd::prelude::*;

verus! {

/// `ahash::RandomState`, the hasher state of the set below: carried through,
/// never looked into.
#[verifier::external_type_specification]
#[verifier::external_body]
pub struct ExRandomState(ahash::RandomState);

/// `ahash::AHashSet`, seen only through [`call_numbers`].
#[verifier::external_type_specification]
#[verifier::external_body]
#[verifier::reject_recursive_types(T)]
#[verifier::reject_recursive_types(S)]
pub struct ExAHashSet<T, S>(ahash::AHashSet<T, S>);

/// The identity of one call of a macro.
#[derive(Clone, Copy, Debug, PartialEq, Eq, Structural, Hash)]
pub struct CallId(pub usize);

/// What a hash set of call numbers holds.
pub uninterp spec fn call_numbers(s: ahash::AHashSet<usize>) -> Set<usize>;

/// `AHashSet::new`: a set with nothing in it.
#[verifier::external_body]
fn set_new() -> (s: ahash::AHashSet<usize>)
    ensures
        call_numbers(s) == Set::<usize>::empty(),
{
    ahash::AHashSet::new()
}

/// `HashSet::insert`, reached through the hash set of `ahash`: the set then
/// holds the number besides what it held, and the result says whether the
/// number is new to it.
#[verifier::external_body]
fn set_insert(s: &mut ahash::AHashSet<usize>, n: usize) -> (r: bool)
    ensures
        call_numbers(*final(s)) == call_numbers(*old(s)).insert(n),
        r == !call_numbers(*old(s)).contains(n),
{
    s.insert(n)
}

/// `HashSet::contains`, reached through the hash set of `ahash`: whether the
/// set holds the number.
#[verifier::external_body]
fn set_contains(s: &ahash::AHashSet<usize>, n: usize) -> (r: bool)
    ensures
        r == call_numbers(*s).contains(n),
{
    s.contains(&n)
}

/// The calls that are still going on.
pub struct LiveCalls {
    pub numbers: ahash::AHashSet<usize>,
}

impl View for LiveCalls {
    type V = Set<usize>;

    open spec fn view(&self) -> Set<usize> {
        call_numbers(self.numbers)
    }
}

impl LiveCalls {
    /// No call.
    pub fn new() -> (r: LiveCalls)
        ensures
            r@ == Set::<usize>::empty(),
    {
        LiveCalls { numbers: set_new() }
    }

    /// Records the call `id` as going on. Returns whether it was not
    /// recorded before.
    pub fn insert(&mut self, id: CallId) -> (r: bool)
        ensures
            final(self)@ == old(self)@.insert(id.0),
            r == !old(self)@.contains(id.0),
    {
        set_insert(&mut self.numbers, id.0)
    }

    /// Whether the call `id` is going on.
    pub fn contains(&self, id: CallId) -> (r: bool)
        ensures
            r == self@.contains(id.0),
    {
        set_contains(&self.numbers, id.0)
    }
}

} // verus!
