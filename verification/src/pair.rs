//! A plain pair of two values.

use vstd::prelude::*;
use vstd::std_specs::cmp::PartialEqSpec;

verus! {

/// Two values, carried together.
#[derive(Debug)]
pub struct Pair<T, U> {
    pub first: T,
    pub second: U,
}

impl<T: Clone, U: Clone> Clone for Pair<T, U> {
    /// Clones both components.
    fn clone(&self) -> (r: Self)
        ensures
            vstd::pervasive::cloned::<T>(self.first, r.first),
            vstd::pervasive::cloned::<U>(self.second, r.second),
    {
        Pair { first: self.first.clone(), second: self.second.clone() }
    }
}

impl<T: PartialEqSpec, U: PartialEqSpec> PartialEq for Pair<T, U> {
    /// Pairs are equal when both components are.
    fn eq(&self, other: &Self) -> (r: bool) {
        self.first == other.first && self.second == other.second
    }
}

impl<T: PartialEqSpec, U: PartialEqSpec> vstd::std_specs::cmp::PartialEqSpecImpl for Pair<T, U> {
    open spec fn obeys_eq_spec() -> bool {
        T::obeys_eq_spec() && U::obeys_eq_spec()
    }

    open spec fn eq_spec(&self, other: &Self) -> bool {
        self.first.eq_spec(&other.first) && self.second.eq_spec(&other.second)
    }
}

/// The pair of `t` and `u`.
pub fn make_pair<T, U>(t: T, u: U) -> (r: Pair<T, U>)
    ensures
        r.first == t,
        r.second == u,
{
    Pair { first: t, second: u }
}

} // verus!
