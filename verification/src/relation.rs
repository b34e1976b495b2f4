//! Equality and order of rational values, by the number that they stand for.

use crate::bigrat::BigRat;
use crate::biguint::BigUint;
use crate::order::Comparison;
use std::cmp::Ordering;
use vstd::prelude::*;
use vstd::std_specs::cmp::{PartialEqSpecImpl, PartialOrdSpecImpl};

verus! {

impl PartialEqSpecImpl for BigUint {
    open spec fn obeys_eq_spec() -> bool {
        true
    }

    open spec fn eq_spec(&self, other: &BigUint) -> bool {
        self@ == other@
    }
}

impl PartialEq for BigUint {
    /// Two numbers are equal where they are the same number.
    fn eq(&self, other: &BigUint) -> (r: bool) {
        self.equals(other)
    }
}

impl Eq for BigUint {

}

impl PartialEqSpecImpl for BigRat {
    open spec fn obeys_eq_spec() -> bool {
        true
    }

    open spec fn eq_spec(&self, other: &BigRat) -> bool {
        self@.eqv(other@)
    }
}

impl PartialEq for BigRat {
    /// Two values are equal where their difference is zero: the form in which
    /// each is held and its exactness do not count.
    fn eq(&self, other: &BigRat) -> (r: bool) {
        match self.compare(other) {
            Comparison::Equal => true,
            _ => false,
        }
    }
}

impl Eq for BigRat {

}

impl PartialOrdSpecImpl for BigRat {
    open spec fn obeys_partial_cmp_spec() -> bool {
        true
    }

    open spec fn partial_cmp_spec(&self, other: &BigRat) -> Option<Ordering> {
        if self@.less(other@) {
            Some(Ordering::Less)
        } else if self@.eqv(other@) {
            Some(Ordering::Equal)
        } else {
            Some(Ordering::Greater)
        }
    }
}

impl PartialOrd for BigRat {
    /// The order of two values is that of the numbers they stand for, read
    /// off the sign of their difference.
    fn partial_cmp(&self, other: &BigRat) -> (r: Option<Ordering>) {
        match self.compare(other) {
            Comparison::Less => Some(Ordering::Less),
            Comparison::Equal => Some(Ordering::Equal),
            Comparison::Greater => Some(Ordering::Greater),
        }
    }
}

} // verus!
