//! The sign of a sign-magnitude number.

use vstd::prelude::*;

verus! {

/// Sign tag of a sign-magnitude value. It carries no magnitude of its own.
#[derive(Debug, Clone, Copy, PartialEq, Eq, Structural)]
pub enum Sign {
    Positive,
    Negative,
}

impl Sign {
    /// The opposite sign.
    pub open spec fn flipped(self) -> Sign {
        match self {
            Sign::Positive => Sign::Negative,
            Sign::Negative => Sign::Positive,
        }
    }

    /// The sign of a product of two factors with signs `a` and `b`.
    pub open spec fn product(a: Sign, b: Sign) -> Sign {
        if a == b {
            Sign::Positive
        } else {
            Sign::Negative
        }
    }

    /// The integer unit that the sign stands for: `1` or `-1`.
    pub open spec fn unit(self) -> int {
        match self {
            Sign::Positive => 1,
            Sign::Negative => -1,
        }
    }

    /// The opposite sign.
    pub fn flip(self) -> (r: Sign)
        ensures
            r == self.flipped(),
            r != self,
            r.flipped() == self,
    {
        match self {
            Sign::Positive => Sign::Negative,
            Sign::Negative => Sign::Positive,
        }
    }

    /// The sign of a product of two factors with signs `a` and `b`:
    /// positive where the signs are the same.
    pub fn sign_of_product(a: Sign, b: Sign) -> (r: Sign)
        ensures
            r == Sign::product(a, b),
            r.unit() == a.unit() * b.unit(),
    {
        match (a, b) {
            (Sign::Positive, Sign::Positive) => Sign::Positive,
            (Sign::Positive, Sign::Negative) => Sign::Negative,
            (Sign::Negative, Sign::Positive) => Sign::Negative,
            (Sign::Negative, Sign::Negative) => Sign::Positive,
        }
    }
}

} // verus!
