//! The outcome of comparing two numbers.

use vstd::prelude::*;

verus! {

/// How a left number stands to a right one.
#[derive(Debug, Clone, Copy, PartialEq, Eq, Structural)]
pub enum Comparison {
    Less,
    Equal,
    Greater,
}

impl Comparison {
    /// The comparison of the integers `a` and `b`.
    pub open spec fn of(a: int, b: int) -> Comparison {
        if a < b {
            Comparison::Less
        } else if a == b {
            Comparison::Equal
        } else {
            Comparison::Greater
        }
    }
}

} // verus!
