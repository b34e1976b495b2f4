//! Numeric core of a terminal calculator: signed arbitrary-precision rationals
//! with an exactness flag, their arithmetic, ordering and decimal rendering.

pub mod arith;
pub mod bigrat;
pub mod biguint;
pub mod color;
pub mod decimal;
pub mod interrupt;
pub mod laws;
pub mod limb_arith;
pub mod limbs;
pub mod order;
pub mod rational;
pub mod relation;
pub mod sign;
pub mod termination;
