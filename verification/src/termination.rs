//! When the expansion of a rational in a base ends, and the digits of the
//! expansion.

use crate::arith::{
    divides, gcd, lemma_divides_le, lemma_divides_mul, lemma_divides_multiple, lemma_divides_sub,
    lemma_divides_witness, lemma_euclid, lemma_gcd_divides, lemma_gcd_greatest, power,
};
use crate::rational::{expansion_length, Rational};
use vstd::arithmetic::div_mod::lemma_fundamental_div_mod;
use vstd::prelude::*;

verus! {

/// Whether an expansion ends depends on the number alone, not on the form in
/// which it is held.
pub proof fn lemma_terminates_same_number(x: Rational, y: Rational, base: nat)
    requires
        x.wf(),
        y.wf(),
        x.num * y.den == y.num * x.den,
    ensures
        x.terminates_in(base) ==> y.terminates_in(base),
{
    if x.terminates_in(base) {
        let k = choose|k: nat| divides(x.den, x.num * #[trigger] power(base, k));
        let p = power(base, k);
        lemma_divides_witness(x.den, x.num * p);
        let q = (x.num * p) / x.den;
        assert(y.num * p == y.den * q) by (nonlinear_arith)
            requires
                x.num * p == x.den * q,
                x.num * y.den == y.num * x.den,
                x.den > 0,
        ;
        lemma_divides_multiple(y.den, q);
        assert(divides(y.den, y.num * power(base, k)));
    }
}

/// A number times the base has an expansion that ends where that of the
/// number does.
pub proof fn lemma_terminates_scaled(x: Rational, base: nat)
    requires
        x.wf(),
    ensures
        x.mul(Rational::from_int(base as int)).terminates_in(base) <==> x.terminates_in(base),
{
    let y = x.mul(Rational::from_int(base as int));
    assert(y.den == x.den) by {
        assert(x.den * 1 == x.den);
    }
    assert(y.num == x.num * base);
    if x.terminates_in(base) {
        let k = choose|k: nat| divides(x.den, x.num * #[trigger] power(base, k));
        let p = power(base, k);
        lemma_divides_mul(x.den, x.num * p, base);
        assert((x.num * p) * base == (x.num * base) * p) by (nonlinear_arith);
        assert(divides(y.den, y.num * power(base, k)));
    }
    if y.terminates_in(base) {
        let k = choose|k: nat| divides(y.den, y.num * #[trigger] power(base, k));
        let p = power(base, k);
        assert(power(base, k + 1) == base * p);
        assert((x.num * base) * p == x.num * (base * p)) by (nonlinear_arith);
        assert(divides(x.den, x.num * power(base, k + 1)));
    }
}

/// A denominator that shares no divisor with the numerator nor with the base
/// divides no power of the base times the numerator, unless it is one.
proof fn lemma_coprime_power(d: nat, n: nat, base: nat, k: nat)
    requires
        d > 0,
        gcd(n, d) == 1,
        gcd(d, base) == 1,
        divides(d, n * power(base, k)),
    ensures
        d == 1,
    decreases k,
{
    if k == 0 {
        assert(n * 1 == n);
        lemma_divides_multiple(d, 1);
        assert(d * 1 == d);
        lemma_gcd_greatest(n, d, d);
        lemma_divides_le(d, 1);
    } else {
        let p = power(base, (k - 1) as nat);
        assert(n * (base * p) == (n * p) * base) by (nonlinear_arith);
        lemma_euclid(d, n * p, base);
        lemma_coprime_power(d, n, base, (k - 1) as nat);
    }
}

/// Where a multiple of the base stands over a denominator in lowest terms,
/// the expansion ends only if the denominator is one.
pub proof fn lemma_stable_decides(x: Rational, m: nat, base: nat)
    requires
        x.wf(),
        x.num == m * base,
        gcd(x.num, x.den) == 1,
    ensures
        x.terminates_in(base) <==> x.den == 1,
{
    let d = x.den;
    if x.terminates_in(base) {
        let k = choose|k: nat| divides(x.den, x.num * #[trigger] power(base, k));
        let g = gcd(d, base);
        lemma_gcd_divides(d, base);
        lemma_divides_mul(g, base, m);
        lemma_gcd_greatest(x.num, d, g);
        lemma_divides_le(g, 1);
        lemma_coprime_power(d, x.num, base, k);
    }
    if d == 1 {
        assert(x.num * power(base, 0) % 1 == 0);
        assert(divides(x.den, x.num * power(base, 0)));
    }
}

/// The remainder of a number whose expansion ends has an expansion that ends
/// after `expansion_length` digits.
pub proof fn lemma_expansion_length(x: Rational)
    requires
        x.wf(),
        x.terminates_in(10),
    ensures
        divides(x.den, (x.num % x.den) * power(10, expansion_length(x.num % x.den, x.den))),
{
    let k = choose|k: nat| divides(x.den, x.num * #[trigger] power(10, k));
    let p = power(10, k);
    let q = x.num / x.den;
    let r = x.num % x.den;
    lemma_fundamental_div_mod(x.num as int, x.den as int);
    assert(x.num * p == x.den * (q * p) + r * p) by (nonlinear_arith)
        requires
            x.num == x.den * q + r,
    ;
    lemma_divides_multiple(x.den, q * p);
    lemma_divides_sub(x.den, x.num * p, x.den * (q * p));
    assert(divides(x.den, r * power(10, k)));
}

/// One digit of an expansion that ends within `left` digits: the rest ends
/// within one digit less.
pub proof fn lemma_expansion_step(rem: nat, den: nat, left: nat)
    requires
        den > 0,
        0 < rem < den,
        divides(den, rem * power(10, left)),
    ensures
        left > 0,
        divides(den, (rem * 10 % den) * power(10, (left - 1) as nat)),
{
    if left == 0 {
        assert(rem * 1 == rem);
        lemma_divides_le(den, rem);
    } else {
        let p = power(10, (left - 1) as nat);
        let t = rem * 10;
        let q = t / den;
        let r = t % den;
        lemma_fundamental_div_mod(t as int, den as int);
        assert(rem * (10 * p) == den * (q * p) + r * p) by (nonlinear_arith)
            requires
                rem * 10 == den * q + r,
        ;
        lemma_divides_multiple(den, q * p);
        lemma_divides_sub(den, rem * (10 * p), den * (q * p));
    }
}

} // verus!
