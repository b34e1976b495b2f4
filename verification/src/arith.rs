//! Divisibility, greatest common divisor and least common multiple of natural
//! numbers.

use vstd::arithmetic::div_mod::{
    lemma_fundamental_div_mod, lemma_mod_multiples_basic, lemma_truncate_middle,
};
use vstd::arithmetic::mul::{lemma_mul_equality_converse, lemma_mul_strict_inequality};
use vstd::prelude::*;

verus! {

/// `d` divides `n`: some multiple of `d` is `n`. Zero divides only zero.
pub open spec fn divides(d: nat, n: nat) -> bool {
    if d == 0 {
        n == 0
    } else {
        n % d == 0
    }
}

/// The greatest common divisor, by Euclid's recursion; `gcd(0, 0)` is zero.
/// `lemma_gcd_divides` and `lemma_gcd_greatest` say that it is what its name
/// says.
pub open spec fn gcd(a: nat, b: nat) -> nat
    decreases b,
{
    if b == 0 {
        a
    } else {
        gcd(b, a % b)
    }
}

/// The least common multiple; zero where an argument is zero.
pub open spec fn lcm(a: nat, b: nat) -> nat {
    if a == 0 || b == 0 {
        0
    } else {
        a * b / gcd(a, b)
    }
}

/// `b` raised to the power `e`; zero to the power zero is one here.
pub open spec fn power(b: nat, e: nat) -> nat
    decreases e,
{
    if e == 0 {
        1
    } else {
        b * power(b, (e - 1) as nat)
    }
}

/// A power of a number above zero is above zero.
pub proof fn lemma_power_positive(b: nat, e: nat)
    requires
        b > 0,
    ensures
        power(b, e) > 0,
    decreases e,
{
    if e > 0 {
        lemma_power_positive(b, (e - 1) as nat);
        let p = power(b, (e - 1) as nat);
        assert(b * p > 0) by (nonlinear_arith)
            requires
                b > 0,
                p > 0,
        ;
    }
}

/// A power of a product is the product of the powers.
pub proof fn lemma_power_distributes(x: nat, y: nat, e: nat)
    ensures
        power(x * y, e) == power(x, e) * power(y, e),
    decreases e,
{
    if e == 0 {
        assert(1 * 1 == 1);
    } else {
        lemma_power_distributes(x, y, (e - 1) as nat);
        let px = power(x, (e - 1) as nat);
        let py = power(y, (e - 1) as nat);
        assert((x * y) * (px * py) == (x * px) * (y * py)) by (nonlinear_arith);
    }
}

/// A power to twice an exponent is the power of the square.
pub proof fn lemma_power_square(b: nat, h: nat)
    ensures
        power(b, 2 * h) == power(b * b, h),
    decreases h,
{
    if h > 0 {
        lemma_power_square(b, (h - 1) as nat);
        let p = power(b, (2 * h - 2) as nat);
        assert(power(b, (2 * h - 1) as nat) == b * p);
        assert(power(b, 2 * h) == b * power(b, (2 * h - 1) as nat));
        assert(b * (b * p) == (b * b) * p) by (nonlinear_arith);
    }
}

/// A power is the power of the square to half the exponent, times the base
/// where the exponent is odd.
pub proof fn lemma_power_halve(b: nat, e: nat)
    ensures
        power(b, e) == if e % 2 == 1 {
            b * power(b * b, e / 2)
        } else {
            power(b * b, e / 2)
        },
{
    lemma_power_square(b, e / 2);
    if e % 2 == 1 {
        assert(power(b, e) == b * power(b, (e - 1) as nat));
    }
}

/// A common positive factor cancels from an equation.
pub proof fn lemma_cancel(x: int, y: int, m: int)
    requires
        x * m == y * m,
        m > 0,
    ensures
        x == y,
{
    assert(m * x == x * m) by (nonlinear_arith);
    assert(m * y == y * m) by (nonlinear_arith);
    lemma_mul_equality_converse(m, x, y);
}

/// Where `t * p == c * d` with `p` and `d` positive, `t` has the sign of `c`.
pub proof fn lemma_same_sign(t: int, p: int, c: int, d: int)
    requires
        t * p == c * d,
        p > 0,
        d > 0,
    ensures
        t > 0 <==> c > 0,
        t == 0 <==> c == 0,
        t < 0 <==> c < 0,
{
    assert(0 * p == 0);
    assert(0 * d == 0);
    if t > 0 {
        lemma_mul_strict_inequality(0, t, p);
    }
    if t < 0 {
        lemma_mul_strict_inequality(t, 0, p);
    }
    if c > 0 {
        lemma_mul_strict_inequality(0, c, d);
    }
    if c < 0 {
        lemma_mul_strict_inequality(c, 0, d);
    }
}

/// A number divides its multiples.
pub proof fn lemma_divides_multiple(d: nat, k: nat)
    ensures
        divides(d, d * k),
        divides(d, k * d),
{
    assert(d * k == k * d) by (nonlinear_arith);
    if d == 0 {
        assert(0 * k == 0);
    } else {
        lemma_mod_multiples_basic(k as int, d as int);
    }
}

/// What divides a number is a factor of it.
pub proof fn lemma_divides_witness(d: nat, n: nat)
    requires
        divides(d, n),
    ensures
        n == d * (n / d),
{
    if d == 0 {
        assert(0 * (n / d) == 0);
    } else {
        lemma_fundamental_div_mod(n as int, d as int);
    }
}

/// What divides two numbers divides their sum.
pub proof fn lemma_divides_add(d: nat, x: nat, y: nat)
    requires
        divides(d, x),
        divides(d, y),
    ensures
        divides(d, x + y),
{
    lemma_divides_witness(d, x);
    lemma_divides_witness(d, y);
    let k = x / d + y / d;
    assert(d * k == d * (x / d) + d * (y / d)) by (nonlinear_arith)
        requires
            k == x / d + y / d,
    ;
    lemma_divides_multiple(d, k);
}

/// What divides two numbers divides their difference.
pub proof fn lemma_divides_sub(d: nat, x: nat, y: nat)
    requires
        divides(d, x),
        divides(d, y),
        x >= y,
    ensures
        divides(d, (x - y) as nat),
{
    lemma_divides_witness(d, x);
    lemma_divides_witness(d, y);
    if d > 0 {
        assert(x / d >= y / d) by (nonlinear_arith)
            requires
                d > 0,
                x >= y,
                x == d * (x / d),
                y == d * (y / d),
        ;
        let k = (x / d - y / d) as nat;
        assert(d * k == d * (x / d) - d * (y / d)) by (nonlinear_arith)
            requires
                k == x / d - y / d,
        ;
        lemma_divides_multiple(d, k);
    }
}

/// What divides a number divides its multiples.
pub proof fn lemma_divides_mul(d: nat, x: nat, k: nat)
    requires
        divides(d, x),
    ensures
        divides(d, x * k),
        divides(d, k * x),
{
    lemma_divides_witness(d, x);
    let q = x / d;
    assert(x * k == d * (q * k)) by (nonlinear_arith)
        requires
            x == d * q,
    ;
    assert(k * x == x * k) by (nonlinear_arith);
    lemma_divides_multiple(d, q * k);
}

/// A divisor of a positive number is positive and not above it.
pub proof fn lemma_divides_le(d: nat, n: nat)
    requires
        divides(d, n),
        n > 0,
    ensures
        0 < d <= n,
{
    lemma_divides_witness(d, n);
    let q = n / d;
    assert(d <= n) by (nonlinear_arith)
        requires
            n == d * q,
            n > 0,
    ;
}

/// Two numbers that divide each other are the same.
pub proof fn lemma_divides_antisymmetric(a: nat, b: nat)
    requires
        divides(a, b),
        divides(b, a),
    ensures
        a == b,
{
    if a > 0 {
        lemma_divides_le(b, a);
        lemma_divides_le(a, b);
    }
}

/// The greatest common divisor divides both numbers.
pub proof fn lemma_gcd_divides(a: nat, b: nat)
    ensures
        divides(gcd(a, b), a),
        divides(gcd(a, b), b),
    decreases b,
{
    if b == 0 {
        lemma_divides_multiple(a, 1);
        lemma_divides_multiple(a, 0);
        assert(a * 1 == a);
        assert(a * 0 == 0);
    } else {
        let g = gcd(a, b);
        lemma_gcd_divides(b, a % b);
        lemma_fundamental_div_mod(a as int, b as int);
        lemma_divides_mul(g, b, a / b);
        lemma_divides_add(g, b * (a / b), a % b);
    }
}

/// Every common divisor divides the greatest common divisor.
pub proof fn lemma_gcd_greatest(a: nat, b: nat, c: nat)
    requires
        divides(c, a),
        divides(c, b),
    ensures
        divides(c, gcd(a, b)),
    decreases b,
{
    if b != 0 {
        lemma_fundamental_div_mod(a as int, b as int);
        lemma_divides_mul(c, b, a / b);
        lemma_divides_sub(c, a, b * (a / b));
        lemma_gcd_greatest(b, a % b, c);
    }
}

/// The greatest common divisor is zero for two zeros only.
pub proof fn lemma_gcd_positive(a: nat, b: nat)
    requires
        a > 0 || b > 0,
    ensures
        gcd(a, b) > 0,
{
    lemma_gcd_divides(a, b);
}

/// The greatest common divisor does not depend on the order of the numbers.
pub proof fn lemma_gcd_symmetric(a: nat, b: nat)
    ensures
        gcd(a, b) == gcd(b, a),
{
    lemma_gcd_divides(a, b);
    lemma_gcd_divides(b, a);
    lemma_gcd_greatest(a, b, gcd(b, a));
    lemma_gcd_greatest(b, a, gcd(a, b));
    lemma_divides_antisymmetric(gcd(a, b), gcd(b, a));
}

/// A common factor of both numbers is a factor of their greatest common
/// divisor.
pub proof fn lemma_gcd_scale(m: nat, a: nat, b: nat)
    ensures
        gcd(m * a, m * b) == m * gcd(a, b),
    decreases b,
{
    if b == 0 {
        assert(m * b == 0);
    } else if m == 0 {
        assert(m * a == 0);
        assert(m * b == 0);
        assert(m * gcd(a, b) == 0);
    } else {
        assert(m * b > 0) by (nonlinear_arith)
            requires
                m > 0,
                b > 0,
        ;
        lemma_truncate_middle(a as int, m as int, b as int);
        lemma_gcd_scale(m, b, a % b);
    }
}

/// Divided by their greatest common divisor, two numbers have no common
/// divisor but one.
pub proof fn lemma_gcd_reduced(a: nat, b: nat)
    requires
        gcd(a, b) > 0,
    ensures
        gcd(a / gcd(a, b), b / gcd(a, b)) == 1,
{
    let g = gcd(a, b);
    lemma_gcd_divides(a, b);
    lemma_divides_witness(g, a);
    lemma_divides_witness(g, b);
    lemma_gcd_scale(g, a / g, b / g);
    let x = gcd(a / g, b / g);
    assert(x == 1) by (nonlinear_arith)
        requires
            g == g * x,
            g > 0,
    ;
}

/// Euclid's lemma: what divides a product and shares no divisor with one
/// factor divides the other.
pub proof fn lemma_euclid(d: nat, m: nat, b: nat)
    requires
        gcd(d, b) == 1,
        divides(d, m * b),
    ensures
        divides(d, m),
{
    lemma_gcd_scale(m, d, b);
    lemma_divides_multiple(d, m);
    lemma_gcd_greatest(m * d, m * b, d);
    assert(m * 1 == m);
}

/// The least common multiple of two positive numbers is positive and a
/// multiple of both.
pub proof fn lemma_lcm_is_common_multiple(a: nat, b: nat)
    requires
        a > 0,
        b > 0,
    ensures
        lcm(a, b) > 0,
        divides(a, lcm(a, b)),
        divides(b, lcm(a, b)),
        lcm(a, b) == a * (b / gcd(a, b)),
        lcm(a, b) == b * (a / gcd(a, b)),
{
    let g = gcd(a, b);
    lemma_gcd_positive(a, b);
    lemma_gcd_divides(a, b);
    lemma_divides_witness(g, a);
    lemma_divides_witness(g, b);
    let x = a / g;
    let y = b / g;
    assert(a * b == g * (a * y)) by (nonlinear_arith)
        requires
            b == g * y,
    ;
    assert(a * b == g * (b * x)) by (nonlinear_arith)
        requires
            a == g * x,
    ;
    lemma_divides_multiple(g, a * y);
    lemma_divides_witness(g, a * b);
    assert(a * y == a * b / g) by (nonlinear_arith)
        requires
            a * b == g * (a * y),
            a * b == g * (a * b / g),
            g > 0,
    ;
    assert(b * x == a * b / g) by (nonlinear_arith)
        requires
            a * b == g * (b * x),
            a * b == g * (a * b / g),
            g > 0,
    ;
    lemma_divides_multiple(a, y);
    lemma_divides_multiple(b, x);
    assert(y > 0) by (nonlinear_arith)
        requires
            b == g * y,
            b > 0,
    ;
    assert(a * y > 0) by (nonlinear_arith)
        requires
            a > 0,
            y > 0,
    ;
}

/// Every common multiple of two positive numbers is a multiple of their
/// least common multiple.
pub proof fn lemma_lcm_least(a: nat, b: nat, m: nat)
    requires
        a > 0,
        b > 0,
        divides(a, m),
        divides(b, m),
    ensures
        divides(lcm(a, b), m),
{
    let g = gcd(a, b);
    lemma_lcm_is_common_multiple(a, b);
    lemma_gcd_positive(a, b);
    lemma_gcd_divides(a, b);
    lemma_divides_witness(g, a);
    lemma_divides_witness(g, b);
    lemma_gcd_reduced(a, b);
    let x = a / g;
    let y = b / g;
    lemma_gcd_symmetric(x, y);
    assert(y > 0) by (nonlinear_arith)
        requires
            b == g * y,
            b > 0,
    ;
    lemma_divides_witness(a, m);
    let s = m / a;
    assert(m == g * (x * s)) by (nonlinear_arith)
        requires
            m == a * s,
            a == g * x,
    ;
    lemma_truncate_middle((x * s) as int, g as int, y as int);
    let r = (x * s) % y;
    assert(r == 0) by (nonlinear_arith)
        requires
            g * r == 0,
            g > 0,
            r >= 0,
    ;
    assert(s * x == x * s) by (nonlinear_arith);
    lemma_euclid(y, s, x);
    lemma_divides_witness(y, s);
    let t = s / y;
    assert(m == (a * y) * t) by (nonlinear_arith)
        requires
            m == a * s,
            s == y * t,
    ;
    lemma_divides_multiple(a * y, t);
}

} // verus!
