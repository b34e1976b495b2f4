//! The laws of rational arithmetic, proved of the model that the contracts of
//! `BigRat` are stated over. Equality of numbers is `Rational::eqv`, which is
//! what `==` on `BigRat` decides.

use crate::arith::{gcd, lemma_cancel, lemma_power_distributes, power};
use crate::rational::{
    lemma_add_value, lemma_simplify, stands_for, Rational, NON_INTEGER_EXPONENT,
};
use crate::sign::Sign;
use vstd::arithmetic::mul::{lemma_mul_strict_inequality, lemma_mul_strict_inequality_converse};
use vstd::prelude::*;

verus! {

/// Two values that stand for one fraction are the same number.
pub proof fn lemma_same_fraction(x: Rational, y: Rational, n: int, d: int)
    requires
        stands_for(x, n, d),
        stands_for(y, n, d),
    ensures
        x.eqv(y),
{
    let xs = x.signed_num();
    let ys = y.signed_num();
    let xd = x.den as int;
    let yd = y.den as int;
    assert((xs * yd) * d == (xs * d) * yd) by (nonlinear_arith);
    assert((ys * xd) * d == (ys * d) * xd) by (nonlinear_arith);
    assert((n * xd) * yd == (n * yd) * xd) by (nonlinear_arith);
    lemma_cancel(xs * yd, ys * xd, d);
}

/// The sum of two values that stand for `n1 / d1` and `n2 / d2` stands for
/// `(n1 * d2 + n2 * d1) / (d1 * d2)`.
pub proof fn lemma_add_fractions(x: Rational, y: Rational, n1: int, d1: int, n2: int, d2: int)
    requires
        stands_for(x, n1, d1),
        stands_for(y, n2, d2),
    ensures
        stands_for(x.add(y), n1 * d2 + n2 * d1, d1 * d2),
{
    lemma_add_value(x, y);
    let s = x.add(y);
    let t = s.signed_num();
    let sd = s.den as int;
    let xs = x.signed_num();
    let ys = y.signed_num();
    let xd = x.den as int;
    let yd = y.den as int;
    let p = xd * yd;
    assert(p > 0) by (nonlinear_arith)
        requires
            p == xd * yd,
            xd > 0,
            yd > 0,
    ;
    assert(d1 * d2 > 0) by (nonlinear_arith)
        requires
            d1 > 0,
            d2 > 0,
    ;
    assert((xs * yd) * (d1 * d2) == (xs * d1) * (yd * d2)) by (nonlinear_arith);
    assert((n1 * xd) * (yd * d2) == (n1 * d2) * p) by (nonlinear_arith)
        requires
            p == xd * yd,
    ;
    assert((ys * xd) * (d1 * d2) == (ys * d2) * (xd * d1)) by (nonlinear_arith);
    assert((n2 * yd) * (xd * d1) == (n2 * d1) * p) by (nonlinear_arith)
        requires
            p == xd * yd,
    ;
    assert((xs * yd + ys * xd) * (d1 * d2) == (xs * yd) * (d1 * d2) + (ys * xd) * (d1 * d2))
        by (nonlinear_arith);
    assert((n1 * d2 + n2 * d1) * p == (n1 * d2) * p + (n2 * d1) * p) by (nonlinear_arith);
    assert((xs * yd + ys * xd) * (d1 * d2) == (n1 * d2 + n2 * d1) * p);
    let u = xs * yd + ys * xd;
    let v = n1 * d2 + n2 * d1;
    let dd = d1 * d2;
    assert((t * dd) * p == (t * p) * dd) by (nonlinear_arith);
    assert((u * sd) * dd == (u * dd) * sd) by (nonlinear_arith);
    assert((v * p) * sd == (v * sd) * p) by (nonlinear_arith);
    assert((t * dd) * p == (v * sd) * p);
    lemma_cancel(t * dd, v * sd, p);
}

/// Addition is commutative: `a + b == b + a`.
pub proof fn law_add_commutative(a: Rational, b: Rational)
    requires
        a.wf(),
        b.wf(),
    ensures
        a.add(b).eqv(b.add(a)),
{
    let x = a.signed_num();
    let y = b.signed_num();
    let ad = a.den as int;
    let bd = b.den as int;
    lemma_add_fractions(a, b, x, ad, y, bd);
    lemma_add_fractions(b, a, y, bd, x, ad);
    assert(bd * ad == ad * bd) by (nonlinear_arith);
    lemma_same_fraction(a.add(b), b.add(a), x * bd + y * ad, ad * bd);
}

/// Addition is associative: `(a + b) + c == a + (b + c)`.
pub proof fn law_add_associative(a: Rational, b: Rational, c: Rational)
    requires
        a.wf(),
        b.wf(),
        c.wf(),
    ensures
        a.add(b).add(c).eqv(a.add(b.add(c))),
{
    let x = a.signed_num();
    let y = b.signed_num();
    let z = c.signed_num();
    let ad = a.den as int;
    let bd = b.den as int;
    let cd = c.den as int;
    lemma_add_fractions(a, b, x, ad, y, bd);
    lemma_add_fractions(a.add(b), c, x * bd + y * ad, ad * bd, z, cd);
    lemma_add_fractions(b, c, y, bd, z, cd);
    lemma_add_fractions(a, b.add(c), x, ad, y * cd + z * bd, bd * cd);
    assert((x * bd + y * ad) * cd == x * (bd * cd) + y * (ad * cd)) by (nonlinear_arith);
    assert((y * cd + z * bd) * ad == y * (ad * cd) + z * (ad * bd)) by (nonlinear_arith);
    assert((ad * bd) * cd == ad * (bd * cd)) by (nonlinear_arith);
    lemma_same_fraction(
        a.add(b).add(c),
        a.add(b.add(c)),
        (x * bd + y * ad) * cd + z * (ad * bd),
        (ad * bd) * cd,
    );
}

/// A value and its negation add up to zero: `a + (-a) == 0`.
pub proof fn law_add_inverse(a: Rational)
    requires
        a.wf(),
    ensures
        a.add(a.neg()).eqv(Rational::zero()),
{
    let x = a.signed_num();
    let ad = a.den as int;
    lemma_add_fractions(a, a.neg(), x, ad, -x, ad);
    let t = a.add(a.neg()).signed_num();
    assert(x * ad + (-x) * ad == 0) by (nonlinear_arith);
    assert(ad * ad > 0) by (nonlinear_arith)
        requires
            ad > 0,
    ;
    assert(0 * (a.add(a.neg()).den as int) == 0);
    assert(0 * (ad * ad) == 0);
    lemma_cancel(t, 0, ad * ad);
}

/// Subtraction is the addition of the negation: `a - b == a + (-b)`, in the
/// same form.
pub proof fn law_sub_is_add_of_negation(a: Rational, b: Rational)
    ensures
        a.sub(b) == a.add(b.neg()),
{
}

/// One is neutral in multiplication: `a * 1 == a`.
pub proof fn law_mul_one(a: Rational)
    requires
        a.wf(),
    ensures
        a.mul(Rational::one()).eqv(a),
        a.mul(Rational::one()) == a,
{
    assert(a.num * 1 == a.num);
    assert(a.den * 1 == a.den);
}

/// Zero absorbs in multiplication: `a * 0 == 0`.
pub proof fn law_mul_zero(a: Rational)
    requires
        a.wf(),
    ensures
        a.mul(Rational::zero()).eqv(Rational::zero()),
{
    let r = a.mul(Rational::zero());
    assert(a.num * 0 == 0);
    assert(r.num == 0);
    assert(r.signed_num() == 0);
    assert(0 * (r.den as int) == 0);
}

/// Two negations cancel in a product: `(-a) * (-b) == a * b`, in the same
/// form.
pub proof fn law_mul_of_negations(a: Rational, b: Rational)
    ensures
        a.neg().mul(b.neg()) == a.mul(b),
{
}

/// A negation moves out of a product: `(-a) * b == -(a * b)`, in the same
/// form.
pub proof fn law_mul_of_negation(a: Rational, b: Rational)
    ensures
        a.neg().mul(b) == a.mul(b).neg(),
{
}

/// Division fails on a divisor whose numerator is zero, and on no other.
pub proof fn law_div_fails_on_zero_only(a: Rational, b: Rational)
    ensures
        a.div(b).is_err() <==> b.num == 0,
{
}

/// Division undoes multiplication: for `b` other than zero,
/// `(a / b) * b == a`.
pub proof fn law_div_then_mul(a: Rational, b: Rational)
    requires
        a.wf(),
        b.wf(),
        b.num != 0,
    ensures
        a.div(b) matches Ok(q) && q.wf() && q.mul(b).eqv(a),
{
    let q = a.div(b)->Ok_0;
    let r = q.mul(b);
    let an = a.num as int;
    let ad = a.den as int;
    let bn = b.num as int;
    let bd = b.den as int;
    assert(ad * bn > 0) by (nonlinear_arith)
        requires
            ad > 0,
            bn > 0,
    ;
    assert(r.sign == a.sign);
    assert(r.num == (a.num * b.den) * b.num);
    assert(r.den == (a.den * b.num) * b.den);
    assert(((an * bd) * bn) * ad == an * ((ad * bn) * bd)) by (nonlinear_arith);
    assert((-((an * bd) * bn)) * ad == (-an) * ((ad * bn) * bd)) by (nonlinear_arith);
}

/// The product of `n` copies of `a`, for `n` of one or more.
pub open spec fn repeated_product(a: Rational, n: nat) -> Rational
    decreases n,
{
    if n <= 1 {
        a
    } else {
        repeated_product(a, (n - 1) as nat).mul(a)
    }
}

/// The form of a repeated product: powers of numerator and denominator, and
/// a negative sign where a negative value is taken an odd number of times.
pub proof fn lemma_repeated_product(a: Rational, n: nat)
    requires
        n >= 1,
    ensures
        repeated_product(a, n).num == power(a.num, n),
        repeated_product(a, n).den == power(a.den, n),
        repeated_product(a, n).sign == (if a.sign == Sign::Negative && n % 2 == 1 {
            Sign::Negative
        } else {
            Sign::Positive
        }),
        repeated_product(a, n).exact == a.exact,
    decreases n,
{
    if n == 1 {
        assert(power(a.num, 1) == a.num * power(a.num, 0));
        assert(power(a.den, 1) == a.den * power(a.den, 0));
        assert(a.num * 1 == a.num);
        assert(a.den * 1 == a.den);
    } else {
        lemma_repeated_product(a, (n - 1) as nat);
        let pn = power(a.num, (n - 1) as nat);
        let pd = power(a.den, (n - 1) as nat);
        assert(pn * a.num == a.num * pn) by (nonlinear_arith);
        assert(pd * a.den == a.den * pd) by (nonlinear_arith);
    }
}

/// The whole number `n` is its own lowest terms.
pub proof fn lemma_simplify_whole(n: int)
    ensures
        Rational::from_int(n).simplify() == Rational::from_int(n),
{
    lemma_simplify(Rational::from_int(n));
}

/// A power to a positive whole exponent is the repeated product:
/// `a^n == a * ... * a` with `n` factors.
///
/// This holds for `n` up to `u64::MAX`; above that the power fails.
pub proof fn law_pow_is_repeated_product(a: Rational, n: nat)
    requires
        a.wf(),
        1 <= n <= u64::MAX,
    ensures
        a.pow(Rational::from_int(n as int)) matches Ok(p) && p.eqv(repeated_product(a, n)),
{
    let e = Rational::from_int(n as int);
    lemma_simplify_whole(n as int);
    lemma_simplify(a);
    lemma_repeated_product(a, n);
    let base = a.simplify();
    let g = gcd(a.num, a.den);
    let p = a.pow(e)->Ok_0;
    let rp = repeated_product(a, n);
    assert(p.num == power(base.num, n));
    assert(p.den == power(base.den, n));
    assert(p.sign == rp.sign);
    lemma_power_distributes(g, base.num, n);
    lemma_power_distributes(g, base.den, n);
    let gn = power(g, n) as int;
    let bn = power(base.num, n) as int;
    let bd = power(base.den, n) as int;
    assert(bn * (gn * bd) == (gn * bn) * bd) by (nonlinear_arith);
    assert((-bn) * (gn * bd) == (-(gn * bn)) * bd) by (nonlinear_arith);
}

/// A power to a negative whole exponent is the inverse of the power to the
/// positive one: `a^(-n) == 1 / a^n`, with the failure of `a^n` where that
/// fails.
pub proof fn law_pow_negative(a: Rational, n: nat)
    requires
        a.wf(),
        n >= 1,
    ensures
        a.pow(Rational::from_int(-(n as int))) == (match a.pow(Rational::from_int(n as int)) {
            Ok(p) => Rational::one().div(p),
            Err(msg) => Err(msg),
        }),
{
    lemma_simplify_whole(n as int);
    lemma_simplify_whole(-(n as int));
}

/// A power fails where the exponent in lowest terms is no integer.
pub proof fn law_pow_fractional_fails(a: Rational, e: Rational)
    requires
        e.simplify().den != 1,
    ensures
        a.pow(e) == Err::<Rational, Seq<char>>(NON_INTEGER_EXPONENT@),
{
}

/// The order is transitive: `a < b` and `b < c` give `a < c`.
pub proof fn law_less_transitive(a: Rational, b: Rational, c: Rational)
    requires
        a.wf(),
        b.wf(),
        c.wf(),
        a.less(b),
        b.less(c),
    ensures
        a.less(c),
{
    let x = a.signed_num();
    let y = b.signed_num();
    let z = c.signed_num();
    let ad = a.den as int;
    let bd = b.den as int;
    let cd = c.den as int;
    lemma_mul_strict_inequality(x * bd, y * ad, cd);
    lemma_mul_strict_inequality(y * cd, z * bd, ad);
    assert((x * bd) * cd == (x * cd) * bd) by (nonlinear_arith);
    assert((y * ad) * cd == (y * cd) * ad) by (nonlinear_arith);
    assert((z * bd) * ad == (z * ad) * bd) by (nonlinear_arith);
    lemma_mul_strict_inequality_converse(x * cd, z * ad, bd);
}

} // verus!
