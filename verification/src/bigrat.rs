//! Signed rationals of arbitrary size with an exactness flag.

use crate::arith::{divides, lemma_power_positive, lemma_same_sign, power};
use crate::biguint::BigUint;
use crate::decimal::digit_str;
use crate::order::Comparison;
use crate::rational::{
    expansion_length, fraction_digits, lemma_add_of_negations, lemma_add_value, lemma_common_den,
    lemma_scale_exact, lemma_simplify, Rational, APPROXIMATION_DIGITS, DIVISION_BY_ZERO,
    NON_INTEGER_EXPONENT,
};
use crate::sign::Sign;
use crate::termination::{
    lemma_expansion_length, lemma_expansion_step, lemma_stable_decides,
    lemma_terminates_same_number, lemma_terminates_scaled,
};
use core::ops::Neg;
use vstd::prelude::*;
use vstd::std_specs::convert::FromSpecImpl;
use vstd::std_specs::ops::{AddSpecImpl, MulSpecImpl, NegSpecImpl, SubSpecImpl};

verus! {

/// A rational value `sign * num / den` with a denominator other than zero,
/// not necessarily in lowest terms, and a flag that tells a precise value from
/// an approximation. Its view is the `Rational` that it holds.
#[derive(Debug)]
pub struct BigRat {
    sign: Sign,
    num: BigUint,
    den: BigUint,
    exact: bool,
}

impl View for BigRat {
    type V = Rational;

    closed spec fn view(&self) -> Rational {
        Rational { sign: self.sign, num: self.num@, den: self.den@, exact: self.exact }
    }
}

impl Clone for BigRat {
    fn clone(&self) -> (r: Self)
        ensures
            r@ == self@,
    {
        proof {
            use_type_invariant(self);
        }
        BigRat {
            sign: self.sign,
            num: self.num.clone(),
            den: self.den.clone(),
            exact: self.exact,
        }
    }
}

impl BigRat {
    /// Every value has a denominator other than zero.
    #[verifier::type_invariant]
    pub open spec fn well_formed(self) -> bool {
        self@.wf()
    }

    /// The sign of the value. A zero may have either sign.
    pub fn sign(&self) -> (r: Sign)
        ensures
            r == self@.sign,
    {
        self.sign
    }

    /// The numerator as it is held, without its sign.
    pub fn numerator(&self) -> (r: &BigUint)
        ensures
            r@ == self@.num,
    {
        &self.num
    }

    /// The denominator as it is held; never zero.
    pub fn denominator(&self) -> (r: &BigUint)
        ensures
            r@ == self@.den,
            r@ > 0,
    {
        proof {
            use_type_invariant(self);
        }
        &self.den
    }

    /// Whether the value is precise, and no approximation.
    pub fn is_exact(&self) -> (r: bool)
        ensures
            r == self@.exact,
    {
        self.exact
    }

    /// Numerators over one denominator, the left one counted positive and the
    /// right one with the sign `rhs_sign`, taken together.
    fn combine(a: BigUint, b: BigUint, rhs_sign: Sign, den: BigUint, exact: bool) -> (r: BigRat)
        requires
            den@ > 0,
        ensures
            r@.den == den@,
            r@.exact == exact,
            r@.signed_num() == (if rhs_sign == Sign::Positive {
                (a@ + b@) as int
            } else {
                a@ - b@
            }),
            r@.sign == (if rhs_sign == Sign::Negative && a@ < b@ {
                Sign::Negative
            } else {
                Sign::Positive
            }),
    {
        let negative: bool = match rhs_sign {
            Sign::Positive => false,
            Sign::Negative => true,
        };
        if negative && a.less_than(&b) {
            BigRat { sign: Sign::Negative, num: b.sub(&a), den, exact }
        } else {
            let num: BigUint = if negative {
                a.sub(&b)
            } else {
                a.add(&b)
            };
            BigRat { sign: Sign::Positive, num, den, exact }
        }
    }

    /// The sum of a value with the sign `Positive` and any other. That the
    /// left operand has that sign is asked of the caller, where a check while
    /// running would stand otherwise.
    fn add_positive(lhs: BigRat, rhs: BigRat) -> (r: BigRat)
        requires
            lhs@.sign == Sign::Positive,
        ensures
            r@ == lhs@.add(rhs@),
    {
        proof {
            use_type_invariant(&lhs);
            use_type_invariant(&rhs);
            lemma_common_den(lhs@, rhs@);
        }
        let exact: bool = lhs.exact && rhs.exact;
        let ghost ka = lhs@.common_den(rhs@) / lhs@.den;
        let ghost kb = lhs@.common_den(rhs@) / rhs@.den;
        let ghost x = lhs.num@;
        let ghost y = rhs.num@;
        proof {
            assert((-(y as int)) * kb == -(y * kb)) by (nonlinear_arith);
            assert(lhs@.sum_num(rhs@) == (if rhs@.sign == Sign::Positive {
                (x * ka + y * kb) as int
            } else {
                x * ka - y * kb
            }));
        }
        let r: BigRat = if lhs.den.equals(&rhs.den) {
            proof {
                assert(x * 1 == x);
                assert(y * 1 == y);
            }
            BigRat::combine(lhs.num, rhs.num, rhs.sign, lhs.den, exact)
        } else {
            let den: BigUint = BigUint::lcm(&lhs.den, &rhs.den);
            proof {
                lemma_scale_exact(x, den@, lhs.den@);
                lemma_scale_exact(y, den@, rhs.den@);
            }
            let a: BigUint = lhs.num.mul(&den).div(&lhs.den);
            let b: BigUint = rhs.num.mul(&den).div(&rhs.den);
            BigRat::combine(a, b, rhs.sign, den, exact)
        };
        proof {
            assert(r@.signed_num() == lhs@.sum_num(rhs@));
            assert(r@.den == lhs@.add(rhs@).den);
            assert(r@.sign == lhs@.add(rhs@).sign);
            assert(r@.num == lhs@.add(rhs@).num);
        }
        r
    }

    /// The sum `self + rhs` over the common denominator, or where the two
    /// denominators differ over their least common multiple; not reduced.
    pub fn add_internal(self, rhs: BigRat) -> (r: BigRat)
        ensures
            r@ == self@.add(rhs@),
    {
        match self.sign {
            Sign::Positive => BigRat::add_positive(self, rhs),
            Sign::Negative => {
                proof {
                    lemma_add_of_negations(self@, rhs@);
                }
                BigRat::add_positive(self.neg(), rhs.neg()).neg()
            },
        }
    }

    /// The same number in lowest terms.
    pub fn simplify(self) -> (r: BigRat)
        ensures
            r@ == self@.simplify(),
    {
        proof {
            use_type_invariant(&self);
            lemma_simplify(self@);
        }
        if self.den.is_one() {
            return self;
        }
        let g: BigUint = BigUint::gcd(&self.num, &self.den);
        let num: BigUint = self.num.div(&g);
        let den: BigUint = self.den.div(&g);
        BigRat { sign: self.sign, num, den, exact: self.exact }
    }

    /// How the number of `self` stands to that of `other`: by the sign of
    /// their difference.
    pub fn compare(&self, other: &BigRat) -> (r: Comparison)
        ensures
            r == self@.compare(other@),
    {
        proof {
            use_type_invariant(self);
            use_type_invariant(other);
            lemma_add_value(self@, other@.neg());
        }
        let diff: BigRat = self.clone().add_internal(other.clone().neg());
        proof {
            let x = self@.signed_num();
            let y = other@.signed_num();
            let t = diff@.signed_num();
            let ad = self@.den;
            let bd = other@.den;
            let d = diff@.den;
            assert(other@.neg().signed_num() == -y);
            assert(t * (ad * bd) == (x * bd + (-y) * ad) * d);
            assert((-y) * ad == -(y * ad)) by (nonlinear_arith);
            assert(ad * bd > 0) by (nonlinear_arith)
                requires
                    ad > 0,
                    bd > 0,
            ;
            lemma_same_sign(t, (ad * bd) as int, x * bd - y * ad, d as int);
        }
        if diff.num.is_zero() {
            Comparison::Equal
        } else {
            match diff.sign {
                Sign::Positive => Comparison::Greater,
                Sign::Negative => Comparison::Less,
            }
        }
    }

    /// The quotient `self / rhs`, not reduced. Fails where `rhs` is zero.
    pub fn div(self, rhs: BigRat) -> (r: Result<BigRat, String>)
        ensures
            match r {
                Ok(v) => self@.div(rhs@) == Ok::<Rational, Seq<char>>(v@),
                Err(msg) => self@.div(rhs@) == Err::<Rational, Seq<char>>(msg@),
            },
    {
        proof {
            use_type_invariant(&self);
            use_type_invariant(&rhs);
        }
        if rhs.num.is_zero() {
            return Err(DIVISION_BY_ZERO.to_owned());
        }
        let den: BigUint = self.den.mul(&rhs.num);
        assert(den@ > 0) by (nonlinear_arith)
            requires
                den@ == self.den@ * rhs.num@,
                self.den@ > 0,
                rhs.num@ > 0,
        ;
        Ok(
            BigRat {
                sign: Sign::sign_of_product(self.sign, rhs.sign),
                num: self.num.mul(&rhs.den),
                den,
                exact: self.exact && rhs.exact,
            },
        )
    }

    /// The power `self^rhs`, both taken in lowest terms first: numerator and
    /// denominator raised to the exponent, negative where a negative value is
    /// raised to an odd exponent, and inverted for a negative exponent. Fails
    /// where `rhs` is no integer, where the power of the numerator fails,
    /// and, for a negative `rhs`, where the power is zero.
    pub fn pow(self, rhs: BigRat) -> (r: Result<BigRat, String>)
        ensures
            match r {
                Ok(v) => self@.pow(rhs@) == Ok::<Rational, Seq<char>>(v@),
                Err(msg) => self@.pow(rhs@) == Err::<Rational, Seq<char>>(msg@),
            },
    {
        proof {
            use_type_invariant(&self);
            use_type_invariant(&rhs);
        }
        let base: BigRat = self.simplify();
        let exponent: BigRat = rhs.simplify();
        proof {
            use_type_invariant(&base);
        }
        if !exponent.den.is_one() {
            return Err(NON_INTEGER_EXPONENT.to_owned());
        }
        let exact: bool = base.exact && exponent.exact;
        let num: BigUint = match BigUint::pow(&base.num, &exponent.num) {
            Ok(n) => n,
            Err(msg) => {
                return Err(msg);
            },
        };
        let den: BigUint = match BigUint::pow(&base.den, &exponent.num) {
            Ok(d) => d,
            Err(msg) => {
                return Err(msg);
            },
        };
        proof {
            lemma_power_positive(base.den@, exponent.num@);
        }
        let odd: bool = exponent.num.divmod_small(2).1 == 1;
        let sign: Sign = match base.sign {
            Sign::Positive => Sign::Positive,
            Sign::Negative => if odd {
                Sign::Negative
            } else {
                Sign::Positive
            },
        };
        let power: BigRat = BigRat { sign, num, den, exact };
        match exponent.sign {
            Sign::Positive => Ok(power),
            Sign::Negative => BigRat::from(1u64).div(power),
        }
    }

    /// Whether the expansion of the value in base `base` ends.
    ///
    /// The value is multiplied by the base and reduced until its denominator
    /// stays as it is; the expansion ends if that denominator is one.
    pub fn terminates_in_base(&self, base: BigUint) -> (r: bool)
        ensures
            r == self@.terminates_in(base@),
    {
        let ghost b = base@;
        let factor: BigRat = BigRat {
            sign: Sign::Positive,
            num: base,
            den: BigUint::from_u64(1),
            exact: true,
        };
        let mut x: BigRat = self.clone();
        proof {
            use_type_invariant(&x);
        }
        loop
            invariant_except_break
                x@.wf(),
                factor@ == Rational::from_int(b as int),
                x@.terminates_in(b) <==> self@.terminates_in(b),
            ensures
                x@.terminates_in(b) <==> self@.terminates_in(b),
                x@.terminates_in(b) <==> x@.den == 1,
            decreases x@.den,
        {
            let ghost before = x@;
            let ghost y = before.mul(factor@);
            let old_den: BigUint = x.den.clone();
            x = (x * factor.clone()).simplify();
            proof {
                use_type_invariant(&x);
                assert(before.den * 1 == before.den);
                lemma_terminates_scaled(before, b);
                lemma_simplify(y);
                let g = crate::arith::gcd(y.num, y.den);
                let xn = x@.num;
                let xd = x@.den;
                assert(y.num * xd == xn * y.den) by (nonlinear_arith)
                    requires
                        y.num == g * xn,
                        y.den == g * xd,
                ;
                lemma_terminates_same_number(y, x@, b);
                lemma_terminates_same_number(x@, y, b);
                assert(xd <= y.den && (xd == y.den ==> g == 1)) by (nonlinear_arith)
                    requires
                        y.den == g * xd,
                        g > 0,
                        xd > 0,
                ;
            }
            if x.den.equals(&old_den) {
                proof {
                    assert(1 * x@.num == x@.num);
                    lemma_stable_decides(x@, before.num, b);
                }
                break ;
            }
        }
        x.den.is_one()
    }

    /// The text shown for the value: see `Rational::render`.
    pub fn to_string(&self) -> (r: String)
        ensures
            r@ == self@.render(),
    {
        proof {
            use_type_invariant(self);
            lemma_simplify(self@);
        }
        let mut out: String = String::new();
        if !self.exact {
            out.append("approx. ");
        }
        let x: BigRat = self.clone().simplify();
        proof {
            use_type_invariant(&x);
        }
        let negative: bool = match x.sign {
            Sign::Positive => false,
            Sign::Negative => true,
        };
        if negative {
            out.append("-");
        }
        let ghost head = out@;
        assert(head =~= (if self@.exact {
            Seq::<char>::empty()
        } else {
            "approx. "@
        }) + (if negative {
            "-"@
        } else {
            Seq::<char>::empty()
        }));
        if x.den.is_one() {
            let digits: String = x.num.to_decimal();
            out.append(digits.as_str());
            return out;
        }
        let terminating: bool = x.terminates_in_base(BigUint::from_u64(10));
        if !terminating && x.exact {
            let above: String = x.num.to_decimal();
            let below: String = x.den.to_decimal();
            out.append(above.as_str());
            out.append("/");
            out.append(below.as_str());
            out.append(", approx. ");
            if negative {
                out.append("-");
            }
        }
        let ghost ratio = if !terminating && x@.exact {
            x@.ratio_text()
        } else {
            Seq::<char>::empty()
        };
        assert(out@ =~= head + ratio);
        let (whole, first) = x.num.divmod(&x.den);
        let whole_text: String = whole.to_decimal();
        out.append(whole_text.as_str());
        out.append(".");
        let ghost count: nat = if terminating {
            expansion_length(x@.num % x@.den, x@.den)
        } else {
            APPROXIMATION_DIGITS as nat
        };
        let ghost full = out@ + fraction_digits(first@, x@.den, count);
        let ghost mut left: nat = count;
        let mut rem: BigUint = first;
        let mut shown: usize = 0;
        proof {
            if terminating {
                lemma_expansion_length(x@);
            }
        }
        while !rem.is_zero() && (terminating || shown < APPROXIMATION_DIGITS)
            invariant
                x@.den > 0,
                rem@ < x@.den,
                shown <= APPROXIMATION_DIGITS,
                !terminating ==> left + shown == APPROXIMATION_DIGITS,
                terminating ==> divides(x@.den, rem@ * power(10, left)),
                out@ + fraction_digits(rem@, x@.den, left) == full,
            decreases left,
        {
            let ghost r0 = rem@;
            let ghost before = out@;
            proof {
                if terminating {
                    lemma_expansion_step(r0, x@.den, left);
                }
            }
            let scaled: BigUint = rem.mul_small_add(10, 0);
            let (digit, next) = scaled.divmod(&x.den);
            assert(digit@ < 10) by (nonlinear_arith)
                requires
                    digit@ == (r0 * 10) / x@.den,
                    r0 < x@.den,
                    x@.den > 0,
            ;
            let d: u32 = match digit.to_u64() {
                Some(v) => v as u32,
                None => 0,
            };
            let text: &'static str = digit_str(d);
            out.append(text);
            rem = next;
            if !terminating {
                shown += 1;
            }
            proof {
                let rest = fraction_digits(rem@, x@.den, (left - 1) as nat);
                assert(fraction_digits(r0, x@.den, left) == text@ + rest);
                assert((before + text@) + rest =~= before + (text@ + rest));
                left = (left - 1) as nat;
            }
        }
        out
    }

    /// Appends one decimal digit to a literal that is being read: numerator
    /// and denominator both grow tenfold, and the digit joins the numerator.
    ///
    /// This is for a value that only `add_decimal_digit` has touched since it
    /// was made from an integer. On any other value the result is still what
    /// is stated here, and not the value with a digit appended.
    pub fn add_decimal_digit(&mut self, digit: u64)
        ensures
            final(self)@ == old(self)@.with_decimal_digit(digit as nat),
    {
        proof {
            use_type_invariant(&*self);
        }
        let num: BigUint = self.num.mul_small_add(10, 0).add(&BigUint::from_u64(digit));
        let den: BigUint = self.den.mul_small_add(10, 0);
        self.num = num;
        self.den = den;
    }

    /// The built-in approximation of pi, `1068966896 / 340262731`, marked as
    /// inexact.
    pub fn approx_pi() -> (r: BigRat)
        ensures
            r@ == (Rational {
                sign: Sign::Positive,
                num: 1068966896,
                den: 340262731,
                exact: false,
            }),
    {
        BigRat {
            sign: Sign::Positive,
            num: BigUint::from_u64(1068966896),
            den: BigUint::from_u64(340262731),
            exact: false,
        }
    }
}

impl FromSpecImpl<u64> for BigRat {
    open spec fn obeys_from_spec() -> bool {
        false
    }

    open spec fn from_spec(i: u64) -> BigRat {
        arbitrary()
    }
}

impl From<u64> for BigRat {
    /// The exact value `i / 1`.
    fn from(i: u64) -> (r: BigRat)
        ensures
            r@ == Rational::from_int(i as int),
    {
        BigRat {
            sign: Sign::Positive,
            num: BigUint::from_u64(i),
            den: BigUint::from_u64(1),
            exact: true,
        }
    }
}

impl FromSpecImpl<i32> for BigRat {
    open spec fn obeys_from_spec() -> bool {
        false
    }

    open spec fn from_spec(i: i32) -> BigRat {
        arbitrary()
    }
}

impl From<i32> for BigRat {
    /// The exact value `i / 1`.
    fn from(i: i32) -> (r: BigRat)
        ensures
            r@ == Rational::from_int(i as int),
    {
        if i >= 0 {
            BigRat {
                sign: Sign::Positive,
                num: BigUint::from_u64(i as u64),
                den: BigUint::from_u64(1),
                exact: true,
            }
        } else {
            BigRat {
                sign: Sign::Negative,
                num: BigUint::from_u64((-(i as i64)) as u64),
                den: BigUint::from_u64(1),
                exact: true,
            }
        }
    }
}

impl NegSpecImpl for BigRat {
    open spec fn obeys_neg_spec() -> bool {
        false
    }

    open spec fn neg_req(self) -> bool {
        true
    }

    open spec fn neg_spec(self) -> BigRat {
        arbitrary()
    }
}

impl Neg for BigRat {
    type Output = BigRat;

    /// The value with the sign flipped.
    fn neg(self) -> (r: BigRat)
        ensures
            r@ == self@.neg(),
    {
        proof {
            use_type_invariant(&self);
        }
        BigRat { sign: self.sign.flip(), num: self.num, den: self.den, exact: self.exact }
    }
}

impl NegSpecImpl for &BigRat {
    open spec fn obeys_neg_spec() -> bool {
        false
    }

    open spec fn neg_req(self) -> bool {
        true
    }

    open spec fn neg_spec(self) -> BigRat {
        arbitrary()
    }
}

impl Neg for &BigRat {
    type Output = BigRat;

    /// A copy of the value with the sign flipped.
    fn neg(self) -> (r: BigRat)
        ensures
            r@ == self@.neg(),
    {
        self.clone().neg()
    }
}

impl MulSpecImpl for BigRat {
    open spec fn obeys_mul_spec() -> bool {
        false
    }

    open spec fn mul_req(self, rhs: BigRat) -> bool {
        true
    }

    open spec fn mul_spec(self, rhs: BigRat) -> BigRat {
        arbitrary()
    }
}

impl core::ops::Mul for BigRat {
    type Output = BigRat;

    /// The product, not reduced.
    fn mul(self, rhs: BigRat) -> (r: BigRat)
        ensures
            r@ == self@.mul(rhs@),
    {
        proof {
            use_type_invariant(&self);
            use_type_invariant(&rhs);
        }
        let den: BigUint = self.den.mul(&rhs.den);
        assert(den@ > 0) by (nonlinear_arith)
            requires
                den@ == self.den@ * rhs.den@,
                self.den@ > 0,
                rhs.den@ > 0,
        ;
        BigRat {
            sign: Sign::sign_of_product(self.sign, rhs.sign),
            num: self.num.mul(&rhs.num),
            den,
            exact: self.exact && rhs.exact,
        }
    }
}

impl AddSpecImpl for BigRat {
    open spec fn obeys_add_spec() -> bool {
        false
    }

    open spec fn add_req(self, rhs: BigRat) -> bool {
        true
    }

    open spec fn add_spec(self, rhs: BigRat) -> BigRat {
        arbitrary()
    }
}

impl core::ops::Add for BigRat {
    type Output = BigRat;

    /// The sum, not reduced.
    fn add(self, rhs: BigRat) -> (r: BigRat)
        ensures
            r@ == self@.add(rhs@),
    {
        self.add_internal(rhs)
    }
}

impl SubSpecImpl for BigRat {
    open spec fn obeys_sub_spec() -> bool {
        false
    }

    open spec fn sub_req(self, rhs: BigRat) -> bool {
        true
    }

    open spec fn sub_spec(self, rhs: BigRat) -> BigRat {
        arbitrary()
    }
}

impl core::ops::Sub for BigRat {
    type Output = BigRat;

    /// The difference `self + (-rhs)`, not reduced.
    fn sub(self, rhs: BigRat) -> (r: BigRat)
        ensures
            r@ == self@.sub(rhs@),
    {
        self.add_internal(rhs.neg())
    }
}

impl SubSpecImpl<&BigRat> for &BigRat {
    open spec fn obeys_sub_spec() -> bool {
        false
    }

    open spec fn sub_req(self, rhs: &BigRat) -> bool {
        true
    }

    open spec fn sub_spec(self, rhs: &BigRat) -> BigRat {
        arbitrary()
    }
}

impl core::ops::Sub<&BigRat> for &BigRat {
    type Output = BigRat;

    /// The difference of copies of the two values, not reduced.
    fn sub(self, rhs: &BigRat) -> (r: BigRat)
        ensures
            r@ == self@.sub(rhs@),
    {
        self.clone().add_internal(rhs.clone().neg())
    }
}

} // verus!
