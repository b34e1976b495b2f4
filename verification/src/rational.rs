//! The mathematical model of the calculator's rational values: what each
//! operation yields, stated over natural numbers.

use crate::arith::{
    divides, gcd, lcm, power, lemma_divides_multiple, lemma_divides_witness, lemma_gcd_divides,
    lemma_gcd_positive, lemma_gcd_reduced, lemma_lcm_is_common_multiple,
};
use crate::biguint::power_outcome;
use crate::decimal::{decimal_digits, digit_char};
use crate::order::Comparison;
use crate::sign::Sign;
use vstd::arithmetic::div_mod::{lemma_div_by_self, lemma_div_multiples_vanish};
use vstd::prelude::*;

verus! {

/// The message of a division by the value zero.
pub const DIVISION_BY_ZERO: &'static str = "Attempt to divide by zero";

/// The message of a power whose exponent is no integer.
pub const NON_INTEGER_EXPONENT: &'static str = "Non-integer exponents not currently supported";

/// The number of fractional digits shown of a fraction that does not
/// terminate.
pub const APPROXIMATION_DIGITS: usize = 10;

/// A rational value as the calculator holds it: `sign * num / den`, not
/// necessarily in lowest terms, with a flag that tells a precise value from an
/// approximation.
pub struct Rational {
    pub sign: Sign,
    pub num: nat,
    pub den: nat,
    pub exact: bool,
}

impl Rational {
    /// The denominator is not zero.
    pub open spec fn wf(self) -> bool {
        self.den > 0
    }

    /// The numerator with its sign.
    pub open spec fn signed_num(self) -> int {
        match self.sign {
            Sign::Positive => self.num as int,
            Sign::Negative => -(self.num as int),
        }
    }

    /// The exact value `n / 1`.
    pub open spec fn from_int(n: int) -> Rational {
        Rational {
            sign: if n < 0 {
                Sign::Negative
            } else {
                Sign::Positive
            },
            num: if n < 0 {
                (-n) as nat
            } else {
                n as nat
            },
            den: 1,
            exact: true,
        }
    }

    /// The exact value zero.
    pub open spec fn zero() -> Rational {
        Rational::from_int(0)
    }

    /// The exact value one.
    pub open spec fn one() -> Rational {
        Rational::from_int(1)
    }

    /// Two values stand for the same number, whatever their form and
    /// exactness.
    pub open spec fn eqv(self, other: Rational) -> bool {
        self.signed_num() * other.den == other.signed_num() * self.den
    }

    /// The number of `self` is below that of `other`.
    pub open spec fn less(self, other: Rational) -> bool {
        self.signed_num() * other.den < other.signed_num() * self.den
    }

    /// How the number of `self` stands to that of `other`.
    pub open spec fn compare(self, other: Rational) -> Comparison {
        Comparison::of(self.signed_num() * other.den, other.signed_num() * self.den)
    }

    /// The value with the sign flipped.
    pub open spec fn neg(self) -> Rational {
        Rational { sign: self.sign.flipped(), ..self }
    }

    /// The denominator of a sum: the common one where the two are the same,
    /// else their least common multiple.
    pub open spec fn common_den(self, rhs: Rational) -> nat {
        if self.den == rhs.den {
            self.den
        } else {
            lcm(self.den, rhs.den)
        }
    }

    /// The signed numerator of a sum over `common_den`.
    pub open spec fn sum_num(self, rhs: Rational) -> int {
        let d = self.common_den(rhs);
        self.signed_num() * (d / self.den) + rhs.signed_num() * (d / rhs.den)
    }

    /// The sum over `common_den`. A sum of zero takes the sign of the left
    /// operand.
    pub open spec fn add(self, rhs: Rational) -> Rational {
        let total = self.sum_num(rhs);
        Rational {
            sign: if total < 0 || (total == 0 && self.sign == Sign::Negative) {
                Sign::Negative
            } else {
                Sign::Positive
            },
            num: if total < 0 {
                (-total) as nat
            } else {
                total as nat
            },
            den: self.common_den(rhs),
            exact: self.exact && rhs.exact,
        }
    }

    /// The difference: the sum with the negation of `rhs`.
    pub open spec fn sub(self, rhs: Rational) -> Rational {
        self.add(rhs.neg())
    }

    /// The product, numerator by numerator and denominator by denominator.
    pub open spec fn mul(self, rhs: Rational) -> Rational {
        Rational {
            sign: Sign::product(self.sign, rhs.sign),
            num: self.num * rhs.num,
            den: self.den * rhs.den,
            exact: self.exact && rhs.exact,
        }
    }

    /// The quotient, or the message of the failure where `rhs` is zero.
    pub open spec fn div(self, rhs: Rational) -> Result<Rational, Seq<char>> {
        if rhs.num == 0 {
            Err(DIVISION_BY_ZERO@)
        } else {
            Ok(
                Rational {
                    sign: Sign::product(self.sign, rhs.sign),
                    num: self.num * rhs.den,
                    den: self.den * rhs.num,
                    exact: self.exact && rhs.exact,
                },
            )
        }
    }

    /// The value with one more decimal digit at the end of a literal in the
    /// making: numerator and denominator grow tenfold, and the digit joins
    /// the numerator.
    pub open spec fn with_decimal_digit(self, digit: nat) -> Rational {
        Rational { num: self.num * 10 + digit, den: self.den * 10, ..self }
    }

    /// The same number in lowest terms.
    pub open spec fn simplify(self) -> Rational {
        let g = gcd(self.num, self.den);
        Rational { num: self.num / g, den: self.den / g, ..self }
    }

    /// Numerator and denominator have no common divisor but one.
    pub open spec fn in_lowest_terms(self) -> bool {
        gcd(self.num, self.den) == 1
    }

    /// The sign of a power: negative where a negative value is raised to an
    /// odd exponent.
    pub open spec fn power_sign(self, e: nat) -> Sign {
        if self.sign == Sign::Negative && e % 2 == 1 {
            Sign::Negative
        } else {
            Sign::Positive
        }
    }

    /// Numerator and denominator of `self` raised to `e`, with the sign of the
    /// power, or the message of the failure of the power of the numerator.
    pub open spec fn pow_nat(self, e: nat, exact: bool) -> Result<Rational, Seq<char>> {
        match power_outcome(self.num, e) {
            Err(msg) => Err(msg),
            Ok(n) => Ok(
                Rational {
                    sign: self.power_sign(e),
                    num: n,
                    den: power(self.den, e),
                    exact: exact,
                },
            ),
        }
    }

    /// The power `self^exp`, both taken in lowest terms: for an integer
    /// `exp` the power of numerator and denominator, inverted where `exp` is
    /// negative, and else the message of the failure.
    pub open spec fn pow(self, exp: Rational) -> Result<Rational, Seq<char>> {
        let base = self.simplify();
        let e = exp.simplify();
        if e.den != 1 {
            Err(NON_INTEGER_EXPONENT@)
        } else {
            match base.pow_nat(e.num, base.exact && e.exact) {
                Err(msg) => Err(msg),
                Ok(p) => if e.sign == Sign::Negative {
                    Rational::one().div(p)
                } else {
                    Ok(p)
                },
            }
        }
    }

    /// The value has finitely many digits after the point in base `base`:
    /// some power of the base times the value is an integer.
    pub open spec fn terminates_in(self, base: nat) -> bool {
        exists|k: nat| divides(self.den, self.num * #[trigger] power(base, k))
    }
}

/// The first `count` decimal digits after the point of `rem / den`, ending
/// early where nothing is left.
pub open spec fn fraction_digits(rem: nat, den: nat, count: nat) -> Seq<char>
    decreases count,
{
    if count == 0 || rem == 0 {
        Seq::empty()
    } else {
        seq![digit_char(rem * 10 / den)] + fraction_digits(rem * 10 % den, den, (count - 1) as nat)
    }
}

/// A number of digits after which the decimal expansion of `rem / den` has
/// ended, where it ends at all.
pub open spec fn expansion_length(rem: nat, den: nat) -> nat {
    choose|k: nat| divides(den, rem * #[trigger] power(10, k))
}

impl Rational {
    /// The fraction, and what leads over from it to its approximation: the
    /// numerator, `/`, the denominator, `, approx. `, and `-` for a negative
    /// value.
    pub open spec fn ratio_text(self) -> Seq<char> {
        decimal_digits(self.num) + "/"@ + decimal_digits(self.den) + ", approx. "@ + (if self.sign
            == Sign::Negative {
            "-"@
        } else {
            Seq::empty()
        })
    }

    /// The text shown for the value.
    ///
    /// An approximation begins with `approx. `. Then comes `-` for a negative
    /// value, and the value in lowest terms: an integer as such; a fraction
    /// whose decimal expansion ends, in full; any other fraction with ten
    /// digits after the point, and before them, where the value is exact, the
    /// fraction itself and `, approx. `, with the `-` again.
    pub open spec fn render(self) -> Seq<char> {
        let x = self.simplify();
        let negative = x.sign == Sign::Negative;
        let head = (if self.exact {
            Seq::empty()
        } else {
            "approx. "@
        }) + (if negative {
            "-"@
        } else {
            Seq::empty()
        });
        if x.den == 1 {
            head + decimal_digits(x.num)
        } else {
            let terminating = x.terminates_in(10);
            let ratio = if !terminating && x.exact {
                x.ratio_text()
            } else {
                Seq::empty()
            };
            let count = if terminating {
                expansion_length(x.num % x.den, x.den)
            } else {
                APPROXIMATION_DIGITS as nat
            };
            head + ratio + decimal_digits(x.num / x.den) + "."@ + fraction_digits(
                x.num % x.den,
                x.den,
                count,
            )
        }
    }
}

/// The fraction `n / d`, for `d` above zero, is the number of `x`.
pub open spec fn stands_for(x: Rational, n: int, d: int) -> bool {
    d > 0 && x.den > 0 && x.signed_num() * d == n * x.den
}

/// A product over a multiple of `den`, divided by `den`.
pub proof fn lemma_scale_exact(n: nat, d: nat, den: nat)
    requires
        den > 0,
        divides(den, d),
    ensures
        n * d / den == n * (d / den),
        d == den * (d / den),
{
    lemma_divides_witness(den, d);
    let k = d / den;
    assert(n * d == den * (n * k)) by (nonlinear_arith)
        requires
            d == den * k,
    ;
    lemma_div_multiples_vanish((n * k) as int, den as int);
}

/// The denominator of a sum is a positive multiple of both denominators.
pub proof fn lemma_common_den(a: Rational, b: Rational)
    requires
        a.wf(),
        b.wf(),
    ensures
        a.common_den(b) > 0,
        divides(a.den, a.common_den(b)),
        divides(b.den, a.common_den(b)),
        a.common_den(b) == a.den * (a.common_den(b) / a.den),
        a.common_den(b) == b.den * (a.common_den(b) / b.den),
        a.den == b.den ==> a.common_den(b) / a.den == 1,
{
    let d = a.common_den(b);
    if a.den == b.den {
        lemma_divides_multiple(a.den, 1);
        assert(a.den * 1 == a.den);
    } else {
        lemma_lcm_is_common_multiple(a.den, b.den);
    }
    lemma_divides_witness(a.den, d);
    lemma_divides_witness(b.den, d);
    if a.den == b.den {
        lemma_div_by_self(a.den as int);
    }
}

/// The number of a sum is the sum of the numbers.
pub proof fn lemma_add_value(a: Rational, b: Rational)
    requires
        a.wf(),
        b.wf(),
    ensures
        a.add(b).wf(),
        stands_for(
            a.add(b),
            a.signed_num() * b.den + b.signed_num() * a.den,
            (a.den * b.den) as int,
        ),
{
    lemma_common_den(a, b);
    let d = a.common_den(b);
    let ka = d / a.den;
    let kb = d / b.den;
    let x = a.signed_num();
    let y = b.signed_num();
    let ad = a.den;
    let bd = b.den;
    assert(ad * bd > 0) by (nonlinear_arith)
        requires
            ad > 0,
            bd > 0,
    ;
    let pd = (ad * bd) as int;
    assert((x * ka + y * kb) * pd == (x * ka) * pd + (y * kb) * pd) by (nonlinear_arith);
    assert((x * ka) * (ad * bd) == (x * bd) * (ad * ka)) by (nonlinear_arith);
    assert((y * kb) * (ad * bd) == (y * ad) * (bd * kb)) by (nonlinear_arith);
    assert((x * bd + y * ad) * d == (x * bd) * d + (y * ad) * d) by (nonlinear_arith);
    assert((x * ka + y * kb) * pd == (x * bd + y * ad) * d);
}

/// Negating the operands negates the sum, but for the sign of a zero.
pub proof fn lemma_add_of_negations(a: Rational, b: Rational)
    requires
        a.sign == Sign::Negative,
    ensures
        a.neg().add(b.neg()).neg() == a.add(b),
{
    let d = a.common_den(b);
    let ka = d / a.den;
    let kb = d / b.den;
    assert(a.neg().common_den(b.neg()) == d);
    assert(a.neg().signed_num() == -a.signed_num());
    assert(b.neg().signed_num() == -b.signed_num());
    assert((-a.signed_num()) * ka + (-b.signed_num()) * kb == -(a.signed_num() * ka + b.signed_num()
        * kb)) by (nonlinear_arith);
}

/// A value in lowest terms is the same number, with a denominator other than
/// zero and no divisor common to numerator and denominator.
pub proof fn lemma_simplify(x: Rational)
    requires
        x.wf(),
    ensures
        x.simplify().wf(),
        x.simplify().in_lowest_terms(),
        x.simplify().eqv(x),
        x.simplify().sign == x.sign,
        x.simplify().exact == x.exact,
        x.num == gcd(x.num, x.den) * x.simplify().num,
        x.den == gcd(x.num, x.den) * x.simplify().den,
        x.den == 1 ==> x.simplify() == x,
        gcd(x.num, x.den) > 0,
{
    let g = gcd(x.num, x.den);
    lemma_gcd_positive(x.num, x.den);
    lemma_gcd_divides(x.num, x.den);
    lemma_gcd_reduced(x.num, x.den);
    lemma_divides_witness(g, x.num);
    lemma_divides_witness(g, x.den);
    let n = x.num / g;
    let d = x.den / g;
    assert(d > 0) by (nonlinear_arith)
        requires
            x.den == g * d,
            x.den > 0,
    ;
    assert(n * x.den == x.num * d) by (nonlinear_arith)
        requires
            x.num == g * n,
            x.den == g * d,
    ;
    assert((-n) * x.den == (-x.num) * d) by (nonlinear_arith)
        requires
            n * x.den == x.num * d,
    ;
    if x.den == 1 {
        assert(g == 1) by {
            crate::arith::lemma_divides_le(g, 1);
        }
        assert(x.num / 1 == x.num);
        assert(1nat / 1 == 1);
    }
}

} // verus!
