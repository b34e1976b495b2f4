//! Unsigned integers of arbitrary size.

use crate::arith::{
    divides, gcd, lcm, lemma_gcd_divides, lemma_gcd_greatest, lemma_gcd_positive,
    lemma_lcm_is_common_multiple, lemma_lcm_least, lemma_power_halve, power,
};
use crate::decimal::{
    decimal_digits, digit_str, high_digits, lemma_split_lowest_digit, low_digits,
};
use crate::limb_arith::{
    add_limbs, compare_limbs, divmod_small, mul_small_add, shift_limb, sub_limbs, trim,
};
use crate::limbs::{
    lemma_value_bound, lemma_value_horner, lemma_value_skip, lemma_value_zero, limbs_value, radix,
    trimmed,
};
use crate::order::Comparison;
use vstd::arithmetic::div_mod::lemma_fundamental_div_mod_converse;
use vstd::arithmetic::power2::{lemma2_to64, lemma_pow2_strictly_increases, lemma_pow2_unfold, pow2};
use vstd::prelude::*;

verus! {

/// An unsigned integer of arbitrary size, held as 32-bit limbs with the lowest
/// first and no zero limb at the top. Its view is the number it stands for.
#[derive(Debug)]
pub struct BigUint {
    limbs: Vec<u32>,
}

impl View for BigUint {
    type V = nat;

    closed spec fn view(&self) -> nat {
        limbs_value(self.limbs@)
    }
}

impl Clone for BigUint {
    fn clone(&self) -> (r: Self)
        ensures
            r@ == self@,
    {
        proof {
            use_type_invariant(self);
        }
        let limbs = self.limbs.clone();
        assert(limbs@ =~= self.limbs@);
        BigUint { limbs }
    }
}

/// The message of the failure to raise zero to the power zero.
pub const ZERO_POWER_ZERO: &'static str = "Zero to the power of zero is undefined";

/// The message of the failure to raise a number to a power above `u64::MAX`.
pub const EXPONENT_TOO_LARGE: &'static str = "Exponent too large";

/// What raising `base` to `exponent` gives: the power, or the message of the
/// failure.
pub open spec fn power_outcome(base: nat, exponent: nat) -> Result<nat, Seq<char>> {
    if base == 0 && exponent == 0 {
        Err(ZERO_POWER_ZERO@)
    } else if exponent > u64::MAX {
        Err(EXPONENT_TOO_LARGE@)
    } else {
        Ok(power(base, exponent))
    }
}

/// One step of binary long division: the next bit of the dividend comes in
/// below the remainder, and the divisor goes out of it once if it fits.
proof fn lemma_division_bit(
    r0: nat,
    w: nat,
    high: nat,
    bit: nat,
    q: nat,
    d: nat,
    rem: nat,
    q2: nat,
    rem2: nat,
)
    requires
        r0 * w + high == q * d + rem,
        (2 * rem + bit < d && rem2 == 2 * rem + bit && q2 == 2 * q) || (2 * rem + bit >= d && rem2
            == 2 * rem + bit - d && q2 == 2 * q + 1),
    ensures
        r0 * (2 * w) + (2 * high + bit) == q2 * d + rem2,
{
    assert(r0 * (2 * w) == 2 * (r0 * w)) by (nonlinear_arith);
    assert((2 * q) * d == 2 * (q * d)) by (nonlinear_arith);
    assert((2 * q + 1) * d == 2 * (q * d) + d) by (nonlinear_arith);
}

impl BigUint {
    #[verifier::type_invariant]
    spec fn well_formed(self) -> bool {
        trimmed(self.limbs@)
    }

    /// The number that the limbs stand for, whatever zero limbs are at their
    /// top.
    fn from_limbs(limbs: Vec<u32>) -> (r: BigUint)
        ensures
            r@ == limbs_value(limbs@),
    {
        BigUint { limbs: trim(limbs) }
    }

    /// The number zero.
    pub fn zero() -> (r: BigUint)
        ensures
            r@ == 0,
    {
        BigUint { limbs: Vec::new() }
    }

    /// The number `x`.
    pub fn from_u64(x: u64) -> (r: BigUint)
        ensures
            r@ == x,
    {
        let low: u32 = (x % 0x1_0000_0000) as u32;
        let high: u32 = (x / 0x1_0000_0000) as u32;
        let mut limbs: Vec<u32> = Vec::new();
        limbs.push(low);
        limbs.push(high);
        proof {
            let s = limbs@;
            let s1 = s.drop_first();
            let s2 = s1.drop_first();
            lemma_value_horner(s);
            lemma_value_horner(s1);
            assert(s[0] == low);
            assert(s1[0] == high);
            assert(s2.len() == 0);
            assert(limbs_value(s2) == 0);
            assert(limbs_value(s1) == high);
            assert(limbs_value(s) == low + radix() * high);
        }
        BigUint::from_limbs(limbs)
    }

    /// The number as a `u64`, where it fits.
    pub fn to_u64(&self) -> (r: Option<u64>)
        ensures
            self@ <= u64::MAX ==> r == Some(self@ as u64),
            self@ > u64::MAX ==> r.is_none(),
    {
        proof {
            use_type_invariant(self);
        }
        let n: usize = self.limbs.len();
        if n == 0 {
            Some(0)
        } else if n == 1 {
            let low: u64 = self.limbs[0] as u64;
            proof {
                let s = self.limbs@;
                lemma_value_horner(s);
                assert(s.drop_first().len() == 0);
                assert(limbs_value(s.drop_first()) == 0);
                assert(limbs_value(s) == low);
            }
            Some(low)
        } else if n == 2 {
            let low: u64 = self.limbs[0] as u64;
            let high: u64 = self.limbs[1] as u64;
            proof {
                let s = self.limbs@;
                let s1 = s.drop_first();
                lemma_value_horner(s);
                lemma_value_horner(s1);
                assert(s1[0] == high);
                assert(s1.drop_first().len() == 0);
                assert(limbs_value(s1.drop_first()) == 0);
                assert(limbs_value(s1) == high);
                assert(limbs_value(s) == low + radix() * high);
                assert(high <= 0xffff_ffff);
                assert(low <= 0xffff_ffff);
            }
            let shifted: u64 = high * 0x1_0000_0000;
            Some(low + shifted)
        } else {
            proof {
                let s = self.limbs@;
                let s1 = s.drop_first();
                let s2 = s1.drop_first();
                lemma_value_horner(s);
                lemma_value_horner(s1);
                assert(s2.len() > 0);
                assert(s2.last() == s.last());
                lemma_value_zero(s2);
                assert(limbs_value(s2) >= 1);
                assert(limbs_value(s1) >= radix() * limbs_value(s2));
                assert(limbs_value(s1) >= radix());
                assert(limbs_value(s) >= radix() * limbs_value(s1));
                assert(limbs_value(s) >= radix() * radix());
            }
            None
        }
    }

    /// Whether the number is zero.
    pub fn is_zero(&self) -> (r: bool)
        ensures
            r == (self@ == 0),
    {
        proof {
            use_type_invariant(self);
            lemma_value_zero(self.limbs@);
        }
        self.limbs.len() == 0
    }

    /// Whether the number is one.
    pub fn is_one(&self) -> (r: bool)
        ensures
            r == (self@ == 1),
    {
        match self.to_u64() {
            Some(v) => v == 1,
            None => false,
        }
    }

    /// How `self` stands to `other`.
    pub fn compare(&self, other: &BigUint) -> (r: Comparison)
        ensures
            r == Comparison::of(self@ as int, other@ as int),
    {
        proof {
            use_type_invariant(self);
            use_type_invariant(other);
        }
        compare_limbs(&self.limbs, &other.limbs)
    }

    /// Whether the two are the same number.
    pub fn equals(&self, other: &BigUint) -> (r: bool)
        ensures
            r == (self@ == other@),
    {
        match self.compare(other) {
            Comparison::Equal => true,
            _ => false,
        }
    }

    /// Whether `self` is below `other`.
    pub fn less_than(&self, other: &BigUint) -> (r: bool)
        ensures
            r == (self@ < other@),
    {
        match self.compare(other) {
            Comparison::Less => true,
            _ => false,
        }
    }

    /// The sum of the two numbers.
    pub fn add(&self, other: &BigUint) -> (r: BigUint)
        ensures
            r@ == self@ + other@,
    {
        BigUint::from_limbs(add_limbs(&self.limbs, &other.limbs))
    }

    /// The difference `self - other`, for `other` not above `self`.
    pub fn sub(&self, other: &BigUint) -> (r: BigUint)
        requires
            self@ >= other@,
        ensures
            r@ == self@ - other@,
    {
        BigUint::from_limbs(sub_limbs(&self.limbs, &other.limbs))
    }

    /// The number `self * m + c` for small `m` and `c`.
    pub fn mul_small_add(&self, m: u32, c: u32) -> (r: BigUint)
        ensures
            r@ == self@ * m + c,
    {
        BigUint::from_limbs(mul_small_add(&self.limbs, m, c))
    }

    /// The product of the two numbers.
    pub fn mul(&self, other: &BigUint) -> (r: BigUint)
        ensures
            r@ == self@ * other@,
    {
        let n: usize = self.limbs.len();
        let mut acc: Vec<u32> = Vec::new();
        let mut i: usize = n;
        proof {
            assert(self.limbs@.skip(n as int).len() == 0);
            assert(0 * other@ == 0);
        }
        while i > 0
            invariant
                i <= n,
                n == self.limbs@.len(),
                limbs_value(acc@) == limbs_value(self.limbs@.skip(i as int)) * other@,
            decreases i,
        {
            i -= 1;
            let part: Vec<u32> = mul_small_add(&other.limbs, self.limbs[i], 0);
            let shifted: Vec<u32> = shift_limb(&acc);
            proof {
                let x = self.limbs@[i as int];
                let hi = limbs_value(self.limbs@.skip(i + 1));
                lemma_value_skip(self.limbs@, i as int);
                let o = other@;
                assert((x + radix() * hi) * o == x * o + (radix() * hi) * o) by (nonlinear_arith);
                assert((radix() * hi) * o == (hi * o) * radix()) by (nonlinear_arith);
                assert(o * x == x * o) by (nonlinear_arith);
            }
            acc = trim(add_limbs(&shifted, &part));
        }
        assert(self.limbs@.skip(0) =~= self.limbs@);
        BigUint::from_limbs(acc)
    }

    /// Quotient and remainder of `self` by a divisor other than zero.
    pub fn divmod(&self, divisor: &BigUint) -> (r: (BigUint, BigUint))
        requires
            divisor@ != 0,
        ensures
            r.0@ == self@ / divisor@,
            r.1@ == self@ % divisor@,
    {
        proof {
            use_type_invariant(divisor);
        }
        let n: usize = self.limbs.len();
        let mut quot: Vec<u32> = vec![0u32; n];
        let mut rem: Vec<u32> = Vec::new();
        let mut i: usize = n;
        proof {
            assert(self.limbs@.skip(n as int).len() == 0);
            assert(quot@.skip(n as int).len() == 0);
            assert(0 * divisor@ == 0);
        }
        while i > 0
            invariant
                i <= n,
                n == self.limbs@.len(),
                quot@.len() == n,
                trimmed(rem@),
                trimmed(divisor.limbs@),
                limbs_value(rem@) < divisor@,
                limbs_value(self.limbs@.skip(i as int)) == limbs_value(quot@.skip(i as int))
                    * divisor@ + limbs_value(rem@),
            decreases i,
        {
            i -= 1;
            let ghost before = quot@;
            let ghost r0 = limbs_value(rem@);
            let limb: u64 = self.limbs[i] as u64;
            let mut q: u32 = 0;
            let mut done: u64 = 0;
            proof {
                lemma2_to64();
                assert(limb >> 32 == 0) by (bit_vector)
                    requires
                        limb < 0x1_0000_0000,
                ;
                assert(r0 * 1 == r0);
                assert(0 * divisor@ == 0);
            }
            while done < 32
                invariant
                    done <= 32,
                    limb < 0x1_0000_0000,
                    trimmed(rem@),
                    trimmed(divisor.limbs@),
                    limbs_value(rem@) < divisor@,
                    q < pow2(done as nat),
                    r0 * pow2(done as nat) + (limb >> (32 - done)) == q * divisor@ + limbs_value(
                        rem@,
                    ),
                decreases 32 - done,
            {
                let shift: u64 = 32 - done - 1;
                let low: u64 = (limb >> shift) & 1;
                proof {
                    lemma2_to64();
                    lemma_pow2_unfold((done + 1) as nat);
                    if done < 31 {
                        lemma_pow2_strictly_increases((done + 1) as nat, 32);
                    }
                    assert((limb >> shift) == 2 * (limb >> ((shift + 1) as u64)) + ((limb >> shift)
                        & 1)) by (bit_vector)
                        requires
                            shift < 32,
                    ;
                    assert((limb >> shift) & 1 <= 1) by (bit_vector);
                }
                let bit: u32 = low as u32;
                let doubled: Vec<u32> = trim(mul_small_add(&rem, 2, bit));
                let ghost old_rem = limbs_value(rem@);
                let ghost old_q = q as nat;
                match compare_limbs(&doubled, &divisor.limbs) {
                    Comparison::Less => {
                        rem = doubled;
                        q = q * 2;
                    },
                    _ => {
                        rem = trim(sub_limbs(&doubled, &divisor.limbs));
                        q = q * 2 + 1;
                    },
                }
                proof {
                    lemma_division_bit(
                        r0,
                        pow2(done as nat),
                        (limb >> ((shift + 1) as u64)) as nat,
                        bit as nat,
                        old_q,
                        divisor@,
                        old_rem,
                        q as nat,
                        limbs_value(rem@),
                    );
                }
                done += 1;
            }
            quot.set(i, q);
            proof {
                lemma2_to64();
                let vq = limbs_value(before.skip(i + 1));
                let x = self.limbs@[i as int];
                assert(limb >> 0 == limb) by (bit_vector);
                assert(quot@.skip(i + 1) =~= before.skip(i + 1));
                lemma_value_skip(quot@, i as int);
                lemma_value_skip(self.limbs@, i as int);
                let dv = divisor@;
                assert(r0 * radix() + x == q * dv + limbs_value(rem@));
                assert((q + radix() * vq) * dv == q * dv + (radix() * vq) * dv)
                    by (nonlinear_arith);
                assert((radix() * vq) * dv == radix() * (vq * dv)) by (nonlinear_arith);
                assert(radix() * (vq * dv + r0) == radix() * (vq * dv) + r0 * radix())
                    by (nonlinear_arith);
                assert(x + radix() * (vq * dv + r0) == (q + radix() * vq) * dv + limbs_value(
                    rem@,
                ));
            }
        }
        proof {
            assert(self.limbs@.skip(0) =~= self.limbs@);
            assert(quot@.skip(0) =~= quot@);
            lemma_fundamental_div_mod_converse(
                self@ as int,
                divisor@ as int,
                limbs_value(quot@) as int,
                limbs_value(rem@) as int,
            );
        }
        (BigUint::from_limbs(quot), BigUint::from_limbs(rem))
    }

    /// The quotient of `self` by a divisor other than zero, rounded down.
    pub fn div(&self, divisor: &BigUint) -> (r: BigUint)
        requires
            divisor@ != 0,
        ensures
            r@ == self@ / divisor@,
    {
        self.divmod(divisor).0
    }

    /// The remainder of `self` by a divisor other than zero.
    pub fn rem(&self, divisor: &BigUint) -> (r: BigUint)
        requires
            divisor@ != 0,
        ensures
            r@ == self@ % divisor@,
    {
        self.divmod(divisor).1
    }

    /// Quotient and remainder of `self` by a small divisor other than zero.
    pub fn divmod_small(&self, divisor: u32) -> (r: (BigUint, u32))
        requires
            divisor != 0,
        ensures
            r.0@ == self@ / (divisor as nat),
            r.1 == self@ % (divisor as nat),
    {
        let (quot, rem) = divmod_small(&self.limbs, divisor);
        (BigUint::from_limbs(quot), rem)
    }

    /// The greatest common divisor of two numbers: it divides both, and every
    /// number that divides both divides it. For two zeros it is zero.
    pub fn gcd(a: &BigUint, b: &BigUint) -> (r: BigUint)
        ensures
            r@ == gcd(a@, b@),
            divides(r@, a@),
            divides(r@, b@),
            forall|c: nat| divides(c, a@) && divides(c, b@) ==> #[trigger] divides(c, r@),
    {
        proof {
            lemma_gcd_divides(a@, b@);
            assert forall|c: nat| divides(c, a@) && divides(c, b@) implies #[trigger] divides(
                c,
                gcd(a@, b@),
            ) by {
                lemma_gcd_greatest(a@, b@, c);
            }
        }
        let mut x: BigUint = a.clone();
        let mut y: BigUint = b.clone();
        while !y.is_zero()
            invariant
                gcd(x@, y@) == gcd(a@, b@),
            decreases y@,
        {
            let next: BigUint = x.rem(&y);
            x = y;
            y = next;
        }
        x
    }

    /// The least common multiple of two numbers: for two numbers above zero
    /// it is above zero and a multiple of both, and every multiple of both is
    /// a multiple of it. Where one number is zero it is zero.
    pub fn lcm(a: &BigUint, b: &BigUint) -> (r: BigUint)
        ensures
            r@ == lcm(a@, b@),
            a@ == 0 || b@ == 0 ==> r@ == 0,
            a@ > 0 && b@ > 0 ==> r@ > 0 && divides(a@, r@) && divides(b@, r@),
            a@ > 0 && b@ > 0 ==> forall|m: nat|
                divides(a@, m) && divides(b@, m) ==> #[trigger] divides(r@, m),
    {
        if a.is_zero() || b.is_zero() {
            return BigUint::zero();
        }
        let g: BigUint = BigUint::gcd(a, b);
        proof {
            lemma_gcd_positive(a@, b@);
            lemma_lcm_is_common_multiple(a@, b@);
            assert forall|m: nat| divides(a@, m) && divides(b@, m) implies #[trigger] divides(
                lcm(a@, b@),
                m,
            ) by {
                lemma_lcm_least(a@, b@, m);
            }
        }
        a.mul(b).div(&g)
    }

    /// The power `base^exponent`. Zero to the power zero is refused, and so is
    /// an exponent above `u64::MAX`.
    pub fn pow(base: &BigUint, exponent: &BigUint) -> (r: Result<BigUint, String>)
        ensures
            match r {
                Ok(v) => power_outcome(base@, exponent@) == Ok::<nat, Seq<char>>(v@),
                Err(msg) => power_outcome(base@, exponent@) == Err::<nat, Seq<char>>(msg@),
            },
    {
        if base.is_zero() && exponent.is_zero() {
            return Err(ZERO_POWER_ZERO.to_owned());
        }
        let small: u64 = match exponent.to_u64() {
            Some(e) => e,
            None => {
                return Err(EXPONENT_TOO_LARGE.to_owned());
            },
        };
        let mut acc: BigUint = BigUint::from_u64(1);
        let mut b: BigUint = base.clone();
        let mut e: u64 = small;
        let ghost goal = power(base@, exponent@);
        assert(1 * goal == goal);
        while e > 0
            invariant
                acc@ * power(b@, e as nat) == goal,
            decreases e,
        {
            let ghost a0 = acc@;
            let ghost b0 = b@;
            let ghost half = power(b0 * b0, (e / 2) as nat);
            proof {
                lemma_power_halve(b0, e as nat);
            }
            if e % 2 == 1 {
                acc = acc.mul(&b);
                assert(a0 * (b0 * half) == (a0 * b0) * half) by (nonlinear_arith);
            }
            e = e / 2;
            if e > 0 {
                b = b.mul(&b);
            }
        }
        proof {
            assert(acc@ * 1 == acc@);
        }
        Ok(acc)
    }

    /// The decimal notation of the number.
    pub fn to_decimal(&self) -> (r: String)
        ensures
            r@ == decimal_digits(self@),
    {
        let mut digits: Vec<u32> = Vec::new();
        let mut cur: BigUint = self.clone();
        proof {
            assert(low_digits(digits@) =~= Seq::<char>::empty());
            assert(decimal_digits(self@) + Seq::<char>::empty() =~= decimal_digits(self@));
        }
        loop
            invariant_except_break
                forall|j: int| 0 <= j < digits@.len() ==> digits@[j] < 10,
                cur@ > 0 || digits@.len() == 0,
                decimal_digits(self@) == (if digits@.len() == 0 {
                    decimal_digits(cur@)
                } else {
                    high_digits(cur@)
                }) + low_digits(digits@),
            ensures
                digits@.len() > 0,
                forall|j: int| 0 <= j < digits@.len() ==> digits@[j] < 10,
                decimal_digits(self@) == low_digits(digits@),
            decreases cur@,
        {
            let (rest, digit) = cur.divmod_small(10);
            proof {
                lemma_split_lowest_digit(cur@, digits@);
            }
            digits.push(digit);
            cur = rest;
            if cur.is_zero() {
                proof {
                    assert(Seq::<char>::empty() + low_digits(digits@) =~= low_digits(digits@));
                }
                break ;
            }
        }
        let n: usize = digits.len();
        let mut out: String = String::new();
        let mut i: usize = n;
        while i > 0
            invariant
                i <= n,
                n == digits@.len(),
                forall|j: int| 0 <= j < digits@.len() ==> digits@[j] < 10,
                out@ == low_digits(digits@).subrange(0, n - i),
            decreases i,
        {
            i -= 1;
            let text: &'static str = digit_str(digits[i]);
            proof {
                let all = low_digits(digits@);
                assert(all.subrange(0, n - i) =~= all.subrange(0, n - i - 1) + text@);
            }
            out.append(text);
        }
        proof {
            let all = low_digits(digits@);
            assert(all.subrange(0, n as int) =~= all);
        }
        out
    }
}

} // verus!
