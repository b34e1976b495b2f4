//! Arithmetic on little-endian vectors of 32-bit limbs. The results may carry
//! zero limbs at the top; `trim` removes them.

use crate::limbs::{
    lemma_low_value_beyond, lemma_shorter_is_smaller, lemma_top_difference_decides,
    lemma_value_bound, lemma_value_drop_zero, lemma_value_horner, lemma_value_push,
    lemma_value_skip, limb_at, limbs_value, low_value, radix, radix_pow, trimmed,
};
use crate::order::Comparison;
use vstd::arithmetic::div_mod::{lemma_fundamental_div_mod, lemma_fundamental_div_mod_converse};
use vstd::prelude::*;

verus! {

/// One step of a carry chain: a digit and the next carry take the place of
/// the limb total and the carry that came in.
proof fn lemma_carry_step(acc: nat, carry: nat, p: nat, digit: nat, next: nat, total: nat, target: nat)
    requires
        acc + carry * p == target,
        digit + next * radix() == total + carry,
    ensures
        acc + digit * p + next * (radix() * p) == target + total * p,
{
    assert((digit + next * radix()) * p == digit * p + (next * radix()) * p) by (nonlinear_arith);
    assert((next * radix()) * p == next * (radix() * p)) by (nonlinear_arith);
    assert((total + carry) * p == total * p + carry * p) by (nonlinear_arith);
}

/// One step of a borrow chain.
proof fn lemma_borrow_step(
    acc: nat,
    borrow: nat,
    p: nat,
    digit: nat,
    next: nat,
    x: nat,
    y: nat,
    lo_a: nat,
    lo_b: nat,
)
    requires
        acc + lo_b == lo_a + borrow * p,
        digit + y + borrow == x + next * radix(),
    ensures
        acc + digit * p + (lo_b + y * p) == (lo_a + x * p) + next * (radix() * p),
{
    assert((digit + y + borrow) * p == digit * p + y * p + borrow * p) by (nonlinear_arith);
    assert((x + next * radix()) * p == x * p + (next * radix()) * p) by (nonlinear_arith);
    assert((next * radix()) * p == next * (radix() * p)) by (nonlinear_arith);
}

/// The limb of `v` at `i`, zero past the end.
pub fn limb_or_zero(v: &Vec<u32>, i: usize) -> (x: u32)
    ensures
        x == limb_at(v@, i as int),
{
    if i < v.len() {
        v[i]
    } else {
        0
    }
}

/// Removes the zero limbs at the top.
pub fn trim(limbs: Vec<u32>) -> (r: Vec<u32>)
    ensures
        trimmed(r@),
        limbs_value(r@) == limbs_value(limbs@),
        r@.len() <= limbs@.len(),
{
    let mut out = limbs;
    while out.len() > 0 && out[out.len() - 1] == 0
        invariant
            limbs_value(out@) == limbs_value(limbs@),
            out@.len() <= limbs@.len(),
        decreases out@.len(),
    {
        proof {
            lemma_value_drop_zero(out@);
        }
        out.pop();
    }
    out
}

/// The sum of two numbers.
pub fn add_limbs(a: &Vec<u32>, b: &Vec<u32>) -> (r: Vec<u32>)
    ensures
        limbs_value(r@) == limbs_value(a@) + limbs_value(b@),
{
    let n: usize = if a.len() >= b.len() {
        a.len()
    } else {
        b.len()
    };
    let mut out: Vec<u32> = Vec::new();
    let mut carry: u64 = 0;
    let mut i: usize = 0;
    while i < n
        invariant
            i <= n,
            out@.len() == i,
            carry <= 1,
            limbs_value(out@) + carry * radix_pow(i as nat) == low_value(a@, i as nat) + low_value(
                b@,
                i as nat,
            ),
        decreases n - i,
    {
        let x: u32 = limb_or_zero(a, i);
        let y: u32 = limb_or_zero(b, i);
        let sum: u64 = x as u64 + y as u64 + carry;
        let digit: u32 = (sum % 0x1_0000_0000) as u32;
        let next: u64 = sum / 0x1_0000_0000;
        proof {
            let p = radix_pow(i as nat);
            lemma_value_push(out@, digit);
            lemma_carry_step(
                limbs_value(out@),
                carry as nat,
                p,
                digit as nat,
                next as nat,
                (x + y) as nat,
                low_value(a@, i as nat) + low_value(b@, i as nat),
            );
            assert((x + y) * p == x * p + y * p) by (nonlinear_arith);
        }
        out.push(digit);
        carry = next;
        i += 1;
    }
    proof {
        lemma_low_value_beyond(a@, n as nat);
        lemma_low_value_beyond(b@, n as nat);
        lemma_value_push(out@, carry as u32);
    }
    out.push(carry as u32);
    out
}

/// The difference of two numbers, the first of which is not the smaller.
pub fn sub_limbs(a: &Vec<u32>, b: &Vec<u32>) -> (r: Vec<u32>)
    requires
        limbs_value(a@) >= limbs_value(b@),
    ensures
        limbs_value(r@) == limbs_value(a@) - limbs_value(b@),
{
    let n: usize = if a.len() >= b.len() {
        a.len()
    } else {
        b.len()
    };
    let mut out: Vec<u32> = Vec::new();
    let mut borrow: u64 = 0;
    let mut i: usize = 0;
    while i < n
        invariant
            i <= n,
            out@.len() == i,
            borrow <= 1,
            limbs_value(out@) + low_value(b@, i as nat) == low_value(a@, i as nat) + borrow
                * radix_pow(i as nat),
        decreases n - i,
    {
        let x: u64 = limb_or_zero(a, i) as u64;
        let take: u64 = limb_or_zero(b, i) as u64 + borrow;
        let mut digit: u32 = 0;
        let mut next: u64 = 0;
        if x >= take {
            digit = (x - take) as u32;
        } else {
            digit = (x + 0x1_0000_0000 - take) as u32;
            next = 1;
        }
        proof {
            lemma_value_push(out@, digit);
            lemma_borrow_step(
                limbs_value(out@),
                borrow as nat,
                radix_pow(i as nat),
                digit as nat,
                next as nat,
                x as nat,
                limb_at(b@, i as int),
                low_value(a@, i as nat),
                low_value(b@, i as nat),
            );
        }
        out.push(digit);
        borrow = next;
        i += 1;
    }
    proof {
        lemma_low_value_beyond(a@, n as nat);
        lemma_low_value_beyond(b@, n as nat);
        lemma_value_bound(out@);
        let p = radix_pow(n as nat);
        assert(borrow == 0) by {
            if borrow == 1 {
                assert(1 * p == p);
            }
        }
        assert(0 * p == 0);
    }
    out
}

/// The number times a small factor, plus a small addend.
pub fn mul_small_add(a: &Vec<u32>, m: u32, c: u32) -> (r: Vec<u32>)
    ensures
        limbs_value(r@) == limbs_value(a@) * m + c,
{
    let n: usize = a.len();
    let mut out: Vec<u32> = Vec::new();
    let mut carry: u64 = c as u64;
    let mut i: usize = 0;
    proof {
        assert(0 * (m as int) == 0);
        assert(carry * 1 == c);
    }
    while i < n
        invariant
            i <= n,
            n == a@.len(),
            out@.len() == i,
            carry < 0x1_0000_0000,
            limbs_value(out@) + carry * radix_pow(i as nat) == low_value(a@, i as nat) * m + c,
        decreases n - i,
    {
        let x: u32 = a[i];
        assert(x * m <= 0xffff_ffff * 0xffff_ffff) by (nonlinear_arith)
            requires
                x <= 0xffff_ffff,
                m <= 0xffff_ffff,
        ;
        let total: u64 = x as u64 * m as u64 + carry;
        let digit: u32 = (total % 0x1_0000_0000) as u32;
        let next: u64 = total / 0x1_0000_0000;
        proof {
            let p = radix_pow(i as nat);
            let lo = low_value(a@, i as nat);
            lemma_value_push(out@, digit);
            lemma_carry_step(
                limbs_value(out@),
                carry as nat,
                p,
                digit as nat,
                next as nat,
                (x * m) as nat,
                (lo * m + c) as nat,
            );
            assert((lo + x * p) * m == lo * m + (x * m) * p) by (nonlinear_arith);
        }
        out.push(digit);
        carry = next;
        i += 1;
    }
    proof {
        lemma_value_push(out@, carry as u32);
    }
    out.push(carry as u32);
    out
}

/// The number times the radix: a zero limb goes in at the bottom.
pub fn shift_limb(a: &Vec<u32>) -> (r: Vec<u32>)
    ensures
        limbs_value(r@) == limbs_value(a@) * radix(),
{
    let mut out: Vec<u32> = a.clone();
    assert(out@ =~= a@);
    out.insert(0, 0);
    proof {
        lemma_value_horner(out@);
        assert(out@.drop_first() =~= a@);
    }
    out
}

/// Compares two numbers held without zero limbs at the top.
pub fn compare_limbs(a: &Vec<u32>, b: &Vec<u32>) -> (r: Comparison)
    requires
        trimmed(a@),
        trimmed(b@),
    ensures
        r == Comparison::of(limbs_value(a@) as int, limbs_value(b@) as int),
{
    if a.len() < b.len() {
        proof {
            lemma_shorter_is_smaller(a@, b@);
        }
        return Comparison::Less;
    }
    if a.len() > b.len() {
        proof {
            lemma_shorter_is_smaller(b@, a@);
        }
        return Comparison::Greater;
    }
    let mut i: usize = a.len();
    while i > 0
        invariant
            i <= a@.len(),
            a@.len() == b@.len(),
            forall|j: int| i <= j < a@.len() ==> a@[j] == b@[j],
        decreases i,
    {
        i -= 1;
        if a[i] < b[i] {
            proof {
                lemma_top_difference_decides(a@, b@, i as int);
            }
            return Comparison::Less;
        }
        if a[i] > b[i] {
            proof {
                lemma_top_difference_decides(b@, a@, i as int);
            }
            return Comparison::Greater;
        }
    }
    assert(a@ =~= b@);
    Comparison::Equal
}

/// Quotient and remainder of a number by a small divisor.
pub fn divmod_small(a: &Vec<u32>, d: u32) -> (r: (Vec<u32>, u32))
    requires
        d > 0,
    ensures
        limbs_value(r.0@) == limbs_value(a@) / (d as nat),
        r.1 == limbs_value(a@) % (d as nat),
{
    let n: usize = a.len();
    let mut quot: Vec<u32> = vec![0u32; n];
    let mut rem: u64 = 0;
    let mut i: usize = n;
    proof {
        assert(a@.skip(n as int).len() == 0);
        assert(quot@.skip(n as int).len() == 0);
        assert(0 * (d as int) == 0);
    }
    while i > 0
        invariant
            i <= n,
            n == a@.len(),
            quot@.len() == n,
            d > 0,
            rem < d,
            limbs_value(a@.skip(i as int)) == limbs_value(quot@.skip(i as int)) * d + rem,
        decreases i,
    {
        let ghost before = quot@;
        i -= 1;
        let cur: u64 = rem * 0x1_0000_0000 + a[i] as u64;
        let q: u64 = cur / (d as u64);
        let next: u64 = cur % (d as u64);
        proof {
            lemma_fundamental_div_mod(cur as int, d as int);
            assert(d * q == q * d) by (nonlinear_arith);
        }
        assert(q < 0x1_0000_0000) by (nonlinear_arith)
            requires
                cur == q * d + next,
                0 <= next < d,
                cur < d * 0x1_0000_0000,
        ;
        quot.set(i, q as u32);
        proof {
            let vq = limbs_value(before.skip(i + 1));
            assert(quot@.skip(i + 1) =~= before.skip(i + 1));
            lemma_value_skip(quot@, i as int);
            lemma_value_skip(a@, i as int);
            assert((q + radix() * vq) * d == q * d + (radix() * vq) * d) by (nonlinear_arith);
            assert((radix() * vq) * d == radix() * (vq * d)) by (nonlinear_arith);
            assert(radix() * (vq * d + rem) == radix() * (vq * d) + rem * radix())
                by (nonlinear_arith);
            assert(a@[i as int] + radix() * (vq * d + rem) == (q + radix() * vq) * d + next);
        }
        rem = next;
    }
    proof {
        assert(a@.skip(0) =~= a@);
        assert(quot@.skip(0) =~= quot@);
        lemma_fundamental_div_mod_converse(
            limbs_value(a@) as int,
            d as int,
            limbs_value(quot@) as int,
            rem as int,
        );
    }
    (quot, rem as u32)
}

} // verus!
