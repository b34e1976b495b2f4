//! The number that a little-endian sequence of 32-bit limbs stands for, and
//! the facts about it that limb-wise arithmetic rests on.

use vstd::prelude::*;

verus! {

/// The radix of one limb, `2^32`.
pub open spec fn radix() -> nat {
    0x1_0000_0000
}

/// `radix()` raised to the power `n`.
pub open spec fn radix_pow(n: nat) -> nat
    decreases n,
{
    if n == 0 {
        1
    } else {
        radix() * radix_pow((n - 1) as nat)
    }
}

/// The limb at position `i`, where positions past the end hold zero.
pub open spec fn limb_at(s: Seq<u32>, i: int) -> nat {
    if 0 <= i < s.len() {
        s[i] as nat
    } else {
        0
    }
}

/// The number formed by the `n` lowest limbs of `s`.
pub open spec fn low_value(s: Seq<u32>, n: nat) -> nat
    decreases n,
{
    if n == 0 {
        0
    } else {
        low_value(s, (n - 1) as nat) + limb_at(s, n - 1) * radix_pow((n - 1) as nat)
    }
}

/// The number that `s` stands for: the sum of `s[i] * radix()^i`.
pub open spec fn limbs_value(s: Seq<u32>) -> nat {
    low_value(s, s.len())
}

/// No zero limb at the top, so that every number has one representation.
pub open spec fn trimmed(s: Seq<u32>) -> bool {
    s.len() == 0 || s.last() != 0
}

/// The powers of the radix are above zero.
pub proof fn lemma_radix_pow_positive(n: nat)
    ensures
        radix_pow(n) > 0,
    decreases n,
{
    if n > 0 {
        lemma_radix_pow_positive((n - 1) as nat);
    }
}

/// The powers of the radix grow with the exponent.
pub proof fn lemma_radix_pow_monotonic(m: nat, n: nat)
    requires
        m <= n,
    ensures
        radix_pow(m) <= radix_pow(n),
    decreases n,
{
    if m < n {
        lemma_radix_pow_monotonic(m, (n - 1) as nat);
        lemma_radix_pow_positive((n - 1) as nat);
    }
}

/// The low value reads only the limbs below `n`.
pub proof fn lemma_low_value_agree(s: Seq<u32>, t: Seq<u32>, n: nat)
    requires
        forall|j: int| 0 <= j < n ==> limb_at(s, j) == limb_at(t, j),
    ensures
        low_value(s, n) == low_value(t, n),
    decreases n,
{
    if n > 0 {
        lemma_low_value_agree(s, t, (n - 1) as nat);
    }
}

/// Limbs past the end add nothing.
pub proof fn lemma_low_value_beyond(s: Seq<u32>, n: nat)
    requires
        n >= s.len(),
    ensures
        low_value(s, n) == limbs_value(s),
    decreases n,
{
    if n > s.len() {
        lemma_low_value_beyond(s, (n - 1) as nat);
        assert(limb_at(s, n - 1) == 0);
        assert(0 * radix_pow((n - 1) as nat) == 0);
    }
}

/// The `n` lowest limbs stand for a number below the `n`th power of the
/// radix.
pub proof fn lemma_low_value_bound(s: Seq<u32>, n: nat)
    ensures
        low_value(s, n) < radix_pow(n),
    decreases n,
{
    if n > 0 {
        let p = radix_pow((n - 1) as nat);
        let x = limb_at(s, n - 1);
        lemma_low_value_bound(s, (n - 1) as nat);
        assert(x * p <= (radix() - 1) * p) by (nonlinear_arith)
            requires
                x <= radix() - 1,
                p >= 0,
        ;
        assert((radix() - 1) * p == radix() * p - p) by (nonlinear_arith);
    }
}

/// A sequence stands for a number below the radix power of its length.
pub proof fn lemma_value_bound(s: Seq<u32>)
    ensures
        limbs_value(s) < radix_pow(s.len()),
{
    lemma_low_value_bound(s, s.len());
}

/// Appending a limb at the top adds that limb times the radix power of its
/// position.
pub proof fn lemma_value_push(s: Seq<u32>, x: u32)
    ensures
        limbs_value(s.push(x)) == limbs_value(s) + x * radix_pow(s.len()),
{
    let t = s.push(x);
    lemma_low_value_agree(s, t, s.len());
    assert(limb_at(t, s.len() as int) == x);
}

/// Horner's rule on the lowest limb, for the `n + 1` lowest limbs.
pub proof fn lemma_low_value_horner(s: Seq<u32>, n: nat)
    requires
        s.len() > 0,
    ensures
        low_value(s, n + 1) == s[0] + radix() * low_value(s.drop_first(), n),
    decreases n,
{
    let t = s.drop_first();
    if n == 0 {
        assert(low_value(s, 0) == 0);
        assert(low_value(t, 0) == 0);
        assert(radix_pow(0) == 1);
        assert(low_value(s, 1) == low_value(s, 0) + limb_at(s, 0) * radix_pow(0));
        assert(limb_at(s, 0) * 1 == s[0]);
        assert(radix() * 0 == 0);
    } else {
        lemma_low_value_horner(s, (n - 1) as nat);
        let x = limb_at(t, n - 1);
        let p = radix_pow((n - 1) as nat);
        let lo = low_value(t, (n - 1) as nat);
        assert(limb_at(s, n as int) == x);
        assert(radix_pow(n) == radix() * p);
        assert(low_value(s, n + 1) == low_value(s, n) + x * radix_pow(n));
        assert(low_value(s, n) == s[0] + radix() * lo);
        assert(low_value(t, n) == lo + x * p);
        assert(x * (radix() * p) == radix() * (x * p)) by (nonlinear_arith);
        assert(radix() * (lo + x * p) == radix() * lo + radix() * (x * p)) by (nonlinear_arith);
    }
}

/// Horner's rule on the lowest limb.
pub proof fn lemma_value_horner(s: Seq<u32>)
    requires
        s.len() > 0,
    ensures
        limbs_value(s) == s[0] + radix() * limbs_value(s.drop_first()),
{
    lemma_low_value_horner(s, (s.len() - 1) as nat);
}

/// Horner's rule on a suffix: the limb at `i` sits below the limbs after it.
pub proof fn lemma_value_skip(s: Seq<u32>, i: int)
    requires
        0 <= i < s.len(),
    ensures
        limbs_value(s.skip(i)) == s[i] + radix() * limbs_value(s.skip(i + 1)),
{
    lemma_value_horner(s.skip(i));
    assert(s.skip(i).drop_first() =~= s.skip(i + 1));
}

/// A trimmed, non-empty sequence stands for at least the radix power of its
/// top position.
pub proof fn lemma_trimmed_lower_bound(s: Seq<u32>)
    requires
        trimmed(s),
        s.len() > 0,
    ensures
        limbs_value(s) >= radix_pow((s.len() - 1) as nat),
{
    let p = radix_pow((s.len() - 1) as nat);
    let x = limb_at(s, s.len() - 1);
    assert(x * p >= p) by (nonlinear_arith)
        requires
            x >= 1,
            p >= 0,
    ;
}

/// Among trimmed sequences only the empty one stands for zero.
pub proof fn lemma_value_zero(s: Seq<u32>)
    requires
        trimmed(s),
    ensures
        limbs_value(s) == 0 <==> s.len() == 0,
{
    if s.len() > 0 {
        lemma_trimmed_lower_bound(s);
        lemma_radix_pow_positive((s.len() - 1) as nat);
    }
}

/// Of two trimmed sequences the shorter stands for the smaller number.
pub proof fn lemma_shorter_is_smaller(s: Seq<u32>, t: Seq<u32>)
    requires
        trimmed(t),
        s.len() < t.len(),
    ensures
        limbs_value(s) < limbs_value(t),
{
    lemma_value_bound(s);
    lemma_trimmed_lower_bound(t);
    lemma_radix_pow_monotonic(s.len(), (t.len() - 1) as nat);
}

/// Two sequences of one length that agree above position `k` compare as
/// their limbs at `k` do.
pub proof fn lemma_top_difference_decides(s: Seq<u32>, t: Seq<u32>, k: int)
    requires
        s.len() == t.len(),
        0 <= k < s.len(),
        s[k] < t[k],
        forall|j: int| k < j < s.len() ==> s[j] == t[j],
    ensures
        limbs_value(s) < limbs_value(t),
    decreases s.len(),
{
    lemma_value_horner(s);
    lemma_value_horner(t);
    let s1 = s.drop_first();
    let t1 = t.drop_first();
    if k == 0 {
        assert(s1 =~= t1);
    } else {
        assert forall|j: int| k - 1 < j < s1.len() implies s1[j] == t1[j] by {
            assert(s1[j] == s[j + 1]);
            assert(t1[j] == t[j + 1]);
        }
        lemma_top_difference_decides(s1, t1, k - 1);
    }
}

/// Dropping zero limbs from the top keeps the value.
pub proof fn lemma_value_drop_zero(s: Seq<u32>)
    requires
        s.len() > 0,
        s.last() == 0,
    ensures
        limbs_value(s.drop_last()) == limbs_value(s),
{
    let t = s.drop_last();
    assert(t.push(0u32) =~= s);
    lemma_value_push(t, 0u32);
    assert(0 * radix_pow(t.len()) == 0);
}

} // verus!
