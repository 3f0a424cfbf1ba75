//! Numbers as runs of limbs of 32 bits, lowest limb first: what a run of limbs spells, and
//! how that changes when limbs are added at either end.

use vstd::prelude::*;

verus! {

/// The radix of a limb, 2^32.
pub open spec fn radix() -> nat {
    0x1_0000_0000
}

/// `radix()` raised to the power `n`.
pub open spec fn radix_pow(n: nat) -> nat
    decreases n,
{
    if n == 0 {
        1
    } else {
        radix() * radix_pow((n - 1) as nat)
    }
}

/// The limb at position `i`, where the positions past the end hold zero.
pub open spec fn limb_at(s: Seq<u32>, i: int) -> nat {
    if 0 <= i < s.len() {
        s[i] as nat
    } else {
        0
    }
}

/// The number spelled by the `n` lowest limbs of `s`.
pub open spec fn low_value(s: Seq<u32>, n: nat) -> nat
    decreases n,
{
    if n == 0 {
        0
    } else {
        low_value(s, (n - 1) as nat) + limb_at(s, n - 1) * radix_pow((n - 1) as nat)
    }
}

/// The number spelled by all the limbs of `s`, lowest limb first.
pub open spec fn limbs_value(s: Seq<u32>) -> nat {
    low_value(s, s.len())
}

/// No power of the radix is zero.
pub proof fn lemma_radix_pow_positive(n: nat)
    ensures
        radix_pow(n) > 0,
    decreases n,
{
    if n > 0 {
        lemma_radix_pow_positive((n - 1) as nat);
        assert(radix() * radix_pow((n - 1) as nat) > 0) by (nonlinear_arith)
            requires
                radix_pow((n - 1) as nat) > 0,
                radix() > 0,
        ;
    }
}

/// A higher power of the radix is not less.
pub proof fn lemma_radix_pow_monotonic(m: nat, n: nat)
    requires
        m <= n,
    ensures
        radix_pow(m) <= radix_pow(n),
    decreases n,
{
    if m < n {
        lemma_radix_pow_monotonic(m, (n - 1) as nat);
        lemma_radix_pow_positive((n - 1) as nat);
        assert(radix_pow((n - 1) as nat) <= radix() * radix_pow((n - 1) as nat))
            by (nonlinear_arith)
            requires
                radix() >= 1,
        ;
    }
}

/// The `n` lowest limbs spell a number below `radix()` to the `n`.
pub proof fn lemma_low_value_bound(s: Seq<u32>, n: nat)
    ensures
        low_value(s, n) < radix_pow(n),
    decreases n,
{
    if n > 0 {
        let p = radix_pow((n - 1) as nat);
        let d = limb_at(s, n - 1);
        lemma_low_value_bound(s, (n - 1) as nat);
        assert(d * p + p <= radix() * p) by (nonlinear_arith)
            requires
                d + 1 <= radix(),
        ;
    }
}

/// Sequences that agree on their `n` lowest limbs spell the same number there.
pub proof fn lemma_low_value_agree(s: Seq<u32>, t: Seq<u32>, n: nat)
    requires
        forall|j: int| 0 <= j < n ==> limb_at(s, j) == limb_at(t, j),
    ensures
        low_value(s, n) == low_value(t, n),
    decreases n,
{
    if n > 0 {
        lemma_low_value_agree(s, t, (n - 1) as nat);
    }
}

/// Positions past the end add nothing.
pub proof fn lemma_low_value_past_end(s: Seq<u32>, n: nat)
    requires
        s.len() <= n,
    ensures
        low_value(s, n) == limbs_value(s),
    decreases n,
{
    if s.len() < n {
        lemma_low_value_past_end(s, (n - 1) as nat);
        assert(limb_at(s, n - 1) * radix_pow((n - 1) as nat) == 0) by (nonlinear_arith)
            requires
                limb_at(s, n - 1) == 0,
        ;
    }
}

/// Appending a limb adds that limb at the position of the old length.
pub proof fn lemma_low_value_push(s: Seq<u32>, limb: u32)
    ensures
        limbs_value(s.push(limb)) == limbs_value(s) + limb * radix_pow(s.len()),
{
    let t = s.push(limb);
    assert forall|j: int| 0 <= j < s.len() implies limb_at(s, j) == limb_at(t, j) by {}
    lemma_low_value_agree(s, t, s.len());
    assert(limb_at(t, s.len() as int) == limb);
}

/// Putting a limb in front multiplies the old number by `radix()` and adds the limb.
pub proof fn lemma_low_value_prepend(s: Seq<u32>, t: Seq<u32>, limb: u32, n: nat)
    requires
        t.len() == s.len() + 1,
        t[0] == limb,
        forall|j: int| 0 <= j < s.len() ==> t[j + 1] == s[j],
    ensures
        low_value(t, n + 1) == limb + radix() * low_value(s, n),
    decreases n,
{
    if n == 0 {
        reveal_with_fuel(low_value, 2);
        assert(limb * radix_pow(0) == limb) by (nonlinear_arith)
            requires
                radix_pow(0) == 1,
        ;
    } else {
        lemma_low_value_prepend(s, t, limb, (n - 1) as nat);
        let d = limb_at(s, n - 1);
        let p = radix_pow((n - 1) as nat);
        assert(limb_at(t, n as int) == d);
        assert(radix() * (low_value(s, (n - 1) as nat) + d * p) == radix() * low_value(
            s,
            (n - 1) as nat,
        ) + d * (radix() * p)) by (nonlinear_arith);
    }
}

/// A number is at least what any one of its limbs contributes.
pub proof fn lemma_low_value_ge_limb(s: Seq<u32>, j: nat, n: nat)
    requires
        j < n,
    ensures
        low_value(s, n) >= limb_at(s, j as int) * radix_pow(j),
    decreases n,
{
    if j + 1 < n {
        lemma_low_value_ge_limb(s, j, (n - 1) as nat);
    }
}

/// The number spelled by the limbs of `s` from position `i` upwards, with the limb at `i`
/// as the lowest.
pub open spec fn high_value(s: Seq<u32>, i: nat) -> nat
    decreases s.len() - i,
{
    if i >= s.len() {
        0
    } else {
        s[i as int] as nat + radix() * high_value(s, i + 1)
    }
}

/// A number is its `i` lowest limbs plus the rest, shifted up by `i` limbs.
pub proof fn lemma_low_high_split(s: Seq<u32>, i: nat)
    requires
        i <= s.len(),
    ensures
        limbs_value(s) == low_value(s, i) + radix_pow(i) * high_value(s, i),
    decreases s.len() - i,
{
    let p = radix_pow(i);
    if i == s.len() {
        assert(p * 0 == 0) by (nonlinear_arith);
    } else {
        lemma_low_high_split(s, i + 1);
        let d = s[i as int] as nat;
        let h = high_value(s, i + 1);
        assert(d * p + (radix() * p) * h == p * (d + radix() * h)) by (nonlinear_arith);
    }
}

} // verus!
