//! The q-analogs of the factorial and of the binomial coefficient.

use crate::bignat::BigNat;
use vstd::prelude::*;

verus! {

/// `q` raised to the power `i`.
pub open spec fn q_power(q: nat, i: nat) -> nat
    decreases i,
{
    if i == 0 {
        1
    } else {
        q_power(q, (i - 1) as nat) * q
    }
}

/// The sum of the powers of `q` from the power 0 to the power `i`.
pub open spec fn power_sum(q: nat, i: nat) -> nat
    decreases i,
{
    if i == 0 {
        1
    } else {
        power_sum(q, (i - 1) as nat) + q_power(q, i)
    }
}

/// The q-factorial of `k`: the product, for `i` from 1 to `k - 1`, of the sums of the powers
/// of `q` up to the power `i`. For `k` below 2 the product is empty, and the result is 1.
pub open spec fn q_factorial_value(k: nat, q: nat) -> nat
    decreases k,
{
    if k <= 1 {
        1
    } else {
        q_factorial_value((k - 1) as nat, q) * power_sum(q, (k - 1) as nat)
    }
}

/// The q-binomial coefficient of `n` over `k`: the q-factorial of `n` divided by the
/// q-factorials of `k` and of `n - k`.
pub open spec fn q_binomial_value(n: nat, k: nat, q: nat) -> nat {
    q_factorial_value(n, q) / (q_factorial_value(k, q) * q_factorial_value((n - k) as nat, q))
}

/// A sum of powers is at least the power 0, which is 1.
pub proof fn lemma_power_sum_positive(q: nat, i: nat)
    ensures
        power_sum(q, i) >= 1,
    decreases i,
{
    if i > 0 {
        lemma_power_sum_positive(q, (i - 1) as nat);
    }
}

/// A q-factorial is never zero.
pub proof fn lemma_q_factorial_positive(k: nat, q: nat)
    ensures
        q_factorial_value(k, q) >= 1,
    decreases k,
{
    if k > 1 {
        lemma_q_factorial_positive((k - 1) as nat, q);
        lemma_power_sum_positive(q, (k - 1) as nat);
        assert(q_factorial_value((k - 1) as nat, q) * power_sum(q, (k - 1) as nat) >= 1)
            by (nonlinear_arith)
            requires
                q_factorial_value((k - 1) as nat, q) >= 1,
                power_sum(q, (k - 1) as nat) >= 1,
        ;
    }
}

/// The q-binomial coefficient of `n` over `k` by the rule of Pascal's triangle: nothing for
/// `k` above `n`, 1 at both ends of a row, and elsewhere the entry above to the left plus
/// `q` to the `k` times the entry above.
pub open spec fn q_pascal(n: nat, k: nat, q: nat) -> nat
    decreases n,
{
    if k > n {
        0
    } else if k == 0 || k == n {
        1
    } else {
        q_pascal((n - 1) as nat, (k - 1) as nat, q) + q_power(q, k) * q_pascal((n - 1) as nat, k, q)
    }
}

/// Powers of `q` multiply by adding their exponents.
pub proof fn lemma_q_power_adds(q: nat, a: nat, b: nat)
    ensures
        q_power(q, a + b) == q_power(q, a) * q_power(q, b),
    decreases b,
{
    if b == 0 {
        assert(q_power(q, a) * 1 == q_power(q, a)) by (nonlinear_arith);
    } else {
        lemma_q_power_adds(q, a, (b - 1) as nat);
        let x = q_power(q, a);
        let y = q_power(q, (b - 1) as nat);
        assert((x * y) * q == x * (y * q)) by (nonlinear_arith);
    }
}

/// The sum of the `n` first powers of `q` is the sum of the `k` first, plus `q` to the `k`
/// times the sum of the `n - k` first.
pub proof fn lemma_power_sum_splits(q: nat, k: nat, n: nat)
    requires
        0 < k < n,
    ensures
        power_sum(q, (n - 1) as nat) == power_sum(q, (k - 1) as nat) + q_power(q, k) * power_sum(
            q,
            (n - k - 1) as nat,
        ),
    decreases n,
{
    let shift = q_power(q, k);
    if n == k + 1 {
        assert(shift * 1 == shift) by (nonlinear_arith);
    } else {
        lemma_power_sum_splits(q, k, (n - 1) as nat);
        lemma_q_power_adds(q, k, (n - k - 1) as nat);
        let rest = power_sum(q, (n - k - 2) as nat);
        let top = q_power(q, (n - k - 1) as nat);
        assert(shift * (rest + top) == shift * rest + shift * top) by (nonlinear_arith);
    }
}

/// From 1 on, a q-factorial is the one before it times the next sum of powers.
pub proof fn lemma_q_factorial_step(k: nat, q: nat)
    requires
        k >= 1,
    ensures
        q_factorial_value(k, q) == q_factorial_value((k - 1) as nat, q) * power_sum(
            q,
            (k - 1) as nat,
        ),
{
    if k == 1 {
        assert(q_factorial_value(0, q) * power_sum(q, 0) == 1) by (nonlinear_arith)
            requires
                q_factorial_value(0, q) == 1,
                power_sum(q, 0) == 1,
        ;
    }
}

/// The q-factorial of `n` is the entry of Pascal's triangle times the q-factorials of `k`
/// and of `n - k`.
pub proof fn lemma_q_factorial_factors(n: nat, k: nat, q: nat)
    requires
        k <= n,
    ensures
        q_factorial_value(n, q) == q_pascal(n, k, q) * (q_factorial_value(k, q)
            * q_factorial_value((n - k) as nat, q)),
    decreases n,
{
    let whole = q_factorial_value(n, q);
    let low = q_factorial_value(k, q);
    let high = q_factorial_value((n - k) as nat, q);
    if k == 0 {
        assert(1 * (low * high) == whole) by (nonlinear_arith)
            requires
                low == 1,
                high == whole,
        ;
    } else if k == n {
        assert(1 * (low * high) == whole) by (nonlinear_arith)
            requires
                high == 1,
                low == whole,
        ;
    } else {
        let before = q_factorial_value((n - 1) as nat, q);
        let left = q_pascal((n - 1) as nat, (k - 1) as nat, q);
        let above = q_pascal((n - 1) as nat, k, q);
        let low_before = q_factorial_value((k - 1) as nat, q);
        let high_before = q_factorial_value((n - k - 1) as nat, q);
        let sum_n = power_sum(q, (n - 1) as nat);
        let sum_k = power_sum(q, (k - 1) as nat);
        let sum_rest = power_sum(q, (n - k - 1) as nat);
        let shift = q_power(q, k);
        lemma_q_factorial_factors((n - 1) as nat, (k - 1) as nat, q);
        lemma_q_factorial_factors((n - 1) as nat, k, q);
        lemma_q_factorial_step(n, q);
        lemma_q_factorial_step(k, q);
        lemma_q_factorial_step((n - k) as nat, q);
        lemma_power_sum_splits(q, k, n);
        assert(((n - 1) - (k - 1)) as nat == (n - k) as nat);
        assert(((n - 1) - k) as nat == (n - k - 1) as nat);
        assert(before * sum_k == left * (low * high)) by (nonlinear_arith)
            requires
                before == left * (low_before * high),
                low == low_before * sum_k,
        ;
        assert(before * (shift * sum_rest) == (shift * above) * (low * high)) by (nonlinear_arith)
            requires
                before == above * (low * high_before),
                high == high_before * sum_rest,
        ;
        assert(before * (sum_k + shift * sum_rest) == before * sum_k + before * (shift * sum_rest))
            by (nonlinear_arith);
        assert((left + shift * above) * (low * high) == left * (low * high) + (shift * above) * (low
            * high)) by (nonlinear_arith);
    }
}

/// The division in the q-binomial coefficient leaves no remainder, and what it gives is the
/// entry of Pascal's triangle.
pub proof fn lemma_q_binomial_exact(n: nat, k: nat, q: nat)
    requires
        k <= n,
    ensures
        q_binomial_value(n, k, q) == q_pascal(n, k, q),
        q_binomial_value(n, k, q) * (q_factorial_value(k, q) * q_factorial_value(
            (n - k) as nat,
            q,
        )) == q_factorial_value(n, q),
{
    let below = q_factorial_value(k, q) * q_factorial_value((n - k) as nat, q);
    lemma_q_factorial_factors(n, k, q);
    lemma_q_factorial_positive(k, q);
    lemma_q_factorial_positive((n - k) as nat, q);
    assert(below >= 1) by (nonlinear_arith)
        requires
            below == q_factorial_value(k, q) * q_factorial_value((n - k) as nat, q),
            q_factorial_value(k, q) >= 1,
            q_factorial_value((n - k) as nat, q) >= 1,
    ;
    vstd::arithmetic::div_mod::lemma_fundamental_div_mod_converse(
        q_factorial_value(n, q) as int,
        below as int,
        q_pascal(n, k, q) as int,
        0,
    );
}

/// The q-factorial of `k`.
///
/// Three values run through the loop in step: the current power of `q`, the sum of the
/// powers so far, and the product of the sums so far.
pub fn q_factorial(k: u64, q: u64) -> (r: BigNat)
    ensures
        r@ == q_factorial_value(k as nat, q as nat),
{
    let base = BigNat::from_u64(q);
    let mut power = BigNat::from_u64(1);
    let mut sum = BigNat::from_u64(1);
    let mut product = BigNat::from_u64(1);
    let mut i: u64 = 1;
    while i < k
        invariant
            1 <= i,
            i <= k || i == 1,
            base@ == q,
            power@ == q_power(q as nat, (i - 1) as nat),
            sum@ == power_sum(q as nat, (i - 1) as nat),
            product@ == q_factorial_value(i as nat, q as nat),
        decreases k - i,
    {
        power = power.mul(&base);
        sum = sum.add(&power);
        product = product.mul(&sum);
        i += 1;
    }
    product
}

/// The q-binomial coefficient of `n` over `k`.
pub fn q_binomial(n: u64, k: u64, q: u64) -> (r: BigNat)
    requires
        k <= n,
    ensures
        r@ == q_binomial_value(n as nat, k as nat, q as nat),
        r@ * (q_factorial_value(k as nat, q as nat) * q_factorial_value((n - k) as nat, q as nat))
            == q_factorial_value(n as nat, q as nat),
{
    proof {
        lemma_q_binomial_exact(n as nat, k as nat, q as nat);
    }
    let numerator = q_factorial(n, q);
    let denominator = q_factorial(k, q).mul(&q_factorial(n - k, q));
    proof {
        lemma_q_factorial_positive(k as nat, q as nat);
        lemma_q_factorial_positive((n - k) as nat, q as nat);
        assert(q_factorial_value(k as nat, q as nat) * q_factorial_value((n - k) as nat, q as nat)
            >= 1) by (nonlinear_arith)
            requires
                q_factorial_value(k as nat, q as nat) >= 1,
                q_factorial_value((n - k) as nat, q as nat) >= 1,
        ;
    }
    numerator.div(&denominator)
}

/// The q-factorials of 0 and of 1 are 1, and the q-factorial of 2 is `1 + q`.
pub proof fn lemma_q_factorial_small(q: nat)
    ensures
        q_factorial_value(0, q) == 1,
        q_factorial_value(1, q) == 1,
        q_factorial_value(2, q) == 1 + q,
{
    reveal_with_fuel(q_factorial_value, 3);
    reveal_with_fuel(power_sum, 3);
    reveal_with_fuel(q_power, 3);
    assert(1 * q == q) by (nonlinear_arith);
    assert(1 * (1 + q) == 1 + q) by (nonlinear_arith);
}

/// The q-binomial coefficient is symmetric: `k` of `n` are chosen in as many ways as
/// `n - k` of `n`. So one of `n` is chosen in as many ways as `n - 1` of `n`.
pub proof fn lemma_q_binomial_symmetric(n: nat, k: nat, q: nat)
    requires
        k <= n,
    ensures
        q_binomial_value(n, k, q) == q_binomial_value(n, (n - k) as nat, q),
{
    let a = q_factorial_value(k, q);
    let b = q_factorial_value((n - k) as nat, q);
    assert((n - (n - k)) as nat == k);
    assert(a * b == b * a) by (nonlinear_arith);
}

/// The q-binomial coefficient of 4 over 2 is `1 + q + 2q^2 + q^3 + q^4`.
pub proof fn lemma_q_binomial_four_two(q: nat)
    ensures
        q_binomial_value(4, 2, q) == 1 + q + 2 * q * q + q * q * q + q * q * q * q,
{
    reveal_with_fuel(q_factorial_value, 5);
    reveal_with_fuel(power_sum, 4);
    reveal_with_fuel(q_power, 4);
    let linear = q_power(q, 1);
    let square = q_power(q, 2);
    let cube = q_power(q, 3);
    assert(linear == q) by (nonlinear_arith)
        requires
            linear == 1 * q,
    ;
    assert(square == q * q);
    assert(cube == q * q * q);
    let two_terms = 1 + q;
    let three_terms = 1 + q + q * q;
    let four_terms = 1 + q + q * q + q * q * q;
    assert(power_sum(q, 1) == two_terms);
    assert(power_sum(q, 2) == three_terms);
    assert(power_sum(q, 3) == four_terms);
    let two = q_factorial_value(2, q);
    let four = q_factorial_value(4, q);
    assert(two == two_terms) by (nonlinear_arith)
        requires
            two == 1 * two_terms,
    ;
    assert(four == ((1 * two_terms) * three_terms) * four_terms);
    let wanted = 1 + q + 2 * q * q + q * q * q + q * q * q * q;
    let below = two * two;
    assert(four == wanted * below + 0) by (nonlinear_arith)
        requires
            four == ((1 * two_terms) * three_terms) * four_terms,
            below == two_terms * two_terms,
            two_terms == 1 + q,
            three_terms == 1 + q + q * q,
            four_terms == 1 + q + q * q + q * q * q,
            wanted == 1 + q + 2 * q * q + q * q * q + q * q * q * q,
    ;
    assert(below >= 1) by (nonlinear_arith)
        requires
            below == two_terms * two_terms,
            two_terms >= 1,
    ;
    vstd::arithmetic::div_mod::lemma_fundamental_div_mod_converse(
        four as int,
        below as int,
        wanted as int,
        0,
    );
}

} // verus!
