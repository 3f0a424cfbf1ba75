//! Arbitrary-precision natural numbers.
//!
//! A [`BigNat`] holds its value as limbs of 32 bits, lowest limb first. Its view is the
//! natural number that the limbs spell, and every operation is specified over that view.

use crate::limbs::{
    high_value, lemma_low_high_split, lemma_low_value_bound, lemma_low_value_ge_limb,
    lemma_low_value_past_end, lemma_low_value_prepend, lemma_low_value_push,
    lemma_radix_pow_monotonic, lemma_radix_pow_positive, limb_at, limbs_value, low_value, radix,
    radix_pow,
};
use vstd::prelude::*;

verus! {

/// An arbitrary-precision natural number.
#[derive(Debug)]
pub struct BigNat {
    limbs: Vec<u32>,
}

impl View for BigNat {
    type V = nat;

    /// The number that the limbs spell.
    closed spec fn view(&self) -> nat {
        limbs_value(self.limbs@)
    }
}

impl Clone for BigNat {
    fn clone(&self) -> (r: Self)
        ensures
            r@ == self@,
    {
        BigNat { limbs: self.limbs.clone() }
    }
}

impl PartialEq for BigNat {
    fn eq(&self, other: &BigNat) -> (b: bool) {
        self.is_equal(other)
    }
}

impl vstd::std_specs::cmp::PartialEqSpecImpl for BigNat {
    open spec fn obeys_eq_spec() -> bool {
        true
    }

    open spec fn eq_spec(&self, other: &BigNat) -> bool {
        self@ == other@
    }
}

/// One step of a carry: the low limb stays at its position, and the carry moves one up.
proof fn lemma_carry_step(acc: nat, lo: nat, hi: nat, t: nat, p: nat)
    requires
        t == lo + hi * radix(),
    ensures
        acc + lo * p + hi * (radix() * p) == acc + t * p,
{
    assert((lo + hi * radix()) * p == lo * p + hi * (radix() * p)) by (nonlinear_arith);
}

/// One step of scaling: a limb times the factor, with the carry, at its position.
proof fn lemma_scale_step(limb: nat, m: nat, carry: nat, t: nat, p: nat)
    requires
        t == limb * m + carry,
    ensures
        t * p == (limb * p) * m + carry * p,
{
    assert((limb * m + carry) * p == (limb * p) * m + carry * p) by (nonlinear_arith);
}

/// Multiplication distributes over a sum.
proof fn lemma_distribute(a: nat, b: nat, m: nat)
    ensures
        (a + b) * m == a * m + b * m,
{
    assert((a + b) * m == a * m + b * m) by (nonlinear_arith);
}

/// One step of a product built from the highest limb down.
proof fn lemma_horner_step(limb: nat, h: nat, o: nat)
    ensures
        (limb + radix() * h) * o == (h * o) * radix() + o * limb,
{
    assert((limb + radix() * h) * o == (h * o) * radix() + o * limb) by (nonlinear_arith);
}

/// One more limb on top of two numbers decides their order, unless the two limbs are
/// equal: then the order stays as it was.
proof fn lemma_order_step(a: nat, b: nat, x: nat, y: nat, p: nat)
    requires
        a < p,
        b < p,
    ensures
        x < y ==> a + x * p < b + y * p,
        x > y ==> a + x * p > b + y * p,
        x == y ==> ((a + x * p < b + y * p) <==> a < b),
{
    if x < y {
        assert(x * p + p <= y * p) by (nonlinear_arith)
            requires
                x + 1 <= y,
        ;
    }
    if x > y {
        assert(y * p + p <= x * p) by (nonlinear_arith)
            requires
                y + 1 <= x,
        ;
    }
}

/// One step of a borrow: what is taken at a position is given back one position up.
proof fn lemma_borrow_step(lo: nat, y: nat, borrow: nat, x: nat, next: nat, p: nat)
    requires
        lo + y + borrow == x + next * radix(),
    ensures
        lo * p + y * p + borrow * p == x * p + next * (radix() * p),
{
    assert((lo + y + borrow) * p == lo * p + y * p + borrow * p) by (nonlinear_arith);
    assert((x + next * radix()) * p == x * p + next * (radix() * p)) by (nonlinear_arith);
}

/// A remainder with one more limb below it holds the divisor less than `radix()` times.
proof fn lemma_digit_bounds(r: nat, d: nat, limb: nat)
    requires
        r < d,
        limb < radix(),
    ensures
        0 * d <= r * radix() + limb,
        r * radix() + limb < radix() * d,
{
    assert(r * radix() + radix() <= radix() * d) by (nonlinear_arith)
        requires
            r + 1 <= d,
    ;
    assert(0 * d == 0) by (nonlinear_arith);
}

/// One step of a long division: the digit joins the quotient, and what the digit does
/// not account for is the new remainder.
proof fn lemma_quotient_step(q: nat, r: nat, d: nat, limb: nat, digit: nat)
    requires
        digit * d <= r * radix() + limb,
    ensures
        limb + radix() * (q * d + r) == (q * radix() + digit) * d + ((r * radix() + limb) - digit
            * d),
{
    assert(radix() * (q * d + r) == (q * radix()) * d + r * radix()) by (nonlinear_arith);
    assert((q * radix() + digit) * d == (q * radix()) * d + digit * d) by (nonlinear_arith);
}

impl BigNat {
    /// The number zero.
    pub fn zero() -> (r: BigNat)
        ensures
            r@ == 0,
    {
        BigNat { limbs: Vec::new() }
    }

    /// The number spelled by `limbs`, lowest limb first.
    pub fn from_limbs(limbs: Vec<u32>) -> (r: BigNat)
        ensures
            r@ == limbs_value(limbs@),
    {
        let mut limbs = limbs;
        let ghost spelled = limbs_value(limbs@);
        while limbs.len() > 0 && limbs[limbs.len() - 1] == 0
            invariant
                limbs_value(limbs@) == spelled,
            decreases limbs.len(),
        {
            proof {
                let rest = limbs@.drop_last();
                assert(limbs@ =~= rest.push(0u32));
                lemma_low_value_push(rest, 0u32);
                assert(0u32 * radix_pow(rest.len()) == 0) by (nonlinear_arith);
            }
            limbs.pop();
        }
        BigNat { limbs }
    }

    /// The number `x`.
    pub fn from_u64(x: u64) -> (r: BigNat)
        ensures
            r@ == x,
    {
        let lo: u32 = (x % 0x1_0000_0000) as u32;
        let hi: u32 = (x / 0x1_0000_0000) as u32;
        let mut limbs: Vec<u32> = Vec::new();
        limbs.push(lo);
        proof {
            assert(limbs@ =~= Seq::<u32>::empty().push(lo));
            lemma_low_value_push(Seq::<u32>::empty(), lo);
            lemma_low_value_push(limbs@, hi);
            assert(radix_pow(1) == radix()) by {
                reveal_with_fuel(radix_pow, 2);
            }
            assert(lo * radix_pow(0) == lo) by (nonlinear_arith)
                requires
                    radix_pow(0) == 1,
            ;
            assert(limbs_value(limbs@.push(hi)) == lo + hi * radix_pow(1));
        }
        limbs.push(hi);
        BigNat::from_limbs(limbs)
    }

    /// The limbs of the number, lowest first.
    pub fn as_limbs(&self) -> (limbs: &Vec<u32>)
        ensures
            limbs_value(limbs@) == self@,
    {
        &self.limbs
    }

    /// The sum of the two numbers.
    pub fn add(&self, other: &BigNat) -> (sum: BigNat)
        ensures
            sum@ == self@ + other@,
    {
        let n: usize = if self.limbs.len() >= other.limbs.len() {
            self.limbs.len()
        } else {
            other.limbs.len()
        };
        let mut out: Vec<u32> = Vec::new();
        let mut carry: u64 = 0;
        let mut i: usize = 0;
        while i < n
            invariant
                i <= n,
                self.limbs.len() <= n,
                other.limbs.len() <= n,
                out.len() == i,
                carry <= 1,
                limbs_value(out@) + carry * radix_pow(i as nat) == low_value(self.limbs@, i as nat)
                    + low_value(other.limbs@, i as nat),
            decreases n - i,
        {
            let x: u64 = if i < self.limbs.len() {
                self.limbs[i] as u64
            } else {
                0
            };
            let y: u64 = if i < other.limbs.len() {
                other.limbs[i] as u64
            } else {
                0
            };
            let t: u64 = x + y + carry;
            let lo: u32 = (t % 0x1_0000_0000) as u32;
            let hi: u64 = t / 0x1_0000_0000;
            proof {
                let p = radix_pow(i as nat);
                lemma_low_value_push(out@, lo);
                lemma_carry_step(limbs_value(out@), lo as nat, hi as nat, t as nat, p);
                assert(t * p == x * p + y * p + carry * p) by (nonlinear_arith)
                    requires
                        t == x + y + carry,
                ;
            }
            out.push(lo);
            carry = hi;
            i += 1;
        }
        proof {
            lemma_low_value_past_end(self.limbs@, n as nat);
            lemma_low_value_past_end(other.limbs@, n as nat);
        }
        if carry > 0 {
            proof {
                lemma_low_value_push(out@, carry as u32);
            }
            out.push(carry as u32);
        } else {
            assert(carry * radix_pow(n as nat) == 0) by (nonlinear_arith)
                requires
                    carry == 0,
            ;
        }
        BigNat::from_limbs(out)
    }

    /// Whether the number is zero.
    pub fn is_zero(&self) -> (b: bool)
        ensures
            b == (self@ == 0),
    {
        let mut i: usize = 0;
        while i < self.limbs.len()
            invariant
                i <= self.limbs.len(),
                low_value(self.limbs@, i as nat) == 0,
            decreases self.limbs.len() - i,
        {
            if self.limbs[i] != 0 {
                proof {
                    lemma_low_value_ge_limb(self.limbs@, i as nat, self.limbs@.len());
                    lemma_radix_pow_positive(i as nat);
                    assert(limb_at(self.limbs@, i as int) * radix_pow(i as nat) > 0)
                        by (nonlinear_arith)
                        requires
                            limb_at(self.limbs@, i as int) > 0,
                            radix_pow(i as nat) > 0,
                    ;
                }
                return false;
            }
            assert(limb_at(self.limbs@, i as int) * radix_pow(i as nat) == 0) by (nonlinear_arith)
                requires
                    limb_at(self.limbs@, i as int) == 0,
            ;
            i += 1;
        }
        true
    }

    /// The number as a `u64`, where it fits in one.
    pub fn to_u64(&self) -> (r: Option<u64>)
        ensures
            r is Some <==> self@ <= u64::MAX,
            r is Some ==> r->0 == self@,
    {
        let n = self.limbs.len();
        let lo: u64 = if 0 < n {
            self.limbs[0] as u64
        } else {
            0
        };
        let hi: u64 = if 1 < n {
            self.limbs[1] as u64
        } else {
            0
        };
        proof {
            reveal_with_fuel(low_value, 3);
            reveal_with_fuel(radix_pow, 3);
            assert(lo * radix_pow(0) == lo) by (nonlinear_arith)
                requires
                    radix_pow(0) == 1,
            ;
            assert(low_value(self.limbs@, 2) == lo + hi * radix());
            if n < 2 {
                lemma_low_value_past_end(self.limbs@, 2);
            }
        }
        let mut i: usize = 2;
        while i < n
            invariant
                n == self.limbs.len(),
                2 <= i,
                n >= 2 ==> i <= n,
                n >= 2 ==> low_value(self.limbs@, i as nat) == lo + hi * radix(),
            decreases n - i,
        {
            if self.limbs[i] != 0 {
                proof {
                    lemma_low_value_ge_limb(self.limbs@, i as nat, n as nat);
                    lemma_radix_pow_monotonic(2, i as nat);
                    assert(limb_at(self.limbs@, i as int) * radix_pow(i as nat) >= radix_pow(2))
                        by (nonlinear_arith)
                        requires
                            limb_at(self.limbs@, i as int) >= 1,
                            radix_pow(i as nat) >= radix_pow(2),
                    ;
                    assert(radix_pow(2) == 0x1_0000_0000_0000_0000) by {
                        reveal_with_fuel(radix_pow, 3);
                    }
                }
                return None;
            }
            assert(limb_at(self.limbs@, i as int) * radix_pow(i as nat) == 0) by (nonlinear_arith)
                requires
                    limb_at(self.limbs@, i as int) == 0,
            ;
            i += 1;
        }
        Some(lo + hi * 0x1_0000_0000)
    }

    /// The number times `radix()`, plus `limb`.
    fn shifted_plus(&self, limb: u32) -> (r: BigNat)
        ensures
            r@ == self@ * radix() + limb,
    {
        let mut out = self.limbs.clone();
        out.insert(0, limb);
        proof {
            lemma_low_value_prepend(self.limbs@, out@, limb, self.limbs@.len());
            assert(self@ * radix() == radix() * self@) by (nonlinear_arith);
        }
        BigNat::from_limbs(out)
    }

    /// The number times `m`.
    pub fn mul_small(&self, m: u32) -> (r: BigNat)
        ensures
            r@ == self@ * m,
    {
        let n = self.limbs.len();
        let mut out: Vec<u32> = Vec::new();
        let mut carry: u64 = 0;
        let mut i: usize = 0;
        assert(low_value(self.limbs@, 0) * m == 0) by (nonlinear_arith)
            requires
                low_value(self.limbs@, 0) == 0,
        ;
        while i < n
            invariant
                n == self.limbs.len(),
                i <= n,
                out.len() == i,
                carry < 0x1_0000_0000,
                limbs_value(out@) + carry * radix_pow(i as nat) == low_value(self.limbs@, i as nat)
                    * m,
            decreases n - i,
        {
            let limb = self.limbs[i];
            assert(limb * m <= 0xFFFF_FFFF * 0xFFFF_FFFF) by (nonlinear_arith)
                requires
                    limb <= 0xFFFF_FFFF,
                    m <= 0xFFFF_FFFF,
            ;
            let t: u64 = (limb as u64) * (m as u64) + carry;
            let lo: u32 = (t % 0x1_0000_0000) as u32;
            let hi: u64 = t / 0x1_0000_0000;
            proof {
                let p = radix_pow(i as nat);
                lemma_low_value_push(out@, lo);
                lemma_carry_step(limbs_value(out@), lo as nat, hi as nat, t as nat, p);
                lemma_scale_step(limb as nat, m as nat, carry as nat, t as nat, p);
                lemma_distribute(low_value(self.limbs@, i as nat), limb as nat * p, m as nat);
            }
            out.push(lo);
            carry = hi;
            i += 1;
        }
        if carry > 0 {
            proof {
                lemma_low_value_push(out@, carry as u32);
            }
            out.push(carry as u32);
        } else {
            assert(carry * radix_pow(n as nat) == 0) by (nonlinear_arith)
                requires
                    carry == 0,
            ;
        }
        BigNat::from_limbs(out)
    }

    /// The product of the two numbers.
    pub fn mul(&self, other: &BigNat) -> (product: BigNat)
        ensures
            product@ == self@ * other@,
    {
        let mut acc = BigNat::zero();
        let mut i: usize = self.limbs.len();
        assert(high_value(self.limbs@, i as nat) * other@ == 0) by (nonlinear_arith)
            requires
                high_value(self.limbs@, i as nat) == 0,
        ;
        while i > 0
            invariant
                i <= self.limbs.len(),
                acc@ == high_value(self.limbs@, i as nat) * other@,
            decreases i,
        {
            i -= 1;
            let row = other.mul_small(self.limbs[i]);
            let shifted = acc.shifted_plus(0);
            proof {
                lemma_horner_step(
                    self.limbs@[i as int] as nat,
                    high_value(self.limbs@, (i + 1) as nat),
                    other@,
                );
            }
            acc = shifted.add(&row);
        }
        proof {
            lemma_low_high_split(self.limbs@, 0);
            assert(radix_pow(0) * high_value(self.limbs@, 0) == high_value(self.limbs@, 0))
                by (nonlinear_arith)
                requires
                    radix_pow(0) == 1,
            ;
        }
        acc
    }

    /// Whether the number is below `other`.
    pub fn lt(&self, other: &BigNat) -> (b: bool)
        ensures
            b == (self@ < other@),
    {
        let n: usize = if self.limbs.len() >= other.limbs.len() {
            self.limbs.len()
        } else {
            other.limbs.len()
        };
        let mut below = false;
        let mut i: usize = 0;
        while i < n
            invariant
                i <= n,
                self.limbs.len() <= n,
                other.limbs.len() <= n,
                below == (low_value(self.limbs@, i as nat) < low_value(other.limbs@, i as nat)),
            decreases n - i,
        {
            let x: u32 = if i < self.limbs.len() {
                self.limbs[i]
            } else {
                0
            };
            let y: u32 = if i < other.limbs.len() {
                other.limbs[i]
            } else {
                0
            };
            proof {
                lemma_low_value_bound(self.limbs@, i as nat);
                lemma_low_value_bound(other.limbs@, i as nat);
                lemma_order_step(
                    low_value(self.limbs@, i as nat),
                    low_value(other.limbs@, i as nat),
                    x as nat,
                    y as nat,
                    radix_pow(i as nat),
                );
            }
            if x < y {
                below = true;
            } else if x > y {
                below = false;
            }
            i += 1;
        }
        proof {
            lemma_low_value_past_end(self.limbs@, n as nat);
            lemma_low_value_past_end(other.limbs@, n as nat);
        }
        below
    }

    /// Whether the number is at most `other`.
    pub fn le(&self, other: &BigNat) -> (b: bool)
        ensures
            b == (self@ <= other@),
    {
        !other.lt(self)
    }

    /// Whether the two numbers are equal.
    pub fn is_equal(&self, other: &BigNat) -> (b: bool)
        ensures
            b == (self@ == other@),
    {
        !self.lt(other) && !other.lt(self)
    }

    /// The number less `other`, which must not exceed it.
    pub fn sub(&self, other: &BigNat) -> (difference: BigNat)
        requires
            other@ <= self@,
        ensures
            difference@ == self@ - other@,
    {
        let n: usize = if self.limbs.len() >= other.limbs.len() {
            self.limbs.len()
        } else {
            other.limbs.len()
        };
        let mut out: Vec<u32> = Vec::new();
        let mut borrow: u64 = 0;
        let mut i: usize = 0;
        while i < n
            invariant
                i <= n,
                self.limbs.len() <= n,
                other.limbs.len() <= n,
                out.len() == i,
                borrow <= 1,
                limbs_value(out@) + low_value(other.limbs@, i as nat) == low_value(
                    self.limbs@,
                    i as nat,
                ) + borrow * radix_pow(i as nat),
            decreases n - i,
        {
            let x: u64 = if i < self.limbs.len() {
                self.limbs[i] as u64
            } else {
                0
            };
            let y: u64 = if i < other.limbs.len() {
                other.limbs[i] as u64
            } else {
                0
            };
            let take: u64 = y + borrow;
            let lo: u32;
            let next: u64;
            if x >= take {
                lo = (x - take) as u32;
                next = 0;
            } else {
                lo = (x + 0x1_0000_0000 - take) as u32;
                next = 1;
            }
            proof {
                lemma_low_value_push(out@, lo);
                lemma_borrow_step(
                    lo as nat,
                    y as nat,
                    borrow as nat,
                    x as nat,
                    next as nat,
                    radix_pow(i as nat),
                );
            }
            out.push(lo);
            borrow = next;
            i += 1;
        }
        proof {
            lemma_low_value_past_end(self.limbs@, n as nat);
            lemma_low_value_past_end(other.limbs@, n as nat);
            lemma_low_value_bound(out@, n as nat);
            assert(borrow * radix_pow(n as nat) == 0 || borrow * radix_pow(n as nat) == radix_pow(
                n as nat,
            )) by (nonlinear_arith)
                requires
                    borrow == 0 || borrow == 1,
            ;
        }
        BigNat::from_limbs(out)
    }

    /// The quotient and the remainder of the number by `divisor`.
    pub fn div_rem(&self, divisor: &BigNat) -> (qr: (BigNat, BigNat))
        requires
            divisor@ > 0,
        ensures
            qr.0@ == self@ / divisor@,
            qr.1@ == self@ % divisor@,
    {
        let mut quotient = BigNat::zero();
        let mut rest = BigNat::zero();
        let mut i: usize = self.limbs.len();
        assert(quotient@ * divisor@ == 0) by (nonlinear_arith)
            requires
                quotient@ == 0,
        ;
        while i > 0
            invariant
                i <= self.limbs.len(),
                divisor@ > 0,
                rest@ < divisor@,
                high_value(self.limbs@, i as nat) == quotient@ * divisor@ + rest@,
            decreases i,
        {
            i -= 1;
            let limb = self.limbs[i];
            let current = rest.shifted_plus(limb);
            let mut lo: u64 = 0;
            let mut hi: u64 = 0x1_0000_0000;
            proof {
                lemma_digit_bounds(rest@, divisor@, limb as nat);
            }
            while hi - lo > 1
                invariant
                    lo < hi <= 0x1_0000_0000,
                    lo * divisor@ <= current@,
                    current@ < hi * divisor@,
                decreases hi - lo,
            {
                let mid: u64 = lo + (hi - lo) / 2;
                let scaled = divisor.mul_small(mid as u32);
                assert(divisor@ * mid == mid * divisor@) by (nonlinear_arith);
                if scaled.le(&current) {
                    lo = mid;
                } else {
                    hi = mid;
                }
            }
            let digit: u32 = lo as u32;
            let scaled = divisor.mul_small(digit);
            proof {
                assert(divisor@ * digit == digit * divisor@) by (nonlinear_arith);
                assert((lo + 1) * divisor@ == lo * divisor@ + divisor@) by (nonlinear_arith);
                lemma_quotient_step(quotient@, rest@, divisor@, limb as nat, digit as nat);
            }
            rest = current.sub(&scaled);
            quotient = quotient.shifted_plus(digit);
        }
        proof {
            lemma_low_high_split(self.limbs@, 0);
            assert(radix_pow(0) * high_value(self.limbs@, 0) == high_value(self.limbs@, 0))
                by (nonlinear_arith)
                requires
                    radix_pow(0) == 1,
            ;
            vstd::arithmetic::div_mod::lemma_fundamental_div_mod_converse(
                self@ as int,
                divisor@ as int,
                quotient@ as int,
                rest@ as int,
            );
        }
        (quotient, rest)
    }

    /// The quotient of the number by `divisor`, rounded down.
    pub fn div(&self, divisor: &BigNat) -> (quotient: BigNat)
        requires
            divisor@ > 0,
        ensures
            quotient@ == self@ / divisor@,
    {
        let (quotient, _) = self.div_rem(divisor);
        quotient
    }
}

} // verus!
