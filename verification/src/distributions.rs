//! Probability mass functions over a contiguous range of integers.
//!
//! A distribution holds, for each value of its range, a weight: the number of equally likely
//! outcomes that give the value. The probability of a value is its weight over the total of
//! all weights, so the probabilities sum to one by construction, and they are exact.

use crate::bignat::BigNat;
use crate::convolution::{
    convolution, convolution_at, convolution_range, lemma_convolution_commutes,
    lemma_convolution_total, lemma_convolution_unit, lemma_range_zero_right,
    lemma_weight_sum_ones, weight_sum,
};
use crate::dice::{lemma_side_total_at_least_len, lemma_side_total_concat, side_total, Roll};
use crate::outcomes::{
    dice_weights, lemma_dice_weights_count, lemma_dice_weights_cover, side_product,
    uniform_weights, ways,
};
use vstd::prelude::*;

verus! {

/// The numbers that a vector of weights holds.
pub open spec fn weight_values(weights: Seq<BigNat>) -> Seq<nat> {
    Seq::new(weights.len(), |i: int| weights[i]@)
}

/// The numbers that a vector of plain weights holds.
pub open spec fn plain_weights(weights: Seq<u64>) -> Seq<nat> {
    Seq::new(weights.len(), |i: int| weights[i] as nat)
}

/// Whether the total of `roll` has a distribution that the machine can hold: the roll holds
/// a die, every die has a side, the totals are no more than a `usize` counts, and the
/// greatest total fits in an `i64`.
pub open spec fn has_distribution(roll: &Roll) -> bool {
    &&& roll.dice().len() >= 1
    &&& forall|i: int| 0 <= i < roll.dice().len() ==> roll.dice()[i] >= 1
    &&& side_total(roll.dice()) - roll.dice().len() + 1 <= usize::MAX
    &&& roll.spec_modifier() + side_total(roll.dice()) <= i64::MAX
}

/// Probability mass function over a range of integers.
#[derive(Debug)]
pub struct ProbabilityMassFunction {
    offset: i64,
    weights: Vec<BigNat>,
    total: BigNat,
}

impl ProbabilityMassFunction {
    /// There is a first slot, the value of the last slot fits in an `i64`, and the total is
    /// the sum of the weights and is not zero.
    #[verifier::type_invariant]
    spec fn well_formed(&self) -> bool {
        &&& self.weights@.len() >= 1
        &&& self.offset + self.weights@.len() - 1 <= i64::MAX
        &&& self.total@ == weight_sum(weight_values(self.weights@), self.weights@.len())
        &&& self.total@ > 0
    }

    /// The value of the first slot; slot `i` stands for the value `spec_offset() + i`.
    pub closed spec fn spec_offset(&self) -> int {
        self.offset as int
    }

    /// The weight of each slot: the number of equally likely outcomes that give its value.
    pub closed spec fn weights(&self) -> Seq<nat> {
        weight_values(self.weights@)
    }

    /// The sum of all weights. The probability of slot `i` is `weights()[i]` over this sum.
    pub open spec fn total_weight(&self) -> nat {
        weight_sum(self.weights(), self.weights().len())
    }

    /// The distribution of one fair die with `num_sides` sides: the values 1 to `num_sides`,
    /// each with the same weight.
    pub fn from_d(num_sides: u32) -> (pmf: Self)
        requires
            num_sides > 0,
        ensures
            pmf.spec_offset() == 1,
            pmf.weights() == uniform_weights(num_sides as nat),
            pmf.total_weight() == num_sides,
    {
        let mut weights: Vec<BigNat> = Vec::with_capacity(num_sides as usize);
        let mut i: u32 = 0;
        while i < num_sides
            invariant
                i <= num_sides,
                weights.len() == i,
                forall|k: int| 0 <= k < i ==> (#[trigger] weights@[k])@ == 1,
            decreases num_sides - i,
        {
            weights.push(BigNat::from_u64(1));
            i += 1;
        }
        let total = BigNat::from_u64(num_sides as u64);
        proof {
            assert(weight_values(weights@) =~= uniform_weights(num_sides as nat));
            lemma_weight_sum_ones(weight_values(weights@), num_sides as nat);
        }
        ProbabilityMassFunction { offset: 1, weights, total }
    }

    /// Number of distinct values in the domain of the distribution.
    pub fn len(&self) -> (n: usize)
        ensures
            n == self.weights().len(),
            n >= 1,
    {
        proof {
            use_type_invariant(self);
        }
        self.weights.len()
    }

    /// The distribution whose slot `i` stands for the value `offset + i` and has the weight
    /// `weights[i]`, where there is a first slot, a weight that is not zero, and the value of
    /// the last slot fits in an `i64`.
    pub fn from_weights(offset: i64, weights: Vec<u64>) -> (r: Option<Self>)
        ensures
            r is Some <==> (weights@.len() >= 1 && offset + weights@.len() - 1 <= i64::MAX
                && weight_sum(plain_weights(weights@), weights@.len()) > 0),
            r is Some ==> r->0.spec_offset() == offset,
            r is Some ==> r->0.weights() == plain_weights(weights@),
    {
        let n = weights.len();
        if n == 0 || (i64::MAX as i128) - (offset as i128) < (n as i128) - 1 {
            return None;
        }
        let mut big: Vec<BigNat> = Vec::with_capacity(n);
        let mut total = BigNat::zero();
        let mut i: usize = 0;
        while i < n
            invariant
                n == weights@.len(),
                i <= n,
                big.len() == i,
                forall|k: int| 0 <= k < i ==> (#[trigger] big@[k])@ == weights@[k],
                total@ == weight_sum(plain_weights(weights@), i as nat),
            decreases n - i,
        {
            let weight = BigNat::from_u64(weights[i]);
            total = total.add(&weight);
            big.push(weight);
            i += 1;
        }
        if total.is_zero() {
            return None;
        }
        assert(weight_values(big@) =~= plain_weights(weights@));
        Some(ProbabilityMassFunction { offset, weights: big, total })
    }

    /// The distribution of the total of `roll`: of the sum of its dice plus its modifier.
    ///
    /// The first die gives the first distribution, which the modifier shifts, and each
    /// further die is convolved in.
    pub fn from_roll(roll: &Roll) -> (pmf: Self)
        requires
            has_distribution(roll),
        ensures
            pmf.spec_offset() == roll.spec_modifier() + roll.dice().len(),
            pmf.weights() == dice_weights(roll.dice()),
            pmf.weights().len() == side_total(roll.dice()) - roll.dice().len() + 1,
            forall|i: int|
                0 <= i < pmf.weights().len() ==> #[trigger] pmf.weights()[i] == ways(
                    roll.dice(),
                    i + roll.dice().len(),
                ),
            forall|i: int| 0 <= i < pmf.weights().len() ==> pmf.weights()[i] >= 1,
            pmf.total_weight() == side_product(roll.dice()),
    {
        let ghost dice = roll.dice();
        let mut roll_iter = roll.iter();
        let first = roll_iter.next();
        assert(first is Some);
        let first_sides = first.unwrap();
        proof {
            let one = dice.take(1);
            assert(one.drop_last() =~= Seq::<u32>::empty());
            assert(one.last() == dice[0]);
            lemma_convolution_unit(uniform_weights(first_sides as nat));
            assert(dice_weights(one) == uniform_weights(first_sides as nat)) by {
                reveal_with_fuel(dice_weights, 2);
            }
            assert(one.skip(1) =~= Seq::<u32>::empty());
            assert(side_total(one) == first_sides) by {
                reveal_with_fuel(side_total, 2);
            }
            assert(side_product(one) == first_sides) by {
                reveal_with_fuel(side_product, 2);
                assert(1 * (first_sides as nat) == first_sides) by (nonlinear_arith);
            }
            assert(dice =~= one + dice.skip(1));
            lemma_side_total_concat(one, dice.skip(1));
            assert forall|i: int| 0 <= i < dice.skip(1).len() implies dice.skip(1)[i] >= 1 by {
                assert(dice.skip(1)[i] == dice[i + 1]);
            }
            lemma_side_total_at_least_len(dice.skip(1));
        }
        let mut pmf = ProbabilityMassFunction::from_d(first_sides);
        proof {
            use_type_invariant(&pmf);
        }
        pmf.offset = 1 + roll.get_modifier() as i64;
        let ghost mut done: nat = 1;
        loop
            invariant
                dice == roll.dice(),
                forall|i: int| 0 <= i < dice.len() ==> dice[i] >= 1,
                side_total(dice) - dice.len() + 1 <= usize::MAX,
                roll.spec_modifier() + side_total(dice) <= i64::MAX,
                1 <= done <= dice.len(),
                roll_iter.remaining() == dice.skip(done as int),
                pmf.spec_offset() == roll.spec_modifier() + done,
                pmf.weights() == dice_weights(dice.take(done as int)),
                pmf.weights().len() == side_total(dice.take(done as int)) - done + 1,
                pmf.total_weight() == side_product(dice.take(done as int)),
            decreases dice.len() - done,
        {
            match roll_iter.next() {
                Some(d) => {
                    let d_pmf = ProbabilityMassFunction::from_d(d);
                    proof {
                        let before = dice.take(done as int);
                        let after = dice.take(done as int + 1);
                        let rest = dice.skip(done as int + 1);
                        assert(d == dice[done as int]);
                        assert(after.drop_last() =~= before);
                        assert(after.last() == d);
                        assert(after =~= before + seq![d]);
                        lemma_side_total_concat(before, seq![d]);
                        assert(side_total(seq![d]) == d) by {
                            reveal_with_fuel(side_total, 2);
                            assert(seq![d].skip(1) =~= Seq::<u32>::empty());
                        }
                        assert(dice =~= after + rest);
                        lemma_side_total_concat(after, rest);
                        assert forall|i: int| 0 <= i < rest.len() implies rest[i] >= 1 by {
                            assert(rest[i] == dice[i + done + 1]);
                        }
                        lemma_side_total_at_least_len(rest);
                        assert(dice.skip(done as int).skip(1) =~= rest);
                    }
                    pmf = pmf_convolve(&pmf, &d_pmf);
                    proof {
                        done = done + 1;
                    }
                },
                None => {
                    proof {
                        assert(dice.take(done as int) =~= dice);
                        lemma_dice_weights_cover(dice);
                        lemma_dice_weights_count(dice);
                    }
                    return pmf;
                },
            }
        }
    }

    /// The distribution of the total of `roll`, where it has one that the machine can hold.
    pub fn try_from_roll(roll: &Roll) -> (r: Option<Self>)
        ensures
            r is Some <==> has_distribution(roll),
            r is Some ==> r->0.spec_offset() == roll.spec_modifier() + roll.dice().len(),
            r is Some ==> r->0.weights() == dice_weights(roll.dice()),
            r is Some ==> r->0.total_weight() == side_product(roll.dice()),
    {
        let ghost dice = roll.dice();
        let modifier: i128 = roll.get_modifier() as i128;
        let mut count: i128 = 0;
        let mut extra: i128 = 0;
        let mut roll_iter = roll.iter();
        loop
            invariant
                dice == roll.dice(),
                modifier == roll.spec_modifier(),
                i32::MIN <= modifier <= i32::MAX,
                0 <= count <= dice.len(),
                roll_iter.remaining() == dice.skip(count as int),
                forall|i: int| 0 <= i < count ==> dice[i] >= 1,
                extra == side_total(dice.take(count as int)) - count,
                0 <= extra < usize::MAX,
                modifier + count + extra <= i64::MAX,
            decreases dice.len() - count,
        {
            match roll_iter.next() {
                Some(sides) => {
                    if sides == 0 {
                        assert(dice[count as int] == 0);
                        return None;
                    }
                    proof {
                        let before = dice.take(count as int);
                        let after = dice.take(count as int + 1);
                        let rest = dice.skip(count as int + 1);
                        assert(sides == dice[count as int]);
                        assert(after =~= before + seq![sides]);
                        lemma_side_total_concat(before, seq![sides]);
                        assert(side_total(seq![sides]) == sides) by {
                            reveal_with_fuel(side_total, 2);
                            assert(seq![sides].skip(1) =~= Seq::<u32>::empty());
                        }
                        assert(dice =~= after + rest);
                        lemma_side_total_concat(after, rest);
                        if has_distribution(roll) {
                            assert forall|i: int| 0 <= i < rest.len() implies rest[i] >= 1 by {
                                assert(rest[i] == dice[i + count + 1]);
                            }
                            lemma_side_total_at_least_len(rest);
                        }
                        assert(dice.skip(count as int).skip(1) =~= rest);
                    }
                    count = count + 1;
                    extra = extra + (sides as i128 - 1);
                    if extra >= usize::MAX as i128 || modifier + count + extra > i64::MAX as i128 {
                        return None;
                    }
                },
                None => {
                    assert(dice.take(count as int) =~= dice);
                    if count == 0 {
                        return None;
                    }
                    return Some(ProbabilityMassFunction::from_roll(roll));
                },
            }
        }
    }

    /// The value of the first slot.
    pub fn offset(&self) -> (offset: i64)
        ensures
            offset == self.spec_offset(),
    {
        self.offset
    }

    /// The weight of slot `i`.
    pub fn weight(&self, i: usize) -> (weight: &BigNat)
        requires
            i < self.weights().len(),
        ensures
            weight@ == self.weights()[i as int],
    {
        &self.weights[i]
    }

    /// The sum of all weights, which is not zero.
    pub fn total(&self) -> (total: &BigNat)
        ensures
            total@ == self.total_weight(),
            total@ > 0,
    {
        proof {
            use_type_invariant(self);
        }
        &self.total
    }

    /// A traversal of the values of the distribution with their weights, in ascending order
    /// of the values.
    pub fn iter<'a>(&'a self) -> (it: ProbabilityMassFunctionIterator<'a>)
        ensures
            it.pmf() == self,
            it.position() == 0,
    {
        ProbabilityMassFunctionIterator::new(self)
    }
}

impl Clone for ProbabilityMassFunction {
    fn clone(&self) -> (r: Self)
        ensures
            r.spec_offset() == self.spec_offset(),
            r.weights() == self.weights(),
    {
        proof {
            use_type_invariant(self);
        }
        let mut weights: Vec<BigNat> = Vec::with_capacity(self.weights.len());
        let mut i: usize = 0;
        while i < self.weights.len()
            invariant
                i <= self.weights@.len(),
                weights.len() == i,
                forall|k: int| 0 <= k < i ==> (#[trigger] weights@[k])@ == self.weights@[k]@,
            decreases self.weights@.len() - i,
        {
            weights.push(self.weights[i].clone());
            i += 1;
        }
        assert(weight_values(weights@) =~= weight_values(self.weights@));
        ProbabilityMassFunction { offset: self.offset, weights, total: self.total.clone() }
    }
}

/// Convolves two distributions: the distribution of the sum of two independent variables.
pub fn pmf_convolve(a: &ProbabilityMassFunction, b: &ProbabilityMassFunction) -> (r:
    ProbabilityMassFunction)
    requires
        a.weights().len() + b.weights().len() - 1 <= usize::MAX,
        i64::MIN <= a.spec_offset() + b.spec_offset(),
        a.spec_offset() + b.spec_offset() + a.weights().len() + b.weights().len() - 2 <= i64::MAX,
    ensures
        r.spec_offset() == a.spec_offset() + b.spec_offset(),
        r.weights() == convolution(a.weights(), b.weights()),
        r.weights().len() == a.weights().len() + b.weights().len() - 1,
        r.total_weight() == a.total_weight() * b.total_weight(),
{
    proof {
        use_type_invariant(a);
        use_type_invariant(b);
    }
    let (shorter, longer) = if a.len() <= b.len() {
        (a, b)
    } else {
        (b, a)
    };
    proof {
        use_type_invariant(shorter);
        use_type_invariant(longer);
    }
    let ghost sw = shorter.weights();
    let ghost lw = longer.weights();
    let slots: usize = longer.len() - 1 + shorter.len();
    let mut weights: Vec<BigNat> = Vec::with_capacity(slots);
    let mut result_ind: usize = 0;
    while result_ind < slots
        invariant
            result_ind <= slots,
            slots == sw.len() + lw.len() - 1,
            sw == shorter.weights(),
            lw == longer.weights(),
            sw.len() == shorter.weights@.len(),
            lw.len() == longer.weights@.len(),
            sw.len() >= 1,
            lw.len() >= 1,
            weights.len() == result_ind,
            forall|k: int| 0 <= k < result_ind ==> (#[trigger] weights@[k])@ == convolution_at(sw, lw, k),
        decreases slots - result_ind,
    {
        let mut acc = BigNat::zero();
        let mut shorter_ind: usize = 0;
        while shorter_ind < shorter.len() && shorter_ind <= result_ind
            invariant
                shorter_ind <= sw.len(),
                shorter_ind <= result_ind + 1,
                result_ind < slots,
                slots == sw.len() + lw.len() - 1,
                sw == shorter.weights(),
                lw == longer.weights(),
                sw.len() == shorter.weights@.len(),
                lw.len() == longer.weights@.len(),
                acc@ == convolution_range(sw, lw, result_ind as int, 0, shorter_ind as int),
            decreases sw.len() - shorter_ind,
        {
            let longer_ind: usize = result_ind - shorter_ind;
            if longer_ind < longer.len() {
                let product = longer.weights[longer_ind].mul(&shorter.weights[shorter_ind]);
                proof {
                    assert(lw[longer_ind as int] * sw[shorter_ind as int] == sw[shorter_ind as int]
                        * lw[longer_ind as int]) by (nonlinear_arith);
                }
                acc = acc.add(&product);
            }
            shorter_ind += 1;
        }
        proof {
            lemma_range_zero_right(
                sw,
                lw,
                result_ind as int,
                0,
                shorter_ind as int,
                sw.len() as int,
            );
        }
        weights.push(acc);
        result_ind += 1;
    }
    let total = a.total.mul(&b.total);
    proof {
        let aw = a.weights();
        let bw = b.weights();
        assert(weight_values(weights@) =~= convolution(sw, lw));
        lemma_convolution_commutes(sw, lw);
        lemma_convolution_total(aw, bw);
        assert(a.total@ * b.total@ > 0) by (nonlinear_arith)
            requires
                a.total@ > 0,
                b.total@ > 0,
        ;
    }
    ProbabilityMassFunction { offset: a.offset + b.offset, weights, total }
}

/// A position in the traversal of the values and weights of a distribution.
pub struct ProbabilityMassFunctionIterator<'a> {
    pmf: &'a ProbabilityMassFunction,
    ptr: usize,
}

impl<'a> ProbabilityMassFunctionIterator<'a> {
    /// The distribution that is traversed.
    pub closed spec fn pmf(&self) -> &'a ProbabilityMassFunction {
        self.pmf
    }

    /// The number of the slot that comes next.
    pub closed spec fn position(&self) -> nat {
        self.ptr as nat
    }

    /// A traversal of `pmf` that starts at its first slot.
    pub fn new(pmf: &'a ProbabilityMassFunction) -> (it: Self)
        ensures
            it.pmf() == pmf,
            it.position() == 0,
    {
        ProbabilityMassFunctionIterator { pmf, ptr: 0 }
    }

    /// The value of the next slot with its weight, or `None` after the last slot.
    pub fn next(&mut self) -> (r: Option<(i64, &'a BigNat)>)
        ensures
            final(self).pmf() == old(self).pmf(),
            old(self).position() >= old(self).pmf().weights().len() ==> r is None,
            old(self).position() >= old(self).pmf().weights().len() ==> final(self).position()
                == old(self).position(),
            old(self).position() < old(self).pmf().weights().len() ==> r is Some,
            old(self).position() < old(self).pmf().weights().len() ==> final(self).position()
                == old(self).position() + 1,
            match r {
                Some((value, weight)) => {
                    &&& value == old(self).pmf().spec_offset() + old(self).position()
                    &&& weight@ == old(self).pmf().weights()[old(self).position() as int]
                },
                None => true,
            },
    {
        proof {
            use_type_invariant(self.pmf);
        }
        if self.ptr < self.pmf.len() {
            let ptr = self.ptr;
            self.ptr = self.ptr + 1;
            let value = (self.pmf.offset as i128 + ptr as i128) as i64;
            Some((value, &self.pmf.weights[ptr]))
        } else {
            None
        }
    }
}

} // verus!
