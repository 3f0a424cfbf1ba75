//! The outcomes of rolling dice: in how many ways the dice show each total.

use crate::convolution::{
    convolution, convolution_range, convolution_term, lemma_convolution_associates,
    lemma_convolution_at_commutes, lemma_convolution_commutes, lemma_convolution_positive,
    lemma_convolution_unit,
};
use crate::dice::{lemma_side_total_at_least_len, lemma_side_total_concat, side_total};
use vstd::prelude::*;

verus! {

/// The weights of one fair die with `sides` sides: one outcome for each of its faces.
pub open spec fn uniform_weights(sides: nat) -> Seq<nat> {
    Seq::new(sides, |i: int| 1nat)
}

/// The weights of the total of dice with the given side counts, where the first slot stands
/// for the least total, which is the number of dice. No dice at all give the one total zero.
pub open spec fn dice_weights(dice: Seq<u32>) -> Seq<nat>
    decreases dice.len(),
{
    if dice.len() == 0 {
        seq![1nat]
    } else {
        convolution(dice_weights(dice.drop_last()), uniform_weights(dice.last() as nat))
    }
}

/// The product of the side counts in `dice`: the number of outcomes of rolling them all.
pub open spec fn side_product(dice: Seq<u32>) -> nat
    decreases dice.len(),
{
    if dice.len() == 0 {
        1
    } else {
        side_product(dice.drop_last()) * dice.last() as nat
    }
}

/// The number of ways in which dice with the side counts `dice` show the total `total`,
/// each die showing one of its faces, which are numbered from 1.
pub open spec fn ways(dice: Seq<u32>, total: int) -> nat
    decreases dice.len(), 0nat,
{
    if dice.len() == 0 {
        if total == 0 {
            1
        } else {
            0
        }
    } else {
        ways_with_last(dice.drop_last(), total, dice.last() as nat)
    }
}

/// The number of ways in which the dice `before` and one more die show the total `total`,
/// where the last die shows one of its faces from 1 to `faces`.
pub open spec fn ways_with_last(before: Seq<u32>, total: int, faces: nat) -> nat
    decreases before.len(), 1 + faces,
{
    if faces == 0 {
        0
    } else {
        ways_with_last(before, total, (faces - 1) as nat) + ways(before, total - faces)
    }
}

/// Dice with at least one side each give every total from their number to the sum of their
/// side counts, and each of them in at least one way.
pub proof fn lemma_dice_weights_cover(dice: Seq<u32>)
    requires
        forall|i: int| 0 <= i < dice.len() ==> dice[i] >= 1,
    ensures
        dice_weights(dice).len() == side_total(dice) - dice.len() + 1,
        forall|i: int| 0 <= i < dice_weights(dice).len() ==> dice_weights(dice)[i] >= 1,
    decreases dice.len(),
{
    if dice.len() == 0 {
        assert(dice_weights(dice) =~= seq![1nat]);
    } else {
        let before = dice.drop_last();
        let sides = dice.last() as nat;
        lemma_dice_weights_cover(before);
        lemma_side_total_at_least_len(before);
        lemma_convolution_positive(dice_weights(before), uniform_weights(sides));
        assert(dice =~= before + seq![dice.last()]);
        lemma_side_total_concat(before, seq![dice.last()]);
        assert(side_total(seq![dice.last()]) == dice.last()) by {
            reveal_with_fuel(side_total, 2);
            assert(seq![dice.last()].skip(1) =~= Seq::<u32>::empty());
        }
    }
}

/// The dice may be rolled in two lots: the weights of all the dice are the convolution of
/// the weights of the one lot and of the other.
pub proof fn lemma_dice_weights_concat(first: Seq<u32>, second: Seq<u32>)
    requires
        forall|i: int| 0 <= i < first.len() ==> first[i] >= 1,
        forall|i: int| 0 <= i < second.len() ==> second[i] >= 1,
    ensures
        dice_weights(first + second) == convolution(dice_weights(first), dice_weights(second)),
    decreases second.len(),
{
    lemma_dice_weights_cover(first);
    lemma_side_total_at_least_len(first);
    if second.len() == 0 {
        assert(first + second =~= first);
        lemma_convolution_unit(dice_weights(first));
        lemma_convolution_commutes(dice_weights(first), seq![1nat]);
    } else {
        let before = second.drop_last();
        let last = uniform_weights(second.last() as nat);
        lemma_dice_weights_concat(first, before);
        assert((first + second).drop_last() =~= first + before);
        assert((first + second).last() == second.last());
        lemma_convolution_associates(dice_weights(first), dice_weights(before), last);
    }
}

/// Where the dice before cannot make up for any face of the last die, there is no way.
proof fn lemma_ways_with_last_none(before: Seq<u32>, total: int, faces: nat)
    requires
        forall|t: int| total - faces <= t < total ==> ways(before, t) == 0,
    ensures
        ways_with_last(before, total, faces) == 0,
    decreases faces,
{
    if faces > 0 {
        lemma_ways_with_last_none(before, total, (faces - 1) as nat);
        assert(ways(before, total - faces) == 0);
    }
}

/// Dice show no total below their number and none above the sum of their side counts.
pub proof fn lemma_ways_outside(dice: Seq<u32>, total: int)
    requires
        total < dice.len() || total > side_total(dice),
    ensures
        ways(dice, total) == 0,
    decreases dice.len(),
{
    if dice.len() > 0 {
        let before = dice.drop_last();
        let faces = dice.last() as nat;
        assert(dice =~= before + seq![dice.last()]);
        lemma_side_total_concat(before, seq![dice.last()]);
        assert(side_total(seq![dice.last()]) == dice.last()) by {
            reveal_with_fuel(side_total, 2);
            assert(seq![dice.last()].skip(1) =~= Seq::<u32>::empty());
        }
        assert forall|t: int| total - faces <= t < total implies ways(before, t) == 0 by {
            lemma_ways_outside(before, t);
        }
        lemma_ways_with_last_none(before, total, faces);
    }
}

/// Convolving in one more die counts the ways face by face of that die.
proof fn lemma_uniform_range_counts(
    before: Seq<u32>,
    counted: Seq<nat>,
    sides: nat,
    i: int,
    faces: nat,
)
    requires
        faces <= sides,
        forall|j: int|
            0 <= j < counted.len() ==> #[trigger] counted[j] == ways(before, j + before.len()),
        forall|t: int|
            t < before.len() || t >= counted.len() + before.len() ==> ways(before, t) == 0,
    ensures
        convolution_range(uniform_weights(sides), counted, i, 0, faces as int) == ways_with_last(
            before,
            i + before.len() + 1,
            faces,
        ),
    decreases faces,
{
    if faces > 0 {
        lemma_uniform_range_counts(before, counted, sides, i, (faces - 1) as nat);
        let k = faces - 1;
        let total = i + before.len() + 1;
        assert(total - faces == (i - k) + before.len());
        if 0 <= i - k < counted.len() {
            assert(1 * counted[i - k] == counted[i - k]) by (nonlinear_arith);
            assert(counted[i - k] == ways(before, total - faces));
        } else {
            assert(ways(before, total - faces) == 0);
        }
        assert(convolution_term(uniform_weights(sides), counted, i, k) == ways(
            before,
            total - faces,
        ));
    }
}

/// Each weight of the total of dice is the number of ways in which the dice show that
/// total: slot `i` stands for the total `i` plus the number of dice.
pub proof fn lemma_dice_weights_count(dice: Seq<u32>)
    requires
        forall|i: int| 0 <= i < dice.len() ==> dice[i] >= 1,
    ensures
        forall|i: int|
            0 <= i < dice_weights(dice).len() ==> #[trigger] dice_weights(dice)[i] == ways(
                dice,
                i + dice.len(),
            ),
    decreases dice.len(),
{
    if dice.len() == 0 {
        assert(dice_weights(dice) =~= seq![1nat]);
    } else {
        let before = dice.drop_last();
        let sides = dice.last() as nat;
        let counted = dice_weights(before);
        lemma_dice_weights_count(before);
        lemma_dice_weights_cover(before);
        lemma_side_total_at_least_len(before);
        assert forall|t: int| t < before.len() || t >= counted.len() + before.len() implies ways(
            before,
            t,
        ) == 0 by {
            lemma_ways_outside(before, t);
        }
        assert forall|i: int| 0 <= i < dice_weights(dice).len() implies dice_weights(dice)[i]
            == ways(dice, i + dice.len()) by {
            lemma_convolution_at_commutes(counted, uniform_weights(sides), i);
            lemma_uniform_range_counts(before, counted, sides, i, sides);
        }
    }
}

} // verus!
