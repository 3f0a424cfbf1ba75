//! Dice rolls: groups of equal dice plus a constant modifier.

use vstd::prelude::*;

verus! {

/// `n` copies of `x`.
pub open spec fn repeated(x: u32, n: nat) -> Seq<u32> {
    Seq::new(n, |i: int| x)
}

/// The side counts of the individual dice of the groups from position `from` on: group after
/// group, and within a group one entry for each of its dice.
pub open spec fn dice_from(groups: Seq<(u32, u32)>, from: nat) -> Seq<u32>
    decreases groups.len() - from,
{
    if from >= groups.len() {
        Seq::empty()
    } else {
        repeated(groups[from as int].1, groups[from as int].0 as nat) + dice_from(groups, from + 1)
    }
}

/// The sum of the side counts in `dice`.
pub open spec fn side_total(dice: Seq<u32>) -> nat
    decreases dice.len(),
{
    if dice.len() == 0 {
        0
    } else {
        dice[0] as nat + side_total(dice.skip(1))
    }
}

/// Whether every group holds at least one die, and dice of at least one side.
pub open spec fn groups_are_full(groups: Seq<(u32, u32)>) -> bool {
    forall|i: int| 0 <= i < groups.len() ==> (#[trigger] groups[i]).0 >= 1 && groups[i].1 >= 1
}

/// Groups that all hold a die of at least one side give as many dice as there are groups,
/// or more, and no die without a side.
pub proof fn lemma_dice_of_full_groups(groups: Seq<(u32, u32)>, from: nat)
    requires
        from <= groups.len(),
        groups_are_full(groups),
    ensures
        dice_from(groups, from).len() >= groups.len() - from,
        forall|i: int| 0 <= i < dice_from(groups, from).len() ==> dice_from(groups, from)[i] >= 1,
    decreases groups.len() - from,
{
    if from < groups.len() {
        lemma_dice_of_full_groups(groups, from + 1);
        let group = groups[from as int];
        let here = repeated(group.1, group.0 as nat);
        let rest = dice_from(groups, from + 1);
        assert forall|i: int| 0 <= i < (here + rest).len() implies (here + rest)[i] >= 1 by {
            if i >= here.len() {
                assert((here + rest)[i] == rest[i - here.len()]);
            }
        }
    }
}

/// The side counts of two runs of dice add up.
pub proof fn lemma_side_total_concat(a: Seq<u32>, b: Seq<u32>)
    ensures
        side_total(a + b) == side_total(a) + side_total(b),
    decreases a.len(),
{
    if a.len() == 0 {
        assert(a + b =~= b);
    } else {
        lemma_side_total_concat(a.skip(1), b);
        assert((a + b).skip(1) =~= a.skip(1) + b);
    }
}

/// Dice with at least one side each have at least as many sides in all as there are dice.
pub proof fn lemma_side_total_at_least_len(dice: Seq<u32>)
    requires
        forall|i: int| 0 <= i < dice.len() ==> dice[i] >= 1,
    ensures
        side_total(dice) >= dice.len(),
    decreases dice.len(),
{
    if dice.len() > 0 {
        lemma_side_total_at_least_len(dice.skip(1));
    }
}

/// The first elements of each pair.
pub open spec fn firsts(pairs: Seq<(u32, u32)>) -> Seq<u32> {
    Seq::new(pairs.len(), |i: int| pairs[i].0)
}

/// The second elements of each pair.
pub open spec fn seconds(pairs: Seq<(u32, u32)>) -> Seq<u32> {
    Seq::new(pairs.len(), |i: int| pairs[i].1)
}

/// A set of dice being rolled: an ordered list of dice groups and a constant modifier.
///
/// A group holds its number of dice and their number of sides together, so there are
/// always as many counts as side counts.
#[derive(Debug, Eq)]
pub struct Roll {
    groups: Vec<(u32, u32)>,
    modifier: i32,
}

impl Clone for Roll {
    fn clone(&self) -> (r: Self)
        ensures
            r.groups() == self.groups(),
            r.spec_modifier() == self.spec_modifier(),
    {
        let mut groups: Vec<(u32, u32)> = Vec::with_capacity(self.groups.len());
        let mut i: usize = 0;
        while i < self.groups.len()
            invariant
                i <= self.groups.len(),
                groups@ == self.groups@.take(i as int),
            decreases self.groups.len() - i,
        {
            groups.push(self.groups[i]);
            assert(groups@ =~= self.groups@.take(i + 1));
            i += 1;
        }
        assert(self.groups@.take(i as int) =~= self.groups@);
        Roll { groups, modifier: self.modifier }
    }
}

impl PartialEq for Roll {
    fn eq(&self, other: &Roll) -> (b: bool) {
        let same = self.groups == other.groups;
        assert(same == (self.groups@ =~= other.groups@));
        same && self.modifier == other.modifier
    }
}

impl vstd::std_specs::cmp::PartialEqSpecImpl for Roll {
    open spec fn obeys_eq_spec() -> bool {
        true
    }

    /// Two rolls are equal where they hold the same groups in the same order and the same
    /// modifier.
    open spec fn eq_spec(&self, other: &Roll) -> bool {
        self.groups() == other.groups() && self.spec_modifier() == other.spec_modifier()
    }
}

impl Roll {
    /// The dice groups, in the order in which they were added, each as (count, sides).
    pub closed spec fn groups(&self) -> Seq<(u32, u32)> {
        self.groups@
    }

    /// The constant added to the total of the dice.
    pub closed spec fn spec_modifier(&self) -> int {
        self.modifier as int
    }

    /// The side count of every single die of the roll, in the order of the groups.
    pub open spec fn dice(&self) -> Seq<u32> {
        dice_from(self.groups(), 0)
    }

    /// A roll with no dice and modifier zero.
    pub fn new() -> (roll: Self)
        ensures
            roll.groups() == Seq::<(u32, u32)>::empty(),
            roll.spec_modifier() == 0,
    {
        Roll { groups: Vec::new(), modifier: 0 }
    }

    /// Appends a group of `num_dice` dice with `num_sides` sides each.
    pub fn add_d(&mut self, num_dice: u32, num_sides: u32) -> (ret: &mut Self)
        ensures
            ret.groups() == old(self).groups().push((num_dice, num_sides)),
            ret.spec_modifier() == old(self).spec_modifier(),
            *final(self) == *final(ret),
    {
        self.groups.push((num_dice, num_sides));
        self
    }

    /// Adds `modifier` to the constant of the roll.
    pub fn add_modifier(&mut self, modifier: i32) -> (ret: &mut Self)
        requires
            i32::MIN <= old(self).spec_modifier() + modifier <= i32::MAX,
        ensures
            ret.groups() == old(self).groups(),
            ret.spec_modifier() == old(self).spec_modifier() + modifier,
            *final(self) == *final(ret),
    {
        self.modifier = self.modifier + modifier;
        self
    }

    /// The constant of the roll.
    pub fn get_modifier(&self) -> (modifier: i32)
        ensures
            modifier == self.spec_modifier(),
    {
        self.modifier
    }

    /// The number of dice in each group, in the order of the groups.
    pub fn num_dice(&self) -> (counts: Vec<u32>)
        ensures
            counts@ == firsts(self.groups()),
    {
        let mut counts: Vec<u32> = Vec::with_capacity(self.groups.len());
        let mut i: usize = 0;
        while i < self.groups.len()
            invariant
                i <= self.groups.len(),
                counts@ == firsts(self.groups@.take(i as int)),
            decreases self.groups.len() - i,
        {
            counts.push(self.groups[i].0);
            assert(counts@ =~= firsts(self.groups@.take(i + 1)));
            i += 1;
        }
        assert(self.groups@.take(i as int) =~= self.groups@);
        counts
    }

    /// The number of sides of the dice of each group, in the order of the groups.
    pub fn num_sides(&self) -> (sides: Vec<u32>)
        ensures
            sides@ == seconds(self.groups()),
    {
        let mut sides: Vec<u32> = Vec::with_capacity(self.groups.len());
        let mut i: usize = 0;
        while i < self.groups.len()
            invariant
                i <= self.groups.len(),
                sides@ == seconds(self.groups@.take(i as int)),
            decreases self.groups.len() - i,
        {
            sides.push(self.groups[i].1);
            assert(sides@ =~= seconds(self.groups@.take(i + 1)));
            i += 1;
        }
        assert(self.groups@.take(i as int) =~= self.groups@);
        sides
    }

    /// A traversal of the dice of the roll, which gives the number of sides of each die.
    pub fn iter<'a>(&'a self) -> (it: RollIterator<'a>)
        ensures
            it.roll() == self,
            it.remaining() == self.dice(),
    {
        RollIterator::new(self)
    }

    /// Total number of sides on all dice in this roll.
    pub fn total_num_sides(&self) -> (total: u32)
        requires
            side_total(self.dice()) <= u32::MAX,
        ensures
            total == side_total(self.dice()),
    {
        let mut total: u32 = 0;
        let mut it = self.iter();
        loop
            invariant
                it.roll() == self,
                total + side_total(it.remaining()) == side_total(self.dice()),
                side_total(self.dice()) <= u32::MAX,
            decreases it.remaining().len(),
        {
            match it.next() {
                Some(num_sides) => {
                    total = total + num_sides;
                },
                None => {
                    return total;
                },
            }
        }
    }
}

/// A position in the traversal of the dice of a roll.
pub struct RollIterator<'a> {
    roll: &'a Roll,
    group_ptr: usize,
    die_ptr: u32,
}

impl<'a> RollIterator<'a> {
    /// The roll that is traversed.
    pub closed spec fn roll(&self) -> &'a Roll {
        self.roll
    }

    /// The side counts of the dice that are still to come.
    pub closed spec fn remaining(&self) -> Seq<u32> {
        let groups = self.roll.groups();
        if self.group_ptr < groups.len() {
            let (count, sides) = groups[self.group_ptr as int];
            repeated(
                sides,
                if self.die_ptr < count {
                    (count - self.die_ptr) as nat
                } else {
                    0
                },
            ) + dice_from(groups, (self.group_ptr + 1) as nat)
        } else {
            Seq::empty()
        }
    }

    /// A traversal of `roll` that starts at its first die.
    pub fn new(roll: &'a Roll) -> (it: Self)
        ensures
            it.roll() == roll,
            it.remaining() == roll.dice(),
    {
        RollIterator { roll, group_ptr: 0, die_ptr: 0 }
    }

    /// The number of sides of the next die, or `None` after the last die.
    pub fn next(&mut self) -> (r: Option<u32>)
        ensures
            final(self).roll() == old(self).roll(),
            old(self).remaining().len() == 0 ==> r is None,
            old(self).remaining().len() == 0 ==> final(self).remaining() == old(self).remaining(),
            old(self).remaining().len() > 0 ==> r == Some(old(self).remaining()[0]),
            old(self).remaining().len() > 0 ==> final(self).remaining() == old(
                self
            ).remaining().skip(1),
    {
        // Leave every group whose dice have all been given; a group without dice is left
        // at once.
        while self.group_ptr < self.roll.groups.len() && self.die_ptr
            >= self.roll.groups[self.group_ptr].0
            invariant
                self.roll == old(self).roll,
                self.remaining() == old(self).remaining(),
            decreases self.roll.groups.len() - self.group_ptr,
        {
            assert(repeated(self.roll.groups@[self.group_ptr as int].1, 0) + dice_from(
                self.roll.groups@,
                (self.group_ptr + 1) as nat,
            ) =~= dice_from(self.roll.groups@, (self.group_ptr + 1) as nat));
            self.group_ptr = self.group_ptr + 1;
            self.die_ptr = 0;
        }
        // In a group that is left to stand in, the next die is one of its dice.
        if self.group_ptr < self.roll.groups.len() {
            let (count, sides) = self.roll.groups[self.group_ptr];
            let ghost rest = dice_from(self.roll.groups@, (self.group_ptr + 1) as nat);
            assert((repeated(sides, (count - self.die_ptr) as nat) + rest).skip(1) =~= repeated(
                sides,
                (count - self.die_ptr - 1) as nat,
            ) + rest);
            self.die_ptr = self.die_ptr + 1;
            Some(sides)
        } else {
            None
        }
    }
}

} // verus!
