//! The text notation of dice rolls, such as `2d6 + 1d4 - 3`.
//!
//! A roll is written as a run of items, each a dice group (`2d6`) or a constant (`3`), and
//! each with an optional sign in front. A chat command (`/roll` or `/r`) may stand before
//! the run, and whitespace may stand anywhere.

use crate::dice::{groups_are_full, lemma_dice_of_full_groups, Roll};
use crate::text::{
    compact, decimal_value, find_first, first_from, has_kind, is_number, is_whitespace,
    lemma_compact_concat, lemma_compact_holds, lemma_compact_of_compact, lemma_first_from,
    lemma_first_from_is, lemma_trim_end_tight, read_number, spec_is_number, starts_with,
    to_chars, trim, trim_range, trim_start, without_whitespace, CharKind,
};
use vstd::string::StrSliceExecFns;
use vstd::prelude::*;
use vstd::slice::slice_subrange;

verus! {

/// Why a text is not a roll.
#[derive(Debug, Clone, Copy, PartialEq, Eq, Structural)]
pub enum ParseError {
    /// Nothing is left once the command and the surrounding whitespace are taken away.
    Empty,
    /// What is left to read holds no digit.
    NoDigits,
    /// The count of a dice group, or a constant, is not a decimal number.
    InvalidNumber,
    /// The side count after the `d` is missing or is not a decimal number.
    InvalidSides,
    /// A dice group of no dice, or of dice with no sides.
    EmptyGroup,
    /// A count or a side count that no `u32` holds, or a constant, alone or summed up with
    /// those before it, that no `i32` holds.
    OutOfRange,
}

/// What one item of the notation stands for.
#[derive(Debug, Clone, Copy, PartialEq, Eq, Structural)]
pub enum RollItem {
    /// A group of `count` dice with `sides` sides each.
    Dice { count: u32, sides: u32 },
    /// A constant added to the total.
    Modifier { value: i32 },
}

/// The long form of the chat command that may stand before a roll.
pub const LONG_COMMAND: &'static str = "/roll";

/// The short form of the chat command that may stand before a roll.
pub const SHORT_COMMAND: &'static str = "/r";

/// `s` without the chat command at its start, if there is one.
pub open spec fn without_command(s: Seq<char>) -> Seq<char> {
    if LONG_COMMAND@.is_prefix_of(s) {
        s.skip(LONG_COMMAND@.len() as int)
    } else if SHORT_COMMAND@.is_prefix_of(s) {
        s.skip(SHORT_COMMAND@.len() as int)
    } else {
        s
    }
}

/// The run of items of a text: the text without the whitespace around it, without the chat
/// command at the start of that, and without the whitespace around what is left.
pub open spec fn stripped(s: Seq<char>) -> Seq<char> {
    trim(without_command(trim(s)))
}

/// Where the item that starts at `pos` ends: at the first sign after the first digit, or at
/// the end of `s` where no sign follows that digit.
pub open spec fn item_end(s: Seq<char>, pos: int) -> int {
    first_from(s, CharKind::Sign, first_from(s, CharKind::Digit, pos))
}

/// What the item `item` stands for.
///
/// Whitespace counts for nothing. A sign may come first. If a `d` or `D` follows, the item
/// is a dice group: a decimal count before the letter, a decimal side count after it, and
/// neither of them zero; a sign before a dice group changes nothing. Without such a letter
/// the item is a constant: a decimal number, negative after a minus sign.
pub open spec fn interpret_item(item: Seq<char>) -> Result<RollItem, ParseError> {
    let t = compact(item);
    let signed = t.len() > 0 && has_kind(t[0], CharKind::Sign);
    let start: int = if signed {
        1
    } else {
        0
    };
    let letter = first_from(t, CharKind::DieLetter, start);
    if letter < t.len() {
        let count = t.subrange(start, letter);
        let sides = t.subrange(letter + 1, t.len() as int);
        if !spec_is_number(count) {
            Err(ParseError::InvalidNumber)
        } else if !spec_is_number(sides) {
            Err(ParseError::InvalidSides)
        } else if decimal_value(count) > u32::MAX || decimal_value(sides) > u32::MAX {
            Err(ParseError::OutOfRange)
        } else if decimal_value(count) == 0 || decimal_value(sides) == 0 {
            Err(ParseError::EmptyGroup)
        } else {
            Ok(
                RollItem::Dice {
                    count: decimal_value(count) as u32,
                    sides: decimal_value(sides) as u32,
                },
            )
        }
    } else {
        let body = t.subrange(start, t.len() as int);
        let value: int = if signed && t[0] == '-' {
            -(decimal_value(body) as int)
        } else {
            decimal_value(body) as int
        };
        if !spec_is_number(body) {
            Err(ParseError::InvalidNumber)
        } else if value < i32::MIN || value > i32::MAX {
            Err(ParseError::OutOfRange)
        } else {
            Ok(RollItem::Modifier { value: value as i32 })
        }
    }
}

/// The roll that the items of `s` from `pos` on make of the groups and the modifier read
/// so far, as the pair of its groups and its modifier.
pub open spec fn parse_items(
    s: Seq<char>,
    pos: int,
    groups: Seq<(u32, u32)>,
    modifier: int,
) -> Result<(Seq<(u32, u32)>, int), ParseError>
    decreases s.len() - pos,
    when 0 <= pos
    via parse_items_decreases
{
    if pos >= s.len() {
        Ok((groups, modifier))
    } else if first_from(s, CharKind::Digit, pos) >= s.len() {
        Err(ParseError::NoDigits)
    } else {
        let end = item_end(s, pos);
        match interpret_item(s.subrange(pos, end)) {
            Err(e) => Err(e),
            Ok(RollItem::Dice { count, sides }) => parse_items(
                s,
                end,
                groups.push((count, sides)),
                modifier,
            ),
            Ok(RollItem::Modifier { value }) => if i32::MIN <= modifier + value <= i32::MAX {
                parse_items(s, end, groups, modifier + value)
            } else {
                Err(ParseError::OutOfRange)
            },
        }
    }
}

/// An item that holds a digit ends after that digit.
pub proof fn lemma_item_end(s: Seq<char>, pos: int)
    requires
        0 <= pos,
        first_from(s, CharKind::Digit, pos) < s.len(),
    ensures
        pos <= first_from(s, CharKind::Digit, pos) < item_end(s, pos) <= s.len(),
        item_end(s, pos) < s.len() ==> has_kind(s[item_end(s, pos)], CharKind::Sign),
{
    lemma_first_from(s, CharKind::Digit, pos);
    lemma_first_from(s, CharKind::Sign, first_from(s, CharKind::Digit, pos));
}

/// Every item holds a character, so reading goes on from a later position.
#[via_fn]
proof fn parse_items_decreases(s: Seq<char>, pos: int, groups: Seq<(u32, u32)>, modifier: int) {
    if pos < s.len() && first_from(s, CharKind::Digit, pos) < s.len() {
        lemma_item_end(s, pos);
    }
}

/// Reading items adds no group without dice and no dice without sides.
pub proof fn lemma_parse_items_groups_full(
    s: Seq<char>,
    pos: int,
    groups: Seq<(u32, u32)>,
    modifier: int,
)
    requires
        0 <= pos,
        groups_are_full(groups),
    ensures
        match parse_items(s, pos, groups, modifier) {
            Ok((read, _)) => groups_are_full(read),
            Err(_) => true,
        },
    decreases s.len() - pos,
{
    if pos < s.len() && first_from(s, CharKind::Digit, pos) < s.len() {
        lemma_item_end(s, pos);
        let end = item_end(s, pos);
        match interpret_item(s.subrange(pos, end)) {
            Err(e) => {},
            Ok(RollItem::Dice { count, sides }) => {
                lemma_parse_items_groups_full(s, end, groups.push((count, sides)), modifier);
            },
            Ok(RollItem::Modifier { value }) => {
                if i32::MIN <= modifier + value <= i32::MAX {
                    lemma_parse_items_groups_full(s, end, groups, modifier + value);
                }
            },
        }
    }
}

/// The roll that the text `input` stands for, as the pair of its groups and its modifier,
/// or the reason why it stands for none.
pub open spec fn parsed(input: Seq<char>) -> Result<(Seq<(u32, u32)>, int), ParseError> {
    let s = stripped(input);
    if s.len() == 0 {
        Err(ParseError::Empty)
    } else {
        parse_items(s, 0, Seq::empty(), 0)
    }
}

/// A roll that was read from a text has no group without dice and no dice without sides.
pub proof fn lemma_parsed_groups_full(input: Seq<char>)
    ensures
        match parsed(input) {
            Ok((groups, _)) => groups_are_full(groups),
            Err(_) => true,
        },
{
    lemma_parse_items_groups_full(stripped(input), 0, Seq::empty(), 0);
}

/// Where a position of `s` lies in the compact form of `s`: after the characters before
/// it that are not whitespace.
pub open spec fn compact_position(s: Seq<char>, pos: int) -> int {
    compact(s.take(pos)).len() as int
}

/// The compact form of a range of `s` is the matching range of the compact form of `s`.
proof fn lemma_compact_range(s: Seq<char>, from: int, to: int)
    requires
        0 <= from <= to <= s.len(),
    ensures
        compact_position(s, from) <= compact_position(s, to) <= compact(s).len(),
        compact(s).subrange(compact_position(s, from), compact_position(s, to)) == compact(
            s.subrange(from, to),
        ),
        compact_position(s, s.len() as int) == compact(s).len(),
{
    let head = s.take(from);
    let middle = s.subrange(from, to);
    let tail = s.skip(to);
    assert(s.take(to) =~= head + middle);
    assert(s =~= s.take(to) + tail);
    assert(s.take(s.len() as int) =~= s);
    lemma_compact_concat(head, middle);
    lemma_compact_concat(s.take(to), tail);
    assert((compact(head) + compact(middle) + compact(tail)).subrange(
        compact(head).len() as int,
        (compact(head).len() + compact(middle).len()) as int,
    ) =~= compact(middle));
}

/// The first character of a class is found in the compact form where it is found in the
/// run itself.
proof fn lemma_first_from_compact(s: Seq<char>, kind: CharKind, from: int)
    requires
        0 <= from <= s.len(),
    ensures
        first_from(compact(s), kind, compact_position(s, from)) == compact_position(
            s,
            first_from(s, kind, from),
        ),
{
    let t = compact(s);
    let at = first_from(s, kind, from);
    lemma_first_from(s, kind, from);
    lemma_compact_range(s, from, at);
    let skipped = s.subrange(from, at);
    lemma_compact_holds(skipped, kind);
    assert forall|j: int| compact_position(s, from) <= j < compact_position(s, at) implies !
    has_kind(#[trigger] t[j], kind) by {
        assert(t[j] == compact(skipped)[j - compact_position(s, from)]);
    }
    if at < s.len() {
        lemma_compact_range(s, at, at + 1);
        let found = s.subrange(at, at + 1);
        assert(found.drop_last() =~= Seq::<char>::empty());
        assert(found.last() == s[at]);
        assert(compact(found) =~= seq![s[at]]) by {
            reveal_with_fuel(compact, 2);
        }
        assert(t[compact_position(s, at)] == compact(found)[0]);
    } else {
        lemma_compact_range(s, at, at);
    }
    lemma_first_from_is(t, kind, compact_position(s, from), compact_position(s, at));
}

/// The items of a run that does not end in whitespace are the items of its compact form.
pub proof fn lemma_parse_items_compact(
    s: Seq<char>,
    pos: int,
    groups: Seq<(u32, u32)>,
    modifier: int,
)
    requires
        0 <= pos <= s.len(),
        s.len() > 0 ==> !is_whitespace(s.last()),
    ensures
        parse_items(s, pos, groups, modifier) == parse_items(
            compact(s),
            compact_position(s, pos),
            groups,
            modifier,
        ),
    decreases s.len() - pos,
{
    let t = compact(s);
    lemma_compact_range(s, pos, s.len() as int);
    if pos < s.len() {
        let rest = s.subrange(pos, s.len() as int);
        assert(rest.last() == s.last());
        assert(compact(rest).len() > 0);
        assert(compact_position(s, pos) < t.len());
        let digit = first_from(s, CharKind::Digit, pos);
        lemma_first_from(s, CharKind::Digit, pos);
        lemma_first_from_compact(s, CharKind::Digit, pos);
        if digit < s.len() {
            let end = item_end(s, pos);
            lemma_item_end(s, pos);
            lemma_first_from_compact(s, CharKind::Sign, digit);
            lemma_compact_range(s, digit, s.len() as int);
            let after = s.subrange(digit, s.len() as int);
            assert(after.last() == s.last());
            assert(compact(after).len() > 0);
            lemma_compact_range(s, pos, end);
            let item = s.subrange(pos, end);
            lemma_compact_holds(item, CharKind::Digit);
            lemma_compact_of_compact(compact(item));
            assert(interpret_item(item) == interpret_item(compact(item)));
            match interpret_item(item) {
                Ok(RollItem::Dice { count, sides }) => {
                    lemma_parse_items_compact(s, end, groups.push((count, sides)), modifier);
                },
                Ok(RollItem::Modifier { value }) => {
                    lemma_parse_items_compact(s, end, groups, modifier + value);
                },
                Err(_) => {},
            }
        }
    }
}

/// Whitespace counts for nothing: two texts whose runs of items hold the same characters
/// besides whitespace stand for the same roll, or fail for the same reason. So a text
/// stands for the same roll with a chat command before it and without.
pub proof fn lemma_parsed_ignores_whitespace(x: Seq<char>, y: Seq<char>)
    requires
        compact(stripped(x)) == compact(stripped(y)),
    ensures
        parsed(x) == parsed(y),
{
    let sx = stripped(x);
    let sy = stripped(y);
    lemma_trim_end_tight(trim_start(without_command(trim(x))));
    lemma_trim_end_tight(trim_start(without_command(trim(y))));
    lemma_parse_items_compact(sx, 0, Seq::empty(), 0);
    lemma_parse_items_compact(sy, 0, Seq::empty(), 0);
    assert(sx.take(0) =~= Seq::<char>::empty());
    assert(sy.take(0) =~= Seq::<char>::empty());
    if sx.len() > 0 {
        assert(compact(sx).len() > 0);
    }
    if sy.len() > 0 {
        assert(compact(sy).len() > 0);
    }
}

/// The range of `s` that holds its run of items.
fn stripped_range(s: &[char]) -> (range: (usize, usize))
    ensures
        range.0 <= range.1 <= s@.len(),
        s@.subrange(range.0 as int, range.1 as int) == stripped(s@),
{
    let (start, end) = trim_range(s);
    let trimmed = slice_subrange(s, start, end);
    let command: usize = if starts_with(trimmed, LONG_COMMAND) {
        LONG_COMMAND.unicode_len()
    } else if starts_with(trimmed, SHORT_COMMAND) {
        SHORT_COMMAND.unicode_len()
    } else {
        0
    };
    let rest = slice_subrange(trimmed, command, trimmed.len());
    let (from, to) = trim_range(rest);
    proof {
        assert(rest@ =~= without_command(trimmed@));
        assert(rest@.subrange(from as int, to as int) =~= s@.subrange(
            start + command + from,
            start + command + to,
        ));
    }
    (start + command + from, start + command + to)
}

/// Takes the chat command and the surrounding whitespace away from a roll string.
pub fn strip_roll_prefix<'s>(string: &'s str) -> (stripped_slice: &'s str)
    ensures
        stripped_slice@ == stripped(string@),
{
    let chars = to_chars(string);
    let (start, end) = stripped_range(chars.as_slice());
    string.substring_char(start, end)
}

/// Split off the first modifier or set of dice from a roll string.
///
/// Given a roll string such as `2d4+7d6+8+1d10`, this returns a pair of string slices: the
/// first holds `2d4` and the second holds the rest of the roll string. The first item ends
/// before the first sign that follows the first digit, so a sign that leads the string
/// belongs to the item, as does the whitespace before the sign that ends it.
pub fn split_off_first_roll_item<'s>(roll_string: &'s str) -> (pair: (&'s str, &'s str))
    requires
        roll_string@.len() != 0,
        !is_whitespace(roll_string@[0]),
        first_from(roll_string@, CharKind::Digit, 0) < roll_string@.len(),
    ensures
        pair.0@ == roll_string@.take(item_end(roll_string@, 0)),
        pair.1@ == roll_string@.skip(item_end(roll_string@, 0)),
        pair.0@ + pair.1@ == roll_string@,
        pair.0@.len() > 0,
        pair.1@.len() > 0 ==> has_kind(pair.1@[0], CharKind::Sign),
{
    let chars = to_chars(roll_string);
    let first_digit_ind = find_first(chars.as_slice(), CharKind::Digit, 0);
    let end = find_first(chars.as_slice(), CharKind::Sign, first_digit_ind);
    proof {
        lemma_item_end(roll_string@, 0);
        assert(roll_string@.take(end as int) + roll_string@.skip(end as int) =~= roll_string@);
    }
    (roll_string.substring_char(0, end), roll_string.substring_char(end, chars.len()))
}

/// Reads one item: a dice group or a constant, with or without a sign, and with whitespace
/// anywhere.
pub fn interpret(item: &[char]) -> (r: Result<RollItem, ParseError>)
    ensures
        r == interpret_item(item@),
{
    let kept = without_whitespace(item);
    let t = kept.as_slice();
    let signed = t.len() > 0 && has_kind(t[0], CharKind::Sign);
    let negative = signed && t[0] == '-';
    let start: usize = if signed {
        1
    } else {
        0
    };
    let letter = find_first(t, CharKind::DieLetter, start);
    if letter < t.len() {
        let count = slice_subrange(t, start, letter);
        let sides = slice_subrange(t, letter + 1, t.len());
        if !is_number(count) {
            return Err(ParseError::InvalidNumber);
        }
        if !is_number(sides) {
            return Err(ParseError::InvalidSides);
        }
        let num_dice = read_number(count);
        let num_sides = read_number(sides);
        if num_dice.is_none() || num_sides.is_none() {
            return Err(ParseError::OutOfRange);
        }
        let num_dice = num_dice.unwrap();
        let num_sides = num_sides.unwrap();
        if num_dice == 0 || num_sides == 0 {
            return Err(ParseError::EmptyGroup);
        }
        Ok(RollItem::Dice { count: num_dice, sides: num_sides })
    } else {
        let body = slice_subrange(t, start, t.len());
        if !is_number(body) {
            return Err(ParseError::InvalidNumber);
        }
        match read_number(body) {
            None => Err(ParseError::OutOfRange),
            Some(magnitude) => {
                let value: i64 = if negative {
                    -(magnitude as i64)
                } else {
                    magnitude as i64
                };
                if value < i32::MIN as i64 || value > i32::MAX as i64 {
                    Err(ParseError::OutOfRange)
                } else {
                    Ok(RollItem::Modifier { value: value as i32 })
                }
            },
        }
    }
}

/// What a result of reading holds: the groups and the modifier of its roll, or its error.
pub open spec fn described(r: Result<Roll, ParseError>) -> Result<
    (Seq<(u32, u32)>, int),
    ParseError,
> {
    match r {
        Ok(roll) => Ok((roll.groups(), roll.spec_modifier())),
        Err(e) => Err(e),
    }
}

/// Reads a roll from its text notation.
///
/// The chat command and the whitespace around the text are taken away, and what is left is
/// read item by item: each dice group is added to the roll, and each constant to its
/// modifier. The first item that cannot be read gives the error.
pub fn parse_roll_string(roll_string: String) -> (r: Result<Roll, ParseError>)
    ensures
        described(r) == parsed(roll_string@),
        r is Ok ==> groups_are_full(r->Ok_0.groups()),
        r is Ok ==> r->Ok_0.dice().len() >= r->Ok_0.groups().len(),
        r is Ok ==> forall|i: int| 0 <= i < r->Ok_0.dice().len() ==> r->Ok_0.dice()[i] >= 1,
{
    proof {
        lemma_parsed_groups_full(roll_string@);
        match parsed(roll_string@) {
            Ok((groups, _)) => {
                lemma_dice_of_full_groups(groups, 0);
            },
            Err(_) => {},
        }
    }
    let chars = to_chars(roll_string.as_str());
    let (start, end) = stripped_range(chars.as_slice());
    let s = slice_subrange(chars.as_slice(), start, end);
    if s.len() == 0 {
        return Err(ParseError::Empty);
    }
    let mut roll = Roll::new();
    let mut pos: usize = 0;
    while pos < s.len()
        invariant
            pos <= s@.len(),
            s@.len() > 0,
            s@ == stripped(roll_string@),
            parse_items(s@, 0, Seq::empty(), 0) == parse_items(
                s@,
                pos as int,
                roll.groups(),
                roll.spec_modifier(),
            ),
        decreases s@.len() - pos,
    {
        let first_digit_ind = find_first(s, CharKind::Digit, pos);
        if first_digit_ind >= s.len() {
            return Err(ParseError::NoDigits);
        }
        let item_end_ind = find_first(s, CharKind::Sign, first_digit_ind);
        proof {
            lemma_item_end(s@, pos as int);
        }
        match interpret(slice_subrange(s, pos, item_end_ind)) {
            Err(e) => {
                return Err(e);
            },
            Ok(RollItem::Dice { count, sides }) => {
                roll.add_d(count, sides);
            },
            Ok(RollItem::Modifier { value }) => {
                let sum: i64 = roll.get_modifier() as i64 + value as i64;
                if sum < i32::MIN as i64 || sum > i32::MAX as i64 {
                    return Err(ParseError::OutOfRange);
                }
                roll.add_modifier(value);
            },
        }
        pos = item_end_ind;
    }
    Ok(roll)
}

} // verus!
