//! Characters and runs of characters: the classes that the dice notation tells apart,
//! surrounding whitespace, and decimal numbers.

use vstd::prelude::*;

verus! {

/// Whether `c` is whitespace: a character with the Unicode property `White_Space`.
pub open spec fn spec_is_whitespace(c: char) -> bool {
    let u = c as u32;
    ||| 0x09 <= u <= 0x0D
    ||| u == 0x20
    ||| u == 0x85
    ||| u == 0xA0
    ||| u == 0x1680
    ||| 0x2000 <= u <= 0x200A
    ||| u == 0x2028
    ||| u == 0x2029
    ||| u == 0x202F
    ||| u == 0x205F
    ||| u == 0x3000
}

/// Whether `c` is whitespace.
#[verifier::when_used_as_spec(spec_is_whitespace)]
pub fn is_whitespace(c: char) -> (b: bool)
    ensures
        b == spec_is_whitespace(c),
{
    let u = c as u32;
    (0x09 <= u && u <= 0x0D) || u == 0x20 || u == 0x85 || u == 0xA0 || u == 0x1680 || (0x2000 <= u
        && u <= 0x200A) || u == 0x2028 || u == 0x2029 || u == 0x202F || u == 0x205F || u == 0x3000
}

/// The classes of characters that the notation looks for.
#[derive(Debug, Clone, Copy, PartialEq, Eq, Structural)]
pub enum CharKind {
    /// A decimal digit, `0` to `9`.
    Digit,
    /// A sign, `+` or `-`.
    Sign,
    /// The letter between the count and the sides of a dice group, `d` or `D`.
    DieLetter,
}

/// Whether `c` belongs to the class `kind`.
pub open spec fn spec_has_kind(c: char, kind: CharKind) -> bool {
    match kind {
        CharKind::Digit => '0' <= c <= '9',
        CharKind::Sign => c == '+' || c == '-',
        CharKind::DieLetter => c == 'd' || c == 'D',
    }
}

/// Whether `c` belongs to the class `kind`.
#[verifier::when_used_as_spec(spec_has_kind)]
pub fn has_kind(c: char, kind: CharKind) -> (b: bool)
    ensures
        b == spec_has_kind(c, kind),
{
    match kind {
        CharKind::Digit => '0' <= c && c <= '9',
        CharKind::Sign => c == '+' || c == '-',
        CharKind::DieLetter => c == 'd' || c == 'D',
    }
}

/// The position of the first character of class `kind` at or after `from`, or the length of
/// `s` where there is none.
pub open spec fn first_from(s: Seq<char>, kind: CharKind, from: int) -> int
    decreases s.len() - from,
{
    if from >= s.len() {
        s.len() as int
    } else if has_kind(s[from], kind) {
        from
    } else {
        first_from(s, kind, from + 1)
    }
}

/// What `first_from` finds: a position in range, of the class, with none of the class
/// before it.
pub proof fn lemma_first_from(s: Seq<char>, kind: CharKind, from: int)
    requires
        0 <= from <= s.len(),
    ensures
        from <= first_from(s, kind, from) <= s.len(),
        first_from(s, kind, from) < s.len() ==> has_kind(s[first_from(s, kind, from)], kind),
        forall|j: int| from <= j < first_from(s, kind, from) ==> !has_kind(#[trigger] s[j], kind),
    decreases s.len() - from,
{
    if from < s.len() && !has_kind(s[from], kind) {
        lemma_first_from(s, kind, from + 1);
    }
}

/// A position that holds the first character of the class is what `first_from` finds.
pub proof fn lemma_first_from_is(s: Seq<char>, kind: CharKind, from: int, at: int)
    requires
        0 <= from <= at <= s.len(),
        forall|j: int| from <= j < at ==> !has_kind(#[trigger] s[j], kind),
        at < s.len() ==> has_kind(s[at], kind),
    ensures
        first_from(s, kind, from) == at,
    decreases at - from,
{
    if from < at {
        lemma_first_from_is(s, kind, from + 1, at);
    }
}

/// The position of the first character of class `kind` at or after `from`.
pub fn find_first(s: &[char], kind: CharKind, from: usize) -> (at: usize)
    requires
        from <= s@.len(),
    ensures
        at == first_from(s@, kind, from as int),
        from <= at <= s@.len(),
{
    let mut at = from;
    while at < s.len() && !has_kind(s[at], kind)
        invariant
            from <= at <= s@.len(),
            forall|j: int| from <= j < at ==> !has_kind(#[trigger] s@[j], kind),
        decreases s@.len() - at,
    {
        at += 1;
    }
    proof {
        lemma_first_from_is(s@, kind, from as int, at as int);
    }
    at
}

/// `s` without the whitespace at its start.
pub open spec fn trim_start(s: Seq<char>) -> Seq<char>
    decreases s.len(),
{
    if s.len() > 0 && is_whitespace(s[0]) {
        trim_start(s.skip(1))
    } else {
        s
    }
}

/// `s` without the whitespace at its end.
pub open spec fn trim_end(s: Seq<char>) -> Seq<char>
    decreases s.len(),
{
    if s.len() > 0 && is_whitespace(s.last()) {
        trim_end(s.drop_last())
    } else {
        s
    }
}

/// `s` without the whitespace at its start and at its end.
pub open spec fn trim(s: Seq<char>) -> Seq<char> {
    trim_end(trim_start(s))
}

/// Whitespace up to a position, and none at it, is what is trimmed at the start.
proof fn lemma_trim_start_is(s: Seq<char>, at: int)
    requires
        0 <= at <= s.len(),
        forall|j: int| 0 <= j < at ==> is_whitespace(#[trigger] s[j]),
        at < s.len() ==> !is_whitespace(s[at]),
    ensures
        trim_start(s) == s.skip(at),
    decreases at,
{
    if at > 0 {
        let rest = s.skip(1);
        assert forall|j: int| 0 <= j < at - 1 implies is_whitespace(#[trigger] rest[j]) by {
            assert(rest[j] == s[j + 1]);
        }
        lemma_trim_start_is(rest, at - 1);
        assert(rest.skip(at - 1) =~= s.skip(at));
    } else {
        assert(s.skip(0) =~= s);
    }
}

/// Whitespace from a position on, and none before it, is what is trimmed at the end.
proof fn lemma_trim_end_is(s: Seq<char>, at: int)
    requires
        0 <= at <= s.len(),
        forall|j: int| at <= j < s.len() ==> is_whitespace(#[trigger] s[j]),
        at > 0 ==> !is_whitespace(s[at - 1]),
    ensures
        trim_end(s) == s.take(at),
    decreases s.len() - at,
{
    if at < s.len() {
        let rest = s.drop_last();
        assert forall|j: int| at <= j < rest.len() implies is_whitespace(#[trigger] rest[j]) by {
            assert(rest[j] == s[j]);
        }
        lemma_trim_end_is(rest, at);
        assert(rest.take(at) =~= s.take(at));
    } else {
        assert(s.take(at) =~= s);
    }
}

/// Trimming leaves no whitespace at the end.
pub proof fn lemma_trim_end_tight(s: Seq<char>)
    ensures
        trim_end(s).len() > 0 ==> !is_whitespace(trim_end(s).last()),
    decreases s.len(),
{
    if s.len() > 0 && is_whitespace(s.last()) {
        lemma_trim_end_tight(s.drop_last());
    }
}

/// The range of `s` that is left when the whitespace at both ends is taken away.
pub fn trim_range(s: &[char]) -> (range: (usize, usize))
    ensures
        range.0 <= range.1 <= s@.len(),
        s@.subrange(range.0 as int, range.1 as int) == trim(s@),
{
    let mut start: usize = 0;
    while start < s.len() && is_whitespace(s[start])
        invariant
            start <= s@.len(),
            forall|j: int| 0 <= j < start ==> is_whitespace(#[trigger] s@[j]),
        decreases s@.len() - start,
    {
        start += 1;
    }
    let mut end: usize = s.len();
    while end > start && is_whitespace(s[end - 1])
        invariant
            start <= end <= s@.len(),
            forall|j: int| end <= j < s@.len() ==> is_whitespace(#[trigger] s@[j]),
        decreases end,
    {
        end -= 1;
    }
    proof {
        lemma_trim_start_is(s@, start as int);
        let rest = s@.skip(start as int);
        assert forall|j: int| end - start <= j < rest.len() implies is_whitespace(
            #[trigger] rest[j],
        ) by {
            assert(rest[j] == s@[j + start]);
        }
        if end > start {
            assert(rest[end - start - 1] == s@[end - 1]);
        }
        lemma_trim_end_is(rest, end - start);
        assert(rest.take(end - start) =~= s@.subrange(start as int, end as int));
    }
    (start, end)
}

/// Whether `s` begins with the characters of `token`.
pub fn starts_with(s: &[char], token: &str) -> (b: bool)
    ensures
        b == token@.is_prefix_of(s@),
{
    let letters = to_chars(token);
    if letters.len() > s.len() {
        return false;
    }
    let mut i: usize = 0;
    while i < letters.len()
        invariant
            letters@ == token@,
            i <= letters@.len() <= s@.len(),
            forall|j: int| 0 <= j < i ==> s@[j] == letters@[j],
        decreases letters@.len() - i,
    {
        if s[i] != letters[i] {
            assert(s@.subrange(0, letters@.len() as int)[i as int] != letters@[i as int]);
            return false;
        }
        i += 1;
    }
    assert(letters@ =~= s@.subrange(0, letters@.len() as int));
    true
}

/// `s` without any of its whitespace.
pub open spec fn compact(s: Seq<char>) -> Seq<char>
    decreases s.len(),
{
    if s.len() == 0 {
        s
    } else if is_whitespace(s.last()) {
        compact(s.drop_last())
    } else {
        compact(s.drop_last()).push(s.last())
    }
}

/// The compact form of two runs, one after the other, is their compact forms, one after
/// the other.
pub proof fn lemma_compact_concat(x: Seq<char>, y: Seq<char>)
    ensures
        compact(x + y) == compact(x) + compact(y),
    decreases y.len(),
{
    if y.len() == 0 {
        assert(x + y =~= x);
        assert(compact(x) + compact(y) =~= compact(x));
    } else {
        lemma_compact_concat(x, y.drop_last());
        assert((x + y).drop_last() =~= x + y.drop_last());
        assert((x + y).last() == y.last());
        if !is_whitespace(y.last()) {
            assert((compact(x) + compact(y.drop_last())).push(y.last()) =~= compact(x) + compact(
                y.drop_last(),
            ).push(y.last()));
        }
    }
}

/// The compact form holds no whitespace, and no character of a class that the run itself
/// does not hold.
pub proof fn lemma_compact_holds(s: Seq<char>, kind: CharKind)
    ensures
        compact(s).len() <= s.len(),
        forall|i: int| 0 <= i < compact(s).len() ==> !is_whitespace(#[trigger] compact(s)[i]),
        (forall|i: int| 0 <= i < s.len() ==> !has_kind(#[trigger] s[i], kind)) ==> (forall|i: int|
            0 <= i < compact(s).len() ==> !has_kind(#[trigger] compact(s)[i], kind)),
    decreases s.len(),
{
    if s.len() > 0 {
        let before = s.drop_last();
        lemma_compact_holds(before, kind);
        if forall|i: int| 0 <= i < s.len() ==> !has_kind(#[trigger] s[i], kind) {
            assert forall|i: int| 0 <= i < before.len() implies !has_kind(
                #[trigger] before[i],
                kind,
            ) by {
                assert(before[i] == s[i]);
            }
            assert(!has_kind(s[s.len() - 1], kind));
        }
    }
}

/// A run without whitespace is its own compact form.
pub proof fn lemma_compact_of_compact(s: Seq<char>)
    requires
        forall|i: int| 0 <= i < s.len() ==> !is_whitespace(#[trigger] s[i]),
    ensures
        compact(s) == s,
    decreases s.len(),
{
    if s.len() > 0 {
        let before = s.drop_last();
        assert forall|i: int| 0 <= i < before.len() implies !is_whitespace(#[trigger] before[i]) by {
            assert(before[i] == s[i]);
        }
        lemma_compact_of_compact(before);
        assert(before.push(s.last()) =~= s);
    }
}

/// The characters of `s` that are not whitespace, in their order.
pub fn without_whitespace(s: &[char]) -> (kept: Vec<char>)
    ensures
        kept@ == compact(s@),
{
    let mut kept: Vec<char> = Vec::new();
    let mut i: usize = 0;
    while i < s.len()
        invariant
            i <= s@.len(),
            kept@ == compact(s@.take(i as int)),
        decreases s@.len() - i,
    {
        assert(s@.take(i + 1).drop_last() =~= s@.take(i as int));
        if !is_whitespace(s[i]) {
            kept.push(s[i]);
        }
        i += 1;
    }
    assert(s@.take(i as int) =~= s@);
    kept
}

/// Whether `s` is a decimal number: one digit or more, and nothing else.
pub open spec fn spec_is_number(s: Seq<char>) -> bool {
    s.len() > 0 && forall|i: int| 0 <= i < s.len() ==> has_kind(#[trigger] s[i], CharKind::Digit)
}

/// Whether `s` is a decimal number.
pub fn is_number(s: &[char]) -> (b: bool)
    ensures
        b == spec_is_number(s@),
{
    s.len() > 0 && all_digits(s)
}

/// Whether `s` holds nothing but digits.
fn all_digits(s: &[char]) -> (b: bool)
    ensures
        b == forall|i: int| 0 <= i < s@.len() ==> has_kind(#[trigger] s@[i], CharKind::Digit),
{
    let mut i: usize = 0;
    while i < s.len()
        invariant
            i <= s@.len(),
            forall|j: int| 0 <= j < i ==> has_kind(#[trigger] s@[j], CharKind::Digit),
        decreases s@.len() - i,
    {
        if !has_kind(s[i], CharKind::Digit) {
            return false;
        }
        i += 1;
    }
    true
}

/// The number that the decimal digits of `s` spell.
pub open spec fn decimal_value(s: Seq<char>) -> nat
    decreases s.len(),
{
    if s.len() == 0 {
        0
    } else {
        10 * decimal_value(s.drop_last()) + (s.last() as u32 - '0' as u32) as nat
    }
}

/// A number is at least what any run of its first digits spells.
pub proof fn lemma_decimal_value_grows(s: Seq<char>, n: int)
    requires
        0 <= n <= s.len(),
        spec_is_number(s),
    ensures
        decimal_value(s.take(n)) <= decimal_value(s),
    decreases s.len() - n,
{
    if n < s.len() {
        lemma_decimal_value_grows(s, n + 1);
        assert(s.take(n + 1).drop_last() =~= s.take(n));
        assert(has_kind(s[n], CharKind::Digit));
    } else {
        assert(s.take(n) =~= s);
    }
}

/// The number that the decimal digits of `s` spell, where it fits in a `u32`.
pub fn read_number(s: &[char]) -> (r: Option<u32>)
    requires
        spec_is_number(s@),
    ensures
        r is Some <==> decimal_value(s@) <= u32::MAX,
        r is Some ==> r->0 == decimal_value(s@),
{
    let mut value: u64 = 0;
    let mut i: usize = 0;
    while i < s.len()
        invariant
            i <= s@.len(),
            spec_is_number(s@),
            value == decimal_value(s@.take(i as int)),
            value <= u32::MAX,
        decreases s@.len() - i,
    {
        assert(s@.take(i + 1).drop_last() =~= s@.take(i as int));
        assert(has_kind(s@[i as int], CharKind::Digit));
        let digit: u64 = (s[i] as u32 - '0' as u32) as u64;
        value = value * 10 + digit;
        if value > u32::MAX as u64 {
            proof {
                lemma_decimal_value_grows(s@, i + 1);
            }
            return None;
        }
        i += 1;
    }
    assert(s@.take(i as int) =~= s@);
    Some(value as u32)
}

/// The characters of `s`.
pub fn to_chars(s: &str) -> (chars: Vec<char>)
    ensures
        chars@ == s@,
{
    let mut chars: Vec<char> = Vec::new();
    for c in it: s.chars()
        invariant
            chars@ == it.seq().take(it.index() as int),
    {
        chars.push(c);
    }
    chars
}

} // verus!
