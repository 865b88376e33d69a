//! Character-level reading of short texts: the characters of a string,
//! decimal digits, and the search for a character or a marker.

use vstd::prelude::*;
use vstd::slice::*;
use vstd::std_specs::iter::IteratorSpec;
use vstd::string::*;

verus! {

broadcast use {vstd::string::group_string_axioms, vstd::slice::group_slice_axioms};

pub open spec fn is_digit(c: char) -> bool {
    '0' <= c <= '9'
}

/// The number a decimal digit stands for; zero for any other character.
pub open spec fn digit_value(c: char) -> nat {
    if is_digit(c) {
        (c as int - '0' as int) as nat
    } else {
        0
    }
}

pub open spec fn all_digits(s: Seq<char>) -> bool {
    forall|i: int| 0 <= i < s.len() ==> is_digit(#[trigger] s[i])
}

/// The number that a run of decimal digits denotes, most significant digit
/// first. The empty run denotes zero.
pub open spec fn decimal_value(s: Seq<char>) -> nat
    decreases s.len(),
{
    if s.len() == 0 {
        0
    } else {
        10 * decimal_value(s.drop_last()) + digit_value(s.last())
    }
}

/// What a run of digits denotes, provided that it is not empty, holds only
/// digits and denotes no more than `limit`.
pub open spec fn digits_within(s: Seq<char>, limit: nat) -> Option<nat> {
    if s.len() > 0 && all_digits(s) && decimal_value(s) <= limit {
        Some(decimal_value(s))
    } else {
        None
    }
}

/// An unsigned decimal literal: an optional `+`, then at least one digit.
pub open spec fn unsigned_literal(s: Seq<char>, limit: nat) -> Option<nat> {
    if s.len() > 0 && s[0] == '+' {
        digits_within(s.drop_first(), limit)
    } else {
        digits_within(s, limit)
    }
}

/// A signed decimal literal in the range of `i32`: an optional `+` or `-`,
/// then at least one digit.
pub open spec fn signed_literal(s: Seq<char>) -> Option<int> {
    if s.len() > 0 && s[0] == '-' {
        match digits_within(s.drop_first(), 0x8000_0000) {
            Some(v) => Some(-(v as int)),
            None => None,
        }
    } else {
        match unsigned_literal(s, 0x7fff_ffff) {
            Some(v) => Some(v as int),
            None => None,
        }
    }
}

/// The index of the first `x` in `s`; the length of `s` where there is none.
pub open spec fn first_position<A>(s: Seq<A>, x: A) -> int
    decreases s.len(),
{
    if s.len() == 0 {
        0
    } else if s[0] == x {
        0
    } else {
        1 + first_position(s.drop_first(), x)
    }
}

/// `marker` stands in `s` at index `i`.
pub open spec fn occurs_at(s: Seq<char>, marker: Seq<char>, i: int) -> bool {
    &&& 0 <= i
    &&& i + marker.len() <= s.len()
    &&& s.subrange(i, i + marker.len()) == marker
}

/// Where `marker` first stands in `s` at or behind index `from`; the length
/// of `s` plus one where it does not.
pub open spec fn first_occurrence_from(s: Seq<char>, marker: Seq<char>, from: int) -> int
    decreases s.len() + 1 - from,
{
    if from < 0 || from + marker.len() > s.len() {
        s.len() as int + 1
    } else if occurs_at(s, marker, from) {
        from
    } else {
        first_occurrence_from(s, marker, from + 1)
    }
}

/// Where `marker` first stands in `s`, if it stands there at all.
pub open spec fn first_occurrence(s: Seq<char>, marker: Seq<char>) -> Option<int> {
    let at = first_occurrence_from(s, marker, 0);
    if at <= s.len() {
        Some(at)
    } else {
        None
    }
}

/// The number of bytes that a character takes in UTF-8.
pub open spec fn utf8_len(c: char) -> nat {
    if (c as u32) < 0x80 {
        1
    } else if (c as u32) < 0x800 {
        2
    } else if (c as u32) < 0x1_0000 {
        3
    } else {
        4
    }
}

/// The index of the character that begins at byte `offset` of the text in
/// UTF-8. Where no character begins there (the offset lies within a
/// character, or beyond the end of the text) it is the length plus one; the
/// end of the text counts as a beginning.
pub open spec fn char_index_at_byte(s: Seq<char>, offset: int) -> int
    decreases s.len(),
{
    if offset == 0 {
        0
    } else if offset < 0 || s.len() == 0 {
        s.len() as int + 1
    } else {
        1 + char_index_at_byte(s.drop_first(), offset - utf8_len(s[0]))
    }
}

/// A longer run of digits denotes at least what each of its prefixes denotes.
pub proof fn lemma_decimal_value_grows(s: Seq<char>, n: int)
    requires
        0 <= n <= s.len(),
    ensures
        decimal_value(s.take(n)) <= decimal_value(s),
    decreases s.len(),
{
    if n == s.len() {
        assert(s.take(n) =~= s);
    } else {
        assert(s.drop_last().take(n) =~= s.take(n));
        lemma_decimal_value_grows(s.drop_last(), n);
    }
}

/// Zeros in front of a run of digits do not change what it denotes.
pub proof fn lemma_leading_zero(s: Seq<char>)
    ensures
        decimal_value(seq!['0'] + s) == decimal_value(s),
        all_digits(seq!['0'] + s) == all_digits(s),
    decreases s.len(),
{
    let padded = seq!['0'] + s;
    if s.len() == 0 {
        assert(padded.drop_last() =~= Seq::<char>::empty());
        assert(decimal_value(padded.drop_last()) == 0);
        assert(s =~= Seq::<char>::empty());
    } else {
        assert(padded.drop_last() =~= seq!['0'] + s.drop_last());
        assert(padded.last() == s.last());
        lemma_leading_zero(s.drop_last());
    }
    if all_digits(s) {
        assert forall|i: int| 0 <= i < padded.len() implies is_digit(#[trigger] padded[i]) by {
            if i > 0 {
                assert(padded[i] == s[i - 1]);
            }
        }
    }
    if all_digits(padded) {
        assert forall|i: int| 0 <= i < s.len() implies is_digit(#[trigger] s[i]) by {
            assert(padded[i + 1] == s[i]);
        }
    }
}

/// The index that `first_position` gives lies within the sequence, no
/// earlier index holds `x`, and the index itself holds it unless it is the
/// length.
pub proof fn lemma_first_position<A>(s: Seq<A>, x: A)
    ensures
        0 <= first_position(s, x) <= s.len(),
        first_position(s, x) < s.len() ==> s[first_position(s, x)] == x,
        forall|j: int| 0 <= j < first_position(s, x) ==> s[j] != x,
    decreases s.len(),
{
    if s.len() > 0 && s[0] != x {
        let rest = s.drop_first();
        lemma_first_position(rest, x);
        assert forall|j: int| 0 <= j < first_position(s, x) implies s[j] != x by {
            if j > 0 {
                assert(rest[j - 1] == s[j]);
            }
        }
    }
}

/// An index that holds `x` and has no `x` before it is the first position of
/// `x`; so is the length where no index holds `x`.
pub proof fn lemma_first_position_is<A>(s: Seq<A>, x: A, i: int)
    requires
        0 <= i <= s.len(),
        i < s.len() ==> s[i] == x,
        forall|j: int| 0 <= j < i ==> s[j] != x,
    ensures
        first_position(s, x) == i,
{
    lemma_first_position(s, x);
}

/// `first_occurrence_from` gives the least index at or behind `from` at which
/// the marker stands, and a value beyond the text exactly where there is no
/// such index.
pub proof fn lemma_first_occurrence_from(s: Seq<char>, marker: Seq<char>, from: int)
    requires
        0 <= from,
    ensures
        ({
            let at = first_occurrence_from(s, marker, from);
            &&& at <= s.len() ==> from <= at && occurs_at(s, marker, at)
            &&& at > s.len() ==> at == s.len() + 1
            &&& forall|j: int| from <= j < at ==> !occurs_at(s, marker, j)
        }),
    decreases s.len() + 1 - from,
{
    if from + marker.len() <= s.len() && !occurs_at(s, marker, from) {
        lemma_first_occurrence_from(s, marker, from + 1);
    }
}

/// The characters of `text`, in order.
pub fn chars_of(text: &str) -> (chars: Vec<char>)
    ensures
        chars@ == text@,
{
    let mut rest = text.chars();
    let mut chars: Vec<char> = Vec::new();
    loop
        invariant
            rest.obeys_prophetic_iter_laws(),
            chars@ + rest.remaining() == text@,
        ensures
            chars@ == text@,
        decreases text@.len() - chars@.len(),
    {
        let ghost before = rest.remaining();
        match rest.next() {
            Some(c) => {
                chars.push(c);
                assert(chars@ + rest.remaining() =~= text@) by {
                    assert(before =~= seq![c] + before.drop_first());
                }
            },
            None => {
                assert(chars@ =~= text@);
                break ;
            },
        }
    }
    chars
}

/// The number that the digit `c` stands for, or `None` where `c` is no digit.
pub fn digit_of(c: char) -> (digit: Option<u8>)
    ensures
        digit is Some <==> is_digit(c),
        digit matches Some(d) ==> d == digit_value(c),
{
    if '0' <= c && c <= '9' {
        Some((c as u32 - '0' as u32) as u8)
    } else {
        None
    }
}

/// Reads a run of digits as a number no larger than `limit`.
pub fn read_digits(s: &[char], limit: u64) -> (value: Option<u64>)
    ensures
        value is Some == digits_within(s@, limit as nat) is Some,
        value matches Some(v) ==> digits_within(s@, limit as nat) == Some(v as nat),
{
    if s.len() == 0 {
        return None;
    }
    let mut total: u64 = 0;
    let mut i: usize = 0;
    while i < s.len()
        invariant
            0 <= i <= s.len(),
            all_digits(s@.take(i as int)),
            total == decimal_value(s@.take(i as int)),
            total <= limit,
        decreases s.len() - i,
    {
        proof {
            assert(s@.take(i + 1).drop_last() =~= s@.take(i as int));
            assert(s@.take(i + 1).last() == s@[i as int]);
        }
        match digit_of(s[i]) {
            Some(d) => {
                proof {
                    lemma_decimal_value_grows(s@, i + 1);
                }
                let tens = match total.checked_mul(10) {
                    Some(tens) => tens,
                    None => {
                        return None;
                    },
                };
                let next = match tens.checked_add(d as u64) {
                    Some(next) => next,
                    None => {
                        return None;
                    },
                };
                if next > limit {
                    return None;
                }
                total = next;
                assert forall|j: int| 0 <= j < s@.take(i + 1).len() implies is_digit(
                    #[trigger] s@.take(i + 1)[j],
                ) by {
                    if j < i {
                        assert(s@.take(i as int)[j] == s@[j]);
                    }
                }
            },
            None => {
                return None;
            },
        }
        i += 1;
    }
    assert(s@.take(i as int) =~= s@);
    Some(total)
}

/// Reads an unsigned decimal literal no larger than `limit`.
pub fn read_unsigned(s: &[char], limit: u64) -> (value: Option<u64>)
    ensures
        value is Some == unsigned_literal(s@, limit as nat) is Some,
        value matches Some(v) ==> unsigned_literal(s@, limit as nat) == Some(v as nat),
{
    if s.len() > 0 && s[0] == '+' {
        assert(s@.subrange(1, s@.len() as int) =~= s@.drop_first());
        read_digits(slice_subrange(s, 1, s.len()), limit)
    } else {
        read_digits(s, limit)
    }
}

/// Reads an unsigned decimal literal in the range of `u32`.
pub fn read_u32(s: &[char]) -> (value: Option<u32>)
    ensures
        value is Some == unsigned_literal(s@, u32::MAX as nat) is Some,
        value matches Some(v) ==> unsigned_literal(s@, u32::MAX as nat) == Some(v as nat),
{
    match read_unsigned(s, 0xffff_ffff) {
        Some(v) => Some(v as u32),
        None => None,
    }
}

/// Reads a signed decimal literal in the range of `i32`.
pub fn read_i32(s: &[char]) -> (value: Option<i32>)
    ensures
        value is Some == signed_literal(s@) is Some,
        value matches Some(v) ==> signed_literal(s@) == Some(v as int),
{
    if s.len() > 0 && s[0] == '-' {
        assert(s@.subrange(1, s@.len() as int) =~= s@.drop_first());
        match read_digits(slice_subrange(s, 1, s.len()), 0x8000_0000) {
            Some(v) => Some((0 - v as i64) as i32),
            None => None,
        }
    } else {
        match read_unsigned(s, 0x7fff_ffff) {
            Some(v) => Some(v as i32),
            None => None,
        }
    }
}

/// The index of the first `c` in `s`, or the length of `s` where it holds
/// none.
pub fn find_char(s: &[char], c: char) -> (at: usize)
    ensures
        at == first_position(s@, c),
{
    let mut i: usize = 0;
    while i < s.len() && s[i] != c
        invariant
            0 <= i <= s.len(),
            forall|j: int| 0 <= j < i ==> s@[j] != c,
        decreases s.len() - i,
    {
        i += 1;
    }
    proof {
        lemma_first_position_is(s@, c, i as int);
    }
    i
}

/// Whether `marker` stands in `s` at index `at`.
pub fn matches_at(s: &[char], marker: &[char], at: usize) -> (found: bool)
    ensures
        found == occurs_at(s@, marker@, at as int),
{
    if marker.len() > s.len() || at > s.len() - marker.len() {
        return false;
    }
    let mut k: usize = 0;
    while k < marker.len()
        invariant
            0 <= k <= marker.len(),
            at + marker.len() <= s.len(),
            forall|j: int| 0 <= j < k ==> s@[at + j] == marker@[j],
        decreases marker.len() - k,
    {
        if s[at + k] != marker[k] {
            assert(s@.subrange(at as int, at + marker@.len())[k as int] != marker@[k as int]);
            return false;
        }
        k += 1;
    }
    assert(s@.subrange(at as int, at + marker@.len()) =~= marker@);
    true
}

/// Where `marker` first stands in `s`.
pub fn find_marker(s: &[char], marker: &[char]) -> (at: Option<usize>)
    ensures
        at is Some == first_occurrence(s@, marker@) is Some,
        at matches Some(i) ==> first_occurrence(s@, marker@) == Some(i as int),
{
    if marker.len() > s.len() {
        return None;
    }
    let last = s.len() - marker.len();
    let mut i: usize = 0;
    loop
        invariant
            0 <= i <= last,
            last + marker.len() == s.len(),
            first_occurrence_from(s@, marker@, 0) == first_occurrence_from(s@, marker@, i as int),
        decreases last - i,
    {
        if matches_at(s, marker, i) {
            return Some(i);
        }
        if i == last {
            assert(first_occurrence_from(s@, marker@, last + 1) == s@.len() + 1);
            return None;
        }
        i += 1;
    }
}

/// The number of bytes that `c` takes in UTF-8.
pub fn utf8_length(c: char) -> (bytes: usize)
    ensures
        bytes == utf8_len(c),
{
    let code = c as u32;
    if code < 0x80 {
        1
    } else if code < 0x800 {
        2
    } else if code < 0x1_0000 {
        3
    } else {
        4
    }
}

/// The index of the character that begins at byte `offset` of the text in
/// UTF-8, if one begins there.
pub fn find_byte_offset(s: &[char], offset: usize) -> (at: Option<usize>)
    ensures
        at is Some == (char_index_at_byte(s@, offset as int) <= s.len()),
        at matches Some(i) ==> i == char_index_at_byte(s@, offset as int),
{
    let mut i: usize = 0;
    let mut left: usize = offset;
    assert(s@.skip(0) =~= s@);
    loop
        invariant
            0 <= i <= s.len(),
            if char_index_at_byte(s@.skip(i as int), left as int) <= s.len() - i {
                char_index_at_byte(s@, offset as int) == i + char_index_at_byte(
                    s@.skip(i as int),
                    left as int,
                )
            } else {
                char_index_at_byte(s@, offset as int) > s.len()
            },
        decreases s.len() - i,
    {
        if left == 0 {
            return Some(i);
        }
        if i == s.len() {
            return None;
        }
        let bytes = utf8_length(s[i]);
        proof {
            let rest = s@.skip(i as int);
            assert(rest[0] == s@[i as int]);
            assert(rest.drop_first() =~= s@.skip(i + 1));
        }
        if bytes > left {
            proof {
                let after = s@.skip(i + 1);
                assert(after.len() == s.len() - i - 1);
                assert(char_index_at_byte(after, left - bytes) == after.len() + 1);
                assert(char_index_at_byte(s@.skip(i as int), left as int) == after.len() + 2);
            }
            return None;
        }
        left -= bytes;
        i += 1;
    }
}

} // verus!
