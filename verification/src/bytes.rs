//! Searching in byte strings.
use crate::ascii::{
    BACKSLASH, BANG, BRACE, CLOSE_BRACE, CLOSE_PAREN, CR, DOLLAR, DOT, LF, NINE, PAREN, QUERY,
    QUOTE, SEMICOLON, SPACE, TAB, ZERO,
};
use vstd::prelude::*;

verus! {

/// The first position from `from` on at which `s` holds one of three bytes.
pub open spec fn find(s: Seq<u8>, a: u8, b: u8, c: u8, from: int) -> Option<int>
    decreases s.len() - from,
{
    if from < 0 || from >= s.len() {
        None
    } else if s[from] == a || s[from] == b || s[from] == c {
        Some(from)
    } else {
        find(s, a, b, c, from + 1)
    }
}

/// The first position at which `s` holds a byte.
pub open spec fn find_byte(s: Seq<u8>, needle: u8) -> Option<int> {
    find(s, needle, needle, needle, 0)
}

/// Whether the bytes of `s` from `from` on start with `prefix`.
pub open spec fn has_at(s: Seq<u8>, from: int, prefix: Seq<u8>) -> bool {
    &&& from + prefix.len() <= s.len()
    &&& forall|i: int| 0 <= i < prefix.len() ==> s[from + i] == #[trigger] prefix[i]
}

/// Whether `s` holds a byte at a position.
pub open spec fn byte_at(s: Seq<u8>, i: int, byte: u8) -> bool {
    0 <= i < s.len() && s[i] == byte
}

/// The bytes that end a token.
pub open spec fn is_delimiter(byte: u8) -> bool {
    ||| byte == SPACE
    ||| byte == TAB
    ||| byte == LF
    ||| byte == CR
    ||| byte == BRACE
    ||| byte == CLOSE_BRACE
    ||| byte == PAREN
    ||| byte == CLOSE_PAREN
    ||| byte == BANG
    ||| byte == QUERY
    ||| byte == DOLLAR
    ||| byte == SEMICOLON
    ||| byte == DOT
}

/// The first position from `from` on at which `s` holds a delimiter, or the
/// length of `s`.
pub open spec fn token_end(s: Seq<u8>, from: int) -> int
    decreases s.len() - from,
{
    if from < 0 || from >= s.len() {
        s.len() as int
    } else if is_delimiter(s[from]) {
        from
    } else {
        token_end(s, from + 1)
    }
}

/// The end of a quoted text that starts at `from`: the first quote or line
/// break that is not preceded by a backslash, where a backslash takes the byte
/// after it along, whatever it is.
pub open spec fn quoted_end(s: Seq<u8>, from: int) -> Option<int>
    decreases s.len() + 1 - from,
{
    if from < 0 || from >= s.len() {
        None
    } else if s[from] == BACKSLASH {
        quoted_end(s, from + 2)
    } else if s[from] == QUOTE || s[from] == LF {
        Some(from)
    } else {
        quoted_end(s, from + 1)
    }
}

/// Whether all bytes of `s` are decimal digits.
pub open spec fn all_digits(s: Seq<u8>) -> bool {
    forall|i: int| 0 <= i < s.len() ==> ZERO <= #[trigger] s[i] <= NINE
}

/// The number that a string of decimal digits stands for.
pub open spec fn decimal(s: Seq<u8>) -> int
    decreases s.len(),
{
    if s.len() == 0 {
        0
    } else {
        decimal(s.drop_last()) * 10 + (s.last() - ZERO)
    }
}

/// The number from 0 to 255 that `s` stands for, if it does.
pub open spec fn small_number(s: Seq<u8>) -> Option<u8> {
    if s.len() > 0 && all_digits(s) && decimal(s) <= u8::MAX {
        Some(decimal(s) as u8)
    } else {
        None
    }
}

/// `memchr::memchr`: the first position of a byte, if it occurs.
pub assume_specification[ memchr::memchr ](needle: u8, haystack: &[u8]) -> (found: Option<usize>)
    ensures
        match found {
            Some(i) => i < haystack@.len() && haystack@[i as int] == needle && forall|j: int|
                0 <= j < i ==> haystack@[j] != needle,
            None => forall|j: int| 0 <= j < haystack@.len() ==> haystack@[j] != needle,
        },
;

/// `memchr::memchr3`: the first position of one of three bytes, if one of them
/// occurs.
pub assume_specification[ memchr::memchr3 ](
    needle1: u8,
    needle2: u8,
    needle3: u8,
    haystack: &[u8],
) -> (found: Option<usize>)
    ensures
        match found {
            Some(i) => i < haystack@.len() && (haystack@[i as int] == needle1 || haystack@[i as int]
                == needle2 || haystack@[i as int] == needle3) && forall|j: int|
                0 <= j < i ==> haystack@[j] != needle1 && haystack@[j] != needle2 && haystack@[j]
                    != needle3,
            None => forall|j: int|
                0 <= j < haystack@.len() ==> haystack@[j] != needle1 && haystack@[j] != needle2
                    && haystack@[j] != needle3,
        },
;

/// `btoi::btou` for `u8`: the number that a string of decimal digits stands
/// for. It fails if the string is empty, holds any other byte (a sign, too), or
/// if the number is above 255.
#[verifier::external_body]
pub(crate) fn btou(bytes: &[u8]) -> (number: Option<u8>)
    ensures
        number == small_number(bytes@),
{
    btoi::btou::<u8>(bytes).ok()
}

/// Where a byte was found first, and nowhere before, `find` gives its position.
pub proof fn lemma_find_some(s: Seq<u8>, a: u8, b: u8, c: u8, from: int, i: int)
    requires
        0 <= from <= i < s.len(),
        s[i] == a || s[i] == b || s[i] == c,
        forall|j: int| from <= j < i ==> s[j] != a && s[j] != b && s[j] != c,
    ensures
        find(s, a, b, c, from) == Some(i),
    decreases i - from,
{
    if from < i {
        lemma_find_some(s, a, b, c, from + 1, i);
    }
}

/// Where none of the bytes occurs, `find` gives none.
pub proof fn lemma_find_none(s: Seq<u8>, a: u8, b: u8, c: u8, from: int)
    requires
        0 <= from <= s.len(),
        forall|j: int| from <= j < s.len() ==> s[j] != a && s[j] != b && s[j] != c,
    ensures
        find(s, a, b, c, from) is None,
    decreases s.len() - from,
{
    if from < s.len() {
        lemma_find_none(s, a, b, c, from + 1);
    }
}

/// What `find` gives is the first position of one of the bytes.
pub proof fn lemma_find(s: Seq<u8>, a: u8, b: u8, c: u8, from: int)
    requires
        0 <= from <= s.len(),
    ensures
        match find(s, a, b, c, from) {
            Some(i) => from <= i < s.len() && (s[i] == a || s[i] == b || s[i] == c) && forall|
                j: int,
            |
                from <= j < i ==> s[j] != a && s[j] != b && s[j] != c,
            None => forall|j: int| from <= j < s.len() ==> s[j] != a && s[j] != b && s[j] != c,
        },
    decreases s.len() - from,
{
    if from < s.len() {
        lemma_find(s, a, b, c, from + 1);
    }
}

/// `token_end` is at most the length.
pub proof fn lemma_token_end(s: Seq<u8>, from: int)
    requires
        0 <= from <= s.len(),
    ensures
        from <= token_end(s, from) <= s.len(),
        forall|j: int| from <= j < token_end(s, from) ==> !is_delimiter(s[j]),
        token_end(s, from) < s.len() ==> is_delimiter(s[token_end(s, from)]),
    decreases s.len() - from,
{
    if from < s.len() {
        lemma_token_end(s, from + 1);
    }
}

/// A quoted text ends where a quote or a line break stands.
pub proof fn lemma_quoted_end(s: Seq<u8>, from: int)
    requires
        0 <= from,
    ensures
        quoted_end(s, from) matches Some(i) ==> from <= i < s.len() && (s[i] == QUOTE || s[i]
            == LF),
    decreases s.len() + 1 - from,
{
    if from < s.len() {
        lemma_quoted_end(s, from + 1);
        lemma_quoted_end(s, from + 2);
    }
}

} // verus!
