//! Texts, and what a turn does with them.
use crate::bytes::{decimal, has_at, is_delimiter, lemma_token_end, token_end};
use crate::grammar::{Event, SkipUntil, State, Turn};
use vstd::prelude::*;

verus! {

/// The bytes of an ASCII text.
pub open spec fn text(s: Seq<char>) -> Seq<u8> {
    Seq::new(s.len(), |i: int| s[i] as u8)
}

/// A byte, followed by other bytes.
pub open spec fn then_bytes(c: char, rest: Seq<u8>) -> Seq<u8> {
    seq![c as u8] + rest
}

/// Whether bytes start with a byte.
pub open spec fn starts(b: Seq<u8>, c: char) -> bool {
    b.len() > 0 && b[0] == c as u8
}

/// Whether bytes start with others.
pub open spec fn starts_with(b: Seq<u8>, prefix: Seq<u8>) -> bool {
    exists|rest: Seq<u8>| b == #[trigger] (prefix + rest)
}

/// Whether bytes hold a byte.
pub open spec fn holds_byte(b: Seq<u8>, c: char) -> bool {
    exists|i: int| 0 <= i < b.len() && #[trigger] b[i] == c as u8
}

/// A turn that drops bytes and reports nothing.
pub open spec fn drops(consumed: int, state: State) -> Turn {
    Turn { consumed, state, pending: None, event: Event::Nothing }
}

/// A turn that drops bytes, and leaves it to the next turns to drop bytes before
/// the next `needle`.
pub open spec fn drops_before(consumed: int, needle: char, state: State) -> Turn {
    let skip = SkipUntil { needle: needle as u8, inclusive: false };
    Turn { consumed, state, pending: Some(skip), event: Event::Nothing }
}

/// A turn that drops bytes, and leaves it to the next turns to drop bytes up to
/// and including the next `needle`.
pub open spec fn drops_past(consumed: int, needle: char, state: State) -> Turn {
    let skip = SkipUntil { needle: needle as u8, inclusive: true };
    Turn { consumed, state, pending: Some(skip), event: Event::Nothing }
}

/// A turn that drops bytes and reports an event.
pub open spec fn reports(consumed: int, state: State, event: Event<Seq<u8>>) -> Turn {
    Turn { consumed, state, pending: None, event }
}

/// The bytes at which a word of movetext ends.
pub open spec fn ends_word(byte: u8) -> bool {
    ||| byte == ' ' as u8
    ||| byte == '\t' as u8
    ||| byte == '\n' as u8
    ||| byte == '\r' as u8
    ||| byte == '{' as u8
    ||| byte == '}' as u8
    ||| byte == '(' as u8
    ||| byte == ')' as u8
    ||| byte == '!' as u8
    ||| byte == '?' as u8
    ||| byte == '$' as u8
    ||| byte == ';' as u8
    ||| byte == '.' as u8
}

/// Whether bytes are a word as it goes on after its first byte.
pub open spec fn is_tail(tail: Seq<u8>) -> bool {
    forall|i: int| 0 <= i < tail.len() ==> !ends_word(#[trigger] tail[i])
}

/// Whether a word ends before what is left.
pub open spec fn is_cut(rest: Seq<u8>) -> bool {
    rest.len() > 0 ==> ends_word(rest[0])
}

/// Whether a byte is a decimal digit.
pub open spec fn is_digit(byte: u8) -> bool {
    '0' as u8 <= byte <= '9' as u8
}

/// Whether bytes are a decimal number.
pub open spec fn is_number(digits: Seq<u8>) -> bool {
    digits.len() > 0 && forall|i: int| 0 <= i < digits.len() ==> is_digit(#[trigger] digits[i])
}

/// The number that decimal digits stand for.
pub open spec fn value_of(digits: Seq<u8>) -> int
    decreases digits.len(),
{
    if digits.len() == 0 {
        0
    } else {
        10 * value_of(digits.drop_last()) + (digits.last() - '0' as u8)
    }
}

/// `decimal` is the number that decimal digits stand for.
pub proof fn lemma_value(digits: Seq<u8>)
    ensures
        decimal(digits) == value_of(digits),
    decreases digits.len(),
{
    if digits.len() > 0 {
        lemma_value(digits.drop_last());
    }
}

/// Where a word ends.
pub proof fn lemma_word(first: u8, tail: Seq<u8>, rest: Seq<u8>)
    requires
        is_tail(tail),
        is_cut(rest),
    ensures
        token_end(seq![first] + tail + rest, 1) == tail.len() + 1,
        (seq![first] + tail + rest).take(tail.len() as int + 1) == seq![first] + tail,
        (seq![first] + tail + rest).subrange(1, tail.len() as int + 1) == tail,
{
    let b = seq![first] + tail + rest;
    let end = tail.len() as int + 1;
    lemma_token_end(b, 1);
    let found = token_end(b, 1);
    if found < end {
        assert(b[found] == tail[found - 1]);
        assert(is_delimiter(b[found]));
        assert(ends_word(tail[found - 1]));
    }
    if found > end {
        assert(b[end] == rest[0]);
    }
    assert(b.take(end) =~= seq![first] + tail);
    assert(b.subrange(1, end) =~= tail);
}

/// Each word can be told apart from what comes after it.
pub proof fn lemma_split(b: Seq<u8>) -> (parts: (Seq<u8>, Seq<u8>))
    requires
        b.len() > 0,
    ensures
        is_tail(parts.0),
        is_cut(parts.1),
        b == seq![b[0]] + parts.0 + parts.1,
{
    lemma_token_end(b, 1);
    let end = token_end(b, 1);
    let tail = b.subrange(1, end);
    let rest = b.skip(end);
    assert forall|i: int| 0 <= i < tail.len() implies !ends_word(#[trigger] tail[i]) by {
        assert(!is_delimiter(b[i + 1]));
    }
    assert(b =~= seq![b[0]] + tail + rest);
    (tail, rest)
}

/// `has_at` says that bytes stand at a position.
pub proof fn lemma_has_at(b: Seq<u8>, from: int, prefix: Seq<u8>)
    requires
        0 <= from,
    ensures
        has_at(b, from, prefix) <==> from + prefix.len() <= b.len() && b.subrange(
            from,
            from + prefix.len(),
        ) == prefix,
{
    if from + prefix.len() <= b.len() {
        let part = b.subrange(from, from + prefix.len());
        if has_at(b, from, prefix) {
            assert forall|i: int| 0 <= i < prefix.len() implies part[i] == prefix[i] by {
                assert(b[from + i] == prefix[i]);
            }
            assert(part =~= prefix);
        }
        if part == prefix {
            assert forall|i: int| 0 <= i < prefix.len() implies b[from + i]
                == #[trigger] prefix[i] by {
                assert(part[i] == prefix[i]);
            }
        }
    }
}

/// Bytes that start with others hold them at their front.
pub proof fn lemma_starts_with(b: Seq<u8>, prefix: Seq<u8>)
    ensures
        starts_with(b, prefix) <==> prefix.len() <= b.len() && b.take(prefix.len() as int)
            == prefix,
{
    if prefix.len() <= b.len() && b.take(prefix.len() as int) == prefix {
        assert(b =~= prefix + b.skip(prefix.len() as int));
    }
    if starts_with(b, prefix) {
        let rest = choose|rest: Seq<u8>| b == #[trigger] (prefix + rest);
        assert((prefix + rest).take(prefix.len() as int) =~= prefix);
    }
}

} // verus!
