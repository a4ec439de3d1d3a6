//! What is written is what is read.
use crate::ascii::{
    BACKSLASH, BRACE, BRACKET, CLOSE_BRACE, CLOSE_BRACKET, DOLLAR, LF, QUOTE, SPACE,
};
use crate::bytes::{
    all_digits, decimal, is_delimiter, lemma_find_some, lemma_token_end, quoted_end, token_end,
};
use crate::grammar::{Event, State, tell, turn_in};
use crate::types::Nag;
use vstd::prelude::*;

verus! {

/// How the value of a header is written: with a backslash before each quote and
/// each backslash.
pub open spec fn escaped(value: Seq<u8>) -> Seq<u8>
    decreases value.len(),
{
    if value.len() == 0 {
        seq![]
    } else if value.last() == QUOTE || value.last() == BACKSLASH {
        escaped(value.drop_last()) + seq![BACKSLASH, value.last()]
    } else {
        escaped(value.drop_last()) + seq![value.last()]
    }
}

/// How a header is written.
pub open spec fn header_text(key: Seq<u8>, value: Seq<u8>) -> Seq<u8> {
    seq![BRACKET] + key + seq![SPACE, QUOTE] + escaped(value) + seq![QUOTE, CLOSE_BRACKET]
}

/// An escaped value does not end a quoted text.
pub proof fn lemma_escaped(s: Seq<u8>, from: int, value: Seq<u8>)
    requires
        0 <= from,
        from + escaped(value).len() <= s.len(),
        s.subrange(from, from + escaped(value).len()) == escaped(value),
        !value.contains(LF),
    ensures
        quoted_end(s, from) == quoted_end(s, from + escaped(value).len()),
    decreases value.len(),
{
    if value.len() > 0 {
        let front = value.drop_last();
        let text = escaped(value);
        let n = escaped(front).len();
        assert(s.subrange(from, from + n) =~= s.subrange(from, from + text.len()).take(n as int));
        assert(text.take(n as int) =~= escaped(front));
        assert(!front.contains(LF)) by {
            if front.contains(LF) {
                let i = choose|i: int| 0 <= i < front.len() && front[i] == LF;
                assert(value[i] == LF);
            }
        }
        lemma_escaped(s, from, front);
        assert(value[value.len() - 1] != LF);
        assert(s[from + n] == s.subrange(from, from + text.len())[n as int]);
        assert(s[from + n] == text[n as int]);
        if value.last() == QUOTE || value.last() == BACKSLASH {
            assert(text[n as int] == BACKSLASH);
        } else {
            assert(text[n as int] == value.last());
        }
    }
}

/// A header is read as it was written: with its key, and with its value, in which
/// quotes and backslashes are still escaped.
pub proof fn a_header_is_read(key: Seq<u8>, value: Seq<u8>, rest: Seq<u8>)
    requires
        !key.contains(QUOTE),
        !key.contains(LF),
        !key.contains(CLOSE_BRACKET),
        !value.contains(LF),
    ensures
        turn_in(State::Headers, header_text(key, value) + rest) == tell(
            header_text(key, value).len() - 1,
            State::Ket,
            Event::Header { key, value: escaped(value) },
        ),
{
    let b = header_text(key, value) + rest;
    let quote = key.len() + 2;
    let start = quote + 1;
    let end = start + escaped(value).len();
    assert(b[0] == BRACKET);
    assert(b[quote as int] == QUOTE);
    assert(b[quote - 1] == SPACE);
    assert forall|j: int| 1 <= j < quote implies b[j] != QUOTE && b[j] != LF && b[j]
        != CLOSE_BRACKET by {
        if j < quote - 1 {
            assert(b[j] == key[j - 1]);
            assert(key.contains(key[j - 1]));
        }
    }
    lemma_find_some(b, QUOTE, LF, CLOSE_BRACKET, 1, quote as int);
    assert(b.subrange(start as int, end as int) =~= escaped(value));
    lemma_escaped(b, start as int, value);
    assert(b[end as int] == QUOTE);
    assert(quoted_end(b, end as int) == Some(end as int));
    assert(b.subrange(1, quote - 1) =~= key);
}

/// A comment is read as it was written.
pub proof fn a_comment_is_read(comment: Seq<u8>, rest: Seq<u8>)
    requires
        !comment.contains(CLOSE_BRACE),
    ensures
        turn_in(State::Movetext, seq![BRACE] + comment + seq![CLOSE_BRACE] + rest) == tell(
            comment.len() as int + 2,
            State::Movetext,
            Event::Comment(comment),
        ),
{
    let b = seq![BRACE] + comment + seq![CLOSE_BRACE] + rest;
    let end = comment.len() + 1;
    assert(b[0] == BRACE);
    assert(b[end as int] == CLOSE_BRACE);
    assert forall|j: int| 1 <= j < end implies b[j] != CLOSE_BRACE by {
        assert(b[j] == comment[j - 1]);
        assert(comment.contains(comment[j - 1]));
    }
    lemma_find_some(b, CLOSE_BRACE, CLOSE_BRACE, CLOSE_BRACE, 1, end as int);
    assert(b.subrange(1, end as int) =~= comment);
}

/// An annotation is read as it was written, if its number is one from 0 to 255.
pub proof fn a_nag_is_read(digits: Seq<u8>, rest: Seq<u8>)
    requires
        digits.len() > 0,
        all_digits(digits),
        decimal(digits) <= u8::MAX,
        rest.len() > 0 ==> is_delimiter(rest[0]),
    ensures
        turn_in(State::Movetext, seq![DOLLAR] + digits + rest) == tell(
            digits.len() as int + 1,
            State::Movetext,
            Event::Nag(Nag(decimal(digits) as u8)),
        ),
{
    let b = seq![DOLLAR] + digits + rest;
    let end = digits.len() + 1;
    assert(b[0] == DOLLAR);
    lemma_token_end(b, 1);
    let found = token_end(b, 1);
    if found < end {
        assert(b[found] == digits[found - 1]);
    }
    if found > end {
        assert(b[end as int] == rest[0]);
    }
    assert(b.subrange(1, end as int) =~= digits);
}

} // verus!
