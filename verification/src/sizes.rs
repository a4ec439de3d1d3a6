//! What is too long to be read.
use crate::ascii::{BRACE, BRACKET, CLOSE_BRACE, CLOSE_BRACKET, LF, QUOTE, SPACE};
use crate::buffer::{BUFFER_SIZE, MIN_BUFFER_SIZE};
use crate::bytes::{lemma_find_some, quoted_end};
use crate::games::call;
use crate::grammar::{Event, Goal, State};
use crate::notation::{a_comment_is_read, a_header_is_read, escaped, header_text, lemma_escaped};
use crate::progress::{Dealer, dealt};
use crate::run::{Listener, Run, a_turn_drops_a_prefix, next_through, read_through};
use crate::skipping::{due, lemma_drop, past};
use crate::windows::{is_window, lemma_find_take, lemma_pending_window, lemma_quoted_end_cut};
use vstd::prelude::*;

verus! {

/// Whether a dealer fills the buffer before each turn that looks at it, and never
/// puts more into it than it can hold.
pub open spec fn keeps_to_the_buffer(dealer: Dealer) -> bool {
    forall|x: Run| is_window(#[trigger] dealer(x), x) && dealer(x) <= BUFFER_SIZE
}

/// The buffer has room for twice as many bytes as it holds at least.
pub proof fn the_buffer_has_its_size()
    ensures
        MIN_BUFFER_SIZE == 8192,
        BUFFER_SIZE == 2 * MIN_BUFFER_SIZE,
{
}

/// A comment that fits into the smallest buffer is read as it was written,
/// however the buffer is filled.
pub proof fn a_short_comment_is_read(
    r: Run,
    comment: Seq<u8>,
    rest: Seq<u8>,
    window: int,
    listener: Listener,
)
    requires
        r.state is Movetext,
        r.pending is None,
        r.input == seq![BRACE] + comment + seq![CLOSE_BRACE] + rest,
        !comment.contains(CLOSE_BRACE),
        comment.len() + 2 <= MIN_BUFFER_SIZE,
        is_window(window, r),
    ensures
        next_through(r, window, listener) == (Run {
            input: rest,
            told: r.told.push(Event::Comment(comment)),
            ..r
        }),
{
    let cut = rest.take(window - comment.len() - 2);
    assert(r.input.take(window) =~= seq![BRACE] + comment + seq![CLOSE_BRACE] + cut);
    a_comment_is_read(comment, cut);
    assert(r.input.skip(comment.len() as int + 2) =~= rest);
}

/// A header that fits into the smallest buffer is read as it was written, however
/// the buffer is filled.
pub proof fn a_short_header_is_read(
    r: Run,
    key: Seq<u8>,
    value: Seq<u8>,
    rest: Seq<u8>,
    window: int,
    listener: Listener,
)
    requires
        r.state is Headers,
        r.pending is None,
        r.input == header_text(key, value) + rest,
        !key.contains(QUOTE),
        !key.contains(LF),
        !key.contains(CLOSE_BRACKET),
        !value.contains(LF),
        header_text(key, value).len() <= MIN_BUFFER_SIZE,
        is_window(window, r),
    ensures
        next_through(r, window, listener) == (Run {
            state: State::Ket,
            input: seq![CLOSE_BRACKET] + rest,
            told: r.told.push(Event::Header { key, value: escaped(value) }),
            ..r
        }),
{
    let text = header_text(key, value);
    let cut = rest.take(window - text.len());
    assert(r.input.take(window) =~= text + cut);
    a_header_is_read(key, value, cut);
    assert(r.input.skip(text.len() - 1) =~= seq![CLOSE_BRACKET] + rest);
}

/// Turns that drop what is pending, and the turn that reports the error.
proof fn lemma_invalid(
    r: Run,
    done: Seq<int>,
    dealer: Dealer,
    listener: Listener,
) -> (windows: Seq<int>)
    requires
        dealt(r, done, dealer, listener),
        keeps_to_the_buffer(dealer),
        read_through(r, done, listener).state is Invalid,
    ensures
        ({
            let now = read_through(r, done, listener);
            &&& dealt(r, windows, dealer, listener)
            &&& read_through(r, windows, listener) == call(
                Goal::ReadGame,
                due(now),
                now.told.push(Event::InvalidData),
            )
        }),
    decreases
            read_through(r, done, listener).input.len(),
            if read_through(r, done, listener).pending is Some {
                1int
            } else {
                0int
            },
{
    let now = read_through(r, done, listener);
    let window = dealer(now);
    let more = done.push(window);
    assert(is_window(window, now));
    assert(more.drop_last() =~= done);
    if now.pending is Some {
        lemma_pending_window(now, window, listener);
        a_turn_drops_a_prefix(now.state, now.pending, now.input.take(window));
        lemma_invalid(r, more, dealer, listener)
    } else {
        assert(now.input.skip(0) =~= now.input);
        assert(read_through(r, more, listener) =~= call(
            Goal::ReadGame,
            due(now),
            now.told.push(Event::InvalidData),
        ));
        more
    }
}

/// A comment that is longer than the buffer ends in an error, however the buffer
/// is filled. Nothing of it is reported, and reading goes on after it.
pub proof fn a_long_comment_is_invalid(
    r: Run,
    comment: Seq<u8>,
    rest: Seq<u8>,
    dealer: Dealer,
    listener: Listener,
) -> (windows: Seq<int>)
    requires
        r.state is Movetext,
        r.pending is None,
        r.input == seq![BRACE] + comment + seq![CLOSE_BRACE] + rest,
        !comment.contains(CLOSE_BRACE),
        comment.len() + 1 >= BUFFER_SIZE,
        keeps_to_the_buffer(dealer),
    ensures
        dealt(r, windows, dealer, listener),
        read_through(r, windows, listener) == call(
            Goal::ReadGame,
            rest,
            r.told.push(Event::InvalidData),
        ),
{
    let s = r.input;
    let none = Seq::<int>::empty();
    let end = comment.len() as int + 1;
    assert(read_through(r, none, listener) == r);
    assert(dealt(r, none, dealer, listener));
    let window = dealer(r);
    assert(is_window(window, r));
    let done = none.push(window);
    assert(done.drop_last() =~= none);
    let now = read_through(r, done, listener);
    assert(s[0] == BRACE);
    assert(s[end] == CLOSE_BRACE);
    assert forall|j: int| 1 <= j < end implies s[j] != CLOSE_BRACE by {
        assert(s[j] == comment[j - 1]);
        assert(comment.contains(comment[j - 1]));
    }
    lemma_find_some(s, CLOSE_BRACE, CLOSE_BRACE, CLOSE_BRACE, 1, end);
    lemma_find_take(s, CLOSE_BRACE, CLOSE_BRACE, CLOSE_BRACE, 1, window);
    assert(s.take(window)[0] == BRACE);
    assert(now.state is Invalid);
    let left = s.skip(window);
    lemma_drop(left, CLOSE_BRACE, end - window);
    assert(left.skip(end - window) =~= seq![CLOSE_BRACE] + rest);
    let tail = seq![CLOSE_BRACE] + rest;
    lemma_find_some(tail, CLOSE_BRACE, CLOSE_BRACE, CLOSE_BRACE, 0, 0);
    assert(tail.skip(1) =~= rest);
    assert(due(now) == rest);
    lemma_invalid(r, done, dealer, listener)
}

/// An escaped value has no line break if the value has none.
proof fn lemma_escaped_line(value: Seq<u8>)
    requires
        !value.contains(LF),
    ensures
        forall|j: int| 0 <= j < escaped(value).len() ==> escaped(value)[j] != LF,
    decreases value.len(),
{
    if value.len() > 0 {
        let front = value.drop_last();
        assert(!front.contains(LF)) by {
            if front.contains(LF) {
                let i = choose|i: int| 0 <= i < front.len() && front[i] == LF;
                assert(value[i] == LF);
            }
        }
        lemma_escaped_line(front);
        assert(value[value.len() - 1] != LF);
        assert forall|j: int| 0 <= j < escaped(value).len() implies escaped(value)[j] != LF by {
            if j < escaped(front).len() {
                assert(escaped(value)[j] == escaped(front)[j]);
            }
        }
    }
}

/// A header that is longer than the buffer ends in an error, however the buffer
/// is filled. Nothing of it is reported, and reading goes on with the next line.
pub proof fn a_long_header_is_invalid(
    r: Run,
    key: Seq<u8>,
    value: Seq<u8>,
    rest: Seq<u8>,
    dealer: Dealer,
    listener: Listener,
) -> (windows: Seq<int>)
    requires
        r.state is Headers,
        r.pending is None,
        r.input == header_text(key, value) + rest,
        !key.contains(QUOTE),
        !key.contains(LF),
        !key.contains(CLOSE_BRACKET),
        !value.contains(LF),
        header_text(key, value).len() - 2 >= BUFFER_SIZE,
        keeps_to_the_buffer(dealer),
    ensures
        dealt(r, windows, dealer, listener),
        read_through(r, windows, listener) == call(
            Goal::ReadGame,
            past(rest, LF),
            r.told.push(Event::InvalidData),
        ),
{
    let s = r.input;
    let text = header_text(key, value);
    let none = Seq::<int>::empty();
    assert(read_through(r, none, listener) == r);
    assert(dealt(r, none, dealer, listener));
    let window = dealer(r);
    assert(is_window(window, r));
    let done = none.push(window);
    assert(done.drop_last() =~= none);
    let now = read_through(r, done, listener);
    let quote = key.len() as int + 2;
    let start = quote + 1;
    let end = start + escaped(value).len();
    assert(s[0] == BRACKET);
    assert(s[quote] == QUOTE);
    assert(s[quote - 1] == SPACE);
    assert forall|j: int| 1 <= j < quote implies s[j] != QUOTE && s[j] != LF && s[j]
        != CLOSE_BRACKET by {
        if j < quote - 1 {
            assert(s[j] == key[j - 1]);
            assert(key.contains(key[j - 1]));
        }
    }
    lemma_find_some(s, QUOTE, LF, CLOSE_BRACKET, 1, quote);
    lemma_find_take(s, QUOTE, LF, CLOSE_BRACKET, 1, window);
    assert(s.subrange(start, end) =~= escaped(value));
    lemma_escaped(s, start, value);
    assert(s[end] == QUOTE);
    assert(quoted_end(s, end) == Some(end));
    lemma_quoted_end_cut(s, start, window);
    assert(s.take(window)[0] == BRACKET);
    if quote < window {
        assert(s.take(window)[quote] == QUOTE);
    }
    assert(now.state is Invalid);
    let left = s.skip(window);
    let n = text.len() - window;
    lemma_escaped_line(value);
    assert forall|j: int| 0 <= j < n implies left[j] != LF by {
        let i = window + j;
        assert(left[j] == text[i]);
        if 1 <= i < quote {
            assert(s[i] == text[i]);
        } else if start <= i < end {
            assert(text[i] == escaped(value)[i - start]);
        }
    }
    lemma_drop(left, LF, n);
    assert(left.skip(n) =~= rest);
    assert(due(now) == past(rest, LF));
    lemma_invalid(r, done, dealer, listener)
}

} // verus!
