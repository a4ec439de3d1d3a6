//! Reading gets on, and comes to an end.
use crate::ascii::{BRACE, CLOSE_BRACE, CLOSE_BRACKET, CR, LF, QUOTE, SEMICOLON};
use crate::bytes::{byte_at, find, lemma_find, lemma_quoted_end, lemma_token_end};
use crate::grammar::{Event, State, turn};
use crate::run::{
    Listener, Run, Told, a_turn_drops_a_prefix, lemma_read_through_add, next_through, read_through,
    reads_variations, skips_movetext,
};
use crate::windows::{filled, is_window, nothing_is_lost};
use vstd::prelude::*;

verus! {

/// Whether an event is the last that a call reports.
pub open spec fn ends(event: Event<Seq<u8>>) -> bool {
    event is EndGame || event is NoGame || event is HasMore || event is InvalidData
}

/// Whether, since `before` was reported, no call has come to its end.
pub open spec fn no_end_since(before: Told, now: Told) -> bool {
    forall|i: int| before.len() <= i < now.len() ==> !ends(#[trigger] now[i])
}

/// What is reported in the next turn.
pub open spec fn next_event(r: Run, window: int) -> Event<Seq<u8>> {
    turn(r.state, r.pending, r.input.take(window)).event
}

/// Whether a line break and a carriage return stand at a position, without a
/// second line break.
pub open spec fn half_empty_line_at(s: Seq<u8>, i: int) -> bool {
    byte_at(s, i, LF) && byte_at(s, i + 1, CR) && !byte_at(s, i + 2, LF)
}

/// Whether a variation is being skipped and cannot be skipped further.
pub open spec fn is_stuck(r: Run) -> bool {
    r.pending is None && r.state is SkipVariation && half_empty_line_at(r.input, 0)
}

/// How many states can still be passed without dropping a byte.
pub open spec fn rank_of(state: State) -> nat {
    match state {
        State::Bom(_) => 12,
        State::Blank(_) => 11,
        State::Start(_) => 10,
        State::BeginHeaders => 9,
        State::Ket => 8,
        State::Headers => 7,
        State::EndHeaders => 6,
        State::BeginVariation => 5,
        State::SkipVariation { .. } => 4,
        State::Movetext => 3,
        State::SkipMovetext => 3,
        State::Trailing => 2,
        State::Invalid => 1,
    }
}

/// How many turns can still pass without dropping a byte, at most.
pub open spec fn rank(r: Run) -> nat {
    match r.pending {
        Some(skip) => if skip.inclusive && r.input.len() > 0 {
            0
        } else {
            2 * rank_of(r.state) + 1
        },
        None => 2 * rank_of(r.state),
    }
}

/// Each turn drops a byte, or brings the next turn that does so nearer, or is
/// the last. The one exception is a variation that is being skipped, at a line
/// break and a carriage return without a second line break.
pub proof fn every_turn_gets_on(r: Run, window: int, listener: Listener)
    requires
        is_window(window, r),
        !is_stuck(r),
    ensures
        ({
            let after = next_through(r, window, listener);
            ||| ends(next_event(r, window))
            ||| after.input.len() < r.input.len()
            ||| after.input.len() == r.input.len() && rank(after) < rank(r)
        }),
{
    let s = r.input;
    let b = s.take(window);
    let t = turn(r.state, r.pending, b);
    a_turn_drops_a_prefix(r.state, r.pending, b);
    assert(s.skip(t.consumed).len() == s.len() - t.consumed);
    match r.pending {
        Some(skip) => {
            lemma_find(b, skip.needle, skip.needle, skip.needle, 0);
        },
        None => {
            if b.len() > 0 {
                lemma_token_end(b, 1);
                lemma_find(b, QUOTE, LF, CLOSE_BRACKET, 1);
                lemma_find(b, LF, BRACE, SEMICOLON, 1);
                lemma_find(b, CLOSE_BRACE, CLOSE_BRACE, CLOSE_BRACE, 1);
                if let Some(i) = find(b, QUOTE, LF, CLOSE_BRACKET, 1) {
                    lemma_quoted_end(b, i + 1);
                }
            }
            assert(forall|i: int| 0 <= i < b.len() ==> b[i] == s[i]);
        },
    }
}

/// Whether skipping a variation will not get stuck: there is nothing to get stuck
/// at, or no variation is skipped, or all movetext is.
pub open spec fn stays_unstuck(r: Run, listener: Listener) -> bool {
    ||| forall|i: int| !#[trigger] half_empty_line_at(r.input, i)
    ||| reads_variations(listener) && !(r.state is SkipVariation)
    ||| skips_movetext(listener) && !(r.state is Movetext || r.state is BeginVariation
        || r.state is SkipVariation)
}

/// Reading on does not get stuck later, either.
pub proof fn lemma_stays_unstuck(r: Run, window: int, listener: Listener)
    requires
        is_window(window, r),
        stays_unstuck(r, listener),
    ensures
        stays_unstuck(next_through(r, window, listener), listener),
        !is_stuck(r),
{
    let b = r.input.take(window);
    let t = turn(r.state, r.pending, b);
    let after = next_through(r, window, listener);
    a_turn_drops_a_prefix(r.state, r.pending, b);
    if forall|i: int| !#[trigger] half_empty_line_at(r.input, i) {
        assert(!half_empty_line_at(r.input, 0));
        assert forall|i: int| !#[trigger] half_empty_line_at(after.input, i) by {
            assert(!half_empty_line_at(r.input, i + t.consumed));
        }
    } else if t.event is BeginVariation {
        assert(after.told.last() is BeginVariation);
        if reads_variations(listener) {
            assert(!listener(after.told).0);
        }
    } else if t.event is EndHeaders {
        assert(after.told.last() is EndHeaders);
        if skips_movetext(listener) {
            assert(listener(after.told).0);
        }
    }
}

/// If no call has come to its end, none had before the last turn, and the last
/// turn does not end one.
pub proof fn lemma_before_last(r: Run, windows: Seq<int>, listener: Listener)
    requires
        filled(r, windows, listener),
        windows.len() > 0,
        no_end_since(r.told, read_through(r, windows, listener).told),
    ensures
        ({
            let now = read_through(r, windows.drop_last(), listener);
            &&& no_end_since(r.told, now.told)
            &&& !ends(next_event(now, windows.last()))
        }),
{
    let front = windows.drop_last();
    let now = read_through(r, front, listener);
    let after = read_through(r, windows, listener);
    let event = next_event(now, windows.last());
    nothing_is_lost(r, front, listener);
    assert forall|i: int| r.told.len() <= i < now.told.len() implies !ends(
        #[trigger] now.told[i],
    ) by {
        assert(after.told[i] == now.told[i]);
    }
    if ends(event) {
        assert(after.told[now.told.len() as int] == event);
    }
}

/// Who decides how many bytes the buffer holds in each turn.
pub type Dealer = spec_fn(Run) -> int;

/// Whether the windows are those that a dealer deals out.
pub open spec fn dealt(r: Run, windows: Seq<int>, dealer: Dealer, listener: Listener) -> bool
    decreases windows.len(),
{
    windows.len() > 0 ==> {
        &&& dealt(r, windows.drop_last(), dealer, listener)
        &&& windows.last() == dealer(read_through(r, windows.drop_last(), listener))
    }
}

/// Windows that are dealt out can be put together.
pub proof fn lemma_dealt_add(
    r: Run,
    a: Seq<int>,
    b: Seq<int>,
    dealer: Dealer,
    listener: Listener,
)
    requires
        dealt(r, a, dealer, listener),
        dealt(read_through(r, a, listener), b, dealer, listener),
    ensures
        dealt(r, a + b, dealer, listener),
    decreases b.len(),
{
    if b.len() > 0 {
        assert((a + b).drop_last() =~= a + b.drop_last());
        lemma_dealt_add(r, a, b.drop_last(), dealer, listener);
        lemma_read_through_add(r, a, b.drop_last(), listener);
    } else {
        assert(a + b =~= a);
    }
}

/// A dealer that fills the buffer before each turn has filled it.
pub proof fn lemma_dealt_filled(r: Run, windows: Seq<int>, dealer: Dealer, listener: Listener)
    requires
        dealt(r, windows, dealer, listener),
        forall|x: Run| is_window(#[trigger] dealer(x), x),
    ensures
        filled(r, windows, listener),
    decreases windows.len(),
{
    if windows.len() > 0 {
        lemma_dealt_filled(r, windows.drop_last(), dealer, listener);
    }
}

/// More turns, up to the last.
proof fn lemma_reading_ends(
    r: Run,
    done: Seq<int>,
    dealer: Dealer,
    listener: Listener,
) -> (windows: Seq<int>)
    requires
        dealt(r, done, dealer, listener),
        forall|x: Run| is_window(#[trigger] dealer(x), x),
        stays_unstuck(read_through(r, done, listener), listener),
        no_end_since(r.told, read_through(r, done, listener).told),
    ensures
        dealt(r, windows, dealer, listener),
        ({
            let last = read_through(r, windows, listener);
            &&& no_end_since(r.told, last.told)
            &&& ends(next_event(last, dealer(last)))
            &&& stays_unstuck(last, listener)
        }),
    decreases
            read_through(r, done, listener).input.len(),
            rank(read_through(r, done, listener)),
{
    let now = read_through(r, done, listener);
    let window = dealer(now);
    if ends(next_event(now, window)) {
        done
    } else {
        let more = done.push(window);
        assert(more.drop_last() =~= done);
        lemma_stays_unstuck(now, window, listener);
        every_turn_gets_on(now, window, listener);
        lemma_reading_ends(r, more, dealer, listener)
    }
}

/// However the source deals out its bytes, each call comes to an end, if no
/// variation is skipped, or all movetext is, or if there is no line break and
/// carriage return without a second line break in what is left.
pub proof fn reading_ends(r: Run, dealer: Dealer, listener: Listener) -> (windows: Seq<int>)
    requires
        forall|x: Run| is_window(#[trigger] dealer(x), x),
        stays_unstuck(r, listener),
    ensures
        dealt(r, windows, dealer, listener),
        ({
            let last = read_through(r, windows, listener);
            &&& no_end_since(r.told, last.told)
            &&& ends(next_event(last, dealer(last)))
            &&& stays_unstuck(last, listener)
        }),
{
    lemma_reading_ends(r, Seq::empty(), dealer, listener)
}

} // verus!
