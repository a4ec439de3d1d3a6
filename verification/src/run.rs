//! Whole readings: turn after turn, to whoever listens.
use crate::ascii::{BRACE, CLOSE_BRACE, CLOSE_BRACKET, LF, QUOTE, SEMICOLON};
use crate::bytes::{find, lemma_find, lemma_quoted_end, lemma_token_end};
use crate::grammar::{Event, SkipUntil, State, Turn, answered, turn};
use crate::reader::BufferedReader;
use crate::types::Skip;
use vstd::prelude::*;

verus! {

/// What was reported so far.
pub type Told = Seq<Event<Seq<u8>>>;

/// Who listens, and answers the last of the events reported so far.
pub type Listener = spec_fn(Told) -> Skip;

/// How far reading has come.
#[verifier::ext_equal]
pub struct Run {
    /// What the reader is about to do.
    pub state: State,
    /// What it drops before that.
    pub pending: Option<SkipUntil>,
    /// What is left to read: the buffer, followed by what is left in the source.
    pub input: Seq<u8>,
    /// What was reported.
    pub told: Told,
}

/// What was reported, with one more event.
pub open spec fn told_more(told: Told, event: Event<Seq<u8>>) -> Told {
    if event is Nothing {
        told
    } else {
        told.push(event)
    }
}

/// Whether an event is to be answered.
pub open spec fn asks(event: Event<Seq<u8>>) -> bool {
    event is EndHeaders || event is BeginVariation
}

/// Whether no variation is skipped.
pub open spec fn reads_variations(listener: Listener) -> bool {
    forall|told: Told|
        told.len() > 0 && told.last() is BeginVariation ==> !(#[trigger] listener(told)).0
}

/// Whether movetext is skipped.
pub open spec fn skips_movetext(listener: Listener) -> bool {
    forall|told: Told|
        told.len() > 0 && told.last() is EndHeaders ==> (#[trigger] listener(told)).0
}

/// Reading on after a turn.
pub open spec fn after(r: Run, t: Turn, listener: Listener) -> Run {
    let told = told_more(r.told, t.event);
    Run {
        state: if asks(t.event) {
            answered(t.state, listener(told))
        } else {
            t.state
        },
        pending: t.pending,
        input: r.input.skip(t.consumed),
        told,
    }
}

/// A turn in which the buffer holds the first `window` bytes of what is left.
pub open spec fn next_through(r: Run, window: int, listener: Listener) -> Run {
    after(r, turn(r.state, r.pending, r.input.take(window)), listener)
}

/// A turn in which the buffer holds all that is left.
pub open spec fn next(r: Run, listener: Listener) -> Run {
    after(r, turn(r.state, r.pending, r.input), listener)
}

/// How far reading has come with a reader, if `source` is what is left in the
/// source, and `told` was reported.
pub open spec fn run_of(reader: BufferedReader, source: Seq<u8>, told: Told) -> Run {
    Run { state: reader.state(), pending: reader.pending(), input: reader@ + source, told }
}

/// As many turns as there are windows.
pub open spec fn read_through(r: Run, windows: Seq<int>, listener: Listener) -> Run
    decreases windows.len(),
{
    if windows.len() == 0 {
        r
    } else {
        next_through(read_through(r, windows.drop_last(), listener), windows.last(), listener)
    }
}

/// A number of turns in which the buffer holds all that is left.
pub open spec fn read(r: Run, turns: nat, listener: Listener) -> Run
    decreases turns,
{
    if turns == 0 {
        r
    } else {
        next(read(r, (turns - 1) as nat, listener), listener)
    }
}

/// Windows can be put together.
pub proof fn lemma_read_through_add(r: Run, a: Seq<int>, b: Seq<int>, listener: Listener)
    ensures
        read_through(r, a + b, listener) == read_through(
            read_through(r, a, listener),
            b,
            listener,
        ),
    decreases b.len(),
{
    if b.len() > 0 {
        assert((a + b).drop_last() =~= a + b.drop_last());
        lemma_read_through_add(r, a, b.drop_last(), listener);
    } else {
        assert(a + b =~= a);
    }
}

/// Turns add up.
pub proof fn lemma_read_add(r: Run, m: nat, n: nat, listener: Listener)
    ensures
        read(r, m + n, listener) == read(read(r, m, listener), n, listener),
    decreases n,
{
    if n > 0 {
        lemma_read_add(r, m, (n - 1) as nat, listener);
    }
}

/// A step of the reader, followed by the answer if one is asked for, is a turn
/// in which the buffer holds what the reader's buffer holds.
pub proof fn a_step_is_a_turn(
    before: BufferedReader,
    after: BufferedReader,
    source: Seq<u8>,
    told: Told,
    listener: Listener,
)
    requires
        after.took(&before, turn(before.state(), before.pending(), before@)),
    ensures
        ({
            let event = turn(before.state(), before.pending(), before@).event;
            let more = told_more(told, event);
            let now = run_of(after, source, more);
            next_through(run_of(before, source, told), before@.len() as int, listener) == if asks(
                event,
            ) {
                Run { state: answered(after.state(), listener(more)), ..now }
            } else {
                now
            }
        }),
{
    let input = before@ + source;
    let consumed = turn(before.state(), before.pending(), before@).consumed;
    a_turn_drops_a_prefix(before.state(), before.pending(), before@);
    assert(input.take(before@.len() as int) =~= before@);
    assert(input.skip(consumed) =~= before@.skip(consumed) + source);
}

/// A turn drops bytes from the front of the buffer, and no more than there are.
/// So the bytes that were dropped, the bytes in the buffer and the bytes in the
/// source always make up all that there was to read, in its order.
pub proof fn a_turn_drops_a_prefix(state: State, pending: Option<SkipUntil>, b: Seq<u8>)
    ensures
        0 <= turn(state, pending, b).consumed <= b.len(),
        b == b.take(turn(state, pending, b).consumed) + b.skip(turn(state, pending, b).consumed),
{
    let t = turn(state, pending, b);
    assert(0 <= t.consumed <= b.len()) by {
        match pending {
            Some(skip) => {
                lemma_find(b, skip.needle, skip.needle, skip.needle, 0);
            },
            None => {
                if b.len() > 0 {
                    lemma_find(b, QUOTE, LF, CLOSE_BRACKET, 1);
                    lemma_find(b, CLOSE_BRACE, CLOSE_BRACE, CLOSE_BRACE, 1);
                    lemma_find(b, LF, BRACE, SEMICOLON, 1);
                    lemma_token_end(b, 1);
                    if let Some(i) = find(b, QUOTE, LF, CLOSE_BRACKET, 1) {
                        lemma_quoted_end(b, i + 1);
                    }
                }
            },
        }
    }
    assert(b =~= b.take(t.consumed) + b.skip(t.consumed));
}

} // verus!
