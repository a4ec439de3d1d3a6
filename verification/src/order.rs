//! In which order things are reported.
use crate::ascii::{BRACKET, CLOSE_BRACKET, CLOSE_PAREN, CR, LF, QUOTE};
use crate::bytes::{byte_at, find, lemma_find, lemma_quoted_end};
use crate::grammar::{Event, Goal, SkipUntil, State, turn};
use crate::progress::{
    Dealer, dealt, ends, lemma_dealt_add, lemma_dealt_filled, lemma_stays_unstuck, next_event,
    reading_ends, stays_unstuck,
};
use crate::run::{
    Listener, Run, Told, a_turn_drops_a_prefix, lemma_read_through_add, next_through, read_through,
};
use crate::windows::{filled, is_window, nothing_is_lost};
use vstd::prelude::*;

verus! {

/// What has been reported of a game.
pub enum Part {
    /// Nothing, or all of it.
    Outside,
    /// That it begins.
    Begun,
    /// That its headers begin, and maybe some of them.
    InHeaders,
    /// That its headers end, and maybe some of the movetext.
    InMovetext,
    /// That its headers end, which was answered with a skip.
    SkippedMovetext,
    /// That a variation begins, which was answered with a skip.
    SkippedVariation,
}

/// What has been reported after one more event, answered by `skip`. None if the
/// event is out of order.
pub open spec fn part_with(part: Part, event: Event<Seq<u8>>, skip: bool) -> Option<Part> {
    match part {
        Part::Outside => match event {
            Event::BeginGame => Some(Part::Begun),
            Event::NoGame => Some(Part::Outside),
            Event::HasMore(_) => Some(Part::Outside),
            _ => None,
        },
        Part::Begun => match event {
            Event::BeginHeaders => Some(Part::InHeaders),
            _ => None,
        },
        Part::InHeaders => match event {
            Event::Header { .. } => Some(Part::InHeaders),
            Event::EndHeaders => Some(
                if skip {
                    Part::SkippedMovetext
                } else {
                    Part::InMovetext
                },
            ),
            Event::InvalidData => Some(Part::Outside),
            _ => None,
        },
        Part::InMovetext => match event {
            Event::San(_) => Some(Part::InMovetext),
            Event::Nag(_) => Some(Part::InMovetext),
            Event::Comment(_) => Some(Part::InMovetext),
            Event::BeginVariation => Some(
                if skip {
                    Part::SkippedVariation
                } else {
                    Part::InMovetext
                },
            ),
            Event::EndVariation => Some(Part::InMovetext),
            Event::Outcome(_) => Some(Part::InMovetext),
            Event::EndGame => Some(Part::Outside),
            Event::InvalidData => Some(Part::Outside),
            _ => None,
        },
        Part::SkippedMovetext => match event {
            Event::EndGame => Some(Part::Outside),
            _ => None,
        },
        Part::SkippedVariation => match event {
            Event::EndVariation => Some(Part::InMovetext),
            Event::EndGame => Some(Part::Outside),
            _ => None,
        },
    }
}

/// What has been reported after all events, from nothing on. None if one of
/// them is out of order.
pub open spec fn part_of(told: Told, listener: Listener) -> Option<Part>
    decreases told.len(),
{
    if told.len() == 0 {
        Some(Part::Outside)
    } else {
        match part_of(told.drop_last(), listener) {
            Some(part) => part_with(part, told.last(), listener(told).0),
            None => None,
        }
    }
}

/// Whether a skipped variation ends where the input starts.
pub open spec fn at_end_of_variation(input: Seq<u8>) -> bool {
    ||| input.len() == 0
    ||| input[0] == CLOSE_PAREN
    ||| input[0] == LF && (byte_at(input, 1, BRACKET) || byte_at(input, 1, LF) || byte_at(
        input,
        1,
        CR,
    ) && byte_at(input, 2, LF))
}

/// Whether the reader is about to do what goes on from a part of a game.
pub open spec fn goes_on(r: Run, part: Part) -> bool {
    match part {
        Part::Outside => r.state is Bom || r.state is Blank || r.state is Start,
        Part::Begun => r.state is BeginHeaders,
        Part::InHeaders => r.state is Headers || r.state is Ket || r.state is EndHeaders
            || r.state is Invalid,
        Part::InMovetext => r.state is Movetext || r.state is BeginVariation || r.state is Trailing
            || r.state is Invalid,
        Part::SkippedMovetext => r.state is SkipMovetext || r.state is Trailing,
        Part::SkippedVariation => {
            ||| r.state is SkipVariation
            ||| r.state is Trailing
            ||| r.state is Movetext && r.pending is None && at_end_of_variation(r.input)
        },
    }
}

/// Whether all was reported in order, and the reader is about to go on so.
pub open spec fn in_order(r: Run, listener: Listener) -> bool {
    match part_of(r.told, listener) {
        Some(part) => goes_on(r, part),
        None => false,
    }
}

/// A turn keeps the order.
proof fn lemma_turn_keeps_order(r: Run, window: int, listener: Listener)
    requires
        in_order(r, listener),
        is_window(window, r),
    ensures
        in_order(next_through(r, window, listener), listener),
{
    let b = r.input.take(window);
    let t = turn(r.state, r.pending, b);
    let after = next_through(r, window, listener);
    assert(forall|i: int| 0 <= i < b.len() ==> b[i] == r.input[i]);
    if !(t.event is Nothing) {
        assert(after.told.drop_last() =~= r.told);
        assert(after.told.last() == t.event);
    }
    if t.consumed == 0 {
        assert(r.input.skip(0) =~= r.input);
    }
}

/// Events are reported in order: a game begins, its headers begin, come, and
/// end, then comes its movetext, and the game ends. Nothing of a skipped movetext
/// is reported. After a skipped variation its end is reported, or that of the
/// game.
pub proof fn reports_are_in_order(r: Run, windows: Seq<int>, listener: Listener)
    requires
        in_order(r, listener),
        filled(r, windows, listener),
    ensures
        in_order(read_through(r, windows, listener), listener),
    decreases windows.len(),
{
    if windows.len() > 0 {
        let before = read_through(r, windows.drop_last(), listener);
        reports_are_in_order(r, windows.drop_last(), listener);
        lemma_turn_keeps_order(before, windows.last(), listener);
    }
}

/// Whether bytes of a game have been read since `length` bytes were left, as
/// far as the state shows.
spec fn takes_bytes(r: Run, length: nat) -> bool {
    &&& r.input.len() <= length
    &&& r.state is Bom || r.state is Blank || r.state is Start || length > 0
    &&& r.state is Ket || r.state is Trailing || r.state is Invalid ==> r.input.len() < length
}

/// A turn keeps count.
proof fn lemma_turn_takes_bytes(r: Run, window: int, length: nat, listener: Listener)
    requires
        takes_bytes(r, length),
        is_window(window, r),
    ensures
        takes_bytes(next_through(r, window, listener), length),
{
    let b = r.input.take(window);
    let t = turn(r.state, r.pending, b);
    a_turn_drops_a_prefix(r.state, r.pending, b);
    assert(r.input.skip(t.consumed).len() == r.input.len() - t.consumed);
    if b.len() > 0 {
        lemma_find(b, QUOTE, LF, CLOSE_BRACKET, 1);
        if let Some(i) = find(b, QUOTE, LF, CLOSE_BRACKET, 1) {
            lemma_quoted_end(b, i + 1);
        }
    }
}

/// Many turns keep count.
proof fn lemma_takes_bytes(r: Run, windows: Seq<int>, length: nat, listener: Listener)
    requires
        takes_bytes(r, length),
        filled(r, windows, listener),
    ensures
        takes_bytes(read_through(r, windows, listener), length),
    decreases windows.len(),
{
    if windows.len() > 0 {
        let before = read_through(r, windows.drop_last(), listener);
        lemma_takes_bytes(r, windows.drop_last(), length, listener);
        lemma_turn_takes_bytes(before, windows.last(), length, listener);
    }
}

/// Whether a game is looked for only to be read.
spec fn is_to_read(state: State) -> bool {
    match state {
        State::Bom(goal) => goal == Goal::ReadGame,
        State::Blank(goal) => goal == Goal::ReadGame,
        State::Start(goal) => goal == Goal::ReadGame,
        _ => true,
    }
}

/// Which state an end comes from.
proof fn lemma_end(state: State, pending: Option<SkipUntil>, b: Seq<u8>)
    ensures
        ({
            let event = turn(state, pending, b).event;
            &&& event is EndGame ==> state is Trailing
            &&& event is InvalidData ==> state is Invalid
            &&& event is NoGame ==> b.len() == 0
            &&& event is EndGame ==> turn(state, pending, b).state == State::Bom(Goal::ReadGame)
                && turn(state, pending, b).pending is None
        }),
{
}

/// A call to read a game does not tell whether there is more.
proof fn lemma_call(r: Run, windows: Seq<int>, window: int, listener: Listener)
    requires
        r.state == State::Bom(Goal::ReadGame),
        r.pending is None,
    ensures
        !(next_event(read_through(r, windows, listener), window) is HasMore),
{
    lemma_goal(r, windows, listener);
}

/// A call to read a game stays one.
proof fn lemma_goal(r: Run, windows: Seq<int>, listener: Listener)
    requires
        is_to_read(r.state),
    ensures
        is_to_read(read_through(r, windows, listener).state),
    decreases windows.len(),
{
    if windows.len() > 0 {
        lemma_goal(r, windows.drop_last(), listener);
    }
}

/// Each game, also one that turns out to be invalid, takes at least one byte.
/// There is no game only when no byte is left.
pub proof fn a_game_takes_bytes(r: Run, windows: Seq<int>, window: int, listener: Listener)
    requires
        r.state == State::Bom(Goal::ReadGame),
        r.pending is None,
        filled(r, windows.push(window), listener),
    ensures
        ({
            let now = read_through(r, windows, listener);
            let event = next_event(now, window);
            let after = next_through(now, window, listener);
            &&& event is EndGame || event is InvalidData ==> after.input.len() < r.input.len()
            &&& event is NoGame ==> after.input.len() == 0
        }),
{
    assert(windows.push(window).drop_last() =~= windows);
    lemma_takes_bytes(r, windows, r.input.len(), listener);
    let now = read_through(r, windows, listener);
    let b = now.input.take(window);
    assert(is_window(window, now));
    lemma_end(now.state, now.pending, b);
    a_turn_drops_a_prefix(now.state, now.pending, b);
}

/// However the source deals out its bytes, reading game after game comes to an
/// end: after some games there is no game left, or one is invalid. As in
/// `reading_ends`, skipping a variation must not get stuck.
pub proof fn reading_all_games_ends(r: Run, dealer: Dealer, listener: Listener) -> (windows: Seq<
    int,
>)
    requires
        r.state == State::Bom(Goal::ReadGame),
        r.pending is None,
        forall|x: Run| is_window(#[trigger] dealer(x), x),
        stays_unstuck(r, listener),
    ensures
        dealt(r, windows, dealer, listener),
        ({
            let last = read_through(r, windows, listener);
            let event = next_event(last, dealer(last));
            &&& event is NoGame || event is InvalidData
            &&& r.told.is_prefix_of(last.told)
            &&& forall|i: int|
                r.told.len() <= i < last.told.len() && ends(#[trigger] last.told[i])
                    ==> last.told[i] is EndGame
        }),
    decreases r.input.len(),
{
    let game = reading_ends(r, dealer, listener);
    let end = read_through(r, game, listener);
    let window = dealer(end);
    lemma_dealt_filled(r, game, dealer, listener);
    nothing_is_lost(r, game, listener);
    lemma_call(r, game, window, listener);
    if next_event(end, window) is EndGame {
        let more = game.push(window);
        assert(more.drop_last() =~= game);
        let after = read_through(r, more, listener);
        a_game_takes_bytes(r, game, window, listener);
        lemma_stays_unstuck(end, window, listener);
        lemma_end(end.state, end.pending, end.input.take(window));
        let rest = reading_all_games_ends(after, dealer, listener);
        lemma_read_through_add(r, more, rest, listener);
        lemma_dealt_add(r, more, rest, dealer, listener);
        let last = read_through(r, more + rest, listener);
        assert forall|i: int|
            r.told.len() <= i < last.told.len() && ends(#[trigger] last.told[i]) implies
            last.told[i] is EndGame by {
            if i < after.told.len() {
                assert(last.told[i] == after.told[i]);
                if i < end.told.len() {
                    assert(after.told[i] == end.told[i]);
                }
            }
        }
        more + rest
    } else {
        game
    }
}

} // verus!
