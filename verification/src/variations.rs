//! Where variations end.
use crate::ascii::{BRACE, CLOSE_BRACE, CLOSE_PAREN, CR, LF, PAREN, PERCENT, SEMICOLON};
use crate::bytes::{byte_at, find, find_byte, lemma_find};
use crate::grammar::{Event, State, read_movetext, turn};
use crate::movetext::{
    ends_line_specially, is_flat, is_orderly, is_plain, is_regular, is_tame, lemma_read_plain,
};
use crate::progress::{
    Dealer, dealt, ends, every_turn_gets_on, half_empty_line_at, lemma_before_last, next_event,
    no_end_since, rank,
};
use crate::run::{
    Listener, Run, Told, a_turn_drops_a_prefix, next, next_through, read_through, reads_variations,
};
use crate::skipping::{
    before, due, lemma_after_skip, lemma_find_rest, lemma_reaches_after, lemma_reaches_next,
    lemma_reaches_through, lemma_skip, past, reaches,
};
use crate::windows::{
    filled, is_window, lemma_find_take, lemma_pending_window, nothing_is_lost,
};
use vstd::prelude::*;

verus! {

/// What is left when a variation ends, in which `depth` more variations have
/// begun: from its closing parenthesis on, or from where the movetext ends.
/// Comments in braces, comments up to the end of a line, and lines that start
/// with a percent sign do not count.
pub open spec fn after_variation(s: Seq<u8>, depth: nat) -> Seq<u8>
    decreases s.len(),
{
    proof {
        lemma_after_skip(s.skip(1), CLOSE_BRACE);
        lemma_after_skip(s.skip(1), LF);
    }
    if s.len() == 0 {
        s
    } else if s[0] == PAREN {
        after_variation(s.skip(1), depth + 1)
    } else if s[0] == CLOSE_PAREN {
        if depth > 0 {
            after_variation(s.skip(1), (depth - 1) as nat)
        } else {
            s
        }
    } else if s[0] == BRACE {
        after_variation(past(s.skip(1), CLOSE_BRACE), depth)
    } else if s[0] == SEMICOLON {
        after_variation(before(s.skip(1), LF), depth)
    } else if s[0] == LF && byte_at(s, 1, PERCENT) {
        after_variation(before(s.skip(1), LF), depth)
    } else if s[0] == LF && ends_line_specially(s) {
        s
    } else {
        after_variation(s.skip(1), depth)
    }
}

/// How far reading has come when a skipped variation stops.
pub open spec fn after_skipped(r: Run, depth: usize) -> Run {
    Run {
        state: State::Movetext,
        pending: None,
        input: after_variation(r.input, depth as nat),
        told: r.told,
    }
}

/// Whether a variation is being skipped that stops where another one does.
spec fn stops_alike(r: Run, end: Seq<u8>) -> bool {
    match r.state {
        State::SkipVariation { depth } => {
            &&& depth + due(r).len() <= usize::MAX
            &&& after_variation(due(r), depth as nat) == end
        },
        _ => false,
    }
}

/// A turn in which a variation is skipped.
proof fn lemma_skip_turn(r: Run, end: Seq<u8>, window: int, listener: Listener)
    requires
        stops_alike(r, end),
        is_window(window, r),
    ensures
        ({
            let through = next_through(r, window, listener);
            &&& next_event(r, window) is Nothing
            &&& through.told == r.told
            &&& through.state is SkipVariation ==> stops_alike(through, end)
            &&& !(through.state is SkipVariation) ==> through == (Run {
                state: State::Movetext,
                pending: None,
                input: end,
                told: r.told,
            })
        }),
{
    let s = r.input;
    let b = s.take(window);
    assert(s.skip(0) =~= s);
    if r.pending is Some {
        lemma_pending_window(r, window, listener);
    } else if b.len() > 0 {
        assert(forall|i: int| 0 <= i < b.len() ==> b[i] == s[i]);
        lemma_after_skip(s.skip(1), CLOSE_BRACE);
        lemma_after_skip(s.skip(1), LF);
        if s[0] == LF && byte_at(s, 1, PERCENT) {
            assert(s.skip(1).skip(1) =~= s.skip(2));
            lemma_find_rest(s.skip(1), LF);
        }
    }
}

/// Nothing but an event makes the reader skip a variation.
proof fn lemma_was_skipping(r: Run, window: int, listener: Listener)
    requires
        next_through(r, window, listener).state is SkipVariation,
        next_event(r, window) is Nothing,
    ensures
        r.state is SkipVariation,
{
}

/// Turns in which a variation is skipped.
proof fn lemma_skip_turns(r: Run, end: Seq<u8>, windows: Seq<int>, listener: Listener)
    requires
        stops_alike(r, end),
        filled(r, windows, listener),
        read_through(r, windows, listener).state is SkipVariation,
        read_through(r, windows, listener).told == r.told,
    ensures
        stops_alike(read_through(r, windows, listener), end),
    decreases windows.len(),
{
    if windows.len() > 0 {
        let front = windows.drop_last();
        let now = read_through(r, front, listener);
        nothing_is_lost(r, front, listener);
        assert(now.told =~= r.told);
        lemma_was_skipping(now, windows.last(), listener);
        lemma_skip_turns(r, end, front, listener);
        lemma_skip_turn(now, end, windows.last(), listener);
    }
}

/// However the source deals out its bytes, a variation that is skipped stops at its
/// closing parenthesis or at the end of the movetext, and nothing is reported
/// meanwhile.
pub proof fn a_skipped_variation_stops_at_its_end(
    r: Run,
    depth: usize,
    windows: Seq<int>,
    window: int,
    listener: Listener,
)
    requires
        r.state == (State::SkipVariation { depth }),
        r.pending is None,
        depth + r.input.len() <= usize::MAX,
        filled(r, windows.push(window), listener),
        ({
            let now = read_through(r, windows, listener);
            &&& now.told == r.told
            &&& now.state is SkipVariation
            &&& !(next_through(now, window, listener).state is SkipVariation)
        }),
    ensures
        next_through(read_through(r, windows, listener), window, listener) == after_skipped(
            r,
            depth,
        ),
{
    let end = after_variation(r.input, depth as nat);
    assert(windows.push(window).drop_last() =~= windows);
    lemma_skip_turns(r, end, windows, listener);
    lemma_skip_turn(read_through(r, windows, listener), end, window, listener);
}

/// More turns, up to the end of a skipped variation.
proof fn lemma_skipping_ends(
    r: Run,
    end: Seq<u8>,
    done: Seq<int>,
    dealer: Dealer,
    listener: Listener,
) -> (windows: Seq<int>)
    requires
        dealt(r, done, dealer, listener),
        forall|x: Run| is_window(#[trigger] dealer(x), x),
        stops_alike(read_through(r, done, listener), end),
        read_through(r, done, listener).told == r.told,
        forall|i: int| !#[trigger] half_empty_line_at(read_through(r, done, listener).input, i),
    ensures
        dealt(r, windows, dealer, listener),
        read_through(r, windows, listener) == (Run {
            state: State::Movetext,
            pending: None,
            input: end,
            told: r.told,
        }),
    decreases
            read_through(r, done, listener).input.len(),
            rank(read_through(r, done, listener)),
{
    let now = read_through(r, done, listener);
    let window = dealer(now);
    let more = done.push(window);
    let t = turn(now.state, now.pending, now.input.take(window));
    let after = read_through(r, more, listener);
    assert(more.drop_last() =~= done);
    assert(!half_empty_line_at(now.input, 0));
    lemma_skip_turn(now, end, window, listener);
    if after.state is SkipVariation {
        every_turn_gets_on(now, window, listener);
        a_turn_drops_a_prefix(now.state, now.pending, now.input.take(window));
        assert forall|i: int| !#[trigger] half_empty_line_at(after.input, i) by {
            assert(!half_empty_line_at(now.input, i + t.consumed));
        }
        lemma_skipping_ends(r, end, more, dealer, listener)
    } else {
        more
    }
}

/// However the source deals out its bytes, skipping a variation drops it up to its
/// closing parenthesis or the end of the movetext, and reports nothing, if there is
/// no line break and carriage return without a second line break in what is left.
pub proof fn skipping_a_variation_gets_to_its_end(
    r: Run,
    depth: usize,
    dealer: Dealer,
    listener: Listener,
) -> (windows: Seq<int>)
    requires
        r.state == (State::SkipVariation { depth }),
        r.pending is None,
        depth + r.input.len() <= usize::MAX,
        forall|x: Run| is_window(#[trigger] dealer(x), x),
        forall|i: int| !#[trigger] half_empty_line_at(r.input, i),
    ensures
        dealt(r, windows, dealer, listener),
        read_through(r, windows, listener) == after_skipped(r, depth),
{
    let end = after_variation(r.input, depth as nat);
    lemma_skipping_ends(r, end, Seq::empty(), dealer, listener)
}

/// How many more variations have begun than ended.
pub open spec fn level(told: Told) -> int
    decreases told.len(),
{
    if told.len() == 0 {
        0
    } else {
        level(told.drop_last()) + (if told.last() is BeginVariation {
            1int
        } else if told.last() is EndVariation {
            -1int
        } else {
            0int
        })
    }
}

/// Flat bytes can be dropped at once.
proof fn lemma_flat_bytes(s: Seq<u8>, n: int, depth: nat, closed: bool)
    requires
        0 <= n <= s.len(),
        forall|i: int| 0 <= i < n ==> is_flat(s[i]),
    ensures
        after_variation(s, depth) == after_variation(s.skip(n), depth),
        is_orderly(s, closed) == is_orderly(s.skip(n), closed),
    decreases n,
{
    if n > 0 {
        assert(is_flat(s[0]));
        let rest = s.skip(1);
        assert forall|i: int| 0 <= i < n - 1 implies is_flat(rest[i]) by {
            assert(is_flat(s[i + 1]));
        }
        lemma_flat_bytes(rest, n - 1, depth, closed);
        assert(rest.skip(n - 1) =~= s.skip(n));
    } else {
        assert(s.skip(0) =~= s);
    }
}

/// With a buffer that holds all that is left, reading a variation in regular
/// movetext gets to the same place as skipping it, and there each variation that
/// began inside it has ended.
pub proof fn reading_a_variation_gets_to_its_end(r: Run, depth: nat, listener: Listener) -> (to:
    Run)
    requires
        r.state is Movetext,
        r.pending is None,
        is_regular(r.input),
        reads_variations(listener),
    ensures
        reaches(r, to, listener),
        to.state is Movetext,
        to.pending is None,
        to.input == after_variation(r.input, depth),
        to.input.len() > 0 && to.input[0] == CLOSE_PAREN ==> level(to.told) == level(r.told)
            - depth,
    decreases r.input.len(),
{
    let s = r.input;
    let one = next(r, listener);
    lemma_reaches_next(r, listener);
    if one.told.len() > r.told.len() {
        assert(one.told.drop_last() =~= r.told);
    }
    if s.len() == 0 || s[0] == CLOSE_PAREN && depth == 0 {
        r
    } else if s[0] == LF && ends_line_specially(s) && !byte_at(s, 1, PERCENT) {
        r
    } else if s[0] == BRACE {
        lemma_find_rest(s, CLOSE_BRACE);
        lemma_find(s.skip(1), CLOSE_BRACE, CLOSE_BRACE, CLOSE_BRACE, 0);
        let i = find_byte(s.skip(1), CLOSE_BRACE)->0;
        assert(one.input =~= s.skip(1).skip(i + 1));
        let to = reading_a_variation_gets_to_its_end(one, depth, listener);
        lemma_reaches_after(r, to, listener);
        to
    } else if s[0] == SEMICOLON {
        lemma_after_skip(s.skip(1), LF);
        lemma_skip(one, listener);
        let two = Run { input: before(s.skip(1), LF), ..r };
        lemma_reaches_through(r, one, two, listener);
        let to = reading_a_variation_gets_to_its_end(two, depth, listener);
        lemma_reaches_through(r, two, to, listener);
        to
    } else if s[0] == LF && byte_at(s, 1, PERCENT) {
        let line = before(s.skip(1), LF);
        assert(s.skip(1).skip(1) =~= s.skip(2));
        lemma_find_rest(s.skip(1), LF);
        lemma_after_skip(s.skip(1), LF);
        lemma_skip(one, listener);
        let two = Run { input: past(s.skip(2), LF), ..r };
        assert(two.input == past(s.skip(1), LF));
        if line.len() > 0 {
            assert(after_variation(line, depth) == after_variation(line.skip(1), depth));
            assert(is_regular(line) == is_regular(line.skip(1)));
        }
        lemma_reaches_through(r, one, two, listener);
        let to = reading_a_variation_gets_to_its_end(two, depth, listener);
        lemma_reaches_through(r, two, to, listener);
        to
    } else if s[0] == LF {
        if byte_at(s, 1, CR) {
            let rest = s.skip(1);
            assert(rest.skip(1) =~= s.skip(2));
            assert(after_variation(rest, depth) == after_variation(s.skip(2), depth));
            assert(is_regular(rest) == is_regular(s.skip(2)));
        }
        let to = reading_a_variation_gets_to_its_end(one, depth, listener);
        lemma_reaches_after(r, to, listener);
        to
    } else {
        assert(is_plain(s[0]));
        lemma_read_plain(s);
        let n = read_movetext(s).consumed;
        let deeper = if s[0] == PAREN {
            depth + 1
        } else if s[0] == CLOSE_PAREN {
            (depth - 1) as nat
        } else {
            depth
        };
        if s[0] == PAREN || s[0] == CLOSE_PAREN {
            assert(n == 1);
            assert(s[0] == PAREN ==> one.told.last() is BeginVariation);
        } else {
            lemma_flat_bytes(s, n, depth, true);
        }
        let to = reading_a_variation_gets_to_its_end(one, deeper, listener);
        lemma_reaches_after(r, to, listener);
        to
    }
}

/// How deep in variations reading is, if `depth` variations had begun when
/// `before` was reported.
pub open spec fn depth_since(before: Told, depth: nat, now: Told) -> int {
    depth + level(now) - level(before)
}

/// Whether no more variations have ended than had begun.
pub open spec fn stays_inside(before: Told, depth: nat, now: Told) -> bool {
    forall|i: int|
        before.len() <= i <= now.len() ==> depth_since(before, depth, #[trigger] now.take(i)) >= 0
}

/// A turn in which a variation is read, and its end is not passed.
proof fn lemma_read_turn(r: Run, depth: nat, window: int, listener: Listener)
    requires
        r.state is Movetext,
        is_tame(due(r)),
        is_window(window, r),
        reads_variations(listener),
        next_through(r, window, listener).state is Movetext,
        depth_since(r.told, depth, next_through(r, window, listener).told) >= 0,
    ensures
        ({
            let through = next_through(r, window, listener);
            let deeper = depth_since(r.told, depth, through.told) as nat;
            &&& is_tame(due(through))
            &&& after_variation(due(through), deeper) == after_variation(due(r), depth)
        }),
{
    let s = r.input;
    let b = s.take(window);
    let to = next_through(r, window, listener);
    assert(s.skip(0) =~= s);
    assert(forall|i: int| 0 <= i < b.len() ==> b[i] == s[i]);
    if to.told.len() > r.told.len() {
        assert(to.told.drop_last() =~= r.told);
    }
    if r.pending is Some {
        lemma_pending_window(r, window, listener);
    } else if s[0] == BRACE {
        lemma_find_rest(s, CLOSE_BRACE);
        lemma_find(s, CLOSE_BRACE, CLOSE_BRACE, CLOSE_BRACE, 1);
        lemma_find_take(s, CLOSE_BRACE, CLOSE_BRACE, CLOSE_BRACE, 1, window);
        if let Some(i) = find(s, CLOSE_BRACE, CLOSE_BRACE, CLOSE_BRACE, 1) {
            assert(s.skip(1).skip(i) =~= s.skip(i + 1));
        }
    } else if s[0] == SEMICOLON {
    } else if s[0] == LF && byte_at(s, 1, PERCENT) {
        let line = before(s.skip(1), LF);
        assert(s.skip(1).skip(1) =~= s.skip(2));
        lemma_find_rest(s.skip(1), LF);
        lemma_after_skip(s.skip(1), LF);
        assert(due(to) == past(s.skip(1), LF));
        if line.len() > 0 {
            assert(after_variation(line, depth) == after_variation(line.skip(1), depth));
            assert(is_tame(line) == is_tame(line.skip(1)));
        }
    } else if s[0] == LF {
        if byte_at(s, 1, CR) {
            let rest = s.skip(1);
            assert(rest.skip(1) =~= s.skip(2));
            assert(after_variation(rest, depth) == after_variation(s.skip(2), depth));
            assert(is_tame(rest) == is_tame(s.skip(2)));
        }
    } else {
        lemma_read_plain(b);
        let n = read_movetext(b).consumed;
        assert(to.input == s.skip(n));
        if s[0] == PAREN || s[0] == CLOSE_PAREN {
            assert(n == 1);
            assert(is_tame(s) == is_tame(s.skip(1)));
        } else {
            lemma_flat_bytes(s, n, depth, false);
        }
    }
}

/// Movetext that is read, and no variation of which is skipped, is read on, or it
/// ends, or fails.
proof fn lemma_reads_on(r: Run, window: int, listener: Listener)
    requires
        r.state is Movetext || r.state is Trailing || r.state is Invalid,
        reads_variations(listener),
        !ends(next_event(r, window)),
    ensures
        ({
            let state = next_through(r, window, listener).state;
            &&& state is Movetext || state is Trailing || state is Invalid
            &&& state is Movetext ==> r.state is Movetext
        }),
{
    let b = r.input.take(window);
    let after = next_through(r, window, listener);
    if next_event(r, window) is BeginVariation {
        assert(after.told.last() is BeginVariation);
    }
    if r.pending is None && r.state is Movetext && b.len() > 0 && is_plain(b[0]) {
        lemma_read_plain(b);
    }
}

/// Turns in which a variation is read, and its end is not passed.
proof fn lemma_read_turns(r: Run, depth: nat, windows: Seq<int>, listener: Listener)
    requires
        r.state is Movetext,
        is_tame(due(r)),
        reads_variations(listener),
        filled(r, windows, listener),
        no_end_since(r.told, read_through(r, windows, listener).told),
        stays_inside(r.told, depth, read_through(r, windows, listener).told),
    ensures
        ({
            let now = read_through(r, windows, listener);
            let deeper = depth_since(r.told, depth, now.told);
            &&& now.state is Movetext || now.state is Trailing || now.state is Invalid
            &&& deeper >= 0
            &&& now.state is Movetext ==> is_tame(due(now)) && after_variation(
                due(now),
                deeper as nat,
            ) == after_variation(due(r), depth)
        }),
    decreases windows.len(),
{
    let now = read_through(r, windows, listener);
    nothing_is_lost(r, windows, listener);
    assert(now.told.take(now.told.len() as int) =~= now.told);
    if windows.len() > 0 {
        let front = windows.drop_last();
        let window = windows.last();
        let earlier = read_through(r, front, listener);
        lemma_before_last(r, windows, listener);
        assert forall|i: int| r.told.len() <= i <= earlier.told.len() implies depth_since(
            r.told,
            depth,
            #[trigger] earlier.told.take(i),
        ) >= 0 by {
            assert(earlier.told.take(i) =~= now.told.take(i));
        }
        lemma_read_turns(r, depth, front, listener);
        lemma_reads_on(earlier, window, listener);
        if now.state is Movetext {
            let deeper = depth_since(r.told, depth, earlier.told) as nat;
            lemma_read_turn(earlier, deeper, window, listener);
        }
    }
}

/// However the source deals out its bytes, a variation that is read stops where it
/// would if it was skipped: where the end of it is reported, and each variation
/// that began inside it has ended, `after_variation` is left. The movetext has to
/// be tame.
pub proof fn a_read_variation_stops_at_its_end(
    r: Run,
    depth: nat,
    windows: Seq<int>,
    window: int,
    listener: Listener,
)
    requires
        r.state is Movetext,
        r.pending is None,
        is_tame(r.input),
        reads_variations(listener),
        filled(r, windows.push(window), listener),
        ({
            let now = read_through(r, windows, listener);
            &&& no_end_since(r.told, now.told)
            &&& stays_inside(r.told, depth, now.told)
            &&& depth_since(r.told, depth, now.told) == 0
            &&& next_event(now, window) is EndVariation
        }),
    ensures
        read_through(r, windows, listener).input == after_variation(r.input, depth),
        next_through(read_through(r, windows, listener), window, listener).input
            == after_variation(r.input, depth).skip(1),
{
    let now = read_through(r, windows, listener);
    let b = now.input.take(window);
    assert(windows.push(window).drop_last() =~= windows);
    lemma_read_turns(r, depth, windows, listener);
    assert(is_window(window, now));
    assert(now.pending is None && now.state is Movetext);
    assert(b[0] == CLOSE_PAREN) by {
        if is_plain(b[0]) {
            lemma_read_plain(b);
        }
    }
    assert(now.input[0] == b[0]);
}

/// Whether a variation is skipped or read, the same comes next: at its closing
/// parenthesis the next turn reports that it ends, and drops the parenthesis.
pub proof fn a_variation_ends(r: Run, listener: Listener)
    requires
        r.state is Movetext,
        r.pending is None,
        r.input.len() > 0,
        r.input[0] == CLOSE_PAREN,
    ensures
        next(r, listener) == (Run {
            input: r.input.skip(1),
            told: r.told.push(Event::EndVariation),
            ..r
        }),
{
}

} // verus!
