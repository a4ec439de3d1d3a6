//! Where a whole game ends, whoever listens.
use crate::ascii::{
    BRACE, BRACKET, CLOSE_BRACE, CLOSE_BRACKET, CR, LF, PERCENT, QUOTE, SEMICOLON, SPACE, TAB,
};
use crate::bytes::{byte_at, find, lemma_find, lemma_quoted_end, quoted_end};
use crate::games::{after_bom, call, next_game};
use crate::grammar::{Goal, State, bom, is_blank, read_movetext, turn};
use crate::movetext::{
    after_movetext, ends_line_specially, is_plain, is_tame, lemma_plain_bytes, lemma_plain_orderly,
    lemma_read_plain,
};
use crate::progress::{ends, lemma_before_last, next_event, no_end_since};
use crate::run::{
    Listener, Run, Told, a_turn_drops_a_prefix, next_through, read_through, skips_movetext,
};
use crate::skipping::{
    after_blank, before, due, lemma_after_skip, lemma_find_rest, lemma_suffix, past,
};
use crate::windows::{
    filled, fits, is_window, lemma_find_take, lemma_has_at_take, lemma_pending_window,
    lemma_quoted_end_cut, lemma_quoted_end_take, reach, roomy,
};
use vstd::prelude::*;

verus! {

/// What is left when the headers of a game end, or none if one of them has no
/// end. If `ket`, the rest of the line of a header comes first.
pub open spec fn after_headers(s: Seq<u8>, ket: bool) -> Option<Seq<u8>>
    decreases
            s.len(),
            if ket {
                1int
            } else {
                0int
            },
{
    if s.len() == 0 {
        Some(s)
    } else if ket {
        if s[0] == SPACE || s[0] == TAB || s[0] == CR || s[0] == CLOSE_BRACKET {
            after_headers(s.skip(1), true)
        } else if s[0] == PERCENT {
            proof {
                lemma_after_skip(s.skip(1), LF);
            }
            after_headers(past(s.skip(1), LF), false)
        } else if s[0] == LF {
            after_headers(s.skip(1), false)
        } else {
            after_headers(s, false)
        }
    } else if s[0] == BRACKET {
        proof {
            lemma_find(s, QUOTE, LF, CLOSE_BRACKET, 1);
        }
        match find(s, QUOTE, LF, CLOSE_BRACKET, 1) {
            None => None,
            Some(i) => if s[i] != QUOTE {
                after_headers(s.skip(i + 1), true)
            } else {
                proof {
                    lemma_quoted_end(s, i + 1);
                }
                match quoted_end(s, i + 1) {
                    None => None,
                    Some(e) => if s[e] == QUOTE {
                        after_headers(s.skip(e + 1), true)
                    } else {
                        after_headers(s.skip(e), true)
                    },
                }
            },
        }
    } else if s[0] == PERCENT {
        proof {
            lemma_after_skip(s.skip(1), LF);
        }
        after_headers(past(s.skip(1), LF), false)
    } else {
        Some(s)
    }
}

/// What is left when the movetext of the next game begins. None if there is no
/// game, or if one of its headers has no end.
pub open spec fn next_movetext(input: Seq<u8>) -> Option<Seq<u8>> {
    if next_game(input).len() == 0 {
        None
    } else {
        after_headers(next_game(input), false)
    }
}

/// What is left when the next game ends.
pub open spec fn game_end(input: Seq<u8>) -> Option<Seq<u8>> {
    match next_movetext(input) {
        Some(s) => Some(after_blank(after_movetext(s))),
        None => None,
    }
}

/// Whether the movetext of the next game, if there is one, is tame.
pub open spec fn has_tame_movetext(input: Seq<u8>) -> bool {
    next_movetext(input) matches Some(s) ==> is_tame(s)
}

/// The movetext that is still to be read of a game, if its headers have ends.
spec fn movetext_left(r: Run) -> Option<Seq<u8>> {
    let s = due(r);
    match r.state {
        State::Bom(_) => next_movetext(s),
        State::Blank(_) => if after_blank(s).len() == 0 {
            None
        } else {
            after_headers(after_blank(s), false)
        },
        State::Start(_) => if s.len() == 0 {
            None
        } else {
            after_headers(s, false)
        },
        State::BeginHeaders => after_headers(s, false),
        State::Headers => after_headers(s, false),
        State::Ket => after_headers(s, true),
        State::Invalid => None,
        _ => Some(s),
    }
}

/// What will be left when the game ends that is being read.
spec fn end_of(r: Run) -> Option<Seq<u8>> {
    match r.state {
        State::Trailing => Some(after_blank(due(r))),
        _ => match movetext_left(r) {
            Some(s) => Some(after_blank(after_movetext(s))),
            None => None,
        },
    }
}

/// Whether a game is being read, and the movetext left of it is tame.
spec fn is_on(r: Run) -> bool {
    &&& match r.state {
        State::Bom(goal) => goal == Goal::ReadGame,
        State::Blank(goal) => goal == Goal::ReadGame,
        State::Start(goal) => goal == Goal::ReadGame,
        State::EndHeaders => false,
        State::BeginVariation => false,
        State::Invalid => false,
        _ => true,
    }
    &&& r.state is Trailing || (movetext_left(r) matches Some(s) ==> is_tame(s))
}

/// Whether a turn leaves the end of the game where it was.
spec fn keeps_end(from: Run, to: Run) -> bool {
    to.state is Invalid || is_on(to) && end_of(to) == end_of(from)
}

/// A turn before the headers.
proof fn lemma_before_headers(r: Run, window: int, listener: Listener)
    requires
        is_on(r),
        r.pending is None,
        is_window(window, r),
        !ends(next_event(r, window)),
        r.state is Bom || r.state is Blank || r.state is Start || r.state is BeginHeaders,
    ensures
        keeps_end(r, next_through(r, window, listener)),
{
    let s = r.input;
    let b = s.take(window);
    assert(s.skip(0) =~= s);
    if r.state is Bom {
        if window < s.len() {
            lemma_has_at_take(s, 0, bom(), window);
        } else {
            assert(b =~= s);
        }
    } else if b.len() > 0 {
        assert(b[0] == s[0]);
    }
}

/// A turn after the movetext.
proof fn lemma_trailing(r: Run, window: int, listener: Listener)
    requires
        r.state is Trailing,
        r.pending is None,
        is_window(window, r),
    ensures
        ends(next_event(r, window)) ==> next_event(r, window) is EndGame && end_of(r) == Some(
            next_through(r, window, listener).input,
        ),
        !ends(next_event(r, window)) ==> keeps_end(r, next_through(r, window, listener))
            && next_through(r, window, listener).state is Trailing,
{
    let s = r.input;
    let b = s.take(window);
    assert(s.skip(0) =~= s);
    if b.len() > 0 {
        assert(b[0] == s[0]);
    }
}

/// A turn in the headers. It fails only if a header does not fit.
proof fn lemma_headers(r: Run, window: int, listener: Listener)
    requires
        is_on(r),
        r.pending is None,
        is_window(window, r),
        r.state is Headers || r.state is Ket,
    ensures
        keeps_end(r, next_through(r, window, listener)),
        fits(r) && end_of(r) is Some ==> !(next_through(r, window, listener).state is Invalid),
{
    let s = r.input;
    let b = s.take(window);
    assert(s.skip(0) =~= s);
    if b.len() > 0 {
        assert(b[0] == s[0]);
        lemma_find_rest(s, LF);
        if r.state is Headers && s[0] == BRACKET {
            lemma_find(s, QUOTE, LF, CLOSE_BRACKET, 1);
            lemma_find_take(s, QUOTE, LF, CLOSE_BRACKET, 1, window);
            assert(fits(r) ==> window == s.len() || reach(State::Headers, s) <= window);
            if let Some(i) = find(s, QUOTE, LF, CLOSE_BRACKET, 1) {
                if i < window {
                    assert(b[i] == s[i]);
                    lemma_quoted_end(s, i + 1);
                    if let Some(e) = quoted_end(s, i + 1) {
                        if e < window {
                            lemma_quoted_end_take(s, i + 1, window);
                            assert(b[e] == s[e]);
                        } else {
                            lemma_quoted_end_cut(s, i + 1, window);
                            assert(s[i] == QUOTE ==> !fits(r));
                        }
                    } else {
                        lemma_quoted_end_cut(s, i + 1, window);
                        assert(s[i] == QUOTE ==> after_headers(s, false) is None);
                    }
                } else {
                    lemma_quoted_end(s, i + 1);
                    assert(!fits(r) || end_of(r) is None);
                }
            } else {
                assert(after_headers(s, false) is None);
            }
        }
    }
}

/// A turn in movetext that is skipped.
proof fn lemma_skipped(r: Run, window: int, listener: Listener)
    requires
        is_on(r),
        r.pending is None,
        is_window(window, r),
        r.state is SkipMovetext,
    ensures
        keeps_end(r, next_through(r, window, listener)),
        ({
            let state = next_through(r, window, listener).state;
            state is SkipMovetext || state is Trailing
        }),
{
    let s = r.input;
    let b = s.take(window);
    let t = turn(r.state, r.pending, b);
    let to = next_through(r, window, listener);
    assert(s.skip(0) =~= s);
    assert(forall|i: int| 0 <= i < b.len() ==> b[i] == s[i]);
    a_turn_drops_a_prefix(r.state, r.pending, b);
    if b.len() == 0 {
        assert(keeps_end(r, to));
    } else if is_plain(b[0]) {
        lemma_find(b, LF, BRACE, SEMICOLON, 1);
        assert forall|i: int| 0 <= i < t.consumed implies is_plain(s[i]) by {
            assert(b[i] == s[i]);
        }
        lemma_plain_bytes(s, t.consumed);
        lemma_plain_orderly(s, t.consumed, false);
        assert(keeps_end(r, to));
    } else if s[0] == LF && byte_at(s, 1, CR) && !byte_at(s, 2, LF) {
        let rest = s.skip(1);
        assert(rest.skip(1) =~= s.skip(2));
        assert(after_movetext(rest) == after_movetext(s.skip(2)));
        assert(is_tame(rest) == is_tame(s.skip(2)));
        assert(keeps_end(r, to));
    } else if s[0] == LF && !byte_at(s, 1, PERCENT) && ends_line_specially(s) {
        assert(to.state is Trailing);
        assert(keeps_end(r, to));
    } else {
        assert(to.state is SkipMovetext);
        assert(keeps_end(r, to));
    }
}

/// A turn in a variation that is skipped.
proof fn lemma_skipped_variation(r: Run, window: int, listener: Listener)
    requires
        is_on(r),
        r.pending is None,
        is_window(window, r),
        r.state is SkipVariation,
    ensures
        keeps_end(r, next_through(r, window, listener)),
{
    let s = r.input;
    let b = s.take(window);
    assert(s.skip(0) =~= s);
    assert(forall|i: int| 0 <= i < b.len() ==> b[i] == s[i]);
    if b.len() > 0 && s[0] == LF && byte_at(s, 1, PERCENT) {
        assert(s.skip(1).skip(1) =~= s.skip(2));
        lemma_find_rest(s.skip(1), LF);
    }
}

/// A turn in movetext that is read.
proof fn lemma_read(r: Run, window: int, listener: Listener)
    requires
        is_on(r),
        r.pending is None,
        is_window(window, r),
        r.state is Movetext,
    ensures
        keeps_end(r, next_through(r, window, listener)),
{
    let s = r.input;
    let b = s.take(window);
    let to = next_through(r, window, listener);
    assert(s.skip(0) =~= s);
    assert(forall|i: int| 0 <= i < b.len() ==> b[i] == s[i]);
    if b.len() == 0 {
        assert(keeps_end(r, to));
    } else if s[0] == BRACE {
        lemma_find_rest(s, CLOSE_BRACE);
        lemma_find(s, CLOSE_BRACE, CLOSE_BRACE, CLOSE_BRACE, 1);
        lemma_find_take(s, CLOSE_BRACE, CLOSE_BRACE, CLOSE_BRACE, 1, window);
        if let Some(i) = find(s, CLOSE_BRACE, CLOSE_BRACE, CLOSE_BRACE, 1) {
            assert(s.skip(1).skip(i) =~= s.skip(i + 1));
        }
        assert(keeps_end(r, to));
    } else if s[0] == SEMICOLON {
        assert(keeps_end(r, to));
    } else if s[0] == LF {
        if byte_at(s, 1, PERCENT) {
            let line = before(s.skip(1), LF);
            assert(s.skip(1).skip(1) =~= s.skip(2));
            lemma_find_rest(s.skip(1), LF);
            lemma_after_skip(s.skip(1), LF);
            assert(due(to) == past(s.skip(1), LF));
            if line.len() > 0 {
                assert(after_movetext(line) == after_movetext(line.skip(1)));
                assert(is_tame(line) == is_tame(line.skip(1)));
            }
        } else if byte_at(s, 1, CR) && !byte_at(s, 2, LF) {
            let rest = s.skip(1);
            assert(rest.skip(1) =~= s.skip(2));
            assert(after_movetext(rest) == after_movetext(s.skip(2)));
            assert(is_tame(rest) == is_tame(s.skip(2)));
        }
        assert(keeps_end(r, to));
    } else {
        lemma_read_plain(b);
        let n = read_movetext(b).consumed;
        lemma_plain_bytes(s, n);
        lemma_plain_orderly(s, n, false);
        assert(to.input == s.skip(n));
        assert(keeps_end(r, to));
    }
}

/// A turn leaves the end of the game where it was, or fails.
proof fn lemma_turn(r: Run, window: int, listener: Listener)
    requires
        is_on(r),
        is_window(window, r),
        !ends(next_event(r, window)),
    ensures
        keeps_end(r, next_through(r, window, listener)),
{
    if r.pending is Some {
        lemma_pending_window(r, window, listener);
    } else {
        match r.state {
            State::Headers => lemma_headers(r, window, listener),
            State::Ket => lemma_headers(r, window, listener),
            State::Movetext => lemma_read(r, window, listener),
            State::SkipMovetext => lemma_skipped(r, window, listener),
            State::SkipVariation { .. } => lemma_skipped_variation(r, window, listener),
            State::Trailing => lemma_trailing(r, window, listener),
            _ => lemma_before_headers(r, window, listener),
        }
    }
}

/// What was reported in an earlier turn stays reported, and the buffer was filled
/// then.
proof fn lemma_earlier(r: Run, windows: Seq<int>, n: int, listener: Listener)
    requires
        filled(r, windows, listener),
        0 <= n <= windows.len(),
    ensures
        filled(r, windows.take(n), listener),
        n < windows.len() ==> is_window(
            windows[n],
            read_through(r, windows.take(n), listener),
        ),
        read_through(r, windows.take(n), listener).told.is_prefix_of(
            read_through(r, windows, listener).told,
        ),
    decreases windows.len(),
{
    if n == windows.len() {
        assert(windows.take(n) =~= windows);
    } else {
        let front = windows.drop_last();
        assert(front.take(n) =~= windows.take(n));
        lemma_earlier(r, front, n, listener);
        if n == front.len() {
            assert(windows.take(n) =~= front);
        } else {
            assert(front[n] == windows[n]);
        }
    }
}

/// Turns leave the end of the game where it was, or fail.
proof fn lemma_turns(r: Run, windows: Seq<int>, listener: Listener)
    requires
        is_on(r),
        filled(r, windows, listener),
        no_end_since(r.told, read_through(r, windows, listener).told),
    ensures
        keeps_end(r, read_through(r, windows, listener)),
    decreases windows.len(),
{
    if windows.len() > 0 {
        let front = windows.drop_last();
        let window = windows.last();
        let now = read_through(r, front, listener);
        let after = read_through(r, windows, listener);
        lemma_before_last(r, windows, listener);
        lemma_turns(r, front, listener);
        if now.state is Invalid {
            if now.pending is Some {
                lemma_pending_window(now, window, listener);
            }
        } else {
            lemma_turn(now, window, listener);
        }
    }
}

/// Only after the movetext does a game end.
proof fn lemma_end_game(r: Run, window: int)
    ensures
        next_event(r, window) is EndGame ==> r.state is Trailing && r.pending is None,
        ends(next_event(r, window)) ==> r.pending is None,
{
}

/// However the source deals out its bytes and whoever listens, a game that is read
/// or skipped up to its end ends at the same place: at the first thing that is not
/// blank after its movetext.
pub proof fn a_game_ends_at_its_end(
    input: Seq<u8>,
    told: Told,
    windows: Seq<int>,
    window: int,
    listener: Listener,
)
    requires
        has_tame_movetext(input),
        filled(call(Goal::ReadGame, input, told), windows.push(window), listener),
        ({
            let now = read_through(call(Goal::ReadGame, input, told), windows, listener);
            no_end_since(told, now.told) && next_event(now, window) is EndGame
        }),
    ensures
        ({
            let now = read_through(call(Goal::ReadGame, input, told), windows, listener);
            game_end(input) == Some(next_through(now, window, listener).input)
        }),
{
    let start = call(Goal::ReadGame, input, told);
    let now = read_through(start, windows, listener);
    assert(windows.push(window).drop_last() =~= windows);
    assert(is_window(window, now));
    lemma_turns(start, windows, listener);
    lemma_end_game(now, window);
    lemma_trailing(now, window, listener);
}

/// Whether a state comes before the movetext.
spec fn is_early(state: State) -> bool {
    state is Bom || state is Blank || state is Start || state is BeginHeaders || state is Headers
        || state is Ket
}

/// Before the movetext nothing is asked.
proof fn lemma_early(r: Run, window: int, listener: Listener)
    requires
        is_on(r) || r.state is Invalid,
        is_early(next_through(r, window, listener).state),
        !ends(next_event(r, window)),
    ensures
        is_early(r.state),
        !(next_event(r, window) is EndHeaders),
        !(next_event(r, window) is BeginVariation),
{
    let b = r.input.take(window);
    if r.pending is None && r.state is Movetext && b.len() > 0 && is_plain(b[0]) {
        lemma_read_plain(b);
    }
}

/// Before the movetext it does not matter who listens.
proof fn lemma_same(r: Run, windows: Seq<int>, listener: Listener, other: Listener)
    requires
        is_on(r),
        filled(r, windows, listener),
        no_end_since(r.told, read_through(r, windows, listener).told),
        is_early(read_through(r, windows, listener).state),
    ensures
        read_through(r, windows, other) == read_through(r, windows, listener),
    decreases windows.len(),
{
    if windows.len() > 0 {
        let front = windows.drop_last();
        let now = read_through(r, front, listener);
        lemma_before_last(r, windows, listener);
        lemma_turns(r, front, listener);
        lemma_early(now, windows.last(), listener);
        lemma_same(r, front, listener, other);
    }
}

/// Whether movetext is skipped, or has ended.
spec fn is_late(state: State) -> bool {
    state is SkipMovetext || state is Trailing
}

/// Skipping goes on up to the end of the game.
proof fn lemma_late(r: Run, window: int, listener: Listener)
    requires
        is_late(r.state),
    ensures
        ends(next_event(r, window)) ==> next_event(r, window) is EndGame,
        !ends(next_event(r, window)) ==> is_late(next_through(r, window, listener).state),
{
}

/// Once the headers have ended and the movetext is skipped, skipping goes on up to
/// the end of the game.
proof fn lemma_stays_late(r: Run, windows: Seq<int>, n: int, listener: Listener)
    requires
        filled(r, windows, listener),
        0 <= n < windows.len(),
        no_end_since(r.told, read_through(r, windows, listener).told),
        skips_movetext(listener),
        ({
            let now = read_through(r, windows.take(n), listener);
            now.state is Headers && next_event(now, windows[n]) is EndHeaders
        }),
    ensures
        is_late(read_through(r, windows, listener).state),
    decreases windows.len(),
{
    let front = windows.drop_last();
    let now = read_through(r, front, listener);
    let after = read_through(r, windows, listener);
    lemma_before_last(r, windows, listener);
    if n == front.len() {
        assert(windows.take(n) =~= front);
        assert(after.told.last() is EndHeaders);
        assert(listener(after.told).0);
    } else {
        assert(front.take(n) =~= windows.take(n));
        assert(front[n] == windows[n]);
        lemma_stays_late(r, front, n, listener);
        lemma_late(now, windows.last(), listener);
    }
}

/// If each header fits and the movetext is skipped, no turn fails.
proof fn lemma_stays_valid(r: Run, windows: Seq<int>, listener: Listener)
    requires
        is_on(r),
        is_early(r.state),
        end_of(r) is Some,
        filled(r, windows, listener),
        roomy(r, windows, listener),
        no_end_since(r.told, read_through(r, windows, listener).told),
        skips_movetext(listener),
    ensures
        ({
            let now = read_through(r, windows, listener);
            &&& is_early(now.state) || is_late(now.state)
            &&& is_on(now)
            &&& end_of(now) == end_of(r)
        }),
    decreases windows.len(),
{
    if windows.len() > 0 {
        let front = windows.drop_last();
        let window = windows.last();
        let now = read_through(r, front, listener);
        let after = read_through(r, windows, listener);
        lemma_before_last(r, windows, listener);
        lemma_stays_valid(r, front, listener);
        lemma_turn(now, window, listener);
        if is_late(now.state) {
            lemma_late(now, window, listener);
        } else if now.pending is Some {
            lemma_pending_window(now, window, listener);
        } else {
            if now.state is Headers || now.state is Ket {
                lemma_headers(now, window, listener);
            }
            if next_event(now, window) is EndHeaders {
                assert(after.told.last() is EndHeaders);
                assert(listener(after.told).0);
            }
        }
    }
}

/// Whether two sources deal out their bytes alike, up to the end of the headers.
pub open spec fn deal_headers_alike(
    r: Run,
    windows: Seq<int>,
    others: Seq<int>,
    listener: Listener,
) -> bool {
    exists|n: int|
        0 <= n < windows.len() && n < others.len() && #[trigger] windows.take(n) == others.take(n)
            && next_event(read_through(r, windows.take(n), listener), windows[n]) is EndHeaders
}

/// Where the headers end in one window, they do in another.
proof fn lemma_end_headers(r: Run, window: int, other: int)
    requires
        is_on(r) || r.state is Invalid,
        next_event(r, window) is EndHeaders,
        is_window(window, r),
        is_window(other, r),
    ensures
        r.state is Headers,
        next_event(r, other) is EndHeaders,
{
    let b = r.input.take(window);
    if r.pending is None && r.state is Movetext && b.len() > 0 && is_plain(b[0]) {
        lemma_read_plain(b);
    }
    if b.len() > 0 {
        assert(b[0] == r.input[0]);
        assert(r.input.take(other)[0] == r.input[0]);
    }
}

/// Before its movetext a game does not end, unless one of its headers has no end.
proof fn lemma_no_early_end(r: Run, window: int)
    requires
        is_on(r),
        is_early(r.state),
        end_of(r) is Some,
        is_window(window, r),
    ensures
        !ends(next_event(r, window)),
{
    if r.pending is None && r.state is Start {
        assert(r.input.len() > 0);
    }
}

/// A reader that gets the headers as one got them that did not fail, and skips the
/// movetext, does not fail.
proof fn lemma_skips_alike(
    r: Run,
    windows: Seq<int>,
    listener: Listener,
    others: Seq<int>,
    skipping: Listener,
)
    requires
        is_on(r),
        filled(r, windows, listener),
        no_end_since(r.told, read_through(r, windows, listener).told),
        skips_movetext(skipping),
        filled(r, others, skipping),
        no_end_since(r.told, read_through(r, others, skipping).told),
        deal_headers_alike(r, windows, others, listener),
    ensures
        is_late(read_through(r, others, skipping).state),
{
    let n = choose|n: int|
        0 <= n < windows.len() && n < others.len() && #[trigger] windows.take(n) == others.take(n)
            && next_event(read_through(r, windows.take(n), listener), windows[n]) is EndHeaders;
    let headers = windows.take(n);
    let now = read_through(r, headers, listener);
    let last = read_through(r, windows, listener);
    lemma_earlier(r, windows, n, listener);
    lemma_earlier(r, others, n, skipping);
    assert forall|i: int| r.told.len() <= i < now.told.len() implies !ends(
        #[trigger] now.told[i],
    ) by {
        assert(last.told[i] == now.told[i]);
    }
    lemma_turns(r, headers, listener);
    assert(now.state is Headers) by {
        lemma_end_headers(now, windows[n], windows[n]);
    }
    lemma_same(r, headers, listener, skipping);
    lemma_end_headers(now, windows[n], others[n]);
    lemma_stays_late(r, others, n, skipping);
}

/// Skipping a game passes over exactly what reading it does. If a game was read up
/// to its end, whichever of its variations were skipped, and the same input is read
/// with the movetext skipped, then that ends with a game, too, and the same bytes
/// are left. The second reader has to get the headers as the first one got them,
/// or each header has to fit into the smallest buffer. (That it comes to an end at
/// all is `progress::reading_ends`.)
pub proof fn skipping_passes_over_what_reading_does(
    input: Seq<u8>,
    told: Told,
    read_windows: Seq<int>,
    read_window: int,
    reading: Listener,
    skip_windows: Seq<int>,
    skip_window: int,
    skipping: Listener,
)
    requires
        has_tame_movetext(input),
        filled(call(Goal::ReadGame, input, told), read_windows.push(read_window), reading),
        ({
            let now = read_through(call(Goal::ReadGame, input, told), read_windows, reading);
            no_end_since(told, now.told) && next_event(now, read_window) is EndGame
        }),
        skips_movetext(skipping),
        filled(call(Goal::ReadGame, input, told), skip_windows.push(skip_window), skipping),
        ({
            let now = read_through(call(Goal::ReadGame, input, told), skip_windows, skipping);
            no_end_since(told, now.told) && ends(next_event(now, skip_window))
        }),
        ({
            let start = call(Goal::ReadGame, input, told);
            ||| deal_headers_alike(start, read_windows, skip_windows, reading)
            ||| roomy(start, skip_windows, skipping)
        }),
    ensures
        ({
            let start = call(Goal::ReadGame, input, told);
            let read = read_through(start, read_windows, reading);
            let skipped = read_through(start, skip_windows, skipping);
            &&& next_event(skipped, skip_window) is EndGame
            &&& next_through(skipped, skip_window, skipping).input == next_through(
                read,
                read_window,
                reading,
            ).input
        }),
{
    let start = call(Goal::ReadGame, input, told);
    let skipped = read_through(start, skip_windows, skipping);
    a_game_ends_at_its_end(input, told, read_windows, read_window, reading);
    assert(read_windows.push(read_window).drop_last() =~= read_windows);
    assert(skip_windows.push(skip_window).drop_last() =~= skip_windows);
    if roomy(start, skip_windows, skipping) {
        lemma_stays_valid(start, skip_windows, skipping);
        if is_early(skipped.state) {
            lemma_no_early_end(skipped, skip_window);
        }
    } else {
        lemma_skips_alike(start, read_windows, reading, skip_windows, skipping);
    }
    lemma_late(skipped, skip_window, skipping);
    a_game_ends_at_its_end(input, told, skip_windows, skip_window, skipping);
}

/// Whether bytes hold no percent sign.
spec fn has_no_percent(s: Seq<u8>) -> bool {
    forall|i: int| 0 <= i < s.len() ==> s[i] != PERCENT
}

/// What is left holds no percent sign, either.
proof fn lemma_no_percent_left(s: Seq<u8>)
    requires
        has_no_percent(s),
    ensures
        forall|k: int| 0 <= k <= s.len() ==> has_no_percent(#[trigger] s.skip(k)),
        forall|needle: u8| has_no_percent(#[trigger] before(s, needle)),
        forall|needle: u8| has_no_percent(#[trigger] past(s, needle)),
{
    assert forall|needle: u8| has_no_percent(#[trigger] before(s, needle)) by {
        lemma_suffix(s, needle);
    }
    assert forall|needle: u8| has_no_percent(#[trigger] past(s, needle)) by {
        lemma_suffix(s, needle);
    }
}

/// After blanks there is no percent sign, either.
proof fn lemma_no_percent_blank(s: Seq<u8>)
    requires
        has_no_percent(s),
    ensures
        has_no_percent(after_blank(s)),
    decreases s.len(),
{
    if s.len() > 0 && is_blank(s[0]) {
        lemma_no_percent_left(s);
        lemma_no_percent_blank(s.skip(1));
    }
}

/// After headers there is no percent sign, either.
proof fn lemma_no_percent_headers(s: Seq<u8>, ket: bool)
    requires
        has_no_percent(s),
    ensures
        after_headers(s, ket) matches Some(rest) ==> has_no_percent(rest),
    decreases
            s.len(),
            if ket {
                1int
            } else {
                0int
            },
{
    if s.len() > 0 {
        lemma_no_percent_left(s);
        if ket {
            lemma_no_percent_headers(s.skip(1), true);
            lemma_no_percent_headers(s.skip(1), false);
            lemma_no_percent_headers(s, false);
        } else if s[0] == BRACKET {
            lemma_find(s, QUOTE, LF, CLOSE_BRACKET, 1);
            if let Some(i) = find(s, QUOTE, LF, CLOSE_BRACKET, 1) {
                lemma_no_percent_headers(s.skip(i + 1), true);
                lemma_quoted_end(s, i + 1);
                if let Some(e) = quoted_end(s, i + 1) {
                    lemma_no_percent_headers(s.skip(e), true);
                    lemma_no_percent_headers(s.skip(e + 1), true);
                }
            }
        }
    }
}

/// Movetext without a percent sign is tame.
proof fn lemma_no_percent_tame(s: Seq<u8>)
    requires
        has_no_percent(s),
    ensures
        is_tame(s),
    decreases s.len(),
{
    if s.len() > 0 {
        let rest = s.skip(1);
        lemma_no_percent_left(s);
        lemma_no_percent_left(rest);
        lemma_after_skip(rest, CLOSE_BRACE);
        lemma_after_skip(rest, LF);
        lemma_no_percent_tame(rest);
        lemma_no_percent_tame(past(rest, CLOSE_BRACE));
        lemma_no_percent_tame(before(rest, LF));
    }
}

/// Input without a percent sign has tame movetext.
pub proof fn without_percent_signs_movetext_is_tame(input: Seq<u8>)
    requires
        !input.contains(PERCENT),
    ensures
        has_tame_movetext(input),
{
    assert forall|i: int| 0 <= i < input.len() implies input[i] != PERCENT by {
        assert(input.contains(input[i]));
    }
    lemma_no_percent_left(input);
    lemma_no_percent_blank(after_bom(input));
    lemma_no_percent_headers(next_game(input), false);
    if let Some(s) = next_movetext(input) {
        lemma_no_percent_tame(s);
    }
}

} // verus!
