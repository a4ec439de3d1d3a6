//! Where movetext ends.
use crate::ascii::{
    BRACE, BRACKET, CLOSE_BRACE, CLOSE_PAREN, CR, LF, MINUS, ONE, PAREN, PERCENT, SEMICOLON, SLASH,
    TWO, ZERO,
};
use crate::bytes::{
    byte_at, find_byte, has_at, is_delimiter, lemma_find, lemma_token_end, token_end,
};
use crate::games::call;
use crate::grammar::{Event, Goal, State, read_movetext, turn_in};
use crate::progress::{half_empty_line_at, stays_unstuck};
use crate::run::{Listener, Run, a_turn_drops_a_prefix, next, reads_variations};
use crate::skipping::{
    after_blank, before, lemma_after_blank, lemma_after_skip, lemma_blank, lemma_find_rest,
    lemma_reaches_after, lemma_reaches_next, lemma_reaches_through, lemma_skip, lemma_suffix, past,
    reaches,
};
use vstd::prelude::*;

verus! {

/// What is left when movetext ends: from an empty line on, or from a line that
/// starts with a bracket. Comments in braces, comments up to the end of a line,
/// and lines that start with a percent sign do not count.
pub open spec fn after_movetext(s: Seq<u8>) -> Seq<u8>
    decreases s.len(),
{
    proof {
        lemma_after_skip(s.skip(1), CLOSE_BRACE);
        lemma_after_skip(s.skip(1), LF);
    }
    if s.len() == 0 {
        s
    } else if s[0] == BRACE {
        after_movetext(past(s.skip(1), CLOSE_BRACE))
    } else if s[0] == SEMICOLON {
        after_movetext(before(s.skip(1), LF))
    } else if s[0] == LF && byte_at(s, 1, PERCENT) {
        after_movetext(before(s.skip(1), LF))
    } else if s[0] == LF && (byte_at(s, 1, LF) || byte_at(s, 1, BRACKET)) {
        s.skip(1)
    } else if s[0] == LF && byte_at(s, 1, CR) && byte_at(s, 2, LF) {
        s.skip(2)
    } else {
        after_movetext(s.skip(1))
    }
}

/// Bytes that neither end movetext nor start a comment or a line.
pub open spec fn is_plain(byte: u8) -> bool {
    byte != LF && byte != BRACE && byte != SEMICOLON
}

/// Bytes that besides neither start nor end a variation.
pub open spec fn is_flat(byte: u8) -> bool {
    is_plain(byte) && byte != PAREN && byte != CLOSE_PAREN
}

/// Plain bytes can be dropped at once.
pub proof fn lemma_plain_bytes(s: Seq<u8>, n: int)
    requires
        0 <= n <= s.len(),
        forall|i: int| 0 <= i < n ==> is_plain(s[i]),
    ensures
        after_movetext(s) == after_movetext(s.skip(n)),
    decreases n,
{
    if n > 0 {
        assert(is_plain(s[0]));
        let rest = s.skip(1);
        assert forall|i: int| 0 <= i < n - 1 implies is_plain(rest[i]) by {
            assert(is_plain(s[i + 1]));
        }
        lemma_plain_bytes(rest, n - 1);
        assert(rest.skip(n - 1) =~= s.skip(n));
    } else {
        assert(s.skip(0) =~= s);
    }
}

/// Skipping movetext drops it up to its end, and reports nothing.
pub proof fn skipping_movetext_gets_to_its_end(r: Run, listener: Listener)
    requires
        r.state is SkipMovetext,
        r.pending is None,
    ensures
        reaches(
            r,
            (Run { state: State::Trailing, input: after_movetext(r.input), ..r }),
            listener,
        ),
    decreases r.input.len(),
{
    let s = r.input;
    let to = Run { state: State::Trailing, input: after_movetext(s), ..r };
    let one = next(r, listener);
    a_turn_drops_a_prefix(r.state, r.pending, s);
    lemma_reaches_next(r, listener);
    if s.len() == 0 {
        assert(one =~= to);
    } else if one.state is Trailing {
        assert(one =~= to);
    } else if one.pending is Some {
        lemma_after_skip(s.skip(1), CLOSE_BRACE);
        lemma_after_skip(s.skip(1), LF);
        lemma_skip(one, listener);
        let two = Run {
            input: if s[0] == BRACE {
                past(s.skip(1), CLOSE_BRACE)
            } else {
                before(s.skip(1), LF)
            },
            ..r
        };
        assert(reaches(one, two, listener));
        skipping_movetext_gets_to_its_end(two, listener);
        lemma_reaches_through(one, two, to, listener);
        lemma_reaches_after(r, to, listener);
    } else {
        let n = turn_in(r.state, s).consumed;
        lemma_find(s, LF, BRACE, SEMICOLON, 1);
        if s[0] == LF {
            if byte_at(s, 1, CR) {
                assert(s.skip(1)[0] == CR);
                assert(s.skip(1).skip(1) =~= s.skip(2));
                assert(after_movetext(s.skip(1)) == after_movetext(s.skip(2)));
            }
        } else {
            lemma_plain_bytes(s, n);
        }
        skipping_movetext_gets_to_its_end(one, listener);
        assert(one.input == s.skip(n));
        assert(after_movetext(s) == after_movetext(one.input));
        lemma_reaches_after(r, to, listener);
    }
}

/// Whether a line break is followed by what ends movetext, or by a percent sign.
pub open spec fn ends_line_specially(s: Seq<u8>) -> bool {
    byte_at(s, 1, PERCENT) || byte_at(s, 1, LF) || byte_at(s, 1, BRACKET) || byte_at(s, 1, CR)
        && byte_at(s, 2, LF)
}

/// Whether a line of movetext that starts with a percent sign is neither the last
/// one nor followed by another, and, if `closed`, each comment in braces is closed.
pub open spec fn is_orderly(s: Seq<u8>, closed: bool) -> bool
    decreases s.len(),
{
    proof {
        lemma_after_skip(s.skip(1), CLOSE_BRACE);
        lemma_after_skip(s.skip(1), LF);
    }
    if s.len() == 0 {
        true
    } else if s[0] == BRACE {
        &&& closed ==> find_byte(s.skip(1), CLOSE_BRACE) is Some
        &&& is_orderly(past(s.skip(1), CLOSE_BRACE), closed)
    } else if s[0] == SEMICOLON {
        is_orderly(before(s.skip(1), LF), closed)
    } else if s[0] == LF && byte_at(s, 1, PERCENT) {
        !ends_line_specially(before(s.skip(1), LF)) && is_orderly(before(s.skip(1), LF), closed)
    } else if s[0] == LF && ends_line_specially(s) {
        true
    } else {
        is_orderly(s.skip(1), closed)
    }
}

/// Whether lines of movetext that start with a percent sign are neither the last
/// ones nor followed by another.
pub open spec fn is_tame(s: Seq<u8>) -> bool {
    is_orderly(s, false)
}

/// Whether movetext is tame, and each comment in braces is closed.
pub open spec fn is_regular(s: Seq<u8>) -> bool {
    is_orderly(s, true)
}

/// Plain bytes keep movetext in order.
pub proof fn lemma_plain_orderly(s: Seq<u8>, n: int, closed: bool)
    requires
        0 <= n <= s.len(),
        forall|i: int| 0 <= i < n ==> is_plain(s[i]),
    ensures
        is_orderly(s, closed) == is_orderly(s.skip(n), closed),
    decreases n,
{
    if n > 0 {
        assert(is_plain(s[0]));
        let rest = s.skip(1);
        assert forall|i: int| 0 <= i < n - 1 implies is_plain(rest[i]) by {
            assert(is_plain(s[i + 1]));
        }
        lemma_plain_orderly(rest, n - 1, closed);
        assert(rest.skip(n - 1) =~= s.skip(n));
    } else {
        assert(s.skip(0) =~= s);
    }
}

/// Known flat bytes are flat.
proof fn lemma_has_flat(s: Seq<u8>, from: int, prefix: Seq<u8>)
    requires
        forall|i: int| 0 <= i < prefix.len() ==> is_flat(#[trigger] prefix[i]),
    ensures
        has_at(s, from, prefix) ==> forall|i: int|
            from <= i < from + prefix.len() ==> is_flat(#[trigger] s[i]),
{
    if has_at(s, from, prefix) {
        assert forall|i: int| from <= i < from + prefix.len() implies is_flat(#[trigger] s[i]) by {
            assert(s[from + (i - from)] == prefix[i - from]);
        }
    }
}

/// In a turn that starts with a plain byte, only flat bytes are read after it.
pub proof fn lemma_read_plain(s: Seq<u8>)
    requires
        s.len() > 0,
        is_plain(s[0]),
    ensures
        ({
            let t = read_movetext(s);
            &&& 1 <= t.consumed <= s.len()
            &&& forall|i: int| 1 <= i < t.consumed ==> is_flat(s[i])
            &&& t.pending is None
            &&& t.state is Movetext || t.state is BeginVariation
            &&& t.state is BeginVariation <==> s[0] == PAREN
            &&& t.event is BeginVariation <==> s[0] == PAREN
            &&& t.event is EndVariation <==> s[0] == CLOSE_PAREN
            &&& !(t.event is EndHeaders)
        }),
{
    let t = read_movetext(s);
    lemma_token_end(s, 1);
    assert forall|i: int| 1 <= i < t.consumed implies is_flat(s[i]) by {
        lemma_has_flat(s, 1, seq![MINUS, ZERO]);
        lemma_has_flat(s, 1, seq![MINUS, ONE]);
        lemma_has_flat(s, 3, seq![MINUS, ZERO]);
        lemma_has_flat(s, 1, seq![SLASH, TWO, MINUS, ONE, SLASH, TWO]);
        if 1 <= i < token_end(s, 1) {
            assert(!is_delimiter(s[i]));
        }
    }
}

/// Whether reading has come nearer to the end of the movetext.
spec fn is_nearer(from: Run, to: Run) -> bool {
    &&& to.pending is None
    &&& exists|k: int| 0 <= k <= from.input.len() && to.input == #[trigger] from.input.skip(k)
    &&& if to.state is Trailing {
        to.input == after_movetext(from.input)
    } else {
        &&& to.state is Movetext || to.state is SkipVariation
        &&& after_movetext(to.input) == after_movetext(from.input)
        &&& is_regular(to.input)
        &&& to.input.len() < from.input.len() || to.input == from.input
            && from.state is SkipVariation && to.state is Movetext
    }
}

/// Reading regular movetext comes nearer to its end.
proof fn lemma_read_nearer(r: Run, listener: Listener) -> (to: Run)
    requires
        r.state is Movetext,
        r.pending is None,
        is_regular(r.input),
    ensures
        reaches(r, to, listener),
        is_nearer(r, to),
        reads_variations(listener) ==> !(to.state is SkipVariation),
{
    let s = r.input;
    let one = next(r, listener);
    lemma_reaches_next(r, listener);
    if s.len() == 0 {
        assert(s.skip(0) =~= s);
        assert(is_nearer(r, one));
        one
    } else if s[0] == BRACE {
        lemma_find_rest(s, CLOSE_BRACE);
        lemma_find(s.skip(1), CLOSE_BRACE, CLOSE_BRACE, CLOSE_BRACE, 0);
        let i = find_byte(s.skip(1), CLOSE_BRACE)->0;
        assert(one.input =~= s.skip(1).skip(i + 1));
        assert(one.input == s.skip(i + 2));
        assert(is_nearer(r, one));
        one
    } else if s[0] == SEMICOLON {
        lemma_skip(one, listener);
        let to = Run { input: before(s.skip(1), LF), ..r };
        lemma_after_skip(s.skip(1), LF);
        lemma_suffix(s.skip(1), LF);
        let k = choose|k: int|
            0 <= k <= s.skip(1).len() && to.input == #[trigger] s.skip(1).skip(k);
        assert(to.input =~= s.skip(1 + k));
        lemma_reaches_through(r, one, to, listener);
        assert(is_nearer(r, to));
        to
    } else if s[0] == LF {
        if byte_at(s, 1, PERCENT) {
            lemma_skip(one, listener);
            let to = Run { input: past(s.skip(2), LF), ..r };
            let line = before(s.skip(1), LF);
            assert(s.skip(1).skip(1) =~= s.skip(2));
            lemma_find_rest(s.skip(1), LF);
            lemma_after_skip(s.skip(1), LF);
            lemma_suffix(s.skip(1), LF);
            let k = choose|k: int|
                0 <= k <= s.skip(1).len() && to.input == #[trigger] s.skip(1).skip(k);
            assert(to.input =~= s.skip(1 + k));
            lemma_reaches_through(r, one, to, listener);
            if line.len() > 0 {
                assert(after_movetext(line) == after_movetext(line.skip(1)));
                assert(is_regular(line) == is_regular(line.skip(1)));
            }
            assert(is_nearer(r, to));
            to
        } else {
            if byte_at(s, 1, CR) {
                let rest = s.skip(1);
                assert(rest.skip(1) =~= s.skip(2));
                assert(after_movetext(rest) == after_movetext(s.skip(2)));
                assert(is_regular(rest) == is_regular(s.skip(2)));
            }
            assert(one.input == s.skip(1) || one.input == s.skip(2));
            assert(is_nearer(r, one));
            one
        }
    } else {
        lemma_read_plain(s);
        let n = read_movetext(s).consumed;
        lemma_plain_bytes(s, n);
        lemma_plain_orderly(s, n, true);
        assert(one.input == s.skip(n));
        if s[0] == PAREN {
            assert(one.told.last() is BeginVariation);
        }
        assert(is_nearer(r, one));
        one
    }
}

/// Skipping a variation in regular movetext comes nearer to its end.
proof fn lemma_skip_nearer(r: Run, listener: Listener) -> (to: Run)
    requires
        r.state is SkipVariation,
        r.pending is None,
        is_regular(r.input),
        !half_empty_line_at(r.input, 0),
    ensures
        reaches(r, to, listener),
        is_nearer(r, to),
{
    let s = r.input;
    let one = next(r, listener);
    lemma_reaches_next(r, listener);
    assert(s.skip(0) =~= s);
    if one.pending is Some {
        lemma_skip(one, listener);
        let rest = if s[0] == BRACE {
            past(s.skip(1), CLOSE_BRACE)
        } else {
            before(s.skip(1), LF)
        };
        let to = Run { input: rest, ..r };
        if s[0] == LF {
            assert(s.skip(1).skip(1) =~= s.skip(2));
            lemma_find_rest(s.skip(1), LF);
        }
        assert(reaches(one, to, listener));
        lemma_after_skip(s.skip(1), LF);
        lemma_after_skip(s.skip(1), CLOSE_BRACE);
        lemma_suffix(s.skip(1), LF);
        lemma_suffix(s.skip(1), CLOSE_BRACE);
        let k = choose|k: int|
            0 <= k <= s.skip(1).len() && to.input == #[trigger] s.skip(1).skip(k);
        assert(to.input =~= s.skip(1 + k));
        lemma_reaches_through(r, one, to, listener);
        to
    } else {
        one
    }
}

/// Reading movetext gets to the same place as skipping it, whichever variations
/// are skipped on the way. The movetext has to be regular, and to hold no line
/// break and carriage return without a second line break if variations are
/// skipped.
pub proof fn reading_movetext_gets_to_its_end(r: Run, listener: Listener) -> (to: Run)
    requires
        r.state is Movetext || r.state is SkipVariation,
        r.pending is None,
        is_regular(r.input),
        stays_unstuck(r, listener),
    ensures
        reaches(r, to, listener),
        to.state is Trailing,
        to.pending is None,
        to.input == after_movetext(r.input),
    decreases
            r.input.len(),
            if r.state is SkipVariation {
                1int
            } else {
                0int
            },
{
    let by = if r.state is Movetext {
        lemma_read_nearer(r, listener)
    } else {
        lemma_skip_nearer(r, listener)
    };
    if by.state is Trailing {
        by
    } else {
        let k = choose|k: int|
            0 <= k <= r.input.len() && by.input == #[trigger] r.input.skip(k);
        if forall|i: int| !#[trigger] half_empty_line_at(r.input, i) {
            assert forall|i: int| !#[trigger] half_empty_line_at(by.input, i) by {
                assert(!half_empty_line_at(r.input, i + k));
            }
        }
        let to = reading_movetext_gets_to_its_end(by, listener);
        lemma_reaches_through(r, by, to, listener);
        to
    }
}

/// Whether the movetext of a game is read or skipped, and whichever variations
/// are skipped, the game ends at the same place: at the first thing that is not
/// blank after its movetext. (See `reading_movetext_gets_to_its_end` for what is
/// asked of the movetext if it is read.)
pub proof fn games_end_alike(r: Run, listener: Listener) -> (to: Run)
    requires
        r.pending is None,
        ({
            ||| r.state is SkipMovetext
            ||| {
                &&& r.state is Movetext
                &&& is_regular(r.input)
                &&& stays_unstuck(r, listener)
            }
        }),
    ensures
        reaches(r, to, listener),
        to == call(Goal::ReadGame, after_blank(after_movetext(r.input)), to.told),
        to.told.len() > 0,
        to.told.last() is EndGame,
        r.state is SkipMovetext ==> to.told == r.told.push(Event::EndGame),
{
    let end = if r.state is SkipMovetext {
        skipping_movetext_gets_to_its_end(r, listener);
        Run { state: State::Trailing, input: after_movetext(r.input), ..r }
    } else {
        reading_movetext_gets_to_its_end(r, listener)
    };
    let rest = after_blank(end.input);
    let blank = Run { input: rest, ..end };
    let to = call(Goal::ReadGame, rest, end.told.push(Event::EndGame));
    lemma_blank(end, listener);
    lemma_after_blank(end.input);
    lemma_reaches_through(r, end, blank, listener);
    assert(rest.skip(0) =~= rest);
    assert(next(blank, listener) =~= to);
    lemma_reaches_next(blank, listener);
    lemma_reaches_through(r, blank, to, listener);
    to
}

} // verus!
