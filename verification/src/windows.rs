//! How the source deals out its bytes does not matter.
use crate::ascii::{
    BACKSLASH, BRACE, BRACKET, CLOSE_BRACE, CLOSE_BRACKET, LF, MINUS, ONE, QUOTE, SEMICOLON, SLASH,
    TWO, ZERO,
};
use crate::buffer::{BUFFER_SIZE, MIN_BUFFER_SIZE};
use crate::bytes::{
    find, find_byte, has_at, is_delimiter, lemma_find, lemma_find_none, lemma_find_some,
    lemma_quoted_end, lemma_token_end, quoted_end, token_end,
};
use crate::grammar::{State, bom, fills, first_token, read_headers, read_movetext, turn};
use crate::reader::BufferedReader;
use crate::run::{
    Listener, Run, Told, a_turn_drops_a_prefix, next, next_through, read, read_through, run_of,
};
use crate::skipping::{due, lemma_drop};
use vstd::prelude::*;

verus! {

/// Whether the buffer may hold just the first `window` bytes of what is left: at
/// least `MIN_BUFFER_SIZE` or all, where the buffer is filled before the turn.
pub open spec fn is_window(window: int, r: Run) -> bool {
    if fills(r.state, r.pending) {
        window == r.input.len() || MIN_BUFFER_SIZE <= window <= r.input.len()
    } else {
        0 <= window <= r.input.len()
    }
}

/// Number of bytes up to the end of the header, comment or token at the front of
/// what is left, where one is about to be read. A comment, and the key of a header,
/// need not have an end.
pub open spec fn reach(state: State, input: Seq<u8>) -> int {
    match state {
        State::Headers => if input.len() > 0 && input[0] == BRACKET {
            match find(input, QUOTE, LF, CLOSE_BRACKET, 1) {
                None => 0,
                Some(i) => if input[i] != QUOTE {
                    i + 1
                } else {
                    match quoted_end(input, i + 1) {
                        None => input.len() as int,
                        Some(e) => e + 1,
                    }
                },
            }
        } else {
            0
        },
        State::Movetext => if read_movetext(input).state is Invalid {
            0
        } else {
            read_movetext(input).consumed
        },
        _ => 0,
    }
}

/// Whether the header, comment or token that is about to be read fits into the
/// smallest buffer.
pub open spec fn fits(r: Run) -> bool {
    ||| r.input.len() <= MIN_BUFFER_SIZE
    ||| r.pending is Some
    ||| reach(r.state, r.input) <= MIN_BUFFER_SIZE
}

/// What is found in a window is found in the whole, and the other way round.
pub proof fn lemma_find_take(s: Seq<u8>, a: u8, b: u8, c: u8, from: int, w: int)
    requires
        0 <= from <= w <= s.len(),
    ensures
        find(s.take(w), a, b, c, from) == (match find(s, a, b, c, from) {
            Some(i) => if i < w {
                Some(i)
            } else {
                None
            },
            None => None,
        }),
{
    lemma_find(s, a, b, c, from);
    match find(s, a, b, c, from) {
        Some(i) => {
            if i < w {
                lemma_find_some(s.take(w), a, b, c, from, i);
            } else {
                lemma_find_none(s.take(w), a, b, c, from);
            }
        },
        None => {
            lemma_find_none(s.take(w), a, b, c, from);
        },
    }
}

/// Dropping bytes that are not searched for moves what is found.
proof fn lemma_find_skip(s: Seq<u8>, a: u8, b: u8, c: u8, from: int, w: int, to: int)
    requires
        0 <= from <= w + to <= s.len(),
        0 <= w,
        0 <= to,
        find(s.take(w + to), a, b, c, from) is None,
    ensures
        find(s.skip(w), a, b, c, to) == (match find(s, a, b, c, from) {
            Some(i) => Some(i - w),
            None => None,
        }),
{
    lemma_find_take(s, a, b, c, from, w + to);
    lemma_find(s, a, b, c, from);
    match find(s, a, b, c, from) {
        Some(i) => {
            lemma_find_some(s.skip(w), a, b, c, to, i - w);
        },
        None => {
            lemma_find_none(s.skip(w), a, b, c, to);
        },
    }
}

/// A token that ends in a window ends at the same place in the whole.
proof fn lemma_token_end_take(s: Seq<u8>, from: int, w: int)
    requires
        0 <= from <= w <= s.len(),
        token_end(s, from) <= w,
    ensures
        token_end(s.take(w), from) == token_end(s, from),
    decreases w - from,
{
    if from < w {
        if !is_delimiter(s[from]) {
            lemma_token_end_take(s, from + 1, w);
        }
    } else {
        lemma_token_end(s, from);
    }
}

/// A quoted text that ends in a window ends at the same place in the whole.
pub proof fn lemma_quoted_end_take(s: Seq<u8>, from: int, w: int)
    requires
        0 <= from,
        w <= s.len(),
        quoted_end(s, from) matches Some(e) && e < w,
    ensures
        quoted_end(s.take(w), from) == quoted_end(s, from),
    decreases s.len() + 1 - from,
{
    lemma_quoted_end(s, from);
    if s[from] == BACKSLASH {
        lemma_quoted_end_take(s, from + 2, w);
    } else if s[from] != QUOTE && s[from] != LF {
        lemma_quoted_end_take(s, from + 1, w);
    }
}

/// A quoted text that does not end in a window does not end there.
pub proof fn lemma_quoted_end_cut(s: Seq<u8>, from: int, w: int)
    requires
        0 <= from,
        0 <= w <= s.len(),
        quoted_end(s, from) matches Some(e) ==> e >= w,
    ensures
        quoted_end(s.take(w), from) is None,
    decreases s.len() + 1 - from,
{
    lemma_quoted_end(s, from);
    if from < w {
        if s[from] == BACKSLASH {
            lemma_quoted_end_cut(s, from + 2, w);
        } else if s[from] != QUOTE && s[from] != LF {
            lemma_quoted_end_cut(s, from + 1, w);
        }
    }
}

/// Whether bytes stand somewhere can be seen in a window that reaches so far.
pub proof fn lemma_has_at_take(s: Seq<u8>, from: int, prefix: Seq<u8>, w: int)
    requires
        0 <= from,
        from + prefix.len() <= w <= s.len(),
    ensures
        has_at(s.take(w), from, prefix) == has_at(s, from, prefix),
{
    let t = s.take(w);
    if has_at(t, from, prefix) {
        assert forall|i: int| 0 <= i < prefix.len() implies s[from + i] == #[trigger] prefix[i] by {
            assert(t[from + i] == prefix[i]);
        }
    }
    if has_at(s, from, prefix) {
        assert forall|i: int| 0 <= i < prefix.len() implies t[from + i] == #[trigger] prefix[i] by {
            assert(s[from + i] == prefix[i]);
        }
    }
}

/// A header that ends in a window is read in the window as in the whole.
proof fn lemma_headers_take(s: Seq<u8>, w: int)
    requires
        MIN_BUFFER_SIZE <= w <= s.len(),
        reach(State::Headers, s) <= MIN_BUFFER_SIZE < s.len(),
        s[0] == BRACKET ==> find(s, QUOTE, LF, CLOSE_BRACKET, 1) is Some,
    ensures
        read_headers(s.take(w)) == read_headers(s),
{
    let t = s.take(w);
    assert(t[0] == s[0]);
    if s[0] == BRACKET {
        lemma_find_take(s, QUOTE, LF, CLOSE_BRACKET, 1, w);
        lemma_find(s, QUOTE, LF, CLOSE_BRACKET, 1);
        if let Some(i) = find(s, QUOTE, LF, CLOSE_BRACKET, 1) {
            if s[i] == QUOTE {
                lemma_quoted_end(s, i + 1);
                if let Some(e) = quoted_end(s, i + 1) {
                    lemma_quoted_end_take(s, i + 1, w);
                    assert(t[i] == s[i] && t[i - 1] == s[i - 1] && t[e] == s[e]);
                    assert(t.subrange(1, i) =~= s.subrange(1, i));
                    assert(i > 1 ==> t.subrange(1, i - 1) =~= s.subrange(1, i - 1));
                    assert(t.subrange(i + 1, e) =~= s.subrange(i + 1, e));
                }
            }
        }
    }
}

/// A comment or token that ends in a window is read in the window as in the
/// whole.
proof fn lemma_movetext_take(s: Seq<u8>, w: int)
    requires
        MIN_BUFFER_SIZE <= w <= s.len(),
        reach(State::Movetext, s) <= MIN_BUFFER_SIZE < s.len(),
        !(read_movetext(s).state is Invalid),
    ensures
        read_movetext(s.take(w)) == read_movetext(s),
{
    let t = s.take(w);
    assert(t[0] == s[0] && t[1] == s[1] && t[2] == s[2]);
    lemma_token_end(s, 1);
    if s[0] == BRACE {
        lemma_find_take(s, CLOSE_BRACE, CLOSE_BRACE, CLOSE_BRACE, 1, w);
        lemma_find(s, CLOSE_BRACE, CLOSE_BRACE, CLOSE_BRACE, 1);
        if let Some(i) = find(s, CLOSE_BRACE, CLOSE_BRACE, CLOSE_BRACE, 1) {
            assert(t.subrange(1, i) =~= s.subrange(1, i));
        }
    } else if s[0] == ONE {
        lemma_has_at_take(s, 1, seq![MINUS, ZERO], w);
        lemma_has_at_take(s, 1, seq![SLASH, TWO, MINUS, ONE, SLASH, TWO], w);
        if token_end(s, 1) <= w {
            lemma_token_end_take(s, 1, w);
        }
    } else if s[0] == ZERO {
        lemma_has_at_take(s, 1, seq![MINUS, ONE], w);
        lemma_has_at_take(s, 1, seq![MINUS, ZERO], w);
        lemma_has_at_take(s, 3, seq![MINUS, ZERO], w);
        assert(t[3] == s[3] && t[5] == s[5]);
        if token_end(s, 1) <= w {
            lemma_token_end_take(s, 1, w);
        }
    } else if token_end(s, 1) <= w {
        lemma_token_end_take(s, 1, w);
        assert(first_token(t) =~= first_token(s));
        assert(t.subrange(1, token_end(s, 1)) =~= s.subrange(1, token_end(s, 1)));
    }
}

/// Through a window, pending bytes are dropped, or some of them.
pub proof fn lemma_pending_window(r: Run, window: int, listener: Listener)
    requires
        is_window(window, r),
        r.pending is Some,
    ensures
        ({
            let through = next_through(r, window, listener);
            &&& through.state == r.state
            &&& through.told == r.told
            &&& due(through) == due(r)
            &&& through.pending is Some ==> through.pending == r.pending && through.input.len()
                < r.input.len()
        }),
{
    let s = r.input;
    let skip = r.pending->0;
    let n = skip.needle;
    let b = s.take(window);
    lemma_find_take(s, n, n, n, 0, window);
    lemma_find(s, n, n, n, 0);
    lemma_find(b, n, n, n, 0);
    if find_byte(b, n) is None {
        assert(forall|j: int| 0 <= j < window ==> s[j] == b[j]);
        lemma_drop(s, n, window);
        if window == 0 {
            assert(s.skip(0) =~= s);
            assert(s =~= Seq::empty());
        }
    }
}

/// Whether a reading drops bytes up to one that does not come, and another has
/// dropped all of them.
pub open spec fn lags(x: Run, y: Run) -> bool {
    &&& x.pending is Some
    &&& find_byte(x.input, x.pending->0.needle) is None
    &&& y.input.len() == 0
}

/// Whether two readings have reported the same, are about to do the same, and
/// will have come equally far after their next turn, or later after they have
/// dropped all that is left.
pub open spec fn agree(x: Run, y: Run, listener: Listener) -> bool {
    &&& x.told == y.told
    &&& x.state == y.state
    &&& x.pending == y.pending
    &&& next(x, listener) == next(y, listener) || lags(x, y)
}

/// Skipping to a byte through a window.
proof fn lemma_skip_until_window(r: Run, window: int, listener: Listener)
    requires
        MIN_BUFFER_SIZE <= window < r.input.len(),
        r.pending is Some,
    ensures
        ({
            let through = next_through(r, window, listener);
            through == next(r, listener) || agree(through, r, listener) && next(through, listener)
                == next(r, listener)
        }),
{
    let s = r.input;
    let n = r.pending->0.needle;
    lemma_find_take(s, n, n, n, 0, window);
    if find(s.take(window), n, n, n, 0) is None {
        lemma_find_skip(s, n, n, n, 0, window, 0);
        lemma_find(s, n, n, n, 0);
        let rest = s.skip(window);
        match find(s, n, n, n, 0) {
            Some(i) => {
                assert(rest.skip(i - window) =~= s.skip(i));
                assert(rest.skip(i - window + 1) =~= s.skip(i + 1));
            },
            None => {
                assert(rest.skip(rest.len() as int) =~= s.skip(s.len() as int));
            },
        }
    }
}

/// Skipping movetext through a window.
proof fn lemma_skip_movetext_window(r: Run, window: int, listener: Listener)
    requires
        MIN_BUFFER_SIZE <= window < r.input.len(),
        r.pending is None,
        r.state is SkipMovetext,
    ensures
        ({
            let through = next_through(r, window, listener);
            through == next(r, listener) || agree(through, r, listener) && next(through, listener)
                == next(r, listener)
        }),
{
    let s = r.input;
    let t = s.take(window);
    assert(t[0] == s[0] && t[1] == s[1] && t[2] == s[2]);
    if s[0] != BRACE && s[0] != SEMICOLON && s[0] != LF {
        lemma_find_take(s, LF, BRACE, SEMICOLON, 1, window);
        lemma_find(s, LF, BRACE, SEMICOLON, 1);
        let rest = s.skip(window);
        if find(t, LF, BRACE, SEMICOLON, 1) is None && find(s, LF, BRACE, SEMICOLON, 1) != Some(
            window,
        ) {
            lemma_find_take(s, LF, BRACE, SEMICOLON, 1, window + 1);
            lemma_find_skip(s, LF, BRACE, SEMICOLON, 1, window, 1);
            assert(rest[0] == s[window]);
            match find(s, LF, BRACE, SEMICOLON, 1) {
                Some(i) => {
                    assert(rest.skip(i - window) =~= s.skip(i));
                },
                None => {
                    assert(rest.skip(rest.len() as int) =~= s.skip(s.len() as int));
                },
            }
        }
    }
}

/// Bytes that do not occur do not occur later.
proof fn lemma_find_later(s: Seq<u8>, needle: u8, n: int)
    requires
        0 <= n <= s.len(),
        forall|j: int| 1 <= j < s.len() ==> s[j] != needle,
        n > 0 || s.len() == 0 || s[0] != needle,
    ensures
        find_byte(s.skip(n), needle) is None,
{
    lemma_find_none(s.skip(n), needle, needle, needle, 0);
}

/// A header or comment that has no end at all, read through a window.
proof fn lemma_endless_window(r: Run, window: int, listener: Listener)
    requires
        MIN_BUFFER_SIZE <= window < r.input.len(),
        r.pending is None,
        ({
            ||| r.state is Headers && r.input[0] == BRACKET && find(
                r.input,
                QUOTE,
                LF,
                CLOSE_BRACKET,
                1,
            ) is None
            ||| r.state is Movetext && read_movetext(r.input).state is Invalid
        }),
    ensures
        agree(next_through(r, window, listener), next(r, listener), listener),
{
    let s = r.input;
    let t = s.take(window);
    assert(t[0] == s[0]);
    lemma_find(s, QUOTE, LF, CLOSE_BRACKET, 1);
    lemma_find_take(s, QUOTE, LF, CLOSE_BRACKET, 1, window);
    lemma_find(s, CLOSE_BRACE, CLOSE_BRACE, CLOSE_BRACE, 1);
    lemma_find_take(s, CLOSE_BRACE, CLOSE_BRACE, CLOSE_BRACE, 1, window);
    if r.state is Headers {
        lemma_find_later(s, LF, window);
    } else {
        assert(s[0] == BRACE);
        lemma_find_later(s, CLOSE_BRACE, window);
    }
}

/// A turn with a window does what a turn with all that is left does; or, where
/// bytes are skipped, it skips some of them and leaves the others to the next
/// turn.
pub proof fn a_window_is_enough(r: Run, window: int, listener: Listener)
    requires
        is_window(window, r),
        fits(r),
    ensures
        ({
            let through = next_through(r, window, listener);
            ||| through == next(r, listener)
            ||| agree(through, r, listener) && next(through, listener) == next(r, listener)
            ||| agree(through, next(r, listener), listener)
        }),
{
    let s = r.input;
    let t = s.take(window);
    if window == s.len() {
        assert(t =~= s);
    } else if !fills(r.state, r.pending) {
    } else if r.pending is Some {
        lemma_skip_until_window(r, window, listener);
    } else {
        assert(t[0] == s[0] && t[1] == s[1] && t[2] == s[2]);
        match r.state {
            State::Bom(_) => {
                lemma_has_at_take(s, 0, bom(), window);
            },
            State::Headers => {
                if s[0] == BRACKET && find(s, QUOTE, LF, CLOSE_BRACKET, 1) is None {
                    lemma_endless_window(r, window, listener);
                } else {
                    lemma_headers_take(s, window);
                }
            },
            State::Movetext => {
                if read_movetext(s).state is Invalid {
                    lemma_endless_window(r, window, listener);
                } else {
                    lemma_movetext_take(s, window);
                }
            },
            State::SkipMovetext => {
                lemma_skip_movetext_window(r, window, listener);
            },
            _ => {},
        }
    }
}

/// Whether the buffer is filled before each turn, however the source deals out
/// its bytes.
pub open spec fn filled(r: Run, windows: Seq<int>, listener: Listener) -> bool
    decreases windows.len(),
{
    windows.len() > 0 ==> {
        &&& filled(r, windows.drop_last(), listener)
        &&& is_window(windows.last(), read_through(r, windows.drop_last(), listener))
    }
}

/// Once the reader wants no more input, or the source is exhausted, the buffer is
/// filled: it holds at least `MIN_BUFFER_SIZE` bytes or all remaining bytes until
/// the end of the source, or the next turn does not look at it. It never holds
/// more than `BUFFER_SIZE` bytes.
pub proof fn the_buffer_is_filled(reader: BufferedReader, source: Seq<u8>, told: Told)
    requires
        reader.wf(),
        source.len() == 0 || !(fills(reader.state(), reader.pending()) && reader@.len()
            < MIN_BUFFER_SIZE),
    ensures
        is_window(reader@.len() as int, run_of(reader, source, told)),
        reader@.len() <= BUFFER_SIZE,
{
    reader.the_buffer_is_bounded();
}

/// Nothing is lost, and nothing is taken back: what is left to read, in the buffer
/// and in the source, is the end of what was left before, and what was reported
/// stays reported.
pub proof fn nothing_is_lost(r: Run, windows: Seq<int>, listener: Listener) -> (dropped: int)
    requires
        filled(r, windows, listener),
    ensures
        0 <= dropped <= r.input.len(),
        read_through(r, windows, listener).input == r.input.skip(dropped),
        r.told.is_prefix_of(read_through(r, windows, listener).told),
    decreases windows.len(),
{
    if windows.len() == 0 {
        assert(r.input.skip(0) =~= r.input);
        0
    } else {
        let before = read_through(r, windows.drop_last(), listener);
        let dropped = nothing_is_lost(r, windows.drop_last(), listener);
        let b = before.input.take(windows.last());
        let more = turn(before.state, before.pending, b).consumed;
        a_turn_drops_a_prefix(before.state, before.pending, b);
        assert(r.input.skip(dropped).skip(more) =~= r.input.skip(dropped + more));
        dropped + more
    }
}

/// A reading that lags behind does so after another turn, or does not any more.
proof fn lemma_lag(x: Run, y: Run, window: int, listener: Listener)
    requires
        agree(x, y, listener),
        lags(x, y),
        is_window(window, x),
    ensures
        ({
            let through = next_through(x, window, listener);
            through == next(y, listener) || agree(through, y, listener)
        }),
{
    let n = x.pending->0.needle;
    lemma_find(x.input, n, n, n, 0);
    if x.input.len() == 0 {
        assert(x.input.take(window) =~= x.input);
        assert(x.input =~= y.input);
        assert(x =~= y);
    } else {
        lemma_find_take(x.input, n, n, n, 0, window);
        lemma_find_none(x.input.skip(window), n, n, n, 0);
    }
}

/// Whether each header, comment and token fits into the smallest buffer.
pub open spec fn roomy(r: Run, windows: Seq<int>, listener: Listener) -> bool
    decreases windows.len(),
{
    windows.len() > 0 ==> {
        &&& roomy(r, windows.drop_last(), listener)
        &&& fits(read_through(r, windows.drop_last(), listener))
    }
}

/// However the source deals out its bytes, the same is reported in the same
/// order as if the buffer could hold all of them, as long as each header, each
/// comment and each token that has an end fits into the smallest buffer.
pub proof fn windows_do_not_matter(r: Run, windows: Seq<int>, listener: Listener) -> (turns: nat)
    requires
        filled(r, windows, listener),
        roomy(r, windows, listener),
    ensures
        turns <= windows.len(),
        agree(read_through(r, windows, listener), read(r, turns, listener), listener),
    decreases windows.len(),
{
    if windows.len() == 0 {
        0
    } else {
        let before = read_through(r, windows.drop_last(), listener);
        let turns = windows_do_not_matter(r, windows.drop_last(), listener);
        let far = read(r, turns, listener);
        if lags(before, far) {
            lemma_lag(before, far, windows.last(), listener);
        } else {
            a_window_is_enough(before, windows.last(), listener);
        }
        if agree(read_through(r, windows, listener), far, listener) {
            turns
        } else {
            turns + 1
        }
    }
}

} // verus!
