//! What is left after bytes are skipped.
use crate::ascii::{LF, PERCENT};
use crate::bytes::{find, find_byte, lemma_find, lemma_find_none, lemma_find_some};
use crate::grammar::{SkipUntil, is_blank};
use crate::run::{Listener, Run, lemma_read_add, next, read};
use vstd::prelude::*;

verus! {

/// What is left from the next `needle` on.
pub open spec fn before(s: Seq<u8>, needle: u8) -> Seq<u8> {
    match find_byte(s, needle) {
        Some(i) => s.skip(i),
        None => Seq::empty(),
    }
}

/// What is left after the next `needle`.
pub open spec fn past(s: Seq<u8>, needle: u8) -> Seq<u8> {
    match find_byte(s, needle) {
        Some(i) => s.skip(i + 1),
        None => Seq::empty(),
    }
}

/// What is left once the pending bytes are dropped.
pub open spec fn after_skip(s: Seq<u8>, skip: SkipUntil) -> Seq<u8> {
    if skip.inclusive {
        past(s, skip.needle)
    } else {
        before(s, skip.needle)
    }
}

/// What is left once the bytes are dropped that a reading drops next.
pub open spec fn due(r: Run) -> Seq<u8> {
    match r.pending {
        Some(skip) => after_skip(r.input, skip),
        None => r.input,
    }
}

/// No more is left than there was.
pub proof fn lemma_after_skip(s: Seq<u8>, needle: u8)
    ensures
        before(s, needle).len() <= s.len(),
        past(s, needle).len() <= s.len(),
        before(s, needle).len() > 0 ==> before(s, needle)[0] == needle && past(s, needle)
            == before(s, needle).skip(1),
        before(s, needle).len() == 0 ==> past(s, needle) == before(s, needle),
{
    lemma_find(s, needle, needle, needle, 0);
    if let Some(i) = find_byte(s, needle) {
        assert(s.skip(i + 1) =~= s.skip(i).skip(1));
    }
}

/// What is left is the end of what there was.
pub proof fn lemma_suffix(s: Seq<u8>, needle: u8)
    ensures
        exists|k: int| 0 <= k <= s.len() && before(s, needle) == #[trigger] s.skip(k),
        exists|k: int| 0 <= k <= s.len() && past(s, needle) == #[trigger] s.skip(k),
{
    lemma_find(s, needle, needle, needle, 0);
    match find_byte(s, needle) {
        Some(i) => {
            assert(before(s, needle) == s.skip(i));
            assert(past(s, needle) == s.skip(i + 1));
        },
        None => {
            assert(before(s, needle) =~= s.skip(s.len() as int));
            assert(past(s, needle) =~= s.skip(s.len() as int));
        },
    }
}

/// A byte that is not searched for can be dropped.
pub proof fn lemma_find_rest(s: Seq<u8>, needle: u8)
    requires
        s.len() > 0,
    ensures
        find(s, needle, needle, needle, 1) == (match find_byte(s.skip(1), needle) {
            Some(i) => Some(i + 1),
            None => None,
        }),
        s[0] != needle ==> before(s, needle) == before(s.skip(1), needle) && past(s, needle)
            == past(s.skip(1), needle),
{
    let rest = s.skip(1);
    lemma_find(rest, needle, needle, needle, 0);
    assert(forall|j: int| 1 <= j < s.len() ==> s[j] == rest[j - 1]);
    match find_byte(rest, needle) {
        Some(i) => {
            lemma_find_some(s, needle, needle, needle, 1, i + 1);
            assert(rest.skip(i) =~= s.skip(i + 1));
            assert(rest.skip(i + 1) =~= s.skip(i + 2));
        },
        None => {
            lemma_find_none(s, needle, needle, needle, 1);
        },
    }
}

/// Bytes among which the searched one is not can be dropped.
pub proof fn lemma_drop(s: Seq<u8>, needle: u8, n: int)
    requires
        0 <= n <= s.len(),
        forall|j: int| 0 <= j < n ==> s[j] != needle,
    ensures
        before(s.skip(n), needle) == before(s, needle),
        past(s.skip(n), needle) == past(s, needle),
    decreases n,
{
    if n > 0 {
        lemma_find_rest(s, needle);
        lemma_drop(s.skip(1), needle, n - 1);
        assert(s.skip(1).skip(n - 1) =~= s.skip(n));
    } else {
        assert(s.skip(0) =~= s);
    }
}

/// What is left after blanks and lines from a percent sign on.
pub open spec fn after_blank(s: Seq<u8>) -> Seq<u8>
    decreases s.len(),
{
    if s.len() == 0 {
        s
    } else if is_blank(s[0]) {
        after_blank(s.skip(1))
    } else if s[0] == PERCENT {
        proof {
            lemma_after_skip(s.skip(1), LF);
        }
        after_blank(past(s.skip(1), LF))
    } else {
        s
    }
}

/// Whether reading on, with a buffer that holds all that is left, comes to a
/// point.
pub open spec fn reaches(from: Run, to: Run, listener: Listener) -> bool {
    exists|turns: nat| #[trigger] read(from, turns, listener) == to
}

/// A turn comes to the next point.
pub proof fn lemma_reaches_next(from: Run, listener: Listener)
    ensures
        reaches(from, from, listener),
        reaches(from, next(from, listener), listener),
{
    assert(read(from, 0, listener) == from);
    assert(read(from, 1, listener) == next(read(from, 0, listener), listener));
}

/// What can be reached from a point that can be reached can be reached.
pub proof fn lemma_reaches_through(from: Run, by: Run, to: Run, listener: Listener)
    requires
        reaches(from, by, listener),
        reaches(by, to, listener),
    ensures
        reaches(from, to, listener),
{
    let m = choose|turns: nat| #[trigger] read(from, turns, listener) == by;
    let n = choose|turns: nat| #[trigger] read(by, turns, listener) == to;
    lemma_read_add(from, m, n, listener);
    assert(read(from, m + n, listener) == to);
}

/// What can be reached after a turn can be reached.
pub proof fn lemma_reaches_after(from: Run, to: Run, listener: Listener)
    requires
        reaches(next(from, listener), to, listener),
    ensures
        reaches(from, to, listener),
{
    lemma_reaches_next(from, listener);
    lemma_reaches_through(from, next(from, listener), to, listener);
}

/// Pending bytes are dropped, and nothing else happens.
pub proof fn lemma_skip(r: Run, listener: Listener)
    requires
        r.pending is Some,
    ensures
        reaches(
            r,
            (Run { pending: None, input: after_skip(r.input, r.pending->0), ..r }),
            listener,
        ),
{
    let skip = r.pending->0;
    let to = Run { pending: None, input: after_skip(r.input, skip), ..r };
    let one = next(r, listener);
    lemma_find(r.input, skip.needle, skip.needle, skip.needle, 0);
    lemma_reaches_next(r, listener);
    if find_byte(r.input, skip.needle) is Some {
        assert(one =~= to);
    } else {
        assert(one.input =~= Seq::empty());
        if r.input.len() > 0 {
            lemma_reaches_next(one, listener);
            let two = next(one, listener);
            assert(find_byte(one.input, skip.needle) is None);
            assert(two.input =~= Seq::empty());
            assert(two =~= to);
            lemma_reaches_after(r, to, listener);
        } else {
            assert(one =~= to);
        }
    }
}

/// What is left after blanks starts with none, and is no more than there was.
pub proof fn lemma_after_blank(s: Seq<u8>)
    ensures
        after_blank(s).len() <= s.len(),
        after_blank(s).len() > 0 ==> !is_blank(after_blank(s)[0]) && after_blank(s)[0] != PERCENT,
    decreases s.len(),
{
    if s.len() > 0 {
        lemma_after_skip(s.skip(1), LF);
        if is_blank(s[0]) {
            lemma_after_blank(s.skip(1));
        } else if s[0] == PERCENT {
            lemma_after_blank(past(s.skip(1), LF));
        }
    }
}

/// Blanks and lines from a percent sign on are dropped, and nothing else
/// happens.
pub proof fn lemma_blank(r: Run, listener: Listener)
    requires
        r.pending is None,
        r.state is Blank || r.state is Trailing,
    ensures
        reaches(r, (Run { input: after_blank(r.input), ..r }), listener),
    decreases r.input.len(),
{
    let s = r.input;
    let to = Run { input: after_blank(s), ..r };
    let one = next(r, listener);
    if s.len() == 0 {
        lemma_reaches_next(r, listener);
    } else if is_blank(s[0]) {
        assert(one =~= Run { input: s.skip(1), ..r });
        lemma_blank(one, listener);
        lemma_reaches_after(r, to, listener);
    } else if s[0] == PERCENT {
        lemma_after_skip(s.skip(1), LF);
        lemma_skip(one, listener);
        let two = Run { input: past(s.skip(1), LF), ..r };
        assert(reaches(one, two, listener));
        lemma_blank(two, listener);
        lemma_reaches_through(one, two, to, listener);
        lemma_reaches_after(r, to, listener);
    } else {
        lemma_reaches_next(r, listener);
    }
}

} // verus!
