//! What each state does with each kind of text, but for headers and movetext.
use crate::bytes::{lemma_find_none, lemma_find_some};
use crate::grammar::{Event, Goal, SkipUntil, State, answered, fills, token_event, turn};
use crate::reader::BufferedReader;
use crate::texts::{
    drops, drops_before, drops_past, holds_byte, lemma_has_at, lemma_starts_with, reports, starts,
    starts_with, then_bytes,
};
use crate::types::{Nag, SanPlus, Skip};
use vstd::prelude::*;

verus! {

/// A byte order mark is dropped, and nothing else.
pub proof fn a_byte_order_mark_is_dropped(goal: Goal, b: Seq<u8>)
    ensures
        turn(State::Bom(goal), None, b) == drops(
            if starts_with(b, seq![0xefu8, 0xbbu8, 0xbfu8]) {
                3
            } else {
                0
            },
            State::Blank(goal),
        ),
{
    let mark = seq![0xefu8, 0xbbu8, 0xbfu8];
    lemma_has_at(b, 0, mark);
    lemma_starts_with(b, mark);
    if b.len() >= 3 {
        assert(b.subrange(0, 3) =~= b.take(3));
    }
}

/// Whether bytes start with a blank.
pub open spec fn starts_blank(b: Seq<u8>) -> bool {
    starts(b, ' ') || starts(b, '\t') || starts(b, '\r') || starts(b, '\n')
}

/// Before and after a game, blanks and lines from a percent sign on are dropped.
/// At anything else, and at the end of the input, the reader looks whether a game
/// begins, or reports that one has ended.
pub proof fn blanks_between_games_are_dropped(goal: Goal, b: Seq<u8>)
    ensures
        turn(State::Blank(goal), None, b) == (if starts_blank(b) {
            drops(1, State::Blank(goal))
        } else if starts(b, '%') {
            drops_past(1, '\n', State::Blank(goal))
        } else {
            drops(0, State::Start(goal))
        }),
        turn(State::Trailing, None, b) == (if starts_blank(b) {
            drops(1, State::Trailing)
        } else if starts(b, '%') {
            drops_past(1, '\n', State::Trailing)
        } else {
            reports(0, State::Bom(Goal::ReadGame), Event::EndGame)
        }),
{
}

/// There is a game where anything is left.
pub proof fn a_game_begins_where_anything_is_left(b: Seq<u8>)
    ensures
        turn(State::Start(Goal::ReadGame), None, b) == (if b.len() > 0 {
            reports(0, State::BeginHeaders, Event::BeginGame)
        } else {
            reports(0, State::Bom(Goal::ReadGame), Event::NoGame)
        }),
        turn(State::Start(Goal::HasMore), None, b) == reports(
            0,
            State::Bom(Goal::ReadGame),
            Event::HasMore(b.len() > 0),
        ),
        turn(State::BeginHeaders, None, b) == reports(0, State::Headers, Event::BeginHeaders),
        turn(State::Invalid, None, b) == reports(
            0,
            State::Bom(Goal::ReadGame),
            Event::InvalidData,
        ),
{
}

/// What is to be answered is reported again as long as it is not answered, and the
/// answer decides whether movetext or a variation is read or skipped.
pub proof fn answers_decide(b: Seq<u8>, state: State, skip: Skip)
    ensures
        turn(State::EndHeaders, None, b) == reports(0, State::EndHeaders, Event::EndHeaders),
        turn(State::BeginVariation, None, b) == reports(
            0,
            State::BeginVariation,
            Event::BeginVariation,
        ),
        answered(State::EndHeaders, Skip(false)) == State::Movetext,
        answered(State::EndHeaders, Skip(true)) == State::SkipMovetext,
        answered(State::BeginVariation, Skip(false)) == State::Movetext,
        answered(State::BeginVariation, Skip(true)) == (State::SkipVariation { depth: 0 }),
        !(state is EndHeaders) && !(state is BeginVariation) ==> answered(state, skip) == state,
{
}

/// Bytes that are to be dropped are dropped up to the one that ends them, with it
/// or without it. If it does not come, all are dropped, and the search goes on
/// until the input ends. Nothing is reported, and the state stays.
pub proof fn pending_bytes_are_dropped(
    state: State,
    skip: SkipUntil,
    skipped: Seq<u8>,
    rest: Seq<u8>,
)
    requires
        forall|i: int| 0 <= i < skipped.len() ==> #[trigger] skipped[i] != skip.needle,
    ensures
        turn(state, Some(skip), skipped + seq![skip.needle] + rest) == drops(
            if skip.inclusive {
                skipped.len() as int + 1
            } else {
                skipped.len() as int
            },
            state,
        ),
        ({
            let t = turn(state, Some(skip), skipped);
            &&& t.consumed == skipped.len()
            &&& t.state == state
            &&& t.pending == (if skipped.len() > 0 {
                Some(skip)
            } else {
                None
            })
            &&& t.event is Nothing
        }),
{
    let n = skip.needle;
    let b = skipped + seq![n] + rest;
    let end = skipped.len() as int;
    assert(b[end] == n);
    assert forall|j: int| 0 <= j < end implies b[j] != n by {
        assert(b[j] == skipped[j]);
    }
    lemma_find_some(b, n, n, n, 0, end);
    lemma_find_none(skipped, n, n, n, 0);
}

/// Whether bytes of movetext can be skipped at once: there is no line break, opening
/// brace or semicolon among them.
pub open spec fn is_skippable(run: Seq<u8>) -> bool {
    !holds_byte(run, '\n') && !holds_byte(run, '{') && !holds_byte(run, ';')
}

/// Skipped movetext is dropped up to an empty line or a line that starts with a
/// bracket. Comments, and lines that start with a percent sign, are dropped as a
/// whole.
pub proof fn skipped_movetext_is_dropped(run: Seq<u8>, rest: Seq<u8>)
    ensures
        turn(State::SkipMovetext, None, Seq::empty()) == drops(0, State::Trailing),
        turn(State::SkipMovetext, None, then_bytes('{', rest)) == drops_past(
            1,
            '}',
            State::SkipMovetext,
        ),
        turn(State::SkipMovetext, None, then_bytes(';', rest)) == drops_before(
            1,
            '\n',
            State::SkipMovetext,
        ),
        ({
            let t = turn(State::SkipMovetext, None, then_bytes('\n', rest));
            if starts(rest, '%') {
                t == drops_before(1, '\n', State::SkipMovetext)
            } else if starts(rest, '\n') || starts(rest, '[') {
                t == drops(1, State::Trailing)
            } else if starts(rest, '\r') && rest.len() > 1 && rest[1] == '\n' as u8 {
                t == drops(2, State::Trailing)
            } else if starts(rest, '\r') {
                t == drops(2, State::SkipMovetext)
            } else {
                t == drops(1, State::SkipMovetext)
            }
        }),
        run.len() > 0 && is_skippable(run) && (rest.len() == 0 || starts(rest, '\n') || starts(
            rest,
            '{',
        ) || starts(rest, ';')) ==> turn(State::SkipMovetext, None, run + rest) == drops(
            run.len() as int,
            State::SkipMovetext,
        ),
{
    let b = then_bytes('\n', rest);
    assert(rest.len() > 0 ==> b[1] == rest[0]);
    assert(rest.len() > 1 ==> b[2] == rest[1]);
    if run.len() > 0 && is_skippable(run) {
        let c = run + rest;
        let end = run.len() as int;
        assert forall|j: int| 0 <= j < end implies c[j] != '\n' as u8 && c[j] != '{' as u8 && c[j]
            != ';' as u8 by {
            assert(c[j] == run[j]);
        }
        if rest.len() > 0 {
            assert(c[end] == rest[0]);
            if starts(rest, '\n') || starts(rest, '{') || starts(rest, ';') {
                lemma_find_some(c, '\n' as u8, '{' as u8, ';' as u8, 1, end);
            }
        } else {
            lemma_find_none(c, '\n' as u8, '{' as u8, ';' as u8, 1);
        }
    }
}

/// A skipped variation is dropped up to its closing parenthesis, an empty line, or a
/// line that starts with a bracket, which are left. Parentheses inside it are
/// counted. Comments, and lines that start with a percent sign, are dropped as a
/// whole.
pub proof fn skipped_variations_are_dropped(depth: usize, rest: Seq<u8>)
    requires
        depth < usize::MAX,
    ensures
        ({
            let here = State::SkipVariation { depth };
            let on = |c: char| turn(here, None, then_bytes(c, rest));
            &&& turn(here, None, Seq::empty()) == drops(0, State::Movetext)
            &&& on('(') == drops(1, State::SkipVariation { depth: (depth + 1) as usize })
            &&& depth > 0 ==> on(')') == drops(
                1,
                State::SkipVariation { depth: (depth - 1) as usize },
            )
            &&& depth == 0 ==> on(')') == drops(0, State::Movetext)
            &&& on('{') == drops_past(1, '}', here)
            &&& on(';') == drops_before(1, '\n', here)
            &&& on('\n') == (if starts(rest, '%') {
                drops_before(2, '\n', here)
            } else if starts(rest, '\n') || starts(rest, '[') {
                drops(0, State::Movetext)
            } else if starts(rest, '\r') && rest.len() > 1 && rest[1] == '\n' as u8 {
                drops(0, State::Movetext)
            } else if starts(rest, '\r') {
                drops(0, here)
            } else {
                drops(1, here)
            })
        }),
{
    let b = then_bytes('\n', rest);
    assert(rest.len() > 0 ==> b[1] == rest[0]);
    assert(rest.len() > 1 ==> b[2] == rest[1]);
}

/// Any other byte of a skipped variation is dropped.
pub proof fn other_bytes_of_skipped_variations_are_dropped(depth: usize, b: Seq<u8>)
    requires
        b.len() > 0,
        !starts(b, '('),
        !starts(b, ')'),
        !starts(b, '{'),
        !starts(b, ';'),
        !starts(b, '\n'),
    ensures
        turn(State::SkipVariation { depth }, None, b) == drops(1, State::SkipVariation { depth }),
{
}

/// A turn before which the buffer is not filled does not depend on what it holds.
pub proof fn where_the_buffer_is_not_filled_it_does_not_matter(
    state: State,
    pending: Option<SkipUntil>,
    b: Seq<u8>,
    c: Seq<u8>,
)
    requires
        !fills(state, pending),
    ensures
        turn(state, pending, b) == turn(state, pending, c),
        turn(state, pending, b).consumed == 0,
{
}

/// The buffer is filled before each turn that looks for a game, reads, or skips,
/// and before no other.
pub proof fn where_bytes_are_read_the_buffer_is_filled(
    state: State,
    pending: Option<SkipUntil>,
    b: Seq<u8>,
)
    ensures
        turn(state, pending, b).consumed > 0 ==> fills(state, pending),
        fills(state, pending) <==> pending is Some || state is Bom || state is Blank || state
            is Start || state is Headers || state is Ket || state is Movetext || state
            is SkipMovetext || state is SkipVariation || state is Trailing,
{
}

/// A step can be taken unless more variations are nested than can be counted.
pub proof fn steps_can_be_taken(reader: BufferedReader)
    ensures
        reader.can_step_spec() <==> reader.state() != (State::SkipVariation { depth: usize::MAX }),
{
}

/// The numbers of the annotations that have a name.
pub proof fn annotations_have_numbers()
    ensures
        Nag::GOOD_MOVE == 1,
        Nag::MISTAKE == 2,
        Nag::BRILLIANT_MOVE == 3,
        Nag::BLUNDER == 4,
        Nag::SPECULATIVE_MOVE == 5,
        Nag::DUBIOUS_MOVE == 6,
{
}

/// A word that stands for a move tells it if it starts with a dash or with a byte
/// above the digits. Any other tells nothing.
pub proof fn words_tell_moves(first: u8, plus: SanPlus)
    ensures
        first > '9' as u8 || first == '-' as u8 ==> token_event(first, Some(plus)) == Event::<
            Seq<u8>,
        >::San(plus),
        !(first > '9' as u8 || first == '-' as u8) ==> token_event(first, Some(plus)) is Nothing,
        token_event(first, None) is Nothing,
{
}

/// The view of an event is the event itself, with the bytes that it holds.
pub proof fn an_event_is_viewed_as_it_is(event: Event<Vec<u8>>)
    ensures
        match event {
            Event::Nothing => event@ == Event::<Seq<u8>>::Nothing,
            Event::BeginGame => event@ == Event::<Seq<u8>>::BeginGame,
            Event::BeginHeaders => event@ == Event::<Seq<u8>>::BeginHeaders,
            Event::Header { key, value } => event@ == (Event::<Seq<u8>>::Header {
                key: key@,
                value: value@,
            }),
            Event::EndHeaders => event@ == Event::<Seq<u8>>::EndHeaders,
            Event::San(plus) => event@ == Event::<Seq<u8>>::San(plus),
            Event::Nag(nag) => event@ == Event::<Seq<u8>>::Nag(nag),
            Event::Comment(comment) => event@ == Event::<Seq<u8>>::Comment(comment@),
            Event::BeginVariation => event@ == Event::<Seq<u8>>::BeginVariation,
            Event::EndVariation => event@ == Event::<Seq<u8>>::EndVariation,
            Event::Outcome(outcome) => event@ == Event::<Seq<u8>>::Outcome(outcome),
            Event::EndGame => event@ == Event::<Seq<u8>>::EndGame,
            Event::NoGame => event@ == Event::<Seq<u8>>::NoGame,
            Event::HasMore(more) => event@ == Event::<Seq<u8>>::HasMore(more),
            Event::InvalidData => event@ == Event::<Seq<u8>>::InvalidData,
        },
{
}

} // verus!
