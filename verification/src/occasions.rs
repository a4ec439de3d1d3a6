//! On which occasions each event is reported, and on no others.
use crate::bytes::has_at;
use crate::grammar::{Event, Goal, SkipUntil, State, turn};
use crate::states::starts_blank;
use crate::texts::{
    is_cut, is_digit, is_number, is_tail, lemma_has_at, lemma_split, lemma_starts_with, starts,
    starts_with, text, value_of,
};
use crate::tokens::{
    a_numbered_annotation_is_read, any_other_word_is_tried, castles, is_special, suffix_of,
};
use crate::types::{CastlingSide, Color, KnownOutcome, Nag, SanPlus, san_of};
use vstd::prelude::*;

verus! {

/// Whether movetext is about to be read.
pub open spec fn is_reading(state: State, pending: Option<SkipUntil>) -> bool {
    state is Movetext && pending is None
}

/// A header is reported only in the headers, and where a bracket stands.
pub proof fn occasions_of_headers(state: State, pending: Option<SkipUntil>, b: Seq<u8>)
    ensures
        turn(state, pending, b).event is Header ==> state is Headers && pending is None && starts(
            b,
            '[',
        ),
        turn(state, pending, b).event is BeginHeaders <==> state is BeginHeaders && pending
            is None,
        turn(state, pending, b).event is EndHeaders <==> pending is None && (state is EndHeaders
            || state is Headers && !starts(b, '[') && !starts(b, '%')),
        state is Ket ==> turn(state, pending, b).event is Nothing,
{
}

/// A comment is reported only in movetext, and where a brace stands. At a line
/// break, a blank, a dot or a semicolon, nothing is reported.
pub proof fn occasions_of_comments(state: State, pending: Option<SkipUntil>, b: Seq<u8>)
    ensures
        turn(state, pending, b).event is Comment ==> is_reading(state, pending) && starts(b, '{'),
        is_reading(state, pending) && (starts_blank(b) || starts(b, '.') || starts(b, ';'))
            ==> turn(state, pending, b).event is Nothing,
        pending is Some ==> turn(state, pending, b).event is Nothing,
{
}

/// An outcome is reported in movetext if and only if it is written there.
pub proof fn occasions_of_outcomes(state: State, pending: Option<SkipUntil>, b: Seq<u8>)
    ensures
        ({
            let event = turn(state, pending, b).event;
            let white = KnownOutcome::Decisive { winner: Color::White };
            let black = KnownOutcome::Decisive { winner: Color::Black };
            &&& event == Event::<Seq<u8>>::Outcome(Some(white)) <==> is_reading(state, pending)
                && starts_with(b, text("1-0"@))
            &&& event == Event::<Seq<u8>>::Outcome(Some(black)) <==> is_reading(state, pending)
                && starts_with(b, text("0-1"@))
            &&& event == Event::<Seq<u8>>::Outcome(Some(KnownOutcome::Draw)) <==> is_reading(
                state,
                pending,
            ) && starts_with(b, text("1/2-1/2"@))
            &&& event == Event::<Seq<u8>>::Outcome(None) <==> is_reading(state, pending)
                && starts_with(b, text("*"@))
        }),
{
    lemma_front(b, '1', seq!['-' as u8, '0' as u8]);
    lemma_front(b, '0', seq!['-' as u8, '1' as u8]);
    let half = seq!['/' as u8, '2' as u8, '-' as u8, '1' as u8, '/' as u8, '2' as u8];
    lemma_front(b, '1', half);
    lemma_front(b, '*', seq![]);
    reveal_strlit("1-0");
    reveal_strlit("0-1");
    reveal_strlit("1/2-1/2");
    reveal_strlit("*");
    assert(text("1-0"@) =~= seq!['1' as u8] + seq!['-' as u8, '0' as u8]);
    assert(text("0-1"@) =~= seq!['0' as u8] + seq!['-' as u8, '1' as u8]);
    assert(text("1/2-1/2"@) =~= seq!['1' as u8] + half);
    assert(text("*"@) =~= seq!['*' as u8] + seq![]);
    if starts_with(b, text("1-0"@)) && starts_with(b, text("1/2-1/2"@)) {
        assert(b.subrange(1, 3)[0] == b.subrange(1, 7)[0]);
    }
}

/// What stands at the front of bytes.
proof fn lemma_front(b: Seq<u8>, first: char, prefix: Seq<u8>)
    ensures
        starts_with(b, seq![first as u8] + prefix) <==> starts(b, first) && has_at(
            b,
            1,
            prefix,
        ),
        has_at(b, 1, prefix) ==> 1 + prefix.len() <= b.len() && b.subrange(
            1,
            1 + prefix.len() as int,
        ) == prefix,
{
    let whole = seq![first as u8] + prefix;
    let n = prefix.len() as int;
    lemma_has_at(b, 1, prefix);
    lemma_starts_with(b, whole);
    if 1 + n <= b.len() {
        if b.take(1 + n) == whole {
            assert(b[0] == b.take(1 + n)[0]);
            assert(b.subrange(1, 1 + n) =~= b.take(1 + n).skip(1));
            assert(whole.skip(1) =~= prefix);
        }
        if starts(b, first) && b.subrange(1, 1 + n) == prefix {
            assert(b.take(1 + n) =~= seq![b[0]] + b.subrange(1, 1 + n));
        }
    }
}

/// A variation begins where an opening parenthesis stands in movetext, and ends
/// where a closing one does.
pub proof fn occasions_of_variations(state: State, pending: Option<SkipUntil>, b: Seq<u8>)
    ensures
        turn(state, pending, b).event is BeginVariation <==> pending is None && (state
            is BeginVariation || state is Movetext && starts(b, '(')),
        turn(state, pending, b).event is EndVariation <==> is_reading(state, pending) && starts(
            b,
            ')',
        ),
{
}

/// The beginning and the end of a game and of a call are reported only by the
/// states that are there for it.
pub proof fn occasions_of_games(state: State, pending: Option<SkipUntil>, b: Seq<u8>)
    ensures
        ({
            let event = turn(state, pending, b).event;
            &&& event is BeginGame <==> pending is None && state == State::Start(Goal::ReadGame)
                && b.len() > 0
            &&& event is NoGame <==> pending is None && state == State::Start(Goal::ReadGame)
                && b.len() == 0
            &&& event == Event::<Seq<u8>>::HasMore(true) <==> pending is None && state
                == State::Start(Goal::HasMore) && b.len() > 0
            &&& event == Event::<Seq<u8>>::HasMore(false) <==> pending is None && state
                == State::Start(Goal::HasMore) && b.len() == 0
            &&& event is EndGame <==> pending is None && state is Trailing && !starts_blank(b)
                && !starts(b, '%')
            &&& event is InvalidData <==> pending is None && state is Invalid
        }),
{
}

/// The number of an annotation that is written with marks.
pub open spec fn mark_number(b: Seq<u8>) -> Option<u8> {
    if starts_with(b, text("!!"@)) {
        Some(3)
    } else if starts_with(b, text("??"@)) {
        Some(4)
    } else if starts_with(b, text("!?"@)) {
        Some(5)
    } else if starts_with(b, text("?!"@)) {
        Some(6)
    } else if starts(b, '!') {
        Some(1)
    } else if starts(b, '?') {
        Some(2)
    } else {
        None
    }
}

/// Whether a number that is an annotation stands at the front of bytes.
pub open spec fn is_annotated(b: Seq<u8>, number: u8) -> bool {
    exists|digits: Seq<u8>, rest: Seq<u8>|
        b == #[trigger] (seq!['$' as u8] + digits + rest) && is_number(digits) && is_tail(digits)
            && is_cut(rest) && value_of(digits) == number
}

/// An annotation is reported in movetext if and only if it is written there.
pub proof fn occasions_of_annotations(
    state: State,
    pending: Option<SkipUntil>,
    b: Seq<u8>,
    number: u8,
)
    ensures
        turn(state, pending, b).event == Event::<Seq<u8>>::Nag(Nag(number)) <==> is_reading(
            state,
            pending,
        ) && (mark_number(b) == Some(number) || is_annotated(b, number)),
{
    reveal_strlit("!!");
    reveal_strlit("??");
    reveal_strlit("!?");
    reveal_strlit("?!");
    lemma_pair(b, "!!"@);
    lemma_pair(b, "??"@);
    lemma_pair(b, "!?"@);
    lemma_pair(b, "?!"@);
    if is_annotated(b, number) {
        let (digits, rest) = choose|digits: Seq<u8>, rest: Seq<u8>|
            b == #[trigger] (seq!['$' as u8] + digits + rest) && is_number(digits) && is_tail(
                digits,
            ) && is_cut(rest) && value_of(digits) == number;
        a_numbered_annotation_is_read(digits, rest);
        assert(b[0] == '$' as u8);
    }
    if is_reading(state, pending) && starts(b, '$') {
        let (tail, rest) = lemma_split(b);
        a_numbered_annotation_is_read(tail, rest);
        if is_number(tail) && value_of(tail) == number {
            assert(is_annotated(b, number));
        }
        if is_number(tail) && value_of(tail) <= 255 {
            lemma_value_is_natural(tail);
        }
    }
}

/// Digits stand for no negative number.
proof fn lemma_value_is_natural(digits: Seq<u8>)
    requires
        is_number(digits) || digits.len() == 0,
    ensures
        value_of(digits) >= 0,
    decreases digits.len(),
{
    if digits.len() > 0 {
        let front = digits.drop_last();
        assert forall|i: int| 0 <= i < front.len() implies is_digit(
            #[trigger] front[i],
        ) by {
            assert(is_digit(digits[i]));
        }
        lemma_value_is_natural(front);
        assert(is_digit(digits[digits.len() - 1]));
    }
}

/// Bytes that start with two others.
proof fn lemma_pair(b: Seq<u8>, pair: Seq<char>)
    requires
        pair.len() == 2,
    ensures
        starts_with(b, text(pair)) <==> b.len() > 1 && b[0] == pair[0] as u8 && b[1]
            == pair[1] as u8,
{
    lemma_starts_with(b, text(pair));
    if b.len() > 1 {
        assert(b.take(2)[0] == b[0] && b.take(2)[1] == b[1]);
        if b[0] == pair[0] as u8 && b[1] == pair[1] as u8 {
            assert(b.take(2) =~= text(pair));
        }
    }
}

/// Castling that is written with zeros at the front of bytes.
pub open spec fn castling_with_zeros(b: Seq<u8>) -> Option<Event<Seq<u8>>> {
    if starts_with(b, text("0-0-0"@)) {
        Some(castles(CastlingSide::QueenSide, suffix_of(b.skip(5))))
    } else if starts_with(b, text("0-0"@)) {
        Some(castles(CastlingSide::KingSide, suffix_of(b.skip(3))))
    } else {
        None
    }
}

/// Whether a word that stands for a move stands at the front of bytes. It starts
/// with a dash or with a byte above the digits, but not with the letter of a pawn.
pub open spec fn is_moved(b: Seq<u8>, plus: SanPlus) -> bool {
    exists|word: Seq<u8>, rest: Seq<u8>|
        b == #[trigger] (word + rest) && word.len() > 0 && !is_special(word[0]) && (word[0]
            > '9' as u8 || word[0] == '-' as u8) && is_tail(word.skip(1)) && is_cut(rest)
            && san_of(word) == Some(plus)
}

/// A move is reported in movetext if and only if it is written there.
pub proof fn occasions_of_moves(
    state: State,
    pending: Option<SkipUntil>,
    b: Seq<u8>,
    plus: SanPlus,
)
    ensures
        turn(state, pending, b).event == Event::<Seq<u8>>::San(plus) <==> is_reading(
            state,
            pending,
        ) && (castling_with_zeros(b) == Some(Event::<Seq<u8>>::San(plus)) || is_moved(b, plus)),
{
    let zero = seq!['-' as u8, '0' as u8];
    reveal_strlit("0-0-0");
    reveal_strlit("0-0");
    lemma_front(b, '0', zero);
    lemma_front(b, '0', zero + zero);
    lemma_front(b, '0', seq!['-' as u8, '1' as u8]);
    assert(text("0-0"@) =~= seq!['0' as u8] + zero);
    assert(text("0-0-0"@) =~= seq!['0' as u8] + (zero + zero));
    lemma_has_at(b, 3, zero);
    if b.len() >= 5 {
        assert(b.subrange(1, 5) =~= b.subrange(1, 3) + b.subrange(3, 5));
        assert((zero + zero).take(2) =~= zero);
        assert((zero + zero).skip(2) =~= zero);
        assert(b.subrange(1, 5).take(2) =~= b.subrange(1, 3));
        assert(b.subrange(1, 5).skip(2) =~= b.subrange(3, 5));
    }
    if is_moved(b, plus) {
        let (word, rest) = choose|word: Seq<u8>, rest: Seq<u8>|
            b == #[trigger] (word + rest) && word.len() > 0 && !is_special(word[0]) && (word[0]
                > '9' as u8 || word[0] == '-' as u8) && is_tail(word.skip(1)) && is_cut(rest)
                && san_of(word) == Some(plus);
        any_other_word_is_tried(word, rest);
        assert(b[0] == word[0]);
    }
    if is_reading(state, pending) && b.len() > 0 && !is_special(b[0]) {
        let (tail, rest) = lemma_split(b);
        let word = seq![b[0]] + tail;
        assert(word.skip(1) =~= tail);
        assert(b =~= word + rest);
        any_other_word_is_tried(word, rest);
    }
    if is_reading(state, pending) && starts(b, '0') && has_at(b, 1, zero) {
        assert(b.subrange(1, 3)[1] == '0' as u8);
        assert(b.len() > 3 ==> b.skip(3)[0] == b[3]);
        assert(b.len() > 5 ==> b.skip(5)[0] == b[5]);
    }
}

} // verus!
