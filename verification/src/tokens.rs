//! What is read from each kind of text in movetext.
//!
//! The texts are given as they are written. Together they are all that movetext
//! can start with.
use crate::bytes::{all_digits, has_at, lemma_find_none, lemma_find_some};
use crate::grammar::{Event, State, turn};
use crate::texts::{
    drops, drops_before, drops_past, ends_word, holds_byte, is_cut, is_digit, is_number, is_tail,
    lemma_has_at, lemma_starts_with, lemma_value, lemma_word, reports, starts, starts_with, text,
    then_bytes, value_of,
};
use crate::types::{
    CastlingSide, Color, KnownOutcome, Nag, San, SanPlus, Suffix, san_of, special_text,
};
use vstd::prelude::*;

verus! {

/// Each outcome is reported where it is written.
pub proof fn an_outcome_is_read(rest: Seq<u8>)
    ensures
        turn(State::Movetext, None, text("1-0"@) + rest) == reports(
            3,
            State::Movetext,
            Event::Outcome(Some(KnownOutcome::Decisive { winner: Color::White })),
        ),
        turn(State::Movetext, None, text("0-1"@) + rest) == reports(
            3,
            State::Movetext,
            Event::Outcome(Some(KnownOutcome::Decisive { winner: Color::Black })),
        ),
        turn(State::Movetext, None, text("1/2-1/2"@) + rest) == reports(
            7,
            State::Movetext,
            Event::Outcome(Some(KnownOutcome::Draw)),
        ),
        turn(State::Movetext, None, text("*"@) + rest) == reports(
            1,
            State::Movetext,
            Event::Outcome(None),
        ),
{
    reveal_strlit("1-0");
    reveal_strlit("0-1");
    reveal_strlit("1/2-1/2");
    reveal_strlit("*");
    let white = text("1-0"@) + rest;
    lemma_has_at(white, 1, seq!['-' as u8, '0' as u8]);
    assert(white.subrange(1, 3) =~= seq!['-' as u8, '0' as u8]);
    let black = text("0-1"@) + rest;
    lemma_has_at(black, 1, seq!['-' as u8, '1' as u8]);
    assert(black.subrange(1, 3) =~= seq!['-' as u8, '1' as u8]);
    let draw = text("1/2-1/2"@) + rest;
    let half = seq!['/' as u8, '2' as u8, '-' as u8, '1' as u8, '/' as u8, '2' as u8];
    lemma_has_at(draw, 1, half);
    assert(draw.subrange(1, 7) =~= half);
    lemma_has_at(draw, 1, seq!['-' as u8, '0' as u8]);
    assert(draw.subrange(1, 3)[0] == '/' as u8);
}

/// Any other word that starts with a one, such as the number of a move, is
/// dropped.
pub proof fn a_word_with_a_one_is_dropped(tail: Seq<u8>, rest: Seq<u8>)
    requires
        is_tail(tail),
        is_cut(rest),
        !starts_with(tail, text("-0"@)),
        !starts_with(tail, text("/2-1/2"@)),
    ensures
        turn(State::Movetext, None, seq!['1' as u8] + tail + rest) == drops(
            tail.len() as int + 1,
            State::Movetext,
        ),
{
    let b = seq!['1' as u8] + tail + rest;
    let white = seq!['-' as u8, '0' as u8];
    let draw = seq!['/' as u8, '2' as u8, '-' as u8, '1' as u8, '/' as u8, '2' as u8];
    reveal_strlit("-0");
    reveal_strlit("/2-1/2");
    assert(text("-0"@) =~= white);
    assert(text("/2-1/2"@) =~= draw);
    lemma_word('1' as u8, tail, rest);
    lemma_inside(b, '1' as u8, tail, rest, white);
    lemma_inside(b, '1' as u8, tail, rest, draw);
}

/// What holds no delimiter stands in a word, or does not stand after its first
/// byte.
proof fn lemma_inside(b: Seq<u8>, first: u8, tail: Seq<u8>, rest: Seq<u8>, prefix: Seq<u8>)
    requires
        b == seq![first] + tail + rest,
        is_tail(tail),
        is_cut(rest),
        is_tail(prefix),
    ensures
        has_at(b, 1, prefix) <==> starts_with(tail, prefix),
{
    lemma_has_at(b, 1, prefix);
    lemma_starts_with(tail, prefix);
    if has_at(b, 1, prefix) {
        let part = b.subrange(1, 1 + prefix.len() as int);
        if prefix.len() > tail.len() {
            let n = tail.len() as int;
            assert(part[n] == b[1 + n]);
            assert(b[1 + n] == rest[0]);
            assert(!ends_word(prefix[n]));
        } else {
            assert(tail.take(prefix.len() as int) =~= part);
        }
    }
    if starts_with(tail, prefix) {
        assert(b.subrange(1, 1 + prefix.len() as int) =~= tail.take(prefix.len() as int));
    }
}

/// Castling.
pub open spec fn castles(side: CastlingSide, suffix: Option<Suffix>) -> Event<Seq<u8>> {
    Event::San(SanPlus { san: San::Castle(side), suffix })
}

/// The suffix with which bytes start.
pub open spec fn suffix_of(rest: Seq<u8>) -> Option<Suffix> {
    if starts(rest, '+') {
        Some(Suffix::Check)
    } else if starts(rest, '#') {
        Some(Suffix::Checkmate)
    } else {
        None
    }
}

/// Castling that is written with zeros is reported, with the suffix that follows
/// it.
pub proof fn castling_with_zeros_is_read(rest: Seq<u8>)
    ensures
        turn(State::Movetext, None, text("0-0-0"@) + rest) == reports(
            5,
            State::Movetext,
            castles(CastlingSide::QueenSide, suffix_of(rest)),
        ),
        !starts_with(rest, text("-0"@)) ==> turn(State::Movetext, None, text("0-0"@) + rest)
            == reports(3, State::Movetext, castles(CastlingSide::KingSide, suffix_of(rest))),
{
    let zero = seq!['-' as u8, '0' as u8];
    let one = seq!['-' as u8, '1' as u8];
    reveal_strlit("0-0-0");
    reveal_strlit("0-0");
    reveal_strlit("-0");
    assert(text("-0"@) =~= zero);
    let long = text("0-0-0"@) + rest;
    lemma_has_at(long, 1, one);
    lemma_has_at(long, 1, zero);
    lemma_has_at(long, 3, zero);
    assert(long.subrange(1, 3) =~= zero);
    assert(long.subrange(3, 5) =~= zero);
    assert(zero[1] != one[1]);
    assert(rest.len() > 0 ==> long[5] == rest[0]);
    let short = text("0-0"@) + rest;
    lemma_has_at(short, 1, one);
    lemma_has_at(short, 1, zero);
    lemma_has_at(short, 3, zero);
    lemma_starts_with(rest, zero);
    assert(short.subrange(1, 3) =~= zero);
    assert(rest.len() > 0 ==> short[3] == rest[0]);
    if rest.len() >= 2 {
        assert(short.subrange(3, 5) =~= rest.take(2));
    }
}

/// Any other word that starts with a zero is dropped.
pub proof fn a_word_with_a_zero_is_dropped(tail: Seq<u8>, rest: Seq<u8>)
    requires
        is_tail(tail),
        is_cut(rest),
        !starts_with(tail, text("-0"@)),
        !starts_with(tail, text("-1"@)),
    ensures
        turn(State::Movetext, None, seq!['0' as u8] + tail + rest) == drops(
            tail.len() as int + 1,
            State::Movetext,
        ),
{
    let b = seq!['0' as u8] + tail + rest;
    let zero = seq!['-' as u8, '0' as u8];
    let one = seq!['-' as u8, '1' as u8];
    reveal_strlit("-0");
    reveal_strlit("-1");
    assert(text("-0"@) =~= zero);
    assert(text("-1"@) =~= one);
    lemma_word('0' as u8, tail, rest);
    lemma_inside(b, '0' as u8, tail, rest, zero);
    lemma_inside(b, '0' as u8, tail, rest, one);
}

/// A number, such as that of a move, is dropped.
pub proof fn a_number_is_dropped(digits: Seq<u8>, rest: Seq<u8>)
    requires
        is_number(digits),
        is_cut(rest),
    ensures
        turn(State::Movetext, None, digits + rest) == drops(digits.len() as int, State::Movetext),
{
    let first = digits[0];
    let tail = digits.skip(1);
    assert(is_digit(first));
    assert forall|i: int| 0 <= i < tail.len() implies !ends_word(#[trigger] tail[i]) by {
        assert(is_digit(digits[i + 1]));
    }
    assert(digits + rest =~= seq![first] + tail + rest);
    reveal_strlit("-0");
    reveal_strlit("-1");
    reveal_strlit("/2-1/2");
    lemma_starts_with(tail, text("-0"@));
    lemma_starts_with(tail, text("-1"@));
    lemma_starts_with(tail, text("/2-1/2"@));
    if tail.len() > 0 {
        assert(is_digit(digits[1]));
        assert(tail.len() >= 2 ==> tail.take(2)[0] == digits[1]);
        assert(tail.len() >= 6 ==> tail.take(6)[0] == digits[1]);
    }
    if first == '1' as u8 {
        a_word_with_a_one_is_dropped(tail, rest);
    } else if first == '0' as u8 {
        a_word_with_a_zero_is_dropped(tail, rest);
    } else {
        lemma_word(first, tail, rest);
    }
}

/// Each annotation that is written with marks is reported by its number.
pub proof fn marks_are_read(rest: Seq<u8>)
    ensures
        !starts(rest, '!') && !starts(rest, '?') ==> turn(
            State::Movetext,
            None,
            text("!"@) + rest,
        ) == reports(1, State::Movetext, Event::Nag(Nag(1))),
        !starts(rest, '!') && !starts(rest, '?') ==> turn(
            State::Movetext,
            None,
            text("?"@) + rest,
        ) == reports(1, State::Movetext, Event::Nag(Nag(2))),
        turn(State::Movetext, None, text("!!"@) + rest) == reports(
            2,
            State::Movetext,
            Event::Nag(Nag(3)),
        ),
        turn(State::Movetext, None, text("??"@) + rest) == reports(
            2,
            State::Movetext,
            Event::Nag(Nag(4)),
        ),
        turn(State::Movetext, None, text("!?"@) + rest) == reports(
            2,
            State::Movetext,
            Event::Nag(Nag(5)),
        ),
        turn(State::Movetext, None, text("?!"@) + rest) == reports(
            2,
            State::Movetext,
            Event::Nag(Nag(6)),
        ),
{
    reveal_strlit("!");
    reveal_strlit("?");
    reveal_strlit("!!");
    reveal_strlit("??");
    reveal_strlit("!?");
    reveal_strlit("?!");
    assert(rest.len() > 0 ==> (text("!"@) + rest)[1] == rest[0]);
    assert(rest.len() > 0 ==> (text("?"@) + rest)[1] == rest[0]);
}

/// An annotation that is written as a number is reported by it, if it is one from
/// 0 to 255. Otherwise it is dropped.
pub proof fn a_numbered_annotation_is_read(tail: Seq<u8>, rest: Seq<u8>)
    requires
        is_tail(tail),
        is_cut(rest),
    ensures
        is_number(tail) && value_of(tail) <= 255 ==> turn(
            State::Movetext,
            None,
            seq!['$' as u8] + tail + rest,
        ) == reports(
            tail.len() as int + 1,
            State::Movetext,
            Event::Nag(Nag(value_of(tail) as u8)),
        ),
        !(is_number(tail) && value_of(tail) <= 255) ==> turn(
            State::Movetext,
            None,
            seq!['$' as u8] + tail + rest,
        ) == drops(tail.len() as int + 1, State::Movetext),
{
    lemma_word('$' as u8, tail, rest);
    lemma_value(tail);
    if is_number(tail) {
        assert(all_digits(tail)) by {
            assert forall|i: int| 0 <= i < tail.len() implies '0' as u8 <= #[trigger] tail[i]
                <= '9' as u8 by {
                assert(is_digit(tail[i]));
            }
        }
    }
    if all_digits(tail) {
        assert(forall|i: int| 0 <= i < tail.len() ==> is_digit(#[trigger] tail[i]));
    }
}

/// The letters and marks with which a move can start: those of a piece, of a file,
/// of castling, and of a null move.
pub open spec fn starts_a_move(byte: u8) -> bool {
    ||| byte == 'N' as u8
    ||| byte == 'B' as u8
    ||| byte == 'R' as u8
    ||| byte == 'Q' as u8
    ||| byte == 'K' as u8
    ||| byte == 'a' as u8
    ||| byte == 'b' as u8
    ||| byte == 'c' as u8
    ||| byte == 'd' as u8
    ||| byte == 'e' as u8
    ||| byte == 'f' as u8
    ||| byte == 'g' as u8
    ||| byte == 'h' as u8
    ||| byte == 'O' as u8
    ||| byte == '-' as u8
}

/// A word that stands for a move is reported as that move.
pub proof fn a_move_is_read(word: Seq<u8>, rest: Seq<u8>, plus: SanPlus)
    requires
        word.len() > 0,
        starts_a_move(word[0]),
        is_tail(word),
        is_cut(rest),
        san_of(word) == Some(plus),
    ensures
        turn(State::Movetext, None, word + rest) == reports(
            word.len() as int,
            State::Movetext,
            Event::San(plus),
        ),
{
    lemma_other(word, rest);
}

/// The bytes that have a meaning of their own in movetext.
pub open spec fn is_special(byte: u8) -> bool {
    ||| byte == '{' as u8
    ||| byte == '\n' as u8
    ||| byte == ';' as u8
    ||| byte == '1' as u8
    ||| byte == '0' as u8
    ||| byte == '(' as u8
    ||| byte == ')' as u8
    ||| byte == '$' as u8
    ||| byte == '!' as u8
    ||| byte == '?' as u8
    ||| byte == '*' as u8
    ||| byte == ' ' as u8
    ||| byte == '\t' as u8
    ||| byte == '\r' as u8
    ||| byte == 'P' as u8
    ||| byte == '.' as u8
}

/// A word without a special byte at its front.
proof fn lemma_other(word: Seq<u8>, rest: Seq<u8>)
    requires
        word.len() > 0,
        !is_special(word[0]),
        is_tail(word.skip(1)) || is_tail(word),
        is_cut(rest),
    ensures
        turn(State::Movetext, None, word + rest) == reports(
            word.len() as int,
            State::Movetext,
            match san_of(word) {
                Some(plus) => if word[0] > '9' as u8 || word[0] == '-' as u8 {
                    Event::San(plus)
                } else {
                    Event::Nothing
                },
                None => Event::Nothing,
            },
        ),
{
    let first = word[0];
    let tail = word.skip(1);
    if is_tail(word) {
        assert forall|i: int| 0 <= i < tail.len() implies !ends_word(#[trigger] tail[i]) by {
            assert(!ends_word(word[i + 1]));
        }
    }
    assert(word =~= seq![first] + tail);
    assert(word + rest =~= seq![first] + tail + rest);
    lemma_word(first, tail, rest);
}

/// Any other word is tried as a move if it starts with a dash or with a byte above
/// the digits. It is reported if it stands for a move, and dropped otherwise.
pub proof fn any_other_word_is_tried(word: Seq<u8>, rest: Seq<u8>)
    requires
        word.len() > 0,
        !is_special(word[0]),
        is_tail(word.skip(1)),
        is_cut(rest),
    ensures
        (word[0] > '9' as u8 || word[0] == '-' as u8) && san_of(word) is Some ==> turn(
            State::Movetext,
            None,
            word + rest,
        ) == reports(word.len() as int, State::Movetext, Event::San(san_of(word)->0)),
        !((word[0] > '9' as u8 || word[0] == '-' as u8) && san_of(word) is Some) ==> turn(
            State::Movetext,
            None,
            word + rest,
        ) == drops(word.len() as int, State::Movetext),
{
    lemma_other(word, rest);
}

/// Each parenthesis is reported, and an opening one is to be answered.
pub proof fn parentheses_are_read(rest: Seq<u8>)
    ensures
        turn(State::Movetext, None, text("("@) + rest) == reports(
            1,
            State::BeginVariation,
            Event::BeginVariation,
        ),
        turn(State::Movetext, None, text(")"@) + rest) == reports(
            1,
            State::Movetext,
            Event::EndVariation,
        ),
{
    reveal_strlit("(");
    reveal_strlit(")");
}

/// A comment in braces is reported without them. One that has no end is an error,
/// once what is left up to the next closing brace is dropped.
pub proof fn comments_are_read(comment: Seq<u8>, rest: Seq<u8>)
    requires
        !holds_byte(comment, '}'),
    ensures
        turn(
            State::Movetext,
            None,
            seq!['{' as u8] + comment + seq!['}' as u8] + rest,
        ) == reports(comment.len() as int + 2, State::Movetext, Event::Comment(comment)),
        turn(State::Movetext, None, seq!['{' as u8] + comment) == drops_past(
            comment.len() as int + 1,
            '}',
            State::Invalid,
        ),
{
    let close = '}' as u8;
    let b = seq!['{' as u8] + comment + seq![close] + rest;
    let end = comment.len() as int + 1;
    assert forall|j: int| 1 <= j < end implies b[j] != close by {
        assert(b[j] == comment[j - 1]);
    }
    assert(b[end] == close);
    lemma_find_some(b, close, close, close, 1, end);
    assert(b.subrange(1, end) =~= comment);
    let open = seq!['{' as u8] + comment;
    assert forall|j: int| 1 <= j < open.len() implies open[j] != close by {
        assert(open[j] == comment[j - 1]);
    }
    lemma_find_none(open, close, close, close, 1);
}

/// A line break is dropped. Movetext ends at one before an empty line and before a
/// line that starts with a bracket. A line that starts with a percent sign is
/// dropped.
pub proof fn line_breaks_are_dropped(rest: Seq<u8>)
    ensures
        ({
            let t = turn(State::Movetext, None, then_bytes('\n', rest));
            if starts(rest, '%') {
                t == drops_past(2, '\n', State::Movetext)
            } else if starts(rest, '\n') || starts(rest, '[') {
                t == drops(1, State::Trailing)
            } else if starts(rest, '\r') && rest.len() > 1 && rest[1] == '\n' as u8 {
                t == drops(2, State::Trailing)
            } else if starts(rest, '\r') {
                t == drops(2, State::Movetext)
            } else {
                t == drops(1, State::Movetext)
            }
        }),
{
    let b = then_bytes('\n', rest);
    assert(rest.len() > 0 ==> b[1] == rest[0]);
    assert(rest.len() > 1 ==> b[2] == rest[1]);
}

/// Blanks, dots, and the letter of a pawn are dropped, and so is a line from a
/// semicolon on, up to its line break.
pub proof fn blanks_and_rests_of_lines_are_dropped(rest: Seq<u8>)
    ensures
        turn(State::Movetext, None, then_bytes(' ', rest)) == drops(1, State::Movetext),
        turn(State::Movetext, None, then_bytes('\t', rest)) == drops(1, State::Movetext),
        turn(State::Movetext, None, then_bytes('\r', rest)) == drops(1, State::Movetext),
        turn(State::Movetext, None, then_bytes('P', rest)) == drops(1, State::Movetext),
        turn(State::Movetext, None, then_bytes('.', rest)) == drops(1, State::Movetext),
        turn(State::Movetext, None, then_bytes(';', rest)) == drops_before(
            1,
            '\n',
            State::Movetext,
        ),
{
}

/// Where nothing is left, movetext ends.
pub proof fn movetext_ends_with_the_input()
    ensures
        turn(State::Movetext, None, Seq::empty()) == drops(0, State::Trailing),
{
}

/// How castling and null moves are written.
pub proof fn special_moves_are_written()
    ensures
        ({
            let write = |san: San, suffix: Option<Suffix>| special_text(SanPlus { san, suffix });
            let short = San::Castle(CastlingSide::KingSide);
            let long = San::Castle(CastlingSide::QueenSide);
            &&& write(short, None) == text("O-O"@)
            &&& write(short, Some(Suffix::Check)) == text("O-O+"@)
            &&& write(short, Some(Suffix::Checkmate)) == text("O-O#"@)
            &&& write(long, None) == text("O-O-O"@)
            &&& write(long, Some(Suffix::Check)) == text("O-O-O+"@)
            &&& write(long, Some(Suffix::Checkmate)) == text("O-O-O#"@)
            &&& write(San::Null, None) == text("--"@)
            &&& write(San::Null, Some(Suffix::Check)) == text("--+"@)
            &&& write(San::Null, Some(Suffix::Checkmate)) == text("--#"@)
        }),
{
    reveal_strlit("O-O");
    reveal_strlit("O-O+");
    reveal_strlit("O-O#");
    reveal_strlit("O-O-O");
    reveal_strlit("O-O-O+");
    reveal_strlit("O-O-O#");
    reveal_strlit("--");
    reveal_strlit("--+");
    reveal_strlit("--#");
    let write = |san: San, suffix: Option<Suffix>| special_text(SanPlus { san, suffix });
    let short = San::Castle(CastlingSide::KingSide);
    let long = San::Castle(CastlingSide::QueenSide);
    assert(write(short, None) =~= text("O-O"@));
    assert(write(short, Some(Suffix::Check)) =~= text("O-O+"@));
    assert(write(short, Some(Suffix::Checkmate)) =~= text("O-O#"@));
    assert(write(long, None) =~= text("O-O-O"@));
    assert(write(long, Some(Suffix::Check)) =~= text("O-O-O+"@));
    assert(write(long, Some(Suffix::Checkmate)) =~= text("O-O-O#"@));
    assert(write(San::Null, None) =~= text("--"@));
    assert(write(San::Null, Some(Suffix::Check)) =~= text("--+"@));
    assert(write(San::Null, Some(Suffix::Checkmate)) =~= text("--#"@));
}

} // verus!
