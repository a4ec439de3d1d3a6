//! Movetext as a whole: what it is made of is what is reported.
use crate::buffer::MIN_BUFFER_SIZE;
use crate::grammar::{Event, State, turn};
use crate::progress::{Dealer, dealt};
use crate::run::{Listener, Run, Told, next_through, read_through, reads_variations};
use crate::texts::{drops, holds_byte, is_cut, is_number, is_tail, starts, text, value_of};
use crate::tokens::{
    a_move_is_read, a_number_is_dropped, a_numbered_annotation_is_read, an_outcome_is_read,
    blanks_and_rests_of_lines_are_dropped, comments_are_read, line_breaks_are_dropped,
    marks_are_read, parentheses_are_read, starts_a_move,
};
use crate::types::{Color, KnownOutcome, Nag, SanPlus, san_of};
use crate::windows::is_window;
use vstd::prelude::*;

verus! {

/// What movetext is made of.
pub enum Item {
    /// A number, such as that of a move.
    Number(Seq<u8>),
    /// A word that stands for a move.
    Move(Seq<u8>, SanPlus),
    /// `!`.
    Good,
    /// `?`.
    Mistake,
    /// `!!`.
    Brilliant,
    /// `??`.
    Blunder,
    /// `!?`.
    Speculative,
    /// `?!`.
    Dubious,
    /// A dollar sign and a number.
    Annotation(Seq<u8>),
    /// A comment in braces.
    Comment(Seq<u8>),
    /// `(`.
    Open,
    /// `)`.
    Close,
    /// `1-0`.
    White,
    /// `0-1`.
    Black,
    /// `1/2-1/2`.
    Draw,
    /// `*`.
    Unknown,
}

/// How an item is written.
pub open spec fn item_text(item: Item) -> Seq<u8> {
    match item {
        Item::Number(digits) => digits,
        Item::Move(word, _) => word,
        Item::Good => text("!"@),
        Item::Mistake => text("?"@),
        Item::Brilliant => text("!!"@),
        Item::Blunder => text("??"@),
        Item::Speculative => text("!?"@),
        Item::Dubious => text("?!"@),
        Item::Annotation(digits) => seq!['$' as u8] + digits,
        Item::Comment(comment) => seq!['{' as u8] + comment + seq!['}' as u8],
        Item::Open => text("("@),
        Item::Close => text(")"@),
        Item::White => text("1-0"@),
        Item::Black => text("0-1"@),
        Item::Draw => text("1/2-1/2"@),
        Item::Unknown => text("*"@),
    }
}

/// What is reported of an item.
pub open spec fn item_event(item: Item) -> Event<Seq<u8>> {
    match item {
        Item::Number(_) => Event::Nothing,
        Item::Move(_, plus) => Event::San(plus),
        Item::Good => Event::Nag(Nag(1)),
        Item::Mistake => Event::Nag(Nag(2)),
        Item::Brilliant => Event::Nag(Nag(3)),
        Item::Blunder => Event::Nag(Nag(4)),
        Item::Speculative => Event::Nag(Nag(5)),
        Item::Dubious => Event::Nag(Nag(6)),
        Item::Annotation(digits) => Event::Nag(Nag(value_of(digits) as u8)),
        Item::Comment(comment) => Event::Comment(comment),
        Item::Open => Event::BeginVariation,
        Item::Close => Event::EndVariation,
        Item::White => Event::Outcome(Some(KnownOutcome::Decisive { winner: Color::White })),
        Item::Black => Event::Outcome(Some(KnownOutcome::Decisive { winner: Color::Black })),
        Item::Draw => Event::Outcome(Some(KnownOutcome::Draw)),
        Item::Unknown => Event::Outcome(None),
    }
}

/// Whether an item can be written, and fits into the smallest buffer.
pub open spec fn is_item(item: Item) -> bool {
    &&& item_text(item).len() <= MIN_BUFFER_SIZE
    &&& match item {
        Item::Number(digits) => is_number(digits),
        Item::Move(word, plus) => {
            &&& word.len() > 0
            &&& starts_a_move(word[0])
            &&& is_tail(word)
            &&& san_of(word) == Some(plus)
        },
        Item::Annotation(digits) => is_number(digits) && is_tail(digits) && value_of(digits)
            <= 255,
        Item::Comment(comment) => !holds_byte(comment, '}'),
        _ => true,
    }
}

/// Whether a byte can stand between items.
pub open spec fn is_gap_byte(byte: u8) -> bool {
    byte == ' ' as u8 || byte == '\t' as u8 || byte == '\r' as u8 || byte == '\n' as u8 || byte
        == '.' as u8
}

/// Whether bytes can stand between an item and what comes after it. A line break
/// among them is not followed by an empty line, or by a line that starts with a
/// bracket or a percent sign.
pub open spec fn is_gap(gap: Seq<u8>, rest: Seq<u8>) -> bool {
    &&& gap.len() > 0
    &&& forall|i: int| 0 <= i < gap.len() ==> is_gap_byte(#[trigger] gap[i])
    &&& forall|i: int|
        0 <= i < gap.len() && #[trigger] gap[i] == '\n' as u8 ==> goes_on((gap + rest).skip(i + 1))
}

/// Whether movetext goes on after a line break.
pub open spec fn goes_on(rest: Seq<u8>) -> bool {
    !starts(rest, '\n') && !starts(rest, '\r') && !starts(rest, '[') && !starts(rest, '%')
}

/// An item, and what comes before the next one.
pub struct Entry {
    pub item: Item,
    pub gap: Seq<u8>,
}

/// How entries are written, followed by other bytes.
pub open spec fn score_text(entries: Seq<Entry>, rest: Seq<u8>) -> Seq<u8>
    decreases entries.len(),
{
    if entries.len() == 0 {
        rest
    } else {
        item_text(entries[0].item) + (entries[0].gap + score_text(entries.skip(1), rest))
    }
}

/// Whether entries can be written, followed by other bytes.
pub open spec fn is_score(entries: Seq<Entry>, rest: Seq<u8>) -> bool
    decreases entries.len(),
{
    entries.len() > 0 ==> {
        &&& is_item(entries[0].item)
        &&& is_gap(entries[0].gap, score_text(entries.skip(1), rest))
        &&& is_score(entries.skip(1), rest)
    }
}

/// What was reported, and what is reported of entries.
pub open spec fn score_told(told: Told, entries: Seq<Entry>) -> Told
    decreases entries.len(),
{
    if entries.len() == 0 {
        told
    } else {
        score_told(item_told(told, entries[0].item), entries.skip(1))
    }
}

/// What was reported, and what is reported of an item.
pub open spec fn item_told(told: Told, item: Item) -> Told {
    match item {
        Item::Number(_) => told,
        _ => told.push(item_event(item)),
    }
}

/// A turn that reads an item.
proof fn lemma_item(item: Item, rest: Seq<u8>)
    requires
        is_item(item),
        rest.len() > 0 ==> is_gap_byte(rest[0]),
    ensures
        ({
            let t = turn(State::Movetext, None, item_text(item) + rest);
            &&& t.consumed == item_text(item).len()
            &&& t.pending is None
            &&& t.event == item_event(item)
            &&& t.state == (if item is Open {
                State::BeginVariation
            } else {
                State::Movetext
            })
        }),
{
    assert(is_cut(rest));
    reveal_strlit("!");
    reveal_strlit("?");
    reveal_strlit("!!");
    reveal_strlit("??");
    reveal_strlit("!?");
    reveal_strlit("?!");
    reveal_strlit("(");
    reveal_strlit(")");
    reveal_strlit("1-0");
    reveal_strlit("0-1");
    reveal_strlit("1/2-1/2");
    reveal_strlit("*");
    match item {
        Item::Number(digits) => a_number_is_dropped(digits, rest),
        Item::Move(word, plus) => a_move_is_read(word, rest, plus),
        Item::Annotation(digits) => a_numbered_annotation_is_read(digits, rest),
        Item::Comment(comment) => comments_are_read(comment, rest),
        Item::Open => parentheses_are_read(rest),
        Item::Close => parentheses_are_read(rest),
        Item::White => an_outcome_is_read(rest),
        Item::Black => an_outcome_is_read(rest),
        Item::Draw => an_outcome_is_read(rest),
        Item::Unknown => an_outcome_is_read(rest),
        _ => marks_are_read(rest),
    }
}

/// A turn that reads an item, through a window.
proof fn lemma_item_window(
    r: Run,
    item: Item,
    rest: Seq<u8>,
    window: int,
    listener: Listener,
)
    requires
        r.state is Movetext,
        r.pending is None,
        is_item(item),
        r.input == item_text(item) + rest,
        rest.len() > 0 ==> is_gap_byte(rest[0]),
        is_window(window, r),
        reads_variations(listener),
    ensures
        next_through(r, window, listener) == (Run {
            input: rest,
            told: item_told(r.told, item),
            ..r
        }),
{
    let written = item_text(item);
    let cut = rest.take(window - written.len());
    assert(r.input.take(window) =~= written + cut);
    assert(cut.len() > 0 ==> cut[0] == rest[0]);
    lemma_item(item, cut);
    assert(r.input.skip(written.len() as int) =~= rest);
    if item is Open {
        assert(item_told(r.told, item).last() is BeginVariation);
    }
}

/// Turns that drop what comes between items.
proof fn lemma_gap(
    r: Run,
    done: Seq<int>,
    gap: Seq<u8>,
    rest: Seq<u8>,
    dealer: Dealer,
    listener: Listener,
) -> (windows: Seq<int>)
    requires
        dealt(r, done, dealer, listener),
        forall|x: Run| is_window(#[trigger] dealer(x), x),
        read_through(r, done, listener).state is Movetext,
        read_through(r, done, listener).pending is None,
        read_through(r, done, listener).input == gap + rest,
        gap.len() == 0 || is_gap(gap, rest),
    ensures
        dealt(r, windows, dealer, listener),
        read_through(r, windows, listener) == (Run {
            input: rest,
            ..read_through(r, done, listener)
        }),
    decreases gap.len(),
{
    let now = read_through(r, done, listener);
    if gap.len() == 0 {
        assert(gap + rest =~= rest);
        done
    } else {
        let window = dealer(now);
        let more = done.push(window);
        let b = now.input.take(window);
        let tail = b.skip(1);
        let others = gap.skip(1);
        assert(is_window(window, now));
        assert(more.drop_last() =~= done);
        assert(is_gap_byte(gap[0]));
        assert(b =~= seq![gap[0]] + tail);
        blanks_and_rests_of_lines_are_dropped(tail);
        line_breaks_are_dropped(tail);
        if gap[0] == '\n' as u8 {
            let after = (gap + rest).skip(1);
            assert(goes_on(after));
            assert(tail.len() > 0 ==> tail[0] == after[0]);
        }
        assert(turn(State::Movetext, None, b) == drops(1, State::Movetext));
        assert(now.input.skip(1) =~= others + rest);
        assert(read_through(r, more, listener) =~= Run { input: others + rest, ..now });
        if others.len() > 0 {
            assert forall|i: int| 0 <= i < others.len() implies is_gap_byte(
                #[trigger] others[i],
            ) by {
                assert(is_gap_byte(gap[i + 1]));
            }
            assert forall|i: int|
                0 <= i < others.len() && #[trigger] others[i] == '\n' as u8 implies goes_on(
                (others + rest).skip(i + 1),
            ) by {
                assert(gap[i + 1] == '\n' as u8);
                assert((others + rest).skip(i + 1) =~= (gap + rest).skip(i + 1 + 1));
            }
        }
        lemma_gap(r, more, others, rest, dealer, listener)
    }
}

/// Turns that read entries.
proof fn lemma_score(
    r: Run,
    done: Seq<int>,
    entries: Seq<Entry>,
    rest: Seq<u8>,
    dealer: Dealer,
    listener: Listener,
) -> (windows: Seq<int>)
    requires
        dealt(r, done, dealer, listener),
        forall|x: Run| is_window(#[trigger] dealer(x), x),
        read_through(r, done, listener).state is Movetext,
        read_through(r, done, listener).pending is None,
        read_through(r, done, listener).input == score_text(entries, rest),
        is_score(entries, rest),
        reads_variations(listener),
    ensures
        dealt(r, windows, dealer, listener),
        ({
            let now = read_through(r, done, listener);
            read_through(r, windows, listener) == (Run {
                input: rest,
                told: score_told(now.told, entries),
                ..now
            })
        }),
    decreases entries.len(),
{
    let now = read_through(r, done, listener);
    if entries.len() == 0 {
        done
    } else {
        let entry = entries[0];
        let others = entries.skip(1);
        let left = score_text(others, rest);
        let window = dealer(now);
        let more = done.push(window);
        assert(is_window(window, now));
        assert(more.drop_last() =~= done);
        assert(is_gap_byte(entry.gap[0]));
        assert((entry.gap + left)[0] == entry.gap[0]);
        lemma_item_window(now, entry.item, entry.gap + left, window, listener);
        let gone = lemma_gap(r, more, entry.gap, left, dealer, listener);
        lemma_score(r, gone, others, rest, dealer, listener)
    }
}

/// However the source deals out its bytes, of movetext that is made of numbers,
/// moves, annotations, comments, parentheses and outcomes, with blanks and dots
/// between them, exactly those are reported, in their order, but for the numbers,
/// if no variation is skipped.
pub proof fn exactly_what_is_written_is_reported(
    r: Run,
    entries: Seq<Entry>,
    rest: Seq<u8>,
    dealer: Dealer,
    listener: Listener,
) -> (windows: Seq<int>)
    requires
        r.state is Movetext,
        r.pending is None,
        r.input == score_text(entries, rest),
        is_score(entries, rest),
        reads_variations(listener),
        forall|x: Run| is_window(#[trigger] dealer(x), x),
    ensures
        dealt(r, windows, dealer, listener),
        read_through(r, windows, listener) == (Run {
            input: rest,
            told: score_told(r.told, entries),
            ..r
        }),
{
    let none = Seq::<int>::empty();
    assert(read_through(r, none, listener) == r);
    lemma_score(r, none, entries, rest, dealer, listener)
}

} // verus!
