//! What the reader does with the bytes that it has read ahead.
//!
//! Reading goes in turns. Before a turn the buffer is filled, where the state
//! asks for it. In the turn the reader looks at the buffer, drops some bytes from
//! its front, moves on to another state, and may have an event to report.
use crate::ascii::{
    BANG, BOM_1, BOM_2, BOM_3, BRACE, BRACKET, CLOSE_BRACE, CLOSE_BRACKET, CLOSE_PAREN, CR,
    DOLLAR, DOT, HASH, LF, MINUS, NINE, ONE, PAREN, PERCENT, PLUS, QUERY, QUOTE, SEMICOLON,
    SLASH, SPACE, STAR, TAB, TWO, UPPER_P, ZERO,
};
use crate::bytes::{byte_at, find, find_byte, has_at, quoted_end, small_number, token_end};
use crate::types::{
    CastlingSide, Color, KnownOutcome, Nag, San, SanPlus, Skip, Suffix, san_of,
};
use vstd::prelude::*;

verus! {

/// Something to report to whoever reads. `B` is what holds bytes.
#[derive(Clone, Debug, PartialEq, Eq)]
pub enum Event<B> {
    /// Nothing to report. Go on with the next turn.
    Nothing,
    /// A game begins.
    BeginGame,
    /// The headers of the game begin.
    BeginHeaders,
    /// A header.
    Header { key: B, value: B },
    /// The headers have been read. To be answered with whether to skip the
    /// movetext.
    EndHeaders,
    /// A move.
    San(SanPlus),
    /// An annotation of a move.
    Nag(Nag),
    /// A comment.
    Comment(B),
    /// A variation begins. To be answered with whether to skip it.
    BeginVariation,
    /// A variation ends.
    EndVariation,
    /// The outcome of the game, or none for `*`.
    Outcome(Option<KnownOutcome>),
    /// The game has been read.
    EndGame,
    /// There was no game left to read.
    NoGame,
    /// Whether there is another game to read.
    HasMore(bool),
    /// The game cannot be read on.
    InvalidData,
}

impl View for Event<Vec<u8>> {
    type V = Event<Seq<u8>>;

    open spec fn view(&self) -> Event<Seq<u8>> {
        match *self {
            Event::Nothing => Event::Nothing,
            Event::BeginGame => Event::BeginGame,
            Event::BeginHeaders => Event::BeginHeaders,
            Event::Header { key, value } => Event::Header { key: key@, value: value@ },
            Event::EndHeaders => Event::EndHeaders,
            Event::San(san) => Event::San(san),
            Event::Nag(nag) => Event::Nag(nag),
            Event::Comment(comment) => Event::Comment(comment@),
            Event::BeginVariation => Event::BeginVariation,
            Event::EndVariation => Event::EndVariation,
            Event::Outcome(outcome) => Event::Outcome(outcome),
            Event::EndGame => Event::EndGame,
            Event::NoGame => Event::NoGame,
            Event::HasMore(more) => Event::HasMore(more),
            Event::InvalidData => Event::InvalidData,
        }
    }
}

/// Why the reader looks for a game.
#[derive(Clone, Copy, Debug, PartialEq, Eq, Structural)]
pub enum Goal {
    /// To read it.
    ReadGame,
    /// To tell whether there is one.
    HasMore,
}

/// What the reader is about to do.
#[derive(Clone, Copy, Debug, PartialEq, Eq, Structural)]
pub enum State {
    /// Skip a byte order mark.
    Bom(Goal),
    /// Skip what comes before a game.
    Blank(Goal),
    /// See if there is a game.
    Start(Goal),
    /// Report that the headers begin.
    BeginHeaders,
    /// Read headers.
    Headers,
    /// Skip what comes after a header on its line.
    Ket,
    /// Wait for the answer to `Event::EndHeaders`.
    EndHeaders,
    /// Read movetext.
    Movetext,
    /// Skip movetext.
    SkipMovetext,
    /// Wait for the answer to `Event::BeginVariation`.
    BeginVariation,
    /// Skip a variation, in which `depth` more variations have begun.
    SkipVariation { depth: usize },
    /// Skip what comes after a game.
    Trailing,
    /// Report that the game cannot be read on.
    Invalid,
}

/// Drop bytes up to the next `needle`, and that one too if `inclusive`.
#[derive(Clone, Copy, Debug, PartialEq, Eq, Structural)]
pub struct SkipUntil {
    pub needle: u8,
    pub inclusive: bool,
}

/// What happens in a turn.
pub struct Turn {
    /// Number of bytes that are dropped from the front of the buffer.
    pub consumed: int,
    /// What to do next.
    pub state: State,
    /// What to drop before that.
    pub pending: Option<SkipUntil>,
    /// What is reported.
    pub event: Event<Seq<u8>>,
}

/// Drop bytes and go to a state, with an event to report.
pub open spec fn tell(consumed: int, state: State, event: Event<Seq<u8>>) -> Turn {
    Turn { consumed, state, pending: None, event }
}

/// Drop bytes and go to a state.
pub open spec fn go(consumed: int, state: State) -> Turn {
    tell(consumed, state, Event::Nothing)
}

/// Drop bytes, then more bytes before the next `needle`, then go to a state.
pub open spec fn go_before(consumed: int, needle: u8, state: State) -> Turn {
    Turn {
        consumed,
        state,
        pending: Some(SkipUntil { needle, inclusive: false }),
        event: Event::Nothing,
    }
}

/// Drop bytes, then more bytes up to and including the next `needle`, then go
/// to a state.
pub open spec fn go_past(consumed: int, needle: u8, state: State) -> Turn {
    Turn {
        consumed,
        state,
        pending: Some(SkipUntil { needle, inclusive: true }),
        event: Event::Nothing,
    }
}

/// Skipping to a byte. If the buffer does not hold it, the whole buffer is
/// dropped and the search goes on, until the source is exhausted.
pub open spec fn skip_until(b: Seq<u8>, skip: SkipUntil, state: State) -> Turn {
    match find_byte(b, skip.needle) {
        Some(i) => go(
            if skip.inclusive {
                i + 1
            } else {
                i
            },
            state,
        ),
        None => Turn {
            consumed: b.len() as int,
            state,
            pending: if b.len() == 0 {
                None
            } else {
                Some(skip)
            },
            event: Event::Nothing,
        },
    }
}

/// A byte order mark.
pub open spec fn bom() -> Seq<u8> {
    seq![BOM_1, BOM_2, BOM_3]
}

/// Skipping a byte order mark.
pub open spec fn skip_bom(b: Seq<u8>, goal: Goal) -> Turn {
    go(
        if has_at(b, 0, bom()) {
            3
        } else {
            0
        },
        State::Blank(goal),
    )
}

/// Space, tab and line breaks.
pub open spec fn is_blank(byte: u8) -> bool {
    byte == SPACE || byte == TAB || byte == CR || byte == LF
}

/// Skipping blanks, and lines from a percent sign on. Afterwards comes `done`.
pub open spec fn skip_whitespace(b: Seq<u8>, here: State, done: Turn) -> Turn {
    if b.len() == 0 {
        done
    } else if is_blank(b[0]) {
        go(1, here)
    } else if b[0] == PERCENT {
        go_past(1, LF, here)
    } else {
        done
    }
}

/// Looking for a game. There is one unless the input is exhausted.
pub open spec fn start(b: Seq<u8>, goal: Goal) -> Turn {
    match goal {
        Goal::ReadGame => if b.len() == 0 {
            tell(0, State::Bom(Goal::ReadGame), Event::NoGame)
        } else {
            tell(0, State::BeginHeaders, Event::BeginGame)
        },
        Goal::HasMore => tell(0, State::Bom(Goal::ReadGame), Event::HasMore(b.len() > 0)),
    }
}

/// Skipping the rest of the line of a header, or up to something unexpected.
pub open spec fn skip_ket(b: Seq<u8>) -> Turn {
    if b.len() == 0 {
        go(0, State::Headers)
    } else if b[0] == SPACE || b[0] == TAB || b[0] == CR || b[0] == CLOSE_BRACKET {
        go(1, State::Ket)
    } else if b[0] == PERCENT {
        go_past(1, LF, State::Headers)
    } else if b[0] == LF {
        go(1, State::Headers)
    } else {
        go(0, State::Headers)
    }
}

/// Reading a header, of which the buffer holds the bracket. Without a quote
/// before the end of the line or the closing bracket it is dropped. A header
/// that the buffer does not hold up to its end is an error.
pub open spec fn read_header(b: Seq<u8>) -> Turn {
    match find(b, QUOTE, LF, CLOSE_BRACKET, 1) {
        None => go_past(b.len() as int, LF, State::Invalid),
        Some(i) => if b[i] != QUOTE {
            go(i + 1, State::Ket)
        } else {
            match quoted_end(b, i + 1) {
                None => go_past(b.len() as int, LF, State::Invalid),
                Some(e) => tell(
                    if b[e] == QUOTE {
                        e + 1
                    } else {
                        e
                    },
                    State::Ket,
                    Event::Header {
                        key: b.subrange(
                            1,
                            if i > 1 && b[i - 1] == SPACE {
                                i - 1
                            } else {
                                i
                            },
                        ),
                        value: b.subrange(i + 1, e),
                    },
                ),
            }
        },
    }
}

/// Reading headers, up to something that is not one.
pub open spec fn read_headers(b: Seq<u8>) -> Turn {
    if b.len() == 0 {
        tell(0, State::EndHeaders, Event::EndHeaders)
    } else if b[0] == BRACKET {
        read_header(b)
    } else if b[0] == PERCENT {
        go_past(0, LF, State::Headers)
    } else {
        tell(0, State::EndHeaders, Event::EndHeaders)
    }
}

/// Skipping movetext, up to an empty line or a line that starts with a bracket.
pub open spec fn skip_movetext(b: Seq<u8>) -> Turn {
    if b.len() == 0 {
        go(0, State::Trailing)
    } else if b[0] == BRACE {
        go_past(1, CLOSE_BRACE, State::SkipMovetext)
    } else if b[0] == SEMICOLON {
        go_before(1, LF, State::SkipMovetext)
    } else if b[0] == LF {
        if byte_at(b, 1, PERCENT) {
            go_before(1, LF, State::SkipMovetext)
        } else if byte_at(b, 1, LF) || byte_at(b, 1, BRACKET) {
            go(1, State::Trailing)
        } else if byte_at(b, 1, CR) {
            if byte_at(b, 2, LF) {
                go(2, State::Trailing)
            } else {
                go(2, State::SkipMovetext)
            }
        } else {
            go(1, State::SkipMovetext)
        }
    } else {
        match find(b, LF, BRACE, SEMICOLON, 1) {
            Some(i) => go(i, State::SkipMovetext),
            None => go(b.len() as int, State::SkipMovetext),
        }
    }
}

/// Reading a comment in braces, of which the buffer holds the first. A comment
/// that the buffer does not hold up to its end is an error.
pub open spec fn read_comment(b: Seq<u8>) -> Turn {
    match find(b, CLOSE_BRACE, CLOSE_BRACE, CLOSE_BRACE, 1) {
        Some(i) => tell(i + 1, State::Movetext, Event::Comment(b.subrange(1, i))),
        None => go_past(b.len() as int, CLOSE_BRACE, State::Invalid),
    }
}

/// Reading a line break, which ends the movetext before an empty line and
/// before a line that starts with a bracket. A line that starts with a percent
/// sign is dropped.
pub open spec fn read_line_break(b: Seq<u8>) -> Turn {
    if byte_at(b, 1, PERCENT) {
        go_past(2, LF, State::Movetext)
    } else if byte_at(b, 1, LF) || byte_at(b, 1, BRACKET) {
        go(1, State::Trailing)
    } else if byte_at(b, 1, CR) {
        if byte_at(b, 2, LF) {
            go(2, State::Trailing)
        } else {
            go(2, State::Movetext)
        }
    } else {
        go(1, State::Movetext)
    }
}

/// The outcome when a player has won.
pub open spec fn won_by(winner: Color) -> Event<Seq<u8>> {
    Event::Outcome(Some(KnownOutcome::Decisive { winner }))
}

/// Reading what starts with a one: an outcome, or a move number.
pub open spec fn read_one(b: Seq<u8>) -> Turn {
    if has_at(b, 1, seq![MINUS, ZERO]) {
        tell(3, State::Movetext, won_by(Color::White))
    } else if has_at(b, 1, seq![SLASH, TWO, MINUS, ONE, SLASH, TWO]) {
        tell(7, State::Movetext, Event::Outcome(Some(KnownOutcome::Draw)))
    } else {
        go(token_end(b, 1), State::Movetext)
    }
}

/// The suffix of a move that stands at a position.
pub open spec fn suffix_at(b: Seq<u8>, i: int) -> Option<Suffix> {
    if byte_at(b, i, PLUS) {
        Some(Suffix::Check)
    } else if byte_at(b, i, HASH) {
        Some(Suffix::Checkmate)
    } else {
        None
    }
}

/// Castling.
pub open spec fn castle(side: CastlingSide, suffix: Option<Suffix>) -> Event<Seq<u8>> {
    Event::San(SanPlus { san: San::Castle(side), suffix })
}

/// Reading what starts with a zero: an outcome, castling notation with zeros,
/// or a token that is dropped. The suffix of castling is not dropped with it.
pub open spec fn read_zero(b: Seq<u8>) -> Turn {
    if has_at(b, 1, seq![MINUS, ONE]) {
        tell(3, State::Movetext, won_by(Color::Black))
    } else if has_at(b, 1, seq![MINUS, ZERO]) {
        if has_at(b, 3, seq![MINUS, ZERO]) {
            tell(5, State::Movetext, castle(CastlingSide::QueenSide, suffix_at(b, 5)))
        } else {
            tell(3, State::Movetext, castle(CastlingSide::KingSide, suffix_at(b, 3)))
        }
    } else {
        go(token_end(b, 1), State::Movetext)
    }
}

/// Reading an annotation that is given by its number. One that is no number
/// from 0 to 255 is dropped.
pub open spec fn read_dollar(b: Seq<u8>) -> Turn {
    match small_number(b.subrange(1, token_end(b, 1))) {
        Some(number) => tell(token_end(b, 1), State::Movetext, Event::Nag(Nag(number))),
        None => go(token_end(b, 1), State::Movetext),
    }
}

/// Reading an annotation that starts with an exclamation mark.
pub open spec fn read_bang(b: Seq<u8>) -> Turn {
    if byte_at(b, 1, BANG) {
        tell(2, State::Movetext, Event::Nag(Nag(Nag::BRILLIANT_MOVE)))
    } else if byte_at(b, 1, QUERY) {
        tell(2, State::Movetext, Event::Nag(Nag(Nag::SPECULATIVE_MOVE)))
    } else {
        tell(1, State::Movetext, Event::Nag(Nag(Nag::GOOD_MOVE)))
    }
}

/// Reading an annotation that starts with a question mark.
pub open spec fn read_query(b: Seq<u8>) -> Turn {
    if byte_at(b, 1, BANG) {
        tell(2, State::Movetext, Event::Nag(Nag(Nag::DUBIOUS_MOVE)))
    } else if byte_at(b, 1, QUERY) {
        tell(2, State::Movetext, Event::Nag(Nag(Nag::BLUNDER)))
    } else {
        tell(1, State::Movetext, Event::Nag(Nag(Nag::MISTAKE)))
    }
}

/// Whether a token that starts with a byte is tried as a move.
pub open spec fn may_start_san(byte: u8) -> bool {
    byte > NINE || byte == MINUS
}

/// What a token that starts with `first` tells, if `san` is what it stands for
/// as a move.
pub open spec fn token_event(first: u8, san: Option<SanPlus>) -> Event<Seq<u8>> {
    match san {
        Some(plus) => if may_start_san(first) {
            Event::San(plus)
        } else {
            Event::Nothing
        },
        None => Event::Nothing,
    }
}

/// Reading any other token: a move, or something that is dropped.
pub open spec fn read_token(b: Seq<u8>, san: Option<SanPlus>) -> Turn {
    tell(token_end(b, 1), State::Movetext, token_event(b[0], san))
}

/// The token at the front of the buffer.
pub open spec fn first_token(b: Seq<u8>) -> Seq<u8> {
    b.take(token_end(b, 1))
}

/// Reading movetext, if `san` is what the first token stands for as a move.
pub open spec fn read_movetext_with(b: Seq<u8>, san: Option<SanPlus>) -> Turn {
    if b.len() == 0 {
        go(0, State::Trailing)
    } else if b[0] == BRACE {
        read_comment(b)
    } else if b[0] == LF {
        read_line_break(b)
    } else if b[0] == SEMICOLON {
        go_before(1, LF, State::Movetext)
    } else if b[0] == ONE {
        read_one(b)
    } else if b[0] == ZERO {
        read_zero(b)
    } else if b[0] == PAREN {
        tell(1, State::BeginVariation, Event::BeginVariation)
    } else if b[0] == CLOSE_PAREN {
        tell(1, State::Movetext, Event::EndVariation)
    } else if b[0] == DOLLAR {
        read_dollar(b)
    } else if b[0] == BANG {
        read_bang(b)
    } else if b[0] == QUERY {
        read_query(b)
    } else if b[0] == STAR {
        tell(1, State::Movetext, Event::Outcome(None))
    } else if b[0] == SPACE || b[0] == TAB || b[0] == CR || b[0] == UPPER_P || b[0] == DOT {
        go(1, State::Movetext)
    } else {
        read_token(b, san)
    }
}

/// Reading movetext.
pub open spec fn read_movetext(b: Seq<u8>) -> Turn {
    read_movetext_with(b, san_of(first_token(b)))
}

/// Skipping a variation, up to its closing parenthesis, an empty line, or a
/// line that starts with a bracket. A line break and a carriage return without
/// a second line break are not dropped, and do not end it.
pub open spec fn skip_variation(b: Seq<u8>, depth: usize) -> Turn {
    let here = State::SkipVariation { depth };
    if b.len() == 0 {
        go(0, State::Movetext)
    } else if b[0] == PAREN {
        go(1, State::SkipVariation { depth: (depth + 1) as usize })
    } else if b[0] == CLOSE_PAREN {
        if depth > 0 {
            go(1, State::SkipVariation { depth: (depth - 1) as usize })
        } else {
            go(0, State::Movetext)
        }
    } else if b[0] == BRACE {
        go_past(1, CLOSE_BRACE, here)
    } else if b[0] == SEMICOLON {
        go_before(1, LF, here)
    } else if b[0] == LF {
        if byte_at(b, 1, PERCENT) {
            go_before(2, LF, here)
        } else if byte_at(b, 1, BRACKET) || byte_at(b, 1, LF) {
            go(0, State::Movetext)
        } else if byte_at(b, 1, CR) {
            if byte_at(b, 2, LF) {
                go(0, State::Movetext)
            } else {
                go(0, here)
            }
        } else {
            go(1, here)
        }
    } else {
        go(1, here)
    }
}

/// The end of a game.
pub open spec fn end_game() -> Turn {
    tell(0, State::Bom(Goal::ReadGame), Event::EndGame)
}

/// A turn in a state, with a buffer.
pub open spec fn turn_in(state: State, b: Seq<u8>) -> Turn {
    match state {
        State::Bom(goal) => skip_bom(b, goal),
        State::Blank(goal) => skip_whitespace(b, state, go(0, State::Start(goal))),
        State::Start(goal) => start(b, goal),
        State::BeginHeaders => tell(0, State::Headers, Event::BeginHeaders),
        State::Headers => read_headers(b),
        State::Ket => skip_ket(b),
        State::EndHeaders => tell(0, state, Event::EndHeaders),
        State::Movetext => read_movetext(b),
        State::SkipMovetext => skip_movetext(b),
        State::BeginVariation => tell(0, state, Event::BeginVariation),
        State::SkipVariation { depth } => skip_variation(b, depth),
        State::Trailing => skip_whitespace(b, state, end_game()),
        State::Invalid => tell(0, State::Bom(Goal::ReadGame), Event::InvalidData),
    }
}

/// A turn. What is pending comes first.
pub open spec fn turn(state: State, pending: Option<SkipUntil>, b: Seq<u8>) -> Turn {
    match pending {
        Some(skip) => skip_until(b, skip, state),
        None => turn_in(state, b),
    }
}

/// Whether the buffer is filled before a turn.
pub open spec fn fills(state: State, pending: Option<SkipUntil>) -> bool {
    ||| pending is Some
    ||| !(state is BeginHeaders || state is EndHeaders || state is BeginVariation
        || state is Invalid)
}

/// The state after an answer. Where no answer is awaited, nothing changes.
pub open spec fn answered(state: State, skip: Skip) -> State {
    match state {
        State::EndHeaders => if skip.0 {
            State::SkipMovetext
        } else {
            State::Movetext
        },
        State::BeginVariation => if skip.0 {
            State::SkipVariation { depth: 0 }
        } else {
            State::Movetext
        },
        _ => state,
    }
}

} // verus!
