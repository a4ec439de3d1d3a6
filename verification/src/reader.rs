//! The reader.
use crate::ascii::{
    BACKSLASH, BANG, BOM_1, BOM_2, BOM_3, BRACE, BRACKET, CLOSE_BRACE, CLOSE_BRACKET, CLOSE_PAREN,
    CR, DOLLAR, DOT, HASH, LF, MINUS, NINE, ONE, PAREN, PERCENT, PLUS, QUERY, QUOTE, SEMICOLON,
    SLASH, SPACE, STAR, TAB, TWO, UPPER_O, UPPER_P, ZERO,
};
use crate::buffer::{BUFFER_SIZE, Buffer, MIN_BUFFER_SIZE, least};
use crate::bytes::{
    btou, byte_at, find, has_at, lemma_find_none, lemma_find_some, lemma_token_end, quoted_end,
    token_end,
};
use crate::grammar;
use crate::grammar::{Event, Goal, SkipUntil, State, Turn};
use crate::types::{
    CastlingSide, Color, KnownOutcome, Nag, San, SanPlus, Skip, Suffix, is_special, san_from_ascii,
    san_of, special_text,
};
use vstd::prelude::*;
use vstd::slice::{slice_subrange, slice_to_vec};

verus! {

/// A buffered PGN reader. It does no input of its own: whoever reads from a
/// source puts the bytes into `space`, tells with `fill` how many there are, and
/// takes a `step` after the other.
#[derive(Debug)]
pub struct BufferedReader {
    buffer: Buffer,
    state: State,
    pending: Option<SkipUntil>,
}

impl View for BufferedReader {
    type V = Seq<u8>;

    /// The bytes that were read ahead and not consumed.
    closed spec fn view(&self) -> Seq<u8> {
        self.buffer@
    }
}

/// Whether a slice starts with some bytes from a position on.
fn starts_with(data: &[u8], from: usize, prefix: &[u8]) -> (yes: bool)
    requires
        from <= data@.len(),
    ensures
        yes == has_at(data@, from as int, prefix@),
{
    if data.len() - from < prefix.len() {
        return false;
    }
    let mut i: usize = 0;
    while i < prefix.len()
        invariant
            i <= prefix@.len(),
            from + prefix.len() <= data.len(),
            forall|j: int| 0 <= j < i ==> data@[from + j] == #[trigger] prefix@[j],
        decreases prefix@.len() - i,
    {
        if data[from + i] != prefix[i] {
            assert(data@[from + i] != prefix@[i as int]);
            return false;
        }
        i += 1;
    }
    true
}

/// Whether a slice holds a byte at a position.
fn holds(data: &[u8], i: usize, byte: u8) -> (yes: bool)
    ensures
        yes == byte_at(data@, i as int, byte),
{
    i < data.len() && data[i] == byte
}

/// The first position from `from` on at which a slice holds one of three bytes.
fn search(data: &[u8], a: u8, b: u8, c: u8, from: usize) -> (found: Option<usize>)
    requires
        from <= data@.len(),
    ensures
        match found {
            Some(i) => find(data@, a, b, c, from as int) == Some(i as int) && from <= i
                < data.len(),
            None => find(data@, a, b, c, from as int) is None,
        },
{
    let rest = slice_subrange(data, from, data.len());
    assert(forall|j: int| from <= j < data@.len() ==> data@[j] == rest@[j - from]);
    match memchr::memchr3(a, b, c, rest) {
        Some(i) => {
            proof {
                lemma_find_some(data@, a, b, c, from as int, from + i);
            }
            Some(from + i)
        },
        None => {
            proof {
                lemma_find_none(data@, a, b, c, from as int);
            }
            None
        },
    }
}

/// The first position from `from` on at which a slice holds a byte.
fn search_byte(data: &[u8], byte: u8, from: usize) -> (found: Option<usize>)
    requires
        from <= data@.len(),
    ensures
        match found {
            Some(i) => find(data@, byte, byte, byte, from as int) == Some(i as int) && from <= i
                < data.len(),
            None => find(data@, byte, byte, byte, from as int) is None,
        },
{
    let rest = slice_subrange(data, from, data.len());
    assert(forall|j: int| from <= j < data@.len() ==> data@[j] == rest@[j - from]);
    match memchr::memchr(byte, rest) {
        Some(i) => {
            proof {
                lemma_find_some(data@, byte, byte, byte, from as int, from + i);
            }
            Some(from + i)
        },
        None => {
            proof {
                lemma_find_none(data@, byte, byte, byte, from as int);
            }
            None
        },
    }
}

/// The end of a token, of which the bytes before `start` are known to be part.
fn find_token_end(data: &[u8], start: usize) -> (end: usize)
    requires
        start <= data@.len(),
    ensures
        end == token_end(data@, start as int),
        start <= end <= data@.len(),
{
    let mut end: usize = start;
    while end < data.len()
        invariant
            start <= end <= data@.len(),
            token_end(data@, start as int) == token_end(data@, end as int),
        ensures
            start <= end <= data@.len(),
            end == token_end(data@, start as int),
        decreases data@.len() - end,
    {
        let ch: u8 = data[end];
        if ch == SPACE || ch == TAB || ch == LF || ch == CR || ch == BRACE || ch == CLOSE_BRACE
            || ch == PAREN || ch == CLOSE_PAREN || ch == BANG || ch == QUERY || ch == DOLLAR || ch
            == SEMICOLON || ch == DOT {
            break;
        }
        end += 1;
    }
    end
}

/// Bytes that are neither a backslash, nor a quote, nor a line break do not end
/// a quoted text.
proof fn lemma_quoted_end_step(s: Seq<u8>, from: int, to: int)
    requires
        0 <= from <= to <= s.len(),
        forall|j: int|
            from <= j < to ==> s[j] != BACKSLASH && s[j] != QUOTE && s[j] != LF,
    ensures
        quoted_end(s, from) == quoted_end(s, to),
    decreases to - from,
{
    if from < to {
        lemma_quoted_end_step(s, from + 1, to);
    }
}

/// The end of a quoted text that starts at a position.
fn find_quoted_end(data: &[u8], start: usize) -> (found: Option<usize>)
    requires
        start <= data@.len(),
    ensures
        match found {
            Some(i) => quoted_end(data@, start as int) == Some(i as int) && start <= i
                < data.len(),
            None => quoted_end(data@, start as int) is None,
        },
{
    let mut right: usize = start;
    loop
        invariant
            start <= right <= data.len(),
            quoted_end(data@, start as int) == quoted_end(data@, right as int),
        decreases data@.len() - right,
    {
        let rest = slice_subrange(data, right, data.len());
        assert(forall|j: int| right <= j < data@.len() ==> data@[j] == rest@[j - right]);
        match memchr::memchr3(BACKSLASH, QUOTE, LF, rest) {
            Some(delta) => {
                let i: usize = right + delta;
                proof {
                    lemma_quoted_end_step(data@, right as int, i as int);
                }
                if data[i] != BACKSLASH {
                    return Some(i);
                }
                assert(quoted_end(data@, i as int) == quoted_end(data@, i + 2));
                assert(i + 2 >= data@.len() ==> quoted_end(data@, i + 2) is None);
                assert(quoted_end(data@, data@.len() as int) is None);
                // Skip escaped character.
                right = if data.len() - i < 2 {
                    data.len()
                } else {
                    i + 2
                };
            },
            None => {
                proof {
                    lemma_quoted_end_step(data@, right as int, data@.len() as int);
                }
                return None;
            },
        }
    }
}

/// A token that writes castling or a null move starts with an `O` or a dash.
proof fn lemma_special_token(b: Seq<u8>)
    ensures
        forall|plus: SanPlus|
            is_special(plus.san) && grammar::first_token(b) == #[trigger] special_text(plus)
                ==> b.len() > 0 && (b[0] == UPPER_O || b[0] == MINUS),
{
    assert forall|plus: SanPlus|
        is_special(plus.san) && grammar::first_token(b) == #[trigger] special_text(
            plus,
        ) implies b.len() > 0 && (b[0] == UPPER_O || b[0] == MINUS) by {
        let text = special_text(plus);
        assert(text[0] == UPPER_O || text[0] == MINUS);
        if b.len() > 0 {
            lemma_token_end(b, 1);
            assert(b[0] == b.take(token_end(b, 1))[0]);
        } else {
            assert(grammar::first_token(b).len() == 0);
            assert(text.len() > 0);
        }
    }
}

/// What a token that starts with `first` tells, if `san` is what it stands for
/// as a move.
pub fn token_event(first: u8, san: Option<SanPlus>) -> (event: Event<Vec<u8>>)
    ensures
        event@ == grammar::token_event(first, san),
{
    match san {
        Some(plus) => if first > NINE || first == MINUS {
            Event::San(plus)
        } else {
            Event::Nothing
        },
        None => Event::Nothing,
    }
}

impl BufferedReader {
    /// What the reader is about to do.
    pub closed spec fn state(&self) -> State {
        self.state
    }

    /// What the reader drops before that.
    pub closed spec fn pending(&self) -> Option<SkipUntil> {
        self.pending
    }

    /// What is in the memory that the next bytes will be read into.
    pub closed spec fn room(&self) -> Seq<u8> {
        self.buffer.room()
    }

    /// The buffer is in order.
    pub closed spec fn wf(&self) -> bool {
        self.buffer.wf()
    }

    /// Whether the reader is like `before`, but for a turn.
    pub open spec fn took(&self, before: &BufferedReader, turn: Turn) -> bool {
        &&& self.wf()
        &&& self@ == before@.skip(turn.consumed)
        &&& self.state() == turn.state
        &&& self.pending() == turn.pending
    }

    /// The buffer never holds more than `BUFFER_SIZE` bytes, and what it holds and
    /// what can still be filled in are no more than that together.
    pub proof fn the_buffer_is_bounded(&self)
        requires
            self.wf(),
        ensures
            self@.len() + self.room().len() <= BUFFER_SIZE,
    {
        self.buffer.the_size_is_bounded();
    }

    /// Create a new buffered PGN reader.
    pub fn new() -> (reader: BufferedReader)
        ensures
            reader.wf(),
            reader@ == Seq::<u8>::empty(),
            reader.room().len() == BUFFER_SIZE,
            reader.state() == State::Bom(Goal::ReadGame),
            reader.pending() is None,
    {
        BufferedReader {
            buffer: Buffer::new(),
            state: State::Bom(Goal::ReadGame),
            pending: None,
        }
    }

    /// Drops bytes and goes to a state, with an event to report.
    fn tell(&mut self, consumed: usize, state: State, event: Event<Vec<u8>>) -> (told: Event<
        Vec<u8>,
    >)
        requires
            old(self).wf(),
            consumed <= old(self)@.len(),
        ensures
            final(self).took(old(self), grammar::tell(consumed as int, state, event@)),
            told == event,
    {
        self.buffer.consume(consumed);
        self.state = state;
        self.pending = None;
        event
    }

    /// Drops bytes and goes to a state.
    fn go(&mut self, consumed: usize, state: State) -> (told: Event<Vec<u8>>)
        requires
            old(self).wf(),
            consumed <= old(self)@.len(),
        ensures
            final(self).took(old(self), grammar::go(consumed as int, state)),
            told@ == Event::<Seq<u8>>::Nothing,
    {
        self.tell(consumed, state, Event::Nothing)
    }

    /// Drops bytes, then more bytes before the next `needle`, then goes to a
    /// state.
    fn go_before(&mut self, consumed: usize, needle: u8, state: State) -> (told: Event<Vec<u8>>)
        requires
            old(self).wf(),
            consumed <= old(self)@.len(),
        ensures
            final(self).took(old(self), grammar::go_before(consumed as int, needle, state)),
            told@ == Event::<Seq<u8>>::Nothing,
    {
        self.buffer.consume(consumed);
        self.state = state;
        self.pending = Some(SkipUntil { needle, inclusive: false });
        Event::Nothing
    }

    /// Drops bytes, then more bytes up to and including the next `needle`, then
    /// goes to a state.
    fn go_past(&mut self, consumed: usize, needle: u8, state: State) -> (told: Event<Vec<u8>>)
        requires
            old(self).wf(),
            consumed <= old(self)@.len(),
        ensures
            final(self).took(old(self), grammar::go_past(consumed as int, needle, state)),
            told@ == Event::<Seq<u8>>::Nothing,
    {
        self.buffer.consume(consumed);
        self.state = state;
        self.pending = Some(SkipUntil { needle, inclusive: true });
        Event::Nothing
    }

    /// Skips to a byte, as far as the buffer goes.
    fn skip_until(&mut self, skip: SkipUntil) -> (event: Event<Vec<u8>>)
        requires
            old(self).wf(),
        ensures
            final(self).took(
                old(self),
                grammar::skip_until(old(self)@, skip, old(self).state()),
            ),
            event@ == grammar::skip_until(old(self)@, skip, old(self).state()).event,
    {
        let state = self.state;
        let data = self.buffer.data();
        match search_byte(data, skip.needle, 0) {
            Some(i) => {
                let consumed: usize = if skip.inclusive {
                    i + 1
                } else {
                    i
                };
                self.go(consumed, state)
            },
            None => {
                let n: usize = self.buffer.len();
                self.buffer.consume(n);
                self.pending = if n == 0 {
                    None
                } else {
                    Some(skip)
                };
                Event::Nothing
            },
        }
    }

    /// Skips a byte order mark.
    fn skip_bom(&mut self, goal: Goal) -> (event: Event<Vec<u8>>)
        requires
            old(self).wf(),
        ensures
            final(self).took(old(self), grammar::skip_bom(old(self)@, goal)),
            event@ == grammar::skip_bom(old(self)@, goal).event,
    {
        let mark: [u8; 3] = [BOM_1, BOM_2, BOM_3];
        assert(mark@ =~= grammar::bom());
        if starts_with(self.buffer.data(), 0, &mark) {
            self.go(3, State::Blank(goal))
        } else {
            self.go(0, State::Blank(goal))
        }
    }

    /// Skips a blank, or starts to skip a line from a percent sign on. If there
    /// is nothing of the kind, goes to `then` and reports `done`.
    fn skip_whitespace(&mut self, then: State, done: Event<Vec<u8>>) -> (event: Event<Vec<u8>>)
        requires
            old(self).wf(),
        ensures
            final(self).took(
                old(self),
                grammar::skip_whitespace(
                    old(self)@,
                    old(self).state(),
                    grammar::tell(0, then, done@),
                ),
            ),
            event@ == grammar::skip_whitespace(
                old(self)@,
                old(self).state(),
                grammar::tell(0, then, done@),
            ).event,
    {
        let state = self.state;
        match self.peek() {
            Some(ch) => if ch == SPACE || ch == TAB || ch == CR || ch == LF {
                self.go(1, state)
            } else if ch == PERCENT {
                self.go_past(1, LF, state)
            } else {
                self.tell(0, then, done)
            },
            None => self.tell(0, then, done),
        }
    }

    /// Sees if there is a game.
    fn start(&mut self, goal: Goal) -> (event: Event<Vec<u8>>)
        requires
            old(self).wf(),
        ensures
            final(self).took(old(self), grammar::start(old(self)@, goal)),
            event@ == grammar::start(old(self)@, goal).event,
    {
        let some = self.peek().is_some();
        match goal {
            Goal::ReadGame => if some {
                self.tell(0, State::BeginHeaders, Event::BeginGame)
            } else {
                self.tell(0, State::Bom(Goal::ReadGame), Event::NoGame)
            },
            Goal::HasMore => self.tell(0, State::Bom(Goal::ReadGame), Event::HasMore(some)),
        }
    }

    /// Skips a byte after a header.
    fn skip_ket(&mut self) -> (event: Event<Vec<u8>>)
        requires
            old(self).wf(),
        ensures
            final(self).took(old(self), grammar::skip_ket(old(self)@)),
            event@ == grammar::skip_ket(old(self)@).event,
    {
        match self.peek() {
            Some(ch) => if ch == SPACE || ch == TAB || ch == CR || ch == CLOSE_BRACKET {
                self.go(1, State::Ket)
            } else if ch == PERCENT {
                self.go_past(1, LF, State::Headers)
            } else if ch == LF {
                self.go(1, State::Headers)
            } else {
                self.go(0, State::Headers)
            },
            None => self.go(0, State::Headers),
        }
    }

    /// Reads a header.
    fn read_header(&mut self) -> (event: Event<Vec<u8>>)
        requires
            old(self).wf(),
            old(self)@.len() > 0,
        ensures
            final(self).took(old(self), grammar::read_header(old(self)@)),
            event@ == grammar::read_header(old(self)@).event,
    {
        let data = self.buffer.data();
        let left_quote: usize = match search(data, QUOTE, LF, CLOSE_BRACKET, 1) {
            Some(i) => {
                if data[i] != QUOTE {
                    return self.go(i + 1, State::Ket);
                }
                i
            },
            None => {
                let n: usize = data.len();
                return self.go_past(n, LF, State::Invalid);
            },
        };
        let space: usize = if left_quote > 1 && data[left_quote - 1] == SPACE {
            left_quote - 1
        } else {
            left_quote
        };
        match find_quoted_end(data, left_quote + 1) {
            Some(right_quote) => {
                let consumed: usize = if data[right_quote] == QUOTE {
                    right_quote + 1
                } else {
                    right_quote
                };
                let key = slice_to_vec(slice_subrange(data, 1, space));
                let value = slice_to_vec(slice_subrange(data, left_quote + 1, right_quote));
                self.tell(consumed, State::Ket, Event::Header { key, value })
            },
            None => {
                let n: usize = data.len();
                self.go_past(n, LF, State::Invalid)
            },
        }
    }

    /// Reads a header, skips a line, or ends the headers.
    fn read_headers(&mut self) -> (event: Event<Vec<u8>>)
        requires
            old(self).wf(),
        ensures
            final(self).took(old(self), grammar::read_headers(old(self)@)),
            event@ == grammar::read_headers(old(self)@).event,
    {
        match self.peek() {
            Some(ch) => if ch == BRACKET {
                self.read_header()
            } else if ch == PERCENT {
                self.go_past(0, LF, State::Headers)
            } else {
                self.tell(0, State::EndHeaders, Event::EndHeaders)
            },
            None => self.tell(0, State::EndHeaders, Event::EndHeaders),
        }
    }

    /// Skips something in the movetext.
    fn skip_movetext(&mut self) -> (event: Event<Vec<u8>>)
        requires
            old(self).wf(),
        ensures
            final(self).took(old(self), grammar::skip_movetext(old(self)@)),
            event@ == grammar::skip_movetext(old(self)@).event,
    {
        let data = self.buffer.data();
        if data.len() == 0 {
            self.go(0, State::Trailing)
        } else if data[0] == BRACE {
            self.go_past(1, CLOSE_BRACE, State::SkipMovetext)
        } else if data[0] == SEMICOLON {
            self.go_before(1, LF, State::SkipMovetext)
        } else if data[0] == LF {
            if holds(data, 1, PERCENT) {
                self.go_before(1, LF, State::SkipMovetext)
            } else if holds(data, 1, LF) || holds(data, 1, BRACKET) {
                self.go(1, State::Trailing)
            } else if holds(data, 1, CR) {
                if holds(data, 2, LF) {
                    self.go(2, State::Trailing)
                } else {
                    self.go(2, State::SkipMovetext)
                }
            } else {
                self.go(1, State::SkipMovetext)
            }
        } else {
            match search(data, LF, BRACE, SEMICOLON, 1) {
                Some(i) => self.go(i, State::SkipMovetext),
                None => {
                    let n: usize = data.len();
                    self.go(n, State::SkipMovetext)
                },
            }
        }
    }

    /// Reads a comment.
    fn read_comment(&mut self) -> (event: Event<Vec<u8>>)
        requires
            old(self).wf(),
            old(self)@.len() > 0,
        ensures
            final(self).took(old(self), grammar::read_comment(old(self)@)),
            event@ == grammar::read_comment(old(self)@).event,
    {
        let data = self.buffer.data();
        match search_byte(data, CLOSE_BRACE, 1) {
            Some(i) => {
                let comment = slice_to_vec(slice_subrange(data, 1, i));
                self.tell(i + 1, State::Movetext, Event::Comment(comment))
            },
            None => {
                let n: usize = data.len();
                self.go_past(n, CLOSE_BRACE, State::Invalid)
            },
        }
    }

    /// Reads a line break.
    fn read_line_break(&mut self) -> (event: Event<Vec<u8>>)
        requires
            old(self).wf(),
            old(self)@.len() > 0,
        ensures
            final(self).took(old(self), grammar::read_line_break(old(self)@)),
            event@ == grammar::read_line_break(old(self)@).event,
    {
        let data = self.buffer.data();
        if holds(data, 1, PERCENT) {
            self.go_past(2, LF, State::Movetext)
        } else if holds(data, 1, LF) || holds(data, 1, BRACKET) {
            self.go(1, State::Trailing)
        } else if holds(data, 1, CR) {
            if holds(data, 2, LF) {
                self.go(2, State::Trailing)
            } else {
                self.go(2, State::Movetext)
            }
        } else {
            self.go(1, State::Movetext)
        }
    }

    /// Reads what starts with a one.
    fn read_one(&mut self) -> (event: Event<Vec<u8>>)
        requires
            old(self).wf(),
            old(self)@.len() > 0,
        ensures
            final(self).took(old(self), grammar::read_one(old(self)@)),
            event@ == grammar::read_one(old(self)@).event,
    {
        let data = self.buffer.data();
        let white: [u8; 2] = [MINUS, ZERO];
        assert(white@ =~= seq![MINUS, ZERO]);
        let draw: [u8; 6] = [SLASH, TWO, MINUS, ONE, SLASH, TWO];
        assert(draw@ =~= seq![SLASH, TWO, MINUS, ONE, SLASH, TWO]);
        if starts_with(data, 1, &white) {
            let outcome = KnownOutcome::Decisive { winner: Color::White };
            self.tell(3, State::Movetext, Event::Outcome(Some(outcome)))
        } else if starts_with(data, 1, &draw) {
            self.tell(7, State::Movetext, Event::Outcome(Some(KnownOutcome::Draw)))
        } else {
            let end: usize = find_token_end(data, 1);
            self.go(end, State::Movetext)
        }
    }

    /// The suffix of a move that stands at a position.
    fn suffix_at(&self, i: usize) -> (suffix: Option<Suffix>)
        ensures
            suffix == grammar::suffix_at(self@, i as int),
    {
        let data = self.buffer.data();
        if holds(data, i, PLUS) {
            Some(Suffix::Check)
        } else if holds(data, i, HASH) {
            Some(Suffix::Checkmate)
        } else {
            None
        }
    }

    /// Reads what starts with a zero.
    fn read_zero(&mut self) -> (event: Event<Vec<u8>>)
        requires
            old(self).wf(),
            old(self)@.len() > 0,
        ensures
            final(self).took(old(self), grammar::read_zero(old(self)@)),
            event@ == grammar::read_zero(old(self)@).event,
    {
        let data = self.buffer.data();
        let black: [u8; 2] = [MINUS, ONE];
        assert(black@ =~= seq![MINUS, ONE]);
        let zero: [u8; 2] = [MINUS, ZERO];
        assert(zero@ =~= seq![MINUS, ZERO]);
        if starts_with(data, 1, &black) {
            let outcome = KnownOutcome::Decisive { winner: Color::Black };
            self.tell(3, State::Movetext, Event::Outcome(Some(outcome)))
        } else if starts_with(data, 1, &zero) {
            // Castling notation with zeros.
            let (consumed, side) = if starts_with(data, 3, &zero) {
                (5usize, CastlingSide::QueenSide)
            } else {
                (3usize, CastlingSide::KingSide)
            };
            let suffix = self.suffix_at(consumed);
            let san = San::Castle(side);
            self.tell(consumed, State::Movetext, Event::San(SanPlus { san, suffix }))
        } else {
            let end: usize = find_token_end(data, 1);
            self.go(end, State::Movetext)
        }
    }

    /// Reads an annotation that is given by its number.
    fn read_dollar(&mut self) -> (event: Event<Vec<u8>>)
        requires
            old(self).wf(),
            old(self)@.len() > 0,
        ensures
            final(self).took(old(self), grammar::read_dollar(old(self)@)),
            event@ == grammar::read_dollar(old(self)@).event,
    {
        let data = self.buffer.data();
        let end: usize = find_token_end(data, 1);
        match btou(slice_subrange(data, 1, end)) {
            Some(number) => self.tell(end, State::Movetext, Event::Nag(Nag(number))),
            None => self.go(end, State::Movetext),
        }
    }

    /// Reads an annotation that starts with an exclamation mark.
    fn read_bang(&mut self) -> (event: Event<Vec<u8>>)
        requires
            old(self).wf(),
            old(self)@.len() > 0,
        ensures
            final(self).took(old(self), grammar::read_bang(old(self)@)),
            event@ == grammar::read_bang(old(self)@).event,
    {
        let data = self.buffer.data();
        if holds(data, 1, BANG) {
            self.tell(2, State::Movetext, Event::Nag(Nag(Nag::BRILLIANT_MOVE)))
        } else if holds(data, 1, QUERY) {
            self.tell(2, State::Movetext, Event::Nag(Nag(Nag::SPECULATIVE_MOVE)))
        } else {
            self.tell(1, State::Movetext, Event::Nag(Nag(Nag::GOOD_MOVE)))
        }
    }

    /// Reads an annotation that starts with a question mark.
    fn read_query(&mut self) -> (event: Event<Vec<u8>>)
        requires
            old(self).wf(),
            old(self)@.len() > 0,
        ensures
            final(self).took(old(self), grammar::read_query(old(self)@)),
            event@ == grammar::read_query(old(self)@).event,
    {
        let data = self.buffer.data();
        if holds(data, 1, BANG) {
            self.tell(2, State::Movetext, Event::Nag(Nag(Nag::DUBIOUS_MOVE)))
        } else if holds(data, 1, QUERY) {
            self.tell(2, State::Movetext, Event::Nag(Nag(Nag::BLUNDER)))
        } else {
            self.tell(1, State::Movetext, Event::Nag(Nag(Nag::MISTAKE)))
        }
    }

    /// Reads any other token.
    fn read_token(&mut self) -> (event: Event<Vec<u8>>)
        requires
            old(self).wf(),
            old(self)@.len() > 0,
        ensures
            final(self).took(
                old(self),
                grammar::read_token(old(self)@, san_of(grammar::first_token(old(self)@))),
            ),
            event@ == grammar::token_event(
                old(self)@[0],
                san_of(grammar::first_token(old(self)@)),
            ),
            forall|plus: SanPlus|
                is_special(plus.san) && grammar::first_token(old(self)@) == #[trigger] special_text(
                    plus,
                ) ==> event@ == Event::<Seq<u8>>::San(plus),
    {
        let data = self.buffer.data();
        let end: usize = find_token_end(data, 1);
        let first: u8 = data[0];
        let token = slice_subrange(data, 0, end);
        assert(token@ =~= grammar::first_token(old(self)@));
        proof {
            lemma_special_token(old(self)@);
        }
        let event = token_event(first, san_from_ascii(token));
        self.tell(end, State::Movetext, event)
    }

    /// Reads something in the movetext.
    fn read_movetext(&mut self) -> (event: Event<Vec<u8>>)
        requires
            old(self).wf(),
        ensures
            final(self).took(old(self), grammar::read_movetext(old(self)@)),
            event@ == grammar::read_movetext(old(self)@).event,
            forall|plus: SanPlus|
                is_special(plus.san) && grammar::first_token(old(self)@) == #[trigger] special_text(
                    plus,
                ) ==> event@ == Event::<Seq<u8>>::San(plus),
    {
        proof {
            lemma_special_token(self@);
        }
        match self.peek() {
            Some(ch) => if ch == BRACE {
                self.read_comment()
            } else if ch == LF {
                self.read_line_break()
            } else if ch == SEMICOLON {
                self.go_before(1, LF, State::Movetext)
            } else if ch == ONE {
                self.read_one()
            } else if ch == ZERO {
                self.read_zero()
            } else if ch == PAREN {
                self.tell(1, State::BeginVariation, Event::BeginVariation)
            } else if ch == CLOSE_PAREN {
                self.tell(1, State::Movetext, Event::EndVariation)
            } else if ch == DOLLAR {
                self.read_dollar()
            } else if ch == BANG {
                self.read_bang()
            } else if ch == QUERY {
                self.read_query()
            } else if ch == STAR {
                self.tell(1, State::Movetext, Event::Outcome(None))
            } else if ch == SPACE || ch == TAB || ch == CR || ch == UPPER_P || ch == DOT {
                self.go(1, State::Movetext)
            } else {
                self.read_token()
            },
            None => self.go(0, State::Trailing),
        }
    }

    /// Skips something in a variation.
    fn skip_variation(&mut self, depth: usize) -> (event: Event<Vec<u8>>)
        requires
            old(self).wf(),
            depth < usize::MAX,
        ensures
            final(self).took(old(self), grammar::skip_variation(old(self)@, depth)),
            event@ == grammar::skip_variation(old(self)@, depth).event,
    {
        let here = State::SkipVariation { depth };
        let data = self.buffer.data();
        if data.len() == 0 {
            self.go(0, State::Movetext)
        } else if data[0] == PAREN {
            self.go(1, State::SkipVariation { depth: depth + 1 })
        } else if data[0] == CLOSE_PAREN {
            if depth > 0 {
                self.go(1, State::SkipVariation { depth: depth - 1 })
            } else {
                self.go(0, State::Movetext)
            }
        } else if data[0] == BRACE {
            self.go_past(1, CLOSE_BRACE, here)
        } else if data[0] == SEMICOLON {
            self.go_before(1, LF, here)
        } else if data[0] == LF {
            if holds(data, 1, PERCENT) {
                self.go_before(2, LF, here)
            } else if holds(data, 1, BRACKET) || holds(data, 1, LF) {
                // Do not consume the first or second line break.
                self.go(0, State::Movetext)
            } else if holds(data, 1, CR) {
                if holds(data, 2, LF) {
                    // Do not consume the first or second line break.
                    self.go(0, State::Movetext)
                } else {
                    self.go(0, here)
                }
            } else {
                self.go(1, here)
            }
        } else {
            self.go(1, here)
        }
    }

    /// Reads on, by one turn. The buffer should have been filled as long as
    /// `wants_input` asks for it.
    pub fn step(&mut self) -> (event: Event<Vec<u8>>)
        requires
            old(self).wf(),
            old(self).can_step_spec(),
        ensures
            final(self).took(
                old(self),
                grammar::turn(old(self).state(), old(self).pending(), old(self)@),
            ),
            event@ == grammar::turn(old(self).state(), old(self).pending(), old(self)@).event,
            old(self).state() is Movetext && old(self).pending() is None ==> forall|plus: SanPlus|
                is_special(plus.san) && grammar::first_token(old(self)@) == #[trigger] special_text(
                    plus,
                ) ==> event@ == Event::<Seq<u8>>::San(plus),
    {
        if let Some(skip) = self.pending {
            return self.skip_until(skip);
        }
        match self.state {
            State::Bom(goal) => self.skip_bom(goal),
            State::Blank(goal) => self.skip_whitespace(State::Start(goal), Event::Nothing),
            State::Start(goal) => self.start(goal),
            State::BeginHeaders => self.tell(0, State::Headers, Event::BeginHeaders),
            State::Headers => self.read_headers(),
            State::Ket => self.skip_ket(),
            State::EndHeaders => self.tell(0, State::EndHeaders, Event::EndHeaders),
            State::Movetext => self.read_movetext(),
            State::SkipMovetext => self.skip_movetext(),
            State::BeginVariation => self.tell(0, State::BeginVariation, Event::BeginVariation),
            State::SkipVariation { depth } => self.skip_variation(depth),
            State::Trailing => self.skip_whitespace(
                State::Bom(Goal::ReadGame),
                Event::EndGame,
            ),
            State::Invalid => self.tell(0, State::Bom(Goal::ReadGame), Event::InvalidData),
        }
    }

    /// Whether a step can be taken: variations are not nested deeper than can
    /// be counted.
    pub open spec fn can_step_spec(&self) -> bool {
        self.state() matches State::SkipVariation { depth } ==> depth < usize::MAX
    }

    /// Whether a step can be taken: variations are not nested deeper than can
    /// be counted.
    pub fn can_step(&self) -> (yes: bool)
        ensures
            yes == self.can_step_spec(),
    {
        match self.state {
            State::SkipVariation { depth } => depth < usize::MAX,
            _ => true,
        }
    }

    /// Answers `Event::EndHeaders` or `Event::BeginVariation` with whether to
    /// skip the movetext or the variation.
    pub fn answer(&mut self, skip: Skip)
        requires
            old(self).wf(),
        ensures
            final(self).wf(),
            final(self)@ == old(self)@,
            final(self).room() == old(self).room(),
            final(self).state() == grammar::answered(old(self).state(), skip),
            final(self).pending() == old(self).pending(),
    {
        match self.state {
            State::EndHeaders => {
                self.state = if skip.0 {
                    State::SkipMovetext
                } else {
                    State::Movetext
                };
            },
            State::BeginVariation => {
                self.state = if skip.0 {
                    State::SkipVariation { depth: 0 }
                } else {
                    State::Movetext
                };
            },
            _ => {},
        }
    }

    /// Start to read a game. The steps that follow report what it is made of,
    /// and end with `Event::EndGame`, with `Event::NoGame` if there is no game
    /// left, or with `Event::InvalidData`.
    pub fn read_game(&mut self)
        requires
            old(self).wf(),
        ensures
            final(self).wf(),
            final(self)@ == old(self)@,
            final(self).room() == old(self).room(),
            final(self).state() == State::Bom(Goal::ReadGame),
            final(self).pending() is None,
    {
        self.state = State::Bom(Goal::ReadGame);
        self.pending = None;
    }

    /// Start to find out whether there is another game to parse, but do not
    /// actually parse it. The steps that follow end with `Event::HasMore`.
    pub fn has_more(&mut self)
        requires
            old(self).wf(),
        ensures
            final(self).wf(),
            final(self)@ == old(self)@,
            final(self).room() == old(self).room(),
            final(self).state() == State::Bom(Goal::HasMore),
            final(self).pending() is None,
    {
        self.state = State::Bom(Goal::HasMore);
        self.pending = None;
    }

    /// Whether more bytes should be read from the source before the next step.
    /// If not, the buffer holds at least `MIN_BUFFER_SIZE` bytes, or the step
    /// does not look at it.
    pub fn wants_input(&self) -> (yes: bool)
        ensures
            yes == (grammar::fills(self.state(), self.pending()) && self@.len() < MIN_BUFFER_SIZE),
    {
        let fills = self.pending.is_some() || match self.state {
            State::BeginHeaders | State::EndHeaders | State::BeginVariation | State::Invalid => {
                false
            },
            _ => true,
        };
        fills && self.remaining() < MIN_BUFFER_SIZE
    }

    /// Gives access to the memory into which to read from the source. If the
    /// reader wants input, that memory is not empty, so that a read that
    /// delivers nothing tells the end of the source.
    pub fn space(&mut self) -> (space: &mut [u8])
        requires
            old(self).wf(),
        ensures
            space@ == old(self).room(),
            old(self)@.len() < MIN_BUFFER_SIZE ==> space@.len() > 0,
            final(space)@.len() == space@.len(),
            final(self).wf(),
            final(self)@ == old(self)@,
            final(self).room() == final(space)@,
            final(self).state() == old(self).state(),
            final(self).pending() == old(self).pending(),
    {
        self.buffer.space()
    }

    /// Tells that `count` bytes were read into `space`.
    pub fn fill(&mut self, count: usize)
        requires
            old(self).wf(),
        ensures
            final(self).wf(),
            final(self)@ == old(self)@ + old(self).room().take(
                least(count as int, old(self).room().len() as int),
            ),
            final(self).state() == old(self).state(),
            final(self).pending() == old(self).pending(),
    {
        self.buffer.fill(count);
    }

    /// Gets the remaining bytes in the buffer.
    pub fn into_inner(self) -> (buffer: Buffer)
        ensures
            buffer@ == self@,
            buffer.wf() == self.wf(),
    {
        self.buffer
    }

    /// The bytes in the buffer.
    pub fn buffer(&self) -> (data: &[u8])
        ensures
            data@ == self@,
    {
        self.buffer.data()
    }

    /// Number of bytes in the buffer.
    pub fn remaining(&self) -> (n: usize)
        ensures
            n == self@.len(),
    {
        self.buffer.len()
    }

    /// The byte at the front of the buffer.
    pub fn peek(&self) -> (head: Option<u8>)
        ensures
            head == (if self@.len() > 0 {
                Some(self@[0])
            } else {
                None
            }),
    {
        let data = self.buffer.data();
        if data.len() > 0 {
            Some(data[0])
        } else {
            None
        }
    }
}

} // verus!
