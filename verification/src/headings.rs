//! What is read from each kind of text in and after headers.
use crate::buffer::MIN_BUFFER_SIZE;
use crate::bytes::{lemma_find_none, lemma_find_some, quoted_end};
use crate::grammar::{Event, State, turn};
use crate::notation::{escaped, header_text};
use crate::progress::{Dealer, dealt};
use crate::run::{Listener, Run, Told, read_through};
use crate::sizes::a_short_header_is_read;
use crate::texts::{drops, drops_past, holds_byte, reports, starts, text};
use crate::windows::is_window;
use vstd::prelude::*;

verus! {

/// Whether bytes can stand before the quote of a header: there is no quote, line
/// break or closing bracket among them.
pub open spec fn is_key(key: Seq<u8>) -> bool {
    !holds_byte(key, '"') && !holds_byte(key, '\n') && !holds_byte(key, ']')
}

/// Whether bytes can stand between the quotes of a header: there is no quote or
/// line break among them but after a backslash, and each backslash is followed by
/// a byte.
pub open spec fn is_quoted(value: Seq<u8>) -> bool
    decreases value.len(),
{
    if value.len() == 0 {
        true
    } else if starts(value, '\\') {
        value.len() > 1 && is_quoted(value.skip(2))
    } else {
        !starts(value, '"') && !starts(value, '\n') && is_quoted(value.skip(1))
    }
}

/// A key without the space that separates it from the value.
pub open spec fn trimmed(key: Seq<u8>) -> Seq<u8> {
    if key.len() > 0 && key.last() == ' ' as u8 {
        key.drop_last()
    } else {
        key
    }
}

/// A quoted text goes on over a quoted part.
proof fn lemma_quoted(s: Seq<u8>, from: int, value: Seq<u8>)
    requires
        0 <= from,
        from + value.len() <= s.len(),
        s.subrange(from, from + value.len()) == value,
        is_quoted(value),
    ensures
        quoted_end(s, from) == quoted_end(s, from + value.len()),
    decreases value.len(),
{
    if value.len() > 0 {
        assert(s[from] == s.subrange(from, from + value.len())[0]);
        let n: int = if starts(value, '\\') {
            2
        } else {
            1
        };
        let rest = value.skip(n);
        assert(s.subrange(from + n, from + n + rest.len()) =~= s.subrange(
            from,
            from + value.len(),
        ).skip(n));
        lemma_quoted(s, from + n, rest);
    }
}

/// Where the key of a header ends.
proof fn lemma_key(b: Seq<u8>, key: Seq<u8>)
    requires
        is_key(key),
        key.len() < b.len(),
        b.subrange(1, key.len() as int + 1) == key,
    ensures
        forall|j: int|
            1 <= j <= key.len() ==> b[j] != '"' as u8 && b[j] != '\n' as u8 && b[j] != ']' as u8,
{
    assert forall|j: int| 1 <= j <= key.len() implies b[j] != '"' as u8 && b[j] != '\n' as u8
        && b[j] != ']' as u8 by {
        assert(b[j] == b.subrange(1, key.len() as int + 1)[j - 1]);
        assert(b[j] == key[j - 1]);
    }
}

/// A header is reported with its key, but for a space after it, and with what
/// stands between the quotes as it is. It also ends before a line break.
pub proof fn headers_are_read(key: Seq<u8>, value: Seq<u8>, rest: Seq<u8>)
    requires
        is_key(key),
        is_quoted(value),
    ensures
        turn(
            State::Headers,
            None,
            seq!['[' as u8] + key + seq!['"' as u8] + value + seq!['"' as u8] + rest,
        ) == reports(
            key.len() as int + value.len() + 3,
            State::Ket,
            Event::Header { key: trimmed(key), value },
        ),
        turn(
            State::Headers,
            None,
            seq!['[' as u8] + key + seq!['"' as u8] + value + seq!['\n' as u8] + rest,
        ) == reports(
            key.len() as int + value.len() + 2,
            State::Ket,
            Event::Header { key: trimmed(key), value },
        ),
{
    lemma_header(key, value, '"' as u8, rest);
    lemma_header(key, value, '\n' as u8, rest);
}

/// A header that ends with a byte.
proof fn lemma_header(key: Seq<u8>, value: Seq<u8>, last: u8, rest: Seq<u8>)
    requires
        is_key(key),
        is_quoted(value),
        last == '"' as u8 || last == '\n' as u8,
    ensures
        turn(
            State::Headers,
            None,
            seq!['[' as u8] + key + seq!['"' as u8] + value + seq![last] + rest,
        ) == reports(
            key.len() as int + value.len() + 2 + if last == '"' as u8 {
                1int
            } else {
                0int
            },
            State::Ket,
            Event::Header { key: trimmed(key), value },
        ),
{
    let b = seq!['[' as u8] + key + seq!['"' as u8] + value + seq![last] + rest;
    let quote = key.len() as int + 1;
    let end = quote + 1 + value.len();
    assert(b.subrange(1, quote) =~= key);
    lemma_key(b, key);
    assert(b[quote] == '"' as u8);
    lemma_find_some(b, '"' as u8, '\n' as u8, ']' as u8, 1, quote);
    assert(b.subrange(quote + 1, end) =~= value);
    lemma_quoted(b, quote + 1, value);
    assert(b[end] == last);
    assert(quoted_end(b, end) == Some(end));
    if key.len() > 0 {
        assert(b[quote - 1] == key.last());
        assert(b.subrange(1, quote - 1) =~= key.drop_last());
    }
}

/// A header without a quote is dropped, up to its closing bracket or its line
/// break.
pub proof fn headers_without_a_value_are_dropped(key: Seq<u8>, rest: Seq<u8>)
    requires
        is_key(key),
    ensures
        turn(State::Headers, None, seq!['[' as u8] + key + seq![']' as u8] + rest) == drops(
            key.len() as int + 2,
            State::Ket,
        ),
        turn(State::Headers, None, seq!['[' as u8] + key + seq!['\n' as u8] + rest) == drops(
            key.len() as int + 2,
            State::Ket,
        ),
{
    let end = key.len() as int + 1;
    let b = seq!['[' as u8] + key + seq![']' as u8] + rest;
    assert(b.subrange(1, end) =~= key);
    lemma_key(b, key);
    assert(b[end] == ']' as u8);
    lemma_find_some(b, '"' as u8, '\n' as u8, ']' as u8, 1, end);
    let c = seq!['[' as u8] + key + seq!['\n' as u8] + rest;
    assert(c.subrange(1, end) =~= key);
    lemma_key(c, key);
    assert(c[end] == '\n' as u8);
    lemma_find_some(c, '"' as u8, '\n' as u8, ']' as u8, 1, end);
}

/// A header that has no end is an error, once the rest of its line is dropped.
pub proof fn headers_without_an_end_are_invalid(key: Seq<u8>, value: Seq<u8>)
    requires
        is_key(key),
        is_quoted(value),
    ensures
        turn(State::Headers, None, seq!['[' as u8] + key) == drops_past(
            key.len() as int + 1,
            '\n',
            State::Invalid,
        ),
        turn(State::Headers, None, seq!['[' as u8] + key + seq!['"' as u8] + value) == drops_past(
            key.len() as int + value.len() + 2,
            '\n',
            State::Invalid,
        ),
        turn(
            State::Headers,
            None,
            seq!['[' as u8] + key + seq!['"' as u8] + value + seq!['\\' as u8],
        ) == drops_past(key.len() as int + value.len() + 3, '\n', State::Invalid),
{
    let quote = key.len() as int + 1;
    let end = quote + 1 + value.len();
    let a = seq!['[' as u8] + key;
    assert(a.subrange(1, quote) =~= key);
    lemma_key(a, key);
    lemma_find_none(a, '"' as u8, '\n' as u8, ']' as u8, 1);
    let b = seq!['[' as u8] + key + seq!['"' as u8] + value;
    assert(b.subrange(1, quote) =~= key);
    lemma_key(b, key);
    assert(b[quote] == '"' as u8);
    lemma_find_some(b, '"' as u8, '\n' as u8, ']' as u8, 1, quote);
    assert(b.subrange(quote + 1, end) =~= value);
    lemma_quoted(b, quote + 1, value);
    let c = seq!['[' as u8] + key + seq!['"' as u8] + value + seq!['\\' as u8];
    assert(c.subrange(1, quote) =~= key);
    lemma_key(c, key);
    assert(c[quote] == '"' as u8);
    lemma_find_some(c, '"' as u8, '\n' as u8, ']' as u8, 1, quote);
    assert(c.subrange(quote + 1, end) =~= value);
    lemma_quoted(c, quote + 1, value);
    assert(c[end] == '\\' as u8);
    assert(quoted_end(c, end) == quoted_end(c, end + 2));
    assert(quoted_end(c, end + 2) is None);
}

/// Where there is no bracket, the headers end, but for lines that start with a
/// percent sign, which are dropped.
pub proof fn headers_end(b: Seq<u8>)
    requires
        !starts(b, '['),
    ensures
        starts(b, '%') ==> turn(State::Headers, None, b) == drops_past(0, '\n', State::Headers),
        !starts(b, '%') ==> turn(State::Headers, None, b) == reports(
            0,
            State::EndHeaders,
            Event::EndHeaders,
        ),
{
}

/// After a header, blanks and closing brackets are dropped, a line break or a line
/// from a percent sign on as well, and then the next header comes. Nothing is
/// reported.
pub proof fn rests_of_header_lines_are_dropped(b: Seq<u8>)
    ensures
        ({
            let t = turn(State::Ket, None, b);
            if starts(b, ' ') || starts(b, '\t') || starts(b, '\r') || starts(b, ']') {
                t == drops(1, State::Ket)
            } else if starts(b, '%') {
                t == drops_past(1, '\n', State::Headers)
            } else if starts(b, '\n') {
                t == drops(1, State::Headers)
            } else {
                t == drops(0, State::Headers)
            }
        }),
{
}

/// A header, as its key and its value.
pub struct Heading {
    pub key: Seq<u8>,
    pub value: Seq<u8>,
}

/// Whether a header can be written, and fits into the smallest buffer.
pub open spec fn is_short(heading: Heading) -> bool {
    &&& is_key(heading.key)
    &&& !holds_byte(heading.value, '\n')
    &&& header_text(heading.key, heading.value).len() <= MIN_BUFFER_SIZE
}

/// How a line break is written.
pub enum LineBreak {
    /// A line break.
    Lf,
    /// A carriage return and a line break.
    CrLf,
}

/// The bytes of a line break.
pub open spec fn break_text(eol: LineBreak) -> Seq<u8> {
    match eol {
        LineBreak::Lf => text("\n"@),
        LineBreak::CrLf => text("\r\n"@),
    }
}

/// How headers are written, each on a line.
pub open spec fn headings_text(headings: Seq<Heading>, eol: LineBreak) -> Seq<u8>
    decreases headings.len(),
{
    if headings.len() == 0 {
        seq![]
    } else {
        header_text(headings[0].key, headings[0].value) + break_text(eol) + headings_text(
            headings.skip(1),
            eol,
        )
    }
}

/// What is reported of headers.
pub open spec fn headings_told(headings: Seq<Heading>) -> Told {
    headings.map_values(
        |h: Heading| Event::Header { key: h.key, value: escaped(h.value) },
    )
}

/// Dropping what comes after a header on its line.
proof fn lemma_line(
    r: Run,
    done: Seq<int>,
    eol: LineBreak,
    rest: Seq<u8>,
    dealer: Dealer,
    listener: Listener,
) -> (windows: Seq<int>)
    requires
        dealt(r, done, dealer, listener),
        forall|x: Run| is_window(#[trigger] dealer(x), x),
        read_through(r, done, listener).state is Ket,
        read_through(r, done, listener).pending is None,
        read_through(r, done, listener).input == seq![']' as u8] + break_text(eol) + rest || (eol
            is CrLf && read_through(r, done, listener).input == break_text(eol) + rest)
            || read_through(r, done, listener).input == seq!['\n' as u8] + rest,
    ensures
        dealt(r, windows, dealer, listener),
        read_through(r, windows, listener) == (Run {
            state: State::Headers,
            input: rest,
            ..read_through(r, done, listener)
        }),
    decreases read_through(r, done, listener).input.len(),
{
    reveal_strlit("\n");
    reveal_strlit("\r\n");
    let now = read_through(r, done, listener);
    let window = dealer(now);
    let more = done.push(window);
    let b = now.input.take(window);
    assert(is_window(window, now));
    assert(more.drop_last() =~= done);
    assert(now.input.len() > 0 && b[0] == now.input[0]);
    rests_of_header_lines_are_dropped(b);
    let after = read_through(r, more, listener);
    if now.input[0] == '\n' as u8 {
        assert(now.input.skip(1) =~= rest);
        assert(after =~= Run { state: State::Headers, input: rest, ..now });
        more
    } else {
        if now.input[0] == ']' as u8 {
            assert(now.input.skip(1) =~= break_text(eol) + rest);
            if eol is Lf {
                assert(break_text(eol) =~= seq!['\n' as u8]);
            }
        } else {
            assert(now.input.skip(1) =~= seq!['\n' as u8] + rest);
        }
        assert(after =~= Run { input: now.input.skip(1), ..now });
        lemma_line(r, more, eol, rest, dealer, listener)
    }
}

/// Reading headers that are written each on a line.
proof fn lemma_headings(
    r: Run,
    done: Seq<int>,
    headings: Seq<Heading>,
    eol: LineBreak,
    rest: Seq<u8>,
    dealer: Dealer,
    listener: Listener,
) -> (windows: Seq<int>)
    requires
        dealt(r, done, dealer, listener),
        forall|x: Run| is_window(#[trigger] dealer(x), x),
        read_through(r, done, listener).state is Headers,
        read_through(r, done, listener).pending is None,
        read_through(r, done, listener).input == headings_text(headings, eol) + rest,
        forall|i: int| 0 <= i < headings.len() ==> is_short(#[trigger] headings[i]),
    ensures
        dealt(r, windows, dealer, listener),
        ({
            let now = read_through(r, done, listener);
            read_through(r, windows, listener) == (Run {
                input: rest,
                told: now.told + headings_told(headings),
                ..now
            })
        }),
    decreases headings.len(),
{
    let now = read_through(r, done, listener);
    if headings.len() == 0 {
        assert(headings_text(headings, eol) + rest =~= rest);
        assert(now.told + headings_told(headings) =~= now.told);
        done
    } else {
        let first = headings[0];
        let others = headings.skip(1);
        let header = header_text(first.key, first.value);
        let left = headings_text(others, eol) + rest;
        let window = dealer(now);
        let more = done.push(window);
        assert(is_short(first));
        assert(is_window(window, now));
        assert(more.drop_last() =~= done);
        assert(now.input =~= header + (break_text(eol) + left));
        lemma_holds(first.key);
        lemma_holds(first.value);
        a_short_header_is_read(
            now,
            first.key,
            first.value,
            break_text(eol) + left,
            window,
            listener,
        );
        let ket = read_through(r, more, listener);
        assert(ket.input =~= seq![']' as u8] + break_text(eol) + left);
        let line = lemma_line(r, more, eol, left, dealer, listener);
        assert forall|i: int| 0 <= i < others.len() implies is_short(#[trigger] others[i]) by {
            assert(is_short(headings[i + 1]));
        }
        let windows = lemma_headings(r, line, others, eol, rest, dealer, listener);
        assert(ket.told + headings_told(others) =~= now.told + headings_told(headings));
        windows
    }
}

/// Holding a byte is containing it.
proof fn lemma_holds(s: Seq<u8>)
    ensures
        forall|c: char| !holds_byte(s, c) ==> !s.contains(#[trigger] (c as u8)),
{
}

/// However the source deals out its bytes, of headers that are written each on a
/// line, followed by an empty line, exactly those headers are reported, in their
/// order, between the beginning and the end of the headers. The empty line is
/// left.
pub proof fn exactly_the_headers_are_reported(
    r: Run,
    headings: Seq<Heading>,
    eol: LineBreak,
    rest: Seq<u8>,
    dealer: Dealer,
    listener: Listener,
) -> (windows: Seq<int>)
    requires
        r.state is BeginHeaders,
        r.pending is None,
        r.input == headings_text(headings, eol) + (break_text(eol) + rest),
        forall|i: int| 0 <= i < headings.len() ==> is_short(#[trigger] headings[i]),
        forall|x: Run| is_window(#[trigger] dealer(x), x),
    ensures
        dealt(r, windows, dealer, listener),
        ({
            let told = r.told + seq![Event::BeginHeaders] + headings_told(headings)
                + seq![Event::EndHeaders];
            read_through(r, windows, listener) == (Run {
                state: if listener(told).0 {
                    State::SkipMovetext
                } else {
                    State::Movetext
                },
                pending: None,
                input: break_text(eol) + rest,
                told,
            })
        }),
{
    reveal_strlit("\n");
    reveal_strlit("\r\n");
    let none = Seq::<int>::empty();
    assert(read_through(r, none, listener) == r);
    assert(dealt(r, none, dealer, listener));
    let done = none.push(dealer(r));
    assert(done.drop_last() =~= none);
    assert(r.input.skip(0) =~= r.input);
    let begun = read_through(r, done, listener);
    assert(begun.told =~= r.told + seq![Event::BeginHeaders]);
    let left = break_text(eol) + rest;
    let read = lemma_headings(r, done, headings, eol, left, dealer, listener);
    let now = read_through(r, read, listener);
    let window = dealer(now);
    let windows = read.push(window);
    let b = now.input.take(window);
    assert(is_window(window, now));
    assert(windows.drop_last() =~= read);
    assert(b[0] == now.input[0]);
    assert(now.input[0] == '\n' as u8 || now.input[0] == '\r' as u8);
    headers_end(b);
    assert(now.input.skip(0) =~= now.input);
    assert(read_through(r, windows, listener).told =~= r.told + seq![Event::BeginHeaders]
        + headings_told(headings) + seq![Event::EndHeaders]);
    windows
}

} // verus!
