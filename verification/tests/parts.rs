//! The buffer, and single steps.
use pgn_reader::buffer::{BUFFER_SIZE, MIN_BUFFER_SIZE};
use pgn_reader::reader::token_event;
use pgn_reader::{Buffer, BufferedReader, Event, San, SanPlus, Skip};

#[test]
fn a_buffer_holds_what_is_filled_in() {
    let mut buffer = Buffer::new();
    assert_eq!(buffer.len(), 0);
    assert_eq!(buffer.space().len(), BUFFER_SIZE);
    buffer.space()[..5].copy_from_slice(b"hello");
    assert_eq!(buffer.data(), b"");
    buffer.fill(5);
    assert_eq!(buffer.data(), b"hello");
    buffer.consume(2);
    assert_eq!(buffer.data(), b"llo");
    let copy = buffer.clone();
    buffer.consume(100);
    assert_eq!(buffer.data(), b"");
    assert_eq!(copy.data(), b"llo");
    assert_eq!(copy.as_ref(), b"llo");
}

#[test]
fn there_is_room_as_long_as_input_is_wanted() {
    let mut buffer = Buffer::new();
    let mut written: u8 = 0;
    let mut read: u8 = 0;
    for i in 0..5000usize {
        while buffer.len() < MIN_BUFFER_SIZE {
            let space = buffer.space();
            assert!(!space.is_empty());
            let n = space.len().min(1 + i % 700);
            for byte in &mut space[..n] {
                *byte = written;
                written = written.wrapping_add(1);
            }
            buffer.fill(n);
        }
        let n = (i * 37) % (buffer.len() + 1);
        for byte in &buffer.data()[..n] {
            assert_eq!(*byte, read);
            read = read.wrapping_add(1);
        }
        buffer.consume(n);
    }
}

#[test]
fn more_than_the_space_cannot_be_filled_in() {
    let mut buffer = Buffer::new();
    buffer.fill(BUFFER_SIZE + 1);
    assert_eq!(buffer.len(), BUFFER_SIZE);
    assert_eq!(buffer.space().len(), 0);
    buffer.consume(BUFFER_SIZE / 2 + 1);
    assert_eq!(buffer.len(), BUFFER_SIZE / 2 - 1);
    assert_eq!(buffer.space().len(), BUFFER_SIZE / 2 + 1);
}

#[test]
fn tokens_that_are_tried_as_moves() {
    let null = SanPlus {
        san: San::Null,
        suffix: None,
    };
    assert_eq!(token_event(b'-', Some(null)), Event::San(null));
    assert_eq!(token_event(b'e', Some(null)), Event::San(null));
    assert_eq!(token_event(b':', Some(null)), Event::San(null));
    assert_eq!(token_event(b'9', Some(null)), Event::Nothing);
    assert_eq!(token_event(b'+', Some(null)), Event::Nothing);
    assert_eq!(token_event(b'e', None), Event::Nothing);
}

#[test]
fn steps_that_report_what_they_do() {
    let mut reader = BufferedReader::new();
    assert!(reader.wants_input());
    reader.space()[..4].copy_from_slice(b"(*)*");
    reader.fill(4);
    assert_eq!(reader.remaining(), 4);
    assert_eq!(reader.step(), Event::Nothing);
    assert_eq!(reader.step(), Event::Nothing);
    assert_eq!(reader.step(), Event::BeginGame);
    assert!(!reader.wants_input());
    assert_eq!(reader.step(), Event::BeginHeaders);
    assert!(reader.wants_input());
    assert_eq!(reader.step(), Event::EndHeaders);
    assert!(!reader.wants_input());
    assert_eq!(reader.step(), Event::EndHeaders);
    reader.answer(Skip(false));
    assert_eq!(reader.step(), Event::BeginVariation);
    reader.answer(Skip(true));
    assert_eq!(reader.step(), Event::Nothing);
    assert_eq!(reader.step(), Event::Nothing);
    assert_eq!(reader.buffer(), b")*");
    reader.answer(Skip(true));
    assert_eq!(reader.step(), Event::EndVariation);
    assert_eq!(reader.step(), Event::Outcome(None));
    assert_eq!(reader.step(), Event::Nothing);
    assert_eq!(reader.step(), Event::EndGame);
    assert_eq!(reader.peek(), None);
    reader.read_game();
    assert_eq!(reader.step(), Event::Nothing);
    assert_eq!(reader.step(), Event::Nothing);
    assert_eq!(reader.step(), Event::NoGame);
}

#[test]
fn a_call_can_be_given_up() {
    let mut reader = BufferedReader::new();
    reader.space()[..6].copy_from_slice(b"% e4\nx");
    reader.fill(6);
    reader.step();
    assert_eq!(reader.step(), Event::Nothing);
    assert_eq!(reader.buffer(), b" e4\nx");
    reader.read_game();
    reader.step();
    assert_eq!(reader.step(), Event::Nothing);
    assert_eq!(reader.buffer(), b"e4\nx");
    reader.has_more();
    reader.step();
    reader.step();
    assert_eq!(reader.step(), Event::HasMore(true));
}
