//! Whole games.
use pgn_reader::{
    BufferedReader, CastlingSide, Color, Event, KnownOutcome, Nag, San, SanPlus, Skip, Suffix,
};

/// Puts bytes from the source into the buffer, at most `chunk` at a time, as
/// long as the reader wants any.
fn feed(reader: &mut BufferedReader, source: &mut &[u8], chunk: usize) {
    while reader.wants_input() {
        let space = reader.space();
        let n = space.len().min(source.len()).min(chunk);
        if n == 0 {
            break;
        }
        space[..n].copy_from_slice(&source[..n]);
        reader.fill(n);
        *source = &source[n..];
    }
}

/// Whether an event is the last of a call.
fn ends(event: &Event<Vec<u8>>) -> bool {
    matches!(
        event,
        Event::EndGame | Event::NoGame | Event::HasMore(_) | Event::InvalidData
    )
}

/// Takes steps up to the end of a call, and collects what is reported.
fn run(
    reader: &mut BufferedReader,
    source: &mut &[u8],
    chunk: usize,
    skip_movetext: bool,
    skip_variations: bool,
) -> Vec<Event<Vec<u8>>> {
    let mut told = Vec::new();
    loop {
        feed(reader, source, chunk);
        assert!(reader.can_step());
        let event = reader.step();
        match event {
            Event::Nothing => continue,
            Event::EndHeaders => reader.answer(Skip(skip_movetext)),
            Event::BeginVariation => reader.answer(Skip(skip_variations)),
            _ => {}
        }
        let last = ends(&event);
        told.push(event);
        if last {
            return told;
        }
    }
}

/// Reads a game.
fn read_game(reader: &mut BufferedReader, source: &mut &[u8]) -> Vec<Event<Vec<u8>>> {
    reader.read_game();
    run(reader, source, usize::MAX, false, false)
}

/// Reads all games, and collects what is reported.
fn read_all(pgn: &[u8], chunk: usize, skip_movetext: bool) -> Vec<Event<Vec<u8>>> {
    let mut reader = BufferedReader::new();
    let mut source = pgn;
    let mut told = Vec::new();
    loop {
        reader.read_game();
        let game = run(&mut reader, &mut source, chunk, skip_movetext, false);
        let over = game.contains(&Event::NoGame);
        told.extend(game);
        if over {
            return told;
        }
    }
}

/// What is reported of the movetext of the only game.
fn movetext(pgn: &[u8]) -> Vec<Event<Vec<u8>>> {
    let mut reader = BufferedReader::new();
    let mut source = pgn;
    let told = read_game(&mut reader, &mut source);
    assert_eq!(told[..3], [Event::BeginGame, Event::BeginHeaders, Event::EndHeaders]);
    assert_eq!(told[told.len() - 1], Event::EndGame);
    told[3..told.len() - 1].to_vec()
}

/// A header.
fn header(key: &str, value: &str) -> Event<Vec<u8>> {
    Event::Header {
        key: key.as_bytes().to_vec(),
        value: value.as_bytes().to_vec(),
    }
}

/// Castling.
fn castle(side: CastlingSide, suffix: Option<Suffix>) -> Event<Vec<u8>> {
    Event::San(SanPlus {
        san: San::Castle(side),
        suffix,
    })
}

/// A move of a pawn, not a capture, given by the number of the square.
fn pawn(to: u8) -> Event<Vec<u8>> {
    Event::San(SanPlus {
        san: San::Normal {
            role: 'P',
            file: None,
            rank: None,
            capture: false,
            to,
            promotion: None,
        },
        suffix: None,
    })
}

#[test]
fn test_empty_game() {
    let mut reader = BufferedReader::new();
    let mut source: &[u8] = b"  ";
    let told = read_game(&mut reader, &mut source);
    assert_eq!(told.iter().filter(|e| **e == Event::EndGame).count(), 0);
    assert_eq!(told, vec![Event::NoGame]);
}

#[test]
fn test_trailing_space() {
    let mut reader = BufferedReader::new();
    let mut source: &[u8] = b"1. e4 1-0\n\n\n\n\n  \n";
    let mut count = 0;
    let told = read_game(&mut reader, &mut source);
    count += told.iter().filter(|e| **e == Event::EndGame).count();
    assert_eq!(count, 1);
    let told = read_game(&mut reader, &mut source);
    count += told.iter().filter(|e| **e == Event::EndGame).count();
    assert_eq!(count, 1);
}

#[test]
fn test_nag() {
    let mut nags = Vec::new();
    for event in movetext(b"1.f3! e5$71 2.g4?? Qh4#!?") {
        if let Event::Nag(nag) = event {
            nags.push(nag);
        }
    }
    assert_eq!(
        nags,
        vec![
            Nag(Nag::GOOD_MOVE),
            Nag(71),
            Nag(Nag::BLUNDER),
            Nag(Nag::SPECULATIVE_MOVE)
        ]
    );
}

#[test]
fn test_null_moves() {
    let mut sans = Vec::new();
    for event in movetext(b"1. e4 -- 2. Nf3 -- 3. -- e5") {
        if let Event::San(plus) = event {
            sans.push(plus.san);
        }
    }
    assert_eq!(sans.len(), 6);
    assert_ne!(sans[0], San::Null);
    assert_eq!(sans[1], San::Null);
    assert_ne!(sans[2], San::Null);
    assert_eq!(sans[3], San::Null);
    assert_eq!(sans[4], San::Null);
    assert_ne!(sans[5], San::Null);
}

#[test]
fn a_whole_game() {
    let pgn = b"[Event \"Casual\"]\n[Site \"a \\\"b\\\"\"]\n\n1. e4 { best } (1. d4 d5) e5 $3 1-0\n\n";
    let mut reader = BufferedReader::new();
    let mut source: &[u8] = pgn;
    assert_eq!(
        read_game(&mut reader, &mut source),
        vec![
            Event::BeginGame,
            Event::BeginHeaders,
            header("Event", "Casual"),
            header("Site", "a \\\"b\\\""),
            Event::EndHeaders,
            pawn(28),
            Event::Comment(b" best ".to_vec()),
            Event::BeginVariation,
            pawn(27),
            pawn(35),
            Event::EndVariation,
            pawn(36),
            Event::Nag(Nag(Nag::BRILLIANT_MOVE)),
            Event::Outcome(Some(KnownOutcome::Decisive {
                winner: Color::White
            })),
            Event::EndGame,
        ]
    );
    assert_eq!(read_game(&mut reader, &mut source), vec![Event::NoGame]);
}

#[test]
fn moves_in_full() {
    assert_eq!(
        movetext(b"1. Nbxd7+ exd8=Q# R1a3 N@f3"),
        vec![
            Event::San(SanPlus {
                san: San::Normal {
                    role: 'N',
                    file: Some('b'),
                    rank: None,
                    capture: true,
                    to: 51,
                    promotion: None,
                },
                suffix: Some(Suffix::Check),
            }),
            Event::San(SanPlus {
                san: San::Normal {
                    role: 'P',
                    file: Some('e'),
                    rank: None,
                    capture: true,
                    to: 59,
                    promotion: Some('Q'),
                },
                suffix: Some(Suffix::Checkmate),
            }),
            Event::San(SanPlus {
                san: San::Normal {
                    role: 'R',
                    file: None,
                    rank: Some('1'),
                    capture: false,
                    to: 16,
                    promotion: None,
                },
                suffix: None,
            }),
            Event::San(SanPlus {
                san: San::Put { role: 'N', to: 21 },
                suffix: None,
            }),
        ]
    );
}

#[test]
fn castling_with_letters_and_zeros() {
    assert_eq!(
        movetext(b"O-O O-O-O+ 0-0 0-0-0 0-0+ 0-0-0# 0-0#"),
        vec![
            castle(CastlingSide::KingSide, None),
            castle(CastlingSide::QueenSide, Some(Suffix::Check)),
            castle(CastlingSide::KingSide, None),
            castle(CastlingSide::QueenSide, None),
            castle(CastlingSide::KingSide, Some(Suffix::Check)),
            castle(CastlingSide::QueenSide, Some(Suffix::Checkmate)),
            castle(CastlingSide::KingSide, Some(Suffix::Checkmate)),
        ]
    );
}

#[test]
fn null_moves_with_suffixes() {
    let null = |suffix| {
        Event::San(SanPlus {
            san: San::Null,
            suffix,
        })
    };
    assert_eq!(
        movetext(b"-- --+ --#"),
        vec![
            null(None),
            null(Some(Suffix::Check)),
            null(Some(Suffix::Checkmate))
        ]
    );
}

#[test]
fn outcomes() {
    assert_eq!(
        movetext(b"1-0 0-1 1/2-1/2 *"),
        vec![
            Event::Outcome(Some(KnownOutcome::Decisive {
                winner: Color::White
            })),
            Event::Outcome(Some(KnownOutcome::Decisive {
                winner: Color::Black
            })),
            Event::Outcome(Some(KnownOutcome::Draw)),
            Event::Outcome(None),
        ]
    );
}

#[test]
fn all_annotations() {
    let nags = |pgn| -> Vec<u8> {
        movetext(pgn)
            .iter()
            .map(|e| match e {
                Event::Nag(nag) => nag.0,
                _ => panic!("{:?}", e),
            })
            .collect()
    };
    assert_eq!(nags(b"! ? !! ?? !? ?!"), vec![1, 2, 3, 4, 5, 6]);
    assert_eq!(nags(b"$0 $7 $255 $256 $ $x $007 $-1 $+1 $12a"), vec![0, 7, 255, 7]);
}

#[test]
fn what_is_no_move_is_dropped() {
    assert_eq!(movetext(b"1... 12. 0 01 2x xyz P.. e9 } @ %"), vec![]);
    assert_eq!(movetext(b"Pe4 P"), vec![pawn(28)]);
}

#[test]
fn comments() {
    assert_eq!(
        movetext(b"{a;b} ; {c\ne4 {} ;"),
        vec![
            Event::Comment(b"a;b".to_vec()),
            pawn(28),
            Event::Comment(Vec::new())
        ]
    );
}

#[test]
fn headers() {
    let read = |pgn: &[u8]| {
        let mut reader = BufferedReader::new();
        let mut source = pgn;
        read_game(&mut reader, &mut source)
            .into_iter()
            .filter(|e| matches!(e, Event::Header { .. }))
            .collect::<Vec<_>>()
    };
    assert_eq!(read(b"[A \"b\"]\n"), vec![header("A", "b")]);
    assert_eq!(read(b"[A\"b\"] [C \"d\"]"), vec![header("A", "b"), header("C", "d")]);
    assert_eq!(read(b"[A  \"b\"] % x\n[C \"d\"]"), vec![header("A ", "b"), header("C", "d")]);
    assert_eq!(read(b"[A \"b\n[C \"d\"]"), vec![header("A", "b"), header("C", "d")]);
    assert_eq!(read(b"[ \"\"]"), vec![header("", "")]);
    assert_eq!(read(b"[\"x\"]"), vec![header("", "x")]);
    assert_eq!(read(b"[A]\n[B\n[C \"\\\\\"]"), vec![header("C", "\\\\")]);
    assert_eq!(read(b"%[A \"b\"]\n[C \"d\"]\n% e\n[F \"g\"]"), vec![header("C", "d"), header("F", "g")]);
}

#[test]
fn a_header_without_end_is_invalid() {
    for pgn in [&b"[Event"[..], b"[Event \"x", b"[Event \"x\\"] {
        let mut reader = BufferedReader::new();
        let mut source = pgn;
        assert_eq!(
            read_game(&mut reader, &mut source),
            vec![Event::BeginGame, Event::BeginHeaders, Event::InvalidData]
        );
        assert_eq!(read_game(&mut reader, &mut source), vec![Event::NoGame]);
    }
}

#[test]
fn a_comment_without_end_is_invalid() {
    let mut reader = BufferedReader::new();
    let mut source: &[u8] = b"e4 { e5";
    assert_eq!(
        read_game(&mut reader, &mut source),
        vec![
            Event::BeginGame,
            Event::BeginHeaders,
            Event::EndHeaders,
            pawn(28),
            Event::InvalidData
        ]
    );
    assert_eq!(read_game(&mut reader, &mut source), vec![Event::NoGame]);
}

#[test]
fn what_does_not_fit_is_invalid() {
    let mut pgn = b"{".to_vec();
    pgn.extend(vec![b'x'; 20000]);
    pgn.extend(b"} e4\n\nd4");
    let mut reader = BufferedReader::new();
    let mut source: &[u8] = &pgn;
    let told = read_game(&mut reader, &mut source);
    assert_eq!(told[3], Event::InvalidData);
    assert_eq!(read_game(&mut reader, &mut source)[3], pawn(28));
    assert_eq!(read_game(&mut reader, &mut source)[3], pawn(27));

    let mut pgn = b"[Event \"".to_vec();
    pgn.extend(vec![b'x'; 20000]);
    pgn.extend(b"\"]\n[Site \"y\"]");
    let mut reader = BufferedReader::new();
    let mut source: &[u8] = &pgn;
    assert_eq!(read_game(&mut reader, &mut source)[2], Event::InvalidData);
    assert_eq!(read_game(&mut reader, &mut source)[2], header("Site", "y"));
}

#[test]
fn the_longest_comment_and_header() {
    let comment = |n: usize, chunk: usize| {
        let mut pgn = b"{".to_vec();
        pgn.extend(vec![b'x'; n]);
        pgn.extend(b"}\n\nrest");
        let mut reader = BufferedReader::new();
        let mut source: &[u8] = &pgn;
        let told = run(&mut reader, &mut source, chunk, false, false);
        let mut left = reader.buffer().to_vec();
        left.extend(source);
        (told[3].clone(), left)
    };
    for chunk in [1, 5000, usize::MAX] {
        let (event, left) = comment(8190, chunk);
        assert_eq!(event, Event::Comment(vec![b'x'; 8190]));
        assert_eq!(left, b"rest");
        let (event, left) = comment(16383, chunk);
        assert_eq!(event, Event::InvalidData);
        assert_eq!(left, b"\n\nrest");
    }
    assert_eq!(comment(16382, usize::MAX).0, Event::Comment(vec![b'x'; 16382]));
    assert_eq!(comment(16382, 1).0, Event::InvalidData);

    let value = |n: usize, chunk: usize| {
        let mut pgn = b"[A \"".to_vec();
        pgn.extend(vec![b'x'; n]);
        pgn.extend(b"\"] e4\nd4");
        let mut reader = BufferedReader::new();
        let mut source: &[u8] = &pgn;
        let told = run(&mut reader, &mut source, chunk, false, false);
        let mut left = reader.buffer().to_vec();
        left.extend(source);
        (told[2].clone(), left)
    };
    for chunk in [1, 5000, usize::MAX] {
        assert!(matches!(value(8186, chunk).0, Event::Header { .. }));
        let (event, left) = value(16380, chunk);
        assert_eq!(event, Event::InvalidData);
        assert_eq!(left, b"d4");
    }
    assert!(matches!(value(16379, usize::MAX).0, Event::Header { .. }));
}

#[test]
fn the_buffer_never_holds_more_than_its_size() {
    let pgn = vec![b'e'; 100000];
    for chunk in [1, 777, 8191, usize::MAX] {
        let mut reader = BufferedReader::new();
        let mut source: &[u8] = &pgn;
        loop {
            feed(&mut reader, &mut source, chunk);
            assert!(reader.remaining() <= 16384);
            match reader.step() {
                Event::EndHeaders => reader.answer(Skip(false)),
                Event::EndGame => break,
                _ => {}
            }
        }
    }
}

#[test]
fn skipping_a_game_passes_over_what_reading_it_does() {
    let mut long = b"[A \"b\"]\n\n1. e4 {".to_vec();
    long.extend(vec![b'x'; 12000]);
    long.extend(b"} ; } {\n(d4 (c4\n) e4) * \r\n\r\n \n[C \"d\"]\n\n*");
    for pgn in [
        &b"e4"[..],
        b"\xef\xbb\xbf [A \"b\"]\n\ne4 e5\n\n\n*",
        b"[A\n[B \"\n]\te4 (d4) {\n\n}\n[C \"d\"]",
        b"[A \"b\"]]\r\n\r\n(e4 {)} d4) 1-0\r\n\r\n*",
        &long,
    ] {
        let left = |chunk: usize, movetext: bool, variations: bool| {
            let mut reader = BufferedReader::new();
            let mut source = pgn;
            let told = run(&mut reader, &mut source, chunk, movetext, variations);
            assert_eq!(told[told.len() - 1], Event::EndGame);
            let mut left = reader.buffer().to_vec();
            left.extend(source);
            left
        };
        let read = left(usize::MAX, false, false);
        assert_eq!(left(usize::MAX, false, true), read);
        for chunk in [1, 1000, usize::MAX] {
            assert_eq!(left(chunk, true, false), read);
        }
    }
}

#[test]
fn chunks_do_not_matter() {
    let mut pgn = Vec::new();
    for i in 0..400 {
        pgn.extend(format!("[Round \"{}\"]\r\n[Event \"a\\\"b\"]\r\n\r\n", i).bytes());
        pgn.extend(b"1. e4! {c1} (1. d4 (1. Nf3 {)}) 1... d5) e5 $14\r\n%x\r\n2. 0-0 ; rest {\r\n");
        pgn.extend(vec![b'-'; i * 5]);
        pgn.extend(b" 1/2-1/2\r\n\r\n");
    }
    let whole = read_all(&pgn, usize::MAX, false);
    assert_eq!(whole.iter().filter(|e| **e == Event::EndGame).count(), 400);
    assert_eq!(whole.iter().filter(|e| matches!(e, Event::Comment(_))).count(), 800);
    for chunk in [1, 7, 1000, 8191, 8192, 8193] {
        assert_eq!(read_all(&pgn, chunk, false), whole);
    }
    let skipped = read_all(&pgn, usize::MAX, true);
    assert_eq!(skipped.iter().filter(|e| **e == Event::EndGame).count(), 400);
    assert_eq!(read_all(&pgn, 3, true), skipped);
}

#[test]
fn an_endless_comment_is_invalid_in_any_chunks() {
    let mut pgn = b"e4 {".to_vec();
    pgn.extend(vec![b'x'; 40000]);
    for chunk in [1, 4096, usize::MAX] {
        let told = read_all(&pgn, chunk, false);
        assert_eq!(told[3..], [pawn(28), Event::InvalidData, Event::NoGame]);
    }
}

#[test]
fn long_lines_are_skipped_through_many_buffers() {
    let mut pgn = b"%".to_vec();
    pgn.extend(vec![b'x'; 50000]);
    pgn.extend(b"\ne4 ;");
    pgn.extend(vec![b'y'; 50000]);
    pgn.extend(b"\n d4");
    let told = read_all(&pgn, 4096, false);
    assert_eq!(told[3..5], [pawn(28), pawn(27)]);
    assert_eq!(read_all(&pgn, 4096, true)[2..], [Event::EndHeaders, Event::EndGame, Event::NoGame]);
}

#[test]
fn has_more_tells_what_read_game_does() {
    for (pgn, more) in [
        (&b""[..], false),
        (b" \t\r\n", false),
        (b"\xef\xbb\xbf", false),
        (b"% nothing", false),
        (b"% nothing\n ", false),
        (b"%\n*", true),
        (b"\xef\xbb\xbf *", true),
        (b"[", true),
    ] {
        let mut reader = BufferedReader::new();
        let mut source = pgn;
        reader.has_more();
        let told = run(&mut reader, &mut source, 1, false, false);
        assert_eq!(told, vec![Event::HasMore(more)]);
        let told = read_game(&mut reader, &mut source);
        assert_eq!(told[0], if more { Event::BeginGame } else { Event::NoGame });

        let mut reader = BufferedReader::new();
        let mut source = pgn;
        assert_eq!(read_game(&mut reader, &mut source), told);
    }
}

#[test]
fn has_more_looks_past_many_buffers() {
    let mut pgn = vec![b' '; 30000];
    pgn.push(b'%');
    pgn.extend(vec![b'x'; 30000]);
    pgn.extend(b"\n\r\t [");
    for chunk in [1, 8192, usize::MAX] {
        let mut reader = BufferedReader::new();
        let mut source: &[u8] = &pgn;
        reader.has_more();
        let told = run(&mut reader, &mut source, chunk, false, false);
        assert_eq!(told, vec![Event::HasMore(true)]);
        assert_eq!(reader.buffer(), b"[");
        let mut source: &[u8] = &pgn[..pgn.len() - 1];
        let mut reader = BufferedReader::new();
        reader.has_more();
        let told = run(&mut reader, &mut source, chunk, false, false);
        assert_eq!(told, vec![Event::HasMore(false)]);
    }
}

#[test]
fn variations_end_alike_through_many_buffers() {
    let mut pgn = b"(".to_vec();
    for _ in 0..3000 {
        pgn.extend(b"d4 (c4 {)} ; (\n) ");
    }
    pgn.extend(b") e4\n\nrest");
    for chunk in [1, 4096, usize::MAX] {
        for skip in [false, true] {
            let mut reader = BufferedReader::new();
            let mut source: &[u8] = &pgn;
            let told = run(&mut reader, &mut source, chunk, false, skip);
            assert_eq!(told[told.len() - 3..], [Event::EndVariation, pawn(28), Event::EndGame]);
            assert_eq!(told.len(), if skip { 7 } else { 7 + 3000 * 5 });
            assert_eq!(reader.buffer(), b"rest");
        }
    }
}

#[test]
fn only_the_first_byte_order_mark_is_skipped() {
    let mut reader = BufferedReader::new();
    let mut source: &[u8] = b"\xef\xbb\xbf \xef\xbb\xbf*";
    reader.has_more();
    run(&mut reader, &mut source, usize::MAX, false, false);
    assert_eq!(reader.buffer(), b"\xef\xbb\xbf*");
    reader.has_more();
    run(&mut reader, &mut source, usize::MAX, false, false);
    assert_eq!(reader.buffer(), b"*");
}

#[test]
fn skipped_movetext_ends_where_read_movetext_does() {
    for pgn in [
        &b"1. e4 {\n\n} (d4) 1-0\n\n[A \"b\"]"[..],
        b"e4\n[A \"b\"]",
        b"e4\r\n\r\n[A \"b\"]",
        b"e4 ; {\n\n[A \"b\"]",
        b"e4\n% {\ne5\n\n[A \"b\"]",
        b"e4\n\re5\n\n[A \"b\"]",
    ] {
        for (movetext, variations) in [(false, false), (true, false)] {
            let mut reader = BufferedReader::new();
            let mut source = pgn;
            run(&mut reader, &mut source, usize::MAX, movetext, variations);
            assert_eq!(reader.buffer(), b"[A \"b\"]");
        }
    }
    let mut reader = BufferedReader::new();
    let mut source: &[u8] = b"e4 (d4 (c4) {)} d5) e5\n\n[A \"b\"]";
    run(&mut reader, &mut source, usize::MAX, false, true);
    assert_eq!(reader.buffer(), b"[A \"b\"]");
}

#[test]
fn a_line_with_a_percent_sign_before_an_empty_line() {
    let mut reader = BufferedReader::new();
    let mut source: &[u8] = b"e4\n%\n\nd4";
    assert_eq!(run(&mut reader, &mut source, usize::MAX, false, false)[3..5], [pawn(28), pawn(27)]);
    let mut reader = BufferedReader::new();
    let mut source: &[u8] = b"e4\n%\n\nd4";
    run(&mut reader, &mut source, usize::MAX, true, false);
    assert_eq!(reader.buffer(), b"d4");
}

#[test]
fn skipped_variations_end_where_read_variations_do() {
    for pgn in [
        &b"(d4 (c4 c5) {)} (g4) d5) e4"[..],
        b"() e4",
        b"(d4 ; )\n d5) e4",
        b"(d4\n% )\n d5) e4",
    ] {
        let mut reader = BufferedReader::new();
        let mut source = pgn;
        let told = run(&mut reader, &mut source, usize::MAX, false, true);
        assert_eq!(
            told,
            vec![
                Event::BeginGame,
                Event::BeginHeaders,
                Event::EndHeaders,
                Event::BeginVariation,
                Event::EndVariation,
                pawn(28),
                Event::EndGame
            ]
        );
    }
    for pgn in [&b"(d4"[..], b"(d4\n\n", b"(d4\n[A \"b\"]", b"(d4\n\r\n"] {
        let mut reader = BufferedReader::new();
        let mut source = pgn;
        let told = run(&mut reader, &mut source, usize::MAX, false, true);
        assert_eq!(told[3..], [Event::BeginVariation, Event::EndGame]);
    }
}

#[test]
fn a_skipped_variation_waits_at_half_an_empty_line() {
    let mut reader = BufferedReader::new();
    let mut source: &[u8] = b"(d4\n\rd5) e4";
    feed(&mut reader, &mut source, usize::MAX);
    while reader.step() != Event::EndHeaders {}
    reader.answer(Skip(false));
    assert_eq!(reader.step(), Event::BeginVariation);
    reader.answer(Skip(true));
    for _ in 0..100 {
        assert_eq!(reader.step(), Event::Nothing);
    }
    assert_eq!(reader.buffer(), b"\n\rd5) e4");

    let mut reader = BufferedReader::new();
    let mut source: &[u8] = b"(d4\n\rd5) e4";
    let told = run(&mut reader, &mut source, usize::MAX, false, false);
    assert_eq!(told[4..8], [pawn(27), pawn(35), Event::EndVariation, pawn(28)]);
}

#[test]
fn each_game_takes_bytes() {
    let mut reader = BufferedReader::new();
    let mut source: &[u8] = b"x\n\ny";
    feed(&mut reader, &mut source, usize::MAX);
    assert_eq!(reader.remaining(), 4);
    run(&mut reader, &mut source, usize::MAX, false, false);
    assert_eq!(reader.buffer(), b"y");
    run(&mut reader, &mut source, usize::MAX, false, false);
    assert_eq!(reader.remaining(), 0);
}

#[test]
fn what_is_left_can_be_taken() {
    let mut reader = BufferedReader::new();
    let mut source: &[u8] = b"e4\n\nd4 *";
    run(&mut reader, &mut source, usize::MAX, false, false);
    assert_eq!(reader.peek(), Some(b'd'));
    let buffer = reader.into_inner();
    let copy = buffer.clone();
    assert_eq!(buffer.as_ref(), b"d4 *");
    assert_eq!(copy.as_ref(), b"d4 *");
}
