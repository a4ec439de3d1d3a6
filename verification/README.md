# pgn_reader

A streaming reader for chess games in PGN notation, verified with Verus.

`src/` is the verified library. `BufferedReader` holds a read-ahead buffer and
parses what is in it, step by step. Each step reports at most one event: a header,
a move, an annotation, a comment, the start or end of a variation, an outcome, or
the end of a game. The library does no input of its own.

* `grammar.rs` says what happens in a step, and `reader.rs` does it.
* `buffer.rs`, `bytes.rs` and `types.rs` state what is trusted of the crates
  `circular`, `memchr`, `btoi` and `shakmaty`.
* `run.rs` puts steps together to whole readings. On top of it stand the theorems:
  * `windows.rs`: however the source deals out its bytes, nothing is lost. The same
    is reported as long as each header, comment and token that has an end fits into
    the smallest buffer (`MIN_BUFFER_SIZE`).
  * `progress.rs`: each turn gets on, and each call comes to an end. The exception
    is a variation that is being skipped: it stays where a line break and a carriage
    return stand without a second line break. So calls end if there is no such place,
    if no variation is skipped, or if all movetext is.
  * `order.rs`: events come in order, and each game takes bytes. Reading game after
    game comes to an end, with the same exception.
  * `games.rs`: asking for more foresees what reading does. It also keeps the place
    where the next game begins, unless another byte order mark stands there.
  * `movetext.rs`, `variations.rs`: skipping gets to the same place as reading. For
    this the movetext that is read has to be regular: each comment in braces is
    closed, and a line that starts with a percent sign is neither the last one nor
    followed by another. Where only places are compared that reading has reached, it
    is enough that it is tame: the same, without the closed comments. Variations that
    are skipped must not be nested deeper than a `usize` can count.
  * `endings.rs`: a whole game with tame movetext ends at the same place, whoever
    listens and however the source deals out its bytes. Skipping succeeds where
    reading does if both get the headers alike, or if each header fits into the
    smallest buffer.
  * `sizes.rs`: a header or comment that is longer than the buffer is an error, and
    one that fits into the smallest buffer is read.
  * `notation.rs`: headers, comments and annotations are read as written. Keys hold
    no quote, line break or closing bracket, values no line break, and comments no
    closing brace.

`app/` reads from anything that implements `std::io::Read` and hands the events to
a visitor, also an asynchronous one.
