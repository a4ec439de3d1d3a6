//! A streaming reader for chess games in PGN notation.
//!
//! [`BufferedReader`] parses games and reports what they are made of, event by
//! event. It holds the read-ahead buffer, but does no input of its own: whoever
//! owns the source asks [`BufferedReader::wants_input`], reads into
//! [`BufferedReader::space`], and then takes a [`BufferedReader::step`].
//!
//! * `grammar` says what happens in a step.
//! * `run` puts steps together to readings.
//! * `windows`, `progress`, `order`, `games`, `movetext`, `variations`, `endings`,
//!   `sizes` and `notation` prove what holds of readings as a whole.
//! * `texts` says how texts are written. `headings`, `tokens` and `states` prove
//!   what is read from each of them, `occasions` on which occasions each event is
//!   reported, and `scores` that of movetext exactly what is written is reported.
pub mod ascii;
pub mod buffer;
pub mod bytes;
pub mod endings;
pub mod games;
pub mod grammar;
pub mod headings;
pub mod movetext;
pub mod notation;
pub mod occasions;
pub mod order;
pub mod progress;
pub mod reader;
pub mod run;
pub mod scores;
pub mod sizes;
pub mod skipping;
pub mod states;
pub mod texts;
pub mod tokens;
pub mod types;
pub mod variations;
pub mod windows;

pub use crate::buffer::Buffer;
pub use crate::grammar::Event;
pub use crate::reader::BufferedReader;
pub use crate::types::{CastlingSide, Color, KnownOutcome, Nag, San, SanPlus, Skip, Suffix};
