//! What a game is made of.
use crate::ascii::{HASH, MINUS, PLUS, UPPER_O};
use shakmaty::CastlingSide::{KingSide, QueenSide};
use shakmaty::san::Suffix::{Check, Checkmate};
use shakmaty::san::{San as Move, SanPlus as Notation};
use shakmaty::{File, Rank, Role};
use vstd::prelude::*;

verus! {

/// Tell the reader to skip over a game or variation.
#[derive(Clone, Copy, Debug, PartialEq, Eq, Structural)]
#[must_use]
pub struct Skip(pub bool);

/// A numeric annotation glyph like `?`, `!!` or `$42`.
#[derive(Clone, Copy, Debug, PartialEq, Eq, Hash, Structural)]
pub struct Nag(pub u8);

impl Nag {
    /// The number of a good move (`!`).
    pub const GOOD_MOVE: u8 = 1;

    /// The number of a mistake (`?`).
    pub const MISTAKE: u8 = 2;

    /// The number of a brilliant move (`!!`).
    pub const BRILLIANT_MOVE: u8 = 3;

    /// The number of a blunder (`??`).
    pub const BLUNDER: u8 = 4;

    /// The number of a speculative move (`!?`).
    pub const SPECULATIVE_MOVE: u8 = 5;

    /// The number of a dubious move (`?!`).
    pub const DUBIOUS_MOVE: u8 = 6;
}

/// `White` or `Black`.
#[derive(Clone, Copy, Debug, PartialEq, Eq, Hash, Structural)]
pub enum Color {
    Black,
    White,
}

/// `KingSide` (`O-O`) or `QueenSide` (`O-O-O`).
#[derive(Clone, Copy, Debug, PartialEq, Eq, Hash, Structural)]
pub enum CastlingSide {
    KingSide,
    QueenSide,
}

/// Check (`+`) or checkmate (`#`) suffix.
#[derive(Clone, Copy, Debug, PartialEq, Eq, Hash, Structural)]
pub enum Suffix {
    Check,
    Checkmate,
}

/// Outcome of a finished game.
#[derive(Clone, Copy, Debug, PartialEq, Eq, Hash, Structural)]
pub enum KnownOutcome {
    Decisive { winner: Color },
    Draw,
}

/// A move in Standard Algebraic Notation. A role is given by its upper case
/// letter (`P`, `N`, `B`, `R`, `Q` or `K`), a file by its letter (`a` to `h`),
/// a rank by its digit (`1` to `8`), and a square by its number: `a1` is 0,
/// `b1` is 1, and `h8` is 63.
#[derive(Clone, Copy, Debug, PartialEq, Eq, Hash, Structural)]
pub enum San {
    Normal {
        role: char,
        file: Option<char>,
        rank: Option<char>,
        capture: bool,
        to: u8,
        promotion: Option<char>,
    },
    Castle(CastlingSide),
    Put { role: char, to: u8 },
    Null,
}

/// A [`San`] and possible check and checkmate suffixes.
#[derive(Clone, Copy, Debug, PartialEq, Eq, Hash, Structural)]
pub struct SanPlus {
    pub san: San,
    pub suffix: Option<Suffix>,
}

/// The move, if any, that `shakmaty` reads from a token.
pub uninterp spec fn san_of(token: Seq<u8>) -> Option<SanPlus>;

/// How a suffix is written.
pub open spec fn suffix_text(suffix: Option<Suffix>) -> Seq<u8> {
    match suffix {
        Some(Suffix::Check) => seq![PLUS],
        Some(Suffix::Checkmate) => seq![HASH],
        None => seq![],
    }
}

/// Whether a move is castling or a null move.
pub open spec fn is_special(san: San) -> bool {
    san is Castle || san is Null
}

/// How castling and null moves are written. (Of other moves it says nothing.)
pub open spec fn special_text(plus: SanPlus) -> Seq<u8> {
    match plus.san {
        San::Castle(CastlingSide::KingSide) => seq![UPPER_O, MINUS, UPPER_O] + suffix_text(
            plus.suffix,
        ),
        San::Castle(CastlingSide::QueenSide) => seq![UPPER_O, MINUS, UPPER_O, MINUS, UPPER_O]
            + suffix_text(plus.suffix),
        _ => seq![MINUS, MINUS] + suffix_text(plus.suffix),
    }
}

/// `shakmaty::san::SanPlus::from_ascii`: parses a token as a move in SAN with a
/// possible suffix. What it accepts and gives depends on the token alone. For a
/// token that writes castling or a null move, with or without a suffix, it gives
/// that move.
#[verifier::external_body]
pub(crate) fn san_from_ascii(token: &[u8]) -> (parsed: Option<SanPlus>)
    ensures
        parsed == san_of(token@),
        forall|plus: SanPlus|
            is_special(plus.san) && token@ == #[trigger] special_text(plus) ==> parsed == Some(
                plus,
            ),
{
    let plus = Notation::from_ascii(token).ok()?;
    let san = match plus.san {
        Move::Normal { role, file, rank, capture, to, promotion } => San::Normal {
            role: role.upper_char(), file: file.map(File::char), rank: rank.map(Rank::char),
            capture, to: to as u8, promotion: promotion.map(Role::upper_char) },
        Move::Castle(KingSide) => San::Castle(CastlingSide::KingSide),
        Move::Castle(QueenSide) => San::Castle(CastlingSide::QueenSide),
        Move::Put { role, to } => San::Put { role: role.upper_char(), to: to as u8 },
        Move::Null => San::Null
    };
    Some(SanPlus { san, suffix: plus.suffix.map(|mark| match mark {
        Check => Suffix::Check,
        Checkmate => Suffix::Checkmate
    }) })
}

} // verus!
