use vstd::prelude::*;
use crate::piece::{spec_parse_piece, PieceType};
use crate::square::{spec_parse_square, ParseError, Square};

verus! {

/// A move in pure coordinate (UCI) form: origin, destination, and an
/// optional promotion piece.
#[derive(Clone, Copy, PartialEq, Eq, Structural, Debug)]
pub struct Move {
    pub from: Square,
    pub to: Square,
    pub promotion: Option<PieceType>,
}

/// A UCI move text: two squares, then optionally one promotion letter.
pub open spec fn spec_parse_uci(s: Seq<char>) -> Option<(int, int, Option<PieceType>)> {
    match (spec_parse_square(s.subrange(0, 2)), spec_parse_square(s.subrange(2, 4))) {
        (Some(f), Some(t)) => if s.len() > 4 {
            match spec_parse_piece(s.subrange(4, 5)) {
                Some(p) => Some((f, t, Some(p))),
                None => None,
            }
        } else {
            Some((f, t, None))
        },
        _ => None,
    }
}

impl Move {
    pub fn new(from: Square, to: Square, promotion: Option<PieceType>) -> (r: Move)
        ensures
            r.from == from,
            r.to == to,
            r.promotion == promotion,
    {
        Move { from, to, promotion }
    }

    /// Parse a move from UCI text: squares at positions 0..2 and 2..4,
    /// and a promotion letter at position 4 if the text is longer.
    pub fn from_uci(uci: &str) -> (r: Result<Move, ParseError>)
        requires
            uci@.len() >= 4,
        ensures
            match spec_parse_uci(uci@) {
                Some((f, t, p)) => r matches Ok(m) && m.from@ == f && m.to@ == t && m.promotion
                    == p,
                None => r matches Err(_),
            },
    {
        let n = uci.unicode_len();
        let from = match Square::parse(uci.substring_char(0, 2)) {
            Ok(sq) => sq,
            Err(e) => {
                return Err(e);
            },
        };
        let to = match Square::parse(uci.substring_char(2, 4)) {
            Ok(sq) => sq,
            Err(e) => {
                return Err(e);
            },
        };
        let promotion = if n > 4 {
            match PieceType::parse(uci.substring_char(4, 5)) {
                Ok(p) => Some(p),
                Err(e) => {
                    return Err(e);
                },
            }
        } else {
            None
        };
        Ok(Move { from, to, promotion })
    }
}

} // verus!
