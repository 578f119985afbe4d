use vstd::prelude::*;
use crate::color::Color;
use crate::square::ParseError;

verus! {

#[derive(Clone, Copy, PartialEq, Eq, Structural, Debug)]
pub enum PieceType {
    Pawn,
    Knight,
    Bishop,
    Rook,
    Queen,
    King,
}

/// The lower-case letter denoting a piece type.
pub open spec fn spec_type_letter(pt: PieceType) -> char {
    match pt {
        PieceType::Pawn => 'p',
        PieceType::Knight => 'n',
        PieceType::Bishop => 'b',
        PieceType::Rook => 'r',
        PieceType::Queen => 'q',
        PieceType::King => 'k',
    }
}

/// A single piece letter, in either case, names a piece type.
pub open spec fn spec_parse_piece(s: Seq<char>) -> Option<PieceType> {
    if s.len() != 1 {
        None
    } else if s[0] == 'p' || s[0] == 'P' {
        Some(PieceType::Pawn)
    } else if s[0] == 'n' || s[0] == 'N' {
        Some(PieceType::Knight)
    } else if s[0] == 'b' || s[0] == 'B' {
        Some(PieceType::Bishop)
    } else if s[0] == 'r' || s[0] == 'R' {
        Some(PieceType::Rook)
    } else if s[0] == 'q' || s[0] == 'Q' {
        Some(PieceType::Queen)
    } else if s[0] == 'k' || s[0] == 'K' {
        Some(PieceType::King)
    } else {
        None
    }
}

impl PieceType {
    /// Parse a one-letter piece name, case-insensitively.
    pub fn parse(s: &str) -> (r: Result<PieceType, ParseError>)
        ensures
            match spec_parse_piece(s@) {
                Some(pt) => r matches Ok(p) && p == pt,
                None => r matches Err(_),
            },
    {
        if s.unicode_len() != 1 {
            return Err(ParseError);
        }
        let c = s.get_char(0);
        match c {
            'p' | 'P' => Ok(PieceType::Pawn),
            'n' | 'N' => Ok(PieceType::Knight),
            'b' | 'B' => Ok(PieceType::Bishop),
            'r' | 'R' => Ok(PieceType::Rook),
            'q' | 'Q' => Ok(PieceType::Queen),
            'k' | 'K' => Ok(PieceType::King),
            _ => Err(ParseError),
        }
    }
}

/// The symbol of a piece: its type letter, upper-case for White.
pub open spec fn spec_symbol(pt: PieceType, c: Color) -> char {
    if c == Color::White {
        match pt {
            PieceType::Pawn => 'P',
            PieceType::Knight => 'N',
            PieceType::Bishop => 'B',
            PieceType::Rook => 'R',
            PieceType::Queen => 'Q',
            PieceType::King => 'K',
        }
    } else {
        spec_type_letter(pt)
    }
}

/// A colored piece.
#[derive(Clone, Copy, PartialEq, Eq, Structural, Debug)]
pub struct Piece {
    pub piece_type: PieceType,
    pub color: Color,
}

impl Piece {
    pub fn new(piece_type: PieceType, color: Color) -> (r: Piece)
        ensures
            r.piece_type == piece_type,
            r.color == color,
    {
        Piece { piece_type, color }
    }

    /// The one-letter symbol of this piece, upper-case for White.
    pub fn symbol(&self) -> (r: char)
        ensures
            r == spec_symbol(self.piece_type, self.color),
    {
        if self.color == Color::White {
            match self.piece_type {
                PieceType::Pawn => 'P',
                PieceType::Knight => 'N',
                PieceType::Bishop => 'B',
                PieceType::Rook => 'R',
                PieceType::Queen => 'Q',
                PieceType::King => 'K',
            }
        } else {
            match self.piece_type {
                PieceType::Pawn => 'p',
                PieceType::Knight => 'n',
                PieceType::Bishop => 'b',
                PieceType::Rook => 'r',
                PieceType::Queen => 'q',
                PieceType::King => 'k',
            }
        }
    }
}

} // verus!
