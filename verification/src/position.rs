use vstd::prelude::*;
use crate::action::{spec_parse_uci, Move};
use crate::bitboard::{bb_has, lemma_bb_disjoint, lemma_bb_or, one_shl, Bitboard};
use crate::color::Color;
use crate::piece::{Piece, PieceType};
use crate::square::Square;

verus! {

/// A board state: one bitboard per piece type, one per color, and their
/// union, which must always equal the bitwise OR of its parts.
pub struct Position {
    white_mask: u64,
    black_mask: u64,
    all_mask: u64,
    pawns: u64,
    knights: u64,
    bishops: u64,
    rooks: u64,
    queens: u64,
    kings: u64,
    en_passant: Option<Square>,
    castling_rights: u8,
    player_move: Color,
}

impl Position {
    /// The bitboard of one piece type.
    pub closed spec fn piece_bb(self, pt: PieceType) -> u64 {
        match pt {
            PieceType::Pawn => self.pawns,
            PieceType::Knight => self.knights,
            PieceType::Bishop => self.bishops,
            PieceType::Rook => self.rooks,
            PieceType::Queen => self.queens,
            PieceType::King => self.kings,
        }
    }

    pub closed spec fn white_bb(self) -> u64 {
        self.white_mask
    }

    pub closed spec fn black_bb(self) -> u64 {
        self.black_mask
    }

    pub closed spec fn all_bb(self) -> u64 {
        self.all_mask
    }

    /// The en-passant target square, if a double pawn push just set one.
    pub closed spec fn en_passant_target(self) -> Option<Square> {
        self.en_passant
    }

    /// The raw castling-rights flags.
    pub closed spec fn castling(self) -> u8 {
        self.castling_rights
    }

    /// The side to move.
    pub closed spec fn side_to_move(self) -> Color {
        self.player_move
    }

    /// The union and color masks equal the OR of their parts, the colors
    /// are disjoint, and no square holds two piece types.
    pub closed spec fn wf(self) -> bool {
        &&& self.all_mask == self.white_mask | self.black_mask
        &&& self.white_mask & self.black_mask == 0
        &&& self.all_mask == self.pawns | self.knights | self.bishops | self.rooks | self.queens
            | self.kings
        &&& self.pawns & self.knights == 0
        &&& self.pawns & self.bishops == 0
        &&& self.pawns & self.rooks == 0
        &&& self.pawns & self.queens == 0
        &&& self.pawns & self.kings == 0
        &&& self.knights & self.bishops == 0
        &&& self.knights & self.rooks == 0
        &&& self.knights & self.queens == 0
        &&& self.knights & self.kings == 0
        &&& self.bishops & self.rooks == 0
        &&& self.bishops & self.queens == 0
        &&& self.bishops & self.kings == 0
        &&& self.rooks & self.queens == 0
        &&& self.rooks & self.kings == 0
        &&& self.queens & self.kings == 0
    }

    /// The piece type on a square, if any: the first per-type bitboard
    /// holding the square, with King as the fallthrough.
    pub closed spec fn spec_piece_type_at(self, i: int) -> Option<PieceType> {
        if !bb_has(self.all_mask, i) {
            None
        } else if bb_has(self.pawns, i) {
            Some(PieceType::Pawn)
        } else if bb_has(self.knights, i) {
            Some(PieceType::Knight)
        } else if bb_has(self.bishops, i) {
            Some(PieceType::Bishop)
        } else if bb_has(self.rooks, i) {
            Some(PieceType::Rook)
        } else if bb_has(self.queens, i) {
            Some(PieceType::Queen)
        } else {
            Some(PieceType::King)
        }
    }

    pub closed spec fn spec_color_at(self, i: int) -> Option<Color> {
        if bb_has(self.white_mask, i) {
            Some(Color::White)
        } else if bb_has(self.black_mask, i) {
            Some(Color::Black)
        } else {
            None
        }
    }

    pub closed spec fn spec_piece_at(self, i: int) -> Option<Piece> {
        match self.spec_piece_type_at(i) {
            Some(pt) => Some(
                Piece {
                    piece_type: pt,
                    color: if bb_has(self.white_mask, i) {
                        Color::White
                    } else {
                        Color::Black
                    },
                },
            ),
            None => None,
        }
    }

    /// The state with square `i` emptied.
    pub closed spec fn spec_remove(self, i: int) -> Position {
        Position {
            white_mask: self.white_mask & !one_shl(i),
            black_mask: self.black_mask & !one_shl(i),
            all_mask: self.all_mask & !one_shl(i),
            pawns: self.pawns & !one_shl(i),
            knights: self.knights & !one_shl(i),
            bishops: self.bishops & !one_shl(i),
            rooks: self.rooks & !one_shl(i),
            queens: self.queens & !one_shl(i),
            kings: self.kings & !one_shl(i),
            ..self
        }
    }

    /// The state with `piece` put on square `i`, replacing whatever was
    /// there.
    pub closed spec fn spec_set(self, i: int, piece: Piece) -> Position {
        let r = self.spec_remove(i);
        Position {
            pawns: if piece.piece_type == PieceType::Pawn {
                r.pawns | one_shl(i)
            } else {
                r.pawns
            },
            knights: if piece.piece_type == PieceType::Knight {
                r.knights | one_shl(i)
            } else {
                r.knights
            },
            bishops: if piece.piece_type == PieceType::Bishop {
                r.bishops | one_shl(i)
            } else {
                r.bishops
            },
            rooks: if piece.piece_type == PieceType::Rook {
                r.rooks | one_shl(i)
            } else {
                r.rooks
            },
            queens: if piece.piece_type == PieceType::Queen {
                r.queens | one_shl(i)
            } else {
                r.queens
            },
            kings: if piece.piece_type == PieceType::King {
                r.kings | one_shl(i)
            } else {
                r.kings
            },
            white_mask: if piece.color == Color::White {
                r.white_mask | one_shl(i)
            } else {
                r.white_mask
            },
            black_mask: if piece.color == Color::Black {
                r.black_mask | one_shl(i)
            } else {
                r.black_mask
            },
            all_mask: r.all_mask | one_shl(i),
            ..r
        }
    }

    /// The starting position.
    pub fn new() -> (r: Position)
        ensures
            r.wf(),
            r.white_bb() == 0xffffu64,
            r.black_bb() == 0xffff_0000_0000_0000u64,
            r.all_bb() == 0xffff_0000_0000_ffffu64,
            r.piece_bb(PieceType::Pawn) == 0x00ff_0000_0000_ff00u64,
            r.piece_bb(PieceType::Knight) == 0x4200_0000_0000_0042u64,
            r.piece_bb(PieceType::Bishop) == 0x2400_0000_0000_0024u64,
            r.piece_bb(PieceType::Rook) == 0x8100_0000_0000_0081u64,
            r.piece_bb(PieceType::Queen) == 0x0800_0000_0000_0008u64,
            r.piece_bb(PieceType::King) == 0x1000_0000_0000_0010u64,
            r.en_passant_target() is None,
            r.castling() == 0,
            r.side_to_move() == Color::White,
    {
        let r = Position {
            white_mask: 0xffff,
            black_mask: 0xffff_0000_0000_0000,
            all_mask: 0xffff_0000_0000_ffff,
            pawns: 0x00ff_0000_0000_ff00,
            knights: 0x4200_0000_0000_0042,
            bishops: 0x2400_0000_0000_0024,
            rooks: 0x8100_0000_0000_0081,
            queens: 0x0800_0000_0000_0008,
            kings: 0x1000_0000_0000_0010,
            en_passant: None,
            castling_rights: 0,
            player_move: Color::White,
        };
        proof {
            assert({
                &&& 0xffff_0000_0000_ffffu64 == 0xffffu64 | 0xffff_0000_0000_0000u64
                &&& 0xffffu64 & 0xffff_0000_0000_0000u64 == 0u64
                &&& 0xffff_0000_0000_ffffu64 == 0x00ff_0000_0000_ff00u64 | 0x4200_0000_0000_0042u64
                    | 0x2400_0000_0000_0024u64 | 0x8100_0000_0000_0081u64
                    | 0x0800_0000_0000_0008u64 | 0x1000_0000_0000_0010u64
                &&& 0x00ff_0000_0000_ff00u64 & 0x4200_0000_0000_0042u64 == 0u64
                &&& 0x00ff_0000_0000_ff00u64 & 0x2400_0000_0000_0024u64 == 0u64
                &&& 0x00ff_0000_0000_ff00u64 & 0x8100_0000_0000_0081u64 == 0u64
                &&& 0x00ff_0000_0000_ff00u64 & 0x0800_0000_0000_0008u64 == 0u64
                &&& 0x00ff_0000_0000_ff00u64 & 0x1000_0000_0000_0010u64 == 0u64
                &&& 0x4200_0000_0000_0042u64 & 0x2400_0000_0000_0024u64 == 0u64
                &&& 0x4200_0000_0000_0042u64 & 0x8100_0000_0000_0081u64 == 0u64
                &&& 0x4200_0000_0000_0042u64 & 0x0800_0000_0000_0008u64 == 0u64
                &&& 0x4200_0000_0000_0042u64 & 0x1000_0000_0000_0010u64 == 0u64
                &&& 0x2400_0000_0000_0024u64 & 0x8100_0000_0000_0081u64 == 0u64
                &&& 0x2400_0000_0000_0024u64 & 0x0800_0000_0000_0008u64 == 0u64
                &&& 0x2400_0000_0000_0024u64 & 0x1000_0000_0000_0010u64 == 0u64
                &&& 0x8100_0000_0000_0081u64 & 0x0800_0000_0000_0008u64 == 0u64
                &&& 0x8100_0000_0000_0081u64 & 0x1000_0000_0000_0010u64 == 0u64
                &&& 0x0800_0000_0000_0008u64 & 0x1000_0000_0000_0010u64 == 0u64
            }) by (bit_vector);
        }
        r
    }

    fn remove_piece_at(&mut self, square: Square)
        ensures
            *final(self) == old(self).spec_remove(square@),
    {
        let b: u64 = 1u64 << (square.index() as u64);
        self.pawns = self.pawns & !b;
        self.knights = self.knights & !b;
        self.bishops = self.bishops & !b;
        self.rooks = self.rooks & !b;
        self.queens = self.queens & !b;
        self.kings = self.kings & !b;
        self.white_mask = self.white_mask & !b;
        self.black_mask = self.black_mask & !b;
        self.all_mask = self.all_mask & !b;
    }

    fn set_piece_at(&mut self, square: Square, piece: Piece)
        ensures
            *final(self) == old(self).spec_set(square@, piece),
    {
        self.remove_piece_at(square);
        let b: u64 = 1u64 << (square.index() as u64);
        match piece.piece_type {
            PieceType::Pawn => {
                self.pawns = self.pawns | b;
            },
            PieceType::Knight => {
                self.knights = self.knights | b;
            },
            PieceType::Bishop => {
                self.bishops = self.bishops | b;
            },
            PieceType::Rook => {
                self.rooks = self.rooks | b;
            },
            PieceType::Queen => {
                self.queens = self.queens | b;
            },
            PieceType::King => {
                self.kings = self.kings | b;
            },
        }
        if piece.color == Color::White {
            self.white_mask = self.white_mask | b;
        } else {
            self.black_mask = self.black_mask | b;
        }
        self.all_mask = self.all_mask | b;
    }

    /// Apply a move given in UCI text: the piece on the origin square
    /// moves to the destination (promoting if a promotion letter is
    /// given); the origin square is emptied.
    pub fn push_uci(&mut self, uci: &str)
        requires
            old(self).wf(),
            uci@.len() >= 4,
            spec_parse_uci(uci@) is Some,
            old(self).spec_piece_at(spec_parse_uci(uci@)->Some_0.0) is Some,
        ensures
            *final(self) == ({
                let (f, t, p) = spec_parse_uci(uci@)->Some_0;
                let pc = old(self).spec_piece_at(f)->Some_0;
                let moved = match p {
                    Some(promo) => Piece { piece_type: promo, color: pc.color },
                    None => pc,
                };
                old(self).spec_set(t, moved).spec_remove(f)
            }),
            final(self).wf(),
    {
        let m = match Move::from_uci(uci) {
            Ok(m) => m,
            Err(_) => {
                proof {
                    assert(false);
                }
                return ;
            },
        };
        let piece = match self.piece_at(m.from) {
            Some(p) => p,
            None => {
                proof {
                    assert(false);
                }
                return ;
            },
        };
        let ghost before = *self;
        if let Some(promotion) = m.promotion {
            self.set_piece_at(m.to, Piece::new(promotion, piece.color));
        } else {
            self.set_piece_at(m.to, piece);
        }
        self.remove_piece_at(m.from);
        proof {
            let sq_t = m.to@;
            let sq_f = m.from@;
            lemma_set_wf(before, sq_t, if m.promotion is Some {
                Piece { piece_type: m.promotion->0, color: piece.color }
            } else {
                piece
            });
            lemma_remove_wf(before.spec_set(sq_t, if m.promotion is Some {
                Piece { piece_type: m.promotion->0, color: piece.color }
            } else {
                piece
            }), sq_f);
        }
    }

    /// The piece type on a square, if any.
    pub fn piece_type_at(&self, sq: Square) -> (r: Option<PieceType>)
        ensures
            r == self.spec_piece_type_at(sq@),
    {
        let b: u64 = 1u64 << (sq.index() as u64);
        if self.all_mask & b == 0 {
            None
        } else if !(self.pawns & b == 0) {
            Some(PieceType::Pawn)
        } else if !(self.knights & b == 0) {
            Some(PieceType::Knight)
        } else if !(self.bishops & b == 0) {
            Some(PieceType::Bishop)
        } else if !(self.rooks & b == 0) {
            Some(PieceType::Rook)
        } else if !(self.queens & b == 0) {
            Some(PieceType::Queen)
        } else {
            Some(PieceType::King)
        }
    }

    /// The piece on a square, if any: its type, colored white exactly
    /// when the white mask holds the square.
    pub fn piece_at(&self, sq: Square) -> (r: Option<Piece>)
        ensures
            r == self.spec_piece_at(sq@),
    {
        let b: u64 = 1u64 << (sq.index() as u64);
        match self.piece_type_at(sq) {
            Some(piece_type) => Some(
                Piece {
                    piece_type,
                    color: if !(self.white_mask & b == 0) {
                        Color::White
                    } else {
                        Color::Black
                    },
                },
            ),
            None => None,
        }
    }

    /// The color of the piece on a square, if any.
    pub fn color_at(&self, sq: Square) -> (r: Option<Color>)
        ensures
            r == self.spec_color_at(sq@),
    {
        let b: u64 = 1u64 << (sq.index() as u64);
        if !(self.white_mask & b == 0) {
            Some(Color::White)
        } else if !(self.black_mask & b == 0) {
            Some(Color::Black)
        } else {
            None
        }
    }
}



/// What emptying a square does, board by board.
pub proof fn lemma_remove_effect(p: Position, i: int, pt: PieceType)
    ensures
        p.spec_remove(i).all_bb() == p.all_bb() & !one_shl(i),
        p.spec_remove(i).white_bb() == p.white_bb() & !one_shl(i),
        p.spec_remove(i).black_bb() == p.black_bb() & !one_shl(i),
        p.spec_remove(i).piece_bb(pt) == p.piece_bb(pt) & !one_shl(i),
{
}

/// What putting a piece on a square does, board by board: the square is
/// first emptied, then added to the piece's own board, its color's mask
/// and the union mask.
pub proof fn lemma_set_effect(p: Position, i: int, piece: Piece, pt: PieceType)
    ensures
        p.spec_set(i, piece).all_bb() == (p.all_bb() & !one_shl(i)) | one_shl(i),
        p.spec_set(i, piece).piece_bb(pt) == if pt == piece.piece_type {
            (p.piece_bb(pt) & !one_shl(i)) | one_shl(i)
        } else {
            p.piece_bb(pt) & !one_shl(i)
        },
        p.spec_set(i, piece).white_bb() == if piece.color == Color::White {
            (p.white_bb() & !one_shl(i)) | one_shl(i)
        } else {
            p.white_bb() & !one_shl(i)
        },
        p.spec_set(i, piece).black_bb() == if piece.color == Color::Black {
            (p.black_bb() & !one_shl(i)) | one_shl(i)
        } else {
            p.black_bb() & !one_shl(i)
        },
{
}

/// Under the invariant the board reads square by square: a square holds
/// piece type `pt` exactly when `pt`'s own bitboard holds it, and holds
/// no piece exactly when the union mask does not hold it.
pub proof fn lemma_board_semantics(p: Position, i: int, pt: PieceType)
    requires
        p.wf(),
        0 <= i < 64,
    ensures
        p.spec_piece_type_at(i) == Some(pt) <==> bb_has(p.piece_bb(pt), i),
        p.spec_piece_type_at(i) is None <==> !bb_has(p.all_bb(), i),
{
    lemma_bb_or(p.pawns, p.knights, i);
    lemma_bb_or(p.pawns | p.knights, p.bishops, i);
    lemma_bb_or(p.pawns | p.knights | p.bishops, p.rooks, i);
    lemma_bb_or(p.pawns | p.knights | p.bishops | p.rooks, p.queens, i);
    lemma_bb_or(p.pawns | p.knights | p.bishops | p.rooks | p.queens, p.kings, i);
    lemma_bb_disjoint(p.pawns, p.knights, i);
    lemma_bb_disjoint(p.pawns, p.bishops, i);
    lemma_bb_disjoint(p.pawns, p.rooks, i);
    lemma_bb_disjoint(p.pawns, p.queens, i);
    lemma_bb_disjoint(p.pawns, p.kings, i);
    lemma_bb_disjoint(p.knights, p.bishops, i);
    lemma_bb_disjoint(p.knights, p.rooks, i);
    lemma_bb_disjoint(p.knights, p.queens, i);
    lemma_bb_disjoint(p.knights, p.kings, i);
    lemma_bb_disjoint(p.bishops, p.rooks, i);
    lemma_bb_disjoint(p.bishops, p.queens, i);
    lemma_bb_disjoint(p.bishops, p.kings, i);
    lemma_bb_disjoint(p.rooks, p.queens, i);
    lemma_bb_disjoint(p.rooks, p.kings, i);
    lemma_bb_disjoint(p.queens, p.kings, i);
}

/// Under the invariant a square's color reading matches the union mask:
/// occupied squares have exactly one color, empty squares none.
pub proof fn lemma_color_semantics(p: Position, i: int)
    requires
        p.wf(),
        0 <= i < 64,
    ensures
        p.spec_color_at(i) == Some(Color::White) <==> bb_has(p.white_bb(), i),
        p.spec_color_at(i) == Some(Color::Black) <==> bb_has(p.black_bb(), i),
        p.spec_color_at(i) is None <==> !bb_has(p.all_bb(), i),
{
    lemma_bb_or(p.white_mask, p.black_mask, i);
    lemma_bb_disjoint(p.white_mask, p.black_mask, i);
}

/// Emptying a square preserves the mask invariants.
proof fn lemma_remove_wf(p: Position, i: int)
    requires
        p.wf(),
    ensures
        p.spec_remove(i).wf(),
{
    let s = one_shl(i);
    lemma_masks_remove(
        p.piece_bb(PieceType::Pawn),
        p.piece_bb(PieceType::Knight),
        p.piece_bb(PieceType::Bishop),
        p.piece_bb(PieceType::Rook),
        p.piece_bb(PieceType::Queen),
        p.piece_bb(PieceType::King),
        p.white_bb(),
        p.black_bb(),
        p.all_bb(),
        s,
    );
}

/// Putting a piece on a square preserves the mask invariants.
proof fn lemma_set_wf(p: Position, i: int, piece: Piece)
    requires
        p.wf(),
    ensures
        p.spec_set(i, piece).wf(),
{
    let s = one_shl(i);
    lemma_remove_wf(p, i);
    let r = p.spec_remove(i);
    let q = p.spec_set(i, piece);
    lemma_masks_remove(
        p.piece_bb(PieceType::Pawn),
        p.piece_bb(PieceType::Knight),
        p.piece_bb(PieceType::Bishop),
        p.piece_bb(PieceType::Rook),
        p.piece_bb(PieceType::Queen),
        p.piece_bb(PieceType::King),
        p.white_bb(),
        p.black_bb(),
        p.all_bb(),
        s,
    );
    lemma_masks_add(
        r.piece_bb(PieceType::Pawn),
        r.piece_bb(PieceType::Knight),
        r.piece_bb(PieceType::Bishop),
        r.piece_bb(PieceType::Rook),
        r.piece_bb(PieceType::Queen),
        r.piece_bb(PieceType::King),
        q.piece_bb(PieceType::Pawn),
        q.piece_bb(PieceType::Knight),
        q.piece_bb(PieceType::Bishop),
        q.piece_bb(PieceType::Rook),
        q.piece_bb(PieceType::Queen),
        q.piece_bb(PieceType::King),
        r.white_bb(),
        r.black_bb(),
        q.white_bb(),
        q.black_bb(),
        r.all_bb(),
        s,
    );
}

/// Clearing one bit everywhere keeps unions and disjointness.
#[verifier::rlimit(60)]
proof fn lemma_masks_remove(
    p1: u64,
    p2: u64,
    p3: u64,
    p4: u64,
    p5: u64,
    p6: u64,
    w: u64,
    b: u64,
    a: u64,
    s: u64,
)
    by (bit_vector)
    requires
        a == w | b,
        w & b == 0,
        a == p1 | p2 | p3 | p4 | p5 | p6,
        p1 & p2 == 0,
        p1 & p3 == 0,
        p1 & p4 == 0,
        p1 & p5 == 0,
        p1 & p6 == 0,
        p2 & p3 == 0,
        p2 & p4 == 0,
        p2 & p5 == 0,
        p2 & p6 == 0,
        p3 & p4 == 0,
        p3 & p5 == 0,
        p3 & p6 == 0,
        p4 & p5 == 0,
        p4 & p6 == 0,
        p5 & p6 == 0,
    ensures
        (a & !s) == (w & !s) | (b & !s),
        (w & !s) & (b & !s) == 0,
        (a & !s) == (p1 & !s) | (p2 & !s) | (p3 & !s) | (p4 & !s) | (p5 & !s) | (p6 & !s),
        (p1 & !s) & (p2 & !s) == 0,
        (p1 & !s) & (p3 & !s) == 0,
        (p1 & !s) & (p4 & !s) == 0,
        (p1 & !s) & (p5 & !s) == 0,
        (p1 & !s) & (p6 & !s) == 0,
        (p2 & !s) & (p3 & !s) == 0,
        (p2 & !s) & (p4 & !s) == 0,
        (p2 & !s) & (p5 & !s) == 0,
        (p2 & !s) & (p6 & !s) == 0,
        (p3 & !s) & (p4 & !s) == 0,
        (p3 & !s) & (p5 & !s) == 0,
        (p3 & !s) & (p6 & !s) == 0,
        (p4 & !s) & (p5 & !s) == 0,
        (p4 & !s) & (p6 & !s) == 0,
        (p5 & !s) & (p6 & !s) == 0,
        (a & !s) & s == 0,
        (w & !s) & s == 0,
        (b & !s) & s == 0,
        (p1 & !s) & s == 0,
        (p2 & !s) & s == 0,
        (p3 & !s) & s == 0,
        (p4 & !s) & s == 0,
        (p5 & !s) & s == 0,
        (p6 & !s) & s == 0,
{
}

/// Setting one fresh bit in one piece board, one color mask and the
/// union keeps unions and disjointness.
#[verifier::rlimit(60)]
proof fn lemma_masks_add(
    p1: u64,
    p2: u64,
    p3: u64,
    p4: u64,
    p5: u64,
    p6: u64,
    q1: u64,
    q2: u64,
    q3: u64,
    q4: u64,
    q5: u64,
    q6: u64,
    w: u64,
    b: u64,
    w2: u64,
    b2: u64,
    a: u64,
    s: u64,
)
    by (bit_vector)
    requires
        a == w | b,
        w & b == 0,
        a == p1 | p2 | p3 | p4 | p5 | p6,
        p1 & p2 == 0,
        p1 & p3 == 0,
        p1 & p4 == 0,
        p1 & p5 == 0,
        p1 & p6 == 0,
        p2 & p3 == 0,
        p2 & p4 == 0,
        p2 & p5 == 0,
        p2 & p6 == 0,
        p3 & p4 == 0,
        p3 & p5 == 0,
        p3 & p6 == 0,
        p4 & p5 == 0,
        p4 & p6 == 0,
        p5 & p6 == 0,
        a & s == 0,
        w & s == 0,
        b & s == 0,
        p1 & s == 0,
        p2 & s == 0,
        p3 & s == 0,
        p4 & s == 0,
        p5 & s == 0,
        p6 & s == 0,
        (q1 == (p1 | s) && q2 == p2 && q3 == p3 && q4 == p4 && q5 == p5 && q6 == p6) || (q1 == p1
            && q2 == (p2 | s) && q3 == p3 && q4 == p4 && q5 == p5 && q6 == p6) || (q1 == p1 && q2
            == p2 && q3 == (p3 | s) && q4 == p4 && q5 == p5 && q6 == p6) || (q1 == p1 && q2 == p2
            && q3 == p3 && q4 == (p4 | s) && q5 == p5 && q6 == p6) || (q1 == p1 && q2 == p2 && q3
            == p3 && q4 == p4 && q5 == (p5 | s) && q6 == p6) || (q1 == p1 && q2 == p2 && q3 == p3
            && q4 == p4 && q5 == p5 && q6 == (p6 | s)),
        (w2 == (w | s) && b2 == b) || (w2 == w && b2 == (b | s)),
    ensures
        (a | s) == w2 | b2,
        w2 & b2 == 0,
        (a | s) == q1 | q2 | q3 | q4 | q5 | q6,
        q1 & q2 == 0,
        q1 & q3 == 0,
        q1 & q4 == 0,
        q1 & q5 == 0,
        q1 & q6 == 0,
        q2 & q3 == 0,
        q2 & q4 == 0,
        q2 & q5 == 0,
        q2 & q6 == 0,
        q3 & q4 == 0,
        q3 & q5 == 0,
        q3 & q6 == 0,
        q4 & q5 == 0,
        q4 & q6 == 0,
        q5 & q6 == 0,
{
}

} // verus!
