use chessbits::action::Move;
use chessbits::attacks::{get_bishop_moves, get_rook_moves, AttackTables};
use chessbits::bitboard::Bitboard;
use chessbits::bitops::pext_fallback;
use chessbits::color::Color;
use chessbits::piece::{Piece, PieceType};
use chessbits::position::Position;
use chessbits::square::Square;
use chessbits::util::{
    magic_mask, sliding_attacks, step_masks, BISHOP_DELTAS, BLACK_PAWN_DELTAS, KING_DELTAS,
    KNIGHT_DELTAS, ROOK_DELTAS, WHITE_PAWN_DELTAS,
};

fn sq(i: u8) -> Square {
    Square::new(i)
}

fn bit(i: u8) -> u64 {
    1u64 << i
}

#[test]
fn it_works() {
    let square = Square::parse("e2").unwrap();
    assert_eq!(square.index(), 12);
    let mut x = Position::new();
    x.push_uci("e2e4");
}

#[test]
fn subset_iterator_is_complete() {
    // P1: 2^k distinct subsets, empty first, full once, all subsets.
    let mask: u64 = 0x0101_0300_0000_4200; // popcount 6
    let k = mask.count_ones();
    assert_eq!(k, 6);
    let mut rippler = Bitboard::new(mask).carry_rippler();
    let mut seen: Vec<u64> = Vec::new();
    while let Some(b) = rippler.next() {
        seen.push(b.value());
    }
    assert_eq!(seen.len(), 1usize << k);
    assert_eq!(seen[0], 0);
    // all yields are subsets, pairwise distinct (strictly increasing here)
    for (i, &s) in seen.iter().enumerate() {
        assert_eq!(s & mask, s);
        if i > 0 {
            assert!(seen[i - 1] < s);
        }
    }
    assert_eq!(seen.iter().filter(|&&s| s == 0).count(), 1);
    assert_eq!(seen.iter().filter(|&&s| s == mask).count(), 1);
    // every subset of the mask shows up
    let mut probe: u64 = 0;
    loop {
        assert!(seen.contains(&probe));
        probe = probe.wrapping_sub(mask) & mask;
        if probe == 0 {
            break;
        }
    }
}

#[test]
fn rook_rays_on_empty_board() {
    // P2: a rook on e4 (index 28) attacks its file and rank, minus e4.
    let empty = Bitboard::new(0);
    let attacks = sliding_attacks(sq(28), empty, &ROOK_DELTAS);
    let mut expected: u64 = 0;
    for r in 0..8u8 {
        expected |= bit(r * 8 + 4); // e-file
    }
    for f in 0..8u8 {
        expected |= bit(3 * 8 + f); // 4th rank
    }
    expected &= !bit(28);
    assert_eq!(attacks.value(), expected);
}

#[test]
fn bishop_rays_on_empty_board() {
    // P2: a bishop on d4 (index 27) attacks both full diagonals, minus d4.
    let empty = Bitboard::new(0);
    let attacks = sliding_attacks(sq(27), empty, &BISHOP_DELTAS);
    let mut expected: u64 = 0;
    for i in 0..64u8 {
        let (f, r) = ((i % 8) as i32, (i / 8) as i32);
        if f - r == 0 || f + r == 6 {
            expected |= bit(i);
        }
    }
    expected &= !bit(27);
    assert_eq!(attacks.value(), expected);
}

#[test]
fn blocker_north_of_rook() {
    // P3: an occupant on e5 blocks the north ray at e5; removing it
    // restores the full ray.
    let e4 = sq(28);
    let e5: u8 = 36;
    let mut occ = Bitboard::new(0);
    occ.add(Bitboard::from_square(sq(e5)));
    let blocked = sliding_attacks(e4, occ, &ROOK_DELTAS);
    assert!(blocked.contains(sq(e5)));
    assert!(!blocked.contains(sq(44)));
    assert!(!blocked.contains(sq(52)));
    assert!(!blocked.contains(sq(60)));
    occ.remove(Bitboard::from_square(sq(e5)));
    assert!(occ.is_empty());
    let open = sliding_attacks(e4, occ, &ROOK_DELTAS);
    assert!(open.contains(sq(44)));
    assert!(open.contains(sq(52)));
    assert!(open.contains(sq(60)));
    let unblocked = sliding_attacks(e4, Bitboard::new(0), &ROOK_DELTAS);
    assert_eq!(open.value(), unblocked.value());
}

#[test]
fn magic_tables_match_ray_caster_exhaustively() {
    // P4: for every square and every relevant-occupancy subset, the O(1)
    // lookup equals the direct ray cast. Checked exhaustively.
    let tables = AttackTables::new();
    for i in 0..64u8 {
        let square = sq(i);
        let rook_mask = magic_mask(square, &ROOK_DELTAS);
        let mut rip = rook_mask.carry_rippler();
        while let Some(occ) = rip.next() {
            let fast = get_rook_moves(&tables, square, occ);
            let slow = sliding_attacks(square, occ, &ROOK_DELTAS);
            assert_eq!(fast.value(), slow.value());
        }
        let bishop_mask = magic_mask(square, &BISHOP_DELTAS);
        let mut rip = bishop_mask.carry_rippler();
        while let Some(occ) = rip.next() {
            let fast = get_bishop_moves(&tables, square, occ);
            let slow = sliding_attacks(square, occ, &BISHOP_DELTAS);
            assert_eq!(fast.value(), slow.value());
        }
    }
}

#[test]
fn lookups_are_pure() {
    // P5: identical arguments give bit-identical answers; tables are
    // never mutated.
    let tables = AttackTables::new();
    let square = sq(28);
    let occ = Bitboard::new(0x0010_0400_2000_1000);
    let a = get_rook_moves(&tables, square, occ);
    let b = get_rook_moves(&tables, square, occ);
    assert_eq!(a.value(), b.value());
    let c = get_bishop_moves(&tables, square, occ);
    let d = get_bishop_moves(&tables, square, occ);
    assert_eq!(c.value(), d.value());
    let e = get_rook_moves(&tables, square, occ);
    assert_eq!(a.value(), e.value());
}

#[test]
fn square_text_round_trips() {
    // P6: parse(square.to_text()) == square, for all 64 squares.
    for i in 0..64u8 {
        let square = sq(i);
        let text = square.to_text();
        let back = Square::parse(&text).unwrap();
        assert_eq!(back.index(), i);
    }
}

#[test]
fn rook_never_wraps_around_edges() {
    // P7: a rook on h4 (index 31) attacks nothing off its rank and file;
    // in particular not a5 (index 32), the next linear index.
    let h4 = sq(31);
    let attacks = sliding_attacks(h4, Bitboard::new(0), &ROOK_DELTAS);
    assert!(!attacks.contains(sq(32)));
    for i in 0..64u8 {
        let a = sliding_attacks(sq(i), Bitboard::new(0), &ROOK_DELTAS);
        for t in 0..64u8 {
            if a.contains(sq(t)) {
                assert!(t % 8 == i % 8 || t / 8 == i / 8);
                assert_ne!(t, i);
            }
        }
    }
}

#[test]
fn bishop_never_wraps_around_edges() {
    for i in 0..64u8 {
        let a = sliding_attacks(sq(i), Bitboard::new(0), &BISHOP_DELTAS);
        let (fi, ri) = ((i % 8) as i32, (i / 8) as i32);
        for t in 0..64u8 {
            if a.contains(sq(t)) {
                let (ft, rt) = ((t % 8) as i32, (t / 8) as i32);
                assert!(ft - rt == fi - ri || ft + rt == fi + ri);
                assert_ne!(t, i);
            }
        }
    }
}

#[test]
fn square_parsing_accepts_exactly_algebraic_notation() {
    assert!(Square::parse("").is_err());
    assert!(Square::parse("e").is_err());
    assert!(Square::parse("e2e").is_err());
    assert!(Square::parse("i1").is_err());
    assert!(Square::parse("e9").is_err());
    assert!(Square::parse("e0").is_err());
    assert!(Square::parse("2e").is_err());
    assert_eq!(Square::parse("a1").unwrap().index(), 0);
    assert_eq!(Square::parse("h8").unwrap().index(), 63);
    assert_eq!(Square::parse("E2").unwrap().index(), 12);
    assert_eq!(Square::parse("A1").unwrap().index(), 0);
}

#[test]
fn square_construction_and_geometry() {
    assert_eq!(Square::new(200).index(), 200 % 64);
    assert_eq!(sq(28).to_text(), "e4");
    assert_eq!(sq(0).to_text(), "a1");
    assert_eq!(sq(63).to_text(), "h8");
    assert!(sq(0).offset(-1).is_none());
    assert!(sq(63).offset(1).is_none());
    assert_eq!(sq(28).offset(8).unwrap().index(), 36);
    assert_eq!(sq(0).distance(sq(63)), 7);
    assert_eq!(sq(28).distance(sq(28)), 0);
    assert_eq!(sq(31).distance(sq(32)), 7);
}

#[test]
fn magic_mask_excludes_edges_and_origin() {
    let mask = magic_mask(sq(0), &ROOK_DELTAS);
    // rook on a1: interior of the a-file and the first rank
    let expected: u64 = 0x0001_0101_0101_017e;
    assert_eq!(mask.value(), expected);
    assert!(!mask.contains(sq(0)));
}

#[test]
fn piece_letters_parse_and_print() {
    assert!(matches!(PieceType::parse("q"), Ok(PieceType::Queen)));
    assert!(matches!(PieceType::parse("Q"), Ok(PieceType::Queen)));
    assert!(matches!(PieceType::parse("n"), Ok(PieceType::Knight)));
    assert!(PieceType::parse("z").is_err());
    assert!(PieceType::parse("").is_err());
    assert!(PieceType::parse("qq").is_err());
    assert_eq!(Piece::new(PieceType::King, Color::White).symbol(), 'K');
    assert_eq!(Piece::new(PieceType::King, Color::Black).symbol(), 'k');
    assert_eq!(Piece::new(PieceType::Pawn, Color::Black).symbol(), 'p');
}

#[test]
fn uci_moves_parse() {
    let m = Move::from_uci("e2e4").unwrap();
    assert_eq!(m.from.index(), 12);
    assert_eq!(m.to.index(), 28);
    assert!(m.promotion.is_none());
    let m = Move::from_uci("e7e8q").unwrap();
    assert_eq!(m.from.index(), 52);
    assert_eq!(m.to.index(), 60);
    assert!(matches!(m.promotion, Some(PieceType::Queen)));
    assert!(Move::from_uci("e2e9").is_err());
    assert!(Move::from_uci("e2e4z").is_err());
    let m = Move::new(sq(12), sq(28), None);
    assert_eq!(m.from.index(), 12);
    assert_eq!(m.to.index(), 28);
}

#[test]
fn start_position_and_moves() {
    let p = Position::new();
    assert!(matches!(p.piece_type_at(sq(0)), Some(PieceType::Rook)));
    assert!(matches!(p.piece_type_at(sq(4)), Some(PieceType::King)));
    assert!(matches!(p.piece_type_at(sq(12)), Some(PieceType::Pawn)));
    assert!(p.piece_type_at(sq(28)).is_none());
    assert_eq!(p.color_at(sq(0)), Some(Color::White));
    assert_eq!(p.color_at(sq(63)), Some(Color::Black));
    assert_eq!(p.color_at(sq(28)), None);
    let w_pawn = p.piece_at(sq(12)).unwrap();
    assert_eq!(w_pawn.piece_type, PieceType::Pawn);
    assert_eq!(w_pawn.color, Color::White);

    let mut p = Position::new();
    p.push_uci("e2e4");
    assert!(p.piece_type_at(sq(12)).is_none());
    let moved = p.piece_at(sq(28)).unwrap();
    assert_eq!(moved.piece_type, PieceType::Pawn);
    assert_eq!(moved.color, Color::White);

    // promotion: the black pawn on a7 promotes (capturing on a8)
    let mut p = Position::new();
    p.push_uci("a7a8q");
    let promoted = p.piece_at(sq(56)).unwrap();
    assert_eq!(promoted.piece_type, PieceType::Queen);
    assert_eq!(promoted.color, Color::Black);
    assert!(p.piece_at(sq(48)).is_none());
}

#[test]
fn portable_extract_packs_mask_bits() {
    assert_eq!(pext_fallback(0, 0xffff), 0);
    assert_eq!(pext_fallback(0xffff_ffff_ffff_ffff, 0), 0);
    assert_eq!(pext_fallback(0b1011_1110_1001_0011, 0b0110_0011_1000_0101), 0b0011_0101);
    assert_eq!(pext_fallback(0xf0f0_f0f0_f0f0_f0f0, 0xff00_0000_0000_00ff), 0xf0f0);
    // the identity mask hands the word back; a sparse mask does not
    assert_eq!(pext_fallback(0x1234_5678_9abc_def0, !0u64), 0x1234_5678_9abc_def0);
    assert_ne!(pext_fallback(0x1234_5678_9abc_def0, 0x00ff), 0x1234_5678_9abc_def0);
}

#[test]
fn bitboard_set_algebra() {
    let mut b = Bitboard::new(0);
    assert!(b.is_empty());
    b.add(Bitboard::from_square(sq(5)));
    b.add(Bitboard::from_square(sq(60)));
    assert!(b.contains(sq(5)));
    assert!(b.contains(sq(60)));
    assert!(!b.contains(sq(6)));
    assert_eq!(b.value(), (1u64 << 5) | (1u64 << 60));
    b.remove(Bitboard::from_square(sq(5)));
    assert!(!b.contains(sq(5)));
    assert!(b.contains(sq(60)));
    assert_eq!(Bitboard::from_square(sq(7)).value(), 128);
}

#[test]
fn one_step_masks_from_full_occupancy() {
    // With a fully occupied board every ray stops after one step, which
    // yields the king and knight adjacency masks.
    let full = Bitboard::new(!0u64);
    let king_e4 = sliding_attacks(sq(28), full, &KING_DELTAS);
    let mut expected: u64 = 0;
    for t in [19u8, 20, 21, 27, 29, 35, 36, 37] {
        expected |= bit(t);
    }
    assert_eq!(king_e4.value(), expected);
    // king on a1 must not wrap to the h-file
    let king_a1 = sliding_attacks(sq(0), full, &KING_DELTAS);
    assert_eq!(king_a1.value(), bit(1) | bit(8) | bit(9));
    let knight_b1 = sliding_attacks(sq(1), full, &KNIGHT_DELTAS);
    assert_eq!(knight_b1.value(), bit(11) | bit(16) | bit(18));
}

#[test]
fn step_mask_tables_match_per_square_rays() {
    let full = Bitboard::new(!0u64);
    let king = step_masks(&KING_DELTAS);
    let knight = step_masks(&KNIGHT_DELTAS);
    let white_pawn = step_masks(&WHITE_PAWN_DELTAS);
    let black_pawn = step_masks(&BLACK_PAWN_DELTAS);
    assert_eq!(king.len(), 64);
    assert_eq!(knight.len(), 64);
    for i in 0..64u8 {
        assert_eq!(king[i as usize], sliding_attacks(sq(i), full, &KING_DELTAS).value());
        assert_eq!(knight[i as usize], sliding_attacks(sq(i), full, &KNIGHT_DELTAS).value());
        assert_eq!(white_pawn[i as usize], sliding_attacks(sq(i), full, &WHITE_PAWN_DELTAS).value());
        assert_eq!(black_pawn[i as usize], sliding_attacks(sq(i), full, &BLACK_PAWN_DELTAS).value());
    }
    // a white pawn on e4 captures towards d5 and f5; on h4 only towards g5
    assert_eq!(white_pawn[28], bit(35) | bit(37));
    assert_eq!(white_pawn[31], bit(38));
    // a black pawn on e4 captures towards d3 and f3
    assert_eq!(black_pawn[28], bit(19) | bit(21));
}

#[test]
fn lookups_match_ray_caster_on_unrestricted_occupancies() {
    // the table answer equals the direct ray cast even when the occupancy
    // has bits outside the square's relevant mask
    let tables = AttackTables::new();
    let occupancies: [u64; 5] = [
        0,
        !0u64,
        0xffff_0000_0000_ffff,
        0x0123_4567_89ab_cdef,
        0x8040_2010_0804_0201,
    ];
    for i in 0..64u8 {
        let square = sq(i);
        for &o in occupancies.iter() {
            let occ = Bitboard::new(o);
            assert_eq!(
                get_rook_moves(&tables, square, occ).value(),
                sliding_attacks(square, occ, &ROOK_DELTAS).value()
            );
            assert_eq!(
                get_bishop_moves(&tables, square, occ).value(),
                sliding_attacks(square, occ, &BISHOP_DELTAS).value()
            );
        }
    }
}
