use vstd::prelude::*;
use crate::bitboard::{
    bb_has, lemma_bb_andnot, lemma_bb_or, lemma_bb_single, lemma_bb_zero, one_shl, Bitboard,
};
use crate::bitops::{
    lemma_and_nat_is_bitand, lemma_pext_bound, lemma_pext_inj, lemma_pext_masked, lemma_pext_pdep,
    lemma_pdep_submask, lemma_submask_bitand, pext_spec, pext_u64, popcount,
};
use crate::square::{chebyshev, sq_file, sq_rank, Square};
use crate::util::{
    deltas_view, lemma_premask_rec_covers, lemma_ray_aligned, lemma_ray_mask_equiv, magic_mask,
    premask_ray, premask_rec, premask_spec, ray_attacks, ray_rec, sliding_attacks, sliding_rec,
    sliding_spec, BISHOP_DELTAS, ROOK_DELTAS,
};
use vstd::arithmetic::power2::pow2;

verus! {

pub open spec fn rook_delta_seq() -> Seq<int> {
    seq![8, 1, -8, -1]
}

pub open spec fn bishop_delta_seq() -> Seq<int> {
    seq![9, 7, -9, -7]
}

/// What the rook lookup answers: the ray attacks against the occupancy
/// restricted to the square's relevant mask.
pub open spec fn rook_attacks_spec(sq: int, occ: u64) -> u64 {
    sliding_spec(sq, occ & premask_spec(sq, rook_delta_seq()), rook_delta_seq())
}

/// What the bishop lookup answers.
pub open spec fn bishop_attacks_spec(sq: int, occ: u64) -> u64 {
    sliding_spec(sq, occ & premask_spec(sq, bishop_delta_seq()), bishop_delta_seq())
}

/// The table segments of all squares up to `upto` hold, at the PEXT
/// index of each relevant occupancy, the ray-cast attack set.
pub open spec fn table_inv(
    masks: Seq<u64>,
    offsets: Seq<usize>,
    attacks: Seq<u64>,
    upto: int,
    d: Seq<int>,
) -> bool {
    forall|s: int, occ: u64|
        #![trigger pext_spec(occ as nat, masks[s] as nat)]
        0 <= s < upto && occ & masks[s] == occ ==> {
            &&& offsets[s] + pext_spec(occ as nat, masks[s] as nat) < attacks.len()
            &&& attacks[offsets[s] + pext_spec(occ as nat, masks[s] as nat)] == sliding_spec(
                s,
                occ,
                d,
            )
        }
}

/// One piece family's tables: per-square relevant-occupancy mask, the
/// start of each square's segment, and the flat attack table.
pub struct MagicTable {
    masks: Vec<u64>,
    offsets: Vec<usize>,
    attacks: Vec<u64>,
}

impl MagicTable {
    /// The tables answer every query for the direction list `d`.
    pub closed spec fn wf_for(self, d: Seq<int>) -> bool {
        &&& self.masks.len() == 64
        &&& self.offsets.len() == 64
        &&& (forall|s: int| 0 <= s < 64 ==> #[trigger] self.masks@[s] == premask_spec(s, d))
        &&& table_inv(self.masks@, self.offsets@, self.attacks@, 64, d)
    }

    /// Build the tables for one direction list: for every square,
    /// enumerate the subsets of its premask and record the ray-cast
    /// attack set of each at its PEXT index.
    pub fn build(deltas: &[i32]) -> (t: MagicTable)
        requires
            forall|i: int| 0 <= i < deltas@.len() ==> deltas@[i] != 0,
        ensures
            t.wf_for(deltas_view(deltas@)),
    {
        let ghost d = deltas_view(deltas@);
        let mut masks: Vec<u64> = Vec::new();
        let mut offsets: Vec<usize> = Vec::new();
        let mut attacks: Vec<u64> = Vec::new();
        let mut sq: u8 = 0;
        while sq < 64
            invariant
                sq <= 64,
                forall|i: int| 0 <= i < deltas@.len() ==> deltas@[i] != 0,
                d == deltas_view(deltas@),
                masks.len() == sq as int,
                offsets.len() == sq as int,
                forall|s: int| 0 <= s < sq as int ==> #[trigger] masks@[s] == premask_spec(s, d),
                table_inv(masks@, offsets@, attacks@, sq as int, d),
            decreases 64 - sq,
        {
            let square = Square::new(sq);
            assert(square@ == sq as int);
            let mask = magic_mask(square, deltas);
            masks.push(mask.value());
            offsets.push(attacks.len());
            let ghost off = attacks.len() as int;
            let ghost mn = mask@ as nat;
            let ghost count = pow2(popcount(mn));
            let mut rip = mask.carry_rippler();
            loop
                invariant_except_break
                    forall|i: int| 0 <= i < deltas@.len() ==> deltas@[i] != 0,
                    d == deltas_view(deltas@),
                    0 <= square@ < 64,
                    rip.mask() == mask@,
                    mn == mask@ as nat,
                    count == rip.count(),
                    rip.pos() <= count,
                    attacks.len() == off + rip.pos(),
                    masks.len() == sq as int + 1,
                    offsets.len() == sq as int + 1,
                    masks@[sq as int] == mask@,
                    offsets@[sq as int] as int == off,
                    forall|occ: u64|
                        #![trigger pext_spec(occ as nat, mn)]
                        occ & mask@ == occ && pext_spec(occ as nat, mn) < rip.pos()
                            ==> attacks@[off + pext_spec(occ as nat, mn)] == sliding_spec(
                            square@,
                            occ,
                            d,
                        ),
                    table_inv(masks@, offsets@, attacks@, sq as int, d),
                ensures
                    attacks.len() == off + count,
                    masks.len() == sq as int + 1,
                    offsets.len() == sq as int + 1,
                    masks@[sq as int] == mask@,
                    offsets@[sq as int] as int == off,
                    forall|occ: u64|
                        #![trigger pext_spec(occ as nat, mn)]
                        occ & mask@ == occ && pext_spec(occ as nat, mn) < count ==> attacks@[off
                            + pext_spec(occ as nat, mn)] == sliding_spec(square@, occ, d),
                    table_inv(masks@, offsets@, attacks@, sq as int, d),
                decreases count - rip.pos(),
            {
                let ghost pos0 = rip.pos();
                match rip.next() {
                    None => {
                        break ;
                    },
                    Some(sub) => {
                        proof {
                            // a `Some` answer means the enumeration had not ended
                            if pos0 >= count {
                                assert(false);
                            }
                        }
                        let att = sliding_attacks(square, sub, deltas);
                        attacks.push(att.value());
                        proof {
                            lemma_pdep_submask(pos0, mn);
                            lemma_pext_pdep(pos0, mn);
                            lemma_submask_bitand(sub@, mask@);
                            assert forall|occ: u64|
                                occ & mask@ == occ && #[trigger] pext_spec(occ as nat, mn)
                                    < rip.pos() implies attacks@[off + pext_spec(occ as nat, mn)]
                                == sliding_spec(square@, occ, d) by {
                                lemma_submask_bitand(occ, mask@);
                                if pext_spec(occ as nat, mn) == pos0 {
                                    lemma_pext_inj(occ as nat, sub@ as nat, mn);
                                    assert(occ == sub@);
                                }
                            }
                        }
                    },
                }
            }
            proof {
                // every relevant occupancy of this square is now answered
                assert forall|occ: u64|
                    occ & mask@ == occ implies pext_spec(occ as nat, mn) < count by {
                    lemma_pext_bound(occ as nat, mn);
                }
            }
            sq = sq + 1;
        }
        MagicTable { masks, offsets, attacks }
    }

    /// O(1) attack lookup: extract the relevant occupancy bits with PEXT
    /// and read the square's table segment at that dense index.
    fn lookup(&self, square: Square, occupied: Bitboard, Ghost(d): Ghost<Seq<int>>) -> (r:
        Bitboard)
        requires
            self.wf_for(d),
        ensures
            r@ == sliding_spec(square@, occupied@ & premask_spec(square@, d), d),
    {
        let sq = square.index() as usize;
        let piece_mask = self.masks[sq];
        proof {
            // a premask has its origin bit clear, so it is never full
            assert(piece_mask == self.masks@[square@]);
            assert(piece_mask == premask_spec(square@, d));
            let pr = crate::util::premask_rec(square@, d, d.len() as int);
            let j = square@ as u64;
            assert(j < 64 ==> (pr & !(1u64 << j)) != 0xffff_ffff_ffff_ffffu64) by (bit_vector);
        }
        let total = self.attacks.len();
        let index64 = pext_u64(occupied.value(), piece_mask);
        proof {
            assert(total == self.attacks@.len());
            let o = occupied@;
            let pm = piece_mask;
            let s = square@;
            assert((o & pm) & pm == (o & pm)) by (bit_vector);
            lemma_and_nat_is_bitand(o, pm);
            lemma_pext_masked(o as nat, pm as nat);
            let rel = o & pm;
            assert(pm == self.masks@[s]);
            assert(self.offsets@[s] + pext_spec(rel as nat, self.masks@[s] as nat)
                < self.attacks@.len() && self.attacks@[self.offsets@[s] + pext_spec(
                rel as nat,
                self.masks@[s] as nat,
            )] == sliding_spec(s, rel, d));
            assert(index64 as nat == pext_spec(rel as nat, pm as nat));
            assert(self.offsets@[square@] + index64 < self.attacks@.len());
            assert(self.attacks@[self.offsets@[square@] + index64 as int] == sliding_spec(
                square@,
                occupied@ & premask_spec(square@, d),
                d,
            ));
        }
        let index = index64 as usize;
        let offset = self.offsets[sq];
        Bitboard::new(self.attacks[offset + index])
    }
}

/// The rook and bishop tables, built once, immutable and shareable.
pub struct AttackTables {
    rook: MagicTable,
    bishop: MagicTable,
}

impl AttackTables {
    #[verifier::type_invariant]
    pub closed spec fn inv(self) -> bool {
        &&& self.rook.wf_for(rook_delta_seq())
        &&& self.bishop.wf_for(bishop_delta_seq())
    }

    /// Generate both piece families' tables.
    pub fn new() -> (t: AttackTables)
        ensures
            t.inv(),
    {
        let rd: [i32; 4] = ROOK_DELTAS;
        let bd: [i32; 4] = BISHOP_DELTAS;
        proof {
            assert(deltas_view(rd@) =~= rook_delta_seq());
            assert(deltas_view(bd@) =~= bishop_delta_seq());
        }
        let rook = MagicTable::build(rd.as_slice());
        let bishop = MagicTable::build(bd.as_slice());
        AttackTables { rook, bishop }
    }
}

/// The squares a rook on `square` attacks under occupancy `occupied`:
/// answered from the tables in constant time, and equal to the direct
/// ray cast for every occupancy.
pub fn get_rook_moves(tables: &AttackTables, square: Square, occupied: Bitboard) -> (r: Bitboard)
    ensures
        r@ == rook_attacks_spec(square@, occupied@),
        r@ == sliding_spec(square@, occupied@, rook_delta_seq()),
{
    proof {
        use_type_invariant(tables);
    }
    // pins 0 <= square@ < 64 for the equivalence lemma
    let sq_bound = square.index();
    let r = tables.rook.lookup(square, occupied, Ghost(rook_delta_seq()));
    proof {
        lemma_magic_rook_equivalence(square@, occupied@);
    }
    r
}

/// The squares a bishop on `square` attacks under occupancy `occupied`:
/// equal to the direct ray cast for every occupancy.
pub fn get_bishop_moves(tables: &AttackTables, square: Square, occupied: Bitboard) -> (r: Bitboard)
    ensures
        r@ == bishop_attacks_spec(square@, occupied@),
        r@ == sliding_spec(square@, occupied@, bishop_delta_seq()),
{
    proof {
        use_type_invariant(tables);
    }
    // pins 0 <= square@ < 64 for the equivalence lemma
    let sq_bound = square.index();
    let r = tables.bishop.lookup(square, occupied, Ghost(bishop_delta_seq()));
    proof {
        lemma_magic_bishop_equivalence(square@, occupied@);
    }
    r
}

/// Restricting the occupancy to the premask leaves the ray cast
/// unchanged: occupancy outside the rays is invisible, and a blocker on
/// a ray's board-edge endpoint does not matter because the ray stops
/// there anyway.
proof fn lemma_mask_irrelevant(sq: int, occ: u64, d: Seq<int>)
    requires
        0 <= sq < 64,
        d == rook_delta_seq() || d == bishop_delta_seq(),
    ensures
        sliding_spec(sq, occ & premask_spec(sq, d), d) == sliding_spec(sq, occ, d),
{
    let pm = premask_spec(sq, d);
    let o2 = occ & pm;
    assert(d.len() == 4);
    assert forall|i: int| 0 <= i < 4 implies ray_rec(sq, d[i], o2, 64) == ray_rec(
        sq,
        d[i],
        occ,
        64,
    ) by {
        assert forall|t: int|
            0 <= t < 64 && #[trigger] bb_has(premask_ray(sq, d[i], 64), t) && t != sq implies bb_has(
            pm,
            t,
        ) by {
            lemma_premask_rec_covers(sq, d, 4, i, t);
            lemma_bb_andnot(premask_rec(sq, d, 4), one_shl(sq), t);
            lemma_bb_single(sq, t);
        }
        lemma_ray_mask_equiv(sq, sq, d[i], occ, pm, 64);
    }
    assert(sliding_rec(sq, o2, d, 0) == sliding_rec(sq, occ, d, 0));
    assert(sliding_rec(sq, o2, d, 1) == sliding_rec(sq, occ, d, 1));
    assert(sliding_rec(sq, o2, d, 2) == sliding_rec(sq, occ, d, 2));
    assert(sliding_rec(sq, o2, d, 3) == sliding_rec(sq, occ, d, 3));
    assert(sliding_rec(sq, o2, d, 4) == sliding_rec(sq, occ, d, 4));
}

/// Magic table equivalence: for every square and every occupancy — in
/// particular every enumerated subset of the square's premask — the
/// table lookup answers exactly what the ray caster computes.
pub proof fn lemma_magic_rook_equivalence(sq: int, occ: u64)
    requires
        0 <= sq < 64,
    ensures
        rook_attacks_spec(sq, occ) == sliding_spec(sq, occ, rook_delta_seq()),
{
    lemma_mask_irrelevant(sq, occ, rook_delta_seq());
}

/// Magic table equivalence for bishops, for every occupancy.
pub proof fn lemma_magic_bishop_equivalence(sq: int, occ: u64)
    requires
        0 <= sq < 64,
    ensures
        bishop_attacks_spec(sq, occ) == sliding_spec(sq, occ, bishop_delta_seq()),
{
    lemma_mask_irrelevant(sq, occ, bishop_delta_seq());
}

/// Purity: the answer of a lookup depends on the square and the
/// occupancy alone, so repeated calls with identical arguments return
/// bit-identical results and no call mutates any table.
pub proof fn lemma_attacks_pure(sq: int, occ: u64, r1: u64, r2: u64)
    requires
        r1 == rook_attacks_spec(sq, occ) || r1 == bishop_attacks_spec(sq, occ),
        r2 == rook_attacks_spec(sq, occ) || r2 == bishop_attacks_spec(sq, occ),
        r1 == rook_attacks_spec(sq, occ) <==> r2 == rook_attacks_spec(sq, occ),
    ensures
        r1 == r2,
{
}


/// Edge-wrap rejection for rooks: whatever the occupancy, every attacked
/// square shares its rank or its file with the rook's square, and the
/// rook's own square is never attacked. A ray never wraps around a board
/// edge.
pub proof fn lemma_rook_attacks_aligned(sq: int, occ: u64, t: int)
    requires
        0 <= sq < 64,
        0 <= t < 64,
        bb_has(sliding_spec(sq, occ, rook_delta_seq()), t),
    ensures
        sq_rank(t) == sq_rank(sq) || sq_file(t) == sq_file(sq),
        t != sq,
{
    let d = rook_delta_seq();
    assert(d.len() == 4 && d[0] == 8 && d[1] == 1 && d[2] == -8 && d[3] == -1);
    lemma_bb_or(sliding_rec(sq, occ, d, 3), ray_attacks(sq, -1, occ), t);
    lemma_bb_or(sliding_rec(sq, occ, d, 2), ray_attacks(sq, -8, occ), t);
    lemma_bb_or(sliding_rec(sq, occ, d, 1), ray_attacks(sq, 1, occ), t);
    lemma_bb_or(sliding_rec(sq, occ, d, 0), ray_attacks(sq, 8, occ), t);
    lemma_bb_zero(t);
    if bb_has(ray_attacks(sq, 8, occ), t) {
        lemma_ray_aligned(sq, 8, occ, 64, t);
    } else if bb_has(ray_attacks(sq, 1, occ), t) {
        lemma_ray_aligned(sq, 1, occ, 64, t);
    } else if bb_has(ray_attacks(sq, -8, occ), t) {
        lemma_ray_aligned(sq, -8, occ, 64, t);
    } else {
        lemma_ray_aligned(sq, -1, occ, 64, t);
    }
}

/// Edge-wrap rejection for bishops: every attacked square lies on the
/// bishop's diagonal or antidiagonal, and is never the bishop's own
/// square.
pub proof fn lemma_bishop_attacks_aligned(sq: int, occ: u64, t: int)
    requires
        0 <= sq < 64,
        0 <= t < 64,
        bb_has(sliding_spec(sq, occ, bishop_delta_seq()), t),
    ensures
        sq_file(t) + sq_rank(sq) == sq_file(sq) + sq_rank(t) || sq_file(t) + sq_rank(t) == sq_file(
            sq,
        ) + sq_rank(sq),
        t != sq,
{
    let d = bishop_delta_seq();
    assert(d.len() == 4 && d[0] == 9 && d[1] == 7 && d[2] == -9 && d[3] == -7);
    lemma_bb_or(sliding_rec(sq, occ, d, 3), ray_attacks(sq, -7, occ), t);
    lemma_bb_or(sliding_rec(sq, occ, d, 2), ray_attacks(sq, -9, occ), t);
    lemma_bb_or(sliding_rec(sq, occ, d, 1), ray_attacks(sq, 7, occ), t);
    lemma_bb_or(sliding_rec(sq, occ, d, 0), ray_attacks(sq, 9, occ), t);
    lemma_bb_zero(t);
    if bb_has(ray_attacks(sq, 9, occ), t) {
        lemma_ray_aligned(sq, 9, occ, 64, t);
    } else if bb_has(ray_attacks(sq, 7, occ), t) {
        lemma_ray_aligned(sq, 7, occ, 64, t);
    } else if bb_has(ray_attacks(sq, -9, occ), t) {
        lemma_ray_aligned(sq, -9, occ, 64, t);
    } else {
        lemma_ray_aligned(sq, -7, occ, 64, t);
    }
}

/// Blocker semantics to the north: with a single occupant directly north
/// of a rook, the attack set includes the occupant's square and nothing
/// beyond it on that file.
pub proof fn lemma_blocker_north(sq: int, t: int)
    requires
        0 <= sq,
        sq + 8 < 64,
        0 <= t < 64,
    ensures
        bb_has(sliding_spec(sq, one_shl(sq + 8), rook_delta_seq()), sq + 8),
        sq_file(t) == sq_file(sq) && t > sq + 8 ==> !bb_has(
            sliding_spec(sq, one_shl(sq + 8), rook_delta_seq()),
            t,
        ),
{
    let occ = one_shl(sq + 8);
    let d = rook_delta_seq();
    assert(d.len() == 4 && d[0] == 8 && d[1] == 1 && d[2] == -8 && d[3] == -1);
    // the north ray is exactly the occupant's square
    crate::util::lemma_step_vert_pub(sq, sq + 8);
    lemma_bb_single(sq + 8, sq + 8);
    assert(chebyshev(sq, sq + 8) <= 2);
    assert(ray_rec(sq, 8, occ, 64) == one_shl(sq + 8));
    // it reaches the union
    lemma_bb_or(sliding_rec(sq, occ, d, 0), ray_attacks(sq, 8, occ), sq + 8);
    lemma_bb_or(sliding_rec(sq, occ, d, 1), ray_attacks(sq, 1, occ), sq + 8);
    lemma_bb_or(sliding_rec(sq, occ, d, 2), ray_attacks(sq, -8, occ), sq + 8);
    lemma_bb_or(sliding_rec(sq, occ, d, 3), ray_attacks(sq, -1, occ), sq + 8);
    // nothing beyond the occupant on its file is attacked
    if sq_file(t) == sq_file(sq) && t > sq + 8 {
        if bb_has(sliding_spec(sq, occ, d), t) {
            lemma_bb_or(sliding_rec(sq, occ, d, 3), ray_attacks(sq, -1, occ), t);
            lemma_bb_or(sliding_rec(sq, occ, d, 2), ray_attacks(sq, -8, occ), t);
            lemma_bb_or(sliding_rec(sq, occ, d, 1), ray_attacks(sq, 1, occ), t);
            lemma_bb_or(sliding_rec(sq, occ, d, 0), ray_attacks(sq, 8, occ), t);
            lemma_bb_zero(t);
            if bb_has(ray_attacks(sq, 8, occ), t) {
                // the north ray is blocked at sq + 8
                lemma_bb_single(sq + 8, t);
            } else if bb_has(ray_attacks(sq, 1, occ), t) {
                lemma_ray_aligned(sq, 1, occ, 64, t);
                lemma_same_file_rank(sq, t);
            } else if bb_has(ray_attacks(sq, -8, occ), t) {
                lemma_ray_aligned(sq, -8, occ, 64, t);
            } else {
                lemma_ray_aligned(sq, -1, occ, 64, t);
                lemma_same_file_rank(sq, t);
            }
        }
    }
}


/// Removing the occupant restores the full ray: on an empty board the
/// rook attacks every square above it on its file.
pub proof fn lemma_open_file_north(sq: int, t: int)
    requires
        0 <= sq < 64,
        sq < t < 64,
        sq_file(t) == sq_file(sq),
    ensures
        bb_has(sliding_spec(sq, 0u64, rook_delta_seq()), t),
{
    let d = rook_delta_seq();
    assert(d.len() == 4 && d[0] == 8 && d[1] == 1 && d[2] == -8 && d[3] == -1);
    crate::util::lemma_ray_north_empty(sq, t, 64);
    lemma_bb_or(sliding_rec(sq, 0u64, d, 0), ray_attacks(sq, 8, 0u64), t);
    lemma_bb_or(sliding_rec(sq, 0u64, d, 1), ray_attacks(sq, 1, 0u64), t);
    lemma_bb_or(sliding_rec(sq, 0u64, d, 2), ray_attacks(sq, -8, 0u64), t);
    lemma_bb_or(sliding_rec(sq, 0u64, d, 3), ray_attacks(sq, -1, 0u64), t);
}

/// Two distinct squares on one file lie on distinct ranks.
proof fn lemma_same_file_rank(a: int, t: int)
    requires
        0 <= a < 64,
        0 <= t < 64,
        sq_file(t) == sq_file(a),
        t > a,
    ensures
        sq_rank(t) > sq_rank(a),
{
    vstd::arithmetic::div_mod::lemma_fundamental_div_mod(a, 8);
    vstd::arithmetic::div_mod::lemma_fundamental_div_mod(t, 8);
}

} // verus!
