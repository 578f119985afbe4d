use vstd::prelude::*;
use crate::bitboard::{bb_has, one_shl, Bitboard};
use crate::bitboard::{lemma_bb_and, lemma_bb_or, lemma_bb_single, lemma_bb_zero};
use crate::square::{chebyshev, sq_file, sq_rank, Square};

verus! {

pub const ROOK_DELTAS: [i32; 4] = [8, 1, -8, -1];

pub const BISHOP_DELTAS: [i32; 4] = [9, 7, -9, -7];

pub const KING_DELTAS: [i32; 8] = [9, 8, 7, 1, -9, -8, -7, -1];

pub const KNIGHT_DELTAS: [i32; 8] = [17, 15, 10, 6, -17, -15, -10, -6];

pub const WHITE_PAWN_DELTAS: [i32; 2] = [7, 9];

pub const BLACK_PAWN_DELTAS: [i32; 2] = [-7, -9];

/// A delta list as a sequence of mathematical integers.
pub open spec fn deltas_view(d: Seq<i32>) -> Seq<int> {
    d.map_values(|x: i32| x as int)
}

pub broadcast proof fn lemma_u64_or_zero(a: u64)
    by (bit_vector)
    ensures
        #[trigger] (a | 0u64) == a,
{
}

pub broadcast proof fn lemma_u64_or_assoc(a: u64, b: u64, c: u64)
    by (bit_vector)
    ensures
        #[trigger] ((a | b) | c) == a | (b | c),
{
}

/// One ray of sliding attacks, with at most `fuel` steps left: step from
/// `prev` by `delta` while the step stays on the board and does not wrap
/// around an edge (Chebyshev guard); include the first occupied square
/// and stop there.
pub open spec fn ray_rec(prev: int, delta: int, occ: u64, fuel: nat) -> u64
    decreases fuel,
{
    if fuel == 0 {
        0u64
    } else {
        let next = prev + delta;
        if 0 <= next < 64 && chebyshev(prev, next) <= 2 {
            if bb_has(occ, next) {
                one_shl(next)
            } else {
                one_shl(next) | ray_rec(next, delta, occ, (fuel - 1) as nat)
            }
        } else {
            0u64
        }
    }
}

/// The attacked squares along one direction (64 steps of fuel is more
/// than any ray on an 8x8 board can use).
pub open spec fn ray_attacks(sq: int, delta: int, occ: u64) -> u64 {
    ray_rec(sq, delta, occ, 64)
}

pub open spec fn sliding_rec(sq: int, occ: u64, deltas: Seq<int>, n: int) -> u64
    decreases n,
{
    if n <= 0 {
        0u64
    } else {
        sliding_rec(sq, occ, deltas, n - 1) | ray_attacks(sq, deltas[n - 1], occ)
    }
}

/// The union of the attacked squares over a direction list: the squares
/// a sliding piece on `sq` attacks under occupancy `occ`.
pub open spec fn sliding_spec(sq: int, occ: u64, deltas: Seq<int>) -> u64 {
    sliding_rec(sq, occ, deltas, deltas.len() as int)
}

/// One ray of the premask, with at most `fuel` steps left: collect the
/// squares from which one more strictly-adjacent step along `delta` is
/// still possible (so the board-edge endpoint square is left out).
pub open spec fn premask_ray(prev: int, delta: int, fuel: nat) -> u64
    decreases fuel,
{
    if fuel == 0 {
        0u64
    } else {
        let next = prev + delta;
        if 0 <= next < 64 && chebyshev(prev, next) == 1 {
            one_shl(prev) | premask_ray(next, delta, (fuel - 1) as nat)
        } else {
            0u64
        }
    }
}

pub open spec fn premask_rec(sq: int, deltas: Seq<int>, n: int) -> u64
    decreases n,
{
    if n <= 0 {
        0u64
    } else {
        premask_rec(sq, deltas, n - 1) | premask_ray(sq, deltas[n - 1], 64)
    }
}

/// The relevant-occupancy mask for a square: the ray interiors along the
/// direction list, with the origin square removed.
pub open spec fn premask_spec(sq: int, deltas: Seq<int>) -> u64 {
    premask_rec(sq, deltas, deltas.len() as int) & !one_shl(sq)
}

/// Ray-cast the squares attacked by a sliding piece on `square` under
/// occupancy `occupied`, along the given directions: each ray stops at
/// (and includes) the first occupied square, and stops before any step
/// that would wrap around a board edge.
pub fn sliding_attacks(square: Square, occupied: Bitboard, deltas: &[i32]) -> (r: Bitboard)
    requires
        forall|i: int| 0 <= i < deltas@.len() ==> deltas@[i] != 0,
    ensures
        r@ == sliding_spec(square@, occupied@, deltas_view(deltas@)),
{
    broadcast use lemma_u64_or_zero, lemma_u64_or_assoc;

    let ghost dv = deltas_view(deltas@);
    let mut attacks = Bitboard::new(0);
    // pins 0 <= square@ < 64 for the loop invariants
    let sq_bound = square.index();
    let mut di: usize = 0;
    while di < deltas.len()
        invariant
            di <= deltas@.len(),
            forall|i: int| 0 <= i < deltas@.len() ==> deltas@[i] != 0,
            dv == deltas_view(deltas@),
            0 <= square@ < 64,
            attacks@ == sliding_rec(square@, occupied@, dv, di as int),
        decreases deltas@.len() - di,
    {
        let delta = deltas[di];
        let ghost dirfull = ray_attacks(square@, delta as int, occupied@);
        let mut previous = square;
        let ghost mut fuel: nat = 64;
        let ghost mut steps: nat = 0;
        proof {
            assert(dv[di as int] == delta as int);
        }
        loop
            invariant_except_break
                0 <= previous@ < 64,
                0 <= square@ < 64,
                delta != 0,
                fuel + steps == 64,
                delta > 0 ==> previous@ >= square@ + steps,
                delta < 0 ==> previous@ <= square@ - steps,
                attacks@ | ray_rec(previous@, delta as int, occupied@, fuel) == sliding_rec(
                    square@,
                    occupied@,
                    dv,
                    di as int,
                ) | dirfull,
            ensures
                attacks@ == sliding_rec(square@, occupied@, dv, di as int) | dirfull,
            decreases fuel,
        {
            proof {
                assert(steps <= 63);
                assert(fuel >= 1);
            }
            match previous.offset(delta) {
                None => {
                    proof {
                        assert(ray_rec(previous@, delta as int, occupied@, fuel) == 0u64);
                        lemma_u64_or_zero(attacks@);
                    }
                    break ;
                },
                Some(next) => {
                    if next.distance(previous) > 2 {
                        proof {
                            assert(ray_rec(previous@, delta as int, occupied@, fuel) == 0u64);
                            lemma_u64_or_zero(attacks@);
                        }
                        break ;
                    }
                    let ghost acc0 = attacks@;
                    attacks.add(Bitboard::from_square(next));
                    if occupied.contains(next) {
                        proof {
                            assert(ray_rec(previous@, delta as int, occupied@, fuel) == one_shl(
                                next@,
                            ));
                        }
                        break ;
                    }
                    previous = next;
                    proof {
                        lemma_u64_or_assoc(
                            acc0,
                            one_shl(next@),
                            ray_rec(next@, delta as int, occupied@, (fuel - 1) as nat),
                        );
                        fuel = (fuel - 1) as nat;
                        steps = steps + 1;
                    }
                },
            }
        }
        di = di + 1;
    }
    attacks
}



/// Occupancy outside the ray interior is invisible to the ray: as long
/// as `pm` holds every square of the ray's interior (every walk square
/// from which one more step is possible), masking the occupancy by `pm`
/// leaves the ray unchanged. A blocker on the ray's endpoint square does
/// not matter, because the ray stops there anyway.
pub proof fn lemma_ray_mask_equiv(sq0: int, prev: int, delta: int, occ: u64, pm: u64, fuel: nat)
    requires
        0 <= sq0 < 64,
        0 <= prev < 64,
        delta == 1 || delta == -1 || delta == 8 || delta == -8 || delta == 9 || delta == -9
            || delta == 7 || delta == -7,
        delta > 0 ==> prev >= sq0 && fuel >= 64 - prev,
        delta < 0 ==> prev <= sq0 && fuel >= prev + 1,
        forall|t: int|
            0 <= t < 64 && #[trigger] bb_has(premask_ray(prev, delta, fuel), t) && t != sq0
                ==> bb_has(pm, t),
    ensures
        ray_rec(prev, delta, occ & pm, fuel) == ray_rec(prev, delta, occ, fuel),
    decreases fuel,
{
    if fuel > 0 {
        let next = prev + delta;
        if 0 <= next < 64 && chebyshev(prev, next) <= 2 {
            // for these deltas an accepted step is exactly one king move,
            // so the ray walk and the premask walk take the same branch
            if delta == 1 || delta == -1 {
                lemma_step_horiz(prev, next);
            } else if delta == 8 || delta == -8 {
                lemma_step_vert(prev, next);
            } else if delta == 9 || delta == -9 {
                lemma_step_diag(prev, next);
            } else {
                lemma_step_anti(prev, next);
            }
            assert(premask_ray(prev, delta, fuel) == (one_shl(prev) | premask_ray(
                next,
                delta,
                (fuel - 1) as nat,
            )));
            lemma_bb_and(occ, pm, next);
            if bb_has(occ, next) && !bb_has(pm, next) {
                // divergence is possible only at the ray's endpoint:
                // `next` is not in `pm`, so by the covering hypothesis it
                // is not an interior square, and the walk cannot continue
                assert(next != sq0);
                assert(!bb_has(premask_ray(prev, delta, fuel), next));
                lemma_bb_or(one_shl(prev), premask_ray(next, delta, (fuel - 1) as nat), next);
                assert(fuel - 1 >= 1);
                assert(!bb_has(premask_ray(next, delta, (fuel - 1) as nat), next));
                // so the step out of `next` fails the adjacency guard
                let next2 = next + delta;
                if 0 <= next2 < 64 && chebyshev(next, next2) <= 2 {
                    if delta == 1 || delta == -1 {
                        lemma_step_horiz(next, next2);
                    } else if delta == 8 || delta == -8 {
                        lemma_step_vert(next, next2);
                    } else if delta == 9 || delta == -9 {
                        lemma_step_diag(next, next2);
                    } else {
                        lemma_step_anti(next, next2);
                    }
                    lemma_bb_or(
                        one_shl(next),
                        premask_ray(next2, delta, (fuel - 2) as nat),
                        next,
                    );
                    lemma_bb_single(next, next);
                    assert(false);
                }
                // both rays end at `next`, which both include
                assert(ray_rec(next, delta, occ & pm, (fuel - 1) as nat) == 0u64);
                lemma_u64_or_zero(one_shl(next));
            } else {
                // the two occupancies agree at `next`
                assert(bb_has(occ & pm, next) == bb_has(occ, next));
                if !bb_has(occ, next) {
                    assert forall|t: int|
                        0 <= t < 64 && #[trigger] bb_has(
                            premask_ray(next, delta, (fuel - 1) as nat),
                            t,
                        ) && t != sq0 implies bb_has(pm, t) by {
                        lemma_bb_or(
                            one_shl(prev),
                            premask_ray(next, delta, (fuel - 1) as nat),
                            t,
                        );
                    }
                    lemma_ray_mask_equiv(sq0, next, delta, occ, pm, (fuel - 1) as nat);
                }
            }
        }
    }
}

/// Each direction's premask ray lies inside the union over the list.
pub proof fn lemma_premask_rec_covers(sq: int, d: Seq<int>, n: int, i: int, t: int)
    requires
        0 <= i < n,
        0 <= t < 64,
        bb_has(premask_ray(sq, d[i], 64), t),
    ensures
        bb_has(premask_rec(sq, d, n), t),
    decreases n,
{
    if i == n - 1 {
        lemma_bb_or(premask_rec(sq, d, n - 1), premask_ray(sq, d[n - 1], 64), t);
    } else {
        lemma_premask_rec_covers(sq, d, n - 1, i, t);
        lemma_bb_or(premask_rec(sq, d, n - 1), premask_ray(sq, d[n - 1], 64), t);
    }
}

/// The 64-entry mask table for one-step pieces (king, knight, pawn
/// captures): the attack set computed against a fully occupied board,
/// so every ray stops after its first step.
pub fn step_masks(deltas: &[i32]) -> (r: Vec<u64>)
    requires
        forall|i: int| 0 <= i < deltas@.len() ==> deltas@[i] != 0,
    ensures
        r.len() == 64,
        forall|s: int|
            0 <= s < 64 ==> #[trigger] r@[s] == sliding_spec(
                s,
                0xffff_ffff_ffff_ffffu64,
                deltas_view(deltas@),
            ),
{
    let mut masks: Vec<u64> = Vec::new();
    let mut i: u8 = 0;
    while i < 64
        invariant
            i <= 64,
            forall|j: int| 0 <= j < deltas@.len() ==> deltas@[j] != 0,
            masks.len() == i as int,
            forall|s: int|
                0 <= s < i as int ==> #[trigger] masks@[s] == sliding_spec(
                    s,
                    0xffff_ffff_ffff_ffffu64,
                    deltas_view(deltas@),
                ),
        decreases 64 - i,
    {
        let square = Square::new(i);
        let attacks = sliding_attacks(square, Bitboard::new(0xffff_ffff_ffff_ffff), deltas);
        masks.push(attacks.value());
        i = i + 1;
    }
    masks
}

/// The relevant-occupancy mask for magic lookups: the sliding rays over
/// an empty board with the board-edge endpoints and the origin square
/// excluded. Total for every delta list; a zero delta contributes no
/// squares.
pub fn magic_mask(square: Square, deltas: &[i32]) -> (r: Bitboard)
    ensures
        r@ == premask_spec(square@, deltas_view(deltas@)),
{
    broadcast use lemma_u64_or_zero, lemma_u64_or_assoc;

    let ghost dv = deltas_view(deltas@);
    let origin = square;
    let mut mask = Bitboard::new(0);
    let sq_bound = square.index();
    let mut di: usize = 0;
    while di < deltas.len()
        invariant
            di <= deltas@.len(),
            dv == deltas_view(deltas@),
            0 <= square@ < 64,
            origin == square,
            mask@ == premask_rec(square@, dv, di as int),
        decreases deltas@.len() - di,
    {
        let delta = deltas[di];
        let ghost dirfull = premask_ray(square@, delta as int, 64);
        let mut previous = square;
        let ghost mut fuel: nat = 64;
        let ghost mut steps: nat = 0;
        proof {
            assert(dv[di as int] == delta as int);
        }
        loop
            invariant_except_break
                0 <= previous@ < 64,
                0 <= square@ < 64,
                fuel + steps == 64,
                delta > 0 ==> previous@ >= square@ + steps,
                delta < 0 ==> previous@ <= square@ - steps,
                delta == 0 ==> steps == 0,
                mask@ | premask_ray(previous@, delta as int, fuel) == premask_rec(
                    square@,
                    dv,
                    di as int,
                ) | dirfull,
            ensures
                mask@ == premask_rec(square@, dv, di as int) | dirfull,
            decreases fuel,
        {
            proof {
                assert(steps <= 63);
                assert(fuel >= 1);
            }
            match previous.offset(delta) {
                None => {
                    proof {
                        assert(premask_ray(previous@, delta as int, fuel) == 0u64);
                        lemma_u64_or_zero(mask@);
                    }
                    break ;
                },
                Some(next) => {
                    if !(next.distance(previous) == 1) {
                        proof {
                            assert(premask_ray(previous@, delta as int, fuel) == 0u64);
                            lemma_u64_or_zero(mask@);
                        }
                        break ;
                    }
                    proof {
                        // an accepted step moves: its Chebyshev distance is 1
                        assert(delta != 0);
                    }
                    let ghost acc0 = mask@;
                    mask.add(Bitboard::from_square(previous));
                    previous = next;
                    proof {
                        lemma_u64_or_assoc(
                            acc0,
                            one_shl((previous@ - delta) as int),
                            premask_ray(previous@, delta as int, (fuel - 1) as nat),
                        );
                        fuel = (fuel - 1) as nat;
                        steps = steps + 1;
                    }
                },
            }
        }
        di = di + 1;
    }
    mask.remove(Bitboard::from_square(origin));
    mask
}


/// A one-square horizontal step that passes the wrap guard stays on its
/// rank and is exactly one king move.
proof fn lemma_step_horiz(p: int, n: int)
    requires
        0 <= p < 64,
        0 <= n < 64,
        n == p + 1 || n == p - 1,
        chebyshev(p, n) <= 2,
    ensures
        sq_rank(n) == sq_rank(p),
        chebyshev(p, n) == 1,
{
    let pu = p as u8;
    let nu = n as u8;
    assert((pu < 64 && nu < 64 && (nu == pu + 1 || pu == nu + 1) && pu % 8 <= nu % 8 + 2 && nu % 8
        <= pu % 8 + 2) ==> pu / 8 == nu / 8) by (bit_vector);
    vstd::arithmetic::div_mod::lemma_fundamental_div_mod(p, 8);
    vstd::arithmetic::div_mod::lemma_fundamental_div_mod(n, 8);
}

/// A vertical step keeps its file, moves one rank, and is exactly one
/// king move.
proof fn lemma_step_vert(p: int, n: int)
    requires
        0 <= p < 64,
        0 <= n < 64,
        n == p + 8 || n == p - 8,
    ensures
        sq_file(n) == sq_file(p),
        n == p + 8 ==> sq_rank(n) == sq_rank(p) + 1,
        n == p - 8 ==> sq_rank(n) == sq_rank(p) - 1,
        chebyshev(p, n) == 1,
{
    vstd::arithmetic::div_mod::lemma_fundamental_div_mod(p, 8);
    if n == p + 8 {
        vstd::arithmetic::div_mod::lemma_fundamental_div_mod_converse(n, 8, p / 8 + 1, p % 8);
    } else {
        vstd::arithmetic::div_mod::lemma_fundamental_div_mod_converse(n, 8, p / 8 - 1, p % 8);
    }
}

/// A diagonal step that passes the wrap guard keeps file minus rank,
/// moving one file and one rank: exactly one king move.
proof fn lemma_step_diag(p: int, n: int)
    requires
        0 <= p < 64,
        0 <= n < 64,
        n == p + 9 || n == p - 9,
        chebyshev(p, n) <= 2,
    ensures
        sq_file(n) + sq_rank(p) == sq_file(p) + sq_rank(n),
        chebyshev(p, n) == 1,
{
    let pu = p as u8;
    let nu = n as u8;
    assert((pu < 64 && nu < 64 && (nu == pu + 9 || pu == nu + 9) && pu % 8 <= nu % 8 + 2 && nu % 8
        <= pu % 8 + 2) ==> ((nu == pu + 9 ==> nu % 8 == pu % 8 + 1 && nu / 8 == pu / 8 + 1) && (pu
        == nu + 9 ==> pu % 8 == nu % 8 + 1 && pu / 8 == nu / 8 + 1))) by (bit_vector);
}

/// An antidiagonal step that passes the wrap guard keeps file plus rank,
/// moving one file and one rank: exactly one king move.
proof fn lemma_step_anti(p: int, n: int)
    requires
        0 <= p < 64,
        0 <= n < 64,
        n == p + 7 || n == p - 7,
        chebyshev(p, n) <= 2,
    ensures
        sq_file(n) + sq_rank(n) == sq_file(p) + sq_rank(p),
        chebyshev(p, n) == 1,
{
    let pu = p as u8;
    let nu = n as u8;
    assert((pu < 64 && nu < 64 && (nu == pu + 7 || pu == nu + 7) && pu % 8 <= nu % 8 + 2 && nu % 8
        <= pu % 8 + 2) ==> ((nu == pu + 7 ==> pu % 8 == nu % 8 + 1 && nu / 8 == pu / 8 + 1) && (pu
        == nu + 7 ==> nu % 8 == pu % 8 + 1 && pu / 8 == nu / 8 + 1))) by (bit_vector);
}

/// A vertical step keeps its file and moves exactly one rank.
pub proof fn lemma_step_vert_pub(p: int, n: int)
    requires
        0 <= p < 64,
        0 <= n < 64,
        n == p + 8 || n == p - 8,
    ensures
        sq_file(n) == sq_file(p),
        n == p + 8 ==> sq_rank(n) == sq_rank(p) + 1,
        n == p - 8 ==> sq_rank(n) == sq_rank(p) - 1,
{
    lemma_step_vert(p, n);
}

/// Every square on a ray lies strictly beyond its origin in the ray's
/// direction and on the origin's rank, file, diagonal or antidiagonal,
/// according to the delta: linear index arithmetic never wraps a ray
/// around a board edge.
pub proof fn lemma_ray_aligned(prev: int, delta: int, occ: u64, fuel: nat, t: int)
    requires
        0 <= prev < 64,
        0 <= t < 64,
        delta == 1 || delta == -1 || delta == 8 || delta == -8 || delta == 9 || delta == -9
            || delta == 7 || delta == -7,
        bb_has(ray_rec(prev, delta, occ, fuel), t),
    ensures
        (delta == 1 || delta == -1) ==> sq_rank(t) == sq_rank(prev),
        (delta == 8 || delta == -8) ==> sq_file(t) == sq_file(prev),
        (delta == 9 || delta == -9) ==> sq_file(t) + sq_rank(prev) == sq_file(prev) + sq_rank(t),
        (delta == 7 || delta == -7) ==> sq_file(t) + sq_rank(t) == sq_file(prev) + sq_rank(prev),
        delta > 0 ==> t > prev,
        delta < 0 ==> t < prev,
    decreases fuel,
{
    if fuel == 0 {
        lemma_bb_zero(t);
    } else {
        let next = prev + delta;
        if 0 <= next < 64 && chebyshev(prev, next) <= 2 {
            if delta == 1 || delta == -1 {
                lemma_step_horiz(prev, next);
            } else if delta == 8 || delta == -8 {
                lemma_step_vert(prev, next);
            } else if delta == 9 || delta == -9 {
                lemma_step_diag(prev, next);
            } else {
                lemma_step_anti(prev, next);
            }
            if bb_has(occ, next) {
                lemma_bb_single(next, t);
            } else {
                lemma_bb_or(
                    one_shl(next),
                    ray_rec(next, delta, occ, (fuel - 1) as nat),
                    t,
                );
                lemma_bb_single(next, t);
                if t != next {
                    lemma_ray_aligned(next, delta, occ, (fuel - 1) as nat, t);
                }
            }
        } else {
            lemma_bb_zero(t);
        }
    }
}


/// On an empty board a northward ray reaches every square above its
/// origin on the same file (given enough fuel for the distance).
pub proof fn lemma_ray_north_empty(prev: int, t: int, fuel: nat)
    requires
        0 <= prev < 64,
        prev < t < 64,
        sq_file(t) == sq_file(prev),
        t - prev <= 8 * fuel,
    ensures
        bb_has(ray_rec(prev, 8, 0u64, fuel), t),
    decreases fuel,
{
    let next = prev + 8;
    assert(t - prev >= 8) by {
        vstd::arithmetic::div_mod::lemma_fundamental_div_mod(prev, 8);
        vstd::arithmetic::div_mod::lemma_fundamental_div_mod(t, 8);
    }
    assert(fuel >= 1);
    lemma_step_vert(prev, next);
    assert(chebyshev(prev, next) == 1);
    lemma_bb_zero(next);
    lemma_bb_or(one_shl(next), ray_rec(next, 8, 0u64, (fuel - 1) as nat), t);
    if t == next {
        lemma_bb_single(next, t);
    } else {
        lemma_ray_north_empty(next, t, (fuel - 1) as nat);
    }
}

} // verus!
