use vstd::prelude::*;
use crate::bitops::{
    lemma_pdep_pext, lemma_pdep_submask, lemma_pext_bound, lemma_pext_inj, lemma_pext_mask,
    lemma_pext_not_full, lemma_pext_pdep, lemma_pext_zero, lemma_ripple_pext, lemma_ripple_u64,
    lemma_submask_bitand, pdep_spec, pext_spec, popcount, submask,
};
use crate::square::Square;
use vstd::arithmetic::power2::{lemma_pow2_pos, pow2};

verus! {

/// The singleton word with only bit `i` set.
pub open spec fn one_shl(i: int) -> u64 {
    1u64 << (i as u64)
}

/// Bit `i` of `b` is set: square `i` is a member of the board set `b`.
pub open spec fn bb_has(b: u64, i: int) -> bool {
    b & one_shl(i) != 0
}

/// A 64-bit set of squares, in little-endian rank-file order: bit
/// `rank*8 + file` stands for that square.
#[derive(Clone, Copy, PartialEq, Eq, Structural, Debug)]
pub struct Bitboard {
    bits: u64,
}

impl View for Bitboard {
    type V = u64;

    closed spec fn view(&self) -> u64 {
        self.bits
    }
}

impl Bitboard {
    /// Construct a bitboard from a raw word.
    pub fn new(b: u64) -> (r: Bitboard)
        ensures
            r@ == b,
    {
        Bitboard { bits: b }
    }

    /// The raw word: bit `i` set means square `i` is in the set.
    pub fn value(&self) -> (r: u64)
        ensures
            r == self@,
    {
        self.bits
    }

    /// The singleton set holding one square.
    pub fn from_square(sq: Square) -> (r: Bitboard)
        ensures
            r@ == one_shl(sq@),
    {
        Bitboard { bits: 1u64 << (sq.index() as u64) }
    }

    /// In-place union.
    pub fn add(&mut self, squares: Bitboard)
        ensures
            final(self)@ == old(self)@ | squares@,
    {
        self.bits = self.bits | squares.bits;
    }

    /// In-place difference (AND-NOT).
    pub fn remove(&mut self, squares: Bitboard)
        ensures
            final(self)@ == old(self)@ & !squares@,
    {
        self.bits = self.bits & !squares.bits;
    }

    /// Membership test for a single square.
    pub fn contains(self, sq: Square) -> (r: bool)
        ensures
            r == bb_has(self@, sq@),
    {
        !(self.bits & (1u64 << (sq.index() as u64)) == 0)
    }

    pub fn is_empty(self) -> (r: bool)
        ensures
            r == (self@ == 0),
    {
        self.bits == 0
    }

    /// An iterator over the subsets of this bitboard, in carry-rippler
    /// order: position `p` of the enumeration yields `pdep_spec(p, self)`,
    /// starting with the empty set.
    pub fn carry_rippler(self) -> (r: CarryRippler)
        ensures
            r.mask() == self@,
            r.pos() == 0,
    {
        proof {
            let b = self.bits;
            assert(0u64 & b == 0u64) by (bit_vector);
        }
        CarryRippler { bb: self.bits, subset: 0, first: true }
    }
}

/// Enumerates the subsets of a bitboard with the carry-rippler
/// recurrence `subset' = (subset - bb) & bb`, yielding the empty subset
/// first and every subset exactly once.
#[derive(Debug)]
pub struct CarryRippler {
    bb: u64,
    subset: u64,
    first: bool,
}

impl CarryRippler {
    #[verifier::type_invariant]
    pub closed spec fn inv(self) -> bool {
        &&& self.subset & self.bb == self.subset
        &&& (self.first ==> self.subset == 0)
    }

    /// The mask whose subsets are enumerated.
    pub closed spec fn mask(self) -> u64 {
        self.bb
    }

    /// How many subsets have been yielded so far.
    pub closed spec fn pos(self) -> nat {
        if self.first {
            0
        } else if self.subset == 0 {
            pow2(popcount(self.bb as nat))
        } else {
            pext_spec(self.subset as nat, self.bb as nat)
        }
    }

    /// Total number of subsets that will be yielded.
    pub open spec fn count(self) -> nat {
        pow2(popcount(self.mask() as nat))
    }

    /// Yield the subset at the current position and advance, or `None`
    /// once all `2^popcount` subsets have been yielded.
    pub fn next(&mut self) -> (r: Option<Bitboard>)
        ensures
            final(self).mask() == old(self).mask(),
            old(self).pos() < old(self).count() ==> {
                &&& r matches Some(b) && b@ as nat == pdep_spec(old(self).pos(), old(self).mask() as nat)
                &&& final(self).pos() == old(self).pos() + 1
            },
            old(self).pos() >= old(self).count() ==> r is None && final(self).pos() == old(
                self,
            ).pos(),
    {
        proof {
            use_type_invariant(&*self);
        }
        let subset = self.subset;
        if subset != 0 || self.first {
            proof {
                let s = self.subset;
                let m = self.bb;
                lemma_submask_bitand(s, m);
                lemma_pow2_pos(popcount(m as nat));
                lemma_pext_zero(m as nat);
                lemma_pext_bound(s as nat, m as nat);
                lemma_pdep_pext(s as nat, m as nat);
                lemma_ripple_u64(s, m);
                lemma_ripple_pext(s as nat, m as nat, 1);
                let nxt = s.wrapping_sub(m) & m;
                lemma_submask_bitand(nxt, m);
                lemma_pext_zero(m as nat);
                if s == m {
                    lemma_pext_mask(m as nat);
                    // the index wraps: the successor is the empty subset
                    vstd::arithmetic::div_mod::lemma_mod_self_0(pow2(popcount(m as nat)) as int);
                    lemma_pext_inj(nxt as nat, 0, m as nat);
                } else {
                    lemma_pext_not_full(s as nat, m as nat);
                    vstd::arithmetic::div_mod::lemma_small_mod(
                        pext_spec(s as nat, m as nat) + 1,
                        pow2(popcount(m as nat)),
                    );
                    if nxt == 0 {
                        lemma_pext_zero(m as nat);
                    }
                }
            }
            self.first = false;
            self.subset = self.subset.wrapping_sub(self.bb) & self.bb;
            Some(Bitboard { bits: subset })
        } else {
            proof {
                lemma_pow2_pos(popcount(self.bb as nat));
            }
            None
        }
    }
}

/// Subset completeness of the carry-rippler enumeration: over positions
/// `0 <= p < 2^popcount(m)` the yielded values `pdep_spec(p, m)` are
/// pairwise distinct subsets of `m`, the empty subset comes first, the
/// full mask comes last, and every subset of `m` occurs.
pub proof fn lemma_subset_enumeration(m: u64)
    ensures
        forall|p: nat|
            p < pow2(popcount(m as nat)) ==> submask(#[trigger] pdep_spec(p, m as nat), m as nat),
        forall|p: nat, q: nat|
            p < q < pow2(popcount(m as nat)) ==> pdep_spec(p, m as nat) != pdep_spec(q, m as nat),
        pdep_spec(0, m as nat) == 0,
        pdep_spec((pow2(popcount(m as nat)) - 1) as nat, m as nat) == m as nat,
        forall|s: u64|
            s & m == s ==> exists|p: nat|
                p < pow2(popcount(m as nat)) && pdep_spec(p, m as nat) == s as nat,
{
    let mn = m as nat;
    let n = pow2(popcount(mn));
    assert forall|p: nat| p < n implies submask(#[trigger] pdep_spec(p, mn), mn) by {
        lemma_pdep_submask(p, mn);
    }
    assert forall|p: nat, q: nat| p < q < n implies pdep_spec(p, mn) != pdep_spec(q, mn) by {
        lemma_pext_pdep(p, mn);
        lemma_pext_pdep(q, mn);
    }
    lemma_pow2_pos(popcount(mn));
    assert(submask(0, mn));
    lemma_pext_zero(mn);
    lemma_pdep_pext(0, mn);
    lemma_submask_refl(mn);
    lemma_pext_mask(mn);
    lemma_pdep_pext(mn, mn);
    assert forall|s: u64| s & m == s implies exists|p: nat|
        p < n && pdep_spec(p, mn) == s as nat by {
        lemma_submask_bitand(s, m);
        lemma_pext_bound(s as nat, mn);
        lemma_pdep_pext(s as nat, mn);
        let w = pext_spec(s as nat, mn);
        assert(w < n && pdep_spec(w, mn) == s as nat);
    }
}


/// Membership in a union is membership in either part.
pub proof fn lemma_bb_or(a: u64, b: u64, i: int)
    requires
        0 <= i < 64,
    ensures
        bb_has(a | b, i) <==> (bb_has(a, i) || bb_has(b, i)),
{
    let j = i as u64;
    assert((((a | b) & (1u64 << j)) != 0) == (((a & (1u64 << j)) != 0) || ((b & (1u64 << j))
        != 0))) by (bit_vector);
}

/// Membership after removal.
pub proof fn lemma_bb_andnot(a: u64, b: u64, i: int)
    requires
        0 <= i < 64,
    ensures
        bb_has(a & !b, i) <==> (bb_has(a, i) && !bb_has(b, i)),
{
    let j = i as u64;
    assert((((a & !b) & (1u64 << j)) != 0) == (((a & (1u64 << j)) != 0) && !((b & (1u64 << j))
        != 0))) by (bit_vector);
}

/// The empty set has no members.
pub proof fn lemma_bb_zero(i: int)
    requires
        0 <= i < 64,
    ensures
        !bb_has(0u64, i),
{
    let j = i as u64;
    assert((0u64 & (1u64 << j)) == 0) by (bit_vector);
}

/// Membership in an intersection is membership in both parts.
pub proof fn lemma_bb_and(a: u64, b: u64, i: int)
    requires
        0 <= i < 64,
    ensures
        bb_has(a & b, i) <==> (bb_has(a, i) && bb_has(b, i)),
{
    let j = i as u64;
    assert((((a & b) & (1u64 << j)) != 0) == (((a & (1u64 << j)) != 0) && ((b & (1u64 << j))
        != 0))) by (bit_vector);
}

/// Disjoint sets share no member.
pub proof fn lemma_bb_disjoint(a: u64, b: u64, i: int)
    requires
        a & b == 0,
        0 <= i < 64,
    ensures
        !(bb_has(a, i) && bb_has(b, i)),
{
    let j = i as u64;
    assert(a & b == 0 ==> !(((a & (1u64 << j)) != 0) && ((b & (1u64 << j)) != 0))) by (bit_vector);
}

/// A singleton holds exactly its own square.
pub proof fn lemma_bb_single(k: int, i: int)
    requires
        0 <= k < 64,
        0 <= i < 64,
    ensures
        bb_has(one_shl(k), i) <==> i == k,
{
    let jk = k as u64;
    let ji = i as u64;
    assert(jk < 64 && ji < 64 ==> ((((1u64 << jk) & (1u64 << ji)) != 0) == (ji == jk)))
        by (bit_vector);
}

proof fn lemma_submask_refl(m: nat)
    ensures
        submask(m, m),
    decreases m,
{
    if m != 0 {
        lemma_submask_refl(m / 2);
    }
}

} // verus!
