use vstd::prelude::*;
use vstd::arithmetic::div_mod::{lemma_breakdown, lemma_fundamental_div_mod, lemma_small_mod};
use vstd::arithmetic::power2::{lemma_pow2_pos, lemma_pow2_unfold, pow2};

verus! {

// Mathematical model of the bit-level operations the move generator is
// built on: bits are taken low first, so `x % 2` is bit zero and `x / 2`
// shifts right by one.

/// Number of set bits of a word.
pub open spec fn popcount(m: nat) -> nat
    decreases m,
{
    if m == 0 {
        0
    } else {
        (m % 2) + popcount(m / 2)
    }
}

/// Parallel bit extract: the bits of `x` at the set positions of `m`,
/// packed into the contiguous low positions of the result.
pub open spec fn pext_spec(x: nat, m: nat) -> nat
    decreases m,
{
    if m == 0 {
        0
    } else if m % 2 == 1 {
        (x % 2) + 2 * pext_spec(x / 2, m / 2)
    } else {
        pext_spec(x / 2, m / 2)
    }
}

/// Parallel bit deposit: the low bits of `i` scattered to the set
/// positions of `m`. The inverse of `pext_spec` on dense indices.
pub open spec fn pdep_spec(i: nat, m: nat) -> nat
    decreases m,
{
    if m == 0 {
        0
    } else if m % 2 == 1 {
        (i % 2) + 2 * pdep_spec(i / 2, m / 2)
    } else {
        2 * pdep_spec(i, m / 2)
    }
}

/// Every set bit of `s` is also set in `m`.
pub open spec fn submask(s: nat, m: nat) -> bool
    decreases s,
{
    if s == 0 {
        true
    } else {
        s % 2 <= m % 2 && submask(s / 2, m / 2)
    }
}

/// Carry-rippler step with explicit carry `c`: adds `c` to the subset
/// `s` counting only in the set positions of `m`; the carry propagates
/// through the positions outside `m`.
pub open spec fn ripple_c(s: nat, m: nat, c: nat) -> nat
    decreases m,
{
    if c == 0 {
        s
    } else if m == 0 {
        0
    } else if m % 2 == 1 {
        let b = s % 2 + 1;
        b % 2 + 2 * ripple_c(s / 2, m / 2, b / 2)
    } else {
        2 * ripple_c(s / 2, m / 2, 1)
    }
}

/// The subset following `s` in carry-rippler order (wrapping to 0 after
/// the full mask).
pub open spec fn ripple_next(s: nat, m: nat) -> nat {
    ripple_c(s, m, 1)
}

/// Bitwise AND, bit by bit.
pub open spec fn and_nat(x: nat, y: nat) -> nat
    decreases x,
{
    if x == 0 || y == 0 {
        0
    } else {
        (x % 2) * (y % 2) + 2 * and_nat(x / 2, y / 2)
    }
}

pub proof fn lemma_pext_zero(m: nat)
    ensures
        pext_spec(0, m) == 0,
    decreases m,
{
    if m != 0 {
        lemma_pext_zero(m / 2);
    }
}

pub proof fn lemma_pext_bound(x: nat, m: nat)
    ensures
        pext_spec(x, m) < pow2(popcount(m)),
    decreases m,
{
    if m == 0 {
        assert(pow2(0) == 1) by {
            lemma_pow2_pos(0);
            vstd::arithmetic::power2::lemma2_to64();
        }
    } else {
        lemma_pext_bound(x / 2, m / 2);
        lemma_pow2_unfold(popcount(m / 2) + 1);
        if m % 2 == 1 {
            assert(popcount(m) == popcount(m / 2) + 1);
        }
    }
}

pub proof fn lemma_pext_mask(m: nat)
    ensures
        pext_spec(m, m) == pow2(popcount(m)) - 1,
    decreases m,
{
    if m == 0 {
        vstd::arithmetic::power2::lemma2_to64();
    } else {
        lemma_pext_mask(m / 2);
        lemma_pow2_unfold(popcount(m / 2) + 1);
        lemma_pow2_pos(popcount(m / 2));
    }
}

pub proof fn lemma_pext_not_full(s: nat, m: nat)
    requires
        submask(s, m),
        s != m,
    ensures
        pext_spec(s, m) < pow2(popcount(m)) - 1,
    decreases m,
{
    lemma_pow2_pos(popcount(m / 2));
    if m == 0 {
        lemma_submask_zero(s);
        assert(false);
    } else if m % 2 == 1 {
        lemma_pow2_unfold(popcount(m / 2) + 1);
        if s % 2 == 0 {
            lemma_pext_bound(s / 2, m / 2);
        } else {
            assert(s != 0);
            assert(s / 2 != m / 2) by {
                if s / 2 == m / 2 {
                    lemma_fundamental_div_mod(s as int, 2);
                    lemma_fundamental_div_mod(m as int, 2);
                }
            }
            lemma_pext_not_full(s / 2, m / 2);
        }
    } else {
        if s == 0 {
            lemma_pext_zero(m / 2);
            assert(m / 2 != 0) by {
                lemma_fundamental_div_mod(m as int, 2);
            }
            lemma_pext_mask(m / 2);
            lemma_pext_not_full_nonzero(m / 2);
        } else {
            assert(s % 2 == 0);
            assert(s / 2 != m / 2) by {
                if s / 2 == m / 2 {
                    lemma_fundamental_div_mod(s as int, 2);
                    lemma_fundamental_div_mod(m as int, 2);
                }
            }
            lemma_pext_not_full(s / 2, m / 2);
        }
    }
}

/// A non-empty mask has more than one subset.
proof fn lemma_pext_not_full_nonzero(m: nat)
    requires
        m != 0,
    ensures
        pow2(popcount(m)) > 1,
    decreases m,
{
    lemma_pow2_pos(popcount(m / 2));
    if m % 2 == 1 {
        lemma_pow2_unfold(popcount(m / 2) + 1);
    } else {
        assert(m / 2 != 0) by {
            lemma_fundamental_div_mod(m as int, 2);
        }
        lemma_pext_not_full_nonzero(m / 2);
    }
}

pub proof fn lemma_submask_zero(s: nat)
    requires
        submask(s, 0),
    ensures
        s == 0,
    decreases s,
{
    if s != 0 {
        if s % 2 == 0 {
            assert(s / 2 != 0) by {
                lemma_fundamental_div_mod(s as int, 2);
            }
            lemma_submask_zero(s / 2);
        }
    }
}

pub proof fn lemma_pext_inj(s: nat, t: nat, m: nat)
    requires
        submask(s, m),
        submask(t, m),
        pext_spec(s, m) == pext_spec(t, m),
    ensures
        s == t,
    decreases m,
{
    if m == 0 {
        lemma_submask_zero(s);
        lemma_submask_zero(t);
    } else {
        assert(s % 2 <= m % 2 && submask(s / 2, m / 2));
        assert(t % 2 <= m % 2 && submask(t / 2, m / 2));
        if m % 2 == 1 {
            assert(s % 2 == t % 2 && pext_spec(s / 2, m / 2) == pext_spec(t / 2, m / 2));
            lemma_pext_inj(s / 2, t / 2, m / 2);
        } else {
            lemma_pext_inj(s / 2, t / 2, m / 2);
        }
        lemma_fundamental_div_mod(s as int, 2);
        lemma_fundamental_div_mod(t as int, 2);
    }
}

pub proof fn lemma_pdep_submask(i: nat, m: nat)
    ensures
        submask(pdep_spec(i, m), m),
    decreases m,
{
    if m != 0 {
        if m % 2 == 1 {
            lemma_pdep_submask(i / 2, m / 2);
        } else {
            lemma_pdep_submask(i, m / 2);
        }
    }
}

pub proof fn lemma_pext_pdep(i: nat, m: nat)
    requires
        i < pow2(popcount(m)),
    ensures
        pext_spec(pdep_spec(i, m), m) == i,
    decreases m,
{
    if m == 0 {
        vstd::arithmetic::power2::lemma2_to64();
    } else if m % 2 == 1 {
        lemma_pow2_unfold(popcount(m / 2) + 1);
        lemma_pext_pdep(i / 2, m / 2);
        lemma_fundamental_div_mod(i as int, 2);
    } else {
        lemma_pext_pdep(i, m / 2);
    }
}

pub proof fn lemma_pdep_pext(s: nat, m: nat)
    requires
        submask(s, m),
    ensures
        pdep_spec(pext_spec(s, m), m) == s,
    decreases m,
{
    if m == 0 {
        lemma_submask_zero(s);
    } else if m % 2 == 1 {
        let p = pext_spec(s, m);
        assert(p == s % 2 + 2 * pext_spec(s / 2, m / 2));
        assert(p % 2 == s % 2 && p / 2 == pext_spec(s / 2, m / 2)) by {
            lemma_fundamental_div_mod(p as int, 2);
        }
        lemma_pdep_pext(s / 2, m / 2);
        lemma_fundamental_div_mod(s as int, 2);
    } else {
        assert(s % 2 == 0);
        lemma_pdep_pext(s / 2, m / 2);
        lemma_fundamental_div_mod(s as int, 2);
    }
}

/// Splitting a remainder by its lowest bit.
proof fn lemma_mod_split(a0: nat, x: nat, p: nat)
    requires
        a0 < 2,
        p > 0,
    ensures
        (a0 + 2 * x) % (2 * p) == a0 + 2 * (x % p),
{
    lemma_breakdown((a0 + 2 * x) as int, 2, p as int);
    assert((a0 + 2 * x) as int % 2 == a0 as int);
    assert((a0 + 2 * x) as int / 2 == x as int) by {
        lemma_fundamental_div_mod((a0 + 2 * x) as int, 2);
    }
}

/// The carry-rippler step advances the PEXT index by exactly one,
/// wrapping past the full mask.
pub proof fn lemma_ripple_pext(s: nat, m: nat, c: nat)
    requires
        submask(s, m),
        c <= 1,
    ensures
        submask(ripple_c(s, m, c), m),
        pext_spec(ripple_c(s, m, c), m) == (pext_spec(s, m) + c) % pow2(popcount(m)),
    decreases m,
{
    lemma_pow2_pos(popcount(m));
    if c == 0 {
        lemma_pext_bound(s, m);
        lemma_small_mod(pext_spec(s, m), pow2(popcount(m)));
    } else if m == 0 {
        lemma_submask_zero(s);
        vstd::arithmetic::power2::lemma2_to64();
        lemma_small_mod(0, 1);
    } else if m % 2 == 1 {
        let b = s % 2 + 1;
        let r = ripple_c(s / 2, m / 2, b / 2);
        lemma_ripple_pext(s / 2, m / 2, b / 2);
        let p = pext_spec(s / 2, m / 2);
        let pc2 = popcount(m / 2);
        lemma_pow2_unfold(pc2 + 1);
        lemma_pow2_pos(pc2);
        // pext of the step result, unfolded one bit
        assert(ripple_c(s, m, c) == b % 2 + 2 * r);
        assert((b % 2 + 2 * r) % 2 == b % 2 && (b % 2 + 2 * r) / 2 == r) by {
            lemma_fundamental_div_mod((b % 2 + 2 * r) as int, 2);
        }
        assert(pext_spec(ripple_c(s, m, c), m) == b % 2 + 2 * ((p + b / 2) % pow2(pc2)));
        // the goal, rearranged the same way
        assert((s % 2 + 2 * p + 1) % (2 * pow2(pc2)) == b % 2 + 2 * ((p + b / 2) % pow2(pc2)))
            by {
            lemma_mod_split(b % 2, p + b / 2, pow2(pc2));
            assert(b % 2 + 2 * (p + b / 2) == s % 2 + 2 * p + 1);
        }
    } else {
        assert(s % 2 == 0) by {
            // submask unfolds only on the branch s != 0
            if s != 0 {
            }
        }
        let r = ripple_c(s / 2, m / 2, 1);
        lemma_ripple_pext(s / 2, m / 2, 1);
        assert(ripple_c(s, m, c) == 2 * r);
        assert((2 * r) % 2 == 0 && (2 * r) / 2 == r) by {
            lemma_fundamental_div_mod((2 * r) as int, 2);
        }
        assert(s / 2 == pdep_spec(pext_spec(s / 2, m / 2), m / 2)) by {
            lemma_pdep_pext(s / 2, m / 2);
        }
        assert(pext_spec(s, m) == pext_spec(s / 2, m / 2));
    }
}

/// Product of two bits, evaluated.
proof fn lemma_bitmul(a: nat, b: nat)
    requires
        a < 2,
        b < 2,
    ensures
        a * b <= 1,
        a * b == (if a == 1 && b == 1 {
            1nat
        } else {
            0nat
        }),
        (a * b == a) <==> (a <= b),
{
    if a == 0 {
        assert(a * b == 0) by (nonlinear_arith)
            requires
                a == 0,
        ;
    } else if b == 0 {
        assert(a * b == 0) by (nonlinear_arith)
            requires
                b == 0,
        ;
    } else {
        assert(a * b == 1) by (nonlinear_arith)
            requires
                a == 1 && b == 1,
        ;
    }
}

proof fn lemma_and_nat_split(a: nat, m: nat)
    ensures
        and_nat(a, m) == (a % 2) * (m % 2) + 2 * and_nat(a / 2, m / 2),
{
    if a == 0 {
        assert(a % 2 == 0 && a / 2 == 0);
        assert(and_nat(0, m / 2) == 0);
    } else if m == 0 {
        assert(m % 2 == 0 && m / 2 == 0);
        lemma_and_nat_zero(a / 2);
    }
}

proof fn lemma_and_nat_zero(a: nat)
    ensures
        and_nat(a, 0) == 0,
{
}

/// `and_nat` agrees with the machine AND.
pub proof fn lemma_and_nat_is_bitand(x: u64, y: u64)
    ensures
        (x & y) as nat == and_nat(x as nat, y as nat),
    decreases x as nat,
{
    if x == 0 {
        assert(0u64 & y == 0) by (bit_vector);
    } else {
        let x2 = x / 2;
        let y2 = y / 2;
        lemma_and_nat_is_bitand(x2, y2);
        assert((x & y) as nat == 2 * ((x / 2) & (y / 2)) as nat + (x % 2) * (y % 2)) by (bit_vector);
        lemma_and_nat_split(x as nat, y as nat);
    }
}

/// The submask predicate agrees with the machine AND test.
pub proof fn lemma_submask_bitand(s: u64, m: u64)
    ensures
        submask(s as nat, m as nat) <==> (s & m == s),
{
    lemma_and_nat_is_bitand(s, m);
    lemma_and_nat_submask(s as nat, m as nat);
}

proof fn lemma_and_nat_submask(s: nat, m: nat)
    ensures
        (and_nat(s, m) == s) <==> submask(s, m),
    decreases s,
{
    if s == 0 {
    } else {
        lemma_and_nat_split(s, m);
        lemma_and_nat_submask(s / 2, m / 2);
        lemma_bitmul(s % 2, m % 2);
        lemma_fundamental_div_mod(s as int, 2);
        let p = (s % 2) * (m % 2);
        let a = and_nat(s / 2, m / 2);
        vstd::arithmetic::div_mod::lemma_fundamental_div_mod_converse(
            (p + 2 * a) as int,
            2,
            a as int,
            p as int,
        );
        assert(and_nat(s, m) == s ==> (p == s % 2 && a == s / 2));
    }
}

/// PEXT only reads the masked bits.
pub proof fn lemma_pext_masked(x: nat, m: nat)
    ensures
        pext_spec(and_nat(x, m), m) == pext_spec(x, m),
    decreases m,
{
    if m != 0 {
        lemma_and_nat_split(x, m);
        let p = (x % 2) * (m % 2);
        let a = and_nat(x / 2, m / 2);
        lemma_bitmul(x % 2, m % 2);
        vstd::arithmetic::div_mod::lemma_fundamental_div_mod_converse(
            (p + 2 * a) as int,
            2,
            a as int,
            p as int,
        );
        lemma_pext_masked(x / 2, m / 2);
    }
}

/// The wrapped subtraction `(s - m) & m` of the carry rippler computes
/// `ripple_next`, counting in the positions of `m`.
proof fn lemma_ripple_arith(s: nat, m: nat, c: nat, w: nat)
    requires
        c <= 1,
        s < pow2(w),
        m < pow2(w),
        submask(s, m),
    ensures
        and_nat((s + pow2(w) - 1 - m + c) as nat % pow2(w), m) == ripple_c(s, m, c),
    decreases w,
{
    lemma_pow2_pos(w);
    if w == 0 {
        vstd::arithmetic::power2::lemma2_to64();
        lemma_submask_zero(s);
        vstd::arithmetic::div_mod::lemma_fundamental_div_mod_converse(c as int, 1, c as int, 0);
    } else {
        let s0 = s % 2;
        let s1 = s / 2;
        let m0 = m % 2;
        let m1 = m / 2;
        lemma_pow2_unfold(w);
        lemma_pow2_pos((w - 1) as nat);
        assert(s1 < pow2((w - 1) as nat) && m1 < pow2((w - 1) as nat)) by {
            lemma_fundamental_div_mod(s as int, 2);
            lemma_fundamental_div_mod(m as int, 2);
        }
        assert(s0 <= m0 && submask(s1, m1)) by {
            // submask unfolds only on the branch s != 0
            if s != 0 {
            }
        }
        let t = (s0 + 1 - m0 + c) as nat;
        let b = (s1 + pow2((w - 1) as nat) - 1 - m1) as int;
        assert(b >= 0);
        let a = (s + pow2(w) - 1 - m + c) as nat;
        assert(a == t + 2 * b) by {
            lemma_fundamental_div_mod(s as int, 2);
            lemma_fundamental_div_mod(m as int, 2);
        }
        assert(a % pow2(w) == t % 2 + 2 * ((t / 2 + b) as nat % pow2((w - 1) as nat))) by {
            assert(a == t % 2 + 2 * (t / 2 + b));
            lemma_mod_split(t % 2, (t / 2 + b) as nat, pow2((w - 1) as nat));
        }
        let hi = (t / 2 + b) as nat % pow2((w - 1) as nat);
        lemma_and_nat_split((t % 2 + 2 * hi) as nat, m);
        vstd::arithmetic::div_mod::lemma_fundamental_div_mod_converse(
            (t % 2 + 2 * hi) as int,
            2,
            hi as int,
            (t % 2) as int,
        );
        lemma_bitmul(t % 2, m0);
        if m0 == 1 {
            // carry into the next mask position is t / 2
            lemma_ripple_arith(s1, m1, t / 2, (w - 1) as nat);
            assert(and_nat(a % pow2(w), m) == (t % 2) * 1 + 2 * ripple_c(s1, m1, t / 2));
            assert(ripple_c(s, m, c) == t % 2 + 2 * ripple_c(s1, m1, t / 2)) by {
                if c == 0 {
                    assert(t == s0);
                    assert(ripple_c(s1, m1, 0) == s1);
                    lemma_fundamental_div_mod(s as int, 2);
                } else {
                    assert(t == s0 + 1);
                }
            }
        } else {
            // the carry ripples through a position outside the mask
            assert(s0 == 0);
            assert(t == 1 + c);
            assert(t / 2 == c);
            lemma_ripple_arith(s1, m1, c, (w - 1) as nat);
            assert(and_nat(a % pow2(w), m) == 2 * ripple_c(s1, m1, c));
            assert(ripple_c(s, m, c) == 2 * ripple_c(s1, m1, c)) by {
                if c == 0 {
                    lemma_fundamental_div_mod(s as int, 2);
                }
            }
        }
    }
}

/// The carry-rippler recurrence `(s - m) & m`, as executed on `u64`,
/// computes `ripple_next`.
pub proof fn lemma_ripple_u64(s: u64, m: u64)
    requires
        s & m == s,
    ensures
        (s.wrapping_sub(m) & m) as nat == ripple_next(s as nat, m as nat),
{
    lemma_submask_bitand(s, m);
    let w: nat = 64;
    let p: nat = pow2(w);
    assert(p == 0x1_0000_0000_0000_0000) by {
        vstd::arithmetic::power2::lemma2_to64_rest();
    }
    let a = (s as nat + p - 1 - m as nat + 1) as nat;
    lemma_ripple_arith(s as nat, m as nat, 1, w);
    // relate the wrapped subtraction to a % 2^64
    let d = s.wrapping_sub(m);
    assert(d as nat == a % p) by {
        if s >= m {
            assert(a == (s - m) as nat + p);
            assert(a % p == (s - m) as nat % p) by {
                vstd::arithmetic::div_mod::lemma_mod_multiples_vanish(1, (s - m) as int, p as int);
            }
            lemma_small_mod((s - m) as nat, p);
        } else {
            assert(a == (s as int - m as int + p) as nat);
            lemma_small_mod(a, p);
        }
    }
    lemma_and_nat_is_bitand(d, m);
}


/// Relies on `bitintr::Pext::pext` for `u64`: gathers the bits of `x` at
/// the set positions of `mask` into the contiguous low bits of the result
/// (hardware PEXT where available, an equivalent software loop otherwise).
/// The full mask is excluded: on it the software loop's output-bit cursor
/// overflows after the last mask bit, which panics under overflow checks.
#[verifier::external_body]
pub(crate) fn pext_u64(x: u64, mask: u64) -> (r: u64)
    requires
        mask != 0xffff_ffff_ffff_ffffu64,
    ensures
        r as nat == pext_spec(x as nat, mask as nat),
{
    bitintr::Pext::pext(x, mask)
}

/// Portable bit extract: packs the bits of `x` selected by `mask`,
/// iterating the mask positions from low to high. Computes exactly the
/// same index as the accelerated path.
pub fn pext_fallback(x: u64, mask: u64) -> (r: u64)
    ensures
        r as nat == pext_spec(x as nat, mask as nat),
{
    let mut res: u64 = 0;
    let mut k: u64 = 0;
    let mut xx: u64 = x;
    let mut mm: u64 = mask;
    let ghost mut i: nat = 0;
    proof {
        vstd::arithmetic::power2::lemma2_to64();
    }
    while mm != 0
        invariant
            xx as nat == x as nat / pow2(i),
            mm as nat == mask as nat / pow2(i),
            k as nat <= i,
            res < pow2(k as nat),
            res as nat + pow2(k as nat) * pext_spec(xx as nat, mm as nat) == pext_spec(
                x as nat,
                mask as nat,
            ),
        decreases mm,
    {
        proof {
            assert(i < 64) by {
                if i >= 64 {
                    if i > 64 {
                        vstd::arithmetic::power2::lemma_pow2_strictly_increases(64, i);
                    }
                    vstd::arithmetic::power2::lemma2_to64_rest();
                    assert((mask as nat) < pow2(i));
                    lemma_pow2_pos(i);
                    vstd::arithmetic::div_mod::lemma_basic_div(mask as int, pow2(i) as int);
                }
            }
            let xv = xx;
            let mv = mm;
            assert(xv & 1 == xv % 2 && mv & 1 == mv % 2 && xv >> 1u64 == xv / 2 && mv >> 1u64
                == mv / 2) by (bit_vector);
        }
        let ghost old_res = res;
        let ghost old_k = k;
        let ghost old_xx = xx;
        let ghost old_mm = mm;
        if mm & 1 == 1 {
            if xx & 1 == 1 {
                proof {
                    vstd::bits::lemma_u64_pow2_no_overflow(k as nat);
                    vstd::bits::lemma_u64_shl_is_mul(1u64, k);
                    let r0 = res;
                    let kk = k;
                    assert((r0 < (1u64 << kk) && kk < 64) ==> ((r0 | (1u64 << kk)) == r0 + (1u64
                        << kk))) by (bit_vector);
                }
                res = res | (1u64 << k);
            }
            proof {
                lemma_pow2_unfold(k as nat + 1);
                vstd::bits::lemma_u64_pow2_no_overflow(k as nat);
            }
            k = k + 1;
        }
        xx = xx >> 1u64;
        mm = mm >> 1u64;
        proof {
            lemma_pow2_pos(i);
            lemma_pow2_unfold(i + 1);
            vstd::arithmetic::div_mod::lemma_div_denominator(x as int, pow2(i) as int, 2);
            vstd::arithmetic::div_mod::lemma_div_denominator(mask as int, pow2(i) as int, 2);
            i = i + 1;
            let p2 = pow2(old_k as nat);
            let bit = old_xx as nat % 2;
            let pn = pext_spec(xx as nat, mm as nat);
            if old_mm as nat % 2 == 1 {
                assert(pext_spec(old_xx as nat, old_mm as nat) == bit + 2 * pn);
                assert(p2 * (bit + 2 * pn) == p2 * bit + 2 * (p2 * pn)) by (nonlinear_arith);
                assert((2 * p2) * pn == 2 * (p2 * pn)) by (nonlinear_arith);
                assert(pow2(k as nat) == 2 * p2);
                if bit == 1 {
                    assert(p2 * bit == p2) by (nonlinear_arith)
                        requires
                            bit == 1,
                    ;
                    assert(res == old_res + p2);
                } else {
                    assert(p2 * bit == 0) by (nonlinear_arith)
                        requires
                            bit == 0,
                    ;
                }
            } else {
                assert(pext_spec(old_xx as nat, old_mm as nat) == pn);
            }
        }
    }
    proof {
        assert(pext_spec(xx as nat, 0) == 0);
        assert(pow2(k as nat) * 0 == 0) by (nonlinear_arith);
    }
    res
}

} // verus!
