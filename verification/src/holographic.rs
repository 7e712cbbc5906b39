//! Holographic principles in tile-topology systems.
use vstd::arithmetic::power2::*;
use vstd::prelude::*;

verus! {

/// Number of tiles needed to capture 99.8% of variance in Tic-Tac-Toe.
/// This is the holographic bound, the "surface area" of the game.
pub const TTT_HOLOGRAPHIC_TILE_COUNT: usize = 5;

/// Fraction of game variance captured by the holographic tiles, in
/// thousandths (0.998).
pub const TTT_HOLOGRAPHIC_COVERAGE_PERMILLE: u64 = 998;

/// Transfer improvement within the same game genre, in tenths of a
/// percentage point (+0.6 pp).
pub const WITHIN_GENRE_TRANSFER_TENTH_PP: i64 = 6;

/// Cross-genre transfer, in tenths of a percentage point: indistinguishable
/// from noise (0 pp).
pub const CROSS_GENRE_TRANSFER_TENTH_PP: i64 = 0;

/// Inverted transfer, in tenths of a percentage point: a negative signal,
/// indicating the effect is real (-1.7 pp).
pub const INVERTED_TRANSFER_TENTH_PP: i64 = -17;

/// `4^k >= b^2 * 2^d`, i.e. `k >= log2(b) + d / 2`.
pub open spec fn exponent_covers(k: nat, branching_factor: nat, depth: nat) -> bool {
    pow2(2 * k) >= branching_factor * branching_factor * pow2(depth)
}

/// Facts about the smallest `e` with `2^e >= t`: an exponent `k` covers
/// `t * 2^d` (as in `exponent_covers`) exactly when `2k >= e + d`.
proof fn lemma_covers_iff(k: nat, t: nat, depth: nat, e: nat)
    requires
        t >= 1,
        pow2(e) >= t,
        e == 0 || pow2((e - 1) as nat) < t,
    ensures
        (pow2(2 * k) >= t * pow2(depth)) <==> (2 * k >= e + depth),
{
    lemma_pow2_pos(depth);
    lemma_pow2_pos(e);
    if 2 * k >= e + depth {
        let rest = (2 * k - e) as nat;
        lemma_pow2_adds(e, rest);
        assert(pow2(2 * k) == pow2(e) * pow2(rest));
        if rest > depth {
            lemma_pow2_strictly_increases(depth, rest);
        }
        assert(pow2(rest) >= pow2(depth));
        lemma_pow2_pos(rest);
        assert(pow2(e) * pow2(rest) >= t * pow2(depth)) by (nonlinear_arith)
            requires
                pow2(e) >= t,
                pow2(rest) >= pow2(depth),
                t >= 1,
                pow2(depth) > 0,
        ;
    } else {
        if 2 * k < depth {
            lemma_pow2_strictly_increases(2 * k, depth);
            assert(t * pow2(depth) >= pow2(depth)) by (nonlinear_arith)
                requires
                    t >= 1,
                    pow2(depth) > 0,
            ;
        } else {
            let rest = (2 * k - depth) as nat;
            lemma_pow2_adds(depth, rest);
            assert(pow2(2 * k) == pow2(depth) * pow2(rest));
            assert(e > 0);
            if rest < e - 1 {
                lemma_pow2_strictly_increases(rest, (e - 1) as nat);
            }
            assert(pow2(rest) < t);
            assert(pow2(depth) * pow2(rest) < t * pow2(depth)) by (nonlinear_arith)
                requires
                    pow2(rest) < t,
                    pow2(depth) > 0,
            ;
        }
    }
}

/// Estimate the holographic bound for a game from its branching factor and
/// search depth: `max(1, ceil(log2(branching_factor) + depth / 2))`, and 0
/// when the branching factor is 0.
///
/// The ceiling is the least `k` with `4^k >= branching_factor^2 * 2^depth`,
/// which the contract states as: `k` covers, and `k - 1` does not (or `k` is 1).
pub fn estimate_holographic_bound(branching_factor: usize, depth: usize) -> (bound: usize)
    ensures
        branching_factor == 0 ==> bound == 0,
        branching_factor > 0 ==> {
            &&& bound >= 1
            &&& exponent_covers(bound as nat, branching_factor as nat, depth as nat)
            &&& (bound == 1 || !exponent_covers(
                (bound - 1) as nat,
                branching_factor as nat,
                depth as nat,
            ))
        },
{
    if branching_factor == 0 {
        return 0;
    }
    let b = branching_factor as u128;
    assert(b * b <= 0xffff_ffff_ffff_ffff_u128 * 0xffff_ffff_ffff_ffff_u128) by (nonlinear_arith)
        requires
            b <= 0xffff_ffff_ffff_ffff_u128,
    ;
    let t: u128 = b * b;
    assert(t >= 1) by (nonlinear_arith)
        requires
            b >= 1,
            t == b * b,
    ;
    // Least `e` with 2^e >= t; since t < 2^128, e <= 128.
    let mut e: u32 = 0;
    let mut p: u128 = 1;
    proof {
        lemma2_to64();
    }
    while e < 127 && p < t
        invariant
            e <= 127,
            p == pow2(e as nat),
            t >= 1,
            e == 0 || pow2((e - 1) as nat) < t,
        decreases 127 - e,
    {
        proof {
            lemma_pow2_unfold((e + 1) as nat);
            lemma_pow2_strictly_increases(e as nat, 127);
            lemma2_to64_rest();
        }
        assert(pow2(127) == 0x8000_0000_0000_0000_0000_0000_0000_0000) by {
            lemma_pow2_adds(64, 63);
            lemma2_to64();
            lemma2_to64_rest();
        }
        p = p * 2;
        e = e + 1;
    }
    let least_e: u32 = if p >= t {
        e
    } else {
        proof {
            assert(e == 127);
            lemma_pow2_adds(64, 64);
            lemma2_to64();
            lemma2_to64_rest();
            assert(pow2(128) == 0x1_0000_0000_0000_0000_0000_0000_0000_0000);
        }
        128
    };
    let half = depth / 2;
    let parity = (depth % 2) as u32;
    let k = half + ((least_e + parity + 1) / 2) as usize;
    proof {
        let kk = k as nat;
        lemma_covers_iff(kk, t as nat, depth as nat, least_e as nat);
        assert(exponent_covers(kk, b as nat, depth as nat));
        if kk > 1 {
            lemma_covers_iff((kk - 1) as nat, t as nat, depth as nat, least_e as nat);
        }
    }
    if k == 0 {
        proof {
            lemma_covers_iff(1, t as nat, depth as nat, least_e as nat);
            lemma_covers_iff(0, t as nat, depth as nat, least_e as nat);
        }
        1
    } else {
        k
    }
}

} // verus!
