//! The difficulty schedule and the block reward.

use vstd::prelude::*;

use crate::N_TRANSMISSION_SIGNATURES;

verus! {

/// The reward of a block at depth 1 with every stamp slot used.
pub const INITIAL_BLOCK_REWARD: u64 = 10000;

/// The smallest difficulty a mined block may declare.
pub const MIN_DIFFICULTY: u64 = 1;

/// The base difficulty at a depth: 0 for the genesis block, then
/// `4 + 2 * (depth / 500)`.
pub open spec fn base_difficulty(depth: u64) -> int {
    if depth == 0 {
        0
    } else {
        4 + 2 * (depth / 500)
    }
}

/// The integer square root: the largest `r` with `r * r <= n`.
pub open spec fn is_isqrt(n: int, r: int) -> bool {
    r >= 0 && r * r <= n && n < (r + 1) * (r + 1)
}

/// The reward paid to the miner of a block at `depth` carrying `n_stampers`
/// stamps: `INITIAL_BLOCK_REWARD * n_stampers / (floor(sqrt(depth)) * N)`.
pub open spec fn block_reward(depth: u64, n_stampers: usize, sqrt_depth: int) -> int {
    if n_stampers == 0 {
        0
    } else {
        (INITIAL_BLOCK_REWARD * n_stampers) as int / (sqrt_depth * N_TRANSMISSION_SIGNATURES as int)
    }
}

/// The difficulty gets harder after every 500 blocks: `4 + 2 * (depth / 500)`,
/// and 0 for the genesis block.
pub fn get_base_difficulty_from_depth(depth: u64) -> (r: u64)
    ensures
        r == base_difficulty(depth),
{
    if depth == 0 {
        return 0;
    }
    4 + 2 * (depth / 500)
}

/// The difficulty schedule: 0 for the genesis block, 4 for the first 499
/// blocks after it, and 2 more for every 500 blocks deeper; it never falls as
/// the chain grows.
pub proof fn lemma_difficulty_schedule(d: u64, e: u64)
    ensures
        base_difficulty(0) == 0,
        1 <= d < 500 ==> base_difficulty(d) == 4,
        d >= 1 && d + 500 <= u64::MAX ==> base_difficulty((d + 500) as u64) == base_difficulty(d) + 2,
        1 <= d <= e ==> base_difficulty(d) <= base_difficulty(e),
{
    if 1 <= d <= e {
        assert(d / 500 <= e / 500) by (nonlinear_arith)
            requires
                d <= e,
        ;
    }
    if d >= 1 && d + 500 <= u64::MAX {
        assert((d + 500) / 500 == d / 500 + 1) by (nonlinear_arith);
    }
}

proof fn lemma_square_monotone(a: int, b: int)
    requires
        0 <= a <= b,
    ensures
        a * a <= b * b,
{
    assert(a * a <= a * b) by (nonlinear_arith)
        requires
            0 <= a <= b,
    ;
    assert(a * b <= b * b) by (nonlinear_arith)
        requires
            0 <= a <= b,
    ;
}

/// The integer square root of `n`.
pub fn isqrt(n: u64) -> (r: u64)
    ensures
        is_isqrt(n as int, r as int),
        r <= 4294967295,
{
    // binary search for the largest r in [0, 2^32) with r * r <= n
    let mut lo: u64 = 0;
    let mut hi: u64 = 4294967296;
    proof {
        assert(4294967296 * 4294967296 > 18446744073709551615) by (nonlinear_arith);
    }
    while lo + 1 < hi
        invariant
            lo < hi <= 4294967296,
            lo * lo <= n,
            n < hi * hi,
        decreases hi - lo,
    {
        let mid = lo + (hi - lo) / 2;
        proof {
            if mid <= 4294967295 {
                lemma_square_monotone(mid as int, 4294967295);
                assert(4294967295 * 4294967295 < 18446744073709551615) by (nonlinear_arith);
            }
        }
        if mid <= 4294967295 && mid * mid <= n {
            lo = mid;
        } else {
            proof {
                if mid > 4294967295 {
                    assert(mid == 4294967296);
                }
            }
            hi = mid;
        }
    }
    assert(hi == lo + 1);
    lo
}

/// The reward to pay the miner: `INITIAL_BLOCK_REWARD / sqrt(depth)`, scaled by
/// the share of stamp slots used. No stamps, no reward. The square root is the
/// integer square root (the floor of the real root).
pub fn get_reward_from_depth_and_stampers(depth: u64, n_stampers: usize) -> (r: u64)
    requires
        depth != 0,
        n_stampers <= u64::MAX / INITIAL_BLOCK_REWARD,
    ensures
        exists|s: int| is_isqrt(depth as int, s) && r == block_reward(depth, n_stampers, s),
{
    let s = isqrt(depth);
    if n_stampers == 0 {
        return 0;
    }
    proof {
        if s == 0 {
            assert((s + 1) * (s + 1) == 1) by (nonlinear_arith)
                requires
                    s == 0,
            ;
        }
        assert(s * 10 <= 42949672950);
    }
    let numerator: u64 = INITIAL_BLOCK_REWARD * (n_stampers as u64);
    let denominator: u64 = s * (N_TRANSMISSION_SIGNATURES as u64);
    numerator / denominator
}

/// The integer square root is unique, so the reward is a function of depth and
/// stamp count alone.
pub proof fn lemma_isqrt_unique(n: int, a: int, b: int)
    requires
        is_isqrt(n, a),
        is_isqrt(n, b),
    ensures
        a == b,
{
    if a < b {
        lemma_square_monotone(a + 1, b);
    } else if b < a {
        lemma_square_monotone(b + 1, a);
    }
}

/// The reward never grows when the chain gets deeper, for a fixed number of
/// stamps.
pub proof fn lemma_reward_non_increasing(d1: u64, d2: u64, n: usize, s1: int, s2: int)
    requires
        0 < d1 <= d2,
        n <= u64::MAX / INITIAL_BLOCK_REWARD,
        is_isqrt(d1 as int, s1),
        is_isqrt(d2 as int, s2),
    ensures
        block_reward(d2, n, s2) <= block_reward(d1, n, s1),
{
    if s2 < s1 {
        lemma_square_monotone(s2 + 1, s1);
    }
    assert(s1 >= 1) by {
        if s1 == 0 {
            assert((s1 + 1) * (s1 + 1) == 1) by (nonlinear_arith)
                requires
                    s1 == 0,
            ;
        }
    }
    if n != 0 {
        let num = (INITIAL_BLOCK_REWARD * n) as int;
        assert(num / (s2 * 10) <= num / (s1 * 10)) by (nonlinear_arith)
            requires
                1 <= s1 <= s2,
                num >= 0,
        ;
    }
}

} // verus!
