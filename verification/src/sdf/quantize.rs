//! From a distance to a byte.
//!
//! The distance is cut off at the limit, scaled so that the limit becomes
//! 127, rounded to the nearest whole number, and added to 128 outside the
//! shape or taken from it inside. Distances come as squares and the limit as
//! a fraction, so the rounding is decided by cross-multiplication and no
//! root is ever taken.

use vstd::prelude::*;
use crate::ratio::Ratio;

verus! {

/// The byte that stands for the boundary.
pub const BOUNDARY: u8 = 128;

/// Whether a distance `d` under a limit `m` scales to `k - 1/2` or more, that
/// is `127 * d / m >= k - 1/2`, for `k >= 1`. Both sides are doubled and
/// squared, so that the squares `d2` of `d` and `limit` of `m`, taken in the
/// same unit, decide: `(2k - 1)² * limit <= 254² * d2`.
pub open spec fn rounds_to_at_least(k: int, d2: int, limit: int) -> bool {
    (2 * k - 1) * (2 * k - 1) * limit <= 64516 * d2
}

/// Whether a distance `d` under a limit `m` scales to `k + 1/2` or less, that
/// is `127 * d / m <= k + 1/2`, for `k >= 0`: `254² * d2 <= (2k + 1)² * limit`.
pub open spec fn rounds_to_at_most(k: int, d2: int, limit: int) -> bool {
    64516 * d2 <= (2 * k + 1) * (2 * k + 1) * limit
}

/// The largest `j` in `1..=k` to which the scaled distance rounds up, or 0.
pub open spec fn level_up(d2: int, limit: int, k: int) -> int
    decreases k,
{
    if k <= 0 {
        0
    } else if rounds_to_at_least(k, d2, limit) {
        k
    } else {
        level_up(d2, limit, k - 1)
    }
}

/// The smallest `j` in `k..127` to which the scaled distance rounds down, or
/// 127.
pub open spec fn level_down(d2: int, limit: int, k: int) -> int
    decreases 127 - k,
{
    if k >= 127 {
        127
    } else if rounds_to_at_most(k, d2, limit) {
        k
    } else {
        level_down(d2, limit, k + 1)
    }
}

/// The byte of a pixel whose nearest seed lies at squared distance `d2`
/// (`None` where no seed was found), for the distance limit `num / den`.
///
/// The distance is cut off at the limit, scaled so that the limit becomes
/// 127, and rounded to the nearest whole number. Inside the shape it is
/// taken from 128, outside it is added to 128. A pixel without a seed is as
/// far away as the limit.
pub open spec fn sdf_byte(d2: Option<int>, num: int, den: int, inside: bool) -> int {
    let limit = num * num;
    let scaled = match d2 {
        Some(d) => if d * (den * den) < limit {
            d * (den * den)
        } else {
            limit
        },
        None => limit,
    };
    if inside {
        128 - level_down(scaled, limit, 0)
    } else {
        128 + level_up(scaled, limit, 127)
    }
}

/// `level_up` from `k` finds the largest of `1..=k` to which the scaled
/// distance rounds up.
proof fn lemma_level_up_is_largest(d2: int, limit: int, k: int)
    requires
        0 <= k,
    ensures
        0 <= level_up(d2, limit, k) <= k,
        level_up(d2, limit, k) > 0 ==> rounds_to_at_least(level_up(d2, limit, k), d2, limit),
        forall|j: int| level_up(d2, limit, k) < j <= k ==> !rounds_to_at_least(j, d2, limit),
    decreases k,
{
    if k > 0 && !rounds_to_at_least(k, d2, limit) {
        lemma_level_up_is_largest(d2, limit, k - 1);
    }
}

/// `level_down` from `k` finds the smallest of `k..127` to which the scaled
/// distance rounds down.
proof fn lemma_level_down_is_smallest(d2: int, limit: int, k: int)
    requires
        0 <= k <= 127,
    ensures
        k <= level_down(d2, limit, k) <= 127,
        level_down(d2, limit, k) < 127 ==> rounds_to_at_most(
            level_down(d2, limit, k),
            d2,
            limit,
        ),
        forall|j: int| k <= j < level_down(d2, limit, k) ==> !rounds_to_at_most(j, d2, limit),
    decreases 127 - k,
{
    if k < 127 && !rounds_to_at_most(k, d2, limit) {
        lemma_level_down_is_smallest(d2, limit, k + 1);
    }
}

/// Every byte lies on its own side of the boundary: at most 128 inside, at
/// least 128 outside, and never 0.
pub proof fn lemma_sdf_byte_side(d2: Option<int>, num: int, den: int, inside: bool)
    ensures
        inside ==> 1 <= sdf_byte(d2, num, den, inside) <= 128,
        !inside ==> 128 <= sdf_byte(d2, num, den, inside) <= 255,
{
    let limit = num * num;
    let scaled = match d2 {
        Some(d) => if d * (den * den) < limit {
            d * (den * den)
        } else {
            limit
        },
        None => limit,
    };
    lemma_level_up_is_largest(scaled, limit, 127);
    lemma_level_down_is_smallest(scaled, limit, 0);
}

/// Outside the shape the magnitude is the scaled distance rounded to the
/// nearest whole number: `127 * d / m` lies between `k - 1/2` and `k + 1/2`,
/// and where it lies half-way between two it takes the larger.
pub proof fn lemma_level_up_is_nearest(d2: int, limit: int)
    requires
        0 <= d2 <= limit,
        0 < limit,
    ensures
        ({
            let k = level_up(d2, limit, 127);
            &&& 0 <= k <= 127
            &&& k > 0 ==> rounds_to_at_least(k, d2, limit)
            &&& !rounds_to_at_least(k + 1, d2, limit)
        }),
{
    lemma_level_up_is_largest(d2, limit, 127);
    let k = level_up(d2, limit, 127);
    if k == 127 {
        assert(!rounds_to_at_least(128, d2, limit)) by (nonlinear_arith)
            requires
                0 <= d2 <= limit,
                0 < limit,
        ;
    }
}

/// Inside the shape the magnitude is the scaled distance rounded to the
/// nearest whole number: `127 * d / m` lies between `k - 1/2` and `k + 1/2`,
/// and where it lies half-way between two it takes the smaller, which is
/// the larger byte.
pub proof fn lemma_level_down_is_nearest(d2: int, limit: int)
    requires
        0 <= d2 <= limit,
        0 < limit,
    ensures
        ({
            let k = level_down(d2, limit, 0);
            &&& 0 <= k <= 127
            &&& rounds_to_at_most(k, d2, limit)
            &&& k > 0 ==> !rounds_to_at_most(k - 1, d2, limit)
        }),
{
    lemma_level_down_is_smallest(d2, limit, 0);
    let k = level_down(d2, limit, 0);
    if k == 127 {
        assert(rounds_to_at_most(127, d2, limit)) by (nonlinear_arith)
            requires
                0 <= d2 <= limit,
                0 < limit,
        ;
    }
}

/// A pixel at the distance limit or beyond it, or without a seed, gets the
/// byte furthest from the boundary on its side: 1 inside, 255 outside.
pub proof fn lemma_sdf_byte_saturated(d2: Option<int>, num: int, den: int, inside: bool)
    requires
        num > 0,
        match d2 {
            Some(d) => d * (den * den) >= num * num,
            None => true,
        },
    ensures
        sdf_byte(d2, num, den, inside) == if inside {
            1int
        } else {
            255int
        },
{
    let limit = num * num;
    assert(limit > 0) by (nonlinear_arith)
        requires
            limit == num * num,
            num > 0,
    ;
    assert(rounds_to_at_least(127, limit, limit)) by (nonlinear_arith)
        requires
            limit > 0,
    ;
    lemma_level_down_is_smallest(limit, limit, 0);
    let k = level_down(limit, limit, 0);
    if k < 127 {
        assert(!rounds_to_at_most(k, limit, limit)) by (nonlinear_arith)
            requires
                0 <= k < 127,
                limit > 0,
        ;
    }
}

/// Rounds the scaled distance to a magnitude between 0 and 127: half-way
/// cases go away from the boundary outside the shape and towards it inside.
fn magnitude(scaled: u64, limit: u64, inside: bool) -> (k: u8)
    requires
        scaled <= limit,
    ensures
        k <= 127,
        inside ==> k == level_down(scaled as int, limit as int, 0),
        !inside ==> k == level_up(scaled as int, limit as int, 127),
{
    let lhs: u128 = 64516 * (scaled as u128);
    if inside {
        let mut k: u8 = 0;
        while k < 127
            invariant
                inside,
                k <= 127,
                lhs == 64516 * scaled,
                level_down(scaled as int, limit as int, 0) == level_down(
                    scaled as int,
                    limit as int,
                    k as int,
                ),
            decreases 127 - k,
        {
            let odd: u128 = 2 * (k as u128) + 1;
            assert(odd * odd <= 255 * 255) by (nonlinear_arith)
                requires
                    odd <= 255,
            ;
            let sq: u128 = odd * odd;
            assert(sq * limit <= 65025 * 0xFFFF_FFFF_FFFF_FFFF) by (nonlinear_arith)
                requires
                    sq <= 65025,
                    limit <= 0xFFFF_FFFF_FFFF_FFFF,
            ;
            if lhs <= sq * (limit as u128) {
                return k;
            }
            k += 1;
        }
        k
    } else {
        let mut k: u8 = 127;
        while k > 0
            invariant
                !inside,
                k <= 127,
                lhs == 64516 * scaled,
                level_up(scaled as int, limit as int, 127) == level_up(
                    scaled as int,
                    limit as int,
                    k as int,
                ),
            decreases k,
        {
            let odd: u128 = 2 * (k as u128) - 1;
            assert(odd * odd <= 255 * 255) by (nonlinear_arith)
                requires
                    odd <= 255,
            ;
            let sq: u128 = odd * odd;
            assert(sq * limit <= 65025 * 0xFFFF_FFFF_FFFF_FFFF) by (nonlinear_arith)
                requires
                    sq <= 65025,
                    limit <= 0xFFFF_FFFF_FFFF_FFFF,
            ;
            if sq * (limit as u128) <= lhs {
                return k;
            }
            k -= 1;
        }
        k
    }
}

/// Maps a squared distance to its byte.
pub(crate) fn quantize(d2: Option<u128>, max_distance: Ratio, inside: bool) -> (b: u8)
    requires
        max_distance.is_positive(),
    ensures
        b == sdf_byte(
            match d2 {
                Some(d) => Some(d as int),
                None => None,
            },
            max_distance.num as int,
            max_distance.den as int,
            inside,
        ),
        inside ==> 1 <= b <= 128,
        !inside ==> 128 <= b,
{
    let num: u64 = max_distance.num as u64;
    let den: u64 = max_distance.den as u64;
    assert(num * num <= 0xFFFF_FFFF * 0xFFFF_FFFF) by (nonlinear_arith)
        requires
            num <= 0xFFFF_FFFF,
    ;
    assert(1 <= den * den <= 0xFFFF_FFFF * 0xFFFF_FFFF) by (nonlinear_arith)
        requires
            1 <= den <= 0xFFFF_FFFF,
    ;
    let limit: u64 = num * num;
    let den2: u64 = den * den;
    let scaled: u64 = match d2 {
        Some(d) => {
            if d >= limit as u128 {
                assert(d * (den * den) >= limit) by (nonlinear_arith)
                    requires
                        d >= limit,
                        den * den >= 1,
                        limit >= 0,
                ;
                limit
            } else {
                assert(d * den2 <= 0xFFFF_FFFF_FFFF_FFFF * 0xFFFF_FFFF_FFFF_FFFF)
                    by (nonlinear_arith)
                    requires
                        d <= 0xFFFF_FFFF_FFFF_FFFF,
                        den2 <= 0xFFFF_FFFF_FFFF_FFFF,
                ;
                let wide: u128 = d * (den2 as u128);
                if wide < limit as u128 {
                    wide as u64
                } else {
                    limit
                }
            }
        },
        None => limit,
    };
    let k: u8 = magnitude(scaled, limit, inside);
    proof {
        lemma_sdf_byte_side(
            match d2 {
                Some(d) => Some(d as int),
                None => None,
            },
            num as int,
            den as int,
            inside,
        );
    }
    if inside {
        BOUNDARY - k
    } else {
        BOUNDARY + k
    }
}

} // verus!
