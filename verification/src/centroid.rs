//! The centroid and bounding box of the pixels of a mask that reach a
//! threshold.

use vstd::prelude::*;
use crate::error::KernelError;
use crate::raster::{checked_pixels, coords, rejection};

verus! {

/// Where the qualifying pixels of a mask lie.
///
/// The centroid is the point `(x_num / den, y_num / den)`, kept as exact
/// fractions. The bounding box starts at `(bounds_x, bounds_y)` and is
/// `bounds_width` by `bounds_height` pixels large.
#[derive(Clone, Copy, Debug)]
pub struct Centroid {
    pub x_num: u128,
    pub y_num: u128,
    pub den: u64,
    pub area: u64,
    pub bounds_x: u32,
    pub bounds_y: u32,
    pub bounds_width: u32,
    pub bounds_height: u32,
}

/// The number of pixels among the first `n` of `mask` that reach `t`.
pub open spec fn count_reaching(mask: Seq<u8>, t: int, n: int) -> int
    decreases n,
{
    if n <= 0 {
        0
    } else {
        count_reaching(mask, t, n - 1) + if mask[n - 1] >= t {
            1int
        } else {
            0int
        }
    }
}

/// The sum of the columns of the pixels among the first `n` of `mask` that
/// reach `t`.
pub open spec fn column_sum(mask: Seq<u8>, w: int, t: int, n: int) -> int
    decreases n,
{
    if n <= 0 {
        0
    } else {
        column_sum(mask, w, t, n - 1) + if mask[n - 1] >= t {
            (n - 1) % w
        } else {
            0
        }
    }
}

/// The sum of the rows of the pixels among the first `n` of `mask` that
/// reach `t`.
pub open spec fn row_sum(mask: Seq<u8>, w: int, t: int, n: int) -> int
    decreases n,
{
    if n <= 0 {
        0
    } else {
        row_sum(mask, w, t, n - 1) + if mask[n - 1] >= t {
            (n - 1) / w
        } else {
            0
        }
    }
}

/// Whether the box at `(bx, by)` of `bw` by `bh` pixels holds every pixel of
/// `mask` that reaches `t` and touches one of them on each of its four
/// sides.
pub open spec fn is_tight_box(mask: Seq<u8>, w: int, t: int, bx: int, by: int, bw: int, bh: int) -> bool {
    &&& forall|i: int|
        0 <= i < mask.len() && #[trigger] mask[i] >= t ==> bx <= i % w < bx + bw && by <= i / w
            < by + bh
    &&& exists|i: int| 0 <= i < mask.len() && #[trigger] mask[i] >= t && i % w == bx
    &&& exists|i: int| 0 <= i < mask.len() && #[trigger] mask[i] >= t && i % w == bx + bw - 1
    &&& exists|i: int| 0 <= i < mask.len() && #[trigger] mask[i] >= t && i / w == by
    &&& exists|i: int| 0 <= i < mask.len() && #[trigger] mask[i] >= t && i / w == by + bh - 1
}

/// Whether `c` describes the pixels of the `w` by `h` mask that reach `t`.
///
/// With no such pixel the area is 0, the centroid is the exact centre of the
/// image, `(w / 2, h / 2)` as the fractions `w` over 2 and `h` over 2, so
/// that an odd side gives a half, and the box is the whole image. Else the
/// area is their number, the centroid is the mean of their coordinates and
/// the box is the smallest that holds them.
pub open spec fn is_centroid(mask: Seq<u8>, w: int, h: int, t: int, c: Centroid) -> bool {
    let n = w * h;
    &&& c.area == count_reaching(mask, t, n)
    &&& if c.area == 0 {
        &&& c.x_num == w
        &&& c.y_num == h
        &&& c.den == 2
        &&& c.bounds_x == 0
        &&& c.bounds_y == 0
        &&& c.bounds_width == w
        &&& c.bounds_height == h
    } else {
        &&& c.x_num == column_sum(mask, w, t, n)
        &&& c.y_num == row_sum(mask, w, t, n)
        &&& c.den == c.area
        &&& is_tight_box(
            mask,
            w,
            t,
            c.bounds_x as int,
            c.bounds_y as int,
            c.bounds_width as int,
            c.bounds_height as int,
        )
    }
}

/// Scans the mask for the pixels that reach `threshold`.
pub(crate) fn centroid_of(mask: &[u8], w: usize, h: usize, threshold: u8) -> (c: Centroid)
    requires
        0 < w <= u32::MAX,
        0 < h <= u32::MAX,
        w * h <= usize::MAX,
        mask@.len() == w * h,
    ensures
        is_centroid(mask@, w as int, h as int, threshold as int, c),
{
    let n: usize = mask.len();
    let mut sum_x: u128 = 0;
    let mut sum_y: u128 = 0;
    let mut count: u64 = 0;
    let mut min_x: usize = 0;
    let mut max_x: usize = 0;
    let mut min_y: usize = 0;
    let mut max_y: usize = 0;
    let ghost mut at_min_x: int = 0;
    let ghost mut at_max_x: int = 0;
    let ghost mut at_min_y: int = 0;
    let ghost mut at_max_y: int = 0;
    let ghost t: int = threshold as int;
    let mut i: usize = 0;
    while i < n
        invariant
            0 < w <= u32::MAX,
            0 < h <= u32::MAX,
            w * h <= usize::MAX,
            mask@.len() == w * h,
            n == w * h,
            t == threshold,
            i <= n,
            count == count_reaching(mask@, t, i as int),
            count <= i,
            sum_x == column_sum(mask@, w as int, t, i as int),
            sum_y == row_sum(mask@, w as int, t, i as int),
            sum_x <= i * 0xFFFF_FFFF,
            sum_y <= i * 0xFFFF_FFFF,
            count == 0 ==> forall|j: int| 0 <= j < i ==> #[trigger] mask@[j] < t,
            count > 0 ==> min_x <= max_x < w,
            count > 0 ==> min_y <= max_y < h,
            count > 0 ==> forall|j: int|
                0 <= j < i && #[trigger] mask@[j] >= t ==> min_x <= j % (w as int) <= max_x
                    && min_y <= j / (w as int) <= max_y,
            count > 0 ==> 0 <= at_min_x < i && mask@[at_min_x] >= t && at_min_x % (w as int)
                == min_x,
            count > 0 ==> 0 <= at_max_x < i && mask@[at_max_x] >= t && at_max_x % (w as int)
                == max_x,
            count > 0 ==> 0 <= at_min_y < i && mask@[at_min_y] >= t && at_min_y / (w as int)
                == min_y,
            count > 0 ==> 0 <= at_max_y < i && mask@[at_max_y] >= t && at_max_y / (w as int)
                == max_y,
        decreases n - i,
    {
        if mask[i] >= threshold {
            let (x, y) = coords(i, w, h);
            if count == 0 {
                min_x = x;
                max_x = x;
                min_y = y;
                max_y = y;
                proof {
                    at_min_x = i as int;
                    at_max_x = i as int;
                    at_min_y = i as int;
                    at_max_y = i as int;
                }
            } else {
                if x < min_x {
                    min_x = x;
                    proof {
                        at_min_x = i as int;
                    }
                }
                if x > max_x {
                    max_x = x;
                    proof {
                        at_max_x = i as int;
                    }
                }
                if y < min_y {
                    min_y = y;
                    proof {
                        at_min_y = i as int;
                    }
                }
                if y > max_y {
                    max_y = y;
                    proof {
                        at_max_y = i as int;
                    }
                }
            }
            sum_x = sum_x + x as u128;
            sum_y = sum_y + y as u128;
            count = count + 1;
        }
        i += 1;
    }
    if count == 0 {
        Centroid {
            x_num: w as u128,
            y_num: h as u128,
            den: 2,
            area: 0,
            bounds_x: 0,
            bounds_y: 0,
            bounds_width: w as u32,
            bounds_height: h as u32,
        }
    } else {
        Centroid {
            x_num: sum_x,
            y_num: sum_y,
            den: count,
            area: count,
            bounds_x: min_x as u32,
            bounds_y: min_y as u32,
            bounds_width: (max_x - min_x + 1) as u32,
            bounds_height: (max_y - min_y + 1) as u32,
        }
    }
}

/// Computes the area, the centroid and the bounding box of the pixels of an
/// alpha mask that are at least `threshold`.
///
/// Fails with `InvalidParameter` when a dimension is zero, and otherwise with
/// `MalformedInput` when the mask does not hold `width * height` bytes.
pub fn calculate_centroid(alpha_data: &[u8], width: u32, height: u32, threshold: u8) -> (result:
    Result<Centroid, KernelError>)
    ensures
        match result {
            Ok(c) => rejection(alpha_data@.len() as int, width as int, height as int, 1) is None
                && is_centroid(alpha_data@, width as int, height as int, threshold as int, c),
            Err(e) => rejection(alpha_data@.len() as int, width as int, height as int, 1) == Some(
                e,
            ),
        },
{
    match checked_pixels(alpha_data.len(), width, height, 1) {
        Ok(_) => Ok(centroid_of(alpha_data, width as usize, height as usize, threshold)),
        Err(e) => Err(e),
    }
}

} // verus!
