//! Dilation and erosion of an alpha mask by a disk.
//!
//! Both filters look, for each pixel, at the pixels of the image whose
//! offset `(dx, dy)` lies in the disk `dx² + dy² <= radius²`. Offsets that
//! leave the image are left out, so the border is not eroded merely for
//! being the border.

use vstd::prelude::*;
use crate::error::KernelError;
use crate::raster::{at, checked_pixels, lemma_index_in_raster, lemma_index_split, rejection};

verus! {

/// Whether the offset `(dx, dy)` lies in the disk of radius `r`.
pub open spec fn in_disk(dx: int, dy: int, r: int) -> bool {
    dx * dx + dy * dy <= r * r
}

/// Whether `(sx, sy)` is a pixel of the `w` by `h` image that the disk of
/// radius `r` centred on `(x, y)` covers.
pub open spec fn covers(w: int, h: int, r: int, x: int, y: int, sx: int, sy: int) -> bool {
    &&& 0 <= sx < w
    &&& 0 <= sy < h
    &&& in_disk(sx - x, sy - y, r)
}

/// Whether `v` is at least `s` (when growing) or at most `s` (when
/// shrinking).
pub open spec fn bounds(grow: bool, v: u8, s: u8) -> bool {
    if grow {
        s <= v
    } else {
        v <= s
    }
}

/// Whether `v` is the largest (when growing) or the smallest (when
/// shrinking) sample of `mask` under the disk centred on `(x, y)`.
pub open spec fn is_disk_extreme(
    mask: Seq<u8>,
    w: int,
    h: int,
    r: int,
    grow: bool,
    x: int,
    y: int,
    v: u8,
) -> bool {
    &&& forall|sx: int, sy: int|
        covers(w, h, r, x, y, sx, sy) ==> bounds(grow, v, #[trigger] at(mask, w, sx, sy))
    &&& exists|sx: int, sy: int|
        covers(w, h, r, x, y, sx, sy) && #[trigger] at(mask, w, sx, sy) == v
}

/// Whether `out` is `mask` filtered by the disk of radius `r`: each pixel of
/// `out` is the extreme sample of `mask` under the disk centred on it.
pub open spec fn is_disk_filter(
    mask: Seq<u8>,
    out: Seq<u8>,
    w: int,
    h: int,
    r: int,
    grow: bool,
) -> bool {
    &&& out.len() == w * h
    &&& forall|x: int, y: int|
        0 <= x < w && 0 <= y < h ==> is_disk_extreme(
            mask,
            w,
            h,
            r,
            grow,
            x,
            y,
            #[trigger] at(out, w, x, y),
        )
}

/// Whether `out` is the dilation of `mask` by the disk of radius `r`.
pub open spec fn is_dilation(mask: Seq<u8>, out: Seq<u8>, w: int, h: int, r: int) -> bool {
    is_disk_filter(mask, out, w, h, r, true)
}

/// Whether `out` is the erosion of `mask` by the disk of radius `r`.
pub open spec fn is_erosion(mask: Seq<u8>, out: Seq<u8>, w: int, h: int, r: int) -> bool {
    is_disk_filter(mask, out, w, h, r, false)
}

/// An offset in the disk of radius `r` is at most `r` away along each axis.
pub proof fn lemma_disk_extent(dx: int, dy: int, r: int)
    requires
        0 <= r,
        in_disk(dx, dy, r),
    ensures
        -r <= dx <= r,
        -r <= dy <= r,
{
    assert(-r <= dx <= r && -r <= dy <= r) by (nonlinear_arith)
        requires
            0 <= r,
            dx * dx + dy * dy <= r * r,
    ;
}

/// The disk is symmetric: an offset lies in it exactly when the opposite
/// offset does.
pub proof fn lemma_disk_symmetric(dx: int, dy: int, r: int)
    ensures
        in_disk(dx, dy, r) == in_disk(-dx, -dy, r),
{
    assert(dx * dx == (-dx) * (-dx)) by (nonlinear_arith);
    assert(dy * dy == (-dy) * (-dy)) by (nonlinear_arith);
}

/// Tells whether the offset from `(b, d)` to `(a, c)` lies in the disk of
/// radius `r`.
fn offset_in_disk(a: usize, b: usize, c: usize, d: usize, r: u32) -> (inside: bool)
    requires
        a <= u32::MAX,
        b <= u32::MAX,
        c <= u32::MAX,
        d <= u32::MAX,
    ensures
        inside == in_disk(a - b, c - d, r as int),
{
    let dx: u64 = if a >= b {
        (a - b) as u64
    } else {
        (b - a) as u64
    };
    let dy: u64 = if c >= d {
        (c - d) as u64
    } else {
        (d - c) as u64
    };
    let reach: u64 = r as u64;
    proof {
        assert(dx * dx <= 0xFFFF_FFFF * 0xFFFF_FFFF) by (nonlinear_arith)
            requires
                dx <= 0xFFFF_FFFF,
        ;
        assert(dy * dy <= 0xFFFF_FFFF * 0xFFFF_FFFF) by (nonlinear_arith)
            requires
                dy <= 0xFFFF_FFFF,
        ;
        assert(reach * reach <= 0xFFFF_FFFF * 0xFFFF_FFFF) by (nonlinear_arith)
            requires
                reach <= 0xFFFF_FFFF,
        ;
        assert(dx * dx == (a - b) * (a - b)) by (nonlinear_arith)
            requires
                dx == a - b || dx == b - a,
        ;
        assert(dy * dy == (c - d) * (c - d)) by (nonlinear_arith)
            requires
                dy == c - d || dy == d - c,
        ;
    }
    let lhs: u128 = (dx * dx) as u128 + (dy * dy) as u128;
    let rhs: u128 = (reach * reach) as u128;
    lhs <= rhs
}

/// Finds the largest (when growing) or smallest (when shrinking) sample of
/// `mask` under the disk of radius `r` centred on `(x, y)`.
fn disk_extreme(mask: &[u8], w: usize, h: usize, r: u32, grow: bool, x: usize, y: usize) -> (v: u8)
    requires
        0 < w <= u32::MAX,
        0 < h <= u32::MAX,
        mask@.len() == w * h,
        w * h <= usize::MAX,
        x < w,
        y < h,
    ensures
        is_disk_extreme(mask@, w as int, h as int, r as int, grow, x as int, y as int, v),
{
    let reach: usize = r as usize;
    let y_lo: usize = if y > reach {
        y - reach
    } else {
        0
    };
    let y_hi: usize = if reach < h - 1 - y {
        y + reach
    } else {
        h - 1
    };
    let x_lo: usize = if x > reach {
        x - reach
    } else {
        0
    };
    let x_hi: usize = if reach < w - 1 - x {
        x + reach
    } else {
        w - 1
    };
    proof {
        lemma_index_in_raster(x as int, y as int, w as int, h as int);
    }
    let mut best: u8 = mask[y * w + x];
    let ghost mut bx: int = x as int;
    let ghost mut by: int = y as int;
    let mut sy: usize = y_lo;
    assert forall|cx: int, cy: int|
        covers(w as int, h as int, r as int, x as int, y as int, cx, cy) && cy < sy implies bounds(
        grow,
        best,
        #[trigger] at(mask@, w as int, cx, cy),
    ) by {
        lemma_disk_extent(cx - x, cy - y, r as int);
    }
    while sy <= y_hi
        invariant
            0 < w <= u32::MAX,
            0 < h <= u32::MAX,
            mask@.len() == w * h,
            w * h <= usize::MAX,
            x < w,
            y < h,
            reach == r,
            y_lo == if y > reach { y - reach } else { 0 },
            y_hi == if reach < h - 1 - y { y + reach } else { h - 1 },
            x_lo == if x > reach { x - reach } else { 0 },
            x_hi == if reach < w - 1 - x { x + reach } else { w - 1 },
            y_lo <= sy <= y_hi + 1,
            covers(w as int, h as int, r as int, x as int, y as int, bx, by),
            at(mask@, w as int, bx, by) == best,
            forall|cx: int, cy: int|
                covers(w as int, h as int, r as int, x as int, y as int, cx, cy) && cy < sy
                    ==> bounds(grow, best, #[trigger] at(mask@, w as int, cx, cy)),
        decreases y_hi + 1 - sy,
    {
        let mut sx: usize = x_lo;
        assert forall|cx: int, cy: int|
            covers(w as int, h as int, r as int, x as int, y as int, cx, cy) && (cy < sy || (cy
                == sy && cx < sx)) implies bounds(
            grow,
            best,
            #[trigger] at(mask@, w as int, cx, cy),
        ) by {
            lemma_disk_extent(cx - x, cy - y, r as int);
        }
        while sx <= x_hi
            invariant
                0 < w <= u32::MAX,
                0 < h <= u32::MAX,
                mask@.len() == w * h,
                w * h <= usize::MAX,
                x < w,
                y < h,
                reach == r,
                x_lo == if x > reach { x - reach } else { 0 },
                x_hi == if reach < w - 1 - x { x + reach } else { w - 1 },
                y_hi == if reach < h - 1 - y { y + reach } else { h - 1 },
                sy <= y_hi,
                x_lo <= sx <= x_hi + 1,
                covers(w as int, h as int, r as int, x as int, y as int, bx, by),
                at(mask@, w as int, bx, by) == best,
                forall|cx: int, cy: int|
                    covers(w as int, h as int, r as int, x as int, y as int, cx, cy) && (cy < sy
                        || (cy == sy && cx < sx)) ==> bounds(
                        grow,
                        best,
                        #[trigger] at(mask@, w as int, cx, cy),
                    ),
            decreases x_hi + 1 - sx,
        {
            if offset_in_disk(sx, x, sy, y, r) {
                proof {
                    lemma_index_in_raster(sx as int, sy as int, w as int, h as int);
                }
                let s: u8 = mask[sy * w + sx];
                if (grow && s > best) || (!grow && s < best) {
                    best = s;
                    proof {
                        bx = sx as int;
                        by = sy as int;
                    }
                }
            }
            sx += 1;
        }
        assert forall|cx: int, cy: int|
            covers(w as int, h as int, r as int, x as int, y as int, cx, cy) && cy < sy
                + 1 implies bounds(grow, best, #[trigger] at(mask@, w as int, cx, cy)) by {
            lemma_disk_extent(cx - x, cy - y, r as int);
        }
        sy += 1;
    }
    assert forall|cx: int, cy: int|
        covers(w as int, h as int, r as int, x as int, y as int, cx, cy) implies bounds(
        grow,
        best,
        #[trigger] at(mask@, w as int, cx, cy),
    ) by {
        lemma_disk_extent(cx - x, cy - y, r as int);
    }
    best
}

/// Filters `mask` by the disk of radius `radius`, taking the largest sample
/// under the disk when growing and the smallest when shrinking.
fn disk_filter(mask: &[u8], width: u32, height: u32, radius: u32, grow: bool) -> (result: Result<
    Vec<u8>,
    KernelError,
>)
    ensures
        match result {
            Ok(out) => rejection(mask@.len() as int, width as int, height as int, 1) is None
                && is_disk_filter(
                mask@,
                out@,
                width as int,
                height as int,
                radius as int,
                grow,
            ),
            Err(e) => rejection(mask@.len() as int, width as int, height as int, 1) == Some(e),
        },
{
    let n: usize = match checked_pixels(mask.len(), width, height, 1) {
        Ok(n) => n,
        Err(e) => {
            return Err(e);
        },
    };
    let w: usize = width as usize;
    let h: usize = height as usize;
    let mut out: Vec<u8> = Vec::with_capacity(n);
    let mut y: usize = 0;
    while y < h
        invariant
            0 < w <= u32::MAX,
            0 < h <= u32::MAX,
            w == width,
            h == height,
            mask@.len() == w * h,
            w * h <= usize::MAX,
            y <= h,
            out@.len() == y * w,
            forall|px: int, py: int|
                0 <= px < w && 0 <= py < y ==> is_disk_extreme(
                    mask@,
                    w as int,
                    h as int,
                    radius as int,
                    grow,
                    px,
                    py,
                    #[trigger] at(out@, w as int, px, py),
                ),
        decreases h - y,
    {
        let mut x: usize = 0;
        while x < w
            invariant
                0 < w <= u32::MAX,
                0 < h <= u32::MAX,
                mask@.len() == w * h,
                w * h <= usize::MAX,
                y < h,
                x <= w,
                out@.len() == y * w + x,
                forall|px: int, py: int|
                    0 <= px < w && 0 <= py < y ==> is_disk_extreme(
                        mask@,
                        w as int,
                        h as int,
                        radius as int,
                        grow,
                        px,
                        py,
                        #[trigger] at(out@, w as int, px, py),
                    ),
                forall|px: int|
                    0 <= px < x ==> is_disk_extreme(
                        mask@,
                        w as int,
                        h as int,
                        radius as int,
                        grow,
                        px,
                        y as int,
                        #[trigger] at(out@, w as int, px, y as int),
                    ),
            decreases w - x,
        {
            let v: u8 = disk_extreme(mask, w, h, radius, grow, x, y);
            let ghost before = out@;
            out.push(v);
            proof {
                assert forall|px: int, py: int| 0 <= px < w && 0 <= py < y implies is_disk_extreme(
                    mask@,
                    w as int,
                    h as int,
                    radius as int,
                    grow,
                    px,
                    py,
                    #[trigger] at(out@, w as int, px, py),
                ) by {
                    lemma_index_in_raster(px, py, w as int, y as int);
                    assert(at(out@, w as int, px, py) == at(before, w as int, px, py));
                }
                assert forall|px: int| 0 <= px < x + 1 implies is_disk_extreme(
                    mask@,
                    w as int,
                    h as int,
                    radius as int,
                    grow,
                    px,
                    y as int,
                    #[trigger] at(out@, w as int, px, y as int),
                ) by {
                    if px < x {
                        assert(at(out@, w as int, px, y as int) == at(
                            before,
                            w as int,
                            px,
                            y as int,
                        ));
                    }
                }
            }
            x += 1;
        }
        proof {
            assert((y + 1) * w == y * w + w) by (nonlinear_arith);
        }
        y += 1;
    }
    proof {
        assert(h * w == w * h) by (nonlinear_arith);
    }
    Ok(out)
}

/// Dilates an alpha mask: each pixel becomes the largest sample under the
/// disk of radius `radius` centred on it.
///
/// Fails with `InvalidParameter` when a dimension is zero, and otherwise with
/// `MalformedInput` when the mask does not hold `width * height` bytes.
pub fn dilate_alpha(alpha_data: &[u8], width: u32, height: u32, radius: u32) -> (result: Result<
    Vec<u8>,
    KernelError,
>)
    ensures
        match result {
            Ok(out) => rejection(alpha_data@.len() as int, width as int, height as int, 1) is None
                && is_dilation(alpha_data@, out@, width as int, height as int, radius as int),
            Err(e) => rejection(alpha_data@.len() as int, width as int, height as int, 1) == Some(
                e,
            ),
        },
{
    disk_filter(alpha_data, width, height, radius, true)
}

/// Erodes an alpha mask: each pixel becomes the smallest sample under the
/// disk of radius `radius` centred on it.
///
/// Fails with `InvalidParameter` when a dimension is zero, and otherwise with
/// `MalformedInput` when the mask does not hold `width * height` bytes.
pub fn erode_alpha(alpha_data: &[u8], width: u32, height: u32, radius: u32) -> (result: Result<
    Vec<u8>,
    KernelError,
>)
    ensures
        match result {
            Ok(out) => rejection(alpha_data@.len() as int, width as int, height as int, 1) is None
                && is_erosion(alpha_data@, out@, width as int, height as int, radius as int),
            Err(e) => rejection(alpha_data@.len() as int, width as int, height as int, 1) == Some(
                e,
            ),
        },
{
    disk_filter(alpha_data, width, height, radius, false)
}

/// Closing is extensive: a mask that is dilated and then eroded by the same
/// disk is, pixel for pixel, at least the mask it started from.
pub proof fn lemma_closing_is_extensive(
    mask: Seq<u8>,
    dilated: Seq<u8>,
    closed: Seq<u8>,
    w: int,
    h: int,
    r: int,
)
    requires
        0 < w,
        0 < h,
        0 <= r,
        mask.len() == w * h,
        is_dilation(mask, dilated, w, h, r),
        is_erosion(dilated, closed, w, h, r),
    ensures
        closed.len() == mask.len(),
        forall|x: int, y: int|
            0 <= x < w && 0 <= y < h ==> #[trigger] at(closed, w, x, y) >= at(mask, w, x, y),
        forall|i: int| 0 <= i < mask.len() ==> #[trigger] closed[i] >= mask[i],
{
    assert forall|x: int, y: int| 0 <= x < w && 0 <= y < h implies #[trigger] at(closed, w, x, y)
        >= at(mask, w, x, y) by {
        let c = at(closed, w, x, y);
        assert(is_disk_extreme(dilated, w, h, r, false, x, y, c));
        let (qx, qy) = choose|qx: int, qy: int|
            covers(w, h, r, x, y, qx, qy) && #[trigger] at(dilated, w, qx, qy) == c;
        assert(is_disk_extreme(mask, w, h, r, true, qx, qy, at(dilated, w, qx, qy)));
        lemma_disk_symmetric(qx - x, qy - y, r);
        assert(covers(w, h, r, qx, qy, x, y));
        assert(bounds(true, at(dilated, w, qx, qy), at(mask, w, x, y)));
    }
    assert forall|i: int| 0 <= i < mask.len() implies #[trigger] closed[i] >= mask[i] by {
        lemma_index_split(i, w, h);
        assert(at(closed, w, i % w, i / w) >= at(mask, w, i % w, i / w));
    }
}

} // verus!
