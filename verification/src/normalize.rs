//! Matte normalisation: smoothing the edges of the alpha plane,
//! premultiplying the colours by it, and locating the matte.
//!
//! Smoothing is a box blur along the rows and then along the columns, mixed
//! with the plane as it was by the softness. Near the border the window shrinks to
//! the samples that exist, and the mean is taken over those.

use vstd::prelude::*;
use vstd::slice::slice_to_vec;
use crate::centroid::{centroid_of, is_centroid, Centroid};
use crate::error::KernelError;
use crate::ratio::Ratio;
use crate::raster::{at, checked_pixels, coords, lemma_index_in_raster, rejection};

verus! {

/// The sample at position `k` of a line of the plane: of column `line` when
/// the line is vertical, of row `line` when it is not.
pub open spec fn line_at(plane: Seq<u8>, w: int, vertical: bool, line: int, k: int) -> u8 {
    if vertical {
        at(plane, w, line, k)
    } else {
        at(plane, w, k, line)
    }
}

/// The sum of the samples at the positions `lo..hi` of a line.
pub open spec fn line_sum(plane: Seq<u8>, w: int, vertical: bool, line: int, lo: int, hi: int) -> int
    decreases hi - lo,
{
    if hi <= lo {
        0
    } else {
        line_sum(plane, w, vertical, line, lo, hi - 1) + line_at(plane, w, vertical, line, hi - 1)
    }
}

/// The first position of the window of radius `r` around `pos`.
pub open spec fn window_lo(pos: int, r: int) -> int {
    if pos >= r {
        pos - r
    } else {
        0
    }
}

/// The last position of the window of radius `r` around `pos` on a line of
/// `len` samples.
pub open spec fn window_hi(pos: int, r: int, len: int) -> int {
    if pos + r < len {
        pos + r
    } else {
        len - 1
    }
}

/// The mean, rounded down, of the samples in the window of radius `r`
/// around the pixel `(x, y)` along its row or its column.
pub open spec fn blurred(plane: Seq<u8>, w: int, h: int, r: int, vertical: bool, x: int, y: int) -> int {
    let line = if vertical {
        x
    } else {
        y
    };
    let pos = if vertical {
        y
    } else {
        x
    };
    let len = if vertical {
        h
    } else {
        w
    };
    let lo = window_lo(pos, r);
    let hi = window_hi(pos, r, len);
    line_sum(plane, w, vertical, line, lo, hi + 1) / (hi + 1 - lo)
}

/// The plane after one pass of the box blur of radius `r`.
pub open spec fn box_blur(plane: Seq<u8>, w: int, h: int, r: int, vertical: bool) -> Seq<u8> {
    Seq::new((w * h) as nat, |i: int| blurred(plane, w, h, r, vertical, i % w, i / w) as u8)
}

/// The radius of the blur for a softness: twice the softness, rounded up.
pub open spec fn blur_radius(softness: Ratio) -> int {
    (2 * softness.num + softness.den - 1) / (softness.den as int)
}

/// The sample `a` mixed with the sample `b`: `b` weighs as much as the
/// softness and `a` the rest, and the result is rounded to the nearest whole
/// number, half-way cases up.
pub open spec fn mix(a: u8, b: u8, softness: Ratio) -> int {
    (2 * (a * (softness.den - softness.num) + b * softness.num) + softness.den) / (2
        * softness.den)
}

/// The plane with its edges smoothed by the softness. A softness of zero
/// leaves the plane as it is.
pub open spec fn smoothed(plane: Seq<u8>, w: int, h: int, softness: Ratio) -> Seq<u8> {
    if softness.num == 0 {
        plane
    } else {
        let r = blur_radius(softness);
        let soft = box_blur(box_blur(plane, w, h, r, false), w, h, r, true);
        Seq::new(plane.len(), |i: int| mix(plane[i], soft[i], softness) as u8)
    }
}

/// The sum of `hi - lo` samples of a line is at most 255 times as much.
proof fn lemma_line_sum_bound(plane: Seq<u8>, w: int, vertical: bool, line: int, lo: int, hi: int)
    requires
        lo <= hi,
    ensures
        0 <= line_sum(plane, w, vertical, line, lo, hi) <= 255 * (hi - lo),
    decreases hi - lo,
{
    if lo < hi {
        lemma_line_sum_bound(plane, w, vertical, line, lo, hi - 1);
    }
}

/// Blurs the plane once, along the rows or along the columns.
fn blur_pass(plane: &[u8], w: usize, h: usize, r: usize, vertical: bool) -> (out: Vec<u8>)
    requires
        0 < w <= u32::MAX,
        0 < h <= u32::MAX,
        w * h <= usize::MAX,
        plane@.len() == w * h,
    ensures
        out@ == box_blur(plane@, w as int, h as int, r as int, vertical),
{
    let n: usize = plane.len();
    let mut out: Vec<u8> = Vec::with_capacity(n);
    let mut i: usize = 0;
    while i < n
        invariant
            0 < w <= u32::MAX,
            0 < h <= u32::MAX,
            w * h <= usize::MAX,
            plane@.len() == w * h,
            n == w * h,
            i <= n,
            out@.len() == i,
            forall|j: int|
                0 <= j < i ==> #[trigger] out@[j] == box_blur(
                    plane@,
                    w as int,
                    h as int,
                    r as int,
                    vertical,
                )[j],
        decreases n - i,
    {
        let (x, y) = coords(i, w, h);
        let line: usize = if vertical {
            x
        } else {
            y
        };
        let pos: usize = if vertical {
            y
        } else {
            x
        };
        let len: usize = if vertical {
            h
        } else {
            w
        };
        let lo: usize = if pos >= r {
            pos - r
        } else {
            0
        };
        let hi: usize = if r < len - pos {
            pos + r
        } else {
            len - 1
        };
        let mut sum: u64 = 0;
        let mut k: usize = lo;
        while k <= hi
            invariant
                0 < w <= u32::MAX,
                0 < h <= u32::MAX,
                w * h <= usize::MAX,
                plane@.len() == w * h,
                line == if vertical { x } else { y },
                len == if vertical { h } else { w },
                x < w,
                y < h,
                lo <= k <= hi + 1,
                hi < len,
                sum == line_sum(plane@, w as int, vertical, line as int, lo as int, k as int),
                sum <= 255 * (k - lo),
            decreases hi + 1 - k,
        {
            let idx: usize = if vertical {
                proof {
                    lemma_index_in_raster(line as int, k as int, w as int, h as int);
                }
                k * w + line
            } else {
                proof {
                    lemma_index_in_raster(k as int, line as int, w as int, h as int);
                }
                line * w + k
            };
            sum = sum + plane[idx] as u64;
            k += 1;
        }
        let taken: u64 = (hi + 1 - lo) as u64;
        assert(sum / taken <= 255) by (nonlinear_arith)
            requires
                sum <= 255 * taken,
                taken > 0,
        ;
        out.push((sum / taken) as u8);
        i += 1;
    }
    assert(out@ =~= box_blur(plane@, w as int, h as int, r as int, vertical));
    out
}

/// Mixes the sample `a` with the sample `b` by the softness.
fn mix_samples(a: u8, b: u8, softness: Ratio) -> (m: u8)
    requires
        softness.is_unit(),
    ensures
        m == mix(a, b, softness),
{
    let num: u64 = softness.num as u64;
    let den: u64 = softness.den as u64;
    let rest: u64 = den - num;
    assert(a * rest + b * num <= 255 * den) by (nonlinear_arith)
        requires
            a <= 255,
            b <= 255,
            rest + num == den,
            0 <= rest,
            0 <= num,
    ;
    assert(0 <= a * rest <= 255 * den && 0 <= b * num <= 255 * den) by (nonlinear_arith)
        requires
            0 <= a <= 255,
            0 <= b <= 255,
            rest + num == den,
            0 <= rest,
            0 <= num,
    ;
    let weighted: u64 = (a as u64) * rest + (b as u64) * num;
    let twice: u64 = 2 * weighted + den;
    let double: u64 = 2 * den;
    assert(twice / double <= 255) by (nonlinear_arith)
        requires
            twice <= 511 * den,
            double == 2 * den,
            den > 0,
    ;
    (twice / double) as u8
}

/// Smooths the edges of an alpha plane by the softness.
fn smooth_alpha(alpha: &[u8], w: usize, h: usize, strength: Ratio) -> (out: Vec<u8>)
    requires
        0 < w <= u32::MAX,
        0 < h <= u32::MAX,
        w * h <= usize::MAX,
        alpha@.len() == w * h,
        strength.is_unit(),
    ensures
        out@ == smoothed(alpha@, w as int, h as int, strength),
{
    if strength.num == 0 {
        return slice_to_vec(alpha);
    }
    let num: u64 = strength.num as u64;
    let den: u64 = strength.den as u64;
    let numerator: u64 = 2 * num + den - 1;
    assert(numerator / den <= 2) by (nonlinear_arith)
        requires
            numerator < 3 * den,
            den > 0,
    ;
    let radius: usize = (numerator / den) as usize;
    let across: Vec<u8> = blur_pass(alpha, w, h, radius, false);
    let soft: Vec<u8> = blur_pass(across.as_slice(), w, h, radius, true);
    let n: usize = alpha.len();
    let mut out: Vec<u8> = Vec::with_capacity(n);
    let mut i: usize = 0;
    while i < n
        invariant
            n == alpha@.len(),
            soft@.len() == n,
            strength.is_unit(),
            i <= n,
            out@.len() == i,
            forall|j: int|
                0 <= j < i ==> #[trigger] out@[j] == mix(alpha@[j], soft@[j], strength) as u8,
        decreases n - i,
    {
        out.push(mix_samples(alpha[i], soft[i], strength));
        i += 1;
    }
    assert(out@ =~= smoothed(alpha@, w as int, h as int, strength));
    out
}

/// The alpha plane of an RGBA image: the fourth byte of each pixel.
pub open spec fn alpha_plane(rgba: Seq<u8>) -> Seq<u8> {
    Seq::new((rgba.len() / 4) as nat, |i: int| rgba[4 * i + 3])
}

/// A colour sample scaled by the alpha fraction `a / 255`, rounded towards
/// zero.
pub open spec fn premultiplied(c: u8, a: u8) -> int {
    (c * a) / 255
}

/// The image after normalisation. With a softness of zero it is the image
/// itself. Else the alpha plane is smoothed, and each colour sample is
/// premultiplied by the smoothed alpha of its pixel.
pub open spec fn normalized(rgba: Seq<u8>, w: int, h: int, softness: Ratio) -> Seq<u8> {
    if softness.num == 0 {
        rgba
    } else {
        let alpha = smoothed(alpha_plane(rgba), w, h, softness);
        Seq::new(
            rgba.len(),
            |j: int|
                if j % 4 == 3 {
                    alpha[j / 4]
                } else {
                    premultiplied(rgba[j], alpha[j / 4]) as u8
                },
        )
    }
}

/// The verdict on the input of `normalize_matte`: a softness outside the
/// unit interval is an invalid parameter, as is a zero dimension; an image
/// of another length than `4 * w * h` is malformed.
pub open spec fn matte_rejection(len: int, w: int, h: int, softness: Ratio) -> Option<KernelError> {
    if !softness.is_unit() {
        Some(KernelError::InvalidParameter)
    } else {
        rejection(len, w, h, 4)
    }
}

/// Scales a colour sample by the alpha fraction `a / 255`.
fn premultiply(c: u8, a: u8) -> (p: u8)
    ensures
        p == premultiplied(c, a),
{
    assert(c * a <= 255 * 255) by (nonlinear_arith)
        requires
            c <= 255,
            a <= 255,
    ;
    let product: u32 = (c as u32) * (a as u32);
    (product / 255) as u8
}

/// Normalises an RGBA matte in place and locates it.
///
/// With a softness above zero the alpha plane is smoothed and the colours
/// are premultiplied by the smoothed alpha; with a softness of zero the
/// image is left as it is. The centroid returned is that of the pixels whose
/// alpha is then at least 128.
///
/// Fails with `InvalidParameter` when the softness is not a fraction between
/// zero and one or a dimension is zero, and otherwise with `MalformedInput`
/// when the image does not hold `4 * width * height` bytes. An image that is
/// refused is not touched.
pub fn normalize_matte(
    image_data: &mut [u8],
    width: u32,
    height: u32,
    edge_softness: Ratio,
) -> (result: Result<Centroid, KernelError>)
    ensures
        match result {
            Ok(c) => {
                &&& matte_rejection(
                    old(image_data)@.len() as int,
                    width as int,
                    height as int,
                    edge_softness,
                ) is None
                &&& final(image_data)@ == normalized(
                    old(image_data)@,
                    width as int,
                    height as int,
                    edge_softness,
                )
                &&& is_centroid(
                    alpha_plane(final(image_data)@),
                    width as int,
                    height as int,
                    128,
                    c,
                )
            },
            Err(e) => {
                &&& matte_rejection(
                    old(image_data)@.len() as int,
                    width as int,
                    height as int,
                    edge_softness,
                ) == Some(e)
                &&& final(image_data)@ == old(image_data)@
            },
        },
{
    if edge_softness.den == 0 || edge_softness.num > edge_softness.den {
        return Err(KernelError::InvalidParameter);
    }
    let n: usize = match checked_pixels(image_data.len(), width, height, 4) {
        Ok(n) => n,
        Err(e) => {
            return Err(e);
        },
    };
    let w: usize = width as usize;
    let h: usize = height as usize;
    let ghost given = image_data@;
    let mut alpha: Vec<u8> = Vec::with_capacity(n);
    let mut i: usize = 0;
    while i < n
        invariant
            image_data@ == given,
            given.len() == 4 * n,
            4 * n <= usize::MAX,
            i <= n,
            alpha@.len() == i,
            forall|j: int| 0 <= j < i ==> #[trigger] alpha@[j] == given[4 * j + 3],
        decreases n - i,
    {
        alpha.push(image_data[4 * i + 3]);
        i += 1;
    }
    assert(alpha@ =~= alpha_plane(given));
    if edge_softness.num == 0 {
        return Ok(centroid_of(alpha.as_slice(), w, h, 128));
    }
    let smooth: Vec<u8> = smooth_alpha(alpha.as_slice(), w, h, edge_softness);
    let ghost target = normalized(given, w as int, h as int, edge_softness);
    let mut i: usize = 0;
    while i < n
        invariant
            given.len() == 4 * n,
            4 * n <= usize::MAX,
            image_data@.len() == 4 * n,
            smooth@.len() == n,
            smooth@ == smoothed(alpha_plane(given), w as int, h as int, edge_softness),
            edge_softness.num != 0,
            target == normalized(given, w as int, h as int, edge_softness),
            i <= n,
            forall|j: int| 0 <= j < 4 * i ==> #[trigger] image_data@[j] == target[j],
            forall|j: int| 4 * i <= j < 4 * n ==> #[trigger] image_data@[j] == given[j],
        decreases n - i,
    {
        let a: u8 = smooth[i];
        let base: usize = 4 * i;
        let r: u8 = premultiply(image_data[base], a);
        let g: u8 = premultiply(image_data[base + 1], a);
        let b: u8 = premultiply(image_data[base + 2], a);
        image_data[base] = r;
        image_data[base + 1] = g;
        image_data[base + 2] = b;
        image_data[base + 3] = a;
        i += 1;
    }
    assert(image_data@ =~= target);
    assert(alpha_plane(image_data@) =~= smooth@);
    Ok(centroid_of(smooth.as_slice(), w, h, 128))
}

} // verus!
