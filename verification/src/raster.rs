//! Row-major rasters: how pixels are addressed and how a buffer is held to
//! its stated dimensions.

use vstd::prelude::*;
use vstd::arithmetic::div_mod::{
    lemma_div_pos_is_pos,
    lemma_fundamental_div_mod,
    lemma_mod_pos_bound,
};
use crate::error::KernelError;

verus! {

/// The sample of the single-channel raster `s`, `w` pixels wide, at column
/// `x` of row `y`.
pub open spec fn at(s: Seq<u8>, w: int, x: int, y: int) -> u8 {
    s[y * w + x]
}

/// The verdict on a buffer of `len` bytes offered as a raster of `w` by `h`
/// pixels with `channels` bytes each: a zero dimension is an invalid
/// parameter, any other mismatch of the length is malformed input.
pub open spec fn rejection(len: int, w: int, h: int, channels: int) -> Option<KernelError> {
    if w == 0 || h == 0 {
        Some(KernelError::InvalidParameter)
    } else if len != w * h * channels {
        Some(KernelError::MalformedInput)
    } else {
        None
    }
}

/// A pixel inside a `w` by `h` raster has its row-major index inside the
/// raster too.
pub proof fn lemma_index_in_raster(x: int, y: int, w: int, h: int)
    requires
        0 <= x < w,
        0 <= y < h,
    ensures
        0 <= y * w <= y * w + x < w * h,
        y * w + x < (y + 1) * w,
        (y + 1) * w <= w * h,
        w * h == h * w,
{
    assert(0 <= y * w) by (nonlinear_arith)
        requires
            0 <= y,
            0 <= w,
    ;
    assert((y + 1) * w == y * w + w) by (nonlinear_arith);
    assert((y + 1) * w <= h * w) by (nonlinear_arith)
        requires
            y + 1 <= h,
            0 <= w,
    ;
    assert(h * w == w * h) by (nonlinear_arith);
}

/// Holds a buffer of `len` bytes to the dimensions it is offered with and
/// returns its number of pixels.
pub(crate) fn checked_pixels(len: usize, width: u32, height: u32, channels: u8) -> (r: Result<
    usize,
    KernelError,
>)
    requires
        channels == 1 || channels == 4,
    ensures
        match r {
            Ok(n) => rejection(len as int, width as int, height as int, channels as int) is None
                && n == width * height,
            Err(e) => rejection(len as int, width as int, height as int, channels as int) == Some(
                e,
            ),
        },
{
    if width == 0 || height == 0 {
        return Err(KernelError::InvalidParameter);
    }
    let w: u128 = width as u128;
    let h: u128 = height as u128;
    let c: u128 = channels as u128;
    assert(w * h <= 0xFFFF_FFFF * 0xFFFF_FFFF) by (nonlinear_arith)
        requires
            w <= 0xFFFF_FFFF,
            h <= 0xFFFF_FFFF,
    ;
    let pixels: u128 = w * h;
    assert(pixels * c <= 0xFFFF_FFFF * 0xFFFF_FFFF * 4) by (nonlinear_arith)
        requires
            pixels <= 0xFFFF_FFFF * 0xFFFF_FFFF,
            c <= 4,
    ;
    let bytes: u128 = pixels * c;
    if bytes != len as u128 {
        return Err(KernelError::MalformedInput);
    }
    assert(pixels <= bytes) by (nonlinear_arith)
        requires
            bytes == pixels * c,
            c >= 1,
            pixels >= 0,
    ;
    Ok(pixels as usize)
}

/// Splits the row-major index `i` of a `w` by `h` raster into its column and
/// its row.
pub(crate) fn coords(i: usize, w: usize, h: usize) -> (p: (usize, usize))
    requires
        0 < w,
        i < w * h,
    ensures
        p.0 == i % w,
        p.1 == i / w,
        p.0 < w,
        p.1 < h,
        p.1 * w + p.0 == i,
{
    proof {
        lemma_index_split(i as int, w as int, h as int);
    }
    (i % w, i / w)
}

/// The column `i % w` and the row `i / w` of an index inside a `w` by `h`
/// raster lie inside the raster and give the index back.
pub proof fn lemma_index_split(i: int, w: int, h: int)
    requires
        0 < w,
        0 <= i < w * h,
    ensures
        0 <= i % w < w,
        0 <= i / w < h,
        (i / w) * w + i % w == i,
{
    lemma_fundamental_div_mod(i, w);
    lemma_mod_pos_bound(i, w);
    lemma_div_pos_is_pos(i, w);
    let q = i / w;
    assert(w * q == q * w) by (nonlinear_arith);
    if q >= h {
        assert(q * w >= h * w) by (nonlinear_arith)
            requires
                q >= h,
                w > 0,
        ;
        assert(h * w == w * h) by (nonlinear_arith);
    }
}

} // verus!
