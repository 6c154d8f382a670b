//! Mip pyramids of RGBA images.
//!
//! Each level halves the one before it: a pixel of the new level stands for
//! a block of two by two pixels of the old. Its alpha is the mean of theirs.
//! Its colours are blended from theirs by a function that the caller hands
//! in, so that the blend can happen in whatever colour space the caller
//! works in; the pyramid says which samples go into each blend and where
//! the result goes.

use vstd::prelude::*;
use vstd::arithmetic::power2::{lemma2_to64, lemma_pow2_unfold, pow2};
use vstd::slice::slice_to_vec;
use crate::error::KernelError;
use crate::raster::{checked_pixels, coords, lemma_index_in_raster, lemma_index_split, rejection};

verus! {

/// One level of a mip pyramid.
pub struct MipmapLevel {
    data: Vec<u8>,
    width: u32,
    height: u32,
}

impl MipmapLevel {
    /// The RGBA bytes of the level.
    pub closed spec fn pixels(&self) -> Seq<u8> {
        self.data@
    }

    /// The width of the level in pixels.
    pub closed spec fn columns(&self) -> int {
        self.width as int
    }

    /// The height of the level in pixels.
    pub closed spec fn rows(&self) -> int {
        self.height as int
    }

    /// A copy of the level's RGBA bytes.
    pub fn data(&self) -> (bytes: Vec<u8>)
        ensures
            bytes@ == self.pixels(),
    {
        slice_to_vec(self.data.as_slice())
    }

    /// The level's width in pixels.
    pub fn width(&self) -> (w: u32)
        ensures
            w == self.columns(),
    {
        self.width
    }

    /// The level's height in pixels.
    pub fn height(&self) -> (h: u32)
        ensures
            h == self.rows(),
    {
        self.height
    }
}

/// How often `size` can be doubled without exceeding `limit`.
pub open spec fn doublings(size: int, limit: int) -> int
    decreases limit - size,
{
    if size <= 0 || 2 * size > limit {
        0
    } else {
        1 + doublings(2 * size, limit)
    }
}

/// The number of doublings is the logarithm to base 2 of `limit / size`,
/// rounded down: `size` times 2 to that power is at most `limit`, and once
/// more doubled it is above.
pub proof fn lemma_doublings_is_log2(size: int, limit: int)
    requires
        0 < size <= limit,
    ensures
        doublings(size, limit) >= 0,
        size * pow2(doublings(size, limit) as nat) <= limit,
        limit < size * pow2((doublings(size, limit) + 1) as nat),
    decreases limit - size,
{
    lemma2_to64();
    if 2 * size > limit {
        assert(size * 1 == size && size * 2 == 2 * size);
    } else {
        lemma_doublings_is_log2(2 * size, limit);
        let k = doublings(2 * size, limit);
        lemma_pow2_unfold((k + 1) as nat);
        lemma_pow2_unfold((k + 2) as nat);
        assert(2 * size * pow2(k as nat) == size * (2 * pow2(k as nat))) by (nonlinear_arith);
        assert(2 * size * pow2((k + 1) as nat) == size * (2 * pow2((k + 1) as nat)))
            by (nonlinear_arith);
    }
}

/// The level to sample for an output of `output_size` from a source of
/// `source_size` with `mipmap_count` levels.
///
/// An output at least as large as the source takes level 0. A smaller one
/// takes the level whose number is the logarithm to base 2 of the ratio of
/// source to output, rounded down, and the last level if there is none with
/// that number. An output of size zero takes the last level.
pub open spec fn selected_level(output_size: int, source_size: int, mipmap_count: int) -> int {
    if output_size >= source_size {
        0
    } else if output_size == 0 || doublings(output_size, source_size) > mipmap_count - 1 {
        mipmap_count - 1
    } else {
        doublings(output_size, source_size)
    }
}

/// Selects the mip level for a given output size.
pub fn select_mipmap_level(output_size: u32, source_size: u32, mipmap_count: u32) -> (level: u32)
    requires
        output_size >= source_size || mipmap_count >= 1,
    ensures
        level == selected_level(output_size as int, source_size as int, mipmap_count as int),
{
    if output_size >= source_size {
        return 0;
    }
    let last: u32 = mipmap_count - 1;
    if output_size == 0 {
        return last;
    }
    let limit: u64 = source_size as u64;
    let mut size: u64 = output_size as u64;
    let mut level: u32 = 0;
    while 2 * size <= limit
        invariant
            limit == source_size,
            0 < size <= limit,
            level < size,
            doublings(output_size as int, source_size as int) == level + doublings(
                size as int,
                limit as int,
            ),
        decreases limit - size,
    {
        size = 2 * size;
        level = level + 1;
    }
    if level > last {
        last
    } else {
        level
    }
}

/// Half of a dimension, but at least 1.
pub open spec fn half(d: int) -> int {
    if d / 2 >= 1 {
        d / 2
    } else {
        1
    }
}

/// Channel `c` of the source pixel that lies `(dx, dy)` into the block of
/// the destination pixel `(x, y)`, for a source `sw` pixels wide.
///
/// A pixel whose row-major index falls outside the buffer gives 0 on every
/// channel: it adds nothing to a sum, while the sum is still divided by 4.
pub open spec fn tap(src: Seq<u8>, sw: int, x: int, y: int, dx: int, dy: int, c: int) -> u8 {
    let p = (2 * y + dy) * sw + (2 * x + dx);
    if 4 * p + 3 < src.len() {
        src[4 * p + c]
    } else {
        0
    }
}

/// The mean of the four taps of channel `c`, rounded to the nearest whole
/// number, half-way cases up.
pub open spec fn tap_mean(src: Seq<u8>, sw: int, x: int, y: int, c: int) -> int {
    (tap(src, sw, x, y, 0, 0, c) + tap(src, sw, x, y, 1, 0, c) + tap(src, sw, x, y, 0, 1, c)
        + tap(src, sw, x, y, 1, 1, c) + 2) / 4
}

/// Whether `v` is what `blend` may give for the four taps of channel `c`,
/// taken row by row.
pub open spec fn is_blend<F: Fn(u8, u8, u8, u8) -> u8>(
    blend: F,
    src: Seq<u8>,
    sw: int,
    x: int,
    y: int,
    c: int,
    v: u8,
) -> bool {
    call_ensures(
        blend,
        (
            tap(src, sw, x, y, 0, 0, c),
            tap(src, sw, x, y, 1, 0, c),
            tap(src, sw, x, y, 0, 1, c),
            tap(src, sw, x, y, 1, 1, c),
        ),
        v,
    )
}

/// Whether pixel `j` of `out`, `dw` pixels wide, stands for its block of
/// `src`: red, green and blue are blends of the block's, alpha is the mean
/// of the block's.
pub open spec fn is_block_pixel<F: Fn(u8, u8, u8, u8) -> u8>(
    blend: F,
    src: Seq<u8>,
    sw: int,
    dw: int,
    out: Seq<u8>,
    j: int,
) -> bool {
    let x = j % dw;
    let y = j / dw;
    &&& is_blend(blend, src, sw, x, y, 0, out[4 * j])
    &&& is_blend(blend, src, sw, x, y, 1, out[4 * j + 1])
    &&& is_blend(blend, src, sw, x, y, 2, out[4 * j + 2])
    &&& out[4 * j + 3] == tap_mean(src, sw, x, y, 3)
}

/// Whether `out` is `src`, an image of `sw` by `sh` pixels, at half the
/// size.
pub open spec fn is_downsampled<F: Fn(u8, u8, u8, u8) -> u8>(
    blend: F,
    src: Seq<u8>,
    sw: int,
    sh: int,
    out: Seq<u8>,
) -> bool {
    &&& out.len() == 4 * (half(sw) * half(sh))
    &&& forall|j: int|
        0 <= j < half(sw) * half(sh) ==> #[trigger] is_block_pixel(blend, src, sw, half(sw), out, j)
}

/// Halves a dimension, but not below 1.
fn halve(d: usize) -> (r: usize)
    requires
        d >= 1,
    ensures
        r == half(d as int),
        1 <= r <= d,
{
    if d / 2 >= 1 {
        d / 2
    } else {
        1
    }
}

/// Reads channel `c` of the source pixel `(dx, dy)` into the block of
/// `(x, y)`.
fn read_tap(src: &[u8], sw: usize, x: usize, y: usize, dx: u8, dy: u8, c: u8) -> (v: u8)
    requires
        sw <= u32::MAX,
        x <= u32::MAX,
        y <= u32::MAX,
        dx <= 1,
        dy <= 1,
        c <= 3,
    ensures
        v == tap(src@, sw as int, x as int, y as int, dx as int, dy as int, c as int),
{
    let row: u128 = 2 * (y as u128) + dy as u128;
    let col: u128 = 2 * (x as u128) + dx as u128;
    assert(row * sw <= 0x1_FFFF_FFFF * 0xFFFF_FFFF) by (nonlinear_arith)
        requires
            row <= 0x1_FFFF_FFFF,
            sw <= 0xFFFF_FFFF,
    ;
    let p: u128 = row * (sw as u128) + col;
    if 4 * p + 3 < src.len() as u128 {
        src[(4 * p + c as u128) as usize]
    } else {
        0
    }
}

/// Blends channel `c` of the block of `(x, y)`.
fn blend_channel<F: Fn(u8, u8, u8, u8) -> u8>(
    blend: &F,
    src: &[u8],
    sw: usize,
    x: usize,
    y: usize,
    c: u8,
) -> (v: u8)
    requires
        forall|p: u8, q: u8, r: u8, s: u8| call_requires(*blend, (p, q, r, s)),
        sw <= u32::MAX,
        x <= u32::MAX,
        y <= u32::MAX,
        c <= 3,
    ensures
        is_blend(*blend, src@, sw as int, x as int, y as int, c as int, v),
{
    let p: u8 = read_tap(src, sw, x, y, 0, 0, c);
    let q: u8 = read_tap(src, sw, x, y, 1, 0, c);
    let r: u8 = read_tap(src, sw, x, y, 0, 1, c);
    let s: u8 = read_tap(src, sw, x, y, 1, 1, c);
    blend(p, q, r, s)
}

/// Averages the alpha of the block of `(x, y)`.
fn mean_alpha(src: &[u8], sw: usize, x: usize, y: usize) -> (v: u8)
    requires
        sw <= u32::MAX,
        x <= u32::MAX,
        y <= u32::MAX,
    ensures
        v == tap_mean(src@, sw as int, x as int, y as int, 3),
{
    let p: u16 = read_tap(src, sw, x, y, 0, 0, 3) as u16;
    let q: u16 = read_tap(src, sw, x, y, 1, 0, 3) as u16;
    let r: u16 = read_tap(src, sw, x, y, 0, 1, 3) as u16;
    let s: u16 = read_tap(src, sw, x, y, 1, 1, 3) as u16;
    ((p + q + r + s + 2) / 4) as u8
}

/// Halves an image whose buffer is known to fit its dimensions.
fn halve_image<F: Fn(u8, u8, u8, u8) -> u8>(src: &[u8], sw: usize, sh: usize, blend: &F) -> (out:
    Vec<u8>)
    requires
        forall|p: u8, q: u8, r: u8, s: u8| call_requires(*blend, (p, q, r, s)),
        0 < sw <= u32::MAX,
        0 < sh <= u32::MAX,
        src@.len() == sw * sh * 4,
        sw * sh * 4 <= usize::MAX,
    ensures
        is_downsampled(*blend, src@, sw as int, sh as int, out@),
        out@.len() == half(sw as int) * half(sh as int) * 4,
        out@.len() <= usize::MAX,
{
    let dw: usize = halve(sw);
    let dh: usize = halve(sh);
    proof {
        assert(dw * dh <= sw * sh) by (nonlinear_arith)
            requires
                0 <= dw <= sw,
                0 <= dh <= sh,
        ;
    }
    let n: usize = dw * dh;
    let mut out: Vec<u8> = Vec::with_capacity(4 * n);
    let mut j: usize = 0;
    while j < n
        invariant
            forall|p: u8, q: u8, r: u8, s: u8| call_requires(*blend, (p, q, r, s)),
            0 < sw <= u32::MAX,
            0 < dw <= u32::MAX,
            0 < dh <= u32::MAX,
            n == dw * dh,
            4 * n <= usize::MAX,
            j <= n,
            out@.len() == 4 * j,
            forall|i: int|
                0 <= i < j ==> #[trigger] is_block_pixel(
                    *blend,
                    src@,
                    sw as int,
                    dw as int,
                    out@,
                    i,
                ),
        decreases n - j,
    {
        let (x, y) = coords(j, dw, dh);
        let r: u8 = blend_channel(blend, src, sw, x, y, 0);
        let g: u8 = blend_channel(blend, src, sw, x, y, 1);
        let b: u8 = blend_channel(blend, src, sw, x, y, 2);
        let a: u8 = mean_alpha(src, sw, x, y);
        let ghost before = out@;
        out.push(r);
        out.push(g);
        out.push(b);
        out.push(a);
        proof {
            assert forall|i: int| 0 <= i < j + 1 implies #[trigger] is_block_pixel(
                *blend,
                src@,
                sw as int,
                dw as int,
                out@,
                i,
            ) by {
                if i < j {
                    assert(is_block_pixel(*blend, src@, sw as int, dw as int, before, i));
                    assert(out@[4 * i] == before[4 * i]);
                    assert(out@[4 * i + 1] == before[4 * i + 1]);
                    assert(out@[4 * i + 2] == before[4 * i + 2]);
                    assert(out@[4 * i + 3] == before[4 * i + 3]);
                }
            }
        }
        j += 1;
    }
    out
}

/// Halves an RGBA image by averaging blocks of two by two pixels.
///
/// The new image is half as wide and half as high, rounded down but never
/// less than one pixel. `blend` is handed the four samples of one colour
/// channel of a block, row by row, and gives the sample that stands for
/// them; alpha is averaged directly.
///
/// Fails with `InvalidParameter` when a dimension is zero, and otherwise with
/// `MalformedInput` when the image does not hold `4 * width * height` bytes.
pub fn downsample_2x<F: Fn(u8, u8, u8, u8) -> u8>(
    data: &[u8],
    width: u32,
    height: u32,
    blend: &F,
) -> (result: Result<Vec<u8>, KernelError>)
    requires
        forall|p: u8, q: u8, r: u8, s: u8| call_requires(*blend, (p, q, r, s)),
    ensures
        match result {
            Ok(out) => rejection(data@.len() as int, width as int, height as int, 4) is None
                && is_downsampled(*blend, data@, width as int, height as int, out@),
            Err(e) => rejection(data@.len() as int, width as int, height as int, 4) == Some(e),
        },
{
    match checked_pixels(data.len(), width, height, 4) {
        Ok(_) => Ok(halve_image(data, width as usize, height as usize, blend)),
        Err(e) => Err(e),
    }
}

/// Whether the level `next` is the level `prev` at half the size.
pub open spec fn follows<F: Fn(u8, u8, u8, u8) -> u8>(
    blend: F,
    prev: MipmapLevel,
    next: MipmapLevel,
) -> bool {
    &&& next.columns() == half(prev.columns())
    &&& next.rows() == half(prev.rows())
    &&& is_downsampled(blend, prev.pixels(), prev.columns(), prev.rows(), next.pixels())
}

/// Whether `levels` is the pyramid of the image: its first level is the
/// image itself, and each further level is the one before it at half the
/// size.
pub open spec fn is_pyramid<F: Fn(u8, u8, u8, u8) -> u8>(
    blend: F,
    image: Seq<u8>,
    w: int,
    h: int,
    levels: Seq<MipmapLevel>,
) -> bool {
    &&& levels.len() >= 1
    &&& levels[0].pixels() == image
    &&& levels[0].columns() == w
    &&& levels[0].rows() == h
    &&& forall|m: int|
        1 <= m < levels.len() ==> follows(blend, levels[m - 1], #[trigger] levels[m])
}

/// The verdict on the input of `generate_mipmaps`: a pyramid of no levels is
/// an invalid parameter, as is a zero dimension; an image of another length
/// than `4 * w * h` is malformed.
pub open spec fn pyramid_rejection(len: int, w: int, h: int, levels: int) -> Option<KernelError> {
    if levels == 0 {
        Some(KernelError::InvalidParameter)
    } else {
        rejection(len, w, h, 4)
    }
}

/// Builds the mip pyramid of an RGBA image, `levels` levels high.
///
/// Level 0 is the image, byte for byte. Each further level is the one
/// before it halved, as `downsample_2x` does with the same `blend`.
///
/// Fails with `InvalidParameter` when `levels` or a dimension is zero, and
/// otherwise with `MalformedInput` when the image does not hold
/// `4 * width * height` bytes.
pub fn generate_mipmaps<F: Fn(u8, u8, u8, u8) -> u8>(
    image_data: &[u8],
    width: u32,
    height: u32,
    levels: u32,
    blend: &F,
) -> (result: Result<Vec<MipmapLevel>, KernelError>)
    requires
        forall|p: u8, q: u8, r: u8, s: u8| call_requires(*blend, (p, q, r, s)),
    ensures
        match result {
            Ok(pyramid) => {
                &&& pyramid_rejection(
                    image_data@.len() as int,
                    width as int,
                    height as int,
                    levels as int,
                ) is None
                &&& pyramid@.len() == levels
                &&& is_pyramid(*blend, image_data@, width as int, height as int, pyramid@)
            },
            Err(e) => pyramid_rejection(
                image_data@.len() as int,
                width as int,
                height as int,
                levels as int,
            ) == Some(e),
        },
{
    if levels == 0 {
        return Err(KernelError::InvalidParameter);
    }
    match checked_pixels(image_data.len(), width, height, 4) {
        Ok(_) => {},
        Err(e) => {
            return Err(e);
        },
    }
    let mut pyramid: Vec<MipmapLevel> = Vec::new();
    pyramid.push(MipmapLevel { data: slice_to_vec(image_data), width, height });
    let mut k: u32 = 1;
    while k < levels
        invariant
            forall|p: u8, q: u8, r: u8, s: u8| call_requires(*blend, (p, q, r, s)),
            1 <= k <= levels,
            pyramid@.len() == k,
            is_pyramid(*blend, image_data@, width as int, height as int, pyramid@),
            forall|m: int|
                0 <= m < pyramid@.len() ==> {
                    &&& (#[trigger] pyramid@[m]).width >= 1
                    &&& pyramid@[m].height >= 1
                    &&& pyramid@[m].data@.len() == pyramid@[m].width * pyramid@[m].height * 4
                    &&& pyramid@[m].data@.len() <= usize::MAX
                },
        decreases levels - k,
    {
        let last: usize = pyramid.len() - 1;
        let w: usize = pyramid[last].width as usize;
        let h: usize = pyramid[last].height as usize;
        let data: Vec<u8> = halve_image(pyramid[last].data.as_slice(), w, h, blend);
        let next = MipmapLevel { data, width: halve(w) as u32, height: halve(h) as u32 };
        let ghost before = pyramid@;
        pyramid.push(next);
        proof {
            assert forall|m: int| 1 <= m < pyramid@.len() implies follows(
                *blend,
                pyramid@[m - 1],
                #[trigger] pyramid@[m],
            ) by {
                if m < before.len() {
                    assert(follows(*blend, before[m - 1], before[m]));
                }
            }
        }
        k += 1;
    }
    Ok(pyramid)
}

/// Channel `c` of the colour `(r, g, b, a)`.
pub open spec fn component(c: int, r: u8, g: u8, b: u8, a: u8) -> u8 {
    if c == 0 {
        r
    } else if c == 1 {
        g
    } else if c == 2 {
        b
    } else {
        a
    }
}

/// Whether every pixel of the RGBA image is `(r, g, b, a)`.
pub open spec fn is_solid(image: Seq<u8>, r: u8, g: u8, b: u8, a: u8) -> bool {
    forall|i: int| 0 <= i < image.len() ==> #[trigger] image[i] == component(i % 4, r, g, b, a)
}

/// Whether `blend` gives, for four equal samples, that sample or one next
/// to it.
pub open spec fn keeps_level<F: Fn(u8, u8, u8, u8) -> u8>(blend: F) -> bool {
    forall|v: u8, res: u8| #[trigger] call_ensures(blend, (v, v, v, v), res) ==> v - 1 <= res <= v + 1
}

/// Whether pixel `j` of the RGBA image has the alpha `a` and, within 1 on
/// each channel, the colour `(r, g, b)`.
pub open spec fn is_near(image: Seq<u8>, j: int, r: u8, g: u8, b: u8, a: u8) -> bool {
    &&& r - 1 <= image[4 * j] <= r + 1
    &&& g - 1 <= image[4 * j + 1] <= g + 1
    &&& b - 1 <= image[4 * j + 2] <= b + 1
    &&& image[4 * j + 3] == a
}

/// An image of one colour, at least two pixels wide and high, keeps that
/// colour when it is halved: alpha exactly, and red, green and blue as
/// nearly as the blend keeps four equal samples.
pub proof fn lemma_solid_image_stays_solid<F: Fn(u8, u8, u8, u8) -> u8>(
    blend: F,
    src: Seq<u8>,
    sw: int,
    sh: int,
    out: Seq<u8>,
    r: u8,
    g: u8,
    b: u8,
    a: u8,
)
    requires
        sw >= 2,
        sh >= 2,
        src.len() == 4 * (sw * sh),
        is_solid(src, r, g, b, a),
        keeps_level(blend),
        is_downsampled(blend, src, sw, sh, out),
    ensures
        out.len() == 4 * ((sw / 2) * (sh / 2)),
        forall|j: int| 0 <= j < (sw / 2) * (sh / 2) ==> #[trigger] is_near(out, j, r, g, b, a),
{
    let dw = half(sw);
    let dh = half(sh);
    assert forall|j: int| 0 <= j < dw * dh implies #[trigger] is_near(out, j, r, g, b, a) by {
        assert(is_block_pixel(blend, src, sw, dw, out, j));
        lemma_index_split(j, dw, dh);
        let x = j % dw;
        let y = j / dw;
        assert forall|dx: int, dy: int, c: int|
            0 <= dx <= 1 && 0 <= dy <= 1 && 0 <= c <= 3 implies #[trigger] tap(
            src,
            sw,
            x,
            y,
            dx,
            dy,
            c,
        ) == component(c, r, g, b, a) by {
            lemma_index_in_raster(2 * x + dx, 2 * y + dy, sw, sh);
            let p = (2 * y + dy) * sw + (2 * x + dx);
            assert(src[4 * p + c] == component((4 * p + c) % 4, r, g, b, a));
        }
        assert(is_blend(blend, src, sw, x, y, 0, out[4 * j]));
        assert(is_blend(blend, src, sw, x, y, 1, out[4 * j + 1]));
        assert(is_blend(blend, src, sw, x, y, 2, out[4 * j + 2]));
    }
}

/// The second level of the pyramid of an image of one colour, at least two
/// pixels wide and high, is half as wide and high and of that colour: alpha
/// exactly, and red, green and blue as nearly as the blend keeps four equal
/// samples.
pub proof fn lemma_solid_pyramid_stays_solid<F: Fn(u8, u8, u8, u8) -> u8>(
    blend: F,
    image: Seq<u8>,
    w: int,
    h: int,
    levels: Seq<MipmapLevel>,
    r: u8,
    g: u8,
    b: u8,
    a: u8,
)
    requires
        w >= 2,
        h >= 2,
        image.len() == 4 * (w * h),
        is_solid(image, r, g, b, a),
        keeps_level(blend),
        is_pyramid(blend, image, w, h, levels),
        levels.len() >= 2,
    ensures
        levels[1].columns() == w / 2,
        levels[1].rows() == h / 2,
        levels[1].pixels().len() == 4 * ((w / 2) * (h / 2)),
        forall|j: int|
            0 <= j < (w / 2) * (h / 2) ==> #[trigger] is_near(levels[1].pixels(), j, r, g, b, a),
{
    assert(follows(blend, levels[0], levels[1]));
    lemma_solid_image_stays_solid(blend, image, w, h, levels[1].pixels(), r, g, b, a);
}

} // verus!
