//! Signed distance fields by jump flooding.
//!
//! The pixels at which the mask changes between opaque and transparent are
//! the seeds. Jump flooding hands each pixel a nearby seed in a logarithmic
//! number of passes, and the distance to that seed, signed by the side of
//! the boundary the pixel lies on, is mapped to a byte around 128.
//!
//! Distances are compared by their squares, and the byte is rounded by
//! cross-multiplication, so every step is exact.

use vstd::prelude::*;
use crate::error::KernelError;
use crate::ratio::Ratio;
use crate::raster::{checked_pixels, lemma_index_in_raster, lemma_index_split, rejection};
use crate::sdf::flood::{
    dist_sq,
    distance_sq,
    first_step,
    initial_seeds,
    is_edge,
    is_opaque,
    jump_flood,
    lemma_flood_without_seeds,
    mark_seeds,
    rooted,
    seed_field,
};
use crate::sdf::quantize::{lemma_sdf_byte_saturated, quantize, sdf_byte};

pub mod flood;
pub mod quantize;

verus! {

/// The signed distance field of `mask` for the distance limit `num / den`.
pub open spec fn signed_distance_field(mask: Seq<u8>, w: int, h: int, num: int, den: int) -> Seq<
    u8,
> {
    let field = seed_field(mask, w, h);
    Seq::new(
        (w * h) as nat,
        |i: int|
            sdf_byte(
                match field[i] {
                    Some(k) => Some(dist_sq(w, i, k as int)),
                    None => None,
                },
                num,
                den,
                is_opaque(mask[i]),
            ) as u8,
    )
}

/// The verdict on the input of `generate_sdf`: a distance limit that is not
/// greater than zero is an invalid parameter, as is a zero dimension; a
/// mask of another length than `w * h` is malformed.
pub open spec fn sdf_rejection(len: int, w: int, h: int, max_distance: Ratio) -> Option<
    KernelError,
> {
    if !max_distance.is_positive() {
        Some(KernelError::InvalidParameter)
    } else {
        rejection(len, w, h, 1)
    }
}

/// Builds the signed distance field of an alpha mask.
///
/// A byte of 128 is on the boundary, a smaller one is inside the shape and a
/// larger one outside, each the further from 128 the further the pixel lies
/// from the nearest boundary pixel that flooding found, up to `max_distance`
/// pixels. Where the mask has no boundary at all, every pixel is as far away
/// as the limit.
///
/// Fails with `InvalidParameter` when `max_distance` is not greater than
/// zero or a dimension is zero, and otherwise with `MalformedInput` when the
/// mask does not hold `width * height` bytes.
pub fn generate_sdf(alpha_data: &[u8], width: u32, height: u32, max_distance: Ratio) -> (result:
    Result<Vec<u8>, KernelError>)
    ensures
        match result {
            Ok(sdf) => {
                &&& sdf_rejection(
                    alpha_data@.len() as int,
                    width as int,
                    height as int,
                    max_distance,
                ) is None
                &&& sdf@ == signed_distance_field(
                    alpha_data@,
                    width as int,
                    height as int,
                    max_distance.num as int,
                    max_distance.den as int,
                )
                &&& sdf@.len() == alpha_data@.len()
                &&& forall|i: int|
                    0 <= i < sdf@.len() ==> if is_opaque(alpha_data@[i]) {
                        1 <= #[trigger] sdf@[i] <= 128
                    } else {
                        128 <= sdf@[i]
                    }
            },
            Err(e) => sdf_rejection(
                alpha_data@.len() as int,
                width as int,
                height as int,
                max_distance,
            ) == Some(e),
        },
{
    if max_distance.num == 0 || max_distance.den == 0 {
        return Err(KernelError::InvalidParameter);
    }
    let n: usize = match checked_pixels(alpha_data.len(), width, height, 1) {
        Ok(n) => n,
        Err(e) => {
            return Err(e);
        },
    };
    let w: usize = width as usize;
    let h: usize = height as usize;
    let seeds: Vec<Option<usize>> = mark_seeds(alpha_data, w, h);
    let ghost start = seeds@;
    let field: Vec<Option<usize>> = jump_flood(seeds, w, h);
    let mut sdf: Vec<u8> = Vec::with_capacity(n);
    let mut i: usize = 0;
    while i < n
        invariant
            0 < w <= u32::MAX,
            0 < h <= u32::MAX,
            w == width,
            h == height,
            n == w * h,
            alpha_data@.len() == n,
            max_distance.is_positive(),
            field@ == seed_field(alpha_data@, w as int, h as int),
            start.len() == n,
            rooted(start, field@),
            i <= n,
            sdf@.len() == i,
            forall|j: int|
                0 <= j < i ==> #[trigger] sdf@[j] == signed_distance_field(
                    alpha_data@,
                    w as int,
                    h as int,
                    max_distance.num as int,
                    max_distance.den as int,
                )[j],
            forall|j: int|
                0 <= j < i ==> if is_opaque(alpha_data@[j]) {
                    1 <= #[trigger] sdf@[j] <= 128
                } else {
                    128 <= sdf@[j]
                },
        decreases n - i,
    {
        let d2: Option<u128> = match field[i] {
            Some(k) => Some(distance_sq(w, h, i, k)),
            None => None,
        };
        let b: u8 = quantize(d2, max_distance, alpha_data[i] > 127);
        sdf.push(b);
        i += 1;
    }
    assert(sdf@ =~= signed_distance_field(
        alpha_data@,
        w as int,
        h as int,
        max_distance.num as int,
        max_distance.den as int,
    ));
    Ok(sdf)
}

/// A mask that is opaque everywhere or nowhere has no boundary, so its
/// field is saturated: every byte is 1 where the mask is opaque and 255
/// where it is not, whatever the distance limit.
pub proof fn lemma_flat_mask_is_saturated(mask: Seq<u8>, w: int, h: int, num: int, den: int)
    requires
        0 < w,
        0 < h,
        mask.len() == w * h,
        num > 0,
        forall|i: int, j: int|
            0 <= i < mask.len() && 0 <= j < mask.len() ==> is_opaque(mask[i]) == is_opaque(
                mask[j],
            ),
    ensures
        signed_distance_field(mask, w, h, num, den).len() == mask.len(),
        forall|i: int|
            0 <= i < mask.len() ==> #[trigger] signed_distance_field(mask, w, h, num, den)[i]
                == if is_opaque(mask[i]) {
                1u8
            } else {
                255u8
            },
{
    let start = initial_seeds(mask, w, h);
    assert forall|p: int| 0 <= p < start.len() implies start[p] is None by {
        lemma_index_split(p, w, h);
        let x = p % w;
        let y = p / w;
        lemma_index_in_raster(x, y, w, h);
        if x >= 1 {
            lemma_index_in_raster(x - 1, y, w, h);
        }
        if x + 1 < w {
            lemma_index_in_raster(x + 1, y, w, h);
        }
        if y >= 1 {
            lemma_index_in_raster(x, y - 1, w, h);
        }
        if y + 1 < h {
            lemma_index_in_raster(x, y + 1, w, h);
        }
        assert(!is_edge(mask, w, h, x, y));
    }
    lemma_flood_without_seeds(start, w, h, first_step(w, h));
    assert forall|i: int| 0 <= i < mask.len() implies #[trigger] signed_distance_field(
        mask,
        w,
        h,
        num,
        den,
    )[i] == if is_opaque(mask[i]) {
        1u8
    } else {
        255u8
    } by {
        lemma_sdf_byte_saturated(None, num, den, is_opaque(mask[i]));
    }
}

} // verus!
