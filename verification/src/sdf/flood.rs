//! Seeds and their flooding.
//!
//! The seeds are the pixels at which the mask changes between opaque and
//! transparent. Flooding hands each pixel the seed of a pixel `step` away
//! if that seed is strictly nearer than the one it holds, for steps from
//! half the longer side down to 1. A pass works in place and in scan order,
//! so the outcome depends on that order, and the functions here follow it.

use vstd::prelude::*;
use crate::raster::{at, coords, lemma_index_in_raster};

verus! {

/// Whether a sample counts as opaque.
pub open spec fn is_opaque(a: u8) -> bool {
    a > 127
}

/// Whether the pixel `(x, y)` lies on the boundary: one of its four
/// neighbours inside the image is opaque where it is not, or the other way
/// round.
pub open spec fn is_edge(mask: Seq<u8>, w: int, h: int, x: int, y: int) -> bool {
    let here = is_opaque(at(mask, w, x, y));
    ||| (x >= 1 && is_opaque(at(mask, w, x - 1, y)) != here)
    ||| (x + 1 < w && is_opaque(at(mask, w, x + 1, y)) != here)
    ||| (y >= 1 && is_opaque(at(mask, w, x, y - 1)) != here)
    ||| (y + 1 < h && is_opaque(at(mask, w, x, y + 1)) != here)
}

/// The field before flooding: each boundary pixel is its own seed, and no
/// other pixel has one.
pub open spec fn initial_seeds(mask: Seq<u8>, w: int, h: int) -> Seq<Option<usize>> {
    Seq::new(
        (w * h) as nat,
        |i: int|
            if is_edge(mask, w, h, i % w, i / w) {
                Some(i as usize)
            } else {
                None
            },
    )
}

/// The squared distance between the pixels with indices `i` and `k`.
pub open spec fn dist_sq(w: int, i: int, k: int) -> int {
    (i % w - k % w) * (i % w - k % w) + (i / w - k / w) * (i / w - k / w)
}

/// The coordinate `v` moved by `step` in direction `dir`: back for 0, not at
/// all for 1, forth for 2.
pub open spec fn shifted(v: int, dir: int, step: int) -> int {
    if dir == 0 {
        v - step
    } else if dir == 1 {
        v
    } else {
        v + step
    }
}

/// The index of the `k`-th of the nine pixels at `step` around pixel `i`,
/// counted row by row from the top left, if it is in the image and is not
/// `i` itself.
pub open spec fn neighbour(w: int, h: int, step: int, i: int, k: int) -> Option<int> {
    let nx = shifted(i % w, k % 3, step);
    let ny = shifted(i / w, k / 3, step);
    if k != 4 && 0 <= nx < w && 0 <= ny < h {
        Some(ny * w + nx)
    } else {
        None
    }
}

/// Whether the seed `k` is strictly nearer to pixel `i` than the seed that
/// `i` holds; any seed is nearer than none.
pub open spec fn improves(s: Seq<Option<usize>>, w: int, i: int, k: int) -> bool {
    match s[i] {
        Some(c) => dist_sq(w, i, k) < dist_sq(w, i, c as int),
        None => true,
    }
}

/// Pixel `i` looks at pixel `j` and takes over its seed if that seed is
/// strictly nearer than its own.
pub open spec fn relax(s: Seq<Option<usize>>, w: int, i: int, j: int) -> Seq<Option<usize>> {
    match s[j] {
        Some(k) => if improves(s, w, i, k as int) {
            s.update(i, Some(k))
        } else {
            s
        },
        None => s,
    }
}

/// Pixel `i` looks at the first `k` of its nine neighbours in turn.
pub open spec fn visit(s: Seq<Option<usize>>, w: int, h: int, step: int, i: int, k: int) -> Seq<
    Option<usize>,
>
    decreases k,
{
    if k <= 0 {
        s
    } else {
        let before = visit(s, w, h, step, i, k - 1);
        match neighbour(w, h, step, i, k - 1) {
            Some(j) => relax(before, w, i, j),
            None => before,
        }
    }
}

/// One pass over the first `n` pixels in scan order. The field is updated in
/// place, so a pixel sees what the pixels before it took over in this pass.
pub open spec fn pass(s: Seq<Option<usize>>, w: int, h: int, step: int, n: int) -> Seq<
    Option<usize>,
>
    decreases n,
{
    if n <= 0 {
        s
    } else {
        visit(pass(s, w, h, step, n - 1), w, h, step, n - 1, 9)
    }
}

/// The passes at `step`, half of it, and so on down to 1.
pub open spec fn flood(s: Seq<Option<usize>>, w: int, h: int, step: int) -> Seq<Option<usize>>
    decreases step,
{
    if step < 1 {
        s
    } else {
        flood(pass(s, w, h, step, w * h), w, h, step / 2)
    }
}

/// The step of the first pass: half the longer side, but at least 1.
pub open spec fn first_step(w: int, h: int) -> int {
    let longer = if w >= h {
        w
    } else {
        h
    };
    if longer / 2 >= 1 {
        longer / 2
    } else {
        1
    }
}

/// The seed that each pixel of `mask` holds after flooding.
pub open spec fn seed_field(mask: Seq<u8>, w: int, h: int) -> Seq<Option<usize>> {
    flood(initial_seeds(mask, w, h), w, h, first_step(w, h))
}

/// Whether pixel `k` of the field `s` is its own seed.
pub open spec fn is_anchor(s: Seq<Option<usize>>, k: int) -> bool {
    0 <= k < s.len() && s[k] == Some(k as usize)
}

/// Whether the field `s` still stands on the seeds of the field `start`:
/// every pixel that was its own seed still is, and every seed that a pixel
/// holds is such a pixel.
pub open spec fn rooted(start: Seq<Option<usize>>, s: Seq<Option<usize>>) -> bool {
    &&& s.len() == start.len()
    &&& forall|p: int|
        0 <= p < s.len() ==> (is_anchor(start, p) ==> #[trigger] s[p] == Some(p as usize))
    &&& forall|p: int|
        0 <= p < s.len() ==> match #[trigger] s[p] {
            Some(k) => is_anchor(start, k as int),
            None => true,
        }
}

/// A pixel is at distance zero from itself and at no negative distance from
/// any other.
pub proof fn lemma_dist_sq_nonnegative(w: int, i: int, k: int)
    ensures
        dist_sq(w, i, k) >= 0,
        dist_sq(w, i, i) == 0,
{
    let dx = i % w - k % w;
    let dy = i / w - k / w;
    assert(dx * dx >= 0 && dy * dy >= 0) by (nonlinear_arith);
}

/// A neighbour is a pixel of the image.
proof fn lemma_neighbour_in_raster(w: int, h: int, step: int, i: int, k: int)
    requires
        0 < w,
    ensures
        match neighbour(w, h, step, i, k) {
            Some(j) => 0 <= j < w * h,
            None => true,
        },
{
    let nx = shifted(i % w, k % 3, step);
    let ny = shifted(i / w, k / 3, step);
    if k != 4 && 0 <= nx < w && 0 <= ny < h {
        lemma_index_in_raster(nx, ny, w, h);
    }
}

/// A look at a neighbour keeps the field on its seeds.
proof fn lemma_relax_rooted(start: Seq<Option<usize>>, s: Seq<Option<usize>>, w: int, i: int, j: int)
    requires
        rooted(start, s),
        s.len() <= usize::MAX,
        0 <= i < s.len(),
        0 <= j < s.len(),
    ensures
        rooted(start, relax(s, w, i, j)),
{
    match s[j] {
        Some(k) => {
            lemma_dist_sq_nonnegative(w, i, k as int);
        },
        None => {},
    }
}

/// A pixel's looks at its neighbours keep the field on its seeds.
proof fn lemma_visit_rooted(
    start: Seq<Option<usize>>,
    s: Seq<Option<usize>>,
    w: int,
    h: int,
    step: int,
    i: int,
    k: int,
)
    requires
        0 < w,
        s.len() == w * h,
        s.len() <= usize::MAX,
        rooted(start, s),
        0 <= i < s.len(),
    ensures
        rooted(start, visit(s, w, h, step, i, k)),
    decreases k,
{
    if k > 0 {
        lemma_visit_rooted(start, s, w, h, step, i, k - 1);
        lemma_neighbour_in_raster(w, h, step, i, k - 1);
        match neighbour(w, h, step, i, k - 1) {
            Some(j) => {
                lemma_relax_rooted(start, visit(s, w, h, step, i, k - 1), w, i, j);
            },
            None => {},
        }
    }
}

/// A pass keeps the field on its seeds.
proof fn lemma_pass_rooted(
    start: Seq<Option<usize>>,
    s: Seq<Option<usize>>,
    w: int,
    h: int,
    step: int,
    n: int,
)
    requires
        0 < w,
        s.len() == w * h,
        s.len() <= usize::MAX,
        rooted(start, s),
        n <= s.len(),
    ensures
        rooted(start, pass(s, w, h, step, n)),
    decreases n,
{
    if n > 0 {
        lemma_pass_rooted(start, s, w, h, step, n - 1);
        lemma_visit_rooted(start, pass(s, w, h, step, n - 1), w, h, step, n - 1, 9);
    }
}

/// Flooding keeps the field on its seeds.
proof fn lemma_flood_rooted(
    start: Seq<Option<usize>>,
    s: Seq<Option<usize>>,
    w: int,
    h: int,
    step: int,
)
    requires
        0 < w,
        s.len() == w * h,
        s.len() <= usize::MAX,
        rooted(start, s),
    ensures
        rooted(start, flood(s, w, h, step)),
    decreases step,
{
    if step >= 1 {
        lemma_pass_rooted(start, s, w, h, step, w * h);
        lemma_flood_rooted(start, pass(s, w, h, step, w * h), w, h, step / 2);
    }
}

/// The flooded field stands on the boundary: every boundary pixel is its own
/// seed, and so at distance zero, and the seed of any other pixel that has
/// one is a boundary pixel of the image.
pub proof fn lemma_seed_field_stands_on_boundary(mask: Seq<u8>, w: int, h: int)
    requires
        0 < w,
        0 < h,
        mask.len() == w * h,
        mask.len() <= usize::MAX,
    ensures
        seed_field(mask, w, h).len() == w * h,
        forall|p: int|
            0 <= p < w * h && is_edge(mask, w, h, p % w, p / w) ==> #[trigger] seed_field(
                mask,
                w,
                h,
            )[p] == Some(p as usize),
        forall|p: int|
            0 <= p < w * h ==> match #[trigger] seed_field(mask, w, h)[p] {
                Some(k) => 0 <= k < w * h && is_edge(mask, w, h, k as int % w, k as int / w),
                None => !is_edge(mask, w, h, p % w, p / w),
            },
{
    let start = initial_seeds(mask, w, h);
    assert(rooted(start, start));
    lemma_flood_rooted(start, start, w, h, first_step(w, h));
    let field = seed_field(mask, w, h);
    assert forall|p: int| 0 <= p < w * h implies match #[trigger] field[p] {
        Some(k) => 0 <= k < w * h && is_edge(mask, w, h, k as int % w, k as int / w),
        None => !is_edge(mask, w, h, p % w, p / w),
    } by {
        match field[p] {
            Some(k) => {
                assert(is_anchor(start, k as int));
            },
            None => {
                if is_edge(mask, w, h, p % w, p / w) {
                    assert(is_anchor(start, p));
                }
            },
        }
    }
}

/// A look at a neighbour changes nothing in a field without seeds.
proof fn lemma_visit_without_seeds(
    s: Seq<Option<usize>>,
    w: int,
    h: int,
    step: int,
    i: int,
    k: int,
)
    requires
        0 < w,
        s.len() == w * h,
        forall|p: int| 0 <= p < s.len() ==> s[p] is None,
    ensures
        visit(s, w, h, step, i, k) == s,
    decreases k,
{
    if k > 0 {
        lemma_visit_without_seeds(s, w, h, step, i, k - 1);
        lemma_neighbour_in_raster(w, h, step, i, k - 1);
    }
}

/// A pass changes nothing in a field without seeds.
proof fn lemma_pass_without_seeds(s: Seq<Option<usize>>, w: int, h: int, step: int, n: int)
    requires
        0 < w,
        s.len() == w * h,
        forall|p: int| 0 <= p < s.len() ==> s[p] is None,
    ensures
        pass(s, w, h, step, n) == s,
    decreases n,
{
    if n > 0 {
        lemma_pass_without_seeds(s, w, h, step, n - 1);
        lemma_visit_without_seeds(s, w, h, step, n - 1, 9);
    }
}

/// Flooding changes nothing in a field without seeds.
pub proof fn lemma_flood_without_seeds(s: Seq<Option<usize>>, w: int, h: int, step: int)
    requires
        0 < w,
        s.len() == w * h,
        forall|p: int| 0 <= p < s.len() ==> s[p] is None,
    ensures
        flood(s, w, h, step) == s,
    decreases step,
{
    if step >= 1 {
        lemma_pass_without_seeds(s, w, h, step, w * h);
        lemma_flood_without_seeds(s, w, h, step / 2);
    }
}

/// Tells whether the pixel `(x, y)` lies on the boundary.
fn is_edge_pixel(alpha: &[u8], w: usize, h: usize, x: usize, y: usize) -> (edge: bool)
    requires
        alpha@.len() == w * h,
        w * h <= usize::MAX,
        x < w,
        y < h,
    ensures
        edge == is_edge(alpha@, w as int, h as int, x as int, y as int),
{
    proof {
        lemma_index_in_raster(x as int, y as int, w as int, h as int);
    }
    let here: bool = alpha[y * w + x] > 127;
    if x >= 1 && (alpha[y * w + (x - 1)] > 127) != here {
        return true;
    }
    if x + 1 < w {
        proof {
            lemma_index_in_raster(x + 1, y as int, w as int, h as int);
        }
        if (alpha[y * w + (x + 1)] > 127) != here {
            return true;
        }
    }
    if y >= 1 {
        proof {
            lemma_index_in_raster(x as int, y - 1, w as int, h as int);
        }
        if (alpha[(y - 1) * w + x] > 127) != here {
            return true;
        }
    }
    if y + 1 < h {
        proof {
            lemma_index_in_raster(x as int, y + 1, w as int, h as int);
        }
        if (alpha[(y + 1) * w + x] > 127) != here {
            return true;
        }
    }
    false
}

/// Marks the boundary pixels as their own seeds.
pub(crate) fn mark_seeds(alpha: &[u8], w: usize, h: usize) -> (seeds: Vec<Option<usize>>)
    requires
        0 < w,
        alpha@.len() == w * h,
        w * h <= usize::MAX,
    ensures
        seeds@ == initial_seeds(alpha@, w as int, h as int),
        rooted(seeds@, seeds@),
{
    let n: usize = alpha.len();
    let mut seeds: Vec<Option<usize>> = Vec::with_capacity(n);
    let mut i: usize = 0;
    while i < n
        invariant
            0 < w,
            alpha@.len() == w * h,
            w * h <= usize::MAX,
            n == w * h,
            i <= n,
            seeds@.len() == i,
            forall|j: int|
                0 <= j < i ==> #[trigger] seeds@[j] == initial_seeds(
                    alpha@,
                    w as int,
                    h as int,
                )[j],
        decreases n - i,
    {
        let (x, y) = coords(i, w, h);
        let seed: Option<usize> = if is_edge_pixel(alpha, w, h, x, y) {
            Some(i)
        } else {
            None
        };
        seeds.push(seed);
        i += 1;
    }
    assert(seeds@ =~= initial_seeds(alpha@, w as int, h as int));
    seeds
}

/// Computes the squared distance between the pixels with indices `i` and
/// `k`.
pub(crate) fn distance_sq(w: usize, h: usize, i: usize, k: usize) -> (d: u128)
    requires
        0 < w <= u32::MAX,
        0 < h <= u32::MAX,
        i < w * h,
        k < w * h,
    ensures
        d == dist_sq(w as int, i as int, k as int),
{
    let (x1, y1) = coords(i, w, h);
    let (x2, y2) = coords(k, w, h);
    let dx: u64 = if x1 >= x2 {
        (x1 - x2) as u64
    } else {
        (x2 - x1) as u64
    };
    let dy: u64 = if y1 >= y2 {
        (y1 - y2) as u64
    } else {
        (y2 - y1) as u64
    };
    proof {
        assert(dx * dx <= 0xFFFF_FFFF * 0xFFFF_FFFF) by (nonlinear_arith)
            requires
                dx <= 0xFFFF_FFFF,
        ;
        assert(dy * dy <= 0xFFFF_FFFF * 0xFFFF_FFFF) by (nonlinear_arith)
            requires
                dy <= 0xFFFF_FFFF,
        ;
        assert(dx * dx == (x1 - x2) * (x1 - x2)) by (nonlinear_arith)
            requires
                dx == x1 - x2 || dx == x2 - x1,
        ;
        assert(dy * dy == (y1 - y2) * (y1 - y2)) by (nonlinear_arith)
            requires
                dy == y1 - y2 || dy == y2 - y1,
        ;
    }
    (dx * dx) as u128 + (dy * dy) as u128
}

/// Moves the coordinate `v` by `step` in direction `dir`, unless that leaves
/// `0..bound`.
fn shift(v: usize, dir: u8, step: usize, bound: usize) -> (r: Option<usize>)
    requires
        v < bound,
        dir < 3,
    ensures
        match r {
            Some(n) => n == shifted(v as int, dir as int, step as int) && n < bound,
            None => !(0 <= shifted(v as int, dir as int, step as int) < bound),
        },
{
    if dir == 0 {
        if v >= step {
            Some(v - step)
        } else {
            None
        }
    } else if dir == 1 {
        Some(v)
    } else {
        if step < bound - v {
            Some(v + step)
        } else {
            None
        }
    }
}

/// Finds the `k`-th of the nine pixels at `step` around pixel `i`.
fn neighbour_of(w: usize, h: usize, step: usize, i: usize, k: u8) -> (r: Option<usize>)
    requires
        0 < w,
        i < w * h,
        w * h <= usize::MAX,
        k < 9,
    ensures
        match r {
            Some(j) => neighbour(w as int, h as int, step as int, i as int, k as int) == Some(
                j as int,
            ) && j < w * h,
            None => neighbour(w as int, h as int, step as int, i as int, k as int) is None,
        },
{
    if k == 4 {
        return None;
    }
    let (x, y) = coords(i, w, h);
    match shift(x, k % 3, step, w) {
        Some(nx) => match shift(y, k / 3, step, h) {
            Some(ny) => {
                proof {
                    lemma_index_in_raster(nx as int, ny as int, w as int, h as int);
                }
                Some(ny * w + nx)
            },
            None => None,
        },
        None => None,
    }
}

/// Floods the field: passes at half the longer side, then half of that, and
/// so on down to 1, each in place and in scan order.
pub(crate) fn jump_flood(seeds: Vec<Option<usize>>, w: usize, h: usize) -> (field: Vec<Option<usize>>)
    requires
        0 < w <= u32::MAX,
        0 < h <= u32::MAX,
        w * h <= usize::MAX,
        seeds@.len() == w * h,
        rooted(seeds@, seeds@),
    ensures
        field@ == flood(seeds@, w as int, h as int, first_step(w as int, h as int)),
        rooted(seeds@, field@),
{
    let n: usize = seeds.len();
    let ghost start = seeds@;
    let mut s: Vec<Option<usize>> = seeds;
    let longer: usize = if w >= h {
        w
    } else {
        h
    };
    let mut step: usize = if longer / 2 >= 1 {
        longer / 2
    } else {
        1
    };
    while step >= 1
        invariant
            0 < w <= u32::MAX,
            0 < h <= u32::MAX,
            w * h <= usize::MAX,
            n == w * h,
            s@.len() == n,
            rooted(start, s@),
            flood(s@, w as int, h as int, step as int) == flood(
                start,
                w as int,
                h as int,
                first_step(w as int, h as int),
            ),
        decreases step,
    {
        let ghost round = s@;
        let mut i: usize = 0;
        while i < n
            invariant
                0 < w <= u32::MAX,
                0 < h <= u32::MAX,
                w * h <= usize::MAX,
                n == w * h,
                i <= n,
                s@.len() == n,
                rooted(start, s@),
                s@ == pass(round, w as int, h as int, step as int, i as int),
            decreases n - i,
        {
            let ghost pixel = s@;
            let mut k: u8 = 0;
            while k < 9
                invariant
                    0 < w <= u32::MAX,
                    0 < h <= u32::MAX,
                    w * h <= usize::MAX,
                    n == w * h,
                    i < n,
                    k <= 9,
                    s@.len() == n,
                    rooted(start, s@),
                    s@ == visit(pixel, w as int, h as int, step as int, i as int, k as int),
                decreases 9 - k,
            {
                let ghost before = s@;
                match neighbour_of(w, h, step, i, k) {
                    Some(j) => {
                        match s[j] {
                            Some(seed) => {
                                let nearer: bool = match s[i] {
                                    Some(held) => distance_sq(w, h, i, seed) < distance_sq(
                                        w,
                                        h,
                                        i,
                                        held,
                                    ),
                                    None => true,
                                };
                                if nearer {
                                    proof {
                                        lemma_dist_sq_nonnegative(
                                            w as int,
                                            i as int,
                                            seed as int,
                                        );
                                    }
                                    s.set(i, Some(seed));
                                }
                            },
                            None => {},
                        }
                        assert(s@ == relax(before, w as int, i as int, j as int));
                    },
                    None => {},
                }
                k += 1;
            }
            i += 1;
        }
        step = step / 2;
    }
    s
}

} // verus!
