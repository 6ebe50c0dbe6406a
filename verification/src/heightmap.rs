//! Laying out the sample grid of a heightmap.
//!
//! A heightmap is a square (or, for generation, rectangular) grid of scalar
//! heights stored row-major: cell `(x, y)` lives at index `y * width + x`.
//! The noise source that fills the grid is a floating-point sampler, so the
//! host evaluates it at the coordinates this module plans and returns the
//! fixed-point heights in the planned order.

use vstd::prelude::*;

verus! {

/// The ways a pipeline stage can reject its input.
#[derive(Clone, Copy, Debug, PartialEq, Eq, Structural)]
pub enum TerrainError {
    /// A generation parameter (width, height or scale) was not positive.
    InvalidParameter,
}

/// Row-major index of cell `(x, y)` in a grid `width` cells wide.
pub open spec fn cell_index(width: int, x: int, y: int) -> int {
    y * width + x
}

/// Row-major order is strictly monotone in (y, x).
pub proof fn lemma_cell_index_mono(w: int, x1: int, y1: int, x2: int, y2: int)
    by (nonlinear_arith)
    requires
        0 <= x1 < w,
        0 <= x2 < w,
        0 <= y1,
        y1 < y2 || (y1 == y2 && x1 < x2),
    ensures
        y1 * w + x1 < y2 * w + x2,
{
}

/// Integer square root, rounded down: the grid size of a flat heightmap of
/// `n` cells under the truncating-size policy (trailing cells beyond the
/// largest full square are ignored).
pub open spec fn sqrt_floor(n: nat) -> nat
    decreases n,
{
    if n == 0 {
        0
    } else {
        let p = sqrt_floor((n - 1) as nat);
        if (p + 1) * (p + 1) <= n {
            p + 1
        } else {
            p
        }
    }
}

/// `sqrt_floor(n)` is the largest integer whose square is at most `n`.
pub proof fn lemma_sqrt_floor_bounds(n: nat)
    ensures
        sqrt_floor(n) * sqrt_floor(n) <= n,
        n < (sqrt_floor(n) + 1) * (sqrt_floor(n) + 1),
    decreases n,
{
    if n > 0 {
        lemma_sqrt_floor_bounds((n - 1) as nat);
        let p = sqrt_floor((n - 1) as nat);
        let s = sqrt_floor(n);
        if (p + 1) * (p + 1) <= n {
            assert(s == p + 1);
            assert(s * s <= n) by (nonlinear_arith)
                requires
                    s == p + 1,
                    (p + 1) * (p + 1) <= n,
            ;
            assert(n < (s + 1) * (s + 1)) by (nonlinear_arith)
                requires
                    s == p + 1,
                    n - 1 < (p + 1) * (p + 1),
                    p >= 0,
            ;
        } else {
            assert(s == p);
            assert(s * s <= n) by (nonlinear_arith)
                requires
                    s == p,
                    p * p <= n - 1,
            ;
            assert(n < (s + 1) * (s + 1)) by (nonlinear_arith)
                requires
                    s == p,
                    n < (p + 1) * (p + 1),
            ;
        }
    } else {
        assert(sqrt_floor(n) == 0);
        assert(n < (sqrt_floor(n) + 1) * (sqrt_floor(n) + 1)) by (nonlinear_arith)
            requires
                n == 0,
                sqrt_floor(n) == 0,
        ;
    }
}

/// Any integer bracketing `n` between its own square and the next square is
/// the square root of `n`, rounded down.
pub proof fn lemma_sqrt_floor_unique(n: nat, r: nat)
    requires
        r * r <= n,
        n < (r + 1) * (r + 1),
    ensures
        r == sqrt_floor(n),
{
    lemma_sqrt_floor_bounds(n);
    let s = sqrt_floor(n);
    if r < s {
        assert((r + 1) * (r + 1) <= s * s) by (nonlinear_arith)
            requires
                r + 1 <= s,
        ;
    }
    if s < r {
        assert((s + 1) * (s + 1) <= r * r) by (nonlinear_arith)
            requires
                s + 1 <= r,
        ;
    }
}

/// A heightmap of exactly `n * n` cells has grid size `n`.
pub proof fn lemma_sqrt_floor_square(n: nat)
    ensures
        sqrt_floor(n * n) == n,
{
    assert(n * n < (n + 1) * (n + 1)) by (nonlinear_arith);
    lemma_sqrt_floor_unique(n * n, n);
}

/// Integer square root of `n`, rounded down, by bisection.
pub fn isqrt(n: u64) -> (r: u64)
    ensures
        r == sqrt_floor(n as nat),
        r * r <= n,
{
    let mut lo: u64 = 0;
    let mut hi: u64 = 0x1_0000_0000;
    while hi - lo > 1
        invariant
            lo < hi <= 0x1_0000_0000,
            (lo as nat) * (lo as nat) <= n as nat,
            (n as nat) < (hi as nat) * (hi as nat),
        decreases hi - lo,
    {
        let mid = lo + (hi - lo) / 2;
        proof {
            assert((mid as u128) * (mid as u128) < 0x2_0000_0000_0000_0000u128) by (nonlinear_arith)
                requires
                    mid <= 0x1_0000_0000u64,
            ;
        }
        if (mid as u128) * (mid as u128) <= (n as u128) {
            lo = mid;
        } else {
            hi = mid;
        }
    }
    proof {
        lemma_sqrt_floor_unique(n as nat, lo as nat);
    }
    lo
}

/// The grid coordinates to sample for a `width x height` heightmap, in the
/// row-major order in which the heightmap stores the resulting values: the
/// entry at `cell_index(width, x, y)` is `(x, y)`. The host evaluates its
/// noise source at `(x / scale, y / scale)` for each entry, with
/// `scale = scale_milli / 1000`, and the values it gets back, in this order,
/// are the heightmap.
///
/// Rejects a zero width, height or scale with `InvalidParameter`.
pub fn sample_grid(width: usize, height: usize, scale_milli: u64) -> (r: Result<
    Vec<(usize, usize)>,
    TerrainError,
>)
    requires
        width * height <= usize::MAX,
    ensures
        r is Err <==> (width == 0 || height == 0 || scale_milli == 0),
        r is Err ==> r->Err_0 == TerrainError::InvalidParameter,
        r is Ok ==> r->Ok_0@.len() == width * height,
        r is Ok ==> forall|x: int, y: int|
            0 <= x < width && 0 <= y < height ==> r->Ok_0@[#[trigger] cell_index(
                width as int,
                x,
                y,
            )] == (x as usize, y as usize),
{
    if width == 0 || height == 0 || scale_milli == 0 {
        return Err(TerrainError::InvalidParameter);
    }
    let mut points: Vec<(usize, usize)> = Vec::new();
    let mut y: usize = 0;
    while y < height
        invariant
            y <= height,
            width * height <= usize::MAX,
            width > 0,
            points@.len() == y * width,
            forall|xx: int, yy: int|
                0 <= xx < width && 0 <= yy < y ==> points@[#[trigger] cell_index(
                    width as int,
                    xx,
                    yy,
                )] == (xx as usize, yy as usize),
        decreases height - y,
    {
        let mut x: usize = 0;
        while x < width
            invariant
                x <= width,
                y < height,
                width * height <= usize::MAX,
                width > 0,
                points@.len() == y * width + x,
                forall|xx: int, yy: int|
                    0 <= xx < width && 0 <= yy < y ==> points@[#[trigger] cell_index(
                        width as int,
                        xx,
                        yy,
                    )] == (xx as usize, yy as usize),
                forall|xx: int|
                    0 <= xx < x ==> points@[#[trigger] cell_index(width as int, xx, y as int)] == (
                        xx as usize,
                        y as usize,
                    ),
            decreases width - x,
        {
            proof {
                assert(y * width + x < width * height) by (nonlinear_arith)
                    requires
                        0 <= x < width,
                        0 <= y < height,
                ;
            }
            points.push((x, y));
            proof {
                assert forall|xx: int, yy: int|
                    0 <= xx < width && 0 <= yy < y implies points@[#[trigger] cell_index(
                    width as int,
                    xx,
                    yy,
                )] == (xx as usize, yy as usize) by {
                    lemma_cell_index_mono(width as int, xx, yy, x as int, y as int);
                }
                assert forall|xx: int| 0 <= xx < x + 1 implies points@[#[trigger] cell_index(
                    width as int,
                    xx,
                    y as int,
                )] == (xx as usize, y as usize) by {
                    if xx < x {
                        lemma_cell_index_mono(width as int, xx, y as int, x as int, y as int);
                    }
                }
            }
            x = x + 1;
        }
        y = y + 1;
        proof {
            assert(points@.len() == y * width) by (nonlinear_arith)
                requires
                    points@.len() == (y - 1) * width + width,
            ;
        }
    }
    proof {
        assert(height * width == width * height) by (nonlinear_arith);
        assert forall|x: int, y: int| 0 <= x < width && 0 <= y < height implies 0 <= #[trigger] cell_index(
            width as int,
            x,
            y,
        ) < points@.len() by {
            assert(0 <= y * width + x < height * width) by (nonlinear_arith)
                requires
                    0 <= x < width,
                    0 <= y < height,
            ;
        }
    }
    Ok(points)
}

/// The sample grid is a function of the dimensions alone: any two sequences
/// with the layout that `sample_grid` ensures are equal. A host that samples
/// a deterministic noise source over this grid therefore always assembles
/// the same heightmap from the same parameters.
pub proof fn lemma_sample_grid_deterministic(
    a: Seq<(usize, usize)>,
    b: Seq<(usize, usize)>,
    width: usize,
    height: usize,
)
    requires
        a.len() == width * height,
        b.len() == width * height,
        forall|x: int, y: int|
            0 <= x < width && 0 <= y < height ==> a[#[trigger] cell_index(width as int, x, y)] == (
                x as usize,
                y as usize,
            ),
        forall|x: int, y: int|
            0 <= x < width && 0 <= y < height ==> b[#[trigger] cell_index(width as int, x, y)] == (
                x as usize,
                y as usize,
            ),
    ensures
        a == b,
{
    assert forall|k: int| 0 <= k < a.len() implies a[k] == b[k] by {
        assert(width > 0) by (nonlinear_arith)
            requires
                0 <= k < width * height,
        ;
        let w = width as int;
        let x = k % w;
        let y = k / w;
        vstd::arithmetic::div_mod::lemma_mod_bound(k, w);
        vstd::arithmetic::div_mod::lemma_div_pos_is_pos(k, w);
        vstd::arithmetic::div_mod::lemma_fundamental_div_mod(k, w);
        assert(y < height) by {
            assert(k < w * (height as int)) by (nonlinear_arith)
                requires
                    k < width * height,
                    w == width,
            ;
            vstd::arithmetic::div_mod::lemma_multiply_divide_lt(k, w, height as int);
        }
        assert(cell_index(w, x, y) == k) by (nonlinear_arith)
            requires
                k == w * y + x,
                cell_index(w, x, y) == y * w + x,
        ;
        assert(a[k] == (x as usize, y as usize));
        assert(b[k] == (x as usize, y as usize));
    }
    assert(a =~= b);
}

} // verus!
