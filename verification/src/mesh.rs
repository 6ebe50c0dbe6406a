//! Building a triangulated surface mesh from a heightmap.
//!
//! Every grid cell becomes one vertex; every cell that has a right and a
//! bottom neighbour contributes two triangles covering the quad between
//! them. Interior cells get a finite-difference surface normal; boundary
//! cells get the zero vector as an explicit degenerate placeholder that
//! consumers must tolerate.

use vstd::prelude::*;
use crate::HEIGHT_ONE;
use crate::heightmap::{cell_index, isqrt, lemma_cell_index_mono, lemma_sqrt_floor_bounds, sqrt_floor};

verus! {

/// Vertical exaggeration: a height of `h` ticks becomes the y coordinate
/// `h * VERTICAL_SCALE` ticks.
pub const VERTICAL_SCALE: i64 = 10;

/// Largest height magnitude, in ticks, that the mesh builder accepts; it
/// keeps every intermediate product inside 64 bits. It is 256 height units,
/// far beyond the [-1, 1] range a noise source yields.
pub const HEIGHT_LIMIT: i64 = 16777216;

/// A height small enough for the mesh builder's fixed-point arithmetic.
pub open spec fn height_ok(h: i64) -> bool {
    -HEIGHT_LIMIT <= h <= HEIGHT_LIMIT
}

/// A mesh vertex: grid column `x` and grid row `z`, both in cells, and the
/// exaggerated height `y` in ticks.
#[derive(Clone, Copy, Debug, PartialEq, Eq, Structural)]
pub struct Vertex {
    pub x: u32,
    pub y: i64,
    pub z: u32,
}

/// A per-vertex surface normal in ticks: a unit vector has squared length
/// close to `HEIGHT_ONE * HEIGHT_ONE`; the zero vector marks a boundary
/// vertex.
#[derive(Clone, Copy, Debug, PartialEq, Eq, Structural)]
pub struct SurfaceNormal {
    pub x: i64,
    pub y: i64,
    pub z: i64,
}

/// A triangle-list surface over a square grid: one position and one normal
/// per grid cell, and two triangles per quad of neighbouring cells. The
/// winding order of each triangle fixes its front face.
pub struct SurfaceMesh {
    pub size: usize,
    pub positions: Vec<Vertex>,
    pub normals: Vec<SurfaceNormal>,
    pub indices: Vec<u32>,
}

/// The vertex of cell `(x, y)`: the column and row are taken as horizontal
/// coordinates and the height, exaggerated, as the vertical one.
pub open spec fn vertex_at(heights: Seq<i64>, size: int, x: int, y: int) -> Vertex {
    Vertex {
        x: x as u32,
        y: (heights[cell_index(size, x, y)] * VERTICAL_SCALE) as i64,
        z: y as u32,
    }
}

/// Whether cell `(x, y)` has all four neighbours inside the grid.
pub open spec fn interior(size: int, x: int, y: int) -> bool {
    0 < x < size - 1 && 0 < y < size - 1
}

/// Height difference between the left and right neighbours of `(x, y)`.
pub open spec fn normal_dx(heights: Seq<i64>, size: int, x: int, y: int) -> int {
    heights[cell_index(size, x - 1, y)] - heights[cell_index(size, x + 1, y)]
}

/// Height difference between the top and bottom neighbours of `(x, y)`.
pub open spec fn normal_dz(heights: Seq<i64>, size: int, x: int, y: int) -> int {
    heights[cell_index(size, x, y - 1)] - heights[cell_index(size, x, y + 1)]
}

/// Length, rounded down, of the unnormalized slope vector
/// `(dx, 2 * HEIGHT_ONE, dz)` at an interior cell.
pub open spec fn normal_len(heights: Seq<i64>, size: int, x: int, y: int) -> int {
    let dx = normal_dx(heights, size, x, y);
    let dz = normal_dz(heights, size, x, y);
    sqrt_floor((dx * dx + 4 * HEIGHT_ONE * HEIGHT_ONE + dz * dz) as nat) as int
}

/// One component of the slope vector, scaled to a unit vector in ticks:
/// `d * HEIGHT_ONE / len`, the division truncating toward zero.
pub open spec fn scaled_component(d: int, len: int) -> int {
    if d >= 0 {
        (d * HEIGHT_ONE) / len
    } else {
        -(((-d) * HEIGHT_ONE) / len)
    }
}

/// The normal of cell `(x, y)`: the normalized slope vector
/// `(left - right, 2, top - bottom)` at an interior cell, the zero vector at
/// a boundary cell.
pub open spec fn normal_at(heights: Seq<i64>, size: int, x: int, y: int) -> SurfaceNormal {
    if interior(size, x, y) {
        let dx = normal_dx(heights, size, x, y);
        let dz = normal_dz(heights, size, x, y);
        let len = normal_len(heights, size, x, y);
        SurfaceNormal {
            x: scaled_component(dx, len) as i64,
            y: scaled_component(2 * HEIGHT_ONE, len) as i64,
            z: scaled_component(dz, len) as i64,
        }
    } else {
        SurfaceNormal { x: 0, y: 0, z: 0 }
    }
}

/// Boundary cells carry exactly the zero vector as their normal; only cells
/// with all four neighbours get a sloped one.
pub proof fn lemma_boundary_normal_zero(heights: Seq<i64>, size: int, x: int, y: int)
    requires
        0 <= x < size,
        0 <= y < size,
        !interior(size, x, y),
    ensures
        normal_at(heights, size, x, y) == (SurfaceNormal { x: 0, y: 0, z: 0 }),
{
}

/// Scaling a vector of length about `len` by `HEIGHT_ONE / len` in integer
/// arithmetic yields a vector whose squared length strays from
/// `HEIGHT_ONE * HEIGHT_ONE` only by the rounding of the three divisions
/// and of the length itself.
proof fn lemma_scaled_near_unit(ax: int, ay: int, az: int, len: int)
    requires
        0 <= ax,
        0 <= ay,
        0 <= az,
        len >= 131072,
        len * len <= ax * ax + ay * ay + az * az,
        ax * ax + ay * ay + az * az < (len + 1) * (len + 1),
    ensures
        ({
            let f = 65536int;
            let nx = (ax * f) / len;
            let ny = (ay * f) / len;
            let nz = (az * f) / len;
            f * f - 7 * f <= nx * nx + ny * ny + nz * nz <= f * f + f
        }),
{
    let f = 65536int;
    let s = ax * ax + ay * ay + az * az;
    lemma_scaled_component_bounds(ax, len, f);
    lemma_scaled_component_bounds(ay, len, f);
    lemma_scaled_component_bounds(az, len, f);
    let nx = (ax * f) / len;
    let ny = (ay * f) / len;
    let nz = (az * f) / len;
    let q = nx * nx + ny * ny + nz * nz;
    let p = (nx + 1) * (nx + 1) + (ny + 1) * (ny + 1) + (nz + 1) * (nz + 1);
    // Weighted by len * len, the scaled squares bracket f * f * s.
    lemma_square_bracket(ax, nx, len, f);
    lemma_square_bracket(ay, ny, len, f);
    lemma_square_bracket(az, nz, len, f);
    assert(len * len * q == len * len * (nx * nx) + len * len * (ny * ny) + len * len * (nz * nz)
        && len * len * p == len * len * ((nx + 1) * (nx + 1)) + len * len * ((ny + 1) * (ny + 1))
        + len * len * ((nz + 1) * (nz + 1))) by (nonlinear_arith)
        requires
            q == nx * nx + ny * ny + nz * nz,
            p == (nx + 1) * (nx + 1) + (ny + 1) * (ny + 1) + (nz + 1) * (nz + 1),
    ;
    assert(f * f * s == f * f * (ax * ax) + f * f * (ay * ay) + f * f * (az * az))
        by (nonlinear_arith)
        requires
            s == ax * ax + ay * ay + az * az,
    ;
    assert(len * len * q <= f * f * s && len * len * p > f * f * s);
    assert(q <= f * f + f) by (nonlinear_arith)
        requires
            f == 65536,
            len >= 2 * f,
            q >= 0,
            len * len * q <= f * f * s,
            s < (len + 1) * (len + 1),
    ;
    assert(p > f * f) by (nonlinear_arith)
        requires
            len >= 1,
            f >= 1,
            len * len * p > f * f * s,
            s >= len * len,
    ;
    // Each component is at most f, so stripping the three +1 rounding
    // margins costs at most 6 * f + 3.
    assert(nx <= f && ny <= f && nz <= f) by (nonlinear_arith)
        requires
            len >= 1,
            f >= 0,
            0 <= nx && 0 <= ny && 0 <= nz,
            nx * len <= ax * f,
            ny * len <= ay * f,
            nz * len <= az * f,
            0 <= ax <= len && 0 <= ay <= len && 0 <= az <= len,
    ;
    assert(p == q + 2 * nx + 2 * ny + 2 * nz + 3) by (nonlinear_arith)
        requires
            q == nx * nx + ny * ny + nz * nz,
            p == (nx + 1) * (nx + 1) + (ny + 1) * (ny + 1) + (nz + 1) * (nz + 1),
    ;
}

/// Squaring the bracketing of one scaled component: `n * len <= a * f`
/// below `(n + 1) * len` gives the same bracketing of the squares.
proof fn lemma_square_bracket(a: int, n: int, len: int, f: int)
    requires
        len >= 1,
        0 <= n * len,
        n * len <= a * f,
        a * f < (n + 1) * len,
    ensures
        len * len * (n * n) <= f * f * (a * a),
        len * len * ((n + 1) * (n + 1)) > f * f * (a * a),
{
    assert(len * len * (n * n) <= f * f * (a * a)) by (nonlinear_arith)
        requires
            0 <= n * len <= a * f,
    ;
    assert(len * len * ((n + 1) * (n + 1)) > f * f * (a * a)) by (nonlinear_arith)
        requires
            0 <= a * f < (n + 1) * len,
    ;
}

/// A nonnegative component of a vector no longer than `len + 1` scales to
/// between 0 and `f`, and the scaled value, weighted by `len`, brackets the
/// exact product.
proof fn lemma_scaled_component_bounds(a: int, len: int, f: int)
    requires
        0 <= a,
        a * a < (len + 1) * (len + 1),
        len >= 1,
        f >= 1,
    ensures
        a <= len,
        0 <= (a * f) / len,
        ((a * f) / len) * len <= a * f < ((a * f) / len + 1) * len,
{
    vstd::arithmetic::div_mod::lemma_fundamental_div_mod(a * f, len);
    vstd::arithmetic::div_mod::lemma_mod_bound(a * f, len);
    vstd::arithmetic::div_mod::lemma_div_pos_is_pos(a * f, len);
    assert(a <= len) by (nonlinear_arith)
        requires
            0 <= a,
            len >= 1,
            a * a < (len + 1) * (len + 1),
    ;
    let n = (a * f) / len;
    assert(n * len <= a * f < (n + 1) * len) by (nonlinear_arith)
        requires
            a * f == len * n + (a * f) % len,
            0 <= (a * f) % len < len,
    ;
}

/// At an interior cell the normal is unit length up to fixed-point
/// rounding: its squared length in ticks strays from
/// `HEIGHT_ONE * HEIGHT_ONE` by at most a few rounding margins.
pub proof fn lemma_interior_normal_near_unit(heights: Seq<i64>, size: int, x: int, y: int)
    requires
        interior(size, x, y),
        size * size <= heights.len(),
        forall|i: int| 0 <= i < heights.len() ==> height_ok(#[trigger] heights[i]),
    ensures
        ({
            let n = normal_at(heights, size, x, y);
            HEIGHT_ONE * HEIGHT_ONE - 7 * HEIGHT_ONE <= n.x * n.x + n.y * n.y + n.z * n.z
                && n.x * n.x + n.y * n.y + n.z * n.z <= HEIGHT_ONE * HEIGHT_ONE + HEIGHT_ONE
        }),
{
    let f = 65536int;
    lemma_cell_in_range(size, x - 1, y);
    lemma_cell_in_range(size, x + 1, y);
    lemma_cell_in_range(size, x, y - 1);
    lemma_cell_in_range(size, x, y + 1);
    let dx = normal_dx(heights, size, x, y);
    let dz = normal_dz(heights, size, x, y);
    let adx = if dx >= 0 {
        dx
    } else {
        -dx
    };
    let adz = if dz >= 0 {
        dz
    } else {
        -dz
    };
    let s = dx * dx + 4 * f * f + dz * dz;
    assert(adx * adx == dx * dx && adz * adz == dz * dz && dx * dx >= 0 && dz * dz >= 0)
        by (nonlinear_arith)
        requires
            (dx >= 0 ==> adx == dx) && (dx < 0 ==> adx == -dx),
            (dz >= 0 ==> adz == dz) && (dz < 0 ==> adz == -dz),
    ;
    let len = normal_len(heights, size, x, y);
    lemma_sqrt_floor_bounds(s as nat);
    assert(len * len <= s && s < (len + 1) * (len + 1) && len >= 0);
    assert(len >= 2 * f) by (nonlinear_arith)
        requires
            s < (len + 1) * (len + 1),
            s >= 4 * f * f,
            len >= 0,
            f == 65536,
    ;
    lemma_scaled_near_unit(adx, 2 * f, adz, len);
    let nx = (adx * f) / len;
    let ny = (2 * f * f) / len;
    let nz = (adz * f) / len;
    lemma_scaled_component_bounds(adx, len, f);
    lemma_scaled_component_bounds(2 * f, len, f);
    lemma_scaled_component_bounds(adz, len, f);
    assert(nx <= adx * f && ny <= 2 * f * f && nz <= adz * f) by (nonlinear_arith)
        requires
            len >= 1,
            0 <= nx && 0 <= ny && 0 <= nz,
            nx * len <= adx * f,
            ny * len <= 2 * f * f,
            nz * len <= adz * f,
    ;
    let n = normal_at(heights, size, x, y);
    assert(n.x == scaled_component(dx, len) as i64);
    assert(n.x * n.x == nx * nx && n.z * n.z == nz * nz) by (nonlinear_arith)
        requires
            (n.x == nx || n.x == -nx) && (n.z == nz || n.z == -nz),
    ;
    assert(n.y == ny);
}

/// The six vertex indices of the two triangles covering the quad whose top
/// left corner is cell `(x, y)`, in the fixed winding order
/// (topLeft, bottomLeft, topRight), (topRight, bottomLeft, bottomRight).
pub open spec fn quad_indices(size: int, x: int, y: int) -> Seq<int> {
    let tl = cell_index(size, x, y);
    let bl = cell_index(size, x, y + 1);
    let tr = cell_index(size, x + 1, y);
    let br = cell_index(size, x + 1, y + 1);
    seq![tl, bl, tr, tr, bl, br]
}

/// The six entries that the index list holds for the quad at `(x, y)`.
pub open spec fn indices_at(indices: Seq<u32>, size: int, x: int, y: int) -> Seq<int> {
    let base = 6 * cell_index(size - 1, x, y);
    seq![
        indices[base] as int,
        indices[base + 1] as int,
        indices[base + 2] as int,
        indices[base + 3] as int,
        indices[base + 4] as int,
        indices[base + 5] as int,
    ]
}

/// Every cell of a grid sits below the cell count.
proof fn lemma_cell_in_range(size: int, x: int, y: int)
    by (nonlinear_arith)
    requires
        0 <= x < size,
        0 <= y < size,
    ensures
        0 <= cell_index(size, x, y) < size * size,
{
}

/// The normal of one interior cell, computed in fixed point.
fn normal_for(heights: &Vec<i64>, size: usize, x: usize, y: usize) -> (n: SurfaceNormal)
    requires
        0 < x,
        0 < y,
        x + 1 < size,
        y + 1 < size,
        size <= 65535,
        size * size <= heights@.len(),
        forall|i: int| 0 <= i < heights@.len() ==> height_ok(heights@[i]),
    ensures
        n == normal_at(heights@, size as int, x as int, y as int),
{
    proof {
        lemma_cell_in_range(size as int, x as int, y as int);
        lemma_cell_in_range(size as int, x as int + 1, y as int);
        lemma_cell_in_range(size as int, x as int - 1, y as int);
        lemma_cell_in_range(size as int, x as int, y as int + 1);
        lemma_cell_in_range(size as int, x as int, y as int - 1);
        assert((y as int + 1) * (size as int) == y * size + size) by (nonlinear_arith);
        assert((y as int - 1) * (size as int) == y * size - size) by (nonlinear_arith);
        assert(size * size <= 65535int * 65535) by (nonlinear_arith)
            requires
                size <= 65535,
        ;
    }
    let idx: usize = y * size + x;
    let left = heights[idx - 1];
    let right = heights[idx + 1];
    let top = heights[idx - size];
    let bottom = heights[idx + size];
    let dx: i64 = left - right;
    let dz: i64 = top - bottom;
    let adx: u64 = if dx >= 0 {
        dx as u64
    } else {
        (-dx) as u64
    };
    let adz: u64 = if dz >= 0 {
        dz as u64
    } else {
        (-dz) as u64
    };
    proof {
        assert(adx * adx == dx * dx && adx <= 33554432) by (nonlinear_arith)
            requires
                (dx >= 0 ==> adx == dx) && (dx < 0 ==> adx as int == -(dx as int)),
                -33554432 <= dx <= 33554432,
        ;
        assert(adz * adz == dz * dz && adz <= 33554432) by (nonlinear_arith)
            requires
                (dz >= 0 ==> adz == dz) && (dz < 0 ==> adz as int == -(dz as int)),
                -33554432 <= dz <= 33554432,
        ;
        assert(adx * adx <= 33554432int * 33554432 && adz * adz <= 33554432int * 33554432)
            by (nonlinear_arith)
            requires
                adx <= 33554432,
                adz <= 33554432,
        ;
    }
    let sum: u64 = adx * adx + 17179869184 + adz * adz;
    let len: u64 = isqrt(sum);
    proof {
        lemma_sqrt_floor_bounds(sum as nat);
        assert(len >= 131072) by (nonlinear_arith)
            requires
                (sum as nat) < ((len as nat) + 1) * ((len as nat) + 1),
                sum >= 17179869184,
        ;
        vstd::arithmetic::div_mod::lemma_div_pos_is_pos((adx as int) * 65536, len as int);
        vstd::arithmetic::div_mod::lemma_div_pos_is_pos((adz as int) * 65536, len as int);
        vstd::arithmetic::div_mod::lemma_div_pos_is_pos(131072int * 65536, len as int);
        vstd::arithmetic::div_mod::lemma_div_nonincreasing((adx as int) * 65536, len as int);
        vstd::arithmetic::div_mod::lemma_div_nonincreasing((adz as int) * 65536, len as int);
        vstd::arithmetic::div_mod::lemma_div_nonincreasing(131072int * 65536, len as int);
    }
    let nx_mag: u64 = adx * 65536 / len;
    let ny: i64 = (131072u64 * 65536 / len) as i64;
    let nz_mag: u64 = adz * 65536 / len;
    let nx: i64 = if dx >= 0 {
        nx_mag as i64
    } else {
        -(nx_mag as i64)
    };
    let nz: i64 = if dz >= 0 {
        nz_mag as i64
    } else {
        -(nz_mag as i64)
    };
    SurfaceNormal { x: nx, y: ny, z: nz }
}

/// Build the surface mesh of a flat heightmap. The grid size is the integer
/// square root of the length: under the truncating-size policy, trailing
/// cells beyond `size * size` are ignored. One vertex and one normal per
/// cell, in heightmap order; six indices (two triangles) per quad of
/// neighbouring cells, row-major by the quad's top-left cell, in the fixed
/// winding order that determines the front faces.
#[verifier::loop_isolation(false)]
#[verifier::rlimit(100)]
pub fn build(height_map: &Vec<i64>) -> (m: SurfaceMesh)
    requires
        height_map@.len() <= 0xFFFF_FFFF,
        forall|i: int| 0 <= i < height_map@.len() ==> height_ok(#[trigger] height_map@[i]),
    ensures
        m.size == sqrt_floor(height_map@.len()),
        m.positions@.len() == m.size * m.size,
        m.normals@.len() == m.size * m.size,
        forall|x: int, y: int|
            0 <= x < m.size && 0 <= y < m.size ==> m.positions@[#[trigger] cell_index(
                m.size as int,
                x,
                y,
            )] == vertex_at(height_map@, m.size as int, x, y),
        forall|x: int, y: int|
            0 <= x < m.size && 0 <= y < m.size ==> m.normals@[#[trigger] cell_index(
                m.size as int,
                x,
                y,
            )] == normal_at(height_map@, m.size as int, x, y),
        m.indices@.len() == if m.size == 0 {
            0int
        } else {
            6 * (m.size - 1) * (m.size - 1)
        },
        forall|x: int, y: int|
            0 <= x < m.size - 1 && 0 <= y < m.size - 1 ==> #[trigger] indices_at(
                m.indices@,
                m.size as int,
                x,
                y,
            ) == quad_indices(m.size as int, x, y),
        forall|k: int| 0 <= k < m.indices@.len() ==> m.indices@[k] < m.size * m.size,
{
    let len = height_map.len();
    let size64 = isqrt(len as u64);
    proof {
        assert(size64 <= 65535) by (nonlinear_arith)
            requires
                (size64 as nat) * (size64 as nat) <= (len as nat),
                (len as nat) <= 0xFFFF_FFFF,
        ;
    }
    let size: usize = size64 as usize;
    let (positions, normals) = grid_vertices(height_map, size);
    let indices = grid_indices(size);
    SurfaceMesh { size, positions, normals, indices }
}

/// The vertex and normal of every cell of the grid, in heightmap order.
#[verifier::loop_isolation(false)]
#[verifier::rlimit(100)]
fn grid_vertices(height_map: &Vec<i64>, size: usize) -> (r: (Vec<Vertex>, Vec<SurfaceNormal>))
    requires
        size <= 65535,
        size * size <= height_map@.len(),
        forall|i: int| 0 <= i < height_map@.len() ==> height_ok(#[trigger] height_map@[i]),
    ensures
        r.0@.len() == size * size,
        r.1@.len() == size * size,
        forall|x: int, y: int|
            0 <= x < size && 0 <= y < size ==> r.0@[#[trigger] cell_index(size as int, x, y)]
                == vertex_at(height_map@, size as int, x, y),
        forall|x: int, y: int|
            0 <= x < size && 0 <= y < size ==> r.1@[#[trigger] cell_index(size as int, x, y)]
                == normal_at(height_map@, size as int, x, y),
{
    proof {
        assert(size * size <= 65535int * 65535) by (nonlinear_arith)
            requires
                size <= 65535,
        ;
    }
    let mut positions: Vec<Vertex> = Vec::new();
    let mut normals: Vec<SurfaceNormal> = Vec::new();
    let mut y: usize = 0;
    while y < size
        invariant
            y <= size,
            positions@.len() == y * size,
            normals@.len() == y * size,
            forall|xx: int, yy: int|
                0 <= xx < size && 0 <= yy < y ==> positions@[#[trigger] cell_index(
                    size as int,
                    xx,
                    yy,
                )] == vertex_at(height_map@, size as int, xx, yy),
            forall|xx: int, yy: int|
                0 <= xx < size && 0 <= yy < y ==> normals@[#[trigger] cell_index(
                    size as int,
                    xx,
                    yy,
                )] == normal_at(height_map@, size as int, xx, yy),
        decreases size - y,
    {
        let mut x: usize = 0;
        while x < size
            invariant
                x <= size,
                y < size,
                positions@.len() == y * size + x,
                normals@.len() == y * size + x,
                forall|xx: int, yy: int|
                    0 <= xx < size && 0 <= yy < y ==> positions@[#[trigger] cell_index(
                        size as int,
                        xx,
                        yy,
                    )] == vertex_at(height_map@, size as int, xx, yy),
                forall|xx: int, yy: int|
                    0 <= xx < size && 0 <= yy < y ==> normals@[#[trigger] cell_index(
                        size as int,
                        xx,
                        yy,
                    )] == normal_at(height_map@, size as int, xx, yy),
                forall|xx: int|
                    0 <= xx < x ==> positions@[#[trigger] cell_index(size as int, xx, y as int)]
                        == vertex_at(height_map@, size as int, xx, y as int),
                forall|xx: int|
                    0 <= xx < x ==> normals@[#[trigger] cell_index(size as int, xx, y as int)]
                        == normal_at(height_map@, size as int, xx, y as int),
            decreases size - x,
        {
            proof {
                lemma_cell_in_range(size as int, x as int, y as int);
            }
            let idx: usize = y * size + x;
            let h: i64 = height_map[idx];
            let v = Vertex { x: x as u32, y: h * VERTICAL_SCALE, z: y as u32 };
            let nrm: SurfaceNormal = if x > 0 && y > 0 && x + 1 < size && y + 1 < size {
                normal_for(height_map, size, x, y)
            } else {
                SurfaceNormal { x: 0, y: 0, z: 0 }
            };
            positions.push(v);
            normals.push(nrm);
            proof {
                assert forall|xx: int, yy: int|
                    0 <= xx < size && 0 <= yy < y implies positions@[#[trigger] cell_index(
                    size as int,
                    xx,
                    yy,
                )] == vertex_at(height_map@, size as int, xx, yy) && normals@[cell_index(
                    size as int,
                    xx,
                    yy,
                )] == normal_at(height_map@, size as int, xx, yy) by {
                    lemma_cell_index_mono(size as int, xx, yy, x as int, y as int);
                }
                assert forall|xx: int| 0 <= xx < x + 1 implies positions@[#[trigger] cell_index(
                    size as int,
                    xx,
                    y as int,
                )] == vertex_at(height_map@, size as int, xx, y as int) && normals@[cell_index(
                    size as int,
                    xx,
                    y as int,
                )] == normal_at(height_map@, size as int, xx, y as int) by {
                    if xx < x {
                        lemma_cell_index_mono(size as int, xx, y as int, x as int, y as int);
                    }
                }
            }
            x = x + 1;
        }
        y = y + 1;
        proof {
            assert(positions@.len() == y * size && normals@.len() == y * size)
                by (nonlinear_arith)
                requires
                    positions@.len() == (y - 1) * size + size,
                    normals@.len() == (y - 1) * size + size,
            ;
        }
    }
    proof {
        assert(positions@.len() == size * size && normals@.len() == size * size)
            by (nonlinear_arith)
            requires
                y == size,
                positions@.len() == y * size,
                normals@.len() == y * size,
        ;
    }
    (positions, normals)
}

/// The triangle-list index buffer of a `size x size` grid: six indices per
/// quad, row-major by the quad's top-left cell.
#[verifier::loop_isolation(false)]
#[verifier::rlimit(100)]
fn grid_indices(size: usize) -> (indices: Vec<u32>)
    requires
        size <= 65535,
    ensures
        indices@.len() == if size == 0 {
            0int
        } else {
            6 * (size - 1) * (size - 1)
        },
        forall|x: int, y: int|
            0 <= x < size - 1 && 0 <= y < size - 1 ==> #[trigger] indices_at(
                indices@,
                size as int,
                x,
                y,
            ) == quad_indices(size as int, x, y),
        forall|k: int| 0 <= k < indices@.len() ==> indices@[k] < size * size,
{
    proof {
        assert(size * size <= 65535int * 65535) by (nonlinear_arith)
            requires
                size <= 65535,
        ;
    }
    let mut indices: Vec<u32> = Vec::new();
    let mut qy: usize = 0;
    while qy + 1 < size
        invariant
            size == 0 ==> qy == 0,
            size > 0 ==> qy <= size - 1,
            indices@.len() == 6 * (qy * (size - 1)),
            forall|xx: int, yy: int|
                0 <= xx < size - 1 && 0 <= yy < qy ==> #[trigger] indices_at(
                    indices@,
                    size as int,
                    xx,
                    yy,
                ) == quad_indices(size as int, xx, yy),
            forall|k: int| 0 <= k < indices@.len() ==> indices@[k] < size * size,
        decreases size - qy,
    {
        let mut qx: usize = 0;
        while qx + 1 < size
            invariant
                qy + 1 < size,
                qx <= size - 1,
                indices@.len() == 6 * (qy * (size - 1) + qx),
                forall|xx: int, yy: int|
                    0 <= xx < size - 1 && 0 <= yy < qy ==> #[trigger] indices_at(
                        indices@,
                        size as int,
                        xx,
                        yy,
                    ) == quad_indices(size as int, xx, yy),
                forall|xx: int|
                    0 <= xx < qx ==> #[trigger] indices_at(indices@, size as int, xx, qy as int)
                        == quad_indices(size as int, xx, qy as int),
                forall|k: int| 0 <= k < indices@.len() ==> indices@[k] < size * size,
            decreases size - qx,
        {
            proof {
                lemma_cell_in_range(size as int, qx as int, qy as int);
                lemma_cell_in_range(size as int, qx as int + 1, qy as int);
                lemma_cell_in_range(size as int, qx as int, qy as int + 1);
                lemma_cell_in_range(size as int, qx as int + 1, qy as int + 1);
                lemma_cell_in_range(size as int - 1, qx as int, qy as int);
                assert((qy as int + 1) * (size as int) == qy * size + size) by (nonlinear_arith);
            }
            let tl: usize = qy * size + qx;
            let bl: usize = tl + size;
            let tr: usize = tl + 1;
            let br: usize = bl + 1;
            let ghost before = indices@;
            indices.push(tl as u32);
            indices.push(bl as u32);
            indices.push(tr as u32);
            indices.push(tr as u32);
            indices.push(bl as u32);
            indices.push(br as u32);
            proof {
                let ghost base = 6 * cell_index(size as int - 1, qx as int, qy as int);
                assert(base == before.len());
                assert(indices_at(indices@, size as int, qx as int, qy as int) =~= quad_indices(
                    size as int,
                    qx as int,
                    qy as int,
                ));
                assert forall|xx: int, yy: int|
                    0 <= xx < size - 1 && yy == qy && 0 <= xx < qx + 1 implies #[trigger] indices_at(
                    indices@,
                    size as int,
                    xx,
                    yy,
                ) == quad_indices(size as int, xx, yy) by {
                    if xx < qx {
                        lemma_cell_index_mono(size as int - 1, xx, yy, qx as int, qy as int);
                        assert(indices_at(indices@, size as int, xx, yy) =~= indices_at(
                            before,
                            size as int,
                            xx,
                            yy,
                        ));
                    }
                }
                assert forall|xx: int, yy: int|
                    0 <= xx < size - 1 && 0 <= yy < qy implies #[trigger] indices_at(
                    indices@,
                    size as int,
                    xx,
                    yy,
                ) == quad_indices(size as int, xx, yy) by {
                    lemma_cell_index_mono(size as int - 1, xx, yy, qx as int, qy as int);
                    assert(indices_at(indices@, size as int, xx, yy) =~= indices_at(
                        before,
                        size as int,
                        xx,
                        yy,
                    ));
                }
            }
            qx = qx + 1;
        }
        qy = qy + 1;
        proof {
            assert(indices@.len() == 6 * (qy * (size - 1))) by (nonlinear_arith)
                requires
                    indices@.len() == 6 * ((qy - 1) * (size - 1) + (size - 1)),
            ;
        }
    }
    proof {
        if size > 0 {
            assert(indices@.len() == 6 * (size - 1) * (size - 1)) by (nonlinear_arith)
                requires
                    qy == size - 1,
                    indices@.len() == 6 * (qy * (size - 1)),
            ;
        }
    }
    indices
}

} // verus!
