//! Integer 3D coordinates: flat row-major indexing and the floor-division
//! mapping from a brick position to its parent chunk.

use vstd::arithmetic::div_mod::lemma_fundamental_div_mod_converse;
use vstd::prelude::*;

verus! {

/// A signed position in brick units.
#[derive(Debug, Clone, Copy, PartialEq, Eq, Structural)]
pub struct GridPos {
    pub x: i32,
    pub y: i32,
    pub z: i32,
}

/// An unsigned position inside a bounded region.
#[derive(Debug, Clone, Copy, PartialEq, Eq, Structural)]
pub struct LocalPos {
    pub x: u32,
    pub y: u32,
    pub z: u32,
}

/// The extent of a bounded region along each axis.
#[derive(Debug, Clone, Copy, PartialEq, Eq, Structural)]
pub struct Dims {
    pub x: u32,
    pub y: u32,
    pub z: u32,
}

impl Dims {
    pub open spec fn volume(self) -> int {
        self.x * self.y * self.z
    }

    pub open spec fn contains(self, p: LocalPos) -> bool {
        p.x < self.x && p.y < self.y && p.z < self.z
    }
}

/// Row-major flat index: `x + y * dim.x + z * dim.x * dim.y`.
pub open spec fn flat_index(p: LocalPos, dim: Dims) -> int {
    p.x + p.y * dim.x + p.z * (dim.x * dim.y)
}

pub(crate) proof fn lemma_flat_index_bounds(p: LocalPos, dim: Dims)
    requires
        dim.contains(p),
    ensures
        0 <= flat_index(p, dim) < dim.volume(),
{
    let a = dim.x as int;
    let b = dim.y as int;
    let c = dim.z as int;
    assert(p.y * a <= (b - 1) * a) by (nonlinear_arith)
        requires
            p.y < b,
            a >= 0,
    ;
    assert(p.z * (a * b) <= (c - 1) * (a * b)) by (nonlinear_arith)
        requires
            p.z < c,
            a * b >= 0,
    ;
    assert(a * b >= 0) by (nonlinear_arith)
        requires
            a >= 0,
            b >= 0,
    ;
    assert(a * b * c == (c - 1) * (a * b) + (b - 1) * a + a) by (nonlinear_arith);
}

/// Maps a position inside `dim` to its row-major flat index.
pub fn to_1d_index(p: LocalPos, dim: Dims) -> (r: usize)
    requires
        dim.contains(p),
        dim.volume() <= usize::MAX,
    ensures
        r == flat_index(p, dim),
        r < dim.volume(),
{
    proof {
        lemma_flat_index_bounds(p, dim);
        assert(p.y * dim.x <= flat_index(p, dim));
        assert(p.z * (dim.x * dim.y) <= flat_index(p, dim)) by (nonlinear_arith)
            requires
                p.x + p.y * dim.x + p.z * (dim.x * dim.y) == flat_index(p, dim),
                p.x >= 0,
                p.y * dim.x >= 0,
        ;
        assert(dim.x * dim.y <= dim.volume()) by (nonlinear_arith)
            requires
                dim.z > 0,
                dim.x * dim.y >= 0,
                dim.volume() == dim.x * dim.y * dim.z,
        ;
        assert(p.y * dim.x >= 0) by (nonlinear_arith)
            requires
                p.y >= 0,
                dim.x >= 0,
        ;
        assert(dim.x * dim.y >= 0) by (nonlinear_arith)
            requires
                dim.y >= 0,
                dim.x >= 0,
        ;
    }
    let x = p.x as usize;
    let y = p.y as usize;
    let z = p.z as usize;
    let dx = dim.x as usize;
    let dy = dim.y as usize;
    x + y * dx + z * (dx * dy)
}

/// Floor division of `g` by `d` and the matching non-negative remainder.
fn floor_div_mod(g: i32, d: u32) -> (r: (i32, u32))
    requires
        d > 0,
    ensures
        r.0 == g as int / d as int,
        r.1 == g as int % d as int,
{
    if g >= 0 {
        let q = (g as u32) / d;
        let m = (g as u32) % d;
        proof {
            assert(q <= g) by (nonlinear_arith)
                requires
                    g >= 0,
                    d > 0,
                    q == g as int / d as int,
            ;
        }
        (q as i32, m)
    } else {
        let n: u64 = ((-(g as i64)) - 1) as u64;
        let q: u64 = n / (d as u64);
        let m: u64 = n % (d as u64);
        let rem: u64 = (d as u64) - 1 - m;
        proof {
            assert(n == q * d + m) by (nonlinear_arith)
                requires
                    d > 0,
                    q == n as int / d as int,
                    m == n as int % d as int,
            ;
            assert(g == (-(q as int) - 1) * d + rem) by (nonlinear_arith)
                requires
                    g == -(n as int) - 1,
                    n == q * d + m,
                    rem == d - 1 - m,
            ;
            lemma_fundamental_div_mod_converse(g as int, d as int, -(q as int) - 1, rem as int);
            assert(q <= n) by (nonlinear_arith)
                requires
                    d > 0,
                    q == n as int / d as int,
            ;
        }
        ((-(q as i64) - 1) as i32, rem as u32)
    }
}

/// Splits a brick position into the chunk that holds it and the position
/// inside that chunk. Negative coordinates floor, so `-1` lands in chunk `-1`
/// at offset `d - 1`.
pub fn grid_pos_to_world_pos(grid_pos: GridPos, chunk_dims: Dims) -> (r: (GridPos, LocalPos))
    requires
        chunk_dims.x > 0,
        chunk_dims.y > 0,
        chunk_dims.z > 0,
    ensures
        r.0.x == grid_pos.x as int / chunk_dims.x as int,
        r.0.y == grid_pos.y as int / chunk_dims.y as int,
        r.0.z == grid_pos.z as int / chunk_dims.z as int,
        r.1.x == grid_pos.x as int % chunk_dims.x as int,
        r.1.y == grid_pos.y as int % chunk_dims.y as int,
        r.1.z == grid_pos.z as int % chunk_dims.z as int,
        chunk_dims.contains(r.1),
{
    let (cx, lx) = floor_div_mod(grid_pos.x, chunk_dims.x);
    let (cy, ly) = floor_div_mod(grid_pos.y, chunk_dims.y);
    let (cz, lz) = floor_div_mod(grid_pos.z, chunk_dims.z);
    (GridPos { x: cx, y: cy, z: cz }, LocalPos { x: lx, y: ly, z: lz })
}

} // verus!
