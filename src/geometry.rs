use vstd::prelude::*;

verus! {

/// A point of the world, in whole units on each axis.
#[derive(Clone, Copy, Debug, PartialEq, Eq, Structural)]
pub struct Position {
    pub x: i64,
    pub y: i64,
    pub z: i64,
}

/// Floor of `a / b` for a positive divisor (Verus's `/` on `int` rounds toward
/// negative infinity when the divisor is positive).
pub open spec fn floor_div(a: int, b: int) -> int {
    a / b
}

/// Floor division of a coordinate by a positive cell extent.
pub fn floor_div_i64(a: i64, b: u32) -> (r: i64)
    requires
        b > 0,
    ensures
        r as int == floor_div(a as int, b as int),
        a >= 0 ==> 0 <= r <= a,
        a < 0 ==> a <= r < 0,
{
    let bu: u64 = b as u64;
    if a >= 0 {
        let q: u64 = (a as u64) / bu;
        proof {
            assert(q as int == (a as int) / (b as int));
            assert(q <= a) by (nonlinear_arith)
                requires q as int == (a as int) / (b as int), a >= 0, b >= 1;
        }
        q as i64
    } else {
        // -(a + 1) is non-negative and fits in u64
        let m: u64 = (-(a + 1)) as u64;
        let q: u64 = m / bu;
        proof {
            let ai = a as int;
            let bi = b as int;
            let mi = m as int;
            let qi = q as int;
            assert(mi == -ai - 1);
            assert(qi == mi / bi);
            assert(qi * bi <= mi && mi < qi * bi + bi) by (nonlinear_arith)
                requires qi == mi / bi, bi > 0, mi >= 0;
            let r = -qi - 1;
            assert(r * bi <= ai && ai < r * bi + bi) by (nonlinear_arith)
                requires qi * bi <= mi, mi < qi * bi + bi, mi == -ai - 1, r == -qi - 1;
            lemma_floor_div_unique(ai, bi, r);
            assert(qi <= mi) by (nonlinear_arith)
                requires qi == mi / bi, bi >= 1, mi >= 0;
        }
        -(q as i64) - 1
    }
}

/// The quotient of floor division is the one integer `q` with
/// `q * b <= a < q * b + b`.
pub proof fn lemma_floor_div_unique(a: int, b: int, q: int)
    requires
        b > 0,
        q * b <= a,
        a < q * b + b,
    ensures
        floor_div(a, b) == q,
{
    let d = a / b;
    assert(d * b <= a && a < d * b + b) by (nonlinear_arith)
        requires d == a / b, b > 0;
    assert(d == q) by (nonlinear_arith)
        requires d * b <= a, a < d * b + b, q * b <= a, a < q * b + b, b > 0;
}

/// The storage-granularity key of a position: a world and the floor-divided
/// region coordinates.
#[derive(Clone, Debug)]
pub struct WorldRegion {
    pub world_name: String,
    pub region_x: i64,
    pub region_y: i64,
    pub region_z: i64,
}

/// The mathematical form of a [`WorldRegion`].
pub type RegionKey = (Seq<char>, int, int, int);

impl WorldRegion {
    pub open spec fn key(&self) -> RegionKey {
        (self.world_name@, self.region_x as int, self.region_y as int, self.region_z as int)
    }
}

/// The region of world `w` that holds position `p`, with per-axis extents.
pub open spec fn region_of(w: Seq<char>, p: Position, sx: int, sy: int, sz: int) -> RegionKey {
    (w, floor_div(p.x as int, sx), floor_div(p.y as int, sy), floor_div(p.z as int, sz))
}

/// Computes the region of `world_name` that holds `position`.
pub fn world_region(
    world_name: &str,
    position: Position,
    region_x_size: u16,
    region_y_size: u16,
    region_z_size: u16,
) -> (r: WorldRegion)
    requires
        region_x_size > 0,
        region_y_size > 0,
        region_z_size > 0,
    ensures
        r.key() == region_of(
            world_name@,
            position,
            region_x_size as int,
            region_y_size as int,
            region_z_size as int,
        ),
{
    WorldRegion {
        world_name: world_name.to_owned(),
        region_x: floor_div_i64(position.x, region_x_size as u32),
        region_y: floor_div_i64(position.y, region_y_size as u32),
        region_z: floor_div_i64(position.z, region_z_size as u32),
    }
}

/// The subscription-granularity key of a position.
#[derive(Clone, Copy, Debug, PartialEq, Eq, Structural)]
pub struct CubeArea {
    pub cell_x: i64,
    pub cell_y: i64,
    pub cell_z: i64,
}

/// The mathematical form of a [`CubeArea`].
pub type CubeKey = (int, int, int);

impl CubeArea {
    pub open spec fn key(&self) -> CubeKey {
        (self.cell_x as int, self.cell_y as int, self.cell_z as int)
    }
}

/// The cube of edge `size` that holds position `p`.
pub open spec fn cube_of(p: Position, size: int) -> CubeKey {
    (floor_div(p.x as int, size), floor_div(p.y as int, size), floor_div(p.z as int, size))
}

/// Computes the cube of edge `cube_size` that holds `position`.
pub fn cube_area(position: Position, cube_size: u16) -> (r: CubeArea)
    requires
        cube_size > 0,
    ensures
        r.key() == cube_of(position, cube_size as int),
{
    CubeArea {
        cell_x: floor_div_i64(position.x, cube_size as u32),
        cell_y: floor_div_i64(position.y, cube_size as u32),
        cell_z: floor_div_i64(position.z, cube_size as u32),
    }
}

} // verus!
