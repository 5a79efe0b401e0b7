use vstd::prelude::*;

use crate::block::Block;
use crate::world::World;

verus! {

/// Positions, directions and distances of a ray are fixed-point numbers:
/// `FIXED_ONE` stands for one block length.
pub const FIXED_ONE: i64 = 1024;

/// A voxel hit: the voxel, its block, and the normal of the face entered
/// (all zero when the ray starts inside a solid voxel).
pub type Hit = (i32, i32, i32, Block, (i32, i32, i32));

/// Whether `v` is a coordinate of the `i32` grid.
pub open spec fn in_i32(v: int) -> bool {
    i32::MIN <= v <= i32::MAX
}

/// The sign of `a`: 1, -1 or 0.
pub open spec fn sign(a: int) -> int {
    if a > 0 {
        1
    } else if a < 0 {
        -1
    } else {
        0
    }
}

/// The magnitude of `a`.
pub open spec fn abs(a: int) -> int {
    if a < 0 {
        -a
    } else {
        a
    }
}

/// Parametric distance (times the direction component's magnitude) from
/// coordinate `o` to the first voxel boundary in the direction of `d`.
pub open spec fn first_crossing(o: int, d: int) -> int {
    if d > 0 {
        (o / 1024 + 1) * 1024 - o
    } else {
        o - (o / 1024) * 1024
    }
}

/// Whether the next boundary on axis a (at parameter na / |da|) comes strictly
/// before the next boundary on axis b; an axis the ray does not move along
/// never has a next boundary.
pub open spec fn earlier(na: int, da: int, nb: int, db: int) -> bool {
    da != 0 && (db == 0 || na * abs(db) < nb * abs(da))
}

/// The axis of the next step: the one whose boundary comes first, with ties
/// going to the later axis.
pub open spec fn next_axis(n: (int, int, int), d: (int, int, int)) -> int {
    if earlier(n.0, d.0, n.1, d.1) && earlier(n.0, d.0, n.2, d.2) {
        0
    } else if earlier(n.1, d.1, n.2, d.2) {
        1
    } else {
        2
    }
}

/// How many voxel steps remain along an axis before the walk leaves the
/// `i32` grid.
pub open spec fn room(v: int, d: int) -> int {
    if d > 0 {
        i32::MAX - v
    } else if d < 0 {
        v - i32::MIN
    } else {
        0
    }
}

/// Component `a` of a triple.
pub open spec fn pick(t: (int, int, int), a: int) -> int {
    if a == 0 {
        t.0
    } else if a == 1 {
        t.1
    } else {
        t.2
    }
}

/// The triple with `by` added to component `a`.
pub open spec fn bump(t: (int, int, int), a: int, by: int) -> (int, int, int) {
    if a == 0 {
        (t.0 + by, t.1, t.2)
    } else if a == 1 {
        (t.0, t.1 + by, t.2)
    } else {
        (t.0, t.1, t.2 + by)
    }
}

/// The triple that is `s` on axis `a` and zero elsewhere.
pub open spec fn unit(a: int, s: int) -> (int, int, int) {
    if a == 0 {
        (s, 0, 0)
    } else if a == 1 {
        (0, s, 0)
    } else {
        (0, 0, s)
    }
}

/// The rest of a traversal from voxel `v`, with `n` the boundary parameters
/// (times |d| per axis): take the boundary that comes first; if it lies
/// beyond `m`, stop without a hit; otherwise step into the voxel behind it
/// and stop there if it is solid. A traversal that would leave the `i32`
/// grid ends without a hit.
pub open spec fn traverse(
    world: &World,
    d: (int, int, int),
    m: int,
    v: (int, int, int),
    n: (int, int, int),
) -> Option<Hit>
    decreases room(v.0, d.0) + room(v.1, d.1) + room(v.2, d.2),
{
    if !(in_i32(v.0) && in_i32(v.1) && in_i32(v.2)) || d == (0int, 0int, 0int) {
        None
    } else {
        let a = next_axis(n, d);
        let s = sign(pick(d, a));
        let v2 = bump(v, a, s);
        if !(pick(n, a) * 1024 <= m * abs(pick(d, a))) {
            None
        } else if !in_i32(pick(v2, a)) {
            None
        } else {
            let b = world.block_at(v2.0 as i32, v2.1 as i32, v2.2 as i32);
            let nm = unit(a, -s);
            if b.solid() {
                Some((v2.0 as i32, v2.1 as i32, v2.2 as i32, b, (nm.0 as i32, nm.1 as i32, nm.2 as i32)))
            } else {
                traverse(world, d, m, v2, bump(n, a, 1024))
            }
        }
    }
}

/// The first solid voxel along the ray from `o` in direction `d` (both in
/// fixed point), stepping voxel by voxel into the voxels whose entry
/// parameter is at most `m` (in fixed point, in units of the direction's
/// length). A zero
/// direction hits nothing; a start voxel that is solid is hit with a zero
/// normal; a start outside the `i32` grid hits nothing.
pub open spec fn cast(world: &World, o: (int, int, int), d: (int, int, int), m: int) -> Option<Hit> {
    let v0 = (o.0 / 1024, o.1 / 1024, o.2 / 1024);
    if d == (0int, 0int, 0int) || !(in_i32(v0.0) && in_i32(v0.1) && in_i32(v0.2)) {
        None
    } else if world.block_at(v0.0 as i32, v0.1 as i32, v0.2 as i32).solid() {
        Some(
            (
                v0.0 as i32,
                v0.1 as i32,
                v0.2 as i32,
                world.block_at(v0.0 as i32, v0.1 as i32, v0.2 as i32),
                (0i32, 0i32, 0i32),
            ),
        )
    } else {
        traverse(
            world,
            d,
            m,
            v0,
            (first_crossing(o.0, d.0), first_crossing(o.1, d.1), first_crossing(o.2, d.2)),
        )
    }
}

proof fn lemma_traverse_misses(
    world: &World,
    d: (int, int, int),
    m: int,
    v: (int, int, int),
    n: (int, int, int),
)
    requires
        forall|x: i32, y: i32, z: i32| !(#[trigger] world.block_at(x, y, z)).solid(),
    ensures
        traverse(world, d, m, v, n) is None,
    decreases room(v.0, d.0) + room(v.1, d.1) + room(v.2, d.2),
{
    if !(in_i32(v.0) && in_i32(v.1) && in_i32(v.2)) || d == (0int, 0int, 0int) {
    } else {
        let a = next_axis(n, d);
        let s = sign(pick(d, a));
        let v2 = bump(v, a, s);
        if in_i32(pick(v2, a)) {
            assert(!world.block_at(v2.0 as i32, v2.1 as i32, v2.2 as i32).solid());
            lemma_traverse_misses(world, d, m, v2, bump(n, a, 1024));
        }
    }
}

/// A ray cast through a world without any solid block hits nothing, whatever
/// its origin, direction and maximal distance.
pub proof fn lemma_cast_through_air_misses(world: &World, o: (int, int, int), d: (int, int, int), m: int)
    requires
        forall|x: i32, y: i32, z: i32| !(#[trigger] world.block_at(x, y, z)).solid(),
    ensures
        cast(world, o, d, m) is None,
{
    let v0 = (o.0 / 1024, o.1 / 1024, o.2 / 1024);
    if d != (0int, 0int, 0int) && in_i32(v0.0) && in_i32(v0.1) && in_i32(v0.2) {
        assert(!world.block_at(v0.0 as i32, v0.1 as i32, v0.2 as i32).solid());
        lemma_traverse_misses(
            world,
            d,
            m,
            v0,
            (first_crossing(o.0, d.0), first_crossing(o.1, d.1), first_crossing(o.2, d.2)),
        );
    }
}

fn earlier_exec(na: i128, da: i128, nb: i128, db: i128) -> (r: bool)
    requires
        0 <= na <= 0x1000_0000_0000,
        0 <= nb <= 0x1000_0000_0000,
        -0x8000_0000_0000_0000 <= da <= 0x8000_0000_0000_0000,
        -0x8000_0000_0000_0000 <= db <= 0x8000_0000_0000_0000,
    ensures
        r == earlier(na as int, da as int, nb as int, db as int),
{
    let ada: i128 = if da < 0 {
        -da
    } else {
        da
    };
    let adb: i128 = if db < 0 {
        -db
    } else {
        db
    };
    assert(0 <= na * adb <= 0x1000_0000_0000 * 0x8000_0000_0000_0000) by (nonlinear_arith)
        requires
            0 <= na <= 0x1000_0000_0000,
            0 <= adb <= 0x8000_0000_0000_0000,
    ;
    assert(0 <= nb * ada <= 0x1000_0000_0000 * 0x8000_0000_0000_0000) by (nonlinear_arith)
        requires
            0 <= nb <= 0x1000_0000_0000,
            0 <= ada <= 0x8000_0000_0000_0000,
    ;
    da != 0 && (db == 0 || na * adb < nb * ada)
}

fn sign_exec(a: i64) -> (r: i64)
    ensures
        r == sign(a as int),
{
    if a > 0 {
        1
    } else if a < 0 {
        -1
    } else {
        0
    }
}

fn first_crossing_exec(o: i64, d: i64, f: i64) -> (r: i128)
    requires
        f == o / 1024,
    ensures
        r == first_crossing(o as int, d as int),
        0 <= r <= 1024,
{
    if d > 0 {
        ((f as i128) + 1) * 1024 - (o as i128)
    } else {
        (o as i128) - (f as i128) * 1024
    }
}

fn floor_fixed(o: i64) -> (r: i64)
    ensures
        r == o / 1024,
{
    match o.checked_div_euclid(FIXED_ONE) {
        Some(r) => r,
        None => 0,
    }
}

/// Whether `v` fits in an `i32`.
pub open spec fn fits_i32(v: i64) -> bool {
    i32::MIN <= v <= i32::MAX
}

/// The boundary parameter of an axis after the voxel moved from `v0` to `v`.
pub open spec fn crossing_after(n0: int, d: int, v0: int, v: int) -> int {
    n0 + 1024 * (v - v0) * sign(d)
}

/// The walk moved from `v0` to `v` only in the direction of `d`.
pub open spec fn moved_along(d: int, v0: int, v: int) -> bool {
    (v - v0) * sign(d) >= 0 && (d == 0 ==> v == v0)
}

impl World {
    /// Casts a ray from `start` in direction `dir` (fixed point, see
    /// `FIXED_ONE`) and returns the first solid voxel it enters, with the
    /// normal of the face it entered through; `None` if the ray has a zero
    /// direction, leaves the grid, or passes `max_dist` without a hit.
    pub fn raycast_first_solid(
        &self,
        start_x: i64,
        start_y: i64,
        start_z: i64,
        dir_x: i64,
        dir_y: i64,
        dir_z: i64,
        max_dist: i64,
    ) -> (r: Option<Hit>)
        requires
            self.wf(),
        ensures
            r == cast(
                self,
                (start_x as int, start_y as int, start_z as int),
                (dir_x as int, dir_y as int, dir_z as int),
                max_dist as int,
            ),
    {
        if dir_x == 0 && dir_y == 0 && dir_z == 0 {
            return None;
        }
        let fx = floor_fixed(start_x);
        let fy = floor_fixed(start_y);
        let fz = floor_fixed(start_z);
        if !(fits_i32_exec(fx) && fits_i32_exec(fy) && fits_i32_exec(fz)) {
            return None;
        }
        let mut vx: i64 = fx;
        let mut vy: i64 = fy;
        let mut vz: i64 = fz;
        let b0 = self.get_block(vx as i32, vy as i32, vz as i32);
        if b0 != Block::Air {
            return Some((vx as i32, vy as i32, vz as i32, b0, (0, 0, 0)));
        }
        let dx = dir_x as i128;
        let dy = dir_y as i128;
        let dz = dir_z as i128;
        let sx = sign_exec(dir_x);
        let sy = sign_exec(dir_y);
        let sz = sign_exec(dir_z);
        let mut nx: i128 = first_crossing_exec(start_x, dir_x, fx);
        let mut ny: i128 = first_crossing_exec(start_y, dir_y, fy);
        let mut nz: i128 = first_crossing_exec(start_z, dir_z, fz);
        let ghost n0 = (nx as int, ny as int, nz as int);
        let ghost d = (dir_x as int, dir_y as int, dir_z as int);
        let m = max_dist as i128;
        loop
            invariant
                self.wf(),
                d == (dir_x as int, dir_y as int, dir_z as int),
                d != (0int, 0int, 0int),
                dx == dir_x && dy == dir_y && dz == dir_z,
                sx == sign(d.0) && sy == sign(d.1) && sz == sign(d.2),
                m == max_dist,
                fits_i32(vx) && fits_i32(vy) && fits_i32(vz),
                fits_i32(fx) && fits_i32(fy) && fits_i32(fz),
                0 <= n0.0 <= 1024 && 0 <= n0.1 <= 1024 && 0 <= n0.2 <= 1024,
                moved_along(d.0, fx as int, vx as int),
                moved_along(d.1, fy as int, vy as int),
                moved_along(d.2, fz as int, vz as int),
                nx == crossing_after(n0.0, d.0, fx as int, vx as int),
                ny == crossing_after(n0.1, d.1, fy as int, vy as int),
                nz == crossing_after(n0.2, d.2, fz as int, vz as int),
                cast(
                    self,
                    (start_x as int, start_y as int, start_z as int),
                    d,
                    max_dist as int,
                ) == traverse(
                    self,
                    d,
                    max_dist as int,
                    (vx as int, vy as int, vz as int),
                    (nx as int, ny as int, nz as int),
                ),
            decreases room(vx as int, d.0) + room(vy as int, d.1) + room(vz as int, d.2),
        {
            proof {
                assert(0 <= nx <= 0x1000_0000_0000) by (nonlinear_arith)
                    requires
                        nx == n0.0 + 1024 * (vx - fx) * sign(d.0),
                        (vx - fx) * sign(d.0) >= 0,
                        0 <= n0.0 <= 1024,
                        fits_i32(vx),
                        fits_i32(fx),
                        -1 <= sign(d.0) <= 1,
                ;
                assert(0 <= ny <= 0x1000_0000_0000) by (nonlinear_arith)
                    requires
                        ny == n0.1 + 1024 * (vy - fy) * sign(d.1),
                        (vy - fy) * sign(d.1) >= 0,
                        0 <= n0.1 <= 1024,
                        fits_i32(vy),
                        fits_i32(fy),
                        -1 <= sign(d.1) <= 1,
                ;
                assert(0 <= nz <= 0x1000_0000_0000) by (nonlinear_arith)
                    requires
                        nz == n0.2 + 1024 * (vz - fz) * sign(d.2),
                        (vz - fz) * sign(d.2) >= 0,
                        0 <= n0.2 <= 1024,
                        fits_i32(vz),
                        fits_i32(fz),
                        -1 <= sign(d.2) <= 1,
                ;
            }
            let ghost n = (nx as int, ny as int, nz as int);
            let ghost v = (vx as int, vy as int, vz as int);
            let normal: (i32, i32, i32);
            if earlier_exec(nx, dx, ny, dy) && earlier_exec(nx, dx, nz, dz) {
                let reach = if dx < 0 {
                    -dx
                } else {
                    dx
                };
                if !within(nx, reach, m) {
                    return None;
                }
                proof {
                    lemma_step(n0.0, d.0, fx as int, vx as int);
                }
                vx = vx + sx;
                if !fits_i32_exec(vx) {
                    return None;
                }
                nx = nx + 1024;
                normal = ((-sx) as i32, 0, 0);
            } else if earlier_exec(ny, dy, nz, dz) {
                let reach = if dy < 0 {
                    -dy
                } else {
                    dy
                };
                if !within(ny, reach, m) {
                    return None;
                }
                proof {
                    lemma_step(n0.1, d.1, fy as int, vy as int);
                }
                vy = vy + sy;
                if !fits_i32_exec(vy) {
                    return None;
                }
                ny = ny + 1024;
                normal = (0, (-sy) as i32, 0);
            } else {
                let reach = if dz < 0 {
                    -dz
                } else {
                    dz
                };
                if !within(nz, reach, m) {
                    return None;
                }
                proof {
                    lemma_step(n0.2, d.2, fz as int, vz as int);
                }
                vz = vz + sz;
                if !fits_i32_exec(vz) {
                    return None;
                }
                nz = nz + 1024;
                normal = (0, 0, (-sz) as i32);
            }
            let b = self.get_block(vx as i32, vy as i32, vz as i32);
            if b != Block::Air {
                return Some((vx as i32, vy as i32, vz as i32, b, normal));
            }
        }
    }
}

proof fn lemma_step(n0: int, d: int, v0: int, v: int)
    requires
        moved_along(d, v0, v),
        d != 0,
    ensures
        moved_along(d, v0, v + sign(d)),
        crossing_after(n0, d, v0, v + sign(d)) == crossing_after(n0, d, v0, v) + 1024,
{
    assert((v + sign(d) - v0) * sign(d) == (v - v0) * sign(d) + 1) by (nonlinear_arith)
        requires
            sign(d) == 1 || sign(d) == -1,
    ;
    assert(1024 * (v + sign(d) - v0) * sign(d) == 1024 * (v - v0) * sign(d) + 1024) by (nonlinear_arith)
        requires
            (v + sign(d) - v0) * sign(d) == (v - v0) * sign(d) + 1,
    ;
}

fn within(tn: i128, td: i128, m: i128) -> (r: bool)
    requires
        0 <= tn <= 0x1000_0000_0000,
        1 <= td <= 0x8000_0000_0000_0000,
        -0x8000_0000_0000_0000 <= m < 0x8000_0000_0000_0000,
    ensures
        r == (tn * 1024 <= m * td),
{
    assert(-0x8000_0000_0000_0000 * 0x8000_0000_0000_0000 <= m * td <= 0x8000_0000_0000_0000
        * 0x8000_0000_0000_0000) by (nonlinear_arith)
        requires
            1 <= td <= 0x8000_0000_0000_0000,
            -0x8000_0000_0000_0000 <= m < 0x8000_0000_0000_0000,
    ;
    tn * 1024 <= m * td
}

fn fits_i32_exec(v: i64) -> (r: bool)
    ensures
        r == fits_i32(v),
{
    i32::MIN as i64 <= v && v <= i32::MAX as i64
}

} // verus!
