use vstd::prelude::*;

use crate::block::Block;
use crate::chunk::{chunk_coord, chunk_pos_of, ChunkPos};
use crate::world::{chunk_coord_in_range, offset, World};

verus! {

/// Whether chunk `p` belongs to the window of the given radius around
/// `center`: same vertical slab, and horizontal squared distance at most r².
pub open spec fn in_window(p: ChunkPos, center: ChunkPos, radius: int) -> bool {
    let dx = p.cx - center.cx;
    let dz = p.cz - center.cz;
    p.cy == center.cy && dx * dx + dz * dz <= radius * radius
}

/// Whether `p` and `q` share a face.
pub open spec fn face_neighbours(p: ChunkPos, q: ChunkPos) -> bool {
    ||| q == offset(p, 1, 0, 0)
    ||| q == offset(p, -1, 0, 0)
    ||| q == offset(p, 0, 1, 0)
    ||| q == offset(p, 0, -1, 0)
    ||| q == offset(p, 0, 0, 1)
    ||| q == offset(p, 0, 0, -1)
}

/// The window can be walked without leaving the addressable chunk range.
pub open spec fn window_in_range(center: ChunkPos, radius: int) -> bool {
    &&& -0x10000 <= radius <= 0x10000
    &&& chunk_coord_in_range(center.cx - radius - 1)
    &&& chunk_coord_in_range(center.cx + radius + 1)
    &&& chunk_coord_in_range(center.cy as int - 1)
    &&& chunk_coord_in_range(center.cy as int + 1)
    &&& chunk_coord_in_range(center.cz - radius - 1)
    &&& chunk_coord_in_range(center.cz + radius + 1)
}

/// The chunk that holds block (x, y, z); the player's chunk is this of the
/// floored player position.
pub fn chunk_pos_of_block(x: i32, y: i32, z: i32) -> (r: ChunkPos)
    ensures
        r == chunk_pos_of(x as int, y as int, z as int),
{
    ChunkPos { cx: chunk_coord(x), cy: chunk_coord(y), cz: chunk_coord(z) }
}

proof fn lemma_circle_in_square(dx: int, dz: int, r: int)
    requires
        0 <= r,
        dx * dx + dz * dz <= r * r,
    ensures
        -r <= dx <= r,
        -r <= dz <= r,
{
    assert(dx * dx <= r * r) by (nonlinear_arith)
        requires
            dx * dx + dz * dz <= r * r,
    ;
    assert(dz * dz <= r * r) by (nonlinear_arith)
        requires
            dx * dx + dz * dz <= r * r,
    ;
    assert(-r <= dx <= r) by (nonlinear_arith)
        requires
            dx * dx <= r * r,
            0 <= r,
    ;
    assert(-r <= dz <= r) by (nonlinear_arith)
        requires
            dz * dz <= r * r,
            0 <= r,
    ;
}

/// Marks the loaded face neighbours of `cp` dirty.
pub fn mark_neighbours(world: &mut World, cp: ChunkPos)
    requires
        old(world).wf(),
        chunk_coord_in_range(cp.cx as int - 1),
        chunk_coord_in_range(cp.cx as int + 1),
        chunk_coord_in_range(cp.cy as int - 1),
        chunk_coord_in_range(cp.cy as int + 1),
        chunk_coord_in_range(cp.cz as int - 1),
        chunk_coord_in_range(cp.cz as int + 1),
    ensures
        final(world).wf(),
        final(world).ticks() == old(world).ticks(),
        final(world).same_blocks(old(world)),
        forall|p: ChunkPos| #[trigger]
            final(world).dirty(p) == (old(world).dirty(p) || (old(world).has(p) && face_neighbours(
                cp,
                p,
            ))),
{
    let cx = cp.cx;
    let cy = cp.cy;
    let cz = cp.cz;
    let ghost w0 = *world;
    let ghost before = *world;
    world.mark_dirty(ChunkPos { cx: cx + 1, cy, cz });
    proof {
        world.lemma_same_blocks_trans(&before, &w0);
    }
    let ghost before = *world;
    world.mark_dirty(ChunkPos { cx: cx - 1, cy, cz });
    proof {
        world.lemma_same_blocks_trans(&before, &w0);
    }
    let ghost before = *world;
    world.mark_dirty(ChunkPos { cx, cy: cy + 1, cz });
    proof {
        world.lemma_same_blocks_trans(&before, &w0);
    }
    let ghost before = *world;
    world.mark_dirty(ChunkPos { cx, cy: cy - 1, cz });
    proof {
        world.lemma_same_blocks_trans(&before, &w0);
    }
    let ghost before = *world;
    world.mark_dirty(ChunkPos { cx, cy, cz: cz + 1 });
    proof {
        world.lemma_same_blocks_trans(&before, &w0);
    }
    let ghost before = *world;
    world.mark_dirty(ChunkPos { cx, cy, cz: cz - 1 });
    proof {
        world.lemma_same_blocks_trans(&before, &w0);
    }
}

/// Creates a chunk and, when it is new, marks its six face neighbours dirty
/// so that faces drawn against the missing chunk are rebuilt.
pub fn load_chunk(world: &mut World, cp: ChunkPos) -> (created: bool)
    requires
        old(world).wf(),
        chunk_coord_in_range(cp.cx as int - 1),
        chunk_coord_in_range(cp.cx as int + 1),
        chunk_coord_in_range(cp.cy as int - 1),
        chunk_coord_in_range(cp.cy as int + 1),
        chunk_coord_in_range(cp.cz as int - 1),
        chunk_coord_in_range(cp.cz as int + 1),
    ensures
        created == !old(world).has(cp),
        final(world).wf(),
        final(world).ticks() == old(world).ticks(),
        forall|p: ChunkPos| #[trigger] final(world).has(p) == (old(world).has(p) || p == cp),
        forall|p: ChunkPos| #[trigger]
            final(world).dirty(p) == (old(world).dirty(p) || (created && final(world).has(p) && (
            p == cp || face_neighbours(cp, p)))),
        forall|p: ChunkPos| #[trigger]
            old(world).has(p) ==> final(world).chunk(p)@ == old(world).chunk(p)@,
        forall|x: i32, y: i32, z: i32| #[trigger]
            final(world).block_at(x, y, z) == old(world).block_at(x, y, z),
{
    let created = world.ensure_chunk(cp);
    if created {
        let ghost w0 = *world;
        mark_neighbours(world, cp);
        assert forall|p: ChunkPos| #[trigger] old(world).has(p) implies world.chunk(p)@ == old(
            world,
        ).chunk(p)@ by {
            assert(w0.has(p));
            assert(world.has(p));
        }
    }
    created
}

/// Keeps exactly the chunks of the window around `center` loaded: creates
/// those missing (marking their neighbours dirty) and unloads all others.
/// Blocks of chunks that stay keep their values; new chunks are empty. A
/// negative radius creates nothing and keeps the loaded chunks of the window.
pub fn maintain_chunk_window(world: &mut World, center: ChunkPos, radius: i32)
    requires
        old(world).wf(),
        window_in_range(center, radius as int),
    ensures
        final(world).wf(),
        final(world).ticks() == old(world).ticks(),
        forall|p: ChunkPos| #[trigger]
            final(world).has(p) == (in_window(p, center, radius as int) && (radius >= 0 || old(
                world,
            ).has(p))),
        forall|x: i32, y: i32, z: i32| #[trigger]
            final(world).block_at(x, y, z) == if in_window(
                chunk_pos_of(x as int, y as int, z as int),
                center,
                radius as int,
            ) {
                old(world).block_at(x, y, z)
            } else {
                Block::Air
            },
        forall|p: ChunkPos| #[trigger]
            final(world).has(p) && old(world).dirty(p) ==> final(world).dirty(p),
        forall|p: ChunkPos| #[trigger]
            final(world).has(p) && !old(world).has(p) ==> final(world).dirty(p),
        forall|p: ChunkPos, q: ChunkPos| #[trigger]
            face_neighbours(q, p) && final(world).has(p) && final(world).has(q) && !old(
                world,
            ).has(q) ==> final(world).dirty(p),
{
    let r = radius;
    let mut dx: i32 = -r;
    while dx <= r
        invariant
            window_in_range(center, r as int),
            dx == -r || -r <= dx <= r + 1,
            world.wf(),
            world.ticks() == old(world).ticks(),
            forall|p: ChunkPos| #[trigger]
                world.has(p) == (old(world).has(p) || (p.cy == center.cy && -r <= p.cx - center.cx
                    < dx && -r <= p.cz - center.cz <= r)),
            forall|x: i32, y: i32, z: i32| #[trigger]
                world.block_at(x, y, z) == old(world).block_at(x, y, z),
            forall|p: ChunkPos| #[trigger] old(world).dirty(p) ==> world.dirty(p),
            forall|p: ChunkPos| #[trigger] world.has(p) && !old(world).has(p) ==> world.dirty(p),
            forall|p: ChunkPos, q: ChunkPos| #[trigger]
                face_neighbours(q, p) && world.has(p) && world.has(q) && !old(world).has(q)
                    ==> world.dirty(p),
        decreases r + 1 - dx,
    {
        let mut dz: i32 = -r;
        while dz <= r
            invariant
                window_in_range(center, r as int),
                -r <= dx <= r,
                -r <= dz <= r + 1,
                world.wf(),
                world.ticks() == old(world).ticks(),
                forall|p: ChunkPos| #[trigger]
                    world.has(p) == (old(world).has(p) || (p.cy == center.cy && -r <= p.cz
                        - center.cz <= r && (-r <= p.cx - center.cx < dx || (p.cx - center.cx == dx
                        && p.cz - center.cz < dz)))),
                forall|x: i32, y: i32, z: i32| #[trigger]
                    world.block_at(x, y, z) == old(world).block_at(x, y, z),
                forall|p: ChunkPos| #[trigger] old(world).dirty(p) ==> world.dirty(p),
                forall|p: ChunkPos| #[trigger] world.has(p) && !old(world).has(p) ==> world.dirty(p),
                forall|p: ChunkPos, q: ChunkPos| #[trigger]
                    face_neighbours(q, p) && world.has(p) && world.has(q) && !old(world).has(q)
                        ==> world.dirty(p),
            decreases r + 1 - dz,
        {
            let cp = ChunkPos { cx: center.cx + dx, cy: center.cy, cz: center.cz + dz };
            load_chunk(world, cp);
            dz = dz + 1;
        }
        dx = dx + 1;
    }
    let ghost mid = *world;
    let list = world.chunk_positions();
    assert(0 <= r * r <= 0x1_0000_0000) by (nonlinear_arith)
        requires
            -0x10000 <= r <= 0x10000,
    ;
    let keep_sq: i128 = (r as i128) * (r as i128);
    let mut i: usize = 0;
    while i < list.len()
        invariant
            0 <= i <= list@.len(),
            world.wf(),
            world.ticks() == old(world).ticks(),
            forall|p: ChunkPos| #[trigger] list@.contains(p) == mid.has(p),
            keep_sq == r * r,
            forall|p: ChunkPos| #[trigger]
                world.has(p) == (mid.has(p) && !(list@.subrange(0, i as int).contains(p)
                    && !in_window(p, center, r as int))),
            forall|p: ChunkPos| #[trigger] world.has(p) ==> world.chunk(p) == mid.chunk(p),
        decreases list@.len() - i,
    {
        let p = list[i];
        let ddx: i128 = (p.cx as i128) - (center.cx as i128);
        let ddz: i128 = (p.cz as i128) - (center.cz as i128);
        assert(0 <= ddx * ddx <= 0x1_0000_0000_0000_0000_0000) by (nonlinear_arith)
            requires
                -0x2_0000_0000 <= ddx <= 0x2_0000_0000,
        ;
        assert(0 <= ddz * ddz <= 0x1_0000_0000_0000_0000_0000) by (nonlinear_arith)
            requires
                -0x2_0000_0000 <= ddz <= 0x2_0000_0000,
        ;
        if ddx * ddx + ddz * ddz > keep_sq || p.cy != center.cy {
            world.unload_chunk(p);
        }
        proof {
            let pre = list@.subrange(0, i as int);
            let post = list@.subrange(0, i + 1);
            assert(post =~= pre.push(p));
            assert forall|q: ChunkPos| #[trigger] post.contains(q) == (pre.contains(q) || q == p) by {
                if post.contains(q) {
                    let j = choose|j: int| 0 <= j < post.len() && #[trigger] post[j] == q;
                    if j < i {
                        assert(pre[j] == q);
                    }
                }
                if pre.contains(q) {
                    let j = choose|j: int| 0 <= j < pre.len() && #[trigger] pre[j] == q;
                    assert(post[j] == q);
                }
                if q == p {
                    assert(post[i as int] == q);
                }
            }
        }
        i = i + 1;
    }
    proof {
        assert(list@.subrange(0, list@.len() as int) =~= list@);
        assert forall|p: ChunkPos| #[trigger] world.has(p) == (in_window(p, center, r as int) && (r
            >= 0 || old(world).has(p))) by {
            if in_window(p, center, r as int) && r >= 0 {
                lemma_circle_in_square(p.cx - center.cx, p.cz - center.cz, r as int);
            }
        }
        assert forall|x: i32, y: i32, z: i32| #[trigger]
            world.block_at(x, y, z) == if in_window(
                chunk_pos_of(x as int, y as int, z as int),
                center,
                r as int,
            ) {
                old(world).block_at(x, y, z)
            } else {
                Block::Air
            } by {
            let c = chunk_pos_of(x as int, y as int, z as int);
            assert(mid.block_at(x, y, z) == old(world).block_at(x, y, z));
            if world.has(c) {
                assert(world.chunk(c) == mid.chunk(c));
            }
        }
    }
}

} // verus!
