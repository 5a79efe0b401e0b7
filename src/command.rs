use vstd::prelude::*;

use crate::block::Block;
use crate::raycast::Hit;
use crate::chunk::{chunk_pos_of, ChunkPos};
use crate::world::World;

verus! {

/// A requested change of one block, applied once during a tick.
#[derive(Debug, Clone, Copy, PartialEq, Eq, Structural)]
pub enum Command {
    Break { x: i32, y: i32, z: i32 },
    Place { x: i32, y: i32, z: i32, block: Block },
}

/// The block coordinates next to a hit voxel across the face that was hit.
pub open spec fn in_front(hit: Hit) -> (int, int, int) {
    (hit.0 + hit.4.0, hit.1 + hit.4.1, hit.2 + hit.4.2)
}

/// Whether `v` fits in an `i32`.
pub open spec fn fits(v: int) -> bool {
    i32::MIN <= v <= i32::MAX
}

/// The commands that an interaction on a targeted voxel asks for: breaking
/// removes the hit voxel; placing puts stone in front of the face that was hit.
pub fn interaction_commands(hit: Hit, break_block: bool, place_block: bool) -> (r: Vec<Command>)
    requires
        fits(in_front(hit).0) && fits(in_front(hit).1) && fits(in_front(hit).2),
    ensures
        r@ == (if break_block {
            seq![Command::Break { x: hit.0, y: hit.1, z: hit.2 }]
        } else {
            Seq::empty()
        }) + (if place_block {
            seq![
                Command::Place {
                    x: in_front(hit).0 as i32,
                    y: in_front(hit).1 as i32,
                    z: in_front(hit).2 as i32,
                    block: Block::Stone,
                },
            ]
        } else {
            Seq::empty()
        }),
{
    let (x, y, z, _b, (nx, ny, nz)) = hit;
    let mut cmds: Vec<Command> = Vec::new();
    if break_block {
        cmds.push(Command::Break { x, y, z });
    }
    if place_block {
        cmds.push(Command::Place { x: x + nx, y: y + ny, z: z + nz, block: Block::Stone });
    }
    assert(cmds@ =~= (if break_block {
        seq![Command::Break { x: hit.0, y: hit.1, z: hit.2 }]
    } else {
        Seq::empty()
    }) + (if place_block {
        seq![
            Command::Place {
                x: in_front(hit).0 as i32,
                y: in_front(hit).1 as i32,
                z: in_front(hit).2 as i32,
                block: Block::Stone,
            },
        ]
    } else {
        Seq::empty()
    }));
    cmds
}

/// Applies one command to the world; always succeeds.
pub fn apply_command(world: &mut World, cmd: Command) -> (r: bool)
    requires
        old(world).wf(),
    ensures
        r,
        match cmd {
            Command::Break { x, y, z } => final(world).is_write_of(old(world), x, y, z, Block::Air),
            Command::Place { x, y, z, block } => final(world).is_write_of(old(world), x, y, z, block),
        },
{
    match cmd {
        Command::Break { x, y, z } => world.break_block(x, y, z),
        Command::Place { x, y, z, block } => world.place_block(x, y, z, block),
    }
}

/// The block that a command writes, and where.
pub open spec fn command_write(c: Command) -> (i32, i32, i32, Block) {
    match c {
        Command::Break { x, y, z } => (x, y, z, Block::Air),
        Command::Place { x, y, z, block } => (x, y, z, block),
    }
}

/// The block at (x, y, z) after the commands are applied in order to a world
/// in which it was `b`: the last command that writes there decides.
pub open spec fn block_after(cmds: Seq<Command>, x: i32, y: i32, z: i32, b: Block) -> Block
    decreases cmds.len(),
{
    if cmds.len() == 0 {
        b
    } else {
        let w = command_write(cmds.last());
        if w.0 == x && w.1 == y && w.2 == z {
            w.3
        } else {
            block_after(cmds.drop_last(), x, y, z, b)
        }
    }
}

/// Applies the commands of one tick in the order given; reports the result
/// of each (always success).
pub fn apply_commands(world: &mut World, cmds: &Vec<Command>) -> (r: Vec<bool>)
    requires
        old(world).wf(),
    ensures
        final(world).wf(),
        final(world).ticks() == old(world).ticks(),
        r@.len() == cmds@.len(),
        forall|i: int| 0 <= i < r@.len() ==> #[trigger] r@[i],
        forall|x: i32, y: i32, z: i32| #[trigger]
            final(world).block_at(x, y, z) == block_after(cmds@, x, y, z, old(world).block_at(x, y, z)),
        forall|i: int| 0 <= i < cmds@.len() ==> final(world).dirty(
            #[trigger] chunk_pos_of(
                command_write(cmds@[i]).0 as int,
                command_write(cmds@[i]).1 as int,
                command_write(cmds@[i]).2 as int,
            ),
        ),
        forall|p: ChunkPos| #[trigger] old(world).dirty(p) ==> final(world).dirty(p),
{
    let mut r: Vec<bool> = Vec::new();
    let mut k: usize = 0;
    while k < cmds.len()
        invariant
            k <= cmds@.len(),
            world.wf(),
            world.ticks() == old(world).ticks(),
            r@.len() == k,
            forall|i: int| 0 <= i < r@.len() ==> #[trigger] r@[i],
            forall|x: i32, y: i32, z: i32| #[trigger]
                world.block_at(x, y, z) == block_after(
                    cmds@.subrange(0, k as int),
                    x,
                    y,
                    z,
                    old(world).block_at(x, y, z),
                ),
            forall|i: int| 0 <= i < k ==> world.dirty(
                #[trigger] chunk_pos_of(
                    command_write(cmds@[i]).0 as int,
                    command_write(cmds@[i]).1 as int,
                    command_write(cmds@[i]).2 as int,
                ),
            ),
            forall|p: ChunkPos| #[trigger] old(world).dirty(p) ==> world.dirty(p),
        decreases cmds@.len() - k,
    {
        let ghost w0 = *world;
        let ok = apply_command(world, cmds[k]);
        r.push(ok);
        proof {
            let s = cmds@.subrange(0, k + 1);
            assert(s.drop_last() =~= cmds@.subrange(0, k as int));
            assert(s.last() == cmds@[k as int]);
            assert forall|p: ChunkPos| #[trigger] w0.dirty(p) implies world.dirty(p) by {}
        }
        k = k + 1;
    }
    assert(cmds@.subrange(0, cmds@.len() as int) =~= cmds@);
    r
}

} // verus!
