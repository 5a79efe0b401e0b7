use vstd::prelude::*;

use crate::block::Block;

verus! {

/// Edge length of a chunk, in blocks.
pub const CHUNK_SIZE: i32 = 16;

/// Number of blocks in a chunk.
pub const CHUNK_VOL: usize = 4096;

/// Position of a chunk on the chunk grid (in chunk units, not blocks).
#[derive(Clone, Copy, Debug, PartialEq, Eq, Structural, Hash)]
pub struct ChunkPos {
    pub cx: i32,
    pub cy: i32,
    pub cz: i32,
}

impl ChunkPos {
    /// The chunk position (cx, cy, cz).
    pub fn new(cx: i32, cy: i32, cz: i32) -> (r: ChunkPos)
        ensures
            r == (ChunkPos { cx, cy, cz }),
    {
        ChunkPos { cx, cy, cz }
    }
}

/// Floor division of a block coordinate by the chunk size.
pub open spec fn chunk_of(v: int) -> int {
    v / 16
}

/// Euclidean remainder of a block coordinate by the chunk size.
pub open spec fn local_of(v: int) -> int {
    v % 16
}

/// The chunk that holds block (x, y, z).
pub open spec fn chunk_pos_of(x: int, y: int, z: int) -> ChunkPos {
    ChunkPos { cx: chunk_of(x) as i32, cy: chunk_of(y) as i32, cz: chunk_of(z) as i32 }
}

/// Linear index of a local coordinate: x varies fastest, then z, then y.
pub open spec fn local_index(lx: int, ly: int, lz: int) -> int {
    lx + lz * 16 + ly * 256
}

/// Whether `l` is a local coordinate, in `0..16`.
pub open spec fn is_local(l: int) -> bool {
    0 <= l < 16
}

/// Coordinate inside the chunk, always in `0..16`.
pub fn in_chunk(v: i32) -> (r: i32)
    ensures
        r == local_of(v as int),
        0 <= r < 16,
{
    match v.checked_rem_euclid(CHUNK_SIZE) {
        Some(r) => r,
        None => 0,
    }
}

/// Chunk coordinate of a block coordinate (floor division by 16).
pub fn chunk_coord(v: i32) -> (r: i32)
    ensures
        r == chunk_of(v as int),
{
    match v.checked_div_euclid(CHUNK_SIZE) {
        Some(r) => r,
        None => 0,
    }
}

/// Linear index of local coordinates in a chunk's block array.
pub fn idx(lx: i32, ly: i32, lz: i32) -> (r: usize)
    requires
        is_local(lx as int),
        is_local(ly as int),
        is_local(lz as int),
    ensures
        r == local_index(lx as int, ly as int, lz as int),
        r < CHUNK_VOL,
{
    (lx as usize) + (lz as usize) * (CHUNK_SIZE as usize) + (ly as usize) * (CHUNK_SIZE as usize)
        * (CHUNK_SIZE as usize)
}

/// A 16x16x16 block of voxels with a flag that marks its mesh as stale.
/// `blocks` holds one entry per local position (see `wf`), laid out by `idx`.
#[derive(Debug, Clone)]
pub struct Chunk {
    pub pos: ChunkPos,
    pub blocks: Vec<Block>,
    pub dirty: bool,
}

impl View for Chunk {
    type V = Seq<Block>;

    open spec fn view(&self) -> Seq<Block> {
        self.blocks@
    }
}

impl Chunk {
    /// The block array always holds exactly one block per local position.
    pub open spec fn wf(&self) -> bool {
        self@.len() == CHUNK_VOL
    }

    /// The block at local coordinates, as the contracts see it.
    pub open spec fn local(&self, lx: int, ly: int, lz: int) -> Block {
        self@[local_index(lx, ly, lz)]
    }

    /// A fresh chunk: all `Air`, and dirty.
    pub fn new(pos: ChunkPos) -> (r: Chunk)
        ensures
            r.wf(),
            r.pos == pos,
            r.dirty,
            forall|i: int| 0 <= i < CHUNK_VOL ==> r@[i] == Block::Air,
    {
        Chunk { pos, blocks: vec![Block::Air; CHUNK_VOL], dirty: true }
    }

    /// The block at local coordinates (lx, ly, lz).
    pub fn get_local(&self, lx: i32, ly: i32, lz: i32) -> (r: Block)
        requires
            self.wf(),
            is_local(lx as int),
            is_local(ly as int),
            is_local(lz as int),
        ensures
            r == self.local(lx as int, ly as int, lz as int),
    {
        self.blocks[idx(lx, ly, lz)]
    }

    /// Writes one block and marks the chunk dirty.
    pub fn set_local(&mut self, lx: i32, ly: i32, lz: i32, b: Block)
        requires
            old(self).wf(),
            is_local(lx as int),
            is_local(ly as int),
            is_local(lz as int),
        ensures
            final(self).wf(),
            final(self)@ == old(self)@.update(local_index(lx as int, ly as int, lz as int), b),
            final(self).pos == old(self).pos,
            final(self).dirty,
    {
        let i = idx(lx, ly, lz);
        self.blocks.set(i, b);
        self.dirty = true;
    }
}

/// Splitting a coordinate into chunk and local parts loses nothing, and the
/// local part always lies in `0..16`.
pub proof fn lemma_coord_round_trip(v: int)
    ensures
        chunk_of(v) * 16 + local_of(v) == v,
        0 <= local_of(v) < 16,
{
}

/// Distinct local positions have distinct linear indices, all below the volume.
pub proof fn lemma_local_index_injective(a: (int, int, int), b: (int, int, int))
    requires
        is_local(a.0) && is_local(a.1) && is_local(a.2),
        is_local(b.0) && is_local(b.1) && is_local(b.2),
    ensures
        0 <= local_index(a.0, a.1, a.2) < CHUNK_VOL,
        local_index(a.0, a.1, a.2) == local_index(b.0, b.1, b.2) ==> a == b,
{
}

} // verus!
