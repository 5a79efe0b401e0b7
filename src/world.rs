use std::collections::HashMap;

use vstd::prelude::*;

use crate::block::Block;
use crate::chunk::{
    chunk_coord, chunk_of, chunk_pos_of, in_chunk, is_local, local_index, local_of, Chunk,
    ChunkPos, CHUNK_SIZE, CHUNK_VOL,
};

verus! {

broadcast use vstd::std_specs::hash::group_hash_axioms;

/// The map key of a chunk position: the three coordinates packed into one integer.
pub open spec fn key_value(p: ChunkPos) -> int {
    p.cx as int * 0x1_0000_0000_0000_0000 + p.cy as int * 0x1_0000_0000 + p.cz as int
}

/// The map key of a chunk position, as stored.
pub open spec fn key_of(p: ChunkPos) -> i128 {
    key_value(p) as i128
}

fn chunk_key(p: ChunkPos) -> (r: i128)
    ensures
        r == key_of(p),
{
    (p.cx as i128) * 0x1_0000_0000_0000_0000i128 + (p.cy as i128) * 0x1_0000_0000i128 + (
    p.cz as i128)
}

/// Distinct chunk positions never share a map key.
pub proof fn lemma_key_injective(p: ChunkPos, q: ChunkPos)
    ensures
        key_of(p) == key_of(q) ==> p == q,
{
    assert(i128::MIN <= key_value(p) <= i128::MAX) by (nonlinear_arith)
        requires
            i32::MIN <= p.cx <= i32::MAX,
            i32::MIN <= p.cy <= i32::MAX,
            i32::MIN <= p.cz <= i32::MAX,
    ;
    assert(i128::MIN <= key_value(q) <= i128::MAX) by (nonlinear_arith)
        requires
            i32::MIN <= q.cx <= i32::MAX,
            i32::MIN <= q.cy <= i32::MAX,
            i32::MIN <= q.cz <= i32::MAX,
    ;
    if key_of(p) == key_of(q) {
        let a = p.cx as int - q.cx as int;
        let b = p.cy as int - q.cy as int;
        let c = p.cz as int - q.cz as int;
        assert(a * 0x1_0000_0000_0000_0000 + b * 0x1_0000_0000 + c == 0);
        assert(c == 0) by (nonlinear_arith)
            requires
                a * 0x1_0000_0000_0000_0000 + b * 0x1_0000_0000 + c == 0,
                -0x1_0000_0000 < b < 0x1_0000_0000,
                -0x1_0000_0000 < c < 0x1_0000_0000,
        ;
        assert(b == 0) by (nonlinear_arith)
            requires
                a * 0x1_0000_0000_0000_0000 + b * 0x1_0000_0000 == 0,
                -0x1_0000_0000 < b < 0x1_0000_0000,
        ;
        assert(a == 0) by (nonlinear_arith)
            requires
                a * 0x1_0000_0000_0000_0000 == 0,
        ;
    }
}

/// Two block coordinates with the same chunk and the same local index are equal.
proof fn lemma_same_cell(x: int, y: int, z: int, x2: int, y2: int, z2: int)
    ensures
        (chunk_of(x) == chunk_of(x2) && chunk_of(y) == chunk_of(y2) && chunk_of(z) == chunk_of(z2)
            && local_index(local_of(x), local_of(y), local_of(z)) == local_index(
            local_of(x2),
            local_of(y2),
            local_of(z2),
        )) ==> (x == x2 && y == y2 && z == z2),
{
    let l2 = (local_of(x2), local_of(y2), local_of(z2));
    let l1 = (local_of(x), local_of(y), local_of(z));
    crate::chunk::lemma_local_index_injective(l2, l1);
    crate::chunk::lemma_coord_round_trip(x);
    crate::chunk::lemma_coord_round_trip(y);
    crate::chunk::lemma_coord_round_trip(z);
    crate::chunk::lemma_coord_round_trip(x2);
    crate::chunk::lemma_coord_round_trip(y2);
    crate::chunk::lemma_coord_round_trip(z2);
}

/// The chunk position `p` moved by (dx, dy, dz).
pub open spec fn offset(p: ChunkPos, dx: int, dy: int, dz: int) -> ChunkPos {
    ChunkPos {
        cx: (p.cx as int + dx) as i32,
        cy: (p.cy as int + dy) as i32,
        cz: (p.cz as int + dz) as i32,
    }
}

/// Chunk coordinates that a block coordinate of type `i32` can reach.
pub open spec fn chunk_coord_in_range(c: int) -> bool {
    -0x800_0000 <= c < 0x800_0000
}

/// Whether writing block (x, y, z) must mark chunk `p` dirty because `p` is
/// the face neighbour across which that block lies on the chunk boundary.
pub open spec fn edge_neighbour(p: ChunkPos, x: i32, y: i32, z: i32) -> bool {
    edge_neighbour_local(
        p,
        chunk_pos_of(x as int, y as int, z as int),
        local_of(x as int),
        local_of(y as int),
        local_of(z as int),
    )
}

/// Whether `p` is the face neighbour of chunk `c` across the face on which
/// local position (lx, ly, lz) lies.
pub open spec fn edge_neighbour_local(p: ChunkPos, c: ChunkPos, lx: int, ly: int, lz: int) -> bool {
    ||| (lx == 0 && p == offset(c, -1, 0, 0))
    ||| (lx == 15 && p == offset(c, 1, 0, 0))
    ||| (ly == 0 && p == offset(c, 0, -1, 0))
    ||| (ly == 15 && p == offset(c, 0, 1, 0))
    ||| (lz == 0 && p == offset(c, 0, 0, -1))
    ||| (lz == 15 && p == offset(c, 0, 0, 1))
}

/// An unbounded voxel world: a sparse map from chunk positions to chunks.
/// Chunks come into being on the first write or on `ensure_chunk`, never on a read.
pub struct World {
    age_ticks: u64,
    chunks: HashMap<i128, Chunk>,
    order: Vec<ChunkPos>,
}

impl World {
    /// The map and the list of positions describe the same set of chunks,
    /// each stored under its own key with a full block array.
    pub closed spec fn wf(&self) -> bool {
        &&& self.order@.no_duplicates()
        &&& forall|i: int|
            0 <= i < self.order@.len() ==> #[trigger] self.chunks@.contains_key(
                key_of(self.order@[i]),
            )
        &&& forall|k: i128| #[trigger]
            self.chunks@.contains_key(k) ==> {
                &&& self.chunks@[k].wf()
                &&& key_of(self.chunks@[k].pos) == k
                &&& self.order@.contains(self.chunks@[k].pos)
            }
    }

    /// Whether the chunk at `p` is loaded.
    pub closed spec fn has(&self, p: ChunkPos) -> bool {
        self.chunks@.contains_key(key_of(p))
    }

    /// The loaded chunk at `p` (meaningful when `has(p)`).
    pub closed spec fn chunk(&self, p: ChunkPos) -> Chunk {
        self.chunks@[key_of(p)]
    }

    /// The number of ticks the world has lived.
    pub closed spec fn ticks(&self) -> u64 {
        self.age_ticks
    }

    /// Whether chunk `p` is loaded and its mesh is stale.
    pub open spec fn dirty(&self, p: ChunkPos) -> bool {
        self.has(p) && self.chunk(p).dirty
    }

    /// The block at (x, y, z): `Air` wherever no chunk is loaded.
    pub open spec fn block_at(&self, x: i32, y: i32, z: i32) -> Block {
        let p = chunk_pos_of(x as int, y as int, z as int);
        if self.has(p) {
            self.chunk(p).local(local_of(x as int), local_of(y as int), local_of(z as int))
        } else {
            Block::Air
        }
    }

    /// The set of loaded chunk positions.
    pub open spec fn loaded(&self) -> Set<ChunkPos> {
        Set::new(|p: ChunkPos| self.has(p))
    }

    /// Both worlds hold the same chunks with the same contents and flags.
    pub open spec fn same_chunks(&self, o: &World) -> bool {
        forall|p: ChunkPos| #[trigger]
            self.has(p) == o.has(p) && (self.has(p) ==> self.chunk(p) == o.chunk(p))
    }

    /// Both worlds hold the same chunks with the same blocks; flags may differ.
    pub open spec fn same_blocks(&self, o: &World) -> bool {
        &&& forall|p: ChunkPos| #[trigger] self.has(p) == o.has(p)
        &&& forall|p: ChunkPos| #[trigger] self.has(p) ==> self.chunk(p)@ == o.chunk(p)@
        &&& forall|x: i32, y: i32, z: i32| #[trigger]
            self.block_at(x, y, z) == o.block_at(x, y, z)
    }

    /// Keeping the same blocks is transitive.
    pub proof fn lemma_same_blocks_trans(&self, b: &World, c: &World)
        requires
            self.same_blocks(b),
            b.same_blocks(c),
        ensures
            self.same_blocks(c),
    {
    }

    /// `self` is `pre` after block (x, y, z) was set to `b`: the owning chunk
    /// exists and is dirty, and so is each loaded face neighbour across which
    /// the block lies on the boundary; nothing else changed.
    pub open spec fn is_write_of(&self, pre: &World, x: i32, y: i32, z: i32, b: Block) -> bool {
        let c = chunk_pos_of(x as int, y as int, z as int);
        &&& self.wf()
        &&& self.ticks() == pre.ticks()
        &&& forall|p: ChunkPos| #[trigger] self.has(p) == (pre.has(p) || p == c)
        &&& forall|p: ChunkPos| #[trigger]
            self.dirty(p) == (pre.dirty(p) || p == c || (pre.has(p) && edge_neighbour(p, x, y, z)))
        &&& forall|x2: i32, y2: i32, z2: i32| #[trigger]
            self.block_at(x2, y2, z2) == if x2 == x && y2 == y && z2 == z {
                b
            } else {
                pre.block_at(x2, y2, z2)
            }
    }

    /// A world that holds the starting area and nothing else.
    pub fn new() -> (r: World)
        ensures
            r.wf(),
            r.ticks() == 0,
            forall|x: i32, y: i32, z: i32| #[trigger] r.block_at(x, y, z) == spawn_block(x, y, z),
            forall|p: ChunkPos| #[trigger] r.has(p) == spawn_chunk(p),
            forall|p: ChunkPos| #[trigger] r.dirty(p) == spawn_chunk(p),
            r.loaded().len() == 16,
    {
        let mut w = World { age_ticks: 0, chunks: HashMap::new(), order: Vec::new() };
        assert forall|x: i32, y: i32, z: i32| #[trigger] w.block_at(x, y, z) == Block::Air by {
            assert(!w.chunks@.contains_key(key_of(chunk_pos_of(x as int, y as int, z as int))));
        }
        w.ensure_spawn_area();
        proof {
            lemma_spawn_chunk_count(&w);
        }
        w
    }

    /// Edge length of the square area, starting at the origin, that the
    /// top-down debug view shows.
    pub fn size(&self) -> (r: i32)
        ensures
            r == 16,
    {
        16
    }

    /// The block at (x, y, z); never `None` in an unbounded world.
    pub fn get_block_opt(&self, x: i32, y: i32, z: i32) -> (r: Option<Block>)
        requires
            self.wf(),
        ensures
            r == Some(self.block_at(x, y, z)),
    {
        Some(self.get_block(x, y, z))
    }

    /// Marks a loaded chunk dirty; does nothing for a chunk that is not loaded.
    pub fn mark_dirty(&mut self, cp: ChunkPos)
        requires
            old(self).wf(),
        ensures
            final(self).wf(),
            final(self).ticks() == old(self).ticks(),
            final(self).same_blocks(old(self)),
            forall|p: ChunkPos| #[trigger]
                final(self).dirty(p) == (old(self).dirty(p) || (p == cp && old(self).has(cp))),
    {
        let k = chunk_key(cp);
        match self.chunks.remove(&k) {
            Some(mut ch) => {
                ch.dirty = true;
                self.chunks.insert(k, ch);
                proof {
                    assert forall|p: ChunkPos| #[trigger] self.has(p) == old(self).has(p) by {
                        lemma_key_injective(p, cp);
                    }
                    assert forall|p: ChunkPos| #[trigger]
                        self.dirty(p) == (old(self).dirty(p) || (p == cp && old(self).has(cp))) by {
                        lemma_key_injective(p, cp);
                    }
                    assert forall|p: ChunkPos| #[trigger]
                        self.has(p) implies self.chunk(p)@ == old(self).chunk(p)@ by {
                        lemma_key_injective(p, cp);
                    }
                    assert forall|x: i32, y: i32, z: i32| #[trigger]
                        self.block_at(x, y, z) == old(self).block_at(x, y, z) by {
                        lemma_key_injective(chunk_pos_of(x as int, y as int, z as int), cp);
                    }
                }
            },
            None => {},
        }
    }

    /// Reports whether a loaded chunk was dirty, and clears its flag.
    pub fn take_chunk_dirty(&mut self, cp: ChunkPos) -> (was: bool)
        requires
            old(self).wf(),
        ensures
            was == old(self).dirty(cp),
            final(self).wf(),
            final(self).ticks() == old(self).ticks(),
            final(self).same_blocks(old(self)),
            forall|p: ChunkPos| #[trigger]
                final(self).dirty(p) == (old(self).dirty(p) && p != cp),
    {
        let k = chunk_key(cp);
        match self.chunks.remove(&k) {
            Some(mut ch) => {
                let was = ch.dirty;
                ch.dirty = false;
                self.chunks.insert(k, ch);
                proof {
                    assert forall|p: ChunkPos| #[trigger] self.has(p) == old(self).has(p) by {
                        lemma_key_injective(p, cp);
                    }
                    assert forall|p: ChunkPos| #[trigger]
                        self.dirty(p) == (old(self).dirty(p) && p != cp) by {
                        lemma_key_injective(p, cp);
                    }
                    assert forall|p: ChunkPos| #[trigger]
                        self.has(p) implies self.chunk(p)@ == old(self).chunk(p)@ by {
                        lemma_key_injective(p, cp);
                    }
                    assert forall|x: i32, y: i32, z: i32| #[trigger]
                        self.block_at(x, y, z) == old(self).block_at(x, y, z) by {
                        lemma_key_injective(chunk_pos_of(x as int, y as int, z as int), cp);
                    }
                }
                was
            },
            None => false,
        }
    }

    /// Advances the world's age by one tick.
    pub fn tick(&mut self)
        requires
            old(self).wf(),
            old(self).ticks() < u64::MAX,
        ensures
            final(self).wf(),
            final(self).ticks() == old(self).ticks() + 1,
            final(self).same_chunks(old(self)),
    {
        self.age_ticks = self.age_ticks + 1;
    }

    /// The number of ticks the world has lived.
    pub fn age(&self) -> (r: u64)
        ensures
            r == self.ticks(),
    {
        self.age_ticks
    }

    /// Number of loaded chunks.
    pub fn chunk_count(&self) -> (r: usize)
        requires
            self.wf(),
        ensures
            r == self.loaded().len(),
    {
        proof {
            self.lemma_order_is_loaded();
            self.order@.unique_seq_to_set();
        }
        self.order.len()
    }

    /// The loaded chunk positions, each once, in the order of creation.
    pub fn chunk_positions(&self) -> (r: Vec<ChunkPos>)
        requires
            self.wf(),
        ensures
            r@.no_duplicates(),
            forall|p: ChunkPos| #[trigger] r@.contains(p) == self.has(p),
    {
        let mut r: Vec<ChunkPos> = Vec::new();
        let mut i: usize = 0;
        while i < self.order.len()
            invariant
                i <= self.order@.len(),
                r@ == self.order@.subrange(0, i as int),
            decreases self.order@.len() - i,
        {
            r.push(self.order[i]);
            i = i + 1;
            assert(r@ =~= self.order@.subrange(0, i as int));
        }
        assert(r@ =~= self.order@);
        proof {
            self.lemma_order_is_loaded();
            assert forall|p: ChunkPos| #[trigger] r@.contains(p) == self.has(p) by {
                assert(r@.to_set().contains(p) == r@.contains(p));
            }
        }
        r
    }

    proof fn lemma_order_is_loaded(&self)
        requires
            self.wf(),
        ensures
            self.order@.to_set() == self.loaded(),
    {
        assert forall|p: ChunkPos| #[trigger] self.order@.to_set().contains(p) == self.has(p) by {
            if self.order@.contains(p) {
                let i = choose|i: int| 0 <= i < self.order@.len() && self.order@[i] == p;
                assert(self.chunks@.contains_key(key_of(self.order@[i])));
            }
            if self.has(p) {
                let k = key_of(p);
                assert(self.chunks@.contains_key(k));
                lemma_key_injective(self.chunks@[k].pos, p);
            }
        }
        assert(self.order@.to_set() =~= self.loaded());
    }

    /// Whether the chunk at `cp` is loaded.
    pub fn has_chunk(&self, cp: ChunkPos) -> (r: bool)
        requires
            self.wf(),
        ensures
            r == self.has(cp),
    {
        self.chunks.contains_key(&chunk_key(cp))
    }

    /// Creates the chunk at `cp`, all `Air` and dirty, unless it is loaded;
    /// reports whether it was created.
    pub fn ensure_chunk(&mut self, cp: ChunkPos) -> (created: bool)
        requires
            old(self).wf(),
        ensures
            created == !old(self).has(cp),
            final(self).wf(),
            final(self).ticks() == old(self).ticks(),
            forall|p: ChunkPos| #[trigger] final(self).has(p) == (old(self).has(p) || p == cp),
            forall|p: ChunkPos| #[trigger]
                final(self).dirty(p) == (old(self).dirty(p) || (created && p == cp)),
            forall|p: ChunkPos| #[trigger]
                old(self).has(p) ==> final(self).chunk(p)@ == old(self).chunk(p)@,
            forall|x: i32, y: i32, z: i32| #[trigger]
                final(self).block_at(x, y, z) == old(self).block_at(x, y, z),
    {
        let k = chunk_key(cp);
        if self.chunks.contains_key(&k) {
            return false;
        }
        let ch = Chunk::new(cp);
        self.chunks.insert(k, ch);
        self.order.push(cp);
        proof {
            assert(!old(self).order@.contains(cp));
            assert forall|i: int| 0 <= i < self.order@.len() implies #[trigger]
                self.chunks@.contains_key(key_of(self.order@[i])) by {
                if i < old(self).order@.len() {
                    assert(old(self).chunks@.contains_key(key_of(old(self).order@[i])));
                }
            }
            assert forall|k2: i128| #[trigger] self.chunks@.contains_key(k2) implies {
                &&& self.chunks@[k2].wf()
                &&& key_of(self.chunks@[k2].pos) == k2
                &&& self.order@.contains(self.chunks@[k2].pos)
            } by {
                if k2 != k {
                    let q = old(self).chunks@[k2].pos;
                    assert(old(self).order@.contains(q));
                    let j = choose|j: int| 0 <= j < old(self).order@.len() && old(self).order@[j] == q;
                    assert(self.order@[j] == q);
                } else {
                    assert(self.order@[self.order@.len() - 1] == cp);
                }
            }
            assert forall|p: ChunkPos| #[trigger] self.has(p) == (old(self).has(p) || p == cp) by {
                lemma_key_injective(p, cp);
            }
            assert forall|p: ChunkPos| #[trigger]
                self.dirty(p) == (old(self).dirty(p) || p == cp) by {
                lemma_key_injective(p, cp);
            }
            assert forall|x: i32, y: i32, z: i32| #[trigger]
                self.block_at(x, y, z) == old(self).block_at(x, y, z) by {
                let q = chunk_pos_of(x as int, y as int, z as int);
                lemma_key_injective(q, cp);
                if q == cp {
                    crate::chunk::lemma_local_index_injective(
                        (local_of(x as int), local_of(y as int), local_of(z as int)),
                        (0, 0, 0),
                    );
                }
            }
        }
        true
    }

    /// Drops the chunk at `cp`; reports whether it was loaded.
    pub fn unload_chunk(&mut self, cp: ChunkPos) -> (removed: bool)
        requires
            old(self).wf(),
        ensures
            removed == old(self).has(cp),
            final(self).wf(),
            final(self).ticks() == old(self).ticks(),
            forall|p: ChunkPos| #[trigger] final(self).has(p) == (old(self).has(p) && p != cp),
            forall|p: ChunkPos| #[trigger]
                final(self).has(p) ==> final(self).chunk(p) == old(self).chunk(p),
    {
        let k = chunk_key(cp);
        match self.chunks.remove(&k) {
            None => {
                proof {
                    assert forall|p: ChunkPos| #[trigger]
                        self.has(p) == (old(self).has(p) && p != cp) by {
                        lemma_key_injective(p, cp);
                    }
                }
                false
            },
            Some(_) => {
                let mut i: usize = 0;
                while i < self.order.len() && self.order[i] != cp
                    invariant
                        i <= self.order@.len(),
                        self.order@ == old(self).order@,
                        forall|j: int| 0 <= j < i ==> self.order@[j] != cp,
                    decreases self.order@.len() - i,
                {
                    i = i + 1;
                }
                proof {
                    let ck = old(self).chunks@[k];
                    assert(old(self).order@.contains(ck.pos));
                    lemma_key_injective(ck.pos, cp);
                }
                let ghost pre = self.order@;
                self.order.remove(i);
                proof {
                    assert(self.order@ =~= pre.remove(i as int));
                    assert forall|a: int, b: int|
                        0 <= a < self.order@.len() && 0 <= b < self.order@.len() && a != b
                        implies self.order@[a] != self.order@[b] by {
                        let a2 = if a < i { a } else { a + 1 };
                        let b2 = if b < i { b } else { b + 1 };
                        assert(pre[a2] != pre[b2]);
                    }
                    assert forall|j: int| 0 <= j < self.order@.len() implies #[trigger]
                        self.chunks@.contains_key(key_of(self.order@[j])) by {
                        let j2 = if j < i { j } else { j + 1 };
                        assert(self.order@[j] == pre[j2]);
                        assert(old(self).chunks@.contains_key(key_of(pre[j2])));
                        lemma_key_injective(pre[j2], cp);
                    }
                    assert forall|k2: i128| #[trigger] self.chunks@.contains_key(k2) implies {
                        &&& self.chunks@[k2].wf()
                        &&& key_of(self.chunks@[k2].pos) == k2
                        &&& self.order@.contains(self.chunks@[k2].pos)
                    } by {
                        let q = old(self).chunks@[k2].pos;
                        assert(pre.contains(q));
                        let j = choose|j: int| 0 <= j < pre.len() && pre[j] == q;
                        lemma_key_injective(q, cp);
                        assert(j != i);
                        let j2 = if j < i { j } else { j - 1 };
                        assert(self.order@[j2] == q);
                    }
                    assert forall|p: ChunkPos| #[trigger]
                        self.has(p) == (old(self).has(p) && p != cp) by {
                        lemma_key_injective(p, cp);
                    }
                }
                true
            },
        }
    }

    /// Writes `b` into an already loaded chunk and marks that chunk dirty.
    fn set_in_chunk(&mut self, cp: ChunkPos, lx: i32, ly: i32, lz: i32, b: Block)
        requires
            old(self).wf(),
            old(self).has(cp),
            is_local(lx as int),
            is_local(ly as int),
            is_local(lz as int),
        ensures
            final(self).wf(),
            final(self).ticks() == old(self).ticks(),
            forall|p: ChunkPos| #[trigger] final(self).has(p) == old(self).has(p),
            forall|p: ChunkPos| #[trigger]
                final(self).dirty(p) == (old(self).dirty(p) || p == cp),
            forall|p: ChunkPos| #[trigger]
                final(self).has(p) && p != cp ==> final(self).chunk(p)@ == old(self).chunk(p)@,
            final(self).chunk(cp)@ == old(self).chunk(cp)@.update(
                local_index(lx as int, ly as int, lz as int),
                b,
            ),
    {
        let k = chunk_key(cp);
        match self.chunks.remove(&k) {
            Some(mut ch) => {
                ch.set_local(lx, ly, lz, b);
                self.chunks.insert(k, ch);
                proof {
                    assert forall|p: ChunkPos| #[trigger] self.has(p) == old(self).has(p) by {
                        lemma_key_injective(p, cp);
                    }
                    assert forall|p: ChunkPos| #[trigger]
                        self.dirty(p) == (old(self).dirty(p) || p == cp) by {
                        lemma_key_injective(p, cp);
                    }
                    assert forall|p: ChunkPos| #[trigger]
                        self.has(p) && p != cp implies self.chunk(p)@ == old(self).chunk(p)@ by {
                        lemma_key_injective(p, cp);
                    }
                }
            },
            None => {},
        }
    }

    /// Sets block (x, y, z) to `b`, creating its chunk if needed, and marks the
    /// chunk dirty together with each loaded neighbour that shares the face on
    /// which the block lies. Always succeeds.
    pub fn set_block(&mut self, x: i32, y: i32, z: i32, b: Block) -> (r: bool)
        requires
            old(self).wf(),
        ensures
            r,
            final(self).is_write_of(old(self), x, y, z, b),
    {
        let cx = chunk_coord(x);
        let cy = chunk_coord(y);
        let cz = chunk_coord(z);
        let lx = in_chunk(x);
        let ly = in_chunk(y);
        let lz = in_chunk(z);
        let cp = ChunkPos { cx, cy, cz };
        assert(cp == chunk_pos_of(x as int, y as int, z as int));
        assert(chunk_coord_in_range(cx as int) && chunk_coord_in_range(cy as int)
            && chunk_coord_in_range(cz as int));
        self.ensure_chunk(cp);
        let ghost w1 = *self;
        self.set_in_chunk(cp, lx, ly, lz, b);
        proof {
            assert forall|x2: i32, y2: i32, z2: i32| #[trigger]
                self.block_at(x2, y2, z2) == if x2 == x && y2 == y && z2 == z {
                    b
                } else {
                    old(self).block_at(x2, y2, z2)
                } by {
                lemma_same_cell(x as int, y as int, z as int, x2 as int, y2 as int, z2 as int);
                let q = chunk_pos_of(x2 as int, y2 as int, z2 as int);
                let i2 = local_index(local_of(x2 as int), local_of(y2 as int), local_of(z2 as int));
                let i1 = local_index(local_of(x as int), local_of(y as int), local_of(z as int));
                crate::chunk::lemma_local_index_injective(
                    (local_of(x2 as int), local_of(y2 as int), local_of(z2 as int)),
                    (0, 0, 0),
                );
                assert(w1.block_at(x2, y2, z2) == old(self).block_at(x2, y2, z2));
                if q == cp {
                    assert(self.chunk(cp)@[i2] == if i2 == i1 { b } else { w1.chunk(cp)@[i2] });
                } else {
                    assert(self.has(q) == w1.has(q));
                }
            }
        }
        self.mark_edge_neighbours(cp, lx, ly, lz);
        true
    }

    /// Marks dirty each loaded face neighbour of `cp` across the face on which
    /// local position (lx, ly, lz) lies.
    fn mark_edge_neighbours(&mut self, cp: ChunkPos, lx: i32, ly: i32, lz: i32)
        requires
            old(self).wf(),
            chunk_coord_in_range(cp.cx as int),
            chunk_coord_in_range(cp.cy as int),
            chunk_coord_in_range(cp.cz as int),
            is_local(lx as int),
            is_local(ly as int),
            is_local(lz as int),
        ensures
            final(self).wf(),
            final(self).ticks() == old(self).ticks(),
            final(self).same_blocks(old(self)),
            forall|p: ChunkPos| #[trigger]
                final(self).dirty(p) == (old(self).dirty(p) || (old(self).has(p)
                    && edge_neighbour_local(p, cp, lx as int, ly as int, lz as int))),
    {
        let cx = cp.cx;
        let cy = cp.cy;
        let cz = cp.cz;
        if lx == 0 {
            self.mark_dirty(ChunkPos { cx: cx - 1, cy, cz });
        } else if lx == CHUNK_SIZE - 1 {
            self.mark_dirty(ChunkPos { cx: cx + 1, cy, cz });
        }
        if ly == 0 {
            self.mark_dirty(ChunkPos { cx, cy: cy - 1, cz });
        } else if ly == CHUNK_SIZE - 1 {
            self.mark_dirty(ChunkPos { cx, cy: cy + 1, cz });
        }
        if lz == 0 {
            self.mark_dirty(ChunkPos { cx, cy, cz: cz - 1 });
        } else if lz == CHUNK_SIZE - 1 {
            self.mark_dirty(ChunkPos { cx, cy, cz: cz + 1 });
        }
    }

    /// Sets block (x, y, z) to `Air`.
    pub fn break_block(&mut self, x: i32, y: i32, z: i32) -> (r: bool)
        requires
            old(self).wf(),
        ensures
            r,
            final(self).is_write_of(old(self), x, y, z, Block::Air),
    {
        self.set_block(x, y, z, Block::Air)
    }

    /// Sets block (x, y, z) to `b`.
    pub fn place_block(&mut self, x: i32, y: i32, z: i32, b: Block) -> (r: bool)
        requires
            old(self).wf(),
        ensures
            r,
            final(self).is_write_of(old(self), x, y, z, b),
    {
        self.set_block(x, y, z, b)
    }

    /// Whether block (x, y, z) is solid matter.
    pub fn is_solid(&self, x: i32, y: i32, z: i32) -> (r: bool)
        requires
            self.wf(),
        ensures
            r == self.block_at(x, y, z).solid(),
    {
        self.get_block(x, y, z) != Block::Air
    }

    /// Lays out the starting area: a 64x64 dirt floor at y = 0 and a small
    /// stone wall at z = 8. Blocks elsewhere keep their values.
    pub fn ensure_spawn_area(&mut self)
        requires
            old(self).wf(),
        ensures
            final(self).wf(),
            final(self).ticks() == old(self).ticks(),
            forall|x: i32, y: i32, z: i32| #[trigger]
                final(self).block_at(x, y, z) == if spawn_block(x, y, z) == Block::Air {
                    old(self).block_at(x, y, z)
                } else {
                    spawn_block(x, y, z)
                },
            forall|p: ChunkPos| #[trigger] final(self).has(p) == (old(self).has(p) || spawn_chunk(p)),
            forall|p: ChunkPos| #[trigger]
                final(self).dirty(p) <== (old(self).dirty(p) || spawn_chunk(p)),
    {
        let mut x: i32 = 0;
        while x < 64
            invariant
                0 <= x <= 64,
                self.wf(),
                self.ticks() == old(self).ticks(),
                forall|x2: i32, y2: i32, z2: i32| #[trigger]
                    self.block_at(x2, y2, z2) == if y2 == 0 && 0 <= x2 < x && 0 <= z2 < 64 {
                        Block::Dirt
                    } else {
                        old(self).block_at(x2, y2, z2)
                    },
                forall|p: ChunkPos| #[trigger]
                    self.has(p) == (old(self).has(p) || floor_done(p, x as int, 0)),
                forall|p: ChunkPos| #[trigger]
                    self.dirty(p) <== (old(self).dirty(p) || floor_done(p, x as int, 0)),
            decreases 64 - x,
        {
            let mut z: i32 = 0;
            while z < 64
                invariant
                    0 <= x < 64,
                    0 <= z <= 64,
                    self.wf(),
                    self.ticks() == old(self).ticks(),
                    forall|x2: i32, y2: i32, z2: i32| #[trigger]
                        self.block_at(x2, y2, z2) == if y2 == 0 && 0 <= z2 < 64 && (0 <= x2 < x
                            || (x2 == x && z2 < z)) {
                            Block::Dirt
                        } else {
                            old(self).block_at(x2, y2, z2)
                        },
                    forall|p: ChunkPos| #[trigger]
                        self.has(p) == (old(self).has(p) || floor_done(p, x as int, z as int)),
                    forall|p: ChunkPos| #[trigger]
                        self.dirty(p) <== (old(self).dirty(p) || floor_done(p, x as int, z as int)),
                decreases 64 - z,
            {
                let ghost w0 = *self;
                self.set_block(x, 0, z, Block::Dirt);
                proof {
                    let c = chunk_pos_of(x as int, 0, z as int);
                    lemma_div16(x as int, c.cx as int);
                    lemma_div16(0, 0);
                    lemma_div16(z as int, c.cz as int);
                    assert forall|p: ChunkPos| #[trigger]
                        floor_done(p, x as int, z + 1) == (floor_done(p, x as int, z as int) || p == c) by {
                        lemma_div16(x as int, p.cx as int);
                        lemma_div16(z as int, p.cz as int);
                    }
                }
                z = z + 1;
            }
            x = x + 1;
        }
        proof {
            assert forall|p: ChunkPos| #[trigger] floor_done(p, 64, 0) == spawn_chunk(p) by {}
        }
        let mut y: i32 = 1;
        while y <= 3
            invariant
                1 <= y <= 4,
                self.wf(),
                self.ticks() == old(self).ticks(),
                forall|x2: i32, y2: i32, z2: i32| #[trigger]
                    self.block_at(x2, y2, z2) == if y2 == 0 && 0 <= x2 < 64 && 0 <= z2 < 64 {
                        Block::Dirt
                    } else if 1 <= y2 < y && 3 <= x2 <= 5 && z2 == 8 {
                        Block::Stone
                    } else {
                        old(self).block_at(x2, y2, z2)
                    },
                forall|p: ChunkPos| #[trigger] self.has(p) == (old(self).has(p) || spawn_chunk(p)),
                forall|p: ChunkPos| #[trigger]
                    self.dirty(p) <== (old(self).dirty(p) || spawn_chunk(p)),
            decreases 4 - y,
        {
            let mut xw: i32 = 3;
            while xw <= 5
                invariant
                    1 <= y <= 3,
                    3 <= xw <= 6,
                    self.wf(),
                    self.ticks() == old(self).ticks(),
                    forall|x2: i32, y2: i32, z2: i32| #[trigger]
                        self.block_at(x2, y2, z2) == if y2 == 0 && 0 <= x2 < 64 && 0 <= z2 < 64 {
                            Block::Dirt
                        } else if 3 <= x2 <= 5 && z2 == 8 && (1 <= y2 < y || (y2 == y && x2
                            < xw)) {
                            Block::Stone
                        } else {
                            old(self).block_at(x2, y2, z2)
                        },
                    forall|p: ChunkPos| #[trigger] self.has(p) == (old(self).has(p) || spawn_chunk(p)),
                    forall|p: ChunkPos| #[trigger]
                        self.dirty(p) <== (old(self).dirty(p) || spawn_chunk(p)),
                decreases 6 - xw,
            {
                proof {
                    lemma_div16(xw as int, 0);
                    lemma_div16(y as int, 0);
                    lemma_div16(8, 0);
                    assert(spawn_chunk(chunk_pos_of(xw as int, y as int, 8)));
                }
                self.set_block(xw, y, 8, Block::Stone);
                xw = xw + 1;
            }
            y = y + 1;
        }
    }

    /// The block at (x, y, z); `Air` in chunks that are not loaded.
    pub fn get_block(&self, x: i32, y: i32, z: i32) -> (r: Block)
        requires
            self.wf(),
        ensures
            r == self.block_at(x, y, z),
    {
        let cp = ChunkPos { cx: chunk_coord(x), cy: chunk_coord(y), cz: chunk_coord(z) };
        let lx = in_chunk(x);
        let ly = in_chunk(y);
        let lz = in_chunk(z);
        assert(cp == chunk_pos_of(x as int, y as int, z as int));
        match self.chunks.get(&chunk_key(cp)) {
            Some(ch) => ch.get_local(lx, ly, lz),
            None => Block::Air,
        }
    }
}

/// Reading a block right after writing it gives the written block.
pub proof fn lemma_write_then_read(pre: &World, post: &World, x: i32, y: i32, z: i32, b: Block)
    requires
        post.is_write_of(pre, x, y, z, b),
    ensures
        post.block_at(x, y, z) == b,
{
}

/// Every block of a chunk that was never created reads as `Air`.
pub proof fn lemma_missing_chunk_reads_air(w: &World, x: i32, y: i32, z: i32)
    requires
        !w.has(chunk_pos_of(x as int, y as int, z as int)),
    ensures
        w.block_at(x, y, z) == Block::Air,
{
}

/// A write marks its own chunk dirty; a write at local x = 15 also marks the
/// loaded +X neighbour dirty, and one at local x = 0 the loaded -X neighbour
/// (and likewise on the other two axes).
pub proof fn lemma_edge_write_marks_neighbours(
    pre: &World,
    post: &World,
    x: i32,
    y: i32,
    z: i32,
    b: Block,
)
    requires
        post.is_write_of(pre, x, y, z, b),
    ensures
        ({
            let c = chunk_pos_of(x as int, y as int, z as int);
            &&& post.dirty(c)
            &&& local_of(x as int) == 15 && pre.has(offset(c, 1, 0, 0)) ==> post.dirty(offset(c, 1, 0, 0))
            &&& local_of(x as int) == 0 && pre.has(offset(c, -1, 0, 0)) ==> post.dirty(offset(c, -1, 0, 0))
            &&& local_of(y as int) == 15 && pre.has(offset(c, 0, 1, 0)) ==> post.dirty(offset(c, 0, 1, 0))
            &&& local_of(y as int) == 0 && pre.has(offset(c, 0, -1, 0)) ==> post.dirty(offset(c, 0, -1, 0))
            &&& local_of(z as int) == 15 && pre.has(offset(c, 0, 0, 1)) ==> post.dirty(offset(c, 0, 0, 1))
            &&& local_of(z as int) == 0 && pre.has(offset(c, 0, 0, -1)) ==> post.dirty(offset(c, 0, 0, -1))
        }),
{
    let c = chunk_pos_of(x as int, y as int, z as int);
    assert(post.dirty(c));
    assert(post.dirty(offset(c, 1, 0, 0)) == (pre.dirty(offset(c, 1, 0, 0)) || offset(c, 1, 0, 0) == c || (pre.has(offset(c, 1, 0, 0)) && edge_neighbour(offset(c, 1, 0, 0), x, y, z))));
    assert(post.dirty(offset(c, -1, 0, 0)) == (pre.dirty(offset(c, -1, 0, 0)) || offset(c, -1, 0, 0) == c || (pre.has(offset(c, -1, 0, 0)) && edge_neighbour(offset(c, -1, 0, 0), x, y, z))));
    assert(post.dirty(offset(c, 0, 1, 0)) == (pre.dirty(offset(c, 0, 1, 0)) || offset(c, 0, 1, 0) == c || (pre.has(offset(c, 0, 1, 0)) && edge_neighbour(offset(c, 0, 1, 0), x, y, z))));
    assert(post.dirty(offset(c, 0, -1, 0)) == (pre.dirty(offset(c, 0, -1, 0)) || offset(c, 0, -1, 0) == c || (pre.has(offset(c, 0, -1, 0)) && edge_neighbour(offset(c, 0, -1, 0), x, y, z))));
    assert(post.dirty(offset(c, 0, 0, 1)) == (pre.dirty(offset(c, 0, 0, 1)) || offset(c, 0, 0, 1) == c || (pre.has(offset(c, 0, 0, 1)) && edge_neighbour(offset(c, 0, 0, 1), x, y, z))));
    assert(post.dirty(offset(c, 0, 0, -1)) == (pre.dirty(offset(c, 0, 0, -1)) || offset(c, 0, 0, -1) == c || (pre.has(offset(c, 0, 0, -1)) && edge_neighbour(offset(c, 0, 0, -1), x, y, z))));
}

/// The chunks that hold the starting area: 4 x 4 chunks at the origin's level.
pub open spec fn spawn_chunk(p: ChunkPos) -> bool {
    p.cy == 0 && 0 <= p.cx < 4 && 0 <= p.cz < 4
}

/// The chunks of the floor written so far: all columns before `x`, and
/// column `x` up to `z`.
spec fn floor_done(p: ChunkPos, x: int, z: int) -> bool {
    &&& p.cy == 0
    &&& 0 <= p.cx
    &&& 0 <= p.cz < 4
    &&& (p.cx * 16 < x || (p.cx * 16 <= x < p.cx * 16 + 16 && p.cz * 16 < z))
}

proof fn lemma_div16(v: int, c: int)
    ensures
        (chunk_of(v) == c) == (c * 16 <= v < c * 16 + 16),
{
    vstd::arithmetic::div_mod::lemma_fundamental_div_mod(v, 16);
}

/// A world whose loaded chunks are exactly the spawn chunks holds sixteen.
proof fn lemma_spawn_chunk_count(w: &World)
    requires
        forall|p: ChunkPos| #[trigger] w.has(p) == spawn_chunk(p),
    ensures
        w.loaded().len() == 16,
{
    let s = Seq::new(16, |i: int| ChunkPos { cx: (i / 4) as i32, cy: 0, cz: (i % 4) as i32 });
    assert forall|a: int, b: int| 0 <= a < 16 && 0 <= b < 16 && a != b implies s[a] != s[b] by {
        vstd::arithmetic::div_mod::lemma_fundamental_div_mod(a, 4);
        vstd::arithmetic::div_mod::lemma_fundamental_div_mod(b, 4);
    }
    assert forall|p: ChunkPos| #[trigger] s.to_set().contains(p) == w.loaded().contains(p) by {
        if spawn_chunk(p) {
            let i = p.cx * 4 + p.cz;
            vstd::arithmetic::div_mod::lemma_fundamental_div_mod(i, 4);
            assert(s[i] == p);
        }
        if s.contains(p) {
            let i = choose|i: int| 0 <= i < s.len() && s[i] == p;
            vstd::arithmetic::div_mod::lemma_fundamental_div_mod(i, 4);
        }
    }
    assert(s.to_set() =~= w.loaded());
    s.unique_seq_to_set();
}

/// The block that a fresh world holds at (x, y, z): a 64x64 floor of dirt at
/// y = 0 and a 3x3 stone wall at z = 8.
pub open spec fn spawn_block(x: i32, y: i32, z: i32) -> Block {
    if y == 0 && 0 <= x < 64 && 0 <= z < 64 {
        Block::Dirt
    } else if 1 <= y <= 3 && 3 <= x <= 5 && z == 8 {
        Block::Stone
    } else {
        Block::Air
    }
}

} // verus!
