use vstd::prelude::*;

use crate::chunk::ChunkPos;
use crate::mesher::{
    is_chunk_mesh, lemma_chunk_mesh_bounded, lemma_mesh_depends_on_blocks, mesh_chunk, mesh_in_range,
    Vertex,
};
use crate::block::Block;
use crate::chunk::chunk_pos_of;
use crate::streaming::{
    face_neighbours, in_window, maintain_chunk_window, mark_neighbours, window_in_range,
};
use crate::world::World;

verus! {

/// Upper bound on the vertices of one chunk mesh: four per quad, at most one
/// quad per unit face of the 3 x 17 planes of 16 x 16 faces.
pub const MAX_CHUNK_VERTICES: usize = 52224;

/// The last mesh built for one chunk.
pub struct ChunkMesh {
    pub pos: ChunkPos,
    pub vertices: Vec<Vertex>,
    pub indices: Vec<u32>,
}

impl ChunkMesh {
    /// The mesh is small and its indices point into its own vertex list.
    pub open spec fn bounded(&self) -> bool {
        &&& self.vertices@.len() <= MAX_CHUNK_VERTICES
        &&& forall|i: int| 0 <= i < self.indices@.len() ==> #[trigger] self.indices@[i] < self.vertices@.len()
    }
}

/// Meshes of chunks, at most one per chunk position.
pub struct MeshCache {
    entries: Vec<ChunkMesh>,
}

impl MeshCache {
    /// At most one mesh per chunk; every mesh bounded, of a chunk that can be meshed.
    pub closed spec fn wf(&self) -> bool {
        &&& forall|i: int, j: int|
            0 <= i < self.entries@.len() && 0 <= j < self.entries@.len() && i != j
                ==> #[trigger] self.entries@[i].pos != #[trigger] self.entries@[j].pos
        &&& forall|i: int| 0 <= i < self.entries@.len() ==> (#[trigger] self.entries@[i]).bounded()
            && mesh_in_range(self.entries@[i].pos)
    }

    /// Whether a mesh of chunk `p` is cached.
    pub closed spec fn has(&self, p: ChunkPos) -> bool {
        exists|i: int| 0 <= i < self.entries@.len() && #[trigger] self.entries@[i].pos == p
    }

    closed spec fn index_of(&self, p: ChunkPos) -> int {
        choose|i: int| 0 <= i < self.entries@.len() && #[trigger] self.entries@[i].pos == p
    }

    /// The cached mesh of chunk `p` (meaningful when `has(p)`).
    pub closed spec fn mesh(&self, p: ChunkPos) -> &ChunkMesh {
        &self.entries@[self.index_of(p)]
    }

    proof fn lemma_at(&self, i: int)
        requires
            self.wf(),
            0 <= i < self.entries@.len(),
        ensures
            self.has(self.entries@[i].pos),
            self.index_of(self.entries@[i].pos) == i,
    {
        let p = self.entries@[i].pos;
        assert(self.entries@[i].pos == p);
        let j = self.index_of(p);
        assert(0 <= j < self.entries@.len() && self.entries@[j].pos == p);
    }

    proof fn lemma_has(&self, p: ChunkPos)
        requires
            self.wf(),
            self.has(p),
        ensures
            0 <= self.index_of(p) < self.entries@.len(),
            self.entries@[self.index_of(p)].pos == p,
            self.mesh(p).bounded(),
            mesh_in_range(p),
    {
    }

    /// An empty cache.
    pub fn new() -> (r: MeshCache)
        ensures
            r.wf(),
            forall|p: ChunkPos| !(#[trigger] r.has(p)),
    {
        MeshCache { entries: Vec::new() }
    }

    fn find(&self, p: ChunkPos) -> (r: Option<usize>)
        requires
            self.wf(),
        ensures
            match r {
                Some(i) => i < self.entries@.len() && self.entries@[i as int].pos == p && self.has(p)
                    && self.index_of(p) == i,
                None => !self.has(p),
            },
    {
        let mut i: usize = 0;
        while i < self.entries.len()
            invariant
                self.wf(),
                i <= self.entries@.len(),
                forall|j: int| 0 <= j < i ==> self.entries@[j].pos != p,
            decreases self.entries@.len() - i,
        {
            if self.entries[i].pos == p {
                proof {
                    self.lemma_at(i as int);
                }
                return Some(i);
            }
            i = i + 1;
        }
        None
    }

    /// Whether a mesh of chunk `p` is cached.
    pub fn contains(&self, p: ChunkPos) -> (r: bool)
        requires
            self.wf(),
        ensures
            r == self.has(p),
    {
        self.find(p).is_some()
    }

    /// Stores the mesh of chunk `p`, replacing the one cached before.
    fn store(&mut self, m: ChunkMesh)
        requires
            old(self).wf(),
            m.bounded(),
            mesh_in_range(m.pos),
        ensures
            final(self).wf(),
            forall|q: ChunkPos| #[trigger] final(self).has(q) == (old(self).has(q) || q == m.pos),
            final(self).mesh(m.pos) == m,
            forall|q: ChunkPos| #[trigger]
                old(self).has(q) && q != m.pos ==> final(self).mesh(q) == old(self).mesh(q),
    {
        let p = m.pos;
        match self.find(p) {
            Some(i) => {
                self.entries.set(i, m);
                proof {
                    assert forall|q: ChunkPos| #[trigger] self.has(q) == (old(self).has(q) || q == p) by {
                        if old(self).has(q) {
                            let j = old(self).index_of(q);
                            assert(self.entries@[j].pos == q);
                        }
                        if self.has(q) {
                            let j = self.index_of(q);
                            assert(j != i ==> old(self).entries@[j].pos == q);
                        }
                    }
                    self.lemma_at(i as int);
                    assert forall|q: ChunkPos| #[trigger] old(self).has(q) && q != p implies self.mesh(q)
                        == old(self).mesh(q) by {
                        let j = old(self).index_of(q);
                        assert(self.entries@[j].pos == q);
                        self.lemma_at(j);
                    }
                }
            },
            None => {
                self.entries.push(m);
                proof {
                    let n = self.entries@.len() - 1;
                    assert forall|q: ChunkPos| #[trigger] self.has(q) == (old(self).has(q) || q == p) by {
                        if old(self).has(q) {
                            let j = old(self).index_of(q);
                            assert(self.entries@[j].pos == q);
                        }
                        if self.has(q) {
                            let j = self.index_of(q);
                            assert(j != n ==> old(self).entries@[j].pos == q);
                        }
                        if q == p {
                            assert(self.entries@[n].pos == q);
                        }
                    }
                    self.lemma_at(n);
                    assert forall|q: ChunkPos| #[trigger] old(self).has(q) && q != p implies self.mesh(q)
                        == old(self).mesh(q) by {
                        let j = old(self).index_of(q);
                        assert(self.entries@[j].pos == q);
                        self.lemma_at(j);
                    }
                }
            },
        }
    }

    /// Drops the mesh of chunk `p`; reports whether one was cached.
    pub fn remove(&mut self, p: ChunkPos) -> (removed: bool)
        requires
            old(self).wf(),
        ensures
            removed == old(self).has(p),
            final(self).wf(),
            forall|q: ChunkPos| #[trigger] final(self).has(q) == (old(self).has(q) && q != p),
            forall|q: ChunkPos| #[trigger] final(self).has(q) ==> final(self).mesh(q) == old(self).mesh(q),
    {
        match self.find(p) {
            Some(i) => {
                let ghost pre = self.entries@;
                self.entries.remove(i);
                proof {
                    assert forall|q: ChunkPos| #[trigger] self.has(q) == (old(self).has(q) && q != p) by {
                        if old(self).has(q) && q != p {
                            let j = old(self).index_of(q);
                            assert(j != i);
                            let j2 = if j < i { j } else { j - 1 };
                            assert(self.entries@[j2].pos == q);
                        }
                        if self.has(q) {
                            let j = self.index_of(q);
                            let j2 = if j < i { j } else { j + 1 };
                            assert(pre[j2].pos == q);
                        }
                    }
                    assert forall|q: ChunkPos| #[trigger] self.has(q) implies self.mesh(q) == old(self).mesh(q) by {
                        let j = self.index_of(q);
                        let j2 = if j < i { j } else { j + 1 };
                        assert(pre[j2].pos == q);
                        old(self).lemma_at(j2);
                    }
                }
                true
            },
            None => false,
        }
    }

    /// One vertex and one index buffer for the chunks in `visible` (those the
    /// camera can see), built from their cached meshes.
    pub fn combined_mesh(&self, visible: &Vec<ChunkPos>) -> (r: (Vec<Vertex>, Vec<u32>))
        requires
            self.wf(),
            visible@.len() <= 65536,
        ensures
            (r.0@, r.1@) == combined(self, visible@),
            forall|i: int| 0 <= i < r.1@.len() ==> #[trigger] r.1@[i] < r.0@.len(),
    {
        let mut verts: Vec<Vertex> = Vec::new();
        let mut inds: Vec<u32> = Vec::new();
        let mut k: usize = 0;
        while k < visible.len()
            invariant
                self.wf(),
                visible@.len() <= 65536,
                k <= visible@.len(),
                (verts@, inds@) == combined(self, visible@.subrange(0, k as int)),
                forall|i: int| 0 <= i < inds@.len() ==> #[trigger] inds@[i] < verts@.len(),
            decreases visible@.len() - k,
        {
            let ghost vis = visible@.subrange(0, k + 1);
            proof {
                assert(vis.drop_last() =~= visible@.subrange(0, k as int));
                lemma_combined_size(self, visible@.subrange(0, k as int));
                assert(verts@.len() <= k * MAX_CHUNK_VERTICES);
            }
            let p = visible[k];
            match self.find(p) {
                Some(e) => {
                    let m = &self.entries[e];
                    proof {
                        self.lemma_has(p);
                    }
                    let base = verts.len() as u32;
                    let ghost v0 = verts@;
                    let ghost i0 = inds@;
                    let mut a: usize = 0;
                    while a < m.vertices.len()
                        invariant
                            a <= m.vertices@.len(),
                            verts@ == v0 + m.vertices@.subrange(0, a as int),
                        decreases m.vertices@.len() - a,
                    {
                        verts.push(m.vertices[a]);
                        a = a + 1;
                        assert(verts@ =~= v0 + m.vertices@.subrange(0, a as int));
                    }
                    assert(verts@ =~= v0 + m.vertices@);
                    let mut b: usize = 0;
                    while b < m.indices.len()
                        invariant
                            m.bounded(),
                            b <= m.indices@.len(),
                            base == v0.len(),
                            v0.len() <= 65535 * MAX_CHUNK_VERTICES,
                            inds@ == i0 + m.indices@.subrange(0, b as int).map_values(
                                |i: u32| (i + v0.len()) as u32,
                            ),
                            verts@.len() == v0.len() + m.vertices@.len(),
                            forall|i: int| 0 <= i < inds@.len() ==> #[trigger] inds@[i] < verts@.len(),
                        decreases m.indices@.len() - b,
                    {
                        assert(m.indices@[b as int] < m.vertices@.len());
                        inds.push(m.indices[b] + base);
                        b = b + 1;
                        assert(inds@ =~= i0 + m.indices@.subrange(0, b as int).map_values(
                            |i: u32| (i + v0.len()) as u32,
                        ));
                    }
                    assert(verts@ =~= v0 + m.vertices@);
                    assert(m.indices@.subrange(0, m.indices@.len() as int) =~= m.indices@);
                },
                None => {},
            }
            k = k + 1;
        }
        assert(visible@.subrange(0, visible@.len() as int) =~= visible@);
        (verts, inds)
    }

    /// Drops the meshes of chunks that are no longer loaded.
    pub fn retain_loaded(&mut self, world: &World)
        requires
            old(self).wf(),
            world.wf(),
        ensures
            final(self).wf(),
            forall|q: ChunkPos| #[trigger] final(self).has(q) == (old(self).has(q) && world.has(q)),
            forall|q: ChunkPos| #[trigger] final(self).has(q) ==> final(self).mesh(q) == old(self).mesh(q),
    {
        let mut i: usize = 0;
        while i < self.entries.len()
            invariant
                self.wf(),
                world.wf(),
                i <= self.entries@.len(),
                forall|j: int| 0 <= j < i ==> world.has(#[trigger] self.entries@[j].pos),
                forall|q: ChunkPos| #[trigger] self.has(q) ==> old(self).has(q) && self.mesh(q) == old(
                    self,
                ).mesh(q),
                forall|q: ChunkPos| #[trigger] old(self).has(q) && world.has(q) ==> self.has(q),
            decreases self.entries@.len() - i,
        {
            let p = self.entries[i].pos;
            if world.has_chunk(p) {
                i = i + 1;
            } else {
                let ghost pre = self.entries@;
                let ghost before = *self;
                proof {
                    before.lemma_at(i as int);
                }
                self.entries.remove(i);
                proof {
                    assert forall|q: ChunkPos| #[trigger] self.has(q) implies old(self).has(q)
                        && self.mesh(q) == old(self).mesh(q) by {
                        let j = self.index_of(q);
                        let j2 = if j < i { j } else { j + 1 };
                        assert(pre[j2].pos == q);
                        before.lemma_at(j2);
                    }
                    assert forall|q: ChunkPos| #[trigger] old(self).has(q) && world.has(q) implies self.has(q) by {
                        let j = before.index_of(q);
                        assert(j != i);
                        let j2 = if j < i { j } else { j - 1 };
                        assert(self.entries@[j2].pos == q);
                    }
                }
            }
        }
        proof {
            assert forall|q: ChunkPos| #[trigger] self.has(q) implies world.has(q) by {
                let j = self.index_of(q);
                assert(world.has(self.entries@[j].pos));
            }
        }
    }

    /// Rebuilds the mesh of every loaded chunk that is dirty or has none yet
    /// (clearing its flag), and drops the meshes of unloaded chunks. A chunk
    /// that had no mesh first marks its six neighbours dirty, since their
    /// border faces were built against a missing chunk. Reports whether any
    /// mesh was built. Chunks on the outermost rim of the grid are not meshed.
    pub fn rebuild_dirty(&mut self, world: &mut World) -> (changed: bool)
        requires
            old(self).wf(),
            old(world).wf(),
        ensures
            final(world).wf(),
            final(world).ticks() == old(world).ticks(),
            final(world).same_blocks(old(world)),
            final(self).wf(),
            forall|p: ChunkPos| #[trigger] final(self).has(p) == (old(world).has(p) && mesh_in_range(p)),
            forall|p: ChunkPos| #[trigger]
                final(self).has(p) ==> is_chunk_mesh(
                    final(world),
                    p,
                    final(self).mesh(p).vertices@,
                    final(self).mesh(p).indices@,
                ) || (old(self).has(p) && final(self).mesh(p) == old(self).mesh(p)),
            forall|p: ChunkPos| #[trigger]
                final(self).has(p) && (old(world).dirty(p) || !old(self).has(p)) ==> is_chunk_mesh(
                    final(world),
                    p,
                    final(self).mesh(p).vertices@,
                    final(self).mesh(p).indices@,
                ),
            changed == exists|p: ChunkPos|
                old(world).has(p) && #[trigger] needs_mesh(old(world), old(self), p),
            forall|p: ChunkPos| #[trigger]
                final(world).dirty(p) ==> remarked(old(world), old(self), p),
    {
        let list = world.chunk_positions();
        let mut changed = false;
        let mut i: usize = 0;
        while i < list.len()
            invariant
                i <= list@.len(),
                list@.no_duplicates(),
                forall|p: ChunkPos| #[trigger] list@.contains(p) == old(world).has(p),
                world.wf(),
                world.ticks() == old(world).ticks(),
                world.same_blocks(old(world)),
                self.wf(),
                forall|p: ChunkPos| #[trigger]
                    self.has(p) == (old(self).has(p) || (list@.subrange(0, i as int).contains(p)
                        && mesh_in_range(p))),
                forall|p: ChunkPos| #[trigger]
                    self.has(p) ==> is_chunk_mesh(
                        old(world),
                        p,
                        self.mesh(p).vertices@,
                        self.mesh(p).indices@,
                    ) || (old(self).has(p) && self.mesh(p) == old(self).mesh(p)),
                forall|p: ChunkPos| #[trigger]
                    list@.subrange(0, i as int).contains(p) && mesh_in_range(p) && (old(world).dirty(p)
                        || !old(self).has(p)) ==> is_chunk_mesh(
                        old(world),
                        p,
                        self.mesh(p).vertices@,
                        self.mesh(p).indices@,
                    ),
                forall|p: ChunkPos| #[trigger]
                    old(world).dirty(p) && !list@.subrange(0, i as int).contains(p) ==> world.dirty(p),
                changed == exists|p: ChunkPos|
                    list@.subrange(0, i as int).contains(p) && #[trigger] needs_mesh(
                        old(world),
                        old(self),
                        p,
                    ),
                !changed ==> forall|p: ChunkPos| #[trigger] world.dirty(p) ==> old(world).dirty(p),
                forall|p: ChunkPos| #[trigger]
                    world.dirty(p) && list@.subrange(0, i as int).contains(p) ==> remarked(
                        old(world),
                        old(self),
                        p,
                    ),
            decreases list@.len() - i,
        {
            let cp = list[i];
            let ghost done = list@.subrange(0, i as int);
            let ghost next = list@.subrange(0, i + 1);
            proof {
                assert(next =~= done.push(cp));
                assert(!done.contains(cp)) by {
                    if done.contains(cp) {
                        let j = choose|j: int| 0 <= j < done.len() && done[j] == cp;
                        assert(list@[j] == list@[i as int]);
                    }
                }
                assert forall|q: ChunkPos| #[trigger] next.contains(q) == (done.contains(q) || q == cp) by {
                    if next.contains(q) {
                        let j = choose|j: int| 0 <= j < next.len() && next[j] == q;
                        if j < i {
                            assert(done[j] == q);
                        }
                    }
                    if done.contains(q) {
                        let j = choose|j: int| 0 <= j < done.len() && done[j] == q;
                        assert(next[j] == q);
                    }
                    if q == cp {
                        assert(next[i as int] == q);
                    }
                }
            }
            let ghost self0 = *self;
            let ghost world0 = *world;
            let ghost changed0 = changed;
            let was_dirty = world.take_chunk_dirty(cp);
            let ghost world1 = *world;
            let missing = !self.contains(cp);
            if (was_dirty || missing) && in_mesh_range(cp) {
                if missing {
                    mark_neighbours(world, cp);
                }
                let ghost w_now = *world;
                let (v, ix) = mesh_chunk(world, cp);
                proof {
                    lemma_mesh_depends_on_blocks(&w_now, old(world), cp, v@, ix@);
                    lemma_chunk_mesh_bounded(old(world), cp, v@, ix@);
                }
                self.store(ChunkMesh { pos: cp, vertices: v, indices: ix });
                changed = true;
            }
            proof {
                assert(old(world).dirty(cp) ==> was_dirty);
                assert(!old(self).has(cp) ==> missing);
                assert forall|p: ChunkPos| #[trigger]
                    world.dirty(p) && next.contains(p) implies remarked(old(world), old(self), p) by {
                    if world1.dirty(p) {
                        assert(world0.dirty(p) && p != cp);
                        assert(done.contains(p));
                    } else {
                        assert(missing && mesh_in_range(cp));
                        assert(!self0.has(cp));
                        assert(self0.has(cp) == old(self).has(cp));
                        assert(face_neighbours(cp, p));
                        assert(list@[i as int] == cp);
                        assert(list@.contains(cp));
                        assert(old(world).has(cp) && mesh_in_range(cp) && !old(self).has(cp));
                    }
                }
                assert forall|p: ChunkPos| #[trigger]
                    next.contains(p) && mesh_in_range(p) && (old(world).dirty(p) || !old(self).has(p))
                    implies is_chunk_mesh(old(world), p, self.mesh(p).vertices@, self.mesh(p).indices@) by {
                    if p != cp {
                        assert(done.contains(p));
                        assert(self0.has(p));
                    }
                }
                assert forall|p: ChunkPos| #[trigger]
                    old(world).dirty(p) && !next.contains(p) implies world.dirty(p) by {
                    assert(world0.dirty(p));
                    assert(world1.dirty(p));
                }
                if changed {
                    if changed0 {
                        let p = choose|p: ChunkPos|
                            done.contains(p) && #[trigger] needs_mesh(old(world), old(self), p);
                        assert(next.contains(p));
                    } else {
                        assert(world0.dirty(cp) ==> old(world).dirty(cp));
                        assert(next.contains(cp) && needs_mesh(old(world), old(self), cp));
                    }
                } else {
                    assert forall|p: ChunkPos| !(next.contains(p) && #[trigger] needs_mesh(
                        old(world),
                        old(self),
                        p,
                    )) by {
                        if p == cp {
                            assert(!(was_dirty || missing) || !mesh_in_range(cp));
                        } else if next.contains(p) {
                            assert(done.contains(p));
                        }
                    }
                }
            }
            i = i + 1;
        }
        proof {
            assert(list@.subrange(0, list@.len() as int) =~= list@);
            if changed {
                let p = choose|p: ChunkPos|
                    list@.subrange(0, list@.len() as int).contains(p) && #[trigger] needs_mesh(
                        old(world),
                        old(self),
                        p,
                    );
                assert(list@.contains(p));
                assert(old(world).has(p));
            } else {
                assert forall|p: ChunkPos| !(old(world).has(p) && #[trigger] needs_mesh(
                    old(world),
                    old(self),
                    p,
                )) by {
                    if old(world).has(p) {
                        assert(list@.contains(p));
                    }
                }
            }
        }
        let ghost mid = *self;
        self.retain_loaded(world);
        proof {
            assert forall|p: ChunkPos| #[trigger] self.has(p) implies is_chunk_mesh(
                world,
                p,
                self.mesh(p).vertices@,
                self.mesh(p).indices@,
            ) || (old(self).has(p) && self.mesh(p) == old(self).mesh(p)) by {
                if is_chunk_mesh(old(world), p, self.mesh(p).vertices@, self.mesh(p).indices@) {
                    lemma_mesh_depends_on_blocks(old(world), world, p, self.mesh(p).vertices@, self.mesh(p).indices@);
                }
            }
            assert forall|p: ChunkPos| #[trigger] self.has(p) && (old(world).dirty(p) || !old(self).has(p)) implies is_chunk_mesh(
                world,
                p,
                self.mesh(p).vertices@,
                self.mesh(p).indices@,
            ) by {
                assert(world.has(p));
                assert(list@.contains(p));
                mid.lemma_has(p);
                assert(mid.has(p));
                lemma_mesh_depends_on_blocks(old(world), world, p, self.mesh(p).vertices@, self.mesh(p).indices@);
            }
            assert forall|p: ChunkPos| #[trigger] world.dirty(p) implies remarked(old(world), old(self), p) by {
                assert(list@.contains(p));
            }
            assert forall|p: ChunkPos| #[trigger] self.has(p) == (old(world).has(p) && mesh_in_range(p)) by {
                if old(self).has(p) {
                    old(self).lemma_has(p);
                }
            }
        }
        changed
    }
}

/// The combined draw buffer of the cached meshes of the chunks in `vis`, in
/// that order: vertex lists one after the other, and each mesh's indices
/// shifted by the number of vertices before it. Chunks without a mesh add
/// nothing.
pub open spec fn combined(c: &MeshCache, vis: Seq<ChunkPos>) -> (Seq<Vertex>, Seq<u32>)
    decreases vis.len(),
{
    if vis.len() == 0 {
        (Seq::empty(), Seq::empty())
    } else {
        let prev = combined(c, vis.drop_last());
        let p = vis.last();
        if c.has(p) {
            let m = c.mesh(p);
            (
                prev.0 + m.vertices@,
                prev.1 + m.indices@.map_values(|i: u32| (i + prev.0.len()) as u32),
            )
        } else {
            prev
        }
    }
}

proof fn lemma_combined_size(c: &MeshCache, vis: Seq<ChunkPos>)
    requires
        c.wf(),
    ensures
        combined(c, vis).0.len() <= vis.len() * MAX_CHUNK_VERTICES,
    decreases vis.len(),
{
    if vis.len() > 0 {
        lemma_combined_size(c, vis.drop_last());
        if c.has(vis.last()) {
            c.lemma_has(vis.last());
        }
    }
}

/// Whether `p` is a face neighbour of a chunk that was loaded in `w` and
/// can be meshed but had no mesh in `c`: such chunks are marked dirty again
/// when that neighbour gets its first mesh.
pub open spec fn remarked(w: &World, c: &MeshCache, p: ChunkPos) -> bool {
    exists|q: ChunkPos|
        w.has(q) && mesh_in_range(q) && !c.has(q) && #[trigger] face_neighbours(q, p)
}

/// Whether chunk `p` is to be meshed: it can be, and it is dirty in `w` or
/// has no mesh in `c`.
pub open spec fn needs_mesh(w: &World, c: &MeshCache, p: ChunkPos) -> bool {
    mesh_in_range(p) && (w.dirty(p) || !c.has(p))
}

fn in_mesh_range(cp: ChunkPos) -> (r: bool)
    ensures
        r == mesh_in_range(cp),
{
    -0x800_0000 < cp.cx && cp.cx < 0x7ff_ffff && -0x800_0000 < cp.cy && cp.cy < 0x7ff_ffff
        && -0x800_0000 < cp.cz && cp.cz < 0x7ff_ffff
}

/// Keeps exactly the chunks of the window around `center` loaded (see
/// `maintain_chunk_window`) and drops the meshes of the chunks unloaded.
pub fn maintain_window_and_meshes(
    world: &mut World,
    cache: &mut MeshCache,
    center: ChunkPos,
    radius: i32,
)
    requires
        old(world).wf(),
        old(cache).wf(),
        window_in_range(center, radius as int),
    ensures
        final(world).wf(),
        final(cache).wf(),
        final(world).ticks() == old(world).ticks(),
        forall|p: ChunkPos| #[trigger]
            final(world).has(p) == (in_window(p, center, radius as int) && (radius >= 0 || old(
                world,
            ).has(p))),
        forall|x: i32, y: i32, z: i32| #[trigger]
            final(world).block_at(x, y, z) == if in_window(
                chunk_pos_of(x as int, y as int, z as int),
                center,
                radius as int,
            ) {
                old(world).block_at(x, y, z)
            } else {
                Block::Air
            },
        forall|p: ChunkPos| #[trigger] final(world).has(p) && !old(world).has(p) ==> final(world).dirty(p),
        forall|p: ChunkPos| #[trigger] final(world).has(p) && old(world).dirty(p) ==> final(world).dirty(p),
        forall|p: ChunkPos| #[trigger]
            final(cache).has(p) == (old(cache).has(p) && final(world).has(p)),
        forall|p: ChunkPos| #[trigger] final(cache).has(p) ==> final(cache).mesh(p) == old(cache).mesh(p),
{
    maintain_chunk_window(world, center, radius);
    cache.retain_loaded(world);
}

/// Unloads chunk `p` together with its mesh; reports whether it was loaded.
pub fn unload_chunk_and_mesh(world: &mut World, cache: &mut MeshCache, p: ChunkPos) -> (removed: bool)
    requires
        old(world).wf(),
        old(cache).wf(),
    ensures
        removed == old(world).has(p),
        final(world).wf(),
        final(cache).wf(),
        forall|q: ChunkPos| #[trigger] final(world).has(q) == (old(world).has(q) && q != p),
        forall|q: ChunkPos| #[trigger] final(world).has(q) ==> final(world).chunk(q) == old(world).chunk(q),
        forall|q: ChunkPos| #[trigger] final(cache).has(q) == (old(cache).has(q) && q != p),
        forall|q: ChunkPos| #[trigger] final(cache).has(q) ==> final(cache).mesh(q) == old(cache).mesh(q),
{
    let removed = world.unload_chunk(p);
    cache.remove(p);
    removed
}

} // verus!
