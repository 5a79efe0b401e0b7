use vstd::prelude::*;

use crate::block::Block;
use crate::chunk::{ChunkPos, CHUNK_SIZE};
use crate::world::World;

verus! {

/// A visible face between two neighbouring cells: the solid block's material
/// and whether the solid cell lies on the increasing side of the plane.
pub type FaceTag = (Block, bool);

/// Block coordinates of the point at depth `e` along `axis` and at (i, j) in
/// the other two axes, relative to the chunk's origin.
/// Axis 0 (X): i runs along Z, j along Y. Axis 1 (Y): i along X, j along Z.
/// Axis 2 (Z): i along X, j along Y.
pub open spec fn cell_coords(cp: ChunkPos, axis: int, e: int, i: int, j: int) -> (int, int, int) {
    let ox = cp.cx * 16;
    let oy = cp.cy * 16;
    let oz = cp.cz * 16;
    if axis == 0 {
        (ox + e, oy + j, oz + i)
    } else if axis == 1 {
        (ox + i, oy + e, oz + j)
    } else {
        (ox + i, oy + j, oz + e)
    }
}

/// The block at a point given as a triple of integers.
pub open spec fn block_at_coords(world: &World, c: (int, int, int)) -> Block {
    world.block_at(c.0 as i32, c.1 as i32, c.2 as i32)
}

/// The face that a naive mesher emits on plane `d` of `axis` at (i, j): the
/// exposed face of a solid block of this chunk, which lies just before the
/// plane (`d > 0`) or just after it (`d < 16`) and has air on the other
/// side. The other side is read across chunk borders, so a block whose
/// neighbour in the next chunk is solid has no face there, and a face of a
/// block in the next chunk is never this chunk's.
pub open spec fn face_at(world: &World, cp: ChunkPos, axis: int, d: int, i: int, j: int) -> Option<
    FaceTag,
> {
    let a = block_at_coords(world, cell_coords(cp, axis, d - 1, i, j));
    let b = block_at_coords(world, cell_coords(cp, axis, d, i, j));
    if a.solid() && !b.solid() && d > 0 {
        Some((a, false))
    } else if !a.solid() && b.solid() && d < 16 {
        Some((b, true))
    } else {
        None
    }
}

/// Whether (axis, d, i, j) addresses a unit face of a chunk: 3 axes, 17
/// planes per axis, 16x16 cells per plane.
pub open spec fn face_index_ok(axis: int, d: int, i: int, j: int) -> bool {
    0 <= axis < 3 && 0 <= d <= 16 && 0 <= i < 16 && 0 <= j < 16
}

/// A rectangle of unit faces on one plane of one axis, all of one tag.
#[derive(Clone, Copy, Debug, PartialEq, Eq, Structural)]
pub struct Quad {
    pub axis: i32,
    pub d: i32,
    pub i0: i32,
    pub j0: i32,
    pub w: i32,
    pub h: i32,
    pub block: Block,
    pub positive: bool,
}

impl Quad {
    /// The material and orientation of the quad's faces.
    pub open spec fn tag(self) -> FaceTag {
        (self.block, self.positive)
    }

    /// The quad is non-empty and lies inside one plane of the chunk.
    pub open spec fn in_bounds(self) -> bool {
        &&& 0 <= self.axis < 3
        &&& 0 <= self.d <= 16
        &&& 0 <= self.i0 && 1 <= self.w && self.i0 + self.w <= 16
        &&& 0 <= self.j0 && 1 <= self.h && self.j0 + self.h <= 16
    }

    /// Whether the quad covers unit face (i, j) of its plane.
    pub open spec fn covers(self, i: int, j: int) -> bool {
        self.i0 <= i < self.i0 + self.w && self.j0 <= j < self.j0 + self.h
    }

    /// Whether the quad covers unit face (axis, d, i, j).
    pub open spec fn covers_face(self, axis: int, d: int, i: int, j: int) -> bool {
        self.axis == axis && self.d == d && self.covers(i, j)
    }
}

/// Linear index of cell (i, j) of a plane mask, row by row.
pub open spec fn cell(i: int, j: int) -> int {
    j * 16 + i
}

/// `q` lies in the chunk and every face it covers is a face of the naive
/// mesher with the quad's tag.
pub open spec fn quad_matches(world: &World, cp: ChunkPos, q: Quad) -> bool {
    &&& q.in_bounds()
    &&& forall|i: int, j: int| #[trigger]
        q.covers(i, j) ==> face_at(world, cp, q.axis as int, q.d as int, i, j) == Some(q.tag())
}

/// The quads cover the faces of the naive mesher exactly: each quad covers
/// only such faces, with their tags, no face is covered twice, and every
/// such face is covered.
pub open spec fn exact_cover(world: &World, cp: ChunkPos, qs: Seq<Quad>) -> bool {
    &&& forall|k: int| 0 <= k < qs.len() ==> quad_matches(world, cp, #[trigger] qs[k])
    &&& forall|k1: int, k2: int, i: int, j: int|
        0 <= k1 < qs.len() && 0 <= k2 < qs.len() && k1 != k2 && qs[k1].axis == qs[k2].axis
            && qs[k1].d == qs[k2].d ==> !(#[trigger] qs[k1].covers(i, j) && #[trigger] qs[k2].covers(
            i,
            j,
        ))
    &&& forall|axis: int, d: int, i: int, j: int|
        face_index_ok(axis, d, i, j) && (#[trigger] face_at(world, cp, axis, d, i, j)) is Some
            ==> exists|k: int| 0 <= k < qs.len() && #[trigger] qs[k].covers_face(axis, d, i, j)
}

fn same_tag(m: Option<FaceTag>, t: FaceTag) -> (r: bool)
    ensures
        r == (m == Some(t)),
{
    match m {
        Some((b, s)) => b == t.0 && s == t.1,
        None => false,
    }
}

/// `q` is a quad of plane `d` of `axis` whose faces all carry its tag in `m`.
pub open spec fn fits_mask(m: Seq<Option<FaceTag>>, axis: int, d: int, q: Quad) -> bool {
    &&& q.in_bounds()
    &&& q.axis == axis
    &&& q.d == d
    &&& forall|i: int, j: int| #[trigger] q.covers(i, j) ==> m[cell(i, j)] == Some(q.tag())
}

/// Every cell of the plane mask holds the same face.
pub open spec fn uniform_mask(m: Seq<Option<FaceTag>>) -> bool {
    &&& m[0] is Some
    &&& forall|i: int, j: int| 0 <= i < 16 && 0 <= j < 16 ==> #[trigger] m[cell(i, j)] == m[0]
}

/// The quad that covers a whole plane with one tag.
pub open spec fn full_quad(axis: int, d: int, t: FaceTag) -> Quad {
    Quad { axis: axis as i32, d: d as i32, i0: 0, j0: 0, w: 16, h: 16, block: t.0, positive: t.1 }
}

/// Whether one of the quads `qs` covers cell (i, j) of its plane.
pub open spec fn covered_by(qs: Seq<Quad>, i: int, j: int) -> bool {
    exists|k: int| 0 <= k < qs.len() && #[trigger] qs[k].covers(i, j)
}

/// The greedy choice of `q` on mask `m` after the quads `prior` of the same
/// plane: every filled cell before its first cell (row by row) is covered
/// already, and neither the next cell of its first row nor the whole next row
/// under it is a still uncovered cell of its tag.
pub open spec fn mask_step(m: Seq<Option<FaceTag>>, prior: Seq<Quad>, q: Quad) -> bool {
    &&& forall|i: int, j: int|
        0 <= i < 16 && 0 <= j < 16 && (j < q.j0 || (j == q.j0 && i < q.i0)) && (
        #[trigger] m[cell(i, j)]) is Some ==> covered_by(prior, i, j)
    &&& q.i0 + q.w == 16 || !(m[cell(q.i0 + q.w, q.j0 as int)] == Some(q.tag()) && !covered_by(
        prior,
        q.i0 + q.w,
        q.j0 as int,
    ))
    &&& q.j0 + q.h == 16 || exists|di: int|
        0 <= di < q.w && !(#[trigger] m[cell(q.i0 + di, q.j0 + q.h)] == Some(q.tag())
            && !covered_by(prior, q.i0 + di, q.j0 + q.h))
}

/// No two quads of `qs` from index `lo` on share a face of their plane.
pub open spec fn disjoint_from(qs: Seq<Quad>, lo: int) -> bool {
    forall|k1: int, k2: int, i: int, j: int|
        lo <= k1 < qs.len() && lo <= k2 < qs.len() && k1 != k2 ==> !(#[trigger] qs[k1].covers(i, j)
            && #[trigger] qs[k2].covers(i, j))
}

/// Whether row `j` of `mask` holds tag `t` at columns `i0 .. i0 + w`.
fn row_matches(mask: &Vec<Option<FaceTag>>, j: i32, i0: i32, w: i32, t: FaceTag) -> (r: bool)
    requires
        mask@.len() == 256,
        0 <= j < 16,
        0 <= i0,
        0 <= w,
        i0 + w <= 16,
    ensures
        r == forall|di: int| 0 <= di < w ==> #[trigger] mask@[cell(i0 + di, j as int)] == Some(t),
{
    let mut k: i32 = 0;
    while k < w
        invariant
            0 <= k <= w,
            mask@.len() == 256,
            0 <= j < 16,
            0 <= i0,
            i0 + w <= 16,
            forall|di: int| 0 <= di < k ==> #[trigger] mask@[cell(i0 + di, j as int)] == Some(t),
        decreases w - k,
    {
        if !same_tag(mask[(j * 16 + i0 + k) as usize], t) {
            assert(mask@[cell(i0 + k, j as int)] != Some(t));
            return false;
        }
        k = k + 1;
    }
    true
}

/// Covers the filled cells of one plane mask with rectangles, greedily: cells
/// are scanned row by row; at each filled cell the rectangle grows first along
/// the row while the tag repeats, then row by row while the whole span repeats.
/// Each rectangle becomes a quad and its cells are cleared.
fn greedy_plane(mask: &mut Vec<Option<FaceTag>>, axis: i32, d: i32, quads: &mut Vec<Quad>)
    requires
        old(mask)@.len() == 256,
        0 <= axis < 3,
        0 <= d <= 16,
    ensures
        final(mask)@.len() == 256,
        old(quads)@.len() <= final(quads)@.len() <= old(quads)@.len() + 256,
        final(quads)@.subrange(0, old(quads)@.len() as int) == old(quads)@,
        forall|k: int|
            old(quads)@.len() <= k < final(quads)@.len() ==> fits_mask(
                old(mask)@,
                axis as int,
                d as int,
                #[trigger] final(quads)@[k],
            ),
        disjoint_from(final(quads)@, old(quads)@.len() as int),
        forall|i: int, j: int|
            0 <= i < 16 && 0 <= j < 16 && (#[trigger] old(mask)@[cell(i, j)]) is Some ==> exists|
                k: int,
            |
                old(quads)@.len() <= k < final(quads)@.len() && #[trigger] final(quads)@[k].covers(
                    i,
                    j,
                ),
        uniform_mask(old(mask)@) ==> final(quads)@.len() == old(quads)@.len() + 1 && final(quads)@[old(
            quads,
        )@.len() as int] == full_quad(axis as int, d as int, old(mask)@[0]->0),
        forall|k: int|
            old(quads)@.len() <= k < final(quads)@.len() ==> mask_step(
                old(mask)@,
                final(quads)@.subrange(old(quads)@.len() as int, k),
                #[trigger] final(quads)@[k],
            ),
{
    let ghost m0 = mask@;
    let ghost base = quads@.len() as int;
    let ghost mut owner: Seq<int> = Seq::new(256, |c: int| -1int);
    let mut j0: i32 = 0;
    while j0 < 16
        invariant
            0 <= j0 <= 16,
            0 <= axis < 3,
            0 <= d <= 16,
            mask@.len() == 256,
            owner.len() == 256,
            m0.len() == 256,
            base == old(quads)@.len(),
            base <= quads@.len() <= base + j0 * 16,
            quads@.subrange(0, base) == old(quads)@,
            forall|k: int|
                base <= k < quads@.len() ==> fits_mask(
                    m0,
                    axis as int,
                    d as int,
                    #[trigger] quads@[k],
                ),
            disjoint_from(quads@, base),
            forall|k: int|
                base <= k < quads@.len() ==> mask_step(
                    m0,
                    quads@.subrange(base, k),
                    #[trigger] quads@[k],
                ),
            forall|i: int, j: int|
                0 <= i < 16 && 0 <= j < 16 && (#[trigger] mask@[cell(i, j)]) is Some ==> mask@[cell(
                    i,
                    j,
                )] == m0[cell(i, j)] && forall|k: int|
                    base <= k < quads@.len() ==> !(#[trigger] quads@[k].covers(i, j)),
            forall|i: int, j: int|
                0 <= i < 16 && 0 <= j < 16 && (#[trigger] m0[cell(i, j)]) is Some && mask@[cell(
                    i,
                    j,
                )] is None ==> base <= owner[cell(i, j)] < quads@.len() && quads@[owner[cell(
                    i,
                    j,
                )]].covers(i, j),
            forall|i: int, j: int|
                0 <= i < 16 && 0 <= j < j0 ==> (#[trigger] mask@[cell(i, j)]) is None,
            uniform_mask(m0) && j0 > 0 ==> quads@.len() == base + 1 && quads@[base] == full_quad(
                axis as int,
                d as int,
                m0[0]->0,
            ) && forall|i: int, j: int|
                0 <= i < 16 && 0 <= j < 16 ==> (#[trigger] mask@[cell(i, j)]) is None,
            uniform_mask(m0) && j0 == 0 ==> quads@.len() == base && mask@ == m0,
        decreases 16 - j0,
    {
        let mut i0: i32 = 0;
        while i0 < 16
            invariant
                0 <= j0 < 16,
                0 <= i0 <= 16,
                0 <= axis < 3,
                0 <= d <= 16,
                mask@.len() == 256,
                owner.len() == 256,
                m0.len() == 256,
                base == old(quads)@.len(),
                base <= quads@.len() <= base + j0 * 16 + i0,
                quads@.subrange(0, base) == old(quads)@,
                forall|k: int|
                    base <= k < quads@.len() ==> fits_mask(
                        m0,
                        axis as int,
                        d as int,
                        #[trigger] quads@[k],
                    ),
                disjoint_from(quads@, base),
                forall|k: int|
                    base <= k < quads@.len() ==> mask_step(
                        m0,
                        quads@.subrange(base, k),
                        #[trigger] quads@[k],
                    ),
                forall|i: int, j: int|
                    0 <= i < 16 && 0 <= j < 16 && (#[trigger] mask@[cell(i, j)]) is Some
                        ==> mask@[cell(i, j)] == m0[cell(i, j)] && forall|k: int|
                        base <= k < quads@.len() ==> !(#[trigger] quads@[k].covers(i, j)),
                forall|i: int, j: int|
                    0 <= i < 16 && 0 <= j < 16 && (#[trigger] m0[cell(i, j)]) is Some
                        && mask@[cell(i, j)] is None ==> base <= owner[cell(i, j)] < quads@.len()
                        && quads@[owner[cell(i, j)]].covers(i, j),
                forall|i: int, j: int|
                    0 <= i < 16 && 0 <= j < 16 && (j < j0 || (j == j0 && i < i0))
                        ==> (#[trigger] mask@[cell(i, j)]) is None,
                uniform_mask(m0) && (j0 > 0 || i0 > 0) ==> quads@.len() == base + 1 && quads@[base]
                    == full_quad(axis as int, d as int, m0[0]->0) && forall|i: int, j: int|
                    0 <= i < 16 && 0 <= j < 16 ==> (#[trigger] mask@[cell(i, j)]) is None,
                uniform_mask(m0) && j0 == 0 && i0 == 0 ==> quads@.len() == base && mask@ == m0,
            decreases 16 - i0,
        {
            let c = (j0 * 16 + i0) as usize;
            match mask[c] {
                Some(t) => {
                    let ghost u = uniform_mask(m0) && j0 == 0 && i0 == 0;
                    assert(u ==> m0[0] == Some(t));
                    let mut w: i32 = 1;
                    while i0 + w < 16 && same_tag(mask[c + w as usize], t)
                        invariant
                            0 <= i0 < 16,
                            0 <= j0 < 16,
                            c == cell(i0 as int, j0 as int),
                            mask@.len() == 256,
                            m0.len() == 256,
                            u ==> uniform_mask(m0) && mask@ == m0 && m0[0] == Some(t) && i0 == 0 && j0 == 0,
                            1 <= w <= 16 - i0,
                            forall|di: int|
                                0 <= di < w ==> #[trigger] mask@[cell(i0 + di, j0 as int)] == Some(
                                    t,
                                ),
                        decreases 16 - w,
                    {
                        w = w + 1;
                    }
                    proof {
                        if u {
                            if w < 16 {
                                assert(mask@[cell(w as int, 0)] == Some(t));
                            }
                        }
                    }
                    let mut h: i32 = 1;
                    let mut grow = true;
                    while grow && j0 + h < 16
                        invariant
                            0 <= i0 < 16,
                            0 <= j0 < 16,
                            1 <= w <= 16 - i0,
                            mask@.len() == 256,
                            m0.len() == 256,
                            u ==> uniform_mask(m0) && mask@ == m0 && m0[0] == Some(t) && i0 == 0 && j0 == 0 && w == 16 && grow,
                            1 <= h <= 16 - j0,
                            !grow ==> j0 + h < 16 && exists|di: int|
                                0 <= di < w && #[trigger] mask@[cell(i0 + di, j0 + h)] != Some(t),
                            forall|di: int, dj: int|
                                0 <= di < w && 0 <= dj < h ==> #[trigger] mask@[cell(
                                    i0 + di,
                                    j0 + dj,
                                )] == Some(t),
                        decreases 16 - h + (if grow {
                            1int
                        } else {
                            0int
                        }),
                    {
                        proof {
                            if u {
                                assert forall|di: int| 0 <= di < w implies #[trigger] mask@[cell(i0 + di, (j0 + h) as int)] == Some(t) by {
                                    assert(mask@[cell(di, (j0 + h) as int)] == m0[0]);
                                }
                            }
                        }
                        if row_matches(mask, j0 + h, i0, w, t) {
                            assert forall|di: int, dj: int|
                                0 <= di < w && 0 <= dj < h + 1 implies #[trigger] mask@[cell(
                                    i0 + di,
                                    j0 + dj,
                                )] == Some(t) by {
                                if dj == h {
                                    assert(mask@[cell(i0 + di, (j0 + h) as int)] == Some(t));
                                }
                            }
                            h = h + 1;
                        } else {
                            grow = false;
                            assert(exists|di: int|
                                0 <= di < w && #[trigger] mask@[cell(i0 + di, j0 + h)] != Some(t));
                        }
                    }
                    assert(u ==> h == 16);
                    let q = Quad {
                        axis,
                        d,
                        i0,
                        j0,
                        w,
                        h,
                        block: t.0,
                        positive: t.1,
                    };
                    let ghost k_new = quads@.len() as int;
                    let ghost pre_mask = mask@;
                    let ghost pre_owner = owner;
                    proof {
                        assert forall|i: int, j: int| #[trigger] q.covers(i, j) implies m0[cell(
                            i,
                            j,
                        )] == Some(q.tag()) by {
                            assert(mask@[cell(i0 + (i - i0), j0 + (j - j0))] == Some(t));
                        }
                    }
                    let ghost pre_q = quads@;
                    proof {
                        let prior = pre_q.subrange(base, k_new);
                        assert forall|i: int, j: int|
                            0 <= i < 16 && 0 <= j < 16 && #[trigger] mask@[cell(i, j)] is None && m0[cell(
                                i,
                                j,
                            )] is Some implies covered_by(prior, i, j) by {
                            let o = owner[cell(i, j)];
                            assert(prior[o - base] == pre_q[o]);
                        }
                        if q.i0 + q.w < 16 {
                            assert(mask@[cell(i0 + w, j0 as int)] != Some(t));
                        }
                        if q.j0 + q.h < 16 {
                            let di = choose|di: int|
                                0 <= di < w && #[trigger] mask@[cell(i0 + di, j0 + h)] != Some(t);
                            assert(mask@[cell(q.i0 + di, q.j0 + q.h)] != Some(t));
                        }
                        assert(mask_step(m0, prior, q));
                    }
                    quads.push(q);
                    proof {
                        assert(quads@.subrange(0, base) =~= old(quads)@);
                        assert forall|k: int|
                            base <= k < quads@.len() implies mask_step(
                            m0,
                            quads@.subrange(base, k),
                            #[trigger] quads@[k],
                        ) by {
                            assert(quads@.subrange(base, k) =~= pre_q.subrange(base, k));
                            if k < k_new {
                                assert(quads@[k] == pre_q[k]);
                            }
                        }
                        assert forall|k: int|
                            base <= k < quads@.len() implies fits_mask(
                            m0,
                            axis as int,
                            d as int,
                            #[trigger] quads@[k],
                        ) by {
                            if k < k_new {
                                assert(quads@[k] == quads@.drop_last()[k]);
                            }
                        }
                        assert forall|k1: int, k2: int, i: int, j: int|
                            base <= k1 < quads@.len() && base <= k2 < quads@.len() && k1
                                != k2 implies !(#[trigger] quads@[k1].covers(i, j)
                            && #[trigger] quads@[k2].covers(i, j)) by {
                            if k1 == k_new && q.covers(i, j) {
                                assert(mask@[cell(i0 + (i - i0), j0 + (j - j0))] == Some(t));
                            }
                            if k2 == k_new && q.covers(i, j) {
                                assert(mask@[cell(i0 + (i - i0), j0 + (j - j0))] == Some(t));
                            }
                        }
                    }
                    let mut dy: i32 = 0;
                    while dy < h
                        invariant
                            0 <= i0 < 16,
                            0 <= j0 < 16,
                            1 <= w <= 16 - i0,
                            1 <= h <= 16 - j0,
                            0 <= dy <= h,
                            mask@.len() == 256,
                            owner.len() == 256,
                            m0.len() == 256,
                            k_new == quads@.len() - 1,
                            base <= k_new,
                            quads@[k_new] == q,
                            q.i0 == i0 && q.j0 == j0 && q.w == w && q.h == h,
                            forall|i: int, j: int|
                                0 <= i < 16 && 0 <= j < 16 ==> #[trigger] mask@[cell(i, j)] == if q.covers(i, j)
                                    && j < j0 + dy {
                                    None
                                } else {
                                    pre_mask[cell(i, j)]
                                },
                            forall|i: int, j: int|
                                0 <= i < 16 && 0 <= j < 16 && q.covers(i, j) && j < j0 + dy
                                    ==> #[trigger] owner[cell(i, j)] == k_new,
                            forall|i: int, j: int|
                                0 <= i < 16 && 0 <= j < 16 && !(q.covers(i, j) && j < j0 + dy)
                                    ==> #[trigger] owner[cell(i, j)] == pre_owner[cell(i, j)],
                        decreases h - dy,
                    {
                        let mut dx: i32 = 0;
                        while dx < w
                            invariant
                                0 <= i0 < 16,
                                0 <= j0 < 16,
                                1 <= w <= 16 - i0,
                                1 <= h <= 16 - j0,
                                0 <= dy < h,
                                0 <= dx <= w,
                                mask@.len() == 256,
                                owner.len() == 256,
                                q.i0 == i0 && q.j0 == j0 && q.w == w && q.h == h,
                                forall|i: int, j: int|
                                    0 <= i < 16 && 0 <= j < 16 ==> #[trigger] mask@[cell(i, j)] == if q.covers(i, j)
                                        && (j < j0 + dy || (j == j0 + dy && i < i0 + dx)) {
                                        None
                                    } else {
                                        pre_mask[cell(i, j)]
                                    },
                                forall|i: int, j: int|
                                    0 <= i < 16 && 0 <= j < 16 && q.covers(i, j) && (j < j0 + dy || (j
                                        == j0 + dy && i < i0 + dx)) ==> #[trigger] owner[cell(i, j)]
                                        == k_new,
                                forall|i: int, j: int|
                                    0 <= i < 16 && 0 <= j < 16 && !(q.covers(i, j) && (j < j0 + dy
                                        || (j == j0 + dy && i < i0 + dx))) ==> #[trigger] owner[cell(
                                        i,
                                        j,
                                    )] == pre_owner[cell(i, j)],
                            decreases w - dx,
                        {
                            let cc = ((j0 + dy) * 16 + i0 + dx) as usize;
                            mask.set(cc, None);
                            proof {
                                owner = owner.update(cc as int, k_new);
                            }
                            dx = dx + 1;
                        }
                        dy = dy + 1;
                    }
                },
                None => {},
            }
            i0 = i0 + 1;
        }
        j0 = j0 + 1;
    }
}

/// Chunks whose planes, and the cells on either side of them, have block
/// coordinates of type `i32`.
pub open spec fn mesh_in_range(cp: ChunkPos) -> bool {
    &&& -0x800_0000 < cp.cx < 0x7ff_ffff
    &&& -0x800_0000 < cp.cy < 0x7ff_ffff
    &&& -0x800_0000 < cp.cz < 0x7ff_ffff
}

fn plane_point(cp: ChunkPos, axis: i32, e: i32, i: i32, j: i32) -> (r: (i32, i32, i32))
    requires
        mesh_in_range(cp),
        0 <= axis < 3,
        -1 <= e <= 16,
        0 <= i <= 16,
        0 <= j <= 16,
    ensures
        (r.0 as int, r.1 as int, r.2 as int) == cell_coords(cp, axis as int, e as int, i as int, j as int),
{
    let ox = cp.cx * CHUNK_SIZE;
    let oy = cp.cy * CHUNK_SIZE;
    let oz = cp.cz * CHUNK_SIZE;
    if axis == 0 {
        (ox + e, oy + j, oz + i)
    } else if axis == 1 {
        (ox + i, oy + e, oz + j)
    } else {
        (ox + i, oy + j, oz + e)
    }
}

/// Fills `mask` with the faces of plane `d` of `axis`.
fn fill_mask(world: &World, cp: ChunkPos, axis: i32, d: i32, mask: &mut Vec<Option<FaceTag>>)
    requires
        world.wf(),
        mesh_in_range(cp),
        0 <= axis < 3,
        0 <= d <= 16,
        old(mask)@.len() == 256,
    ensures
        final(mask)@.len() == 256,
        forall|i: int, j: int|
            0 <= i < 16 && 0 <= j < 16 ==> #[trigger] final(mask)@[cell(i, j)] == face_at(
                world,
                cp,
                axis as int,
                d as int,
                i,
                j,
            ),
{
    let mut j: i32 = 0;
    while j < 16
        invariant
            world.wf(),
            mesh_in_range(cp),
            0 <= axis < 3,
            0 <= d <= 16,
            0 <= j <= 16,
            mask@.len() == 256,
            forall|i2: int, j2: int|
                0 <= i2 < 16 && 0 <= j2 < j ==> #[trigger] mask@[cell(i2, j2)] == face_at(
                    world,
                    cp,
                    axis as int,
                    d as int,
                    i2,
                    j2,
                ),
        decreases 16 - j,
    {
        let mut i: i32 = 0;
        while i < 16
            invariant
                world.wf(),
                mesh_in_range(cp),
                0 <= axis < 3,
                0 <= d <= 16,
                0 <= j < 16,
                0 <= i <= 16,
                mask@.len() == 256,
                forall|i2: int, j2: int|
                    0 <= i2 < 16 && 0 <= j2 < 16 && (j2 < j || (j2 == j && i2 < i))
                        ==> #[trigger] mask@[cell(i2, j2)] == face_at(
                        world,
                        cp,
                        axis as int,
                        d as int,
                        i2,
                        j2,
                    ),
            decreases 16 - i,
        {
            let pa = plane_point(cp, axis, d - 1, i, j);
            let pb = plane_point(cp, axis, d, i, j);
            let a = world.get_block(pa.0, pa.1, pa.2);
            let b = world.get_block(pb.0, pb.1, pb.2);
            let f = if a != Block::Air && b == Block::Air && d > 0 {
                Some((a, false))
            } else if a == Block::Air && b != Block::Air && d < 16 {
                Some((b, true))
            } else {
                None
            };
            mask.set((j * 16 + i) as usize, f);
            i = i + 1;
        }
        j = j + 1;
    }
}

/// Whether the plane of `a` comes no later than that of `b` in the sweep.
pub open spec fn plane_le(a: Quad, b: Quad) -> bool {
    a.axis < b.axis || (a.axis == b.axis && a.d <= b.d)
}

/// Whether one of the quads `qs` covers unit face (axis, d, i, j).
pub open spec fn covered_in(qs: Seq<Quad>, axis: int, d: int, i: int, j: int) -> bool {
    exists|k: int| 0 <= k < qs.len() && #[trigger] qs[k].covers_face(axis, d, i, j)
}

/// Whether (axis, d, i, j) is a face of tag `t` that none of `prior` covers.
pub open spec fn open_face(
    world: &World,
    cp: ChunkPos,
    prior: Seq<Quad>,
    axis: int,
    d: int,
    i: int,
    j: int,
    t: FaceTag,
) -> bool {
    face_at(world, cp, axis, d, i, j) == Some(t) && !covered_in(prior, axis, d, i, j)
}

/// The greedy choice of `q` after the quads `prior`: every face of its plane
/// before its first cell (row by row) is covered already, the face after the
/// end of its first row is not an open face of its tag, and neither is some
/// face of the row under its last row.
pub open spec fn scan_step(world: &World, cp: ChunkPos, prior: Seq<Quad>, q: Quad) -> bool {
    let a = q.axis as int;
    let d = q.d as int;
    &&& forall|i: int, j: int|
        0 <= i < 16 && 0 <= j < 16 && (j < q.j0 || (j == q.j0 && i < q.i0)) && (
        #[trigger] face_at(world, cp, a, d, i, j)) is Some ==> covered_in(prior, a, d, i, j)
    &&& q.i0 + q.w == 16 || !open_face(world, cp, prior, a, d, q.i0 + q.w, q.j0 as int, q.tag())
    &&& q.j0 + q.h == 16 || exists|di: int|
        0 <= di < q.w && !#[trigger] open_face(
            world,
            cp,
            prior,
            a,
            d,
            q.i0 + di,
            q.j0 + q.h,
            q.tag(),
        )
}

/// The quads come plane by plane in sweep order, and each is the greedy
/// choice after those before it.
pub open spec fn scan_order(world: &World, cp: ChunkPos, qs: Seq<Quad>) -> bool {
    &&& forall|k1: int, k2: int|
        0 <= k1 < k2 < qs.len() ==> plane_le(#[trigger] qs[k1], #[trigger] qs[k2])
    &&& forall|k: int| 0 <= k < qs.len() ==> scan_step(world, cp, qs.subrange(0, k), #[trigger] qs[k])
}

proof fn lemma_prior_cover(qs: Seq<Quad>, base: int, k: int, axis: int, d: int, i: int, j: int)
    requires
        0 <= base <= k <= qs.len(),
        forall|k2: int|
            0 <= k2 < base ==> plane_before(qs[k2].axis as int, qs[k2].d as int, axis, d),
        forall|k2: int| base <= k2 < k ==> qs[k2].axis == axis && qs[k2].d == d,
    ensures
        covered_in(qs.subrange(0, k), axis, d, i, j) == covered_by(qs.subrange(base, k), i, j),
{
    let g = qs.subrange(0, k);
    let l = qs.subrange(base, k);
    if covered_in(g, axis, d, i, j) {
        let k2 = choose|k2: int| 0 <= k2 < g.len() && #[trigger] g[k2].covers_face(axis, d, i, j);
        assert(g[k2] == qs[k2]);
        if k2 < base {
            assert(plane_before(qs[k2].axis as int, qs[k2].d as int, axis, d));
        }
        assert(k2 >= base);
        assert(l[k2 - base] == qs[k2]);
        assert(l[k2 - base].covers(i, j));
    }
    if covered_by(l, i, j) {
        let k2 = choose|k2: int| 0 <= k2 < l.len() && #[trigger] l[k2].covers(i, j);
        assert(l[k2] == qs[k2 + base]);
        assert(g[k2 + base] == qs[k2 + base]);
        assert(g[k2 + base].covers_face(axis, d, i, j));
    }
}

/// Whether plane (a2, d2) comes before plane (axis, d) in the sweep order.
pub open spec fn plane_before(a2: int, d2: int, axis: int, d: int) -> bool {
    a2 < axis || (a2 == axis && d2 < d)
}

/// The greedy quads of a chunk: for each axis, each of the 17 planes from the
/// chunk's lower face to its upper face is compared cell by cell, reading
/// neighbouring chunks at the borders, and its faces are merged greedily.
/// The quads cover exactly the faces that a one-quad-per-face mesher emits.
#[verifier::rlimit(50)]
pub fn greedy_quads(world: &World, cp: ChunkPos) -> (qs: Vec<Quad>)
    requires
        world.wf(),
        mesh_in_range(cp),
    ensures
        exact_cover(world, cp, qs@),
        merges_uniform_planes(world, cp, qs@),
        scan_order(world, cp, qs@),
        qs@.len() <= 51 * 256,
{
    let mut quads: Vec<Quad> = Vec::new();
    let mut mask: Vec<Option<FaceTag>> = vec![None; 256];
    let mut axis: i32 = 0;
    while axis < 3
        invariant
            world.wf(),
            mesh_in_range(cp),
            0 <= axis <= 3,
            mask@.len() == 256,
            quads@.len() <= axis * 17 * 256,
            forall|k: int|
                0 <= k < quads@.len() ==> quad_matches(world, cp, #[trigger] quads@[k])
                    && plane_before(quads@[k].axis as int, quads@[k].d as int, axis as int, 0),
            forall|k1: int, k2: int, i: int, j: int|
                0 <= k1 < quads@.len() && 0 <= k2 < quads@.len() && k1 != k2 && quads@[k1].axis
                    == quads@[k2].axis && quads@[k1].d == quads@[k2].d ==> !(
                #[trigger] quads@[k1].covers(i, j) && #[trigger] quads@[k2].covers(i, j)),
            forall|a2: int, d2: int, i: int, j: int|
                face_index_ok(a2, d2, i, j) && plane_before(a2, d2, axis as int, 0) && (#[trigger] face_at(
                    world,
                    cp,
                    a2,
                    d2,
                    i,
                    j,
                )) is Some ==> exists|k: int|
                    0 <= k < quads@.len() && #[trigger] quads@[k].covers_face(a2, d2, i, j),
            forall|a2: int, d2: int|
                0 <= a2 < 3 && 0 <= d2 <= 16 && plane_before(a2, d2, axis as int, 0)
                    && #[trigger] uniform_plane(world, cp, a2, d2) ==> exists|k: int|
                    0 <= k < quads@.len() && #[trigger] quads@[k] == full_quad(
                        a2,
                        d2,
                        face_at(world, cp, a2, d2, 0, 0)->0,
                    ),
            scan_order(world, cp, quads@),
        decreases 3 - axis,
    {
        let mut d: i32 = 0;
        while d <= 16
            invariant
                world.wf(),
                mesh_in_range(cp),
                0 <= axis < 3,
                0 <= d <= 17,
                mask@.len() == 256,
                quads@.len() <= (axis * 17 + d) * 256,
                forall|k: int|
                    0 <= k < quads@.len() ==> quad_matches(world, cp, #[trigger] quads@[k])
                        && plane_before(quads@[k].axis as int, quads@[k].d as int, axis as int, d as int),
                forall|k1: int, k2: int, i: int, j: int|
                    0 <= k1 < quads@.len() && 0 <= k2 < quads@.len() && k1 != k2 && quads@[k1].axis
                        == quads@[k2].axis && quads@[k1].d == quads@[k2].d ==> !(
                    #[trigger] quads@[k1].covers(i, j) && #[trigger] quads@[k2].covers(i, j)),
                forall|a2: int, d2: int, i: int, j: int|
                    face_index_ok(a2, d2, i, j) && plane_before(a2, d2, axis as int, d as int) && (
                    #[trigger] face_at(world, cp, a2, d2, i, j)) is Some ==> exists|k: int|
                        0 <= k < quads@.len() && #[trigger] quads@[k].covers_face(a2, d2, i, j),
                forall|a2: int, d2: int|
                    0 <= a2 < 3 && 0 <= d2 <= 16 && plane_before(a2, d2, axis as int, d as int)
                        && #[trigger] uniform_plane(world, cp, a2, d2) ==> exists|k: int|
                        0 <= k < quads@.len() && #[trigger] quads@[k] == full_quad(
                            a2,
                            d2,
                            face_at(world, cp, a2, d2, 0, 0)->0,
                        ),
                scan_order(world, cp, quads@),
            decreases 17 - d,
        {
            fill_mask(world, cp, axis, d, &mut mask);
            let ghost m = mask@;
            let ghost pre = quads@;
            greedy_plane(&mut mask, axis, d, &mut quads);
            proof {
                let base = pre.len() as int;
                assert forall|k: int| 0 <= k < quads@.len() implies quad_matches(
                    world,
                    cp,
                    #[trigger] quads@[k],
                ) && plane_before(quads@[k].axis as int, quads@[k].d as int, axis as int, d + 1) by {
                    if k < base {
                        assert(quads@[k] == quads@.subrange(0, base)[k]);
                    } else {
                        let q = quads@[k];
                        assert(fits_mask(m, axis as int, d as int, q));
                        assert forall|i: int, j: int| #[trigger] q.covers(i, j) implies face_at(
                            world,
                            cp,
                            q.axis as int,
                            q.d as int,
                            i,
                            j,
                        ) == Some(q.tag()) by {
                            assert(m[cell(i, j)] == Some(q.tag()));
                        }
                    }
                }
                assert forall|k1: int, k2: int, i: int, j: int|
                    0 <= k1 < quads@.len() && 0 <= k2 < quads@.len() && k1 != k2 && quads@[k1].axis
                        == quads@[k2].axis && quads@[k1].d == quads@[k2].d implies !(
                    #[trigger] quads@[k1].covers(i, j) && #[trigger] quads@[k2].covers(i, j)) by {
                    if k1 < base {
                        assert(quads@[k1] == quads@.subrange(0, base)[k1]);
                    }
                    if k2 < base {
                        assert(quads@[k2] == quads@.subrange(0, base)[k2]);
                    }
                }
                assert forall|a2: int, d2: int, i: int, j: int|
                    face_index_ok(a2, d2, i, j) && plane_before(a2, d2, axis as int, d + 1) && (
                    #[trigger] face_at(world, cp, a2, d2, i, j)) is Some implies exists|k: int|
                    0 <= k < quads@.len() && #[trigger] quads@[k].covers_face(a2, d2, i, j) by {
                    if plane_before(a2, d2, axis as int, d as int) {
                        let k = choose|k: int|
                            0 <= k < pre.len() && #[trigger] pre[k].covers_face(a2, d2, i, j);
                        assert(quads@[k] == quads@.subrange(0, base)[k]);
                    } else {
                        assert(m[cell(i, j)] is Some);
                        let k = choose|k: int|
                            base <= k < quads@.len() && #[trigger] quads@[k].covers(i, j);
                        assert(fits_mask(m, axis as int, d as int, quads@[k]));
                        assert(quads@[k].covers_face(a2, d2, i, j));
                    }
                }
                assert forall|a2: int, d2: int|
                    0 <= a2 < 3 && 0 <= d2 <= 16 && plane_before(a2, d2, axis as int, d + 1)
                        && #[trigger] uniform_plane(world, cp, a2, d2) implies exists|k: int|
                        0 <= k < quads@.len() && #[trigger] quads@[k] == full_quad(
                            a2,
                            d2,
                            face_at(world, cp, a2, d2, 0, 0)->0,
                        ) by {
                    if plane_before(a2, d2, axis as int, d as int) {
                        let k = choose|k: int|
                            0 <= k < pre.len() && #[trigger] pre[k] == full_quad(
                                a2,
                                d2,
                                face_at(world, cp, a2, d2, 0, 0)->0,
                            );
                        assert(quads@[k] == quads@.subrange(0, base)[k]);
                    } else {
                        assert(m[cell(0, 0)] == face_at(world, cp, a2, d2, 0, 0));
                        assert forall|i: int, j: int| 0 <= i < 16 && 0 <= j < 16 implies #[trigger] m[cell(i, j)] == m[0] by {
                            assert(m[cell(i, j)] == face_at(world, cp, a2, d2, i, j));
                        }
                        assert(uniform_mask(m));
                        assert(quads@[base] == full_quad(a2, d2, face_at(world, cp, a2, d2, 0, 0)->0));
                    }
                }
                assert forall|k1: int, k2: int|
                    0 <= k1 < k2 < quads@.len() implies plane_le(#[trigger] quads@[k1], #[trigger] quads@[k2]) by {
                    if k2 < base {
                        assert(quads@[k1] == pre[k1] && quads@[k2] == pre[k2]);
                    } else if k1 < base {
                        assert(quads@[k1] == pre[k1]);
                        assert(fits_mask(m, axis as int, d as int, quads@[k2]));
                    } else {
                        assert(fits_mask(m, axis as int, d as int, quads@[k1]));
                        assert(fits_mask(m, axis as int, d as int, quads@[k2]));
                    }
                }
                assert forall|k: int| 0 <= k < quads@.len() implies scan_step(world, cp, quads@.subrange(0, k), #[trigger] quads@[k]) by {
                    if k < base {
                        assert(quads@.subrange(0, k) =~= pre.subrange(0, k));
                        assert(quads@[k] == pre[k]);
                    } else {
                        let q = quads@[k];
                        let prior = quads@.subrange(base, k);
                        assert(fits_mask(m, axis as int, d as int, q));
                        assert(mask_step(m, prior, q));
                        assert forall|k2: int| 0 <= k2 < base implies plane_before(quads@[k2].axis as int, quads@[k2].d as int, axis as int, d as int) by {
                            assert(quads@[k2] == pre[k2]);
                        }
                        assert forall|k2: int| base <= k2 < k implies quads@[k2].axis == axis && quads@[k2].d == d by {
                            assert(fits_mask(m, axis as int, d as int, quads@[k2]));
                        }
                        assert forall|i: int, j: int| #![trigger covered_by(prior, i, j)] true implies covered_in(quads@.subrange(0, k), axis as int, d as int, i, j) == covered_by(prior, i, j) by {
                            lemma_prior_cover(quads@, base, k, axis as int, d as int, i, j);
                        }
                        assert forall|i: int, j: int|
                            0 <= i < 16 && 0 <= j < 16 && (j < q.j0 || (j == q.j0 && i < q.i0)) && (
                            #[trigger] face_at(world, cp, axis as int, d as int, i, j)) is Some implies covered_in(quads@.subrange(0, k), axis as int, d as int, i, j) by {
                            assert(m[cell(i, j)] == face_at(world, cp, axis as int, d as int, i, j));
                            lemma_prior_cover(quads@, base, k, axis as int, d as int, i, j);
                        }
                        if q.i0 + q.w < 16 {
                            assert(m[cell(q.i0 + q.w, q.j0 as int)] == face_at(world, cp, axis as int, d as int, q.i0 + q.w, q.j0 as int));
                            lemma_prior_cover(quads@, base, k, axis as int, d as int, q.i0 + q.w, q.j0 as int);
                        }
                        if q.j0 + q.h < 16 {
                            let di = choose|di: int|
                                0 <= di < q.w && !(#[trigger] m[cell(q.i0 + di, q.j0 + q.h)] == Some(q.tag())
                                    && !covered_by(prior, q.i0 + di, q.j0 + q.h));
                            assert(m[cell(q.i0 + di, q.j0 + q.h)] == face_at(world, cp, axis as int, d as int, q.i0 + di, q.j0 + q.h));
                            lemma_prior_cover(quads@, base, k, axis as int, d as int, q.i0 + di, q.j0 + q.h);
                            assert(!open_face(world, cp, quads@.subrange(0, k), axis as int, d as int, q.i0 + di, q.j0 + q.h, q.tag()));
                        }
                    }
                }
            }
            d = d + 1;
        }
        axis = axis + 1;
    }
    quads
}

/// A mesh vertex: a block corner and the material that colours it.
#[derive(Clone, Copy, Debug, PartialEq, Eq, Structural)]
pub struct Vertex {
    pub x: i32,
    pub y: i32,
    pub z: i32,
    pub block: Block,
}

/// Whether the corners of `q` run from the high end of its i-range. The
/// (i, j) axes of planes X and Y form a left-handed pair with the plane's
/// normal and those of plane Z a right-handed one, and the two orientations
/// face opposite ways; the order is chosen so that every quad is
/// counter-clockwise as seen from its air side.
pub open spec fn corners_reversed(q: Quad) -> bool {
    q.positive == (q.axis != 2)
}

/// Corner `c` (0 to 3) of a quad in plane coordinates.
pub open spec fn corner_ij(q: Quad, c: int) -> (int, int) {
    let ia = if corners_reversed(q) { q.i0 + q.w } else { q.i0 as int };
    let ib = if corners_reversed(q) { q.i0 as int } else { q.i0 + q.w };
    let j1 = q.j0 + q.h;
    if c == 0 {
        (ia, q.j0 as int)
    } else if c == 1 {
        (ia, j1)
    } else if c == 2 {
        (ib, j1)
    } else {
        (ib, q.j0 as int)
    }
}

/// Vertex `c` of quad `q` of chunk `cp`, on the quad's plane.
pub open spec fn quad_vertex(cp: ChunkPos, q: Quad, c: int) -> Vertex {
    let ij = corner_ij(q, c);
    let p = cell_coords(cp, q.axis as int, q.d as int, ij.0, ij.1);
    Vertex { x: p.0 as i32, y: p.1 as i32, z: p.2 as i32, block: q.block }
}

/// The vector from vertex `b` to vertex `a`.
pub open spec fn edge(a: Vertex, b: Vertex) -> (int, int, int) {
    (a.x - b.x, a.y - b.y, a.z - b.z)
}

pub open spec fn cross(u: (int, int, int), v: (int, int, int)) -> (int, int, int) {
    (u.1 * v.2 - u.2 * v.1, u.2 * v.0 - u.0 * v.2, u.0 * v.1 - u.1 * v.0)
}

/// The right-hand normal of quad `q`, cross(v1 - v0, v2 - v0), points to
/// the air side of the face (towards decreasing `axis` for a quad whose solid
/// cell lies after the plane, towards increasing `axis` otherwise), with
/// the quad's area as length: the quad is counter-clockwise seen from outside.
pub open spec fn winds_outward(cp: ChunkPos, q: Quad) -> bool {
    let v0 = quad_vertex(cp, q, 0);
    let n = if q.positive { -(q.w * q.h) } else { q.w * q.h };
    cross(edge(quad_vertex(cp, q, 1), v0), edge(quad_vertex(cp, q, 2), v0)) == if q.axis == 0 {
        (n, 0int, 0int)
    } else if q.axis == 1 {
        (0int, n, 0int)
    } else {
        (0int, 0int, n)
    }
}

/// Every quad of a chunk mesh winds counter-clockwise seen from its air side.
pub proof fn lemma_quad_winds_outward(cp: ChunkPos, q: Quad)
    requires
        mesh_in_range(cp),
        q.in_bounds(),
    ensures
        winds_outward(cp, q),
{
    let w = q.w as int;
    let h = q.h as int;
    let a = if corners_reversed(q) { -w } else { w };
    let v0 = quad_vertex(cp, q, 0);
    let e1 = edge(quad_vertex(cp, q, 1), v0);
    let e2 = edge(quad_vertex(cp, q, 2), v0);
    let c = cross(e1, e2);
    if q.axis == 0 {
        assert(e1 == (0int, h, 0int) && e2 == (0int, h, a));
        assert(c == (h * a, 0int, 0int)) by (nonlinear_arith)
            requires
                e1 == (0int, h, 0int),
                e2 == (0int, h, a),
                c == cross(e1, e2),
        ;
    } else if q.axis == 1 {
        assert(e1 == (0int, 0int, h) && e2 == (a, 0int, h));
        assert(c == (0int, h * a, 0int)) by (nonlinear_arith)
            requires
                e1 == (0int, 0int, h),
                e2 == (a, 0int, h),
                c == cross(e1, e2),
        ;
    } else {
        assert(e1 == (0int, h, 0int) && e2 == (a, h, 0int));
        assert(c == (0int, 0int, -(h * a))) by (nonlinear_arith)
            requires
                e1 == (0int, h, 0int),
                e2 == (a, h, 0int),
                c == cross(e1, e2),
        ;
    }
    assert(h * a == if a == w { w * h } else { -(w * h) }) by (nonlinear_arith)
        requires
            a == w || a == -w,
    ;
}

/// The corners of the two triangles of a quad: (0, 1, 2) and (0, 2, 3).
pub open spec fn triangle_corner(c: int) -> int {
    if c == 0 || c == 3 {
        0
    } else if c == 1 {
        1
    } else if c == 2 || c == 4 {
        2
    } else {
        3
    }
}

/// `verts` and `inds` hold, quad after quad, four vertices and six indices.
pub open spec fn is_mesh_of(cp: ChunkPos, qs: Seq<Quad>, verts: Seq<Vertex>, inds: Seq<u32>) -> bool {
    &&& verts.len() == 4 * qs.len()
    &&& inds.len() == 6 * qs.len()
    &&& forall|k: int, c: int|
        0 <= k < qs.len() && 0 <= c < 4 ==> #[trigger] verts[4 * k + c] == quad_vertex(cp, qs[k], c)
    &&& forall|k: int, c: int|
        0 <= k < qs.len() && 0 <= c < 6 ==> #[trigger] inds[6 * k + c] == 4 * k + triangle_corner(c)
}

/// Whether every face of plane `d` of `axis` exists and carries one tag.
pub open spec fn uniform_plane(world: &World, cp: ChunkPos, axis: int, d: int) -> bool {
    &&& face_at(world, cp, axis, d, 0, 0) is Some
    &&& forall|i: int, j: int|
        0 <= i < 16 && 0 <= j < 16 ==> #[trigger] face_at(world, cp, axis, d, i, j) == face_at(
            world,
            cp,
            axis,
            d,
            0,
            0,
        )
}

/// Each uniform plane is covered by a single full-plane quad.
pub open spec fn merges_uniform_planes(world: &World, cp: ChunkPos, qs: Seq<Quad>) -> bool {
    forall|axis: int, d: int|
        0 <= axis < 3 && 0 <= d <= 16 && #[trigger] uniform_plane(world, cp, axis, d) ==> exists|
            k: int,
        |
            0 <= k < qs.len() && #[trigger] qs[k] == full_quad(
                axis,
                d,
                face_at(world, cp, axis, d, 0, 0)->0,
            )
}

/// `qs` are greedy quads of chunk `cp` and `verts`, `inds` their mesh.
pub open spec fn greedy_mesh_of(
    world: &World,
    cp: ChunkPos,
    qs: Seq<Quad>,
    verts: Seq<Vertex>,
    inds: Seq<u32>,
) -> bool {
    &&& exact_cover(world, cp, qs)
    &&& scan_order(world, cp, qs)
    &&& merges_uniform_planes(world, cp, qs)
    &&& qs.len() <= 51 * 256
    &&& is_mesh_of(cp, qs, verts, inds)
    &&& forall|k: int| 0 <= k < qs.len() ==> winds_outward(cp, #[trigger] qs[k])
}

/// The mesh of a chunk: the vertices and indices of quads that cover exactly
/// the faces of the naive mesher, merging each uniform plane into one quad,
/// each quad wound counter-clockwise as seen from its air side.
pub open spec fn is_chunk_mesh(world: &World, cp: ChunkPos, verts: Seq<Vertex>, inds: Seq<u32>) -> bool {
    exists|qs: Seq<Quad>| #[trigger] greedy_mesh_of(world, cp, qs, verts, inds)
}

fn push_quad(cp: ChunkPos, q: Quad, verts: &mut Vec<Vertex>, inds: &mut Vec<u32>)
    requires
        mesh_in_range(cp),
        q.in_bounds(),
        old(verts)@.len() % 4 == 0,
        old(verts)@.len() <= 4 * 51 * 256,
    ensures
        final(verts)@ == old(verts)@ + seq![
            quad_vertex(cp, q, 0),
            quad_vertex(cp, q, 1),
            quad_vertex(cp, q, 2),
            quad_vertex(cp, q, 3),
        ],
        final(inds)@ == old(inds)@ + seq![
            old(verts)@.len() as u32,
            (old(verts)@.len() + 1) as u32,
            (old(verts)@.len() + 2) as u32,
            old(verts)@.len() as u32,
            (old(verts)@.len() + 2) as u32,
            (old(verts)@.len() + 3) as u32,
        ],
{
    let (ia, ib) = if q.positive == (q.axis != 2) {
        (q.i0 + q.w, q.i0)
    } else {
        (q.i0, q.i0 + q.w)
    };
    let j1 = q.j0 + q.h;
    let p0 = plane_point(cp, q.axis, q.d, ia, q.j0);
    let p1 = plane_point(cp, q.axis, q.d, ia, j1);
    let p2 = plane_point(cp, q.axis, q.d, ib, j1);
    let p3 = plane_point(cp, q.axis, q.d, ib, q.j0);
    let base = verts.len() as u32;
    verts.push(Vertex { x: p0.0, y: p0.1, z: p0.2, block: q.block });
    verts.push(Vertex { x: p1.0, y: p1.1, z: p1.2, block: q.block });
    verts.push(Vertex { x: p2.0, y: p2.1, z: p2.2, block: q.block });
    verts.push(Vertex { x: p3.0, y: p3.1, z: p3.2, block: q.block });
    inds.push(base);
    inds.push(base + 1);
    inds.push(base + 2);
    inds.push(base);
    inds.push(base + 2);
    inds.push(base + 3);
    assert(verts@ =~= old(verts)@ + seq![
        quad_vertex(cp, q, 0),
        quad_vertex(cp, q, 1),
        quad_vertex(cp, q, 2),
        quad_vertex(cp, q, 3),
    ]);
    assert(inds@ =~= old(inds)@ + seq![
        old(verts)@.len() as u32,
        (old(verts)@.len() + 1) as u32,
        (old(verts)@.len() + 2) as u32,
        old(verts)@.len() as u32,
        (old(verts)@.len() + 2) as u32,
        (old(verts)@.len() + 3) as u32,
    ]);
}

/// Greedy surface mesh of one chunk: one quad per maximal run of exposed
/// faces of one material and orientation, each as four vertices and two
/// triangles. An empty chunk gives empty lists.
pub fn mesh_chunk(world: &World, cp: ChunkPos) -> (r: (Vec<Vertex>, Vec<u32>))
    requires
        world.wf(),
        mesh_in_range(cp),
    ensures
        is_chunk_mesh(world, cp, r.0@, r.1@),
{
    let qs = greedy_quads(world, cp);
    let mut verts: Vec<Vertex> = Vec::new();
    let mut inds: Vec<u32> = Vec::new();
    let mut k: usize = 0;
    while k < qs.len()
        invariant
            mesh_in_range(cp),
            exact_cover(world, cp, qs@),
            scan_order(world, cp, qs@),
            merges_uniform_planes(world, cp, qs@),
            qs@.len() <= 51 * 256,
            k <= qs@.len(),
            is_mesh_of(cp, qs@.subrange(0, k as int), verts@, inds@),
        decreases qs@.len() - k,
    {
        let q = qs[k];
        assert(quad_matches(world, cp, qs@[k as int]));
        let ghost v0 = verts@;
        let ghost i0 = inds@;
        push_quad(cp, q, &mut verts, &mut inds);
        proof {
            let s = qs@.subrange(0, k + 1);
            assert forall|k2: int, c: int| 0 <= k2 < s.len() && 0 <= c < 4 implies #[trigger] verts@[4
                * k2 + c] == quad_vertex(cp, s[k2], c) by {
                if k2 < k {
                    assert(s[k2] == qs@.subrange(0, k as int)[k2]);
                    assert(verts@[4 * k2 + c] == v0[4 * k2 + c]);
                }
            }
            assert forall|k2: int, c: int| 0 <= k2 < s.len() && 0 <= c < 6 implies #[trigger] inds@[6
                * k2 + c] == 4 * k2 + triangle_corner(c) by {
                if k2 < k {
                    assert(inds@[6 * k2 + c] == i0[6 * k2 + c]);
                }
            }
        }
        k = k + 1;
    }
    assert(qs@.subrange(0, qs@.len() as int) =~= qs@);
    assert forall|k: int| 0 <= k < qs@.len() implies winds_outward(cp, #[trigger] qs@[k]) by {
        assert(quad_matches(world, cp, qs@[k]));
        lemma_quad_winds_outward(cp, qs@[k]);
    }
    assert(greedy_mesh_of(world, cp, qs@, verts@, inds@));
    (verts, inds)
}

/// A chunk mesh has at most four vertices per unit face, and every index
/// points into its vertex list.
pub proof fn lemma_chunk_mesh_bounded(world: &World, cp: ChunkPos, verts: Seq<Vertex>, inds: Seq<u32>)
    requires
        is_chunk_mesh(world, cp, verts, inds),
    ensures
        verts.len() <= 52224,
        forall|i: int| 0 <= i < inds.len() ==> #[trigger] inds[i] < verts.len(),
{
    let qs = choose|qs: Seq<Quad>|
        greedy_mesh_of(world, cp, qs, verts, inds);
    assert forall|i: int| 0 <= i < inds.len() implies #[trigger] inds[i] < verts.len() by {
        let k = i / 6;
        let c = i % 6;
        assert(i == 6 * k + c && 0 <= c < 6 && 0 <= k < qs.len()) by (nonlinear_arith)
            requires
                0 <= i < 6 * qs.len(),
                k == i / 6,
                c == i % 6,
        ;
        assert(inds[6 * k + c] == 4 * k + triangle_corner(c));
    }
}

/// Two worlds with the same blocks have the same chunk meshes.
pub proof fn lemma_mesh_depends_on_blocks(
    w1: &World,
    w2: &World,
    cp: ChunkPos,
    verts: Seq<Vertex>,
    inds: Seq<u32>,
)
    requires
        is_chunk_mesh(w1, cp, verts, inds),
        forall|x: i32, y: i32, z: i32| #[trigger] w1.block_at(x, y, z) == w2.block_at(x, y, z),
    ensures
        is_chunk_mesh(w2, cp, verts, inds),
{
    let qs = choose|qs: Seq<Quad>|
        greedy_mesh_of(w1, cp, qs, verts, inds);
    assert forall|axis: int, d: int, i: int, j: int|
        #[trigger] face_at(w2, cp, axis, d, i, j) == face_at(w1, cp, axis, d, i, j) by {
        let ca = cell_coords(cp, axis, d - 1, i, j);
        let cb = cell_coords(cp, axis, d, i, j);
        assert(w1.block_at(ca.0 as i32, ca.1 as i32, ca.2 as i32) == w2.block_at(ca.0 as i32, ca.1 as i32, ca.2 as i32));
        assert(w1.block_at(cb.0 as i32, cb.1 as i32, cb.2 as i32) == w2.block_at(cb.0 as i32, cb.1 as i32, cb.2 as i32));
    }
    assert forall|k: int| 0 <= k < qs.len() implies quad_matches(w2, cp, #[trigger] qs[k]) by {
        assert(quad_matches(w1, cp, qs[k]));
        assert forall|i: int, j: int| #[trigger] qs[k].covers(i, j) implies face_at(w2, cp, qs[k].axis as int, qs[k].d as int, i, j) == Some(qs[k].tag()) by {
            assert(face_at(w1, cp, qs[k].axis as int, qs[k].d as int, i, j) == Some(qs[k].tag()));
        }
    }
    assert(exact_cover(w2, cp, qs));
    assert forall|axis: int, d: int|
        0 <= axis < 3 && 0 <= d <= 16 && #[trigger] uniform_plane(w2, cp, axis, d) implies exists|
        k: int,
    | 0 <= k < qs.len() && #[trigger] qs[k] == full_quad(axis, d, face_at(w2, cp, axis, d, 0, 0)->0) by {
        assert forall|i: int, j: int| 0 <= i < 16 && 0 <= j < 16 implies #[trigger] face_at(w1, cp, axis, d, i, j) == face_at(w1, cp, axis, d, 0, 0) by {
            assert(face_at(w2, cp, axis, d, i, j) == face_at(w1, cp, axis, d, i, j));
            assert(face_at(w2, cp, axis, d, 0, 0) == face_at(w1, cp, axis, d, 0, 0));
        }
        assert(uniform_plane(w1, cp, axis, d));
    }
    assert forall|k: int| 0 <= k < qs.len() implies scan_step(w2, cp, qs.subrange(0, k), #[trigger] qs[k]) by {
        let q = qs[k];
        let prior = qs.subrange(0, k);
        assert(scan_step(w1, cp, prior, q));
        assert forall|i: int, j: int, t: FaceTag| #[trigger] open_face(w2, cp, prior, q.axis as int, q.d as int, i, j, t)
            == open_face(w1, cp, prior, q.axis as int, q.d as int, i, j, t) by {
            assert(face_at(w2, cp, q.axis as int, q.d as int, i, j) == face_at(w1, cp, q.axis as int, q.d as int, i, j));
        }
        if q.j0 + q.h != 16 {
            let di = choose|di: int| 0 <= di < q.w && !#[trigger] open_face(w1, cp, prior, q.axis as int, q.d as int, q.i0 + di, q.j0 + q.h, q.tag());
            assert(!open_face(w2, cp, prior, q.axis as int, q.d as int, q.i0 + di, q.j0 + q.h, q.tag()));
        }
    }
    assert(greedy_mesh_of(w2, cp, qs, verts, inds));
}

/// The quad at index `k` covers only faces that no earlier quad covers.
proof fn lemma_uncovered_before(world: &World, cp: ChunkPos, qs: Seq<Quad>, k: int, i: int, j: int)
    requires
        exact_cover(world, cp, qs),
        0 <= k < qs.len(),
        qs[k].covers(i, j),
    ensures
        !covered_in(qs.subrange(0, k), qs[k].axis as int, qs[k].d as int, i, j),
{
    let p = qs.subrange(0, k);
    if covered_in(p, qs[k].axis as int, qs[k].d as int, i, j) {
        let k2 = choose|k2: int| 0 <= k2 < p.len() && #[trigger] p[k2].covers_face(qs[k].axis as int, qs[k].d as int, i, j);
        assert(p[k2] == qs[k2]);
        assert(!(qs[k2].covers(i, j) && qs[k].covers(i, j)));
    }
}

/// Whether two worlds give chunk `cp` the same naive faces.
pub open spec fn same_faces(w1: &World, w2: &World, cp: ChunkPos) -> bool {
    forall|axis: int, d: int, i: int, j: int|
        face_index_ok(axis, d, i, j) ==> #[trigger] face_at(w1, cp, axis, d, i, j) == face_at(
            w2,
            cp,
            axis,
            d,
            i,
            j,
        )
}

proof fn lemma_scan_step_equal(
    w1: &World,
    w2: &World,
    cp: ChunkPos,
    qs1: Seq<Quad>,
    qs2: Seq<Quad>,
    k: int,
)
    requires
        same_faces(w1, w2, cp),
        exact_cover(w1, cp, qs1),
        scan_order(w1, cp, qs1),
        exact_cover(w2, cp, qs2),
        scan_order(w2, cp, qs2),
        0 <= k < qs1.len(),
        k < qs2.len(),
        qs1.subrange(0, k) == qs2.subrange(0, k),
    ensures
        qs1[k] == qs2[k],
{
    let p = qs1.subrange(0, k);
    let q1 = qs1[k];
    let q2 = qs2[k];
    assert(quad_matches(w1, cp, q1));
    assert(quad_matches(w2, cp, q2));
    assert(scan_step(w1, cp, p, q1));
    assert(scan_step(w2, cp, p, q2));
    assert(q1.covers(q1.i0 as int, q1.j0 as int));
    assert(q2.covers(q2.i0 as int, q2.j0 as int));
    lemma_uncovered_before(w1, cp, qs1, k, q1.i0 as int, q1.j0 as int);
    lemma_uncovered_before(w2, cp, qs2, k, q2.i0 as int, q2.j0 as int);
    // Both quads lie on the same plane.
    if !(q1.axis == q2.axis && q1.d == q2.d) {
        if plane_le(q1, q2) {
            let (a, d, i, j) = (q1.axis as int, q1.d as int, q1.i0 as int, q1.j0 as int);
            assert(face_index_ok(a, d, i, j));
            assert(face_at(w2, cp, a, d, i, j) is Some);
            let k2 = choose|k2: int| 0 <= k2 < qs2.len() && #[trigger] qs2[k2].covers_face(a, d, i, j);
            if k2 < k {
                assert(p[k2] == qs2.subrange(0, k)[k2]);
                assert(p[k2].covers_face(a, d, i, j));
            } else if k2 > k {
                assert(plane_le(qs2[k], qs2[k2]));
            }
        } else {
            let (a, d, i, j) = (q2.axis as int, q2.d as int, q2.i0 as int, q2.j0 as int);
            assert(face_index_ok(a, d, i, j));
            assert(face_at(w1, cp, a, d, i, j) is Some);
            let k2 = choose|k2: int| 0 <= k2 < qs1.len() && #[trigger] qs1[k2].covers_face(a, d, i, j);
            if k2 < k {
                assert(p[k2] == qs1[k2]);
                assert(qs2.subrange(0, k)[k2].covers_face(a, d, i, j));
            } else if k2 > k {
                assert(plane_le(qs1[k], qs1[k2]));
            }
        }
    }
    let a = q1.axis as int;
    let d = q1.d as int;
    // Same first cell.
    if q1.j0 < q2.j0 || (q1.j0 == q2.j0 && q1.i0 < q2.i0) {
        assert(face_index_ok(a, d, q1.i0 as int, q1.j0 as int));
        assert(face_at(w2, cp, a, d, q1.i0 as int, q1.j0 as int) is Some);
    }
    if q2.j0 < q1.j0 || (q2.j0 == q1.j0 && q2.i0 < q1.i0) {
        assert(face_index_ok(a, d, q2.i0 as int, q2.j0 as int));
        assert(face_at(w1, cp, a, d, q2.i0 as int, q2.j0 as int) is Some);
        assert(qs2.subrange(0, k) == p);
    }
    assert(q1.i0 == q2.i0 && q1.j0 == q2.j0);
    let i0 = q1.i0 as int;
    let j0 = q1.j0 as int;
    // Same tag.
    assert(face_index_ok(a, d, i0, j0));
    assert(q1.tag() == q2.tag());
    let t = q1.tag();
    // Same width.
    if q1.w < q2.w {
        let i = i0 + q1.w;
        assert(q2.covers(i, j0));
        assert(face_index_ok(a, d, i, j0));
        lemma_uncovered_before(w2, cp, qs2, k, i, j0);
        assert(open_face(w1, cp, p, a, d, i, j0, t));
    }
    if q2.w < q1.w {
        let i = i0 + q2.w;
        assert(q1.covers(i, j0));
        assert(face_index_ok(a, d, i, j0));
        lemma_uncovered_before(w1, cp, qs1, k, i, j0);
        assert(open_face(w2, cp, p, a, d, i, j0, t));
    }
    assert(q1.w == q2.w);
    // Same height.
    if q1.h < q2.h {
        let di = choose|di: int| 0 <= di < q1.w && !#[trigger] open_face(w1, cp, p, a, d, i0 + di, j0 + q1.h, t);
        assert(q2.covers(i0 + di, j0 + q1.h));
        assert(face_index_ok(a, d, i0 + di, j0 + q1.h));
        lemma_uncovered_before(w2, cp, qs2, k, i0 + di, j0 + q1.h);
    }
    if q2.h < q1.h {
        let di = choose|di: int| 0 <= di < q2.w && !#[trigger] open_face(w2, cp, p, a, d, i0 + di, j0 + q2.h, t);
        assert(q1.covers(i0 + di, j0 + q2.h));
        assert(face_index_ok(a, d, i0 + di, j0 + q2.h));
        lemma_uncovered_before(w1, cp, qs1, k, i0 + di, j0 + q2.h);
    }
}

proof fn lemma_scan_prefix_equal(
    w1: &World,
    w2: &World,
    cp: ChunkPos,
    qs1: Seq<Quad>,
    qs2: Seq<Quad>,
    k: int,
)
    requires
        same_faces(w1, w2, cp),
        exact_cover(w1, cp, qs1),
        scan_order(w1, cp, qs1),
        exact_cover(w2, cp, qs2),
        scan_order(w2, cp, qs2),
        0 <= k <= qs1.len(),
        k <= qs2.len(),
    ensures
        qs1.subrange(0, k) == qs2.subrange(0, k),
    decreases k,
{
    if k > 0 {
        lemma_scan_prefix_equal(w1, w2, cp, qs1, qs2, k - 1);
        lemma_scan_step_equal(w1, w2, cp, qs1, qs2, k - 1);
        assert(qs1.subrange(0, k) =~= qs2.subrange(0, k)) by {
            assert forall|n: int| 0 <= n < k implies qs1.subrange(0, k)[n] == qs2.subrange(0, k)[n] by {
                if n < k - 1 {
                    assert(qs1.subrange(0, k - 1)[n] == qs2.subrange(0, k - 1)[n]);
                }
            }
        }
    }
}

/// Greedy quads in scan order are unique: two worlds with the same naive
/// faces for a chunk have the same quad list for it.
pub proof fn lemma_scan_unique(w1: &World, w2: &World, cp: ChunkPos, qs1: Seq<Quad>, qs2: Seq<Quad>)
    requires
        same_faces(w1, w2, cp),
        exact_cover(w1, cp, qs1),
        scan_order(w1, cp, qs1),
        exact_cover(w2, cp, qs2),
        scan_order(w2, cp, qs2),
    ensures
        qs1 == qs2,
{
    if qs1.len() < qs2.len() {
        let k = qs1.len() as int;
        lemma_scan_prefix_equal(w1, w2, cp, qs1, qs2, k);
        let q = qs2[k];
        assert(quad_matches(w2, cp, q));
        assert(q.covers(q.i0 as int, q.j0 as int));
        let (a, d, i, j) = (q.axis as int, q.d as int, q.i0 as int, q.j0 as int);
        assert(face_index_ok(a, d, i, j));
        assert(face_at(w1, cp, a, d, i, j) is Some);
        let k2 = choose|k2: int| 0 <= k2 < qs1.len() && #[trigger] qs1[k2].covers_face(a, d, i, j);
        assert(qs1.subrange(0, k)[k2] == qs1[k2]);
        lemma_uncovered_before(w2, cp, qs2, k, i, j);
        assert(qs2.subrange(0, k)[k2].covers_face(a, d, i, j));
    } else if qs2.len() < qs1.len() {
        let k = qs2.len() as int;
        lemma_scan_prefix_equal(w1, w2, cp, qs1, qs2, k);
        let q = qs1[k];
        assert(quad_matches(w1, cp, q));
        assert(q.covers(q.i0 as int, q.j0 as int));
        let (a, d, i, j) = (q.axis as int, q.d as int, q.i0 as int, q.j0 as int);
        assert(face_index_ok(a, d, i, j));
        assert(face_at(w2, cp, a, d, i, j) is Some);
        let k2 = choose|k2: int| 0 <= k2 < qs2.len() && #[trigger] qs2[k2].covers_face(a, d, i, j);
        assert(qs2.subrange(0, k)[k2] == qs2[k2]);
        lemma_uncovered_before(w1, cp, qs1, k, i, j);
        assert(qs1.subrange(0, k)[k2].covers_face(a, d, i, j));
    } else {
        lemma_scan_prefix_equal(w1, w2, cp, qs1, qs2, qs1.len() as int);
        assert(qs1 =~= qs1.subrange(0, qs1.len() as int));
        assert(qs2 =~= qs2.subrange(0, qs2.len() as int));
    }
}

/// Whether block (x, y, z) belongs to chunk `cp` or lies next to one of its
/// six faces: the blocks that the mesher of `cp` reads.
pub open spec fn near_chunk(cp: ChunkPos, x: int, y: int, z: int) -> bool {
    let lx = x - cp.cx * 16;
    let ly = y - cp.cy * 16;
    let lz = z - cp.cz * 16;
    ||| (0 <= lx < 16 && 0 <= ly < 16 && -1 <= lz <= 16)
    ||| (0 <= lx < 16 && -1 <= ly <= 16 && 0 <= lz < 16)
    ||| (-1 <= lx <= 16 && 0 <= ly < 16 && 0 <= lz < 16)
}

proof fn lemma_mesh_of_quads_unique(
    cp: ChunkPos,
    qs: Seq<Quad>,
    v1: Seq<Vertex>,
    i1: Seq<u32>,
    v2: Seq<Vertex>,
    i2: Seq<u32>,
)
    requires
        is_mesh_of(cp, qs, v1, i1),
        is_mesh_of(cp, qs, v2, i2),
    ensures
        v1 == v2,
        i1 == i2,
{
    assert forall|n: int| 0 <= n < v1.len() implies v1[n] == v2[n] by {
        let k = n / 4;
        let c = n % 4;
        assert(n == 4 * k + c && 0 <= c < 4 && 0 <= k < qs.len()) by (nonlinear_arith)
            requires
                0 <= n < 4 * qs.len(),
                k == n / 4,
                c == n % 4,
        ;
        assert(v1[4 * k + c] == quad_vertex(cp, qs[k], c));
        assert(v2[4 * k + c] == quad_vertex(cp, qs[k], c));
    }
    assert forall|n: int| 0 <= n < i1.len() implies i1[n] == i2[n] by {
        let k = n / 6;
        let c = n % 6;
        assert(n == 6 * k + c && 0 <= c < 6 && 0 <= k < qs.len()) by (nonlinear_arith)
            requires
                0 <= n < 6 * qs.len(),
                k == n / 6,
                c == n % 6,
        ;
        assert(i1[6 * k + c] == 4 * k + triangle_corner(c));
        assert(i2[6 * k + c] == 4 * k + triangle_corner(c));
    }
    assert(v1 =~= v2);
    assert(i1 =~= i2);
}

/// The mesh of a chunk depends only on the blocks of the chunk and those next
/// to its faces: two worlds that agree there give identical vertex and index
/// lists, in the same order. In particular, meshing one world twice gives
/// the same result.
pub proof fn lemma_mesh_is_determined(
    w1: &World,
    w2: &World,
    cp: ChunkPos,
    v1: Seq<Vertex>,
    i1: Seq<u32>,
    v2: Seq<Vertex>,
    i2: Seq<u32>,
)
    requires
        mesh_in_range(cp),
        is_chunk_mesh(w1, cp, v1, i1),
        is_chunk_mesh(w2, cp, v2, i2),
        forall|x: i32, y: i32, z: i32|
            near_chunk(cp, x as int, y as int, z as int) ==> #[trigger] w1.block_at(x, y, z)
                == w2.block_at(x, y, z),
    ensures
        v1 == v2,
        i1 == i2,
{
    let qs1 = choose|qs: Seq<Quad>| greedy_mesh_of(w1, cp, qs, v1, i1);
    let qs2 = choose|qs: Seq<Quad>| greedy_mesh_of(w2, cp, qs, v2, i2);
    assert forall|axis: int, d: int, i: int, j: int|
        face_index_ok(axis, d, i, j) implies #[trigger] face_at(w1, cp, axis, d, i, j) == face_at(
        w2,
        cp,
        axis,
        d,
        i,
        j,
    ) by {
        let ca = cell_coords(cp, axis, d - 1, i, j);
        let cb = cell_coords(cp, axis, d, i, j);
        assert(near_chunk(cp, ca.0, ca.1, ca.2));
        assert(near_chunk(cp, cb.0, cb.1, cb.2));
        assert(w1.block_at(ca.0 as i32, ca.1 as i32, ca.2 as i32) == w2.block_at(ca.0 as i32, ca.1 as i32, ca.2 as i32));
        assert(w1.block_at(cb.0 as i32, cb.1 as i32, cb.2 as i32) == w2.block_at(cb.0 as i32, cb.1 as i32, cb.2 as i32));
    }
    lemma_scan_unique(w1, w2, cp, qs1, qs2);
    lemma_mesh_of_quads_unique(cp, qs1, v1, i1, v2, i2);
}

/// The unit faces of the naive mesher, each with its tag.
pub open spec fn naive_faces(world: &World, cp: ChunkPos) -> Set<(int, int, int, int, FaceTag)> {
    Set::new(
        |f: (int, int, int, int, FaceTag)|
            face_index_ok(f.0, f.1, f.2, f.3) && face_at(world, cp, f.0, f.1, f.2, f.3) == Some(f.4),
    )
}

/// The unit faces that a list of quads covers, each with its quad's tag.
pub open spec fn quad_faces(qs: Seq<Quad>) -> Set<(int, int, int, int, FaceTag)> {
    Set::new(
        |f: (int, int, int, int, FaceTag)|
            exists|k: int|
                0 <= k < qs.len() && #[trigger] qs[k].covers_face(f.0, f.1, f.2, f.3) && qs[k].tag()
                    == f.4,
    )
}

/// Expanding the quads of a chunk mesh back into unit faces gives exactly the
/// faces, with their tags, of a mesher that emits one quad per exposed face.
pub proof fn lemma_greedy_faces_are_naive_faces(
    world: &World,
    cp: ChunkPos,
    verts: Seq<Vertex>,
    inds: Seq<u32>,
)
    requires
        is_chunk_mesh(world, cp, verts, inds),
    ensures
        exists|qs: Seq<Quad>|
            is_mesh_of(cp, qs, verts, inds) && #[trigger] quad_faces(qs) == naive_faces(world, cp),
{
    let qs = choose|qs: Seq<Quad>|
        greedy_mesh_of(world, cp, qs, verts, inds);
    assert forall|f: (int, int, int, int, FaceTag)|
        quad_faces(qs).contains(f) == naive_faces(world, cp).contains(f) by {
        if quad_faces(qs).contains(f) {
            let k = choose|k: int|
                0 <= k < qs.len() && #[trigger] qs[k].covers_face(f.0, f.1, f.2, f.3) && qs[k].tag()
                    == f.4;
            assert(quad_matches(world, cp, qs[k]));
            assert(qs[k].covers(f.2, f.3));
        }
        if naive_faces(world, cp).contains(f) {
            assert(face_at(world, cp, f.0, f.1, f.2, f.3) is Some);
            let k = choose|k: int| 0 <= k < qs.len() && #[trigger] qs[k].covers_face(f.0, f.1, f.2, f.3);
            assert(quad_matches(world, cp, qs[k]));
            assert(qs[k].covers(f.2, f.3));
        }
    }
    assert(quad_faces(qs) =~= naive_faces(world, cp));
}

/// A chunk without solid blocks has an empty mesh, whatever its neighbours
/// hold: every face belongs to a solid block of its own chunk.
pub proof fn lemma_empty_chunk_has_empty_mesh(
    world: &World,
    cp: ChunkPos,
    verts: Seq<Vertex>,
    inds: Seq<u32>,
)
    requires
        mesh_in_range(cp),
        is_chunk_mesh(world, cp, verts, inds),
        forall|x: i32, y: i32, z: i32|
            cp.cx * 16 <= x < cp.cx * 16 + 16 && cp.cy * 16 <= y < cp.cy * 16 + 16 && cp.cz * 16 <= z
                < cp.cz * 16 + 16 ==> !(#[trigger] world.block_at(x, y, z)).solid(),
    ensures
        verts.len() == 0,
        inds.len() == 0,
{
    let qs = choose|qs: Seq<Quad>| greedy_mesh_of(world, cp, qs, verts, inds);
    if qs.len() > 0 {
        let q = qs[0];
        assert(quad_matches(world, cp, q));
        assert(q.covers(q.i0 as int, q.j0 as int));
        let ca = cell_coords(cp, q.axis as int, q.d - 1, q.i0 as int, q.j0 as int);
        let cb = cell_coords(cp, q.axis as int, q.d as int, q.i0 as int, q.j0 as int);
        if q.d > 0 {
            assert(!world.block_at(ca.0 as i32, ca.1 as i32, ca.2 as i32).solid());
        }
        if q.d < 16 {
            assert(!world.block_at(cb.0 as i32, cb.1 as i32, cb.2 as i32).solid());
        }
    }
}

/// A chunk whose blocks, and the blocks next to its faces in the neighbouring
/// chunks, are all solid has no exposed face: its mesh is empty.
pub proof fn lemma_buried_chunk_has_empty_mesh(
    world: &World,
    cp: ChunkPos,
    verts: Seq<Vertex>,
    inds: Seq<u32>,
)
    requires
        mesh_in_range(cp),
        is_chunk_mesh(world, cp, verts, inds),
        forall|x: i32, y: i32, z: i32|
            near_chunk(cp, x as int, y as int, z as int) ==> #[trigger] world.block_at(x, y, z).solid(),
    ensures
        verts.len() == 0,
        inds.len() == 0,
{
    let qs = choose|qs: Seq<Quad>|
        greedy_mesh_of(world, cp, qs, verts, inds);
    if qs.len() > 0 {
        let q = qs[0];
        assert(quad_matches(world, cp, q));
        assert(q.covers(q.i0 as int, q.j0 as int));
        let ca = cell_coords(cp, q.axis as int, q.d - 1, q.i0 as int, q.j0 as int);
        let cb = cell_coords(cp, q.axis as int, q.d as int, q.i0 as int, q.j0 as int);
        assert(near_chunk(cp, ca.0, ca.1, ca.2));
        assert(near_chunk(cp, cb.0, cb.1, cb.2));
        assert(world.block_at(ca.0 as i32, ca.1 as i32, ca.2 as i32).solid());
        assert(world.block_at(cb.0 as i32, cb.1 as i32, cb.2 as i32).solid());
    }
}

/// Which of the six bounding planes of a chunk a quad lies on: 2 * axis,
/// plus one for the upper plane.
pub open spec fn boundary_plane_id(q: Quad) -> int {
    q.axis * 2 + if q.d == 0 { 0int } else { 1int }
}

/// A chunk filled with one solid material, whose face neighbours hold air
/// next to it, has exactly six quads, one per chunk face, each covering the
/// whole 16 x 16 face.
pub proof fn lemma_lone_solid_chunk_has_six_quads(
    world: &World,
    cp: ChunkPos,
    verts: Seq<Vertex>,
    inds: Seq<u32>,
    b: Block,
)
    requires
        mesh_in_range(cp),
        is_chunk_mesh(world, cp, verts, inds),
        b.solid(),
        forall|x: i32, y: i32, z: i32|
            near_chunk(cp, x as int, y as int, z as int) ==> #[trigger] world.block_at(x, y, z) == if cp.cx
                * 16 <= x < cp.cx * 16 + 16 && cp.cy * 16 <= y < cp.cy * 16 + 16 && cp.cz * 16 <= z
                < cp.cz * 16 + 16 {
                b
            } else {
                Block::Air
            },
    ensures
        verts.len() == 24,
        inds.len() == 36,
        exists|qs: Seq<Quad>|
            is_mesh_of(cp, qs, verts, inds) && forall|k: int|
                0 <= k < qs.len() ==> (#[trigger] qs[k]).w == 16 && qs[k].h == 16,
{
    let qs = choose|qs: Seq<Quad>| greedy_mesh_of(world, cp, qs, verts, inds);
    // The faces: the two bounding planes of each axis are full, the others empty.
    assert forall|axis: int, d: int, i: int, j: int| #[trigger]
        face_index_ok(axis, d, i, j) implies face_at(world, cp, axis, d, i, j) == if d == 0 {
        Some((b, true))
    } else if d == 16 {
        Some((b, false))
    } else {
        None::<FaceTag>
    } by {
        let ca = cell_coords(cp, axis, d - 1, i, j);
        let cb = cell_coords(cp, axis, d, i, j);
        assert(near_chunk(cp, ca.0, ca.1, ca.2));
        assert(near_chunk(cp, cb.0, cb.1, cb.2));
        assert(world.block_at(ca.0 as i32, ca.1 as i32, ca.2 as i32) == if d == 0 { Block::Air } else { b });
        assert(world.block_at(cb.0 as i32, cb.1 as i32, cb.2 as i32) == if d == 16 { Block::Air } else { b });
    }
    let tag = |d: int| if d == 0 { (b, true) } else { (b, false) };
    assert forall|axis: int, d: int| 0 <= axis < 3 && (d == 0 || d == 16) implies #[trigger] uniform_plane(world, cp, axis, d) by {
        assert(face_index_ok(axis, d, 0, 0));
        assert forall|i: int, j: int| 0 <= i < 16 && 0 <= j < 16 implies #[trigger] face_at(world, cp, axis, d, i, j) == face_at(world, cp, axis, d, 0, 0) by {
            assert(face_index_ok(axis, d, i, j));
        }
    }
    // Every quad is the full quad of its plane.
    assert forall|k: int| 0 <= k < qs.len() implies #[trigger] qs[k] == full_quad(qs[k].axis as int, qs[k].d as int, tag(qs[k].d as int)) && (qs[k].d == 0 || qs[k].d == 16) by {
        let q = qs[k];
        assert(quad_matches(world, cp, q));
        assert(q.covers(q.i0 as int, q.j0 as int));
        assert(face_index_ok(q.axis as int, q.d as int, q.i0 as int, q.j0 as int));
        assert(q.d == 0 || q.d == 16);
        assert(uniform_plane(world, cp, q.axis as int, q.d as int));
        assert(face_at(world, cp, q.axis as int, q.d as int, 0, 0) == Some(tag(q.d as int)));
        let kf = choose|kf: int| 0 <= kf < qs.len() && #[trigger] qs[kf] == full_quad(q.axis as int, q.d as int, face_at(world, cp, q.axis as int, q.d as int, 0, 0)->0);
        assert(qs[kf].covers(q.i0 as int, q.j0 as int));
        if kf != k {
            assert(!(qs[kf].covers(q.i0 as int, q.j0 as int) && qs[k].covers(q.i0 as int, q.j0 as int)));
        }
    }
    // Counting: the planes of the quads are distinct and are all six.
    let ids = qs.map_values(|q: Quad| boundary_plane_id(q));
    assert forall|a: int, c: int| 0 <= a < ids.len() && 0 <= c < ids.len() && a != c implies ids[a] != ids[c] by {
        assert(qs[a] == full_quad(qs[a].axis as int, qs[a].d as int, tag(qs[a].d as int)));
        assert(qs[c] == full_quad(qs[c].axis as int, qs[c].d as int, tag(qs[c].d as int)));
        if ids[a] == ids[c] {
            assert(qs[a].axis == qs[c].axis && qs[a].d == qs[c].d);
            assert(qs[a].covers(0, 0) && qs[c].covers(0, 0));
        }
    }
    assert forall|v: int| #[trigger] ids.to_set().contains(v) == vstd::set_lib::set_int_range(0, 6).contains(v) by {
        if ids.to_set().contains(v) {
            let a = choose|a: int| 0 <= a < ids.len() && ids[a] == v;
            assert(qs[a] == full_quad(qs[a].axis as int, qs[a].d as int, tag(qs[a].d as int)));
            assert(quad_matches(world, cp, qs[a]));
        }
        if 0 <= v < 6 {
            let axis = v / 2;
            let d = if v % 2 == 0 { 0int } else { 16int };
            assert(uniform_plane(world, cp, axis, d));
            assert(face_index_ok(axis, d, 0, 0));
            let kf = choose|kf: int| 0 <= kf < qs.len() && #[trigger] qs[kf] == full_quad(axis, d, face_at(world, cp, axis, d, 0, 0)->0);
            assert(ids[kf] == v);
        }
    }
    assert(ids.to_set() =~= vstd::set_lib::set_int_range(0, 6));
    ids.unique_seq_to_set();
    vstd::set_lib::lemma_int_range(0, 6);
    assert(qs.len() == 6);
    assert forall|k: int| 0 <= k < qs.len() implies (#[trigger] qs[k]).w == 16 && qs[k].h == 16 by {
        assert(qs[k] == full_quad(qs[k].axis as int, qs[k].d as int, tag(qs[k].d as int)));
    }
}

} // verus!
