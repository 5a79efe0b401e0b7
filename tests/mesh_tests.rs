use std::collections::HashSet;

use voxel_engine::block::Block;
use voxel_engine::chunk::ChunkPos;
use voxel_engine::mesh_cache::{maintain_window_and_meshes, unload_chunk_and_mesh, MeshCache};
use voxel_engine::mesher::{greedy_quads, mesh_chunk, Quad, Vertex};
use voxel_engine::world::World;

fn plane_point(cp: ChunkPos, axis: i32, e: i32, i: i32, j: i32) -> (i32, i32, i32) {
    let (ox, oy, oz) = (cp.cx * 16, cp.cy * 16, cp.cz * 16);
    match axis {
        0 => (ox + e, oy + j, oz + i),
        1 => (ox + i, oy + e, oz + j),
        _ => (ox + i, oy + j, oz + e),
    }
}

fn naive_faces(w: &World, cp: ChunkPos) -> HashSet<(i32, i32, i32, i32, Block, bool)> {
    let mut out = HashSet::new();
    for axis in 0..3 {
        for d in 0..=16 {
            for j in 0..16 {
                for i in 0..16 {
                    let (ax, ay, az) = plane_point(cp, axis, d - 1, i, j);
                    let (bx, by, bz) = plane_point(cp, axis, d, i, j);
                    let a = w.get_block(ax, ay, az);
                    let b = w.get_block(bx, by, bz);
                    if a != Block::Air && b == Block::Air && d > 0 {
                        out.insert((axis, d, i, j, a, false));
                    } else if a == Block::Air && b != Block::Air && d < 16 {
                        out.insert((axis, d, i, j, b, true));
                    }
                }
            }
        }
    }
    out
}

fn quad_faces(qs: &[Quad]) -> (usize, HashSet<(i32, i32, i32, i32, Block, bool)>) {
    let mut n = 0;
    let mut out = HashSet::new();
    for q in qs {
        for j in q.j0..q.j0 + q.h {
            for i in q.i0..q.i0 + q.w {
                n += 1;
                out.insert((q.axis, q.d, i, j, q.block, q.positive));
            }
        }
    }
    (n, out)
}

fn fill_box(w: &mut World, lo: (i32, i32, i32), hi: (i32, i32, i32), b: Block) {
    for x in lo.0..=hi.0 {
        for y in lo.1..=hi.1 {
            for z in lo.2..=hi.2 {
                w.set_block(x, y, z, b);
            }
        }
    }
}

#[test]
fn solid_chunk_in_air_gives_six_full_quads() {
    let mut w = World::new();
    let cp = ChunkPos::new(10, 10, 10);
    fill_box(&mut w, (160, 160, 160), (175, 175, 175), Block::Stone);
    let qs = greedy_quads(&w, cp);
    assert_eq!(qs.len(), 6);
    for q in &qs {
        assert_eq!((q.i0, q.j0, q.w, q.h), (0, 0, 16, 16));
        assert!(q.d == 0 || q.d == 16);
        assert_eq!(q.block, Block::Stone);
    }
    let (v, i) = mesh_chunk(&w, cp);
    assert_eq!(v.len(), 24);
    assert_eq!(i.len(), 36);
}

#[test]
fn buried_chunk_gives_no_quads() {
    let mut w = World::new();
    let cp = ChunkPos::new(10, 10, 10);
    fill_box(&mut w, (159, 159, 159), (176, 176, 176), Block::Dirt);
    let qs = greedy_quads(&w, cp);
    assert_eq!(qs.len(), 0);
    let (v, i) = mesh_chunk(&w, cp);
    assert!(v.is_empty());
    assert!(i.is_empty());
}

#[test]
fn empty_chunk_gives_empty_mesh() {
    let w = World::new();
    let (v, i) = mesh_chunk(&w, ChunkPos::new(5, 5, 5));
    assert!(v.is_empty());
    assert!(i.is_empty());
}

fn cross(a: (i64, i64, i64), b: (i64, i64, i64)) -> (i64, i64, i64) {
    (a.1 * b.2 - a.2 * b.1, a.2 * b.0 - a.0 * b.2, a.0 * b.1 - a.1 * b.0)
}

// Each quad's right-hand normal points from its solid cell to the air cell.
fn check_winding(w: &World, v: &[Vertex]) {
    for q in v.chunks(4) {
        let p = |k: usize| (q[k].x as i64, q[k].y as i64, q[k].z as i64);
        let e1 = (p(1).0 - p(0).0, p(1).1 - p(0).1, p(1).2 - p(0).2);
        let e2 = (p(2).0 - p(0).0, p(2).1 - p(0).1, p(2).2 - p(0).2);
        let n = cross(e1, e2);
        let n = (n.0.signum(), n.1.signum(), n.2.signum());
        assert_eq!(n.0.abs() + n.1.abs() + n.2.abs(), 1);
        let lo = (
            q.iter().map(|v| v.x).min().unwrap(),
            q.iter().map(|v| v.y).min().unwrap(),
            q.iter().map(|v| v.z).min().unwrap(),
        );
        // the unit cells on either side of the quad's lowest corner cell
        let air = (
            lo.0 + if n.0 < 0 { -1 } else { 0 },
            lo.1 + if n.1 < 0 { -1 } else { 0 },
            lo.2 + if n.2 < 0 { -1 } else { 0 },
        );
        let solid = (
            lo.0 + if n.0 > 0 { -1 } else { 0 },
            lo.1 + if n.1 > 0 { -1 } else { 0 },
            lo.2 + if n.2 > 0 { -1 } else { 0 },
        );
        assert_eq!(w.get_block(air.0, air.1, air.2), Block::Air);
        assert_eq!(w.get_block(solid.0, solid.1, solid.2), q[0].block);
    }
}

#[test]
fn quads_wind_counter_clockwise_from_air() {
    let mut w = World::new();
    w.set_block(200, 200, 200, Block::Dirt);
    let (v, _) = mesh_chunk(&w, ChunkPos::new(12, 12, 12));
    check_winding(&w, &v);
    let (v, _) = mesh_chunk(&w, ChunkPos::new(0, 0, 0));
    assert!(!v.is_empty());
    check_winding(&w, &v);
}

#[test]
fn chunk_next_to_solid_chunk_has_no_faces() {
    let w = World::new();
    let (v, i) = mesh_chunk(&w, ChunkPos::new(-1, 0, 0));
    assert!(v.is_empty() && i.is_empty());
    let qs = greedy_quads(&w, ChunkPos::new(0, -1, 0));
    assert!(qs.is_empty());
}

#[test]
fn meshing_is_repeatable() {
    let w = World::new();
    let a = mesh_chunk(&w, ChunkPos::new(0, 0, 0));
    let b = mesh_chunk(&w, ChunkPos::new(0, 0, 0));
    assert_eq!(a, b);
}

#[test]
fn greedy_faces_equal_naive_faces() {
    let mut w = World::new();
    let cp = ChunkPos::new(-1, 2, 1);
    let mut seed: u32 = 12345;
    for x in -17..1 {
        for y in 31..49 {
            for z in 15..33 {
                seed = seed.wrapping_mul(1103515245).wrapping_add(12345);
                let r = (seed >> 16) % 5;
                let b = match r {
                    0 | 1 => Block::Air,
                    2 | 3 => Block::Stone,
                    _ => Block::Dirt,
                };
                w.set_block(x, y, z, b);
            }
        }
    }
    let qs = greedy_quads(&w, cp);
    let naive = naive_faces(&w, cp);
    let (count, faces) = quad_faces(&qs);
    assert_eq!(count, faces.len());
    assert_eq!(faces, naive);
    assert!(qs.len() < naive.len());
    let (v, _) = mesh_chunk(&w, cp);
    check_winding(&w, &v);
}

#[test]
fn spawn_chunk_mesh_matches_naive_faces() {
    let w = World::new();
    let cp = ChunkPos::new(0, 0, 0);
    let qs = greedy_quads(&w, cp);
    let (count, faces) = quad_faces(&qs);
    assert_eq!(count, faces.len());
    assert_eq!(faces, naive_faces(&w, cp));
}

#[test]
fn single_block_vertices() {
    let mut w = World::new();
    w.set_block(200, 200, 200, Block::Dirt);
    let cp = ChunkPos::new(12, 12, 12);
    let (v, i) = mesh_chunk(&w, cp);
    assert_eq!(v.len(), 24);
    assert_eq!(i, vec![0, 1, 2, 0, 2, 3, 4, 5, 6, 4, 6, 7, 8, 9, 10, 8, 10, 11, 12, 13, 14, 12, 14, 15, 16, 17, 18, 16, 18, 19, 20, 21, 22, 20, 22, 23]);
    // The first quad is the face on the block's low X side (plane x = 200),
    // counter-clockwise seen from -X.
    let vx = |x, y, z| Vertex { x, y, z, block: Block::Dirt };
    assert_eq!(v[0], vx(200, 200, 201));
    assert_eq!(v[1], vx(200, 201, 201));
    assert_eq!(v[2], vx(200, 201, 200));
    assert_eq!(v[3], vx(200, 200, 200));
    // The second quad is on plane x = 201, counter-clockwise seen from +X.
    assert_eq!(v[4], vx(201, 200, 200));
    assert_eq!(v[5], vx(201, 201, 200));
    assert_eq!(v[6], vx(201, 201, 201));
    assert_eq!(v[7], vx(201, 200, 201));
    for vert in &v {
        assert!((200..=201).contains(&vert.x));
        assert!((200..=201).contains(&vert.y));
        assert!((200..=201).contains(&vert.z));
    }
}

#[test]
fn border_faces_read_the_neighbour_chunk() {
    let mut w = World::new();
    // Two blocks side by side across the border x = 320 between chunks 19 and 20.
    w.set_block(319, 0, 0, Block::Stone);
    w.set_block(320, 0, 0, Block::Stone);
    let qs = greedy_quads(&w, ChunkPos::new(19, 0, 0));
    // Shared face is hidden: only five faces of the block at x = 319 remain.
    assert_eq!(qs.len(), 5);
    assert!(qs.iter().all(|q| !(q.axis == 0 && q.d == 16)));
}

#[test]
fn cache_rebuilds_only_dirty_chunks() {
    let mut w = World::new();
    let mut cache = MeshCache::new();
    assert!(cache.rebuild_dirty(&mut w));
    for p in w.chunk_positions() {
        assert!(cache.contains(p));
    }
    // Chunks meshed before a neighbour appeared were marked again; one more
    // pass settles them.
    cache.rebuild_dirty(&mut w);
    assert!(!cache.rebuild_dirty(&mut w));
    w.set_block(20, 1, 20, Block::Stone);
    assert!(cache.rebuild_dirty(&mut w));
    assert!(!cache.rebuild_dirty(&mut w));
    let p = ChunkPos::new(3, 0, 3);
    w.unload_chunk(p);
    assert!(!cache.rebuild_dirty(&mut w));
    assert!(!cache.contains(p));
    assert!(!cache.remove(p));
    assert!(cache.remove(ChunkPos::new(0, 0, 0)));
    assert!(!cache.contains(ChunkPos::new(0, 0, 0)));
}

#[test]
fn window_maintenance_drops_meshes() {
    let mut w = World::new();
    let mut cache = MeshCache::new();
    cache.rebuild_dirty(&mut w);
    assert!(cache.contains(ChunkPos::new(3, 0, 0)));
    maintain_window_and_meshes(&mut w, &mut cache, ChunkPos::new(0, 0, 0), 2);
    assert!(!w.has_chunk(ChunkPos::new(3, 0, 0)));
    assert!(!cache.contains(ChunkPos::new(3, 0, 0)));
    assert!(cache.contains(ChunkPos::new(2, 0, 0)));
    assert!(unload_chunk_and_mesh(&mut w, &mut cache, ChunkPos::new(2, 0, 0)));
    assert!(!cache.contains(ChunkPos::new(2, 0, 0)));
    assert!(!unload_chunk_and_mesh(&mut w, &mut cache, ChunkPos::new(2, 0, 0)));
}

#[test]
fn combined_mesh_offsets_indices() {
    let mut w = World::new();
    w.set_block(200, 200, 200, Block::Dirt);
    w.set_block(300, 200, 200, Block::Stone);
    let mut cache = MeshCache::new();
    cache.rebuild_dirty(&mut w);
    let a = ChunkPos::new(12, 12, 12);
    let b = ChunkPos::new(18, 12, 12);
    let (v, i) = cache.combined_mesh(&vec![a, ChunkPos::new(99, 99, 99), b]);
    assert_eq!(v.len(), 48);
    assert_eq!(i.len(), 72);
    assert_eq!(i[36], 24);
    assert_eq!(i[71], 47);
    assert_eq!(v[0].block, Block::Dirt);
    assert_eq!(v[24].block, Block::Stone);
    let (v2, i2) = cache.combined_mesh(&vec![]);
    assert!(v2.is_empty() && i2.is_empty());
}
