use voxel_engine::block::Block;
use voxel_engine::chunk::{chunk_coord, idx, in_chunk, Chunk, ChunkPos, CHUNK_VOL};
use voxel_engine::world::World;

#[test]
fn coordinate_split_examples() {
    assert_eq!(chunk_coord(0), 0);
    assert_eq!(in_chunk(0), 0);
    assert_eq!(chunk_coord(15), 0);
    assert_eq!(in_chunk(15), 15);
    assert_eq!(chunk_coord(16), 1);
    assert_eq!(in_chunk(16), 0);
    assert_eq!(chunk_coord(-1), -1);
    assert_eq!(in_chunk(-1), 15);
    assert_eq!(chunk_coord(-16), -1);
    assert_eq!(in_chunk(-16), 0);
    assert_eq!(chunk_coord(-17), -2);
    assert_eq!(in_chunk(-17), 15);
    assert_eq!(chunk_coord(i32::MIN), -134217728);
    assert_eq!(in_chunk(i32::MIN), 0);
    assert_eq!(chunk_coord(i32::MAX), 134217727);
    assert_eq!(in_chunk(i32::MAX), 15);
}

#[test]
fn coordinate_round_trip_holds() {
    for v in [-1000, -33, -17, -16, -15, -1, 0, 1, 15, 16, 31, 32, 1000, i32::MIN, i32::MAX] {
        let c = chunk_coord(v) as i64;
        let l = in_chunk(v) as i64;
        assert_eq!(c * 16 + l, v as i64);
        assert!((0..16).contains(&l));
    }
}

#[test]
fn local_index_layout() {
    assert_eq!(idx(0, 0, 0), 0);
    assert_eq!(idx(1, 0, 0), 1);
    assert_eq!(idx(0, 0, 1), 16);
    assert_eq!(idx(0, 1, 0), 256);
    assert_eq!(idx(15, 15, 15), 4095);
    assert_eq!(idx(3, 2, 5), 3 + 5 * 16 + 2 * 256);
}

#[test]
fn chunk_starts_empty_and_dirty() {
    let mut c = Chunk::new(ChunkPos::new(1, 2, 3));
    assert_eq!(c.pos, ChunkPos::new(1, 2, 3));
    assert!(c.dirty);
    assert_eq!(c.blocks.len(), CHUNK_VOL);
    assert_eq!(c.get_local(4, 5, 6), Block::Air);
    c.dirty = false;
    c.set_local(4, 5, 6, Block::Dirt);
    assert!(c.dirty);
    assert_eq!(c.get_local(4, 5, 6), Block::Dirt);
    assert_eq!(c.get_local(6, 5, 4), Block::Air);
    assert_eq!(c.blocks[idx(4, 5, 6)], Block::Dirt);
}

#[test]
fn block_default_is_air() {
    assert_eq!(Block::default(), Block::Air);
}

#[test]
fn new_world_has_spawn_area() {
    let w = World::new();
    assert_eq!(w.age(), 0);
    assert_eq!(w.get_block(0, 0, 0), Block::Dirt);
    assert_eq!(w.get_block(63, 0, 63), Block::Dirt);
    assert_eq!(w.get_block(64, 0, 0), Block::Air);
    assert_eq!(w.get_block(0, 0, 64), Block::Air);
    assert_eq!(w.get_block(-1, 0, 0), Block::Air);
    assert_eq!(w.get_block(0, 1, 0), Block::Air);
    assert_eq!(w.get_block(3, 1, 8), Block::Stone);
    assert_eq!(w.get_block(5, 3, 8), Block::Stone);
    assert_eq!(w.get_block(6, 1, 8), Block::Air);
    assert_eq!(w.get_block(4, 4, 8), Block::Air);
    assert_eq!(w.chunk_count(), 16);
    let mut w2 = World::new();
    for p in w2.chunk_positions() {
        assert!(p.cy == 0 && (0..4).contains(&p.cx) && (0..4).contains(&p.cz));
        assert!(w2.take_chunk_dirty(p));
    }
    assert!(w.has_chunk(ChunkPos::new(3, 0, 3)));
    assert!(!w.has_chunk(ChunkPos::new(4, 0, 0)));
    assert_eq!(w.size(), 16);
}

#[test]
fn set_then_get_returns_block() {
    let mut w = World::new();
    let spots = [(0, 0, 0), (-1, -1, -1), (100, -50, 7), (-17, 33, -16), (15, 16, -15)];
    for (i, &(x, y, z)) in spots.iter().enumerate() {
        let b = if i % 2 == 0 { Block::Stone } else { Block::Dirt };
        assert!(w.set_block(x, y, z, b));
        assert_eq!(w.get_block(x, y, z), b);
        assert_eq!(w.get_block_opt(x, y, z), Some(b));
    }
    assert!(w.break_block(100, -50, 7));
    assert_eq!(w.get_block(100, -50, 7), Block::Air);
    assert!(!w.is_solid(100, -50, 7));
    assert!(w.place_block(100, -50, 7, Block::Dirt));
    assert!(w.is_solid(100, -50, 7));
}

#[test]
fn missing_chunk_reads_air() {
    let w = World::new();
    let before = w.chunk_count();
    assert_eq!(w.get_block(1000, 1000, 1000), Block::Air);
    assert_eq!(w.get_block(-5000, 3, 9), Block::Air);
    assert!(!w.is_solid(-5000, 3, 9));
    assert_eq!(w.chunk_count(), before);
    assert!(!w.has_chunk(ChunkPos::new(62, 62, 62)));
}

fn clear_flags(w: &mut World) {
    for p in w.chunk_positions() {
        w.take_chunk_dirty(p);
    }
}

#[test]
fn boundary_write_marks_x_neighbours() {
    let mut w = World::new();
    w.ensure_chunk(ChunkPos::new(10, 5, 10));
    w.ensure_chunk(ChunkPos::new(11, 5, 10));
    w.ensure_chunk(ChunkPos::new(9, 5, 10));
    clear_flags(&mut w);

    // local x = 15: own chunk and the +X neighbour
    w.set_block(10 * 16 + 15, 5 * 16 + 3, 10 * 16 + 3, Block::Stone);
    assert!(w.take_chunk_dirty(ChunkPos::new(10, 5, 10)));
    assert!(w.take_chunk_dirty(ChunkPos::new(11, 5, 10)));
    assert!(!w.take_chunk_dirty(ChunkPos::new(9, 5, 10)));

    // local x = 0: own chunk and the -X neighbour
    w.set_block(10 * 16, 5 * 16 + 3, 10 * 16 + 3, Block::Stone);
    assert!(w.take_chunk_dirty(ChunkPos::new(10, 5, 10)));
    assert!(w.take_chunk_dirty(ChunkPos::new(9, 5, 10)));
    assert!(!w.take_chunk_dirty(ChunkPos::new(11, 5, 10)));

    // interior: only the own chunk
    w.set_block(10 * 16 + 7, 5 * 16 + 3, 10 * 16 + 3, Block::Stone);
    assert!(w.take_chunk_dirty(ChunkPos::new(10, 5, 10)));
    assert!(!w.take_chunk_dirty(ChunkPos::new(9, 5, 10)));
    assert!(!w.take_chunk_dirty(ChunkPos::new(11, 5, 10)));
}

#[test]
fn boundary_write_does_not_create_neighbours() {
    let mut w = World::new();
    let before = w.chunk_count();
    w.set_block(10 * 16 + 15, 80, 160, Block::Stone);
    assert_eq!(w.chunk_count(), before + 1);
    assert!(!w.has_chunk(ChunkPos::new(11, 5, 10)));
}

#[test]
fn boundary_write_marks_y_and_z_neighbours() {
    let mut w = World::new();
    let c = ChunkPos::new(-3, -3, -3);
    for p in [
        c,
        ChunkPos::new(-3, -2, -3),
        ChunkPos::new(-3, -4, -3),
        ChunkPos::new(-3, -3, -2),
        ChunkPos::new(-3, -3, -4),
    ] {
        w.ensure_chunk(p);
    }
    clear_flags(&mut w);
    // local (5, 15, 0)
    w.set_block(-48 + 5, -48 + 15, -48, Block::Dirt);
    assert!(w.take_chunk_dirty(c));
    assert!(w.take_chunk_dirty(ChunkPos::new(-3, -2, -3)));
    assert!(w.take_chunk_dirty(ChunkPos::new(-3, -3, -4)));
    assert!(!w.take_chunk_dirty(ChunkPos::new(-3, -4, -3)));
    assert!(!w.take_chunk_dirty(ChunkPos::new(-3, -3, -2)));
}

#[test]
fn dirty_flag_is_taken_once() {
    let mut w = World::new();
    let p = ChunkPos::new(0, 0, 0);
    assert!(w.take_chunk_dirty(p));
    assert!(!w.take_chunk_dirty(p));
    w.mark_dirty(p);
    assert!(w.take_chunk_dirty(p));
    w.mark_dirty(ChunkPos::new(50, 50, 50));
    assert!(!w.has_chunk(ChunkPos::new(50, 50, 50)));
    assert!(!w.take_chunk_dirty(ChunkPos::new(50, 50, 50)));
}

#[test]
fn ensure_and_unload_chunks() {
    let mut w = World::new();
    let p = ChunkPos::new(7, -2, 7);
    assert!(!w.has_chunk(p));
    assert!(w.ensure_chunk(p));
    assert!(!w.ensure_chunk(p));
    assert!(w.has_chunk(p));
    assert_eq!(w.chunk_count(), 17);
    let ps = w.chunk_positions();
    assert_eq!(ps.len(), 17);
    assert!(ps.contains(&p));
    assert!(w.unload_chunk(p));
    assert!(!w.unload_chunk(p));
    assert!(!w.has_chunk(p));
    assert_eq!(w.chunk_count(), 16);
    assert!(!w.chunk_positions().contains(&p));
    assert!(w.unload_chunk(ChunkPos::new(0, 0, 0)));
    assert_eq!(w.get_block(0, 0, 0), Block::Air);
}

#[test]
fn tick_advances_age() {
    let mut w = World::new();
    w.tick();
    w.tick();
    assert_eq!(w.age(), 2);
}
