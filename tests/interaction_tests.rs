use voxel_engine::block::Block;
use voxel_engine::chunk::ChunkPos;
use voxel_engine::command::{apply_command, apply_commands, interaction_commands, Command};
use voxel_engine::input::InputState;
use voxel_engine::raycast::FIXED_ONE;
use voxel_engine::streaming::{chunk_pos_of_block, load_chunk, maintain_chunk_window};
use voxel_engine::world::World;

const F: i64 = FIXED_ONE;

#[test]
fn raycast_hits_wall_face() {
    let w = World::new();
    let hit = w.raycast_first_solid(3 * F + F / 2, F + F / 2, 20 * F, 0, 0, -F, 20 * F);
    assert_eq!(hit, Some((3, 1, 8, Block::Stone, (0, 0, 1))));
}

#[test]
fn raycast_does_not_reach_past_max_distance() {
    let w = World::new();
    // The stone at z = 8 is entered at t = 11, beyond a reach of 10.5.
    assert_eq!(w.raycast_first_solid(3 * F + F / 2, F + F / 2, 20 * F, 0, 0, -F, 10 * F + F / 2), None);
    assert_eq!(
        w.raycast_first_solid(3 * F + F / 2, F + F / 2, 20 * F, 0, 0, -F, 11 * F),
        Some((3, 1, 8, Block::Stone, (0, 0, 1)))
    );
}

#[test]
fn raycast_misses_in_air() {
    let w = World::new();
    assert_eq!(w.raycast_first_solid(F / 2, 10 * F, F / 2, 0, F, 0, 20 * F), None);
    assert_eq!(w.raycast_first_solid(-50 * F, 5 * F, -50 * F, F, 0, F, 20 * F), None);
}

#[test]
fn raycast_stops_at_max_distance() {
    let w = World::new();
    // The floor is 10 blocks below; a reach of 5 does not get there.
    assert_eq!(w.raycast_first_solid(F / 2, 10 * F + F / 2, F / 2, 0, -F, 0, 5 * F), None);
    assert_eq!(
        w.raycast_first_solid(F / 2, 10 * F + F / 2, F / 2, 0, -F, 0, 15 * F),
        Some((0, 0, 0, Block::Dirt, (0, 1, 0)))
    );
}

#[test]
fn raycast_zero_direction_and_solid_start() {
    let w = World::new();
    assert_eq!(w.raycast_first_solid(F / 2, F / 2, F / 2, 0, 0, 0, 20 * F), None);
    assert_eq!(
        w.raycast_first_solid(F / 2, F / 2, F / 2, F, 0, 0, 20 * F),
        Some((0, 0, 0, Block::Dirt, (0, 0, 0)))
    );
}

#[test]
fn raycast_diagonal_and_negative_coordinates() {
    let mut w = World::new();
    w.set_block(-3, 5, -3, Block::Stone);
    let hit = w.raycast_first_solid(F / 2, 5 * F + F / 2, F / 2, -F, 0, -F, 20 * F);
    assert_eq!(hit.map(|h| (h.0, h.1, h.2, h.3)), Some((-3, 5, -3, Block::Stone)));
    // Entered through the +X or +Z face.
    let n = hit.unwrap().4;
    assert!(n == (1, 0, 0) || n == (0, 0, 1));
}

#[test]
fn raycast_origin_outside_grid() {
    let w = World::new();
    assert_eq!(w.raycast_first_solid(i64::MAX, 0, 0, F, 0, 0, 20 * F), None);
}

#[test]
fn streaming_window_radius_two() {
    let mut w = World::new();
    w.ensure_chunk(ChunkPos::new(3, 0, 0));
    maintain_chunk_window(&mut w, ChunkPos::new(0, 0, 0), 2);
    assert!(!w.has_chunk(ChunkPos::new(3, 0, 0)));
    assert!(w.has_chunk(ChunkPos::new(2, 0, 0)));
    assert!(w.has_chunk(ChunkPos::new(-2, 0, 0)));
    assert!(w.has_chunk(ChunkPos::new(1, 0, -1)));
    assert!(!w.has_chunk(ChunkPos::new(2, 0, 1)));
    assert!(!w.has_chunk(ChunkPos::new(0, 1, 0)));
    assert_eq!(w.chunk_count(), 13);
    // Blocks of chunks that stay are kept.
    assert_eq!(w.get_block(0, 0, 0), Block::Dirt);
    assert_eq!(w.get_block(56, 0, 0), Block::Air);
}

#[test]
fn streaming_negative_radius_creates_nothing() {
    let mut w = World::new();
    maintain_chunk_window(&mut w, ChunkPos::new(0, 0, 0), -1);
    // only the loaded spawn chunks (0,0,0), (1,0,0) and (0,0,1) stay
    assert_eq!(w.chunk_count(), 3);
    assert!(w.has_chunk(ChunkPos::new(1, 0, 0)));
    assert!(!w.has_chunk(ChunkPos::new(-1, 0, 0)));
    assert!(!w.has_chunk(ChunkPos::new(1, 0, 1)));
}

#[test]
fn streaming_drops_other_slabs() {
    let mut w = World::new();
    w.set_block(0, 40, 0, Block::Stone);
    maintain_chunk_window(&mut w, ChunkPos::new(0, 0, 0), 1);
    assert!(!w.has_chunk(ChunkPos::new(0, 2, 0)));
    assert_eq!(w.get_block(0, 40, 0), Block::Air);
    assert_eq!(w.chunk_count(), 5);
}

#[test]
fn new_chunk_marks_neighbours_dirty() {
    let mut w = World::new();
    for p in w.chunk_positions() {
        w.take_chunk_dirty(p);
    }
    assert!(load_chunk(&mut w, ChunkPos::new(0, 1, 0)));
    assert!(w.take_chunk_dirty(ChunkPos::new(0, 0, 0)));
    assert!(w.take_chunk_dirty(ChunkPos::new(0, 1, 0)));
    assert!(!w.take_chunk_dirty(ChunkPos::new(1, 0, 0)));
    assert!(!load_chunk(&mut w, ChunkPos::new(0, 1, 0)));
    assert!(!w.take_chunk_dirty(ChunkPos::new(0, 0, 0)));
}

#[test]
fn player_chunk_from_block() {
    assert_eq!(chunk_pos_of_block(-1, 0, 17), ChunkPos::new(-1, 0, 1));
    assert_eq!(chunk_pos_of_block(3, 1, 3), ChunkPos::new(0, 0, 0));
}

#[test]
fn interaction_builds_commands() {
    let hit = (3, 1, 8, Block::Stone, (0, 0, 1));
    assert_eq!(
        interaction_commands(hit, true, true),
        vec![
            Command::Break { x: 3, y: 1, z: 8 },
            Command::Place { x: 3, y: 1, z: 9, block: Block::Stone }
        ]
    );
    assert_eq!(interaction_commands(hit, false, true), vec![Command::Place { x: 3, y: 1, z: 9, block: Block::Stone }]);
    assert!(interaction_commands(hit, false, false).is_empty());
}

#[test]
fn commands_change_the_world() {
    let mut w = World::new();
    assert!(apply_command(&mut w, Command::Break { x: 3, y: 1, z: 8 }));
    assert_eq!(w.get_block(3, 1, 8), Block::Air);
    assert!(apply_command(&mut w, Command::Place { x: 3, y: 1, z: 9, block: Block::Dirt }));
    assert_eq!(w.get_block(3, 1, 9), Block::Dirt);
}

#[test]
fn commands_apply_in_order() {
    let mut w = World::new();
    let cmds = vec![
        Command::Place { x: 10, y: 5, z: 10, block: Block::Stone },
        Command::Break { x: 10, y: 5, z: 10 },
        Command::Place { x: 11, y: 5, z: 10, block: Block::Dirt },
    ];
    assert_eq!(apply_commands(&mut w, &cmds), vec![true, true, true]);
    assert_eq!(w.get_block(10, 5, 10), Block::Air);
    assert_eq!(w.get_block(11, 5, 10), Block::Dirt);
}

#[test]
fn one_shot_inputs_reset() {
    let mut s = InputState::default();
    s.break_block = true;
    s.place_block = true;
    s.jump = true;
    s.toggle_mouse_lock = true;
    s.move_fwd = true;
    s.move_left = true;
    s.clear_one_shots();
    assert!(!s.break_block && !s.place_block && !s.jump && !s.toggle_mouse_lock);
    assert!(s.move_fwd && s.move_left && !s.move_back && !s.move_right);
}
