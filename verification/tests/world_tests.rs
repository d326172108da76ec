use voxel_world::world::{WorldData, WorldSettings};

#[test]
fn position_to_chunk_at_the_origin() {
    assert_eq!(WorldData::position_to_chunk(0, 0), [0, 0]);
    assert_eq!(WorldData::position_to_chunk(31, 31), [0, 0]);
    assert_eq!(WorldData::position_to_chunk(32, 0), [1, 0]);
    assert_eq!(WorldData::position_to_chunk(0, 63), [0, 1]);
    assert_eq!(WorldData::position_to_chunk(64, 64), [2, 2]);
}

#[test]
fn position_to_chunk_for_negative_coordinates() {
    // world x = -1 is chunk -1, not chunk 0
    assert_eq!(WorldData::position_to_chunk(-1, -1), [-1, -1]);
    assert_eq!(WorldData::position_to_chunk(-31, 0), [-1, 0]);
    // the preserved shift-then-truncate puts exact negative multiples one
    // chunk lower than plain floor division would
    assert_eq!(WorldData::position_to_chunk(-32, 0), [-2, 0]);
    assert_eq!(WorldData::position_to_chunk(-33, 0), [-2, 0]);
    assert_eq!(WorldData::position_to_chunk(-64, -64), [-3, -3]);
}

#[test]
fn default_settings_match_start_up_values() {
    let s = WorldSettings::default();
    assert_eq!(s.noise_fractal_octaves, 4);
    assert_eq!(f32::from_bits(s.noise_fractal_gain), 2.0);
    assert_eq!(f32::from_bits(s.noise_fractal_lacunarity), 0.5);
    assert_eq!(f32::from_bits(s.noise_frequency), 0.08);
    assert_eq!(s.render_chunk_size, 4);
}

#[test]
fn update_settings_replaces_the_snapshot() {
    let mut w = WorldData::default();
    let mut s = WorldSettings::default();
    s.render_chunk_size = 7;
    s.noise_fractal_octaves = 2;
    w.update_settings(&s);
    assert_eq!(w.world_settings, s);
    assert_eq!(w.chunks.len(), 0);
}

#[test]
fn first_tick_creates_the_three_by_three_window() {
    // viewpoint at chunk (0, 0) with render radius 2: desired set is the
    // 3x3 window {-1, 0, 1} x {-1, 0, 1} and exactly 9 chunks are created
    let mut w = WorldData::default();
    w.world_settings.render_chunk_size = 2;
    let actions = w.frame_update_world();
    assert_eq!(actions.created.len(), 9);
    assert_eq!(actions.removed.len(), 0);
    assert_eq!(w.chunks.len(), 9);
    for cx in -1..=1 {
        for cz in -1..=1 {
            assert!(w.chunks.iter().any(|c| c.position == [cx, cz]));
            assert!(actions.created.iter().any(|p| *p == [cx, cz]));
        }
    }
    assert!(!w.chunks.iter().any(|c| c.position == [2, 0]));
}

#[test]
fn desired_set_size_is_the_squared_window() {
    for r in [0usize, 1, 2, 3, 4, 5] {
        let mut w = WorldData::default();
        w.world_settings.render_chunk_size = r;
        let actions = w.frame_update_world();
        assert_eq!(w.chunks.len(), (r + 1) * (r + 1));
        assert_eq!(actions.created.len(), (r + 1) * (r + 1));
    }
}

#[test]
fn odd_radius_window_is_asymmetric() {
    // r = 1, half = 0: the window is [0, 1] on each axis, not centred
    let mut w = WorldData::default();
    w.world_settings.render_chunk_size = 1;
    w.frame_update_world();
    assert_eq!(w.chunks.len(), 4);
    for cx in 0..=1 {
        for cz in 0..=1 {
            assert!(w.chunks.iter().any(|c| c.position == [cx, cz]));
        }
    }
    assert!(!w.chunks.iter().any(|c| c.position == [-1, 0]));
}

#[test]
fn repeated_ticks_reuse_loaded_chunks() {
    let mut w = WorldData::default();
    w.world_settings.render_chunk_size = 2;
    let first = w.frame_update_world();
    assert_eq!(first.created.len(), 9);
    let h = w.register_chunk_entity([0, 0], 77);
    assert_eq!(h, None);
    let second = w.frame_update_world();
    assert_eq!(second.created.len(), 0);
    assert_eq!(second.removed.len(), 0);
    assert_eq!(w.chunks.len(), 9);
    // the registered handle survived the tick: Loaded stays Loaded
    let c = w.chunks.iter().find(|c| c.position == [0, 0]).unwrap();
    assert_eq!(c.entity_id, Some(77));
}

#[test]
fn moving_the_viewpoint_removes_each_stale_handle_exactly_once() {
    // viewpoint moves from chunk (0, 0) to (5, 0) with r = 4: every old
    // chunk has |x - 5| > 2, so all 25 handles are removed, each once
    let mut w = WorldData::default();
    w.world_settings.render_chunk_size = 4;
    let first = w.frame_update_world();
    assert_eq!(first.created.len(), 25);
    let positions: Vec<[i32; 2]> = w.chunks.iter().map(|c| c.position).collect();
    let mut next_handle = 100u64;
    for p in &positions {
        assert_eq!(w.register_chunk_entity(*p, next_handle), None);
        next_handle += 1;
    }
    w.player_chunk_pos = [5, 0];
    let second = w.frame_update_world();
    assert_eq!(second.created.len(), 25);
    assert_eq!(second.removed.len(), 25);
    for h in 100u64..125 {
        assert_eq!(second.removed.iter().filter(|x| **x == h).count(), 1);
    }
    assert_eq!(w.chunks.len(), 25);
    for c in &w.chunks {
        assert!(c.position[0] >= 3 && c.position[0] <= 7);
        assert!(c.position[1] >= -2 && c.position[1] <= 2);
        assert!(c.entity_id.is_none());
    }
}

#[test]
fn chunks_without_a_registered_handle_are_dropped_silently() {
    let mut w = WorldData::default();
    w.world_settings.render_chunk_size = 0;
    w.frame_update_world();
    assert_eq!(w.chunks.len(), 1);
    w.player_chunk_pos = [10, 10];
    let actions = w.frame_update_world();
    // the dropped chunk never had a handle, so nothing is asked removed
    assert_eq!(actions.removed.len(), 0);
    assert_eq!(actions.created.len(), 1);
}

#[test]
fn register_replaces_and_returns_the_previous_handle() {
    let mut w = WorldData::default();
    w.world_settings.render_chunk_size = 0;
    w.frame_update_world();
    let p = w.chunks[0].position;
    assert_eq!(w.register_chunk_entity(p, 5), None);
    assert_eq!(w.register_chunk_entity(p, 9), Some(5));
    assert_eq!(w.chunks[0].entity_id, Some(9));
    // registering against a coordinate with no chunk changes nothing
    assert_eq!(w.register_chunk_entity([99, 99], 1), None);
    assert_eq!(w.chunks.len(), 1);
}
