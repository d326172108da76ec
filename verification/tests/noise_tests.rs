use bracket_noise::prelude::{FastNoise, FractalType, NoiseType};
use voxel_world::voxel::Chunk;
use voxel_world::world::{WorldData, WorldSettings};

fn noise_from_settings(s: &WorldSettings) -> FastNoise {
    let mut noise = FastNoise::seeded(10);
    noise.set_noise_type(NoiseType::PerlinFractal);
    noise.set_fractal_type(FractalType::FBM);
    noise.set_fractal_octaves(s.noise_fractal_octaves);
    noise.set_fractal_gain(f32::from_bits(s.noise_fractal_gain));
    noise.set_fractal_lacunarity(f32::from_bits(s.noise_fractal_lacunarity));
    noise.set_frequency(f32::from_bits(s.noise_frequency));
    noise
}

fn column_heights(noise: &FastNoise, position: [i32; 2]) -> Vec<i32> {
    let mut heights = Vec::new();
    for xi in 0..34 {
        for zi in 0..34 {
            let x = xi - 1;
            let z = zi - 1;
            let wx = 0.1 + ((position[0] * 32) + x) as f32;
            let wz = 0.1 + ((position[1] * 32) + z) as f32;
            let h = (noise.get_noise(wx, wz) * 128.0) as i32 + 128;
            heights.push(h);
        }
    }
    heights
}

#[test]
fn regenerating_with_the_same_settings_is_deterministic() {
    let s = WorldSettings::default();
    let n1 = noise_from_settings(&s);
    let n2 = noise_from_settings(&s);
    let mut c1 = Chunk::spawn([1, -2]);
    let mut c2 = Chunk::spawn([1, -2]);
    c1.generate_data(&column_heights(&n1, [1, -2]));
    c2.generate_data(&column_heights(&n2, [1, -2]));
    assert_eq!(c1.data, c2.data);
}

#[test]
fn generated_terrain_is_not_trivial() {
    let s = WorldSettings::default();
    let noise = noise_from_settings(&s);
    let heights = column_heights(&noise, [0, 0]);
    let lo = heights.iter().min().unwrap();
    let hi = heights.iter().max().unwrap();
    assert!(*lo >= 0 && *hi <= 256);
    assert!(lo < hi);
}

#[test]
fn neighbor_chunks_sample_seamless_heights() {
    // the halo column of one chunk holds the same height as the first real
    // column of the neighboring chunk, so edge culling is seam-correct
    let s = WorldSettings::default();
    let noise = noise_from_settings(&s);
    let a = column_heights(&noise, [0, 0]);
    let b = column_heights(&noise, [1, 0]);
    for zi in 0..34 {
        // a's halo column x = 32 is b's interior column x = 0
        assert_eq!(a[33 * 34 + zi], b[1 * 34 + zi]);
        // a's last interior column x = 31 is b's halo column x = -1
        assert_eq!(a[32 * 34 + zi], b[0 * 34 + zi]);
    }
}

#[test]
fn settings_change_regenerates_every_chunk_and_replaces_every_handle() {
    let mut w = WorldData::default();
    w.world_settings.render_chunk_size = 1;
    let actions = w.frame_update_world();
    assert_eq!(actions.created.len(), 4);

    // the host fills and displays the created chunks
    let noise = noise_from_settings(&w.world_settings);
    let positions: Vec<[i32; 2]> = w.chunks.iter().map(|c| c.position).collect();
    let mut heights_list = Vec::new();
    for p in &positions {
        heights_list.push(column_heights(&noise, *p));
    }
    w.generate_data(&heights_list);
    let mut handle = 1u64;
    for p in &positions {
        assert_eq!(w.register_chunk_entity(*p, handle), None);
        handle += 1;
    }
    let old_data: Vec<Vec<voxel_world::voxel::BlockType>> =
        w.chunks.iter().map(|c| c.data.clone()).collect();

    // the host signals a configuration change: new gain, rebuilt noise
    let mut s = w.world_settings;
    s.noise_fractal_gain = f32::to_bits(0.4);
    s.noise_fractal_octaves = 2;
    w.update_settings(&s);
    let noise2 = noise_from_settings(&w.world_settings);
    let mut heights_list2 = Vec::new();
    for p in &positions {
        heights_list2.push(column_heights(&noise2, *p));
    }
    w.generate_data(&heights_list2);
    let remesh = w.spawn_blocks();

    // every previously registered handle comes back exactly once
    assert_eq!(remesh.len(), 4);
    for h in 1u64..5 {
        assert_eq!(
            remesh.iter().filter(|e| e.2 == Some(h)).count(),
            1,
        );
    }
    // no chunk keeps a stale handle while its new mesh is unregistered
    for c in &w.chunks {
        assert!(c.entity_id.is_none());
    }
    // the block data changed deterministically with the new noise
    let mut changed = false;
    for (i, c) in w.chunks.iter().enumerate() {
        if c.data != old_data[i] {
            changed = true;
        }
    }
    assert!(changed);

    // the host registers the replacement handles
    for e in &remesh {
        assert_eq!(w.register_chunk_entity(e.0, 50 + e.2.unwrap()), None);
    }
    for c in &w.chunks {
        assert!(c.entity_id.is_some());
    }
}
