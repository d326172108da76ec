use voxel_world::voxel::{BlockType, Chunk, CHUNK_HEIGHT, CHUNK_SIZE, CHUNK_VOLUME, PADDED_AREA};

fn flat_heights(h: i32) -> Vec<i32> {
    vec![h; PADDED_AREA]
}

#[test]
fn spawn_is_all_air() {
    let c = Chunk::spawn([3, -4]);
    assert_eq!(c.position, [3, -4]);
    assert!(c.entity_id.is_none());
    assert_eq!(c.data.len(), CHUNK_VOLUME);
    assert_eq!(c.get_block(0, 0, 0), BlockType::Air);
    assert_eq!(c.get_block(-1, -1, -1), BlockType::Air);
    assert_eq!(
        c.get_block(CHUNK_SIZE as i32, CHUNK_HEIGHT as i32, CHUNK_SIZE as i32),
        BlockType::Air
    );
}

#[test]
fn set_and_get_block_roundtrip() {
    let mut c = Chunk::spawn([0, 0]);
    c.set_block(5, 100, 7, BlockType::Dirt);
    assert_eq!(c.get_block(5, 100, 7), BlockType::Dirt);
    assert_eq!(c.get_block(5, 101, 7), BlockType::Air);
    assert_eq!(c.get_block(6, 100, 7), BlockType::Air);
    c.set_block(-1, 0, CHUNK_SIZE as i32, BlockType::Dirt);
    assert_eq!(c.get_block(-1, 0, CHUNK_SIZE as i32), BlockType::Dirt);
}

#[test]
fn generate_fills_columns_to_height() {
    let mut c = Chunk::spawn([0, 0]);
    c.generate_data(&flat_heights(10));
    for y in 0..10 {
        assert_eq!(c.get_block(0, y, 0), BlockType::Dirt);
    }
    assert_eq!(c.get_block(0, 10, 0), BlockType::Air);
    // halo columns are generated with the same heights
    assert_eq!(c.get_block(-1, 9, -1), BlockType::Dirt);
    assert_eq!(c.get_block(CHUNK_SIZE as i32, 9, CHUNK_SIZE as i32), BlockType::Dirt);
    assert_eq!(c.get_block(-1, 10, -1), BlockType::Air);
}

#[test]
fn generate_overwrites_stale_blocks() {
    let mut c = Chunk::spawn([0, 0]);
    c.set_block(3, 200, 3, BlockType::Dirt);
    c.generate_data(&flat_heights(5));
    assert_eq!(c.get_block(3, 200, 3), BlockType::Air);
    assert_eq!(c.get_block(3, 4, 3), BlockType::Dirt);
}

#[test]
fn generate_clamps_negative_heights() {
    let mut c = Chunk::spawn([0, 0]);
    c.generate_data(&flat_heights(-1000));
    assert_eq!(c.get_block(0, 0, 0), BlockType::Air);
    assert_eq!(c.get_block(17, 0, 23), BlockType::Air);
}

#[test]
fn generate_clamps_heights_above_the_top() {
    let mut c = Chunk::spawn([0, 0]);
    c.generate_data(&flat_heights(1000));
    // clamp is CHUNK_HEIGHT + 1, so the top halo layer itself is written
    assert_eq!(c.get_block(0, CHUNK_HEIGHT as i32 - 1, 0), BlockType::Dirt);
    assert_eq!(c.get_block(0, CHUNK_HEIGHT as i32, 0), BlockType::Dirt);
    // the bottom halo layer is never written
    assert_eq!(c.get_block(0, -1, 0), BlockType::Air);
}

#[test]
fn generate_height_at_chunk_top_leaves_vertical_halo_air() {
    let mut c = Chunk::spawn([0, 0]);
    c.generate_data(&flat_heights(CHUNK_HEIGHT as i32));
    assert_eq!(c.get_block(4, CHUNK_HEIGHT as i32 - 1, 4), BlockType::Dirt);
    assert_eq!(c.get_block(4, CHUNK_HEIGHT as i32, 4), BlockType::Air);
}

#[test]
fn generate_is_deterministic() {
    let mut heights = Vec::new();
    for i in 0..PADDED_AREA {
        heights.push((i as i32 * 7) % 260 - 2);
    }
    let mut c1 = Chunk::spawn([2, -3]);
    let mut c2 = Chunk::spawn([2, -3]);
    c1.generate_data(&heights);
    c2.generate_data(&heights);
    assert_eq!(c1.data, c2.data);
}

#[test]
fn no_neighbors_of_isolated_block_lists_all_six_directions() {
    let mut c = Chunk::spawn([0, 0]);
    c.set_block(5, 10, 7, BlockType::Dirt);
    assert_eq!(c.get_no_neighbors(5, 10, 7), vec![0, 1, 2, 3, 4, 5]);
}

#[test]
fn no_neighbors_of_buried_block_is_empty() {
    let mut c = Chunk::spawn([0, 0]);
    for x in 10..13 {
        for y in 10..13 {
            for z in 10..13 {
                c.set_block(x, y, z, BlockType::Dirt);
            }
        }
    }
    assert_eq!(c.get_no_neighbors(11, 11, 11), Vec::<u8>::new());
    // a face block of the cube is exposed on exactly one side
    assert_eq!(c.get_no_neighbors(10, 11, 11), vec![3]);
    assert_eq!(c.get_no_neighbors(12, 11, 11), vec![2]);
    assert_eq!(c.get_no_neighbors(11, 11, 12), vec![0]);
}
