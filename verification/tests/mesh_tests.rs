use voxel_world::mesh::material_color;
use voxel_world::voxel::{BlockType, Chunk, CHUNK_HEIGHT, CHUNK_SIZE};

#[test]
fn air_chunk_yields_empty_mesh() {
    let c = Chunk::spawn([0, 0]);
    let m = c.spawn_blocks();
    assert_eq!(m.positions.len(), 0);
    assert_eq!(m.normals.len(), 0);
    assert_eq!(m.uvs.len(), 0);
    assert_eq!(m.indices.len(), 0);
    assert_eq!(m.transform, (0, 0, 0));
}

#[test]
fn single_block_yields_six_quads_with_exact_geometry() {
    let mut c = Chunk::spawn([2, 3]);
    c.set_block(5, 10, 7, BlockType::Dirt);
    let m = c.spawn_blocks();
    assert_eq!(m.positions.len(), 24);
    assert_eq!(m.normals.len(), 24);
    assert_eq!(m.uvs.len(), 24);
    assert_eq!(m.indices.len(), 36);

    // first face: +z, at block position (2 + 5, 10, 3 + 7)
    assert_eq!(m.positions[0], (7, 10, 11));
    assert_eq!(m.positions[1], (8, 10, 11));
    assert_eq!(m.positions[2], (8, 11, 11));
    assert_eq!(m.positions[3], (7, 11, 11));
    for i in 0..4 {
        assert_eq!(m.normals[i], (0, 0, 1));
    }
    assert_eq!(m.uvs[0], (0, 0));
    assert_eq!(m.uvs[1], (1, 0));
    assert_eq!(m.uvs[2], (1, 1));
    assert_eq!(m.uvs[3], (0, 1));

    // second face: -z
    assert_eq!(m.normals[4], (0, 0, -1));
    assert_eq!(m.positions[4], (7, 11, 10));

    // triangulation: [0,1,2,2,3,0] offset by 4 per quad
    assert_eq!(&m.indices[0..6], &[0, 1, 2, 2, 3, 0]);
    assert_eq!(&m.indices[6..12], &[4, 5, 6, 6, 7, 4]);
    assert_eq!(&m.indices[30..36], &[20, 21, 22, 22, 23, 20]);

    // placement transform uses the CHUNK_SIZE - 1 multiplier
    assert_eq!(m.transform, (2 * 31, 0, 3 * 31));
}

#[test]
fn buried_blocks_emit_no_faces() {
    // a 3x3x3 solid cube: only its 54 surface faces appear, none from the core
    let mut c = Chunk::spawn([0, 0]);
    for x in 10..13 {
        for y in 10..13 {
            for z in 10..13 {
                c.set_block(x, y, z, BlockType::Dirt);
            }
        }
    }
    let m = c.spawn_blocks();
    assert_eq!(m.positions.len(), 54 * 4);
    assert_eq!(m.indices.len(), 54 * 6);
}

#[test]
fn fully_solid_chunk_emits_exactly_the_boundary_faces() {
    let mut c = Chunk::spawn([0, 0]);
    for x in 0..CHUNK_SIZE as i32 {
        for y in 0..CHUNK_HEIGHT as i32 {
            for z in 0..CHUNK_SIZE as i32 {
                c.set_block(x, y, z, BlockType::Dirt);
            }
        }
    }
    let m = c.spawn_blocks();
    let quads = 2 * 32 * 32 + 4 * 32 * 256;
    assert_eq!(m.positions.len(), quads * 4);
    assert_eq!(m.normals.len(), quads * 4);
    assert_eq!(m.uvs.len(), quads * 4);
    assert_eq!(m.indices.len(), quads * 6);
}

#[test]
fn solid_halo_column_culls_edge_faces() {
    // a block on the chunk's x = 0 edge with a solid halo neighbor: the -x
    // face is culled without reading the neighboring chunk
    let mut c = Chunk::spawn([0, 0]);
    c.set_block(0, 50, 8, BlockType::Dirt);
    c.set_block(-1, 50, 8, BlockType::Dirt);
    let m = c.spawn_blocks();
    // five faces remain of the single interior block; the halo block itself
    // is outside the interior loop and emits nothing
    assert_eq!(m.positions.len(), 5 * 4);
    let mut found_minus_x = false;
    for n in &m.normals {
        if *n == (-1, 0, 0) {
            found_minus_x = true;
        }
    }
    assert!(!found_minus_x);
}

#[test]
fn adjacent_chunks_transforms_differ_by_the_alignment_multiplier() {
    let a = Chunk::spawn([0, 0]).spawn_blocks();
    let b = Chunk::spawn([1, 0]).spawn_blocks();
    assert_eq!(b.transform.0 - a.transform.0, CHUNK_SIZE as i32 - 1);
}

#[test]
fn material_is_flat_brown() {
    assert_eq!(material_color(), (165, 42, 42));
}
