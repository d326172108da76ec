use vstd::prelude::*;

verus! {

/// Blocks along each horizontal axis of a chunk.
pub const CHUNK_SIZE: usize = 32;

/// Blocks along the vertical axis of a chunk.
pub const CHUNK_HEIGHT: usize = 256;

/// Cells in a chunk's padded block array, one-cell halo included:
/// (CHUNK_SIZE + 2) * (CHUNK_HEIGHT + 2) * (CHUNK_SIZE + 2).
pub const CHUNK_VOLUME: usize = 298248;

/// Columns in a chunk's padded horizontal footprint, halo included:
/// (CHUNK_SIZE + 2) * (CHUNK_SIZE + 2).
pub const PADDED_AREA: usize = 1156;

/// What a single voxel cell holds: only presence matters.
#[derive(Copy, Clone, Debug, PartialEq, Eq, Structural)]
pub enum BlockType {
    Air,
    Dirt,
}

/// Chunk-local coordinates, halo included, that the padded array stores.
pub open spec fn in_chunk_bounds(x: int, y: int, z: int) -> bool {
    &&& -1 <= x <= CHUNK_SIZE as int
    &&& -1 <= y <= CHUNK_HEIGHT as int
    &&& -1 <= z <= CHUNK_SIZE as int
}

/// Where cell (x, y, z) lives in the flat padded array; the padded extents
/// are 34 = CHUNK_SIZE + 2 and 258 = CHUNK_HEIGHT + 2.
pub open spec fn block_index(x: int, y: int, z: int) -> int {
    ((x + 1) * 258 + (y + 1)) * 34 + (z + 1)
}

/// The block that a padded array holds at cell (x, y, z).
pub open spec fn block_at(data: Seq<BlockType>, x: int, y: int, z: int) -> BlockType {
    data[block_index(x, y, z)]
}

pub proof fn lemma_block_index_bounds(x: int, y: int, z: int)
    requires
        in_chunk_bounds(x, y, z),
    ensures
        0 <= block_index(x, y, z) < CHUNK_VOLUME as int,
{
}

pub proof fn lemma_block_index_injective(
    x1: int, y1: int, z1: int,
    x2: int, y2: int, z2: int,
)
    requires
        in_chunk_bounds(x1, y1, z1),
        in_chunk_bounds(x2, y2, z2),
        block_index(x1, y1, z1) == block_index(x2, y2, z2),
    ensures
        x1 == x2 && y1 == y2 && z1 == z2,
{
}

/// Index of column (x, z) in a heights table covering the padded footprint.
pub open spec fn column_index(x: int, z: int) -> int {
    (x + 1) * 34 + (z + 1)
}

/// The column height clamped exactly as terrain generation clamps it.
pub open spec fn clamped_height(h: int) -> int {
    if h < -1 {
        -1
    } else if h > CHUNK_HEIGHT as int + 1 {
        CHUNK_HEIGHT as int + 1
    } else {
        h
    }
}

/// What terrain generation writes at cell (x, y, z) given a column-height table.
pub open spec fn generated_block(heights: Seq<i32>, x: int, y: int, z: int) -> BlockType {
    if 0 <= y < clamped_height(heights[column_index(x, z)] as int) {
        BlockType::Dirt
    } else {
        BlockType::Air
    }
}

/// The whole padded array holds exactly what generation writes for `heights`.
pub open spec fn generated_data(data: Seq<BlockType>, heights: Seq<i32>) -> bool {
    forall|x: int, y: int, z: int| in_chunk_bounds(x, y, z) ==>
        #[trigger] block_at(data, x, y, z) == generated_block(heights, x, y, z)
}

/// x-step of face direction d; directions are +z, -z, +x, -x, +y, -y in order.
pub open spec fn dir_dx(d: int) -> int {
    if d == 2 { 1 } else if d == 3 { -1 } else { 0 }
}

/// y-step of face direction d.
pub open spec fn dir_dy(d: int) -> int {
    if d == 4 { 1 } else if d == 5 { -1 } else { 0 }
}

/// z-step of face direction d.
pub open spec fn dir_dz(d: int) -> int {
    if d == 0 { 1 } else if d == 1 { -1 } else { 0 }
}

/// The neighbor one step in direction d from (x, y, z) reads as Air.
pub open spec fn neighbor_air(data: Seq<BlockType>, x: int, y: int, z: int, d: int) -> bool {
    block_at(data, x + dir_dx(d), y + dir_dy(d), z + dir_dz(d)) == BlockType::Air
}

/// The directions below n whose neighbor is Air, in increasing order.
pub open spec fn air_dirs_upto(data: Seq<BlockType>, x: int, y: int, z: int, n: int) -> Seq<u8>
    decreases n,
{
    if n <= 0 {
        Seq::empty()
    } else if neighbor_air(data, x, y, z, n - 1) {
        air_dirs_upto(data, x, y, z, n - 1) + seq![(n - 1) as u8]
    } else {
        air_dirs_upto(data, x, y, z, n - 1)
    }
}

/// What get_no_neighbors returns: every direction whose neighbor is Air.
pub open spec fn spec_no_neighbors(data: Seq<BlockType>, x: int, y: int, z: int) -> Seq<u8> {
    air_dirs_upto(data, x, y, z, 6)
}

fn direction(d: usize) -> (r: (i32, i32, i32))
    requires
        d < 6,
    ensures
        r.0 as int == dir_dx(d as int),
        r.1 as int == dir_dy(d as int),
        r.2 as int == dir_dz(d as int),
{
    if d == 0 {
        (0, 0, 1)
    } else if d == 1 {
        (0, 0, -1)
    } else if d == 2 {
        (1, 0, 0)
    } else if d == 3 {
        (-1, 0, 0)
    } else if d == 4 {
        (0, 1, 0)
    } else {
        (0, -1, 0)
    }
}

fn chunk_data_index(x: i32, y: i32, z: i32) -> (r: usize)
    requires
        in_chunk_bounds(x as int, y as int, z as int),
    ensures
        r as int == block_index(x as int, y as int, z as int),
        r < CHUNK_VOLUME,
{
    let xi: usize = (x + 1) as usize;
    let yi: usize = (y + 1) as usize;
    let zi: usize = (z + 1) as usize;
    (xi * 258 + yi) * 34 + zi
}

/// A fixed-size cuboid of voxels with a one-cell halo, plus the handle of the
/// geometry the host currently displays for it.
#[derive(Debug, Clone)]
pub struct Chunk {
    /// Handle of host-owned display geometry, absent until one is registered.
    pub entity_id: Option<u64>,
    /// The chunk's coordinate (x, z) in chunk space, not world units.
    pub position: [i32; 2],
    /// Flat padded block array; cell (x, y, z) lives at block_index(x, y, z).
    pub data: Vec<BlockType>,
}

impl Chunk {
    /// The padded array is fully allocated.
    pub open spec fn wf(self) -> bool {
        self.data@.len() == CHUNK_VOLUME as int
    }

    /// Every cell, halo included, reads as Air.
    pub open spec fn all_air(self) -> bool {
        forall|x: int, y: int, z: int| in_chunk_bounds(x, y, z) ==>
            #[trigger] block_at(self.data@, x, y, z) == BlockType::Air
    }

    /// A freshly created chunk at `position`: fully Air, nothing displayed.
    pub fn spawn(position: [i32; 2]) -> (r: Chunk)
        ensures
            r.wf(),
            r.entity_id is None,
            r.position == position,
            r.all_air(),
    {
        let mut c = Chunk::default();
        c.position = position;
        c
    }

    /// Return the block at chunk-local (x, y, z); the halo makes every
    /// coordinate from -1 to the padded end a valid read.
    pub fn get_block(&self, x: i32, y: i32, z: i32) -> (r: BlockType)
        requires
            self.wf(),
            in_chunk_bounds(x as int, y as int, z as int),
        ensures
            r == block_at(self.data@, x as int, y as int, z as int),
    {
        let idx: usize = chunk_data_index(x, y, z);
        self.data[idx]
    }

    /// Overwrite the block at chunk-local (x, y, z).
    pub fn set_block(&mut self, x: i32, y: i32, z: i32, block_type: BlockType)
        requires
            old(self).wf(),
            in_chunk_bounds(x as int, y as int, z as int),
        ensures
            final(self).wf(),
            final(self).position == old(self).position,
            final(self).entity_id == old(self).entity_id,
            final(self).data@ == old(self).data@.update(
                block_index(x as int, y as int, z as int),
                block_type,
            ),
    {
        let idx: usize = chunk_data_index(x, y, z);
        self.data[idx] = block_type;
    }

    /// The faces of the block at (x, y, z) that have no solid neighbor,
    /// as direction numbers in increasing order.
    pub fn get_no_neighbors(&self, x: i32, y: i32, z: i32) -> (r: Vec<u8>)
        requires
            self.wf(),
            0 <= x < CHUNK_SIZE as i32,
            0 <= y < CHUNK_HEIGHT as i32,
            0 <= z < CHUNK_SIZE as i32,
        ensures
            r@ == spec_no_neighbors(self.data@, x as int, y as int, z as int),
    {
        let mut r: Vec<u8> = Vec::new();
        let mut d: usize = 0;
        while d < 6
            invariant
                d <= 6,
                self.wf(),
                0 <= x < CHUNK_SIZE as i32,
                0 <= y < CHUNK_HEIGHT as i32,
                0 <= z < CHUNK_SIZE as i32,
                r@ == air_dirs_upto(self.data@, x as int, y as int, z as int, d as int),
            decreases 6 - d,
        {
            let (dx, dy, dz) = direction(d);
            let b = self.get_block(x + dx, y + dy, z + dz);
            let ghost prev = r@;
            if matches!(b, BlockType::Air) {
                r.push(d as u8);
                proof {
                    assert(r@ =~= prev + seq![d as u8]);
                }
            }
            d += 1;
        }
        r
    }

    /// Regenerate the whole padded block array from a table of column heights,
    /// one height for every column of the padded footprint: every cell with
    /// vertical index in [0, clamped height) becomes Dirt, the rest Air.
    pub fn generate_data(&mut self, heights: &Vec<i32>)
        requires
            old(self).wf(),
            heights@.len() == PADDED_AREA as int,
        ensures
            final(self).wf(),
            final(self).position == old(self).position,
            final(self).entity_id == old(self).entity_id,
            generated_data(final(self).data@, heights@),
    {
        let mut fresh: Vec<BlockType> = Vec::new();
        while fresh.len() < CHUNK_VOLUME
            invariant
                fresh@.len() <= CHUNK_VOLUME as int,
                forall|i: int| 0 <= i < fresh@.len() ==> fresh@[i] == BlockType::Air,
            decreases CHUNK_VOLUME - fresh@.len(),
        {
            fresh.push(BlockType::Air);
        }
        self.data = fresh;
        proof {
            assert forall|x: int, y: int, z: int| in_chunk_bounds(x, y, z)
                implies #[trigger] block_at(self.data@, x, y, z) == BlockType::Air by {
                lemma_block_index_bounds(x, y, z);
            }
        }

        let mut xi: usize = 0;
        while xi < CHUNK_SIZE + 2
            invariant
                xi <= CHUNK_SIZE + 2,
                self.wf(),
                self.position == old(self).position,
                self.entity_id == old(self).entity_id,
                heights@.len() == PADDED_AREA as int,
                forall|x2: int, y2: int, z2: int|
                    in_chunk_bounds(x2, y2, z2) && x2 + 1 < xi as int ==>
                        #[trigger] block_at(self.data@, x2, y2, z2)
                            == generated_block(heights@, x2, y2, z2),
                forall|x2: int, y2: int, z2: int|
                    in_chunk_bounds(x2, y2, z2) && x2 + 1 >= xi as int ==>
                        #[trigger] block_at(self.data@, x2, y2, z2) == BlockType::Air,
            decreases CHUNK_SIZE + 2 - xi,
        {
            let mut zi: usize = 0;
            while zi < CHUNK_SIZE + 2
                invariant
                    xi < CHUNK_SIZE + 2,
                    zi <= CHUNK_SIZE + 2,
                    self.wf(),
                    self.position == old(self).position,
                    self.entity_id == old(self).entity_id,
                    heights@.len() == PADDED_AREA as int,
                    forall|x2: int, y2: int, z2: int|
                        in_chunk_bounds(x2, y2, z2)
                            && (x2 + 1 < xi as int
                                || (x2 + 1 == xi as int && z2 + 1 < zi as int)) ==>
                            #[trigger] block_at(self.data@, x2, y2, z2)
                                == generated_block(heights@, x2, y2, z2),
                    forall|x2: int, y2: int, z2: int|
                        in_chunk_bounds(x2, y2, z2)
                            && (x2 + 1 > xi as int
                                || (x2 + 1 == xi as int && z2 + 1 >= zi as int)) ==>
                            #[trigger] block_at(self.data@, x2, y2, z2) == BlockType::Air,
                decreases CHUNK_SIZE + 2 - zi,
            {
                let x: i32 = xi as i32 - 1;
                let z: i32 = zi as i32 - 1;
                let h: i32 = heights[xi * 34 + zi];
                let max_h: i32 = CHUNK_HEIGHT as i32 + 1;
                let end: i32 = if h < -1 {
                    -1
                } else if h > max_h {
                    max_h
                } else {
                    h
                };
                assert(end as int == clamped_height(h as int));
                assert(heights@[column_index(x as int, z as int)] == h);

                let mut y: i32 = 0;
                while y < end
                    invariant
                        0 <= y,
                        end <= CHUNK_HEIGHT as i32 + 1,
                        y <= if end > 0 { end as int } else { 0 },
                        xi < CHUNK_SIZE + 2,
                        zi < CHUNK_SIZE + 2,
                        x as int == xi as int - 1,
                        z as int == zi as int - 1,
                        self.wf(),
                        self.position == old(self).position,
                        self.entity_id == old(self).entity_id,
                        heights@.len() == PADDED_AREA as int,
                        forall|x2: int, y2: int, z2: int|
                            in_chunk_bounds(x2, y2, z2)
                                && (x2 + 1 < xi as int
                                    || (x2 + 1 == xi as int && z2 + 1 < zi as int)) ==>
                                #[trigger] block_at(self.data@, x2, y2, z2)
                                    == generated_block(heights@, x2, y2, z2),
                        forall|x2: int, y2: int, z2: int|
                            in_chunk_bounds(x2, y2, z2)
                                && (x2 + 1 > xi as int
                                    || (x2 + 1 == xi as int && z2 + 1 > zi as int)) ==>
                                #[trigger] block_at(self.data@, x2, y2, z2) == BlockType::Air,
                        forall|y2: int| -1 <= y2 <= CHUNK_HEIGHT as int ==>
                            #[trigger] block_at(self.data@, x as int, y2, z as int)
                                == if 0 <= y2 < y as int { BlockType::Dirt } else { BlockType::Air },
                    decreases end - y,
                {
                    let ghost before = self.data@;
                    self.set_block(x, y, z, BlockType::Dirt);
                    proof {
                        lemma_block_index_bounds(x as int, y as int, z as int);
                        assert forall|x2: int, y2: int, z2: int|
                            in_chunk_bounds(x2, y2, z2)
                                && !(x2 == x as int && y2 == y as int && z2 == z as int)
                            implies #[trigger] block_at(self.data@, x2, y2, z2)
                                == block_at(before, x2, y2, z2) by {
                            lemma_block_index_bounds(x2, y2, z2);
                            if block_index(x2, y2, z2) == block_index(x as int, y as int, z as int) {
                                lemma_block_index_injective(
                                    x2, y2, z2, x as int, y as int, z as int,
                                );
                            }
                        }
                    }
                    y += 1;
                }

                proof {
                    assert forall|y2: int| -1 <= y2 <= CHUNK_HEIGHT as int
                        implies #[trigger] block_at(self.data@, x as int, y2, z as int)
                            == generated_block(heights@, x as int, y2, z as int) by {
                    }
                }
                zi += 1;
            }
            xi += 1;
        }
    }
}

impl Default for Chunk {
    /// A chunk at coordinate (0, 0), fully Air, nothing displayed.
    fn default() -> (r: Chunk)
        ensures
            r.wf(),
            r.entity_id is None,
            r.position[0] == 0,
            r.position[1] == 0,
            r.all_air(),
    {
        let mut data: Vec<BlockType> = Vec::new();
        while data.len() < CHUNK_VOLUME
            invariant
                data@.len() <= CHUNK_VOLUME as int,
                forall|i: int| 0 <= i < data@.len() ==> data@[i] == BlockType::Air,
            decreases CHUNK_VOLUME - data@.len(),
        {
            data.push(BlockType::Air);
        }
        let r = Chunk { entity_id: None, position: [0, 0], data };
        proof {
            assert forall|x: int, y: int, z: int| in_chunk_bounds(x, y, z)
                implies #[trigger] block_at(r.data@, x, y, z) == BlockType::Air by {
                lemma_block_index_bounds(x, y, z);
            }
        }
        r
    }
}

/// Seam correctness of the halo: where the padded footprints of two
/// generated chunks overlap and their height tables agree on the shared
/// column, the chunks hold the same blocks all the way up that column, so
/// face culling at a chunk edge never disagrees with the neighboring chunk.
pub proof fn lemma_generated_halo_seam(
    d1: Seq<BlockType>,
    h1: Seq<i32>,
    x1: int,
    z1: int,
    d2: Seq<BlockType>,
    h2: Seq<i32>,
    x2: int,
    z2: int,
)
    requires
        generated_data(d1, h1),
        generated_data(d2, h2),
        in_chunk_bounds(x1, 0, z1),
        in_chunk_bounds(x2, 0, z2),
        h1[column_index(x1, z1)] == h2[column_index(x2, z2)],
    ensures
        forall|y: int| -1 <= y <= CHUNK_HEIGHT as int ==>
            block_at(d1, x1, y, z1) == block_at(d2, x2, y, z2),
{
    assert forall|y: int| -1 <= y <= CHUNK_HEIGHT as int
        implies block_at(d1, x1, y, z1) == block_at(d2, x2, y, z2) by {
        assert(in_chunk_bounds(x1, y, z1));
        assert(in_chunk_bounds(x2, y, z2));
        assert(block_at(d1, x1, y, z1) == generated_block(h1, x1, y, z1));
        assert(block_at(d2, x2, y, z2) == generated_block(h2, x2, y, z2));
    }
}

/// Determinism of terrain generation: two padded arrays generated from the
/// same column heights are identical.
pub proof fn lemma_generate_data_deterministic(
    d1: Seq<BlockType>,
    d2: Seq<BlockType>,
    heights: Seq<i32>,
)
    requires
        d1.len() == CHUNK_VOLUME as int,
        d2.len() == CHUNK_VOLUME as int,
        generated_data(d1, heights),
        generated_data(d2, heights),
    ensures
        d1 == d2,
{
    assert forall|i: int| 0 <= i < d1.len() implies d1[i] == d2[i] by {
        let layer: int = (CHUNK_HEIGHT as int + 2) * (CHUNK_SIZE as int + 2);
        let x: int = i / layer - 1;
        let y: int = (i / (CHUNK_SIZE as int + 2)) % (CHUNK_HEIGHT as int + 2) - 1;
        let z: int = i % (CHUNK_SIZE as int + 2) - 1;
        assert(in_chunk_bounds(x, y, z)) by (nonlinear_arith)
            requires 0 <= i < CHUNK_VOLUME as int,
                x == i / ((CHUNK_HEIGHT as int + 2) * (CHUNK_SIZE as int + 2)) - 1,
                y == (i / (CHUNK_SIZE as int + 2)) % (CHUNK_HEIGHT as int + 2) - 1,
                z == i % (CHUNK_SIZE as int + 2) - 1;
        assert(block_index(x, y, z) == i) by (nonlinear_arith)
            requires 0 <= i < CHUNK_VOLUME as int,
                x == i / ((CHUNK_HEIGHT as int + 2) * (CHUNK_SIZE as int + 2)) - 1,
                y == (i / (CHUNK_SIZE as int + 2)) % (CHUNK_HEIGHT as int + 2) - 1,
                z == i % (CHUNK_SIZE as int + 2) - 1;
        assert(block_at(d1, x, y, z) == block_at(d2, x, y, z));
    }
    assert(d1 =~= d2);
}

} // verus!
