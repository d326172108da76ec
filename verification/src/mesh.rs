use vstd::prelude::*;
use crate::voxel::{
    BlockType, Chunk, CHUNK_SIZE, CHUNK_HEIGHT, block_at, in_chunk_bounds, neighbor_air,
    spec_no_neighbors, air_dirs_upto, dir_dx, dir_dy, dir_dz,
};

verus! {

/// One face to emit: the cell (x, y, z) and the direction d of its exposed side.
pub type Quad = (int, int, int, int);

/// The quads that the listed directions contribute for cell (x, y, z), in order.
pub open spec fn dirs_to_quads(x: int, y: int, z: int, dirs: Seq<u8>) -> Seq<Quad>
    decreases dirs.len(),
{
    if dirs.len() == 0 {
        Seq::empty()
    } else {
        dirs_to_quads(x, y, z, dirs.drop_last()) + seq![(x, y, z, dirs.last() as int)]
    }
}

/// The quads that mesh construction emits for one interior cell: none for an
/// Air block, one per Air neighbor for a solid block.
pub open spec fn cell_quads(data: Seq<BlockType>, x: int, y: int, z: int) -> Seq<Quad> {
    if block_at(data, x, y, z) == BlockType::Air {
        Seq::empty()
    } else {
        dirs_to_quads(x, y, z, spec_no_neighbors(data, x, y, z))
    }
}

/// Quads of the cells (x, y, z') for z' in [0, zn), in scan order.
pub open spec fn quads_z_upto(data: Seq<BlockType>, x: int, y: int, zn: int) -> Seq<Quad>
    decreases zn,
{
    if zn <= 0 {
        Seq::empty()
    } else {
        quads_z_upto(data, x, y, zn - 1) + cell_quads(data, x, y, zn - 1)
    }
}

/// Quads of the cells (x, y', z) for y' in [0, yn), all z, in scan order.
pub open spec fn quads_y_upto(data: Seq<BlockType>, x: int, yn: int) -> Seq<Quad>
    decreases yn,
{
    if yn <= 0 {
        Seq::empty()
    } else {
        quads_y_upto(data, x, yn - 1) + quads_z_upto(data, x, yn - 1, 32)
    }
}

/// Quads of the cells (x', y, z) for x' in [0, xn), all y and z, in scan order.
pub open spec fn quads_x_upto(data: Seq<BlockType>, xn: int) -> Seq<Quad>
    decreases xn,
{
    if xn <= 0 {
        Seq::empty()
    } else {
        quads_x_upto(data, xn - 1) + quads_y_upto(data, xn - 1, 256)
    }
}

/// Every quad that mesh construction emits for the interior of a chunk,
/// in emission order.
pub open spec fn chunk_quads(data: Seq<BlockType>) -> Seq<Quad> {
    quads_x_upto(data, 32)
}

/// Corner i of the face in direction d, as an offset from the block's corner.
pub open spec fn vertex_offset(d: int, i: int) -> (int, int, int) {
    if d == 0 {
        if i == 0 { (0, 0, 1) } else if i == 1 { (1, 0, 1) } else if i == 2 { (1, 1, 1) } else { (0, 1, 1) }
    } else if d == 1 {
        if i == 0 { (0, 1, 0) } else if i == 1 { (1, 1, 0) } else if i == 2 { (1, 0, 0) } else { (0, 0, 0) }
    } else if d == 2 {
        if i == 0 { (1, 0, 0) } else if i == 1 { (1, 1, 0) } else if i == 2 { (1, 1, 1) } else { (1, 0, 1) }
    } else if d == 3 {
        if i == 0 { (0, 0, 1) } else if i == 1 { (0, 1, 1) } else if i == 2 { (0, 1, 0) } else { (0, 0, 0) }
    } else if d == 4 {
        if i == 0 { (1, 1, 0) } else if i == 1 { (0, 1, 0) } else if i == 2 { (0, 1, 1) } else { (1, 1, 1) }
    } else {
        if i == 0 { (1, 0, 1) } else if i == 1 { (0, 0, 1) } else if i == 2 { (0, 0, 0) } else { (1, 0, 0) }
    }
}

/// The constant normal of every vertex of a face in direction d.
pub open spec fn vertex_normal(d: int) -> (int, int, int) {
    (dir_dx(d), dir_dy(d), dir_dz(d))
}

/// UV corner i of a face in direction d.
pub open spec fn vertex_uv(d: int, i: int) -> (int, int) {
    if d == 0 || d == 2 || d == 5 {
        if i == 0 { (0, 0) } else if i == 1 { (1, 0) } else if i == 2 { (1, 1) } else { (0, 1) }
    } else {
        if i == 0 { (1, 0) } else if i == 1 { (0, 0) } else if i == 2 { (0, 1) } else { (1, 1) }
    }
}

/// Triangulation of one quad: two triangles over its four corners.
pub open spec fn face_index_pattern(j: int) -> int {
    if j == 0 { 0 } else if j == 1 { 1 } else if j == 2 { 2 }
    else if j == 3 { 2 } else if j == 4 { 3 } else { 0 }
}

/// The geometry built for one chunk, ready for the host to display.
/// Every coordinate is an exact integer; the host converts them to floats.
#[derive(Debug)]
pub struct MeshData {
    pub positions: Vec<(i32, i32, i32)>,
    pub normals: Vec<(i32, i32, i32)>,
    pub uvs: Vec<(i32, i32)>,
    pub indices: Vec<u32>,
    /// World-space placement of the whole mesh; the multiplier is
    /// CHUNK_SIZE - 1, kept exactly as the chunk alignment depends on it.
    pub transform: (i32, i32, i32),
}

/// World-space corner i of quad q for a chunk at coordinate cpos.
pub open spec fn quad_vertex_pos(cpos: [i32; 2], q: Quad, i: int) -> (int, int, int) {
    (cpos[0] as int + q.0 + vertex_offset(q.3, i).0,
     q.1 + vertex_offset(q.3, i).1,
     cpos[1] as int + q.2 + vertex_offset(q.3, i).2)
}

/// The four buffers list exactly the vertices and triangles of the quads `q`,
/// four vertices and six indices per quad, in order.
pub open spec fn buffers_match(
    cpos: [i32; 2],
    q: Seq<Quad>,
    positions: Seq<(i32, i32, i32)>,
    normals: Seq<(i32, i32, i32)>,
    uvs: Seq<(i32, i32)>,
    indices: Seq<u32>,
) -> bool {
    &&& positions.len() == 4 * q.len()
    &&& normals.len() == 4 * q.len()
    &&& uvs.len() == 4 * q.len()
    &&& indices.len() == 6 * q.len()
    &&& forall|n: int| 0 <= n < 4 * q.len() ==> ({
            let t = #[trigger] positions[n];
            (t.0 as int, t.1 as int, t.2 as int) == quad_vertex_pos(cpos, q[n / 4], n % 4)
        })
    &&& forall|n: int| 0 <= n < 4 * q.len() ==> ({
            let t = #[trigger] normals[n];
            (t.0 as int, t.1 as int, t.2 as int) == vertex_normal(q[n / 4].3)
        })
    &&& forall|n: int| 0 <= n < 4 * q.len() ==> ({
            let t = #[trigger] uvs[n];
            (t.0 as int, t.1 as int) == vertex_uv(q[n / 4].3, n % 4)
        })
    &&& forall|n: int| 0 <= n < 6 * q.len() ==>
            (#[trigger] indices[n]) as int == 4 * (n / 6) + face_index_pattern(n % 6)
}

/// The mesh is exactly what face culling emits for blocks `data` of a chunk
/// at coordinate cpos, placed at the chunk's world transform.
pub open spec fn mesh_matches(data: Seq<BlockType>, cpos: [i32; 2], m: MeshData) -> bool {
    &&& buffers_match(cpos, chunk_quads(data), m.positions@, m.normals@, m.uvs@, m.indices@)
    &&& m.transform.0 as int == cpos[0] as int * 31
    &&& m.transform.1 as int == 0
    &&& m.transform.2 as int == cpos[1] as int * 31
}

pub proof fn lemma_air_dirs_len(data: Seq<BlockType>, x: int, y: int, z: int, n: int)
    requires
        0 <= n,
    ensures
        air_dirs_upto(data, x, y, z, n).len() <= n,
        forall|j: int| 0 <= j < air_dirs_upto(data, x, y, z, n).len() ==>
            (air_dirs_upto(data, x, y, z, n)[j] as int) < n,
    decreases n,
{
    if n > 0 {
        lemma_air_dirs_len(data, x, y, z, n - 1);
    }
}

pub proof fn lemma_dirs_to_quads_len(x: int, y: int, z: int, dirs: Seq<u8>)
    ensures
        dirs_to_quads(x, y, z, dirs).len() == dirs.len(),
    decreases dirs.len(),
{
    if dirs.len() > 0 {
        lemma_dirs_to_quads_len(x, y, z, dirs.drop_last());
    }
}

pub proof fn lemma_cell_quads_len(data: Seq<BlockType>, x: int, y: int, z: int)
    ensures
        cell_quads(data, x, y, z).len() <= 6,
{
    lemma_air_dirs_len(data, x, y, z, 6);
    if block_at(data, x, y, z) != BlockType::Air {
        lemma_dirs_to_quads_len(x, y, z, spec_no_neighbors(data, x, y, z));
    }
}

pub proof fn lemma_quads_z_len(data: Seq<BlockType>, x: int, y: int, zn: int)
    requires
        0 <= zn,
    ensures
        quads_z_upto(data, x, y, zn).len() <= 6 * zn,
    decreases zn,
{
    if zn > 0 {
        lemma_quads_z_len(data, x, y, zn - 1);
        lemma_cell_quads_len(data, x, y, zn - 1);
    }
}

pub proof fn lemma_quads_y_len(data: Seq<BlockType>, x: int, yn: int)
    requires
        0 <= yn,
    ensures
        quads_y_upto(data, x, yn).len() <= 192 * yn,
    decreases yn,
{
    if yn > 0 {
        lemma_quads_y_len(data, x, yn - 1);
        lemma_quads_z_len(data, x, yn - 1, 32);
    }
}

pub proof fn lemma_quads_x_len(data: Seq<BlockType>, xn: int)
    requires
        0 <= xn,
    ensures
        quads_x_upto(data, xn).len() <= 49152 * xn,
    decreases xn,
{
    if xn > 0 {
        lemma_quads_x_len(data, xn - 1);
        lemma_quads_y_len(data, xn - 1, 256);
    }
}


/// A block whose six neighbors are all solid exposes no face.
pub proof fn lemma_buried_block_no_faces(data: Seq<BlockType>, x: int, y: int, z: int)
    requires
        forall|d: int| 0 <= d < 6 ==> !#[trigger] neighbor_air(data, x, y, z, d),
    ensures
        spec_no_neighbors(data, x, y, z).len() == 0,
{
    assert(air_dirs_upto(data, x, y, z, 0).len() == 0);
    assert(air_dirs_upto(data, x, y, z, 1).len() == 0);
    assert(air_dirs_upto(data, x, y, z, 2).len() == 0);
    assert(air_dirs_upto(data, x, y, z, 3).len() == 0);
    assert(air_dirs_upto(data, x, y, z, 4).len() == 0);
    assert(air_dirs_upto(data, x, y, z, 5).len() == 0);
    assert(air_dirs_upto(data, x, y, z, 6).len() == 0);
}

/// Every cell of the padded array, halo included, reads as Air.
pub open spec fn all_air_data(data: Seq<BlockType>) -> bool {
    forall|x: int, y: int, z: int| in_chunk_bounds(x, y, z) ==>
        #[trigger] block_at(data, x, y, z) == BlockType::Air
}

proof fn lemma_air_quads_z(data: Seq<BlockType>, x: int, y: int, zn: int)
    requires
        all_air_data(data),
        0 <= x < 32,
        0 <= y < 256,
        0 <= zn <= 32,
    ensures
        quads_z_upto(data, x, y, zn).len() == 0,
    decreases zn,
{
    if zn > 0 {
        lemma_air_quads_z(data, x, y, zn - 1);
        assert(block_at(data, x, y, zn - 1) == BlockType::Air);
    }
}

proof fn lemma_air_quads_y(data: Seq<BlockType>, x: int, yn: int)
    requires
        all_air_data(data),
        0 <= x < 32,
        0 <= yn <= 256,
    ensures
        quads_y_upto(data, x, yn).len() == 0,
    decreases yn,
{
    if yn > 0 {
        lemma_air_quads_y(data, x, yn - 1);
        lemma_air_quads_z(data, x, yn - 1, 32);
    }
}

/// A fully Air chunk produces no quads at all.
pub proof fn lemma_air_chunk_no_quads(data: Seq<BlockType>)
    requires
        all_air_data(data),
    ensures
        chunk_quads(data).len() == 0,
{
    lemma_air_quads_x(data, 32);
}

proof fn lemma_air_quads_x(data: Seq<BlockType>, xn: int)
    requires
        all_air_data(data),
        0 <= xn <= 32,
    ensures
        quads_x_upto(data, xn).len() == 0,
    decreases xn,
{
    if xn > 0 {
        lemma_air_quads_x(data, xn - 1);
        lemma_air_quads_y(data, xn - 1, 256);
    }
}

/// Every interior cell solid, every halo cell Air: the worst case a single
/// chunk's own data can pose to face culling.
pub open spec fn solid_interior_air_halo(data: Seq<BlockType>) -> bool {
    &&& forall|x: int, y: int, z: int|
            0 <= x < 32 && 0 <= y < 256 && 0 <= z < 32 ==>
                #[trigger] block_at(data, x, y, z) == BlockType::Dirt
    &&& forall|x: int, y: int, z: int|
            in_chunk_bounds(x, y, z) && !(0 <= x < 32 && 0 <= y < 256 && 0 <= z < 32) ==>
                #[trigger] block_at(data, x, y, z) == BlockType::Air
}

proof fn lemma_solid_cell_dirs(data: Seq<BlockType>, x: int, y: int, z: int)
    requires
        solid_interior_air_halo(data),
        0 <= x < 32,
        0 <= y < 256,
        0 <= z < 32,
    ensures
        cell_quads(data, x, y, z).len() ==
            (if x == 0 { 1int } else { 0int }) + (if x == 31 { 1int } else { 0int })
            + (if y == 0 { 1int } else { 0int }) + (if y == 255 { 1int } else { 0int })
            + (if z == 0 { 1int } else { 0int }) + (if z == 31 { 1int } else { 0int }),
{
    assert(block_at(data, x, y, z) == BlockType::Dirt);
    assert(neighbor_air(data, x, y, z, 0) == (z == 31));
    assert(neighbor_air(data, x, y, z, 1) == (z == 0));
    assert(neighbor_air(data, x, y, z, 2) == (x == 31));
    assert(neighbor_air(data, x, y, z, 3) == (x == 0));
    assert(neighbor_air(data, x, y, z, 4) == (y == 255));
    assert(neighbor_air(data, x, y, z, 5) == (y == 0));
    let e = (if x == 0 { 1int } else { 0int }) + (if x == 31 { 1int } else { 0int })
        + (if y == 0 { 1int } else { 0int }) + (if y == 255 { 1int } else { 0int })
        + (if z == 0 { 1int } else { 0int }) + (if z == 31 { 1int } else { 0int });
    assert(air_dirs_upto(data, x, y, z, 0).len() == 0);
    assert(air_dirs_upto(data, x, y, z, 1).len()
        == (if z == 31 { 1int } else { 0int }));
    assert(air_dirs_upto(data, x, y, z, 2).len()
        == air_dirs_upto(data, x, y, z, 1).len() + (if z == 0 { 1int } else { 0int }));
    assert(air_dirs_upto(data, x, y, z, 3).len()
        == air_dirs_upto(data, x, y, z, 2).len() + (if x == 31 { 1int } else { 0int }));
    assert(air_dirs_upto(data, x, y, z, 4).len()
        == air_dirs_upto(data, x, y, z, 3).len() + (if x == 0 { 1int } else { 0int }));
    assert(air_dirs_upto(data, x, y, z, 5).len()
        == air_dirs_upto(data, x, y, z, 4).len() + (if y == 255 { 1int } else { 0int }));
    assert(air_dirs_upto(data, x, y, z, 6).len()
        == air_dirs_upto(data, x, y, z, 5).len() + (if y == 0 { 1int } else { 0int }));
    assert(air_dirs_upto(data, x, y, z, 6).len() == e);
    lemma_dirs_to_quads_len(x, y, z, spec_no_neighbors(data, x, y, z));
}

proof fn lemma_solid_quads_z(data: Seq<BlockType>, x: int, y: int, zn: int)
    requires
        solid_interior_air_halo(data),
        0 <= x < 32,
        0 <= y < 256,
        0 <= zn <= 32,
    ensures
        quads_z_upto(data, x, y, zn).len() ==
            zn * ((if x == 0 { 1int } else { 0int }) + (if x == 31 { 1int } else { 0int })
                + (if y == 0 { 1int } else { 0int }) + (if y == 255 { 1int } else { 0int }))
            + (if zn >= 1 { 1int } else { 0int }) + (if zn >= 32 { 1int } else { 0int }),
    decreases zn,
{
    if zn > 0 {
        lemma_solid_quads_z(data, x, y, zn - 1);
        lemma_solid_cell_dirs(data, x, y, zn - 1);
        let exy = (if x == 0 { 1int } else { 0int }) + (if x == 31 { 1int } else { 0int })
            + (if y == 0 { 1int } else { 0int }) + (if y == 255 { 1int } else { 0int });
        assert(zn * exy == (zn - 1) * exy + exy) by (nonlinear_arith);
        assert(quads_z_upto(data, x, y, zn).len()
            == quads_z_upto(data, x, y, zn - 1).len() + cell_quads(data, x, y, zn - 1).len());
        assert(cell_quads(data, x, y, zn - 1).len()
            == exy + (if zn - 1 == 0 { 1int } else { 0int })
                + (if zn - 1 == 31 { 1int } else { 0int }));
        assert(quads_z_upto(data, x, y, zn - 1).len()
            == (zn - 1) * exy + (if zn - 1 >= 1 { 1int } else { 0int })
                + (if zn - 1 >= 32 { 1int } else { 0int }));
        assert(quads_z_upto(data, x, y, zn).len()
            == zn * exy + (if zn >= 1 { 1int } else { 0int })
                + (if zn >= 32 { 1int } else { 0int }));
    } else {
        let exy = (if x == 0 { 1int } else { 0int }) + (if x == 31 { 1int } else { 0int })
            + (if y == 0 { 1int } else { 0int }) + (if y == 255 { 1int } else { 0int });
        assert(zn * exy == 0) by (nonlinear_arith)
            requires zn == 0;
    }
}

proof fn lemma_solid_quads_y(data: Seq<BlockType>, x: int, yn: int)
    requires
        solid_interior_air_halo(data),
        0 <= x < 32,
        0 <= yn <= 256,
    ensures
        quads_y_upto(data, x, yn).len() ==
            yn * (32 * ((if x == 0 { 1int } else { 0int }) + (if x == 31 { 1int } else { 0int })) + 2)
            + 32 * ((if yn >= 1 { 1int } else { 0int }) + (if yn >= 256 { 1int } else { 0int })),
    decreases yn,
{
    if yn > 0 {
        lemma_solid_quads_y(data, x, yn - 1);
        lemma_solid_quads_z(data, x, yn - 1, 32);
        let f = 32 * ((if x == 0 { 1int } else { 0int }) + (if x == 31 { 1int } else { 0int })) + 2;
        assert(yn * f == (yn - 1) * f + f) by (nonlinear_arith);
        assert(quads_y_upto(data, x, yn).len()
            == quads_y_upto(data, x, yn - 1).len() + quads_z_upto(data, x, yn - 1, 32).len());
        assert(quads_z_upto(data, x, yn - 1, 32).len()
            == f - 2 + 32 * (if yn - 1 == 0 { 1int } else { 0int })
                + 32 * (if yn - 1 == 255 { 1int } else { 0int }) + 2);
        assert(quads_y_upto(data, x, yn).len()
            == yn * f + 32 * ((if yn >= 1 { 1int } else { 0int })
                + (if yn >= 256 { 1int } else { 0int })));
    } else {
        let f = 32 * ((if x == 0 { 1int } else { 0int }) + (if x == 31 { 1int } else { 0int })) + 2;
        assert(yn * f == 0) by (nonlinear_arith)
            requires yn == 0;
    }
}

proof fn lemma_solid_quads_x(data: Seq<BlockType>, xn: int)
    requires
        solid_interior_air_halo(data),
        0 <= xn <= 32,
    ensures
        quads_x_upto(data, xn).len() ==
            xn * 576
            + 8192 * ((if xn >= 1 { 1int } else { 0int }) + (if xn >= 32 { 1int } else { 0int })),
    decreases xn,
{
    if xn > 0 {
        lemma_solid_quads_x(data, xn - 1);
        lemma_solid_quads_y(data, xn - 1, 256);
    }
}

/// A fully solid chunk inside an Air halo produces exactly one quad per
/// boundary face of the solid cuboid — 2 caps of CHUNK_SIZE * CHUNK_SIZE
/// plus 4 walls of CHUNK_SIZE * CHUNK_HEIGHT — and none for buried blocks.
pub proof fn lemma_solid_chunk_quads(data: Seq<BlockType>)
    requires
        solid_interior_air_halo(data),
    ensures
        chunk_quads(data).len() == 2 * 32 * 32 + 4 * 32 * 256,
{
    lemma_solid_quads_x(data, 32);
}

impl Chunk {
    /// Build the chunk's display geometry: for every solid interior block,
    /// one quad per face whose neighbor — read through the halo — is Air.
    pub fn spawn_blocks(&self) -> (m: MeshData)
        requires
            self.wf(),
            -0x0080_0000 <= self.position[0] <= 0x0080_0000,
            -0x0080_0000 <= self.position[1] <= 0x0080_0000,
        ensures
            mesh_matches(self.data@, self.position, m),
    {
        let mut positions: Vec<(i32, i32, i32)> = Vec::new();
        let mut normals: Vec<(i32, i32, i32)> = Vec::new();
        let mut uvs: Vec<(i32, i32)> = Vec::new();
        let mut indices: Vec<u32> = Vec::new();
        let ghost mut emitted: Seq<Quad> = Seq::empty();

        let mut x: usize = 0;
        while x < CHUNK_SIZE
            invariant
                x <= 32,
                self.wf(),
                -0x0080_0000 <= self.position[0] <= 0x0080_0000,
                -0x0080_0000 <= self.position[1] <= 0x0080_0000,
                emitted == quads_x_upto(self.data@, x as int),
                buffers_match(self.position, emitted, positions@, normals@, uvs@, indices@),
            decreases 32 - x,
        {
            let mut y: usize = 0;
            proof {
                assert(emitted =~= quads_x_upto(self.data@, x as int)
                    + quads_y_upto(self.data@, x as int, 0));
            }
            while y < CHUNK_HEIGHT
                invariant
                    x < 32,
                    y <= 256,
                    self.wf(),
                    -0x0080_0000 <= self.position[0] <= 0x0080_0000,
                    -0x0080_0000 <= self.position[1] <= 0x0080_0000,
                    emitted == quads_x_upto(self.data@, x as int)
                        + quads_y_upto(self.data@, x as int, y as int),
                    buffers_match(self.position, emitted, positions@, normals@, uvs@, indices@),
                decreases 256 - y,
            {
                let mut z: usize = 0;
                proof {
                    assert(emitted =~= quads_x_upto(self.data@, x as int)
                        + quads_y_upto(self.data@, x as int, y as int)
                        + quads_z_upto(self.data@, x as int, y as int, 0));
                }
                while z < CHUNK_SIZE
                    invariant
                        x < 32,
                        y < 256,
                        z <= 32,
                        self.wf(),
                        -0x0080_0000 <= self.position[0] <= 0x0080_0000,
                        -0x0080_0000 <= self.position[1] <= 0x0080_0000,
                        emitted == quads_x_upto(self.data@, x as int)
                            + quads_y_upto(self.data@, x as int, y as int)
                            + quads_z_upto(self.data@, x as int, y as int, z as int),
                        buffers_match(self.position, emitted, positions@, normals@, uvs@, indices@),
                    decreases 32 - z,
                {
                    let b = self.get_block(x as i32, y as i32, z as i32);
                    if matches!(b, BlockType::Air) {
                        proof {
                            assert(cell_quads(self.data@, x as int, y as int, z as int)
                                =~= Seq::<Quad>::empty());
                            assert(emitted =~= quads_x_upto(self.data@, x as int)
                                + quads_y_upto(self.data@, x as int, y as int)
                                + quads_z_upto(self.data@, x as int, y as int, z as int + 1));
                        }
                    } else {
                        let nb = self.get_no_neighbors(x as i32, y as i32, z as i32);
                        let ghost zq = emitted;
                        proof {
                            assert(nb@.subrange(0, 0) =~= Seq::<u8>::empty());
                            assert(emitted =~= zq + dirs_to_quads(
                                x as int, y as int, z as int, nb@.subrange(0, 0)));
                            lemma_air_dirs_len(self.data@, x as int, y as int, z as int, 6);
                        }
                        let mut k: usize = 0;
                        while k < nb.len()
                            invariant
                                x < 32,
                                y < 256,
                                z < 32,
                                k <= nb@.len(),
                                nb@.len() <= 6,
                                self.wf(),
                                -0x0080_0000 <= self.position[0] <= 0x0080_0000,
                                -0x0080_0000 <= self.position[1] <= 0x0080_0000,
                                forall|j: int| 0 <= j < nb@.len() ==> (nb@[j] as int) < 6,
                                nb@ == spec_no_neighbors(self.data@, x as int, y as int, z as int),
                                block_at(self.data@, x as int, y as int, z as int) != BlockType::Air,
                                zq == quads_x_upto(self.data@, x as int)
                                    + quads_y_upto(self.data@, x as int, y as int)
                                    + quads_z_upto(self.data@, x as int, y as int, z as int),
                                emitted == zq + dirs_to_quads(
                                    x as int, y as int, z as int, nb@.subrange(0, k as int)),
                                buffers_match(self.position, emitted,
                                    positions@, normals@, uvs@, indices@),
                            decreases nb@.len() - k,
                        {
                            let d: u8 = nb[k];
                            let du: usize = d as usize;
                            proof {
                                lemma_quads_x_len(self.data@, x as int);
                                lemma_quads_y_len(self.data@, x as int, y as int);
                                lemma_quads_z_len(self.data@, x as int, y as int, z as int);
                                lemma_dirs_to_quads_len(x as int, y as int, z as int,
                                    nb@.subrange(0, k as int));
                                assert(emitted.len() < 1572864);
                            }
                            let px: i32 = self.position[0] + x as i32;
                            let py: i32 = y as i32;
                            let pz: i32 = self.position[1] + z as i32;
                            let base: usize = indices.len() / 6 * 4;

                            let ghost oldq = emitted;
                            let ghost oldpos = positions@;
                            let ghost oldnor = normals@;
                            let ghost olduv = uvs@;
                            let ghost oldidx = indices@;
                            let ghost quad: Quad = (x as int, y as int, z as int, d as int);

                            let v0 = face_vertex(du, 0);
                            let p0: (i32, i32, i32) = (px + v0.0.0, py + v0.0.1, pz + v0.0.2);
                            positions.push(p0);
                            normals.push(v0.1);
                            uvs.push(v0.2);
                            let v1 = face_vertex(du, 1);
                            let p1: (i32, i32, i32) = (px + v1.0.0, py + v1.0.1, pz + v1.0.2);
                            positions.push(p1);
                            normals.push(v1.1);
                            uvs.push(v1.2);
                            let v2 = face_vertex(du, 2);
                            let p2: (i32, i32, i32) = (px + v2.0.0, py + v2.0.1, pz + v2.0.2);
                            positions.push(p2);
                            normals.push(v2.1);
                            uvs.push(v2.2);
                            let v3 = face_vertex(du, 3);
                            let p3: (i32, i32, i32) = (px + v3.0.0, py + v3.0.1, pz + v3.0.2);
                            positions.push(p3);
                            normals.push(v3.1);
                            uvs.push(v3.2);

                            let i0: u32 = base as u32;
                            let i1: u32 = (base + 1) as u32;
                            let i2: u32 = (base + 2) as u32;
                            let i3: u32 = (base + 3) as u32;
                            indices.push(i0);
                            indices.push(i1);
                            indices.push(i2);
                            indices.push(i2);
                            indices.push(i3);
                            indices.push(i0);

                            proof {
                                emitted = oldq.push(quad);
                                assert(emitted =~= oldq + seq![quad]);
                                assert(nb@.subrange(0, k as int + 1).drop_last()
                                    =~= nb@.subrange(0, k as int));
                                assert(dirs_to_quads(x as int, y as int, z as int,
                                        nb@.subrange(0, k as int + 1))
                                    == dirs_to_quads(x as int, y as int, z as int,
                                        nb@.subrange(0, k as int)) + seq![quad]);
                                assert(emitted =~= zq + dirs_to_quads(
                                    x as int, y as int, z as int,
                                    nb@.subrange(0, k as int + 1)));

                                let q2 = emitted;
                                assert(positions@ =~= oldpos + seq![p0, p1, p2, p3]);
                                assert(normals@ =~= oldnor + seq![v0.1, v1.1, v2.1, v3.1]);
                                assert(uvs@ =~= olduv + seq![v0.2, v1.2, v2.2, v3.2]);
                                assert(indices@ =~= oldidx + seq![i0, i1, i2, i2, i3, i0]);

                                assert forall|n: int| 0 <= n < 4 * q2.len() implies ({
                                    let t = #[trigger] positions@[n];
                                    (t.0 as int, t.1 as int, t.2 as int)
                                        == quad_vertex_pos(self.position, q2[n / 4], n % 4)
                                }) by {
                                    if n < 4 * oldq.len() {
                                        assert(positions@[n] == oldpos[n]);
                                        assert(q2[n / 4] == oldq[n / 4]);
                                    } else {
                                        assert(n / 4 == oldq.len() && q2[n / 4] == quad);
                                    }
                                }
                                assert forall|n: int| 0 <= n < 4 * q2.len() implies ({
                                    let t = #[trigger] normals@[n];
                                    (t.0 as int, t.1 as int, t.2 as int)
                                        == vertex_normal(q2[n / 4].3)
                                }) by {
                                    if n < 4 * oldq.len() {
                                        assert(normals@[n] == oldnor[n]);
                                        assert(q2[n / 4] == oldq[n / 4]);
                                    } else {
                                        assert(n / 4 == oldq.len() && q2[n / 4] == quad);
                                    }
                                }
                                assert forall|n: int| 0 <= n < 4 * q2.len() implies ({
                                    let t = #[trigger] uvs@[n];
                                    (t.0 as int, t.1 as int) == vertex_uv(q2[n / 4].3, n % 4)
                                }) by {
                                    if n < 4 * oldq.len() {
                                        assert(uvs@[n] == olduv[n]);
                                        assert(q2[n / 4] == oldq[n / 4]);
                                    } else {
                                        assert(n / 4 == oldq.len() && q2[n / 4] == quad);
                                    }
                                }
                                assert forall|n: int| 0 <= n < 6 * q2.len() implies
                                    (#[trigger] indices@[n]) as int
                                        == 4 * (n / 6) + face_index_pattern(n % 6) by {
                                    if n < 6 * oldq.len() {
                                        assert(indices@[n] == oldidx[n]);
                                    } else {
                                        assert(n / 6 == oldq.len());
                                    }
                                }
                            }
                            k += 1;
                        }
                        proof {
                            assert(nb@.subrange(0, nb@.len() as int) =~= nb@);
                            assert(emitted =~= quads_x_upto(self.data@, x as int)
                                + quads_y_upto(self.data@, x as int, y as int)
                                + quads_z_upto(self.data@, x as int, y as int, z as int + 1));
                        }
                    }
                    z += 1;
                }
                proof {
                    assert(emitted =~= quads_x_upto(self.data@, x as int)
                        + quads_y_upto(self.data@, x as int, y as int + 1));
                }
                y += 1;
            }
            proof {
                assert(emitted =~= quads_x_upto(self.data@, x as int + 1));
            }
            x += 1;
        }

        let transform: (i32, i32, i32) =
            (self.position[0] * 31, 0, self.position[1] * 31);
        MeshData { positions, normals, uvs, indices, transform }
    }
}

fn face_vertex(d: usize, i: usize) -> (r: ((i32, i32, i32), (i32, i32, i32), (i32, i32)))
    requires
        d < 6,
        i < 4,
    ensures
        (r.0.0 as int, r.0.1 as int, r.0.2 as int) == vertex_offset(d as int, i as int),
        (r.1.0 as int, r.1.1 as int, r.1.2 as int) == vertex_normal(d as int),
        (r.2.0 as int, r.2.1 as int) == vertex_uv(d as int, i as int),
{
    let off: (i32, i32, i32) = if d == 0 {
        if i == 0 { (0, 0, 1) } else if i == 1 { (1, 0, 1) } else if i == 2 { (1, 1, 1) } else { (0, 1, 1) }
    } else if d == 1 {
        if i == 0 { (0, 1, 0) } else if i == 1 { (1, 1, 0) } else if i == 2 { (1, 0, 0) } else { (0, 0, 0) }
    } else if d == 2 {
        if i == 0 { (1, 0, 0) } else if i == 1 { (1, 1, 0) } else if i == 2 { (1, 1, 1) } else { (1, 0, 1) }
    } else if d == 3 {
        if i == 0 { (0, 0, 1) } else if i == 1 { (0, 1, 1) } else if i == 2 { (0, 1, 0) } else { (0, 0, 0) }
    } else if d == 4 {
        if i == 0 { (1, 1, 0) } else if i == 1 { (0, 1, 0) } else if i == 2 { (0, 1, 1) } else { (1, 1, 1) }
    } else {
        if i == 0 { (1, 0, 1) } else if i == 1 { (0, 0, 1) } else if i == 2 { (0, 0, 0) } else { (1, 0, 0) }
    };
    let nor: (i32, i32, i32) = if d == 0 {
        (0, 0, 1)
    } else if d == 1 {
        (0, 0, -1)
    } else if d == 2 {
        (1, 0, 0)
    } else if d == 3 {
        (-1, 0, 0)
    } else if d == 4 {
        (0, 1, 0)
    } else {
        (0, -1, 0)
    };
    let uv: (i32, i32) = if d == 0 || d == 2 || d == 5 {
        if i == 0 { (0, 0) } else if i == 1 { (1, 0) } else if i == 2 { (1, 1) } else { (0, 1) }
    } else {
        if i == 0 { (1, 0) } else if i == 1 { (0, 0) } else if i == 2 { (0, 1) } else { (1, 1) }
    };
    (off, nor, uv)
}

/// The fixed flat material colour of every chunk mesh, as sRGB bytes.
pub fn material_color() -> (c: (u8, u8, u8))
    ensures
        c == (165u8, 42u8, 42u8),
{
    (165, 42, 42)
}

} // verus!
