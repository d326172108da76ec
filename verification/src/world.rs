use vstd::prelude::*;
use crate::voxel::{Chunk, PADDED_AREA, generated_data};
use crate::mesh::{MeshData, mesh_matches};

verus! {

/// World configuration. The three fractal parameters hold IEEE-754 single
/// bit patterns: they are opaque to the terrain logic here and the host
/// turns them into the noise generator's floating-point settings.
#[derive(Copy, Clone, Debug, PartialEq, Eq, Structural)]
pub struct WorldSettings {
    pub noise_fractal_octaves: i32,
    pub noise_fractal_gain: u32,
    pub noise_fractal_lacunarity: u32,
    pub noise_frequency: u32,
    /// Render radius: the desired window spans render_chunk_size + 1 chunks
    /// per side.
    pub render_chunk_size: usize,
}

/// The start-up settings: 4 octaves, gain 2.0, lacunarity 0.5 and frequency
/// 0.08 as f32 bit patterns, and a render window of 4.
pub open spec fn default_settings() -> WorldSettings {
    WorldSettings {
        noise_fractal_octaves: 4,
        noise_fractal_gain: 0x4000_0000,
        noise_fractal_lacunarity: 0x3F00_0000,
        noise_frequency: 0x3DA3_D70A,
        render_chunk_size: 4,
    }
}

impl Default for WorldSettings {
    fn default() -> (r: WorldSettings)
        ensures
            r == default_settings(),
    {
        WorldSettings {
            noise_fractal_octaves: 4,
            noise_fractal_gain: 0x4000_0000,
            noise_fractal_lacunarity: 0x3F00_0000,
            noise_frequency: 0x3DA3_D70A,
            render_chunk_size: 4,
        }
    }
}

/// A chunk coordinate small enough that mesh transforms and window
/// arithmetic stay inside i32.
pub open spec fn pos_in_range(p: [i32; 2]) -> bool {
    &&& -0x0080_0000 <= p[0] <= 0x0080_0000
    &&& -0x0080_0000 <= p[1] <= 0x0080_0000
}

/// The coordinate pair p is exactly (px, pz).
pub open spec fn pos_is(p: [i32; 2], px: int, pz: int) -> bool {
    p[0] as int == px && p[1] as int == pz
}

/// Coordinate (px, pz) lies in the desired window: an (r + 1) by (r + 1)
/// square whose low corner sits r / 2 chunks below the viewpoint chunk,
/// with integer division — an asymmetric window when r is odd.
pub open spec fn is_desired(player: [i32; 2], r: int, px: int, pz: int) -> bool {
    &&& player[0] as int - r / 2 <= px <= player[0] as int - r / 2 + r
    &&& player[1] as int - r / 2 <= pz <= player[1] as int - r / 2 + r
}

/// Some chunk of the sequence sits at coordinate (px, pz).
pub open spec fn seq_has_chunk(chunks: Seq<Chunk>, px: int, pz: int) -> bool {
    exists|i: int| 0 <= i < chunks.len() && pos_is((#[trigger] chunks[i]).position, px, pz)
}

/// The chunk of the sequence at coordinate (px, pz), if positions are unique.
pub open spec fn seq_chunk_at(chunks: Seq<Chunk>, px: int, pz: int) -> Chunk {
    chunks[choose|i: int| 0 <= i < chunks.len() && pos_is(chunks[i].position, px, pz)]
}

/// Every chunk is well formed, in coordinate range, and no two chunks share
/// a coordinate.
pub open spec fn chunks_wf(chunks: Seq<Chunk>) -> bool {
    &&& forall|i: int| 0 <= i < chunks.len() ==> (#[trigger] chunks[i]).wf()
    &&& forall|i: int| 0 <= i < chunks.len() ==> pos_in_range((#[trigger] chunks[i]).position)
    &&& forall|i: int, j: int| #![trigger chunks[i], chunks[j]] 0 <= i < j < chunks.len() ==>
            !(chunks[i].position[0] == chunks[j].position[0]
                && chunks[i].position[1] == chunks[j].position[1])
}

pub proof fn lemma_chunk_at_index(chunks: Seq<Chunk>, i: int)
    requires
        chunks_wf(chunks),
        0 <= i < chunks.len(),
    ensures
        seq_has_chunk(chunks, chunks[i].position[0] as int, chunks[i].position[1] as int),
        seq_chunk_at(chunks, chunks[i].position[0] as int, chunks[i].position[1] as int)
            == chunks[i],
{
    let px = chunks[i].position[0] as int;
    let pz = chunks[i].position[1] as int;
    assert(pos_is(chunks[i].position, px, pz));
    let j = choose|j: int| 0 <= j < chunks.len() && pos_is(chunks[j].position, px, pz);
    if i < j {
        assert(!(chunks[i].position[0] == chunks[j].position[0]
            && chunks[i].position[1] == chunks[j].position[1]));
    } else if j < i {
        assert(!(chunks[j].position[0] == chunks[i].position[0]
            && chunks[j].position[1] == chunks[i].position[1]));
    }
}

/// The handles of the not-desired chunks among the first n, in order: what
/// one update tick asks the host to remove.
pub open spec fn removed_handles_upto(
    chunks: Seq<Chunk>,
    player: [i32; 2],
    r: int,
    n: int,
) -> Seq<u64>
    decreases n,
{
    if n <= 0 {
        Seq::empty()
    } else {
        let c = chunks[n - 1];
        removed_handles_upto(chunks, player, r, n - 1)
            + if !is_desired(player, r, c.position[0] as int, c.position[1] as int)
                && c.entity_id is Some {
                seq![c.entity_id.unwrap()]
            } else {
                Seq::<u64>::empty()
            }
    }
}

/// Chunk coordinate of one world axis. A nonnegative coordinate divides by
/// CHUNK_SIZE; a negative one is first shifted a whole chunk down and then
/// divided with truncation. So -1 maps to -1 rather than 0, while an exact
/// negative multiple such as -32 maps to -2, one below its floor-division
/// chunk: a deliberate boundary quirk of the streaming scheme.
pub open spec fn chunk_axis(w: int) -> int {
    if w >= 0 {
        w / 32
    } else {
        -((-w) / 32) - 1
    }
}

/// Round-trip law: a nonnegative chunk coordinate c, taken to its world
/// offset c * CHUNK_SIZE and back through chunk_axis, is c again.
pub proof fn lemma_chunk_axis_roundtrip(c: int)
    requires
        0 <= c,
    ensures
        chunk_axis(c * 32) == c,
{
    assert((c * 32) / 32 == c) by (nonlinear_arith);
}

/// The same round trip from a negative chunk coordinate lands one chunk
/// low: exact negative multiples of CHUNK_SIZE sit on the shifted boundary.
pub proof fn lemma_chunk_axis_roundtrip_negative(c: int)
    requires
        c < 0,
    ensures
        chunk_axis(c * 32) == c - 1,
{
    assert((-(c * 32)) / 32 == -c) by (nonlinear_arith);
}

/// Chunk coordinates never decrease as the world coordinate increases,
/// also across the zero boundary.
pub proof fn lemma_chunk_axis_monotone(w1: int, w2: int)
    requires
        w1 <= w2,
    ensures
        chunk_axis(w1) <= chunk_axis(w2),
{
    if 0 <= w1 {
        vstd::arithmetic::div_mod::lemma_div_is_ordered(w1, w2, 32);
    } else if w2 < 0 {
        vstd::arithmetic::div_mod::lemma_div_is_ordered(-w2, -w1, 32);
    } else {
        vstd::arithmetic::div_mod::lemma_div_pos_is_pos(-w1, 32);
        vstd::arithmetic::div_mod::lemma_div_pos_is_pos(w2, 32);
    }
}

/// What one update tick asks of the host: freshly created chunk coordinates
/// that still need terrain data, a mesh and a display handle, and the
/// handles of dropped chunks whose geometry the host must remove.
pub struct FrameActions {
    pub created: Vec<[i32; 2]>,
    pub removed: Vec<u64>,
}

/// Some entry of the coordinate list is exactly (px, pz).
pub open spec fn pos_list_contains(list: Seq<[i32; 2]>, px: int, pz: int) -> bool {
    exists|k: int| 0 <= k < list.len() && pos_is(#[trigger] list[k], px, pz)
}

/// No coordinate appears twice in the list.
pub open spec fn pos_list_distinct(list: Seq<[i32; 2]>) -> bool {
    forall|k1: int, k2: int| #![trigger list[k1], list[k2]] 0 <= k1 < k2 < list.len() ==>
        !(list[k1][0] == list[k2][0] && list[k1][1] == list[k2][1])
}


/// Chunk coordinate (qx, qz) appears among the first n entries of the list.
pub open spec fn prefix_contains(list: Seq<[i32; 2]>, n: int, qx: int, qz: int) -> bool {
    exists|m: int| 0 <= m < n && pos_is(#[trigger] list[m], qx, qz)
}

/// The very chunk value c appears in the sequence.
pub open spec fn seq_contains_chunk(chunks: Seq<Chunk>, c: Chunk) -> bool {
    exists|j: int| 0 <= j < chunks.len() && #[trigger] chunks[j] == c
}

/// What the chunk stored for coordinate p after one tick must be: the old
/// chunk unchanged where one was live, else a fresh all-Air chunk with no
/// display handle yet.
pub open spec fn placed_chunk(olds: Seq<Chunk>, p: [i32; 2], c: Chunk) -> bool {
    &&& pos_is(c.position, p[0] as int, p[1] as int)
    &&& c.wf()
    &&& if seq_has_chunk(olds, p[0] as int, p[1] as int) {
            c == seq_chunk_at(olds, p[0] as int, p[1] as int)
        } else {
            c.entity_id is None && c.all_air()
        }
}

/// The streaming world: every live chunk, the viewpoint's last chunk
/// coordinate, and the current settings snapshot. The noise generator
/// itself lives with the host: this logic sees terrain only as column
/// heights already sampled from it.
pub struct WorldData {
    pub chunks: Vec<Chunk>,
    pub player_chunk_pos: [i32; 2],
    pub world_settings: WorldSettings,
}

impl Default for WorldData {
    fn default() -> (r: WorldData)
        ensures
            r.wf(),
            r.chunks@.len() == 0,
            r.player_chunk_pos[0] == 0,
            r.player_chunk_pos[1] == 0,
            r.world_settings == default_settings(),
    {
        WorldData {
            chunks: Vec::new(),
            player_chunk_pos: [0, 0],
            world_settings: WorldSettings::default(),
        }
    }
}

fn find_chunk(chunks: &Vec<Chunk>, px: i32, pz: i32) -> (r: Option<usize>)
    ensures
        match r {
            Some(i) => i < chunks@.len()
                && pos_is(chunks@[i as int].position, px as int, pz as int),
            None => !seq_has_chunk(chunks@, px as int, pz as int),
        },
{
    let mut i: usize = 0;
    while i < chunks.len()
        invariant
            i <= chunks@.len(),
            forall|j: int| 0 <= j < i as int ==>
                !pos_is((#[trigger] chunks@[j]).position, px as int, pz as int),
        decreases chunks@.len() - i,
    {
        if chunks[i].position[0] == px && chunks[i].position[1] == pz {
            return Some(i);
        }
        i += 1;
    }
    None
}

impl WorldData {
    /// Every live chunk is well formed and coordinates are unique.
    pub open spec fn wf(self) -> bool {
        chunks_wf(self.chunks@)
    }

    /// A live chunk sits at coordinate (px, pz).
    pub open spec fn has_chunk_at(self, px: int, pz: int) -> bool {
        seq_has_chunk(self.chunks@, px, pz)
    }

    /// The live chunk at coordinate (px, pz).
    pub open spec fn chunk_at(self, px: int, pz: int) -> Chunk {
        seq_chunk_at(self.chunks@, px, pz)
    }

    /// Replace the settings snapshot wholesale. The host must then rebuild
    /// its noise generator, regenerate every chunk and rebuild every mesh.
    pub fn update_settings(&mut self, world_settings: &WorldSettings)
        ensures
            final(self).world_settings == *world_settings,
            final(self).chunks == old(self).chunks,
            final(self).player_chunk_pos == old(self).player_chunk_pos,
    {
        self.world_settings = *world_settings;
    }

    /// The viewpoint's chunk coordinate from its world position, axis by
    /// axis through chunk_axis.
    pub fn position_to_chunk(x: i32, z: i32) -> (r: [i32; 2])
        requires
            x as int > -0x8000_0000,
            z as int > -0x8000_0000,
        ensures
            r[0] as int == chunk_axis(x as int),
            r[1] as int == chunk_axis(z as int),
    {
        let cx: i32 = if x >= 0 {
            ((x as u32) / 32) as i32
        } else {
            let m: u32 = ((-x) as u32) / 32;
            -(m as i32) - 1
        };
        let cz: i32 = if z >= 0 {
            ((z as u32) / 32) as i32
        } else {
            let m: u32 = ((-z) as u32) / 32;
            -(m as i32) - 1
        };
        [cx, cz]
    }

    /// Record the host's display handle for the chunk at `position` and
    /// return the handle it replaces; the host owns the geometry, the chunk
    /// keeps only this back-reference.
    pub fn register_chunk_entity(&mut self, position: [i32; 2], entity: u64) -> (r: Option<u64>)
        requires
            old(self).wf(),
        ensures
            final(self).wf(),
            final(self).player_chunk_pos == old(self).player_chunk_pos,
            final(self).world_settings == old(self).world_settings,
            final(self).chunks@.len() == old(self).chunks@.len(),
            forall|i: int| 0 <= i < old(self).chunks@.len() ==> {
                let c0 = old(self).chunks@[i];
                let c1 = #[trigger] final(self).chunks@[i];
                if pos_is(c0.position, position[0] as int, position[1] as int) {
                    c1 == (Chunk { entity_id: Some(entity), ..c0 })
                } else {
                    c1 == c0
                }
            },
            r == (if old(self).has_chunk_at(position[0] as int, position[1] as int) {
                old(self).chunk_at(position[0] as int, position[1] as int).entity_id
            } else {
                None::<u64>
            }),
    {
        match find_chunk(&self.chunks, position[0], position[1]) {
            Some(idx) => {
                let ghost before = self.chunks@;
                let mut c = self.chunks.remove(idx);
                let r = c.entity_id;
                c.entity_id = Some(entity);
                self.chunks.insert(idx, c);
                proof {
                    assert(self.chunks@ =~= before.update(
                        idx as int,
                        (Chunk { entity_id: Some(entity), ..before[idx as int] }),
                    ));
                    lemma_chunk_at_index(before, idx as int);
                    assert forall|i: int, j: int|
                        #![trigger self.chunks@[i], self.chunks@[j]]
                        0 <= i < j < self.chunks@.len()
                        implies !(self.chunks@[i].position[0] == self.chunks@[j].position[0]
                            && self.chunks@[i].position[1] == self.chunks@[j].position[1]) by {
                        assert(before[i].position == self.chunks@[i].position);
                        assert(before[j].position == self.chunks@[j].position);
                    }
                    assert forall|i: int| 0 <= i < old(self).chunks@.len()
                        && !pos_is(old(self).chunks@[i].position,
                            position[0] as int, position[1] as int)
                        implies #[trigger] final(self).chunks@[i] == old(self).chunks@[i] by {
                    }
                }
                r
            }
            None => {
                None
            }
        }
    }


    /// One streaming tick. Computes the desired window from the viewpoint
    /// chunk and render radius, keeps every still-desired chunk untouched,
    /// creates a fresh all-Air chunk for every newly desired coordinate, and
    /// drops the rest. Afterwards the live set is exactly the desired set of
    /// (r + 1) * (r + 1) chunks. The returned actions tell the host which
    /// coordinates still need terrain, a mesh and a display handle, and
    /// which display handles to remove, each exactly once.
    #[verifier::loop_isolation(false)]
    #[verifier::rlimit(100)]
    pub fn frame_update_world(&mut self) -> (actions: FrameActions)
        requires
            old(self).wf(),
            old(self).world_settings.render_chunk_size <= 1024,
            -0x0040_0000 <= old(self).player_chunk_pos[0] <= 0x0040_0000,
            -0x0040_0000 <= old(self).player_chunk_pos[1] <= 0x0040_0000,
        ensures
            final(self).wf(),
            final(self).player_chunk_pos == old(self).player_chunk_pos,
            final(self).world_settings == old(self).world_settings,
            final(self).chunks@.len()
                == (old(self).world_settings.render_chunk_size as int + 1)
                    * (old(self).world_settings.render_chunk_size as int + 1),
            forall|qx: int, qz: int|
                #![trigger is_desired(old(self).player_chunk_pos, old(self).world_settings.render_chunk_size as int, qx, qz)]
                {
                let player = old(self).player_chunk_pos;
                let ri = old(self).world_settings.render_chunk_size as int;
                &&& (final(self).has_chunk_at(qx, qz) <==> is_desired(player, ri, qx, qz))
                &&& (is_desired(player, ri, qx, qz) && old(self).has_chunk_at(qx, qz) ==>
                        final(self).chunk_at(qx, qz) == old(self).chunk_at(qx, qz))
                &&& (is_desired(player, ri, qx, qz) && !old(self).has_chunk_at(qx, qz) ==>
                        final(self).chunk_at(qx, qz).entity_id is None
                        && final(self).chunk_at(qx, qz).all_air()
                        && pos_is(final(self).chunk_at(qx, qz).position, qx, qz))
                &&& (pos_list_contains(actions.created@, qx, qz) <==>
                        (is_desired(player, ri, qx, qz) && !old(self).has_chunk_at(qx, qz)))
            },
            pos_list_distinct(actions.created@),
            actions.removed@ == removed_handles_upto(
                old(self).chunks@,
                old(self).player_chunk_pos,
                old(self).world_settings.render_chunk_size as int,
                old(self).chunks@.len() as int,
            ),
    {
        let r: usize = self.world_settings.render_chunk_size;
        let rr: i32 = r as i32;
        let half: i32 = (r / 2) as i32;
        let px0: i32 = self.player_chunk_pos[0];
        let pz0: i32 = self.player_chunk_pos[1];
        let lo0e: i32 = px0 - half;
        let lo1e: i32 = pz0 - half;
        let ghost player: [i32; 2] = self.player_chunk_pos;
        let ghost ri: int = r as int;
        let ghost lo0: int = player[0] as int - ri / 2;
        let ghost lo1: int = player[1] as int - ri / 2;
        let ghost olds: Seq<Chunk> = self.chunks@;
        proof {
            assert(lo0e as int == lo0 && lo1e as int == lo1);
        }

        // The desired window, row by row.
        let mut chunk_to_render: Vec<[i32; 2]> = Vec::new();
        let mut i: usize = 0;
        while i < r + 1
            invariant
                i <= r + 1,
                chunk_to_render@.len() == i as int * (ri + 1),
                forall|k: int| 0 <= k < chunk_to_render@.len() ==>
                    is_desired(player, ri, (#[trigger] chunk_to_render@[k])[0] as int,
                        chunk_to_render@[k][1] as int),
                forall|k: int| 0 <= k < chunk_to_render@.len() ==>
                    pos_in_range(#[trigger] chunk_to_render@[k]),
                forall|k: int| 0 <= k < chunk_to_render@.len() ==>
                    ((#[trigger] chunk_to_render@[k])[0] as int) < lo0 + i as int,
                forall|qx: int, qz: int|
                    lo0 <= qx < lo0 + i as int && lo1 <= qz <= lo1 + ri ==>
                        #[trigger] pos_list_contains(chunk_to_render@, qx, qz),
                pos_list_distinct(chunk_to_render@),
            decreases r + 1 - i,
        {
            let mut t: usize = 0;
            while t < r + 1
                invariant
                    i < r + 1,
                    t <= r + 1,
                    chunk_to_render@.len() == i as int * (ri + 1) + t as int,
                    forall|k: int| 0 <= k < chunk_to_render@.len() ==>
                        is_desired(player, ri, (#[trigger] chunk_to_render@[k])[0] as int,
                            chunk_to_render@[k][1] as int),
                    forall|k: int| 0 <= k < chunk_to_render@.len() ==>
                        pos_in_range(#[trigger] chunk_to_render@[k]),
                    forall|k: int| 0 <= k < chunk_to_render@.len() ==>
                        ((#[trigger] chunk_to_render@[k])[0] as int) < lo0 + i as int
                        || (((chunk_to_render@[k])[0] as int) == lo0 + i as int
                            && ((chunk_to_render@[k])[1] as int) < lo1 + t as int),
                    forall|qx: int, qz: int|
                        (lo0 <= qx < lo0 + i as int && lo1 <= qz <= lo1 + ri)
                            || (qx == lo0 + i as int && lo1 <= qz < lo1 + t as int) ==>
                            #[trigger] pos_list_contains(chunk_to_render@, qx, qz),
                    pos_list_distinct(chunk_to_render@),
                decreases r + 1 - t,
            {
                let cx: i32 = i as i32 - half + px0;
                let cz: i32 = t as i32 - half + pz0;
                let ghost oldctr = chunk_to_render@;
                chunk_to_render.push([cx, cz]);
                proof {
                    assert(chunk_to_render@ =~= oldctr.push([cx, cz]));
                    assert(cx as int == lo0 + i as int && cz as int == lo1 + t as int);
                    assert forall|qx: int, qz: int|
                        (lo0 <= qx < lo0 + i as int && lo1 <= qz <= lo1 + ri)
                            || (qx == lo0 + i as int && lo1 <= qz < lo1 + t as int + 1)
                        implies #[trigger] pos_list_contains(chunk_to_render@, qx, qz) by {
                        if qx == lo0 + i as int && qz == lo1 + t as int {
                            assert(pos_is(chunk_to_render@[oldctr.len() as int], qx, qz));
                        } else {
                            assert(pos_list_contains(oldctr, qx, qz));
                            let m = choose|m: int| 0 <= m < oldctr.len()
                                && pos_is(oldctr[m], qx, qz);
                            assert(pos_is(chunk_to_render@[m], qx, qz));
                        }
                    }
                    assert forall|k1: int, k2: int|
                        #![trigger chunk_to_render@[k1], chunk_to_render@[k2]]
                        0 <= k1 < k2 < chunk_to_render@.len()
                        implies !(chunk_to_render@[k1][0] == chunk_to_render@[k2][0]
                            && chunk_to_render@[k1][1] == chunk_to_render@[k2][1]) by {
                        if k2 < oldctr.len() {
                            assert(chunk_to_render@[k1] == oldctr[k1]);
                            assert(chunk_to_render@[k2] == oldctr[k2]);
                        } else {
                            assert(chunk_to_render@[k1] == oldctr[k1]);
                            assert(chunk_to_render@[k2] == [cx, cz]);
                        }
                    }
                }
                t += 1;
            }
            proof {
                assert((i as int + 1) * (ri + 1) == i as int * (ri + 1) + (ri + 1))
                    by (nonlinear_arith);
            }
            i += 1;
        }
        proof {
            assert(chunk_to_render@.len() == (ri + 1) * (ri + 1));
            assert forall|qx: int, qz: int| is_desired(player, ri, qx, qz)
                implies #[trigger] pos_list_contains(chunk_to_render@, qx, qz) by {
            }
        }

        // Keep the still-desired chunks, in order; collect the handles of
        // the chunks that fall out of the window.
        let mut kept: Vec<Chunk> = Vec::new();
        let mut removed: Vec<u64> = Vec::new();
        let ghost mut processed: int = 0;
        while self.chunks.len() > 0
            invariant
                0 <= processed <= olds.len(),
                self.player_chunk_pos == old(self).player_chunk_pos,
                self.world_settings == old(self).world_settings,
                self.chunks@ == olds.subrange(processed, olds.len() as int),
                removed@ == removed_handles_upto(olds, player, ri, processed),
                forall|j: int| 0 <= j < kept@.len() ==> (#[trigger] kept@[j]).wf()
                    && pos_in_range(kept@[j].position)
                    && is_desired(player, ri, kept@[j].position[0] as int,
                        kept@[j].position[1] as int),
                forall|j: int| 0 <= j < kept@.len() ==>
                    exists|o: int| 0 <= o < processed && #[trigger] kept@[j] == #[trigger] olds[o],
                forall|j1: int, j2: int| #![trigger kept@[j1], kept@[j2]]
                    0 <= j1 < j2 < kept@.len() ==>
                        !(kept@[j1].position[0] == kept@[j2].position[0]
                            && kept@[j1].position[1] == kept@[j2].position[1]),
                forall|o: int| 0 <= o < processed
                    && is_desired(player, ri, (#[trigger] olds[o]).position[0] as int,
                        olds[o].position[1] as int) ==>
                        seq_contains_chunk(kept@, olds[o]),
            decreases self.chunks@.len(),
        {
            let ghost rest = self.chunks@;
            let c = self.chunks.remove(0);
            proof {
                assert(c == olds[processed]);
                assert(self.chunks@ =~= olds.subrange(processed + 1, olds.len() as int));
            }
            let cpx: i32 = c.position[0];
            let cpz: i32 = c.position[1];
            let des: bool = lo0e <= cpx && cpx <= lo0e + rr && lo1e <= cpz && cpz <= lo1e + rr;
            proof {
                assert(des == is_desired(player, ri, cpx as int, cpz as int));
            }
            let ghost oldkept = kept@;
            if des {
                kept.push(c);
                proof {
                    assert(kept@ =~= oldkept.push(c));
                    assert forall|j1: int, j2: int| #![trigger kept@[j1], kept@[j2]]
                        0 <= j1 < j2 < kept@.len()
                        implies !(kept@[j1].position[0] == kept@[j2].position[0]
                            && kept@[j1].position[1] == kept@[j2].position[1]) by {
                        if j2 < oldkept.len() {
                            assert(kept@[j1] == oldkept[j1] && kept@[j2] == oldkept[j2]);
                        } else {
                            assert(kept@[j2] == c);
                            assert(kept@[j1] == oldkept[j1]);
                            let o1 = choose|o: int| 0 <= o < processed && oldkept[j1] == olds[o];
                            assert(olds[o1].position == kept@[j1].position);
                            if olds[o1].position[0] == c.position[0]
                                && olds[o1].position[1] == c.position[1] {
                                assert(!(olds[o1].position[0] == olds[processed].position[0]
                                    && olds[o1].position[1] == olds[processed].position[1]));
                            }
                        }
                    }
                    assert forall|o: int| 0 <= o < processed + 1
                        && is_desired(player, ri, (#[trigger] olds[o]).position[0] as int,
                            olds[o].position[1] as int)
                        implies seq_contains_chunk(kept@, olds[o]) by {
                        if o < processed {
                            assert(seq_contains_chunk(oldkept, olds[o]));
                            let j = choose|j: int| 0 <= j < oldkept.len() && oldkept[j] == olds[o];
                            assert(kept@[j] == olds[o]);
                        } else {
                            assert(kept@[oldkept.len() as int] == olds[o]);
                        }
                    }
                    assert forall|j: int| 0 <= j < kept@.len()
                        implies exists|o: int| 0 <= o < processed + 1
                            && #[trigger] kept@[j] == #[trigger] olds[o] by {
                        if j < oldkept.len() {
                            let o = choose|o: int| 0 <= o < processed && oldkept[j] == olds[o];
                            assert(kept@[j] == olds[o]);
                        } else {
                            assert(kept@[j] == olds[processed]);
                        }
                    }
                }
            } else {
                let ghost oldrem = removed@;
                if let Some(id) = c.entity_id {
                    removed.push(id);
                    proof {
                        assert(removed@ =~= oldrem.push(id));
                        assert(removed@ =~= oldrem + seq![c.entity_id.unwrap()]);
                    }
                }
                proof {
                    assert(removed@ == removed_handles_upto(olds, player, ri, processed + 1));
                    assert forall|o: int| 0 <= o < processed + 1
                        && is_desired(player, ri, (#[trigger] olds[o]).position[0] as int,
                            olds[o].position[1] as int)
                        implies seq_contains_chunk(kept@, olds[o]) by {
                        if o < processed {
                            assert(seq_contains_chunk(oldkept, olds[o]));
                        }
                    }
                }
            }
            proof {
                processed = processed + 1;
            }
        }
        proof {
            assert(processed == olds.len());
        }

        // Converge to the desired set, reusing every kept chunk and
        // spawning a fresh chunk for every newly desired coordinate.
        let mut new_chunks: Vec<Chunk> = Vec::new();
        let mut created: Vec<[i32; 2]> = Vec::new();
        let mut n: usize = 0;
        while n < chunk_to_render.len()
            invariant
                n <= chunk_to_render@.len(),
                new_chunks@.len() == n as int,
                forall|m: int| 0 <= m < n as int ==>
                    placed_chunk(olds, chunk_to_render@[m], #[trigger] new_chunks@[m]),
                forall|qx: int, qz: int|
                    #[trigger] pos_list_contains(created@, qx, qz) <==>
                        (prefix_contains(chunk_to_render@, n as int, qx, qz)
                            && !seq_has_chunk(olds, qx, qz)),
                pos_list_distinct(created@),
                forall|j: int| 0 <= j < kept@.len() ==> (#[trigger] kept@[j]).wf()
                    && pos_in_range(kept@[j].position)
                    && is_desired(player, ri, kept@[j].position[0] as int,
                        kept@[j].position[1] as int),
                forall|j: int| 0 <= j < kept@.len() ==>
                    exists|o: int| 0 <= o < olds.len() && #[trigger] kept@[j] == #[trigger] olds[o],
                forall|j1: int, j2: int| #![trigger kept@[j1], kept@[j2]]
                    0 <= j1 < j2 < kept@.len() ==>
                        !(kept@[j1].position[0] == kept@[j2].position[0]
                            && kept@[j1].position[1] == kept@[j2].position[1]),
                forall|o: int| 0 <= o < olds.len()
                    && is_desired(player, ri, (#[trigger] olds[o]).position[0] as int,
                        olds[o].position[1] as int)
                    && !prefix_contains(chunk_to_render@, n as int,
                        olds[o].position[0] as int, olds[o].position[1] as int) ==>
                        seq_contains_chunk(kept@, olds[o]),
            decreases chunk_to_render@.len() - n,
        {
            let p: [i32; 2] = chunk_to_render[n];
            proof {
                assert(p == chunk_to_render@[n as int]);
            }
            let found = find_chunk(&kept, p[0], p[1]);
            let ghost oldkept = kept@;
            let ghost oldcreated = created@;
            match found {
                Some(idx) => {
                    let c = kept.remove(idx);
                    new_chunks.push(c);
                    proof {
                        assert(c == oldkept[idx as int]);
                        let o = choose|o: int| 0 <= o < olds.len() && oldkept[idx as int] == olds[o];
                        assert(olds[o] == c);
                        lemma_chunk_at_index(olds, o);
                        assert(seq_has_chunk(olds, p[0] as int, p[1] as int));
                        assert(seq_chunk_at(olds, p[0] as int, p[1] as int) == c);
                        assert(placed_chunk(olds, p, c));
                        assert(kept@ =~= oldkept.remove(idx as int));
                        assert forall|j: int| 0 <= j < kept@.len()
                            implies ((#[trigger] kept@[j]).wf()
                                && pos_in_range(kept@[j].position)
                                && is_desired(player, ri, kept@[j].position[0] as int,
                                    kept@[j].position[1] as int)
                                && exists|o2: int| 0 <= o2 < olds.len()
                                    && kept@[j] == #[trigger] olds[o2]) by {
                            if j < idx as int {
                                assert(kept@[j] == oldkept[j]);
                                let o2 = choose|o2: int| 0 <= o2 < olds.len()
                                    && oldkept[j] == olds[o2];
                                assert(kept@[j] == olds[o2]);
                            } else {
                                assert(kept@[j] == oldkept[j + 1]);
                                let o2 = choose|o2: int| 0 <= o2 < olds.len()
                                    && oldkept[j + 1] == olds[o2];
                                assert(kept@[j] == olds[o2]);
                            }
                        }
                        assert forall|j1: int, j2: int| #![trigger kept@[j1], kept@[j2]]
                            0 <= j1 < j2 < kept@.len()
                            implies !(kept@[j1].position[0] == kept@[j2].position[0]
                                && kept@[j1].position[1] == kept@[j2].position[1]) by {
                            let a1: int = if j1 < idx as int { j1 } else { j1 + 1 };
                            let a2: int = if j2 < idx as int { j2 } else { j2 + 1 };
                            assert(kept@[j1] == oldkept[a1]);
                            assert(kept@[j2] == oldkept[a2]);
                        }
                        assert forall|o2: int| 0 <= o2 < olds.len()
                            && is_desired(player, ri, (#[trigger] olds[o2]).position[0] as int,
                                olds[o2].position[1] as int)
                            && !prefix_contains(chunk_to_render@, n as int + 1,
                                olds[o2].position[0] as int, olds[o2].position[1] as int)
                            implies seq_contains_chunk(kept@, olds[o2]) by {
                            assert(!prefix_contains(chunk_to_render@, n as int,
                                olds[o2].position[0] as int, olds[o2].position[1] as int));
                            assert(seq_contains_chunk(oldkept, olds[o2]));
                            let j = choose|j: int| 0 <= j < oldkept.len()
                                && oldkept[j] == olds[o2];
                            assert(!pos_is(olds[o2].position, p[0] as int, p[1] as int));
                            assert(j != idx as int);
                            if j < idx as int {
                                assert(kept@[j] == olds[o2]);
                            } else {
                                assert(kept@[j - 1] == olds[o2]);
                            }
                        }
                        assert forall|qx: int, qz: int|
                            #[trigger] pos_list_contains(created@, qx, qz) <==>
                                (prefix_contains(chunk_to_render@, n as int + 1, qx, qz)
                                    && !seq_has_chunk(olds, qx, qz)) by {
                            if prefix_contains(chunk_to_render@, n as int + 1, qx, qz)
                                && !seq_has_chunk(olds, qx, qz) {
                                if qx == p[0] as int && qz == p[1] as int {
                                    assert(seq_has_chunk(olds, qx, qz));
                                } else {
                                    let m = choose|m: int| 0 <= m < n as int + 1
                                        && pos_is(chunk_to_render@[m], qx, qz);
                                    assert(prefix_contains(chunk_to_render@, n as int, qx, qz));
                                }
                            }
                            if pos_list_contains(created@, qx, qz) {
                                assert(prefix_contains(chunk_to_render@, n as int, qx, qz));
                                let m = choose|m: int| 0 <= m < n as int
                                    && pos_is(chunk_to_render@[m], qx, qz);
                                assert(prefix_contains(chunk_to_render@, n as int + 1, qx, qz));
                            }
                        }
                    }
                }
                None => {
                    let c = Chunk::spawn(p);
                    created.push(p);
                    new_chunks.push(c);
                    proof {
                        assert(created@ =~= oldcreated.push(p));
                        if seq_has_chunk(olds, p[0] as int, p[1] as int) {
                            let o = choose|o: int| 0 <= o < olds.len()
                                && pos_is(olds[o].position, p[0] as int, p[1] as int);
                            assert(!prefix_contains(chunk_to_render@, n as int,
                                olds[o].position[0] as int, olds[o].position[1] as int));
                            assert(seq_contains_chunk(kept@, olds[o]));
                            let j = choose|j: int| 0 <= j < kept@.len() && kept@[j] == olds[o];
                            assert(pos_is(kept@[j].position, p[0] as int, p[1] as int));
                            assert(seq_has_chunk(kept@, p[0] as int, p[1] as int));
                        }
                        assert(!seq_has_chunk(olds, p[0] as int, p[1] as int));
                        assert(placed_chunk(olds, p, c));
                        assert forall|qx: int, qz: int|
                            #[trigger] pos_list_contains(created@, qx, qz) <==>
                                (prefix_contains(chunk_to_render@, n as int + 1, qx, qz)
                                    && !seq_has_chunk(olds, qx, qz)) by {
                            if qx == p[0] as int && qz == p[1] as int {
                                assert(pos_is(created@[oldcreated.len() as int], qx, qz));
                                assert(pos_is(chunk_to_render@[n as int], qx, qz));
                            } else {
                                if pos_list_contains(created@, qx, qz) {
                                    let k = choose|k: int| 0 <= k < created@.len()
                                        && pos_is(created@[k], qx, qz);
                                    assert(k < oldcreated.len());
                                    assert(pos_list_contains(oldcreated, qx, qz));
                                    let m = choose|m: int| 0 <= m < n as int
                                        && pos_is(chunk_to_render@[m], qx, qz);
                                    assert(prefix_contains(chunk_to_render@,
                                        n as int + 1, qx, qz));
                                }
                                if prefix_contains(chunk_to_render@, n as int + 1, qx, qz)
                                    && !seq_has_chunk(olds, qx, qz) {
                                    let m = choose|m: int| 0 <= m < n as int + 1
                                        && pos_is(chunk_to_render@[m], qx, qz);
                                    assert(m < n as int);
                                    assert(prefix_contains(chunk_to_render@, n as int, qx, qz));
                                    assert(pos_list_contains(oldcreated, qx, qz));
                                    let k = choose|k: int| 0 <= k < oldcreated.len()
                                        && pos_is(oldcreated[k], qx, qz);
                                    assert(pos_is(created@[k], qx, qz));
                                }
                            }
                        }
                        assert forall|k1: int, k2: int|
                            #![trigger created@[k1], created@[k2]]
                            0 <= k1 < k2 < created@.len()
                            implies !(created@[k1][0] == created@[k2][0]
                                && created@[k1][1] == created@[k2][1]) by {
                            if k2 < oldcreated.len() {
                                assert(created@[k1] == oldcreated[k1]);
                                assert(created@[k2] == oldcreated[k2]);
                            } else {
                                assert(created@[k2] == p);
                                assert(created@[k1] == oldcreated[k1]);
                                assert(pos_list_contains(oldcreated,
                                    oldcreated[k1][0] as int, oldcreated[k1][1] as int));
                                if oldcreated[k1][0] == p[0] && oldcreated[k1][1] == p[1] {
                                    assert(prefix_contains(chunk_to_render@, n as int,
                                        p[0] as int, p[1] as int));
                                    let m = choose|m: int| 0 <= m < n as int
                                        && pos_is(chunk_to_render@[m], p[0] as int, p[1] as int);
                                    assert(!(chunk_to_render@[m][0] == chunk_to_render@[n as int][0]
                                        && chunk_to_render@[m][1] == chunk_to_render@[n as int][1]));
                                }
                            }
                        }
                    }
                }
            }
            n += 1;
        }
        self.chunks = new_chunks;
        let actions = FrameActions { created, removed };

        proof {
            let ctr = chunk_to_render@;
            let dlen = (ri + 1) * (ri + 1);
            assert(self.chunks@.len() == dlen);
            assert forall|m: int| 0 <= m < dlen implies
                placed_chunk(olds, ctr[m], #[trigger] self.chunks@[m]) by {
            }
            assert forall|i2: int| 0 <= i2 < dlen implies ((#[trigger] self.chunks@[i2]).wf()
                && pos_in_range(self.chunks@[i2].position)) by {
                assert(placed_chunk(olds, ctr[i2], self.chunks@[i2]));
                assert(pos_in_range(ctr[i2]));
            }
            assert forall|i2: int, j2: int|
                #![trigger self.chunks@[i2], self.chunks@[j2]]
                0 <= i2 < j2 < dlen
                implies !(self.chunks@[i2].position[0] == self.chunks@[j2].position[0]
                    && self.chunks@[i2].position[1] == self.chunks@[j2].position[1]) by {
                assert(placed_chunk(olds, ctr[i2], self.chunks@[i2]));
                assert(placed_chunk(olds, ctr[j2], self.chunks@[j2]));
                assert(!(ctr[i2][0] == ctr[j2][0] && ctr[i2][1] == ctr[j2][1]));
            }
            assert(chunks_wf(self.chunks@));

            assert forall|qx: int, qz: int|
                #[trigger] is_desired(player, ri, qx, qz)
                implies self.has_chunk_at(qx, qz) by {
                assert(pos_list_contains(ctr, qx, qz));
                let m = choose|m: int| 0 <= m < ctr.len() && pos_is(ctr[m], qx, qz);
                assert(placed_chunk(olds, ctr[m], self.chunks@[m]));
                assert(pos_is(self.chunks@[m].position, qx, qz));
            }
            assert forall|qx: int, qz: int| self.has_chunk_at(qx, qz)
                implies #[trigger] is_desired(player, ri, qx, qz) by {
                let i2 = choose|i2: int| 0 <= i2 < self.chunks@.len()
                    && pos_is(self.chunks@[i2].position, qx, qz);
                assert(placed_chunk(olds, ctr[i2], self.chunks@[i2]));
                assert(is_desired(player, ri, ctr[i2][0] as int, ctr[i2][1] as int));
            }
            assert forall|qx: int, qz: int|
                #[trigger] is_desired(player, ri, qx, qz)
                implies ({
                    let c = seq_chunk_at(self.chunks@, qx, qz);
                    &&& (seq_has_chunk(olds, qx, qz) ==> c == seq_chunk_at(olds, qx, qz))
                    &&& (!seq_has_chunk(olds, qx, qz) ==> c.entity_id is None
                            && c.all_air() && pos_is(c.position, qx, qz))
                }) by {
                assert(pos_list_contains(ctr, qx, qz));
                let m = choose|m: int| 0 <= m < ctr.len() && pos_is(ctr[m], qx, qz);
                assert(placed_chunk(olds, ctr[m], self.chunks@[m]));
                lemma_chunk_at_index(self.chunks@, m);
            }
        }
        actions
    }

    /// Regenerate every live chunk's blocks, chunk i from heights table i;
    /// positions and display handles are untouched.
    pub fn generate_data(&mut self, all_heights: &Vec<Vec<i32>>)
        requires
            old(self).wf(),
            all_heights@.len() == old(self).chunks@.len(),
            forall|i: int| 0 <= i < all_heights@.len() ==>
                (#[trigger] all_heights@[i])@.len() == PADDED_AREA as int,
        ensures
            final(self).wf(),
            final(self).player_chunk_pos == old(self).player_chunk_pos,
            final(self).world_settings == old(self).world_settings,
            final(self).chunks@.len() == old(self).chunks@.len(),
            forall|i: int| 0 <= i < final(self).chunks@.len() ==> {
                let c0 = old(self).chunks@[i];
                let c1 = #[trigger] final(self).chunks@[i];
                &&& c1.position == c0.position
                &&& c1.entity_id == c0.entity_id
                &&& c1.wf()
                &&& generated_data(c1.data@, all_heights@[i]@)
            },
    {
        let mut i: usize = 0;
        while i < self.chunks.len()
            invariant
                i <= self.chunks@.len(),
                self.chunks@.len() == old(self).chunks@.len(),
                all_heights@.len() == old(self).chunks@.len(),
                forall|j: int| 0 <= j < all_heights@.len() ==>
                    (#[trigger] all_heights@[j])@.len() == PADDED_AREA as int,
                self.player_chunk_pos == old(self).player_chunk_pos,
                self.world_settings == old(self).world_settings,
                chunks_wf(old(self).chunks@),
                forall|j: int| i as int <= j < self.chunks@.len() ==>
                    #[trigger] self.chunks@[j] == old(self).chunks@[j],
                forall|j: int| 0 <= j < i as int ==> {
                    let c0 = old(self).chunks@[j];
                    let c1 = #[trigger] self.chunks@[j];
                    &&& c1.position == c0.position
                    &&& c1.entity_id == c0.entity_id
                    &&& c1.wf()
                    &&& generated_data(c1.data@, all_heights@[j]@)
                },
            decreases self.chunks@.len() - i,
        {
            let ghost before = self.chunks@;
            let mut c = self.chunks.remove(i);
            c.generate_data(&all_heights[i]);
            self.chunks.insert(i, c);
            proof {
                assert(self.chunks@ =~= before.update(i as int, self.chunks@[i as int]));
            }
            i += 1;
        }
        proof {
            assert forall|i: int, j: int|
                #![trigger final(self).chunks@[i], final(self).chunks@[j]]
                0 <= i < j < final(self).chunks@.len()
                implies !(final(self).chunks@[i].position[0] == final(self).chunks@[j].position[0]
                    && final(self).chunks@[i].position[1] == final(self).chunks@[j].position[1]) by {
                assert(old(self).chunks@[i].position == final(self).chunks@[i].position);
                assert(old(self).chunks@[j].position == final(self).chunks@[j].position);
            }
        }
    }

    /// Chunk i after a full remesh: same coordinate and blocks, handle
    /// cleared; the returned entry carries the coordinate, the fresh mesh
    /// and the handle to remove.
    pub open spec fn remeshed_entry(c0: Chunk, c1: Chunk, e: ([i32; 2], MeshData, Option<u64>)) -> bool {
        &&& c1.position == c0.position
        &&& c1.data == c0.data
        &&& c1.entity_id is None
        &&& e.0 == c0.position
        &&& e.2 == c0.entity_id
        &&& mesh_matches(c0.data@, c0.position, e.1)
    }

    /// Rebuild every live chunk's mesh. Returns, per chunk, its coordinate,
    /// the fresh mesh, and the display handle it previously held — which the
    /// host must remove — and clears every stored handle until the host
    /// registers the replacements.
    #[verifier::rlimit(100)]
    pub fn spawn_blocks(&mut self) -> (r: Vec<([i32; 2], MeshData, Option<u64>)>)
        requires
            old(self).wf(),
        ensures
            final(self).wf(),
            final(self).player_chunk_pos == old(self).player_chunk_pos,
            final(self).world_settings == old(self).world_settings,
            final(self).chunks@.len() == old(self).chunks@.len(),
            r@.len() == old(self).chunks@.len(),
            forall|i: int| 0 <= i < r@.len() ==>
                WorldData::remeshed_entry(
                    old(self).chunks@[i], final(self).chunks@[i], #[trigger] r@[i]),
    {
        let mut r: Vec<([i32; 2], MeshData, Option<u64>)> = Vec::new();
        let mut i: usize = 0;
        while i < self.chunks.len()
            invariant
                i <= self.chunks@.len(),
                self.chunks@.len() == old(self).chunks@.len(),
                r@.len() == i as int,
                self.player_chunk_pos == old(self).player_chunk_pos,
                self.world_settings == old(self).world_settings,
                chunks_wf(old(self).chunks@),
                forall|j: int| i as int <= j < self.chunks@.len() ==>
                    #[trigger] self.chunks@[j] == old(self).chunks@[j],
                forall|j: int| 0 <= j < i as int ==>
                    WorldData::remeshed_entry(
                        old(self).chunks@[j], self.chunks@[j], #[trigger] r@[j]),
            decreases self.chunks@.len() - i,
        {
            let ghost before = self.chunks@;
            let ghost oldr = r@;
            let mut c = self.chunks.remove(i);
            let mesh = c.spawn_blocks();
            let handle = c.entity_id;
            let pos = c.position;
            c.entity_id = None;
            self.chunks.insert(i, c);
            r.push((pos, mesh, handle));
            proof {
                assert(before[i as int] == old(self).chunks@[i as int]);
                assert(self.chunks@ =~= before.update(i as int, self.chunks@[i as int]));
                assert(r@ =~= oldr.push((pos, mesh, handle)));
                assert forall|j: int| 0 <= j < i as int + 1 implies
                    WorldData::remeshed_entry(
                        old(self).chunks@[j], self.chunks@[j], #[trigger] r@[j]) by {
                    if j < i as int {
                        assert(r@[j] == oldr[j]);
                    } else {
                        assert(r@[j] == (pos, mesh, handle));
                        assert(self.chunks@[j] == c);
                        assert(mesh_matches(old(self).chunks@[j].data@,
                            old(self).chunks@[j].position, mesh));
                    }
                }
            }
            i += 1;
        }
        proof {
            assert forall|i: int| 0 <= i < final(self).chunks@.len()
                implies ((#[trigger] final(self).chunks@[i]).wf()
                    && pos_in_range(final(self).chunks@[i].position)
                    && final(self).chunks@[i].position == old(self).chunks@[i].position) by {
                assert(WorldData::remeshed_entry(
                    old(self).chunks@[i], final(self).chunks@[i], r@[i]));
                assert(old(self).chunks@[i].wf());
                assert(final(self).chunks@[i].data@ == old(self).chunks@[i].data@);
            }
            assert forall|i: int, j: int|
                #![trigger final(self).chunks@[i], final(self).chunks@[j]]
                0 <= i < j < final(self).chunks@.len()
                implies !(final(self).chunks@[i].position[0] == final(self).chunks@[j].position[0]
                    && final(self).chunks@[i].position[1] == final(self).chunks@[j].position[1]) by {
                assert(WorldData::remeshed_entry(
                    old(self).chunks@[i], final(self).chunks@[i], r@[i]));
                assert(WorldData::remeshed_entry(
                    old(self).chunks@[j], final(self).chunks@[j], r@[j]));
            }
        }
        r
    }
}

} // verus!
