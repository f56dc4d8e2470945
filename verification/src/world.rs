//! The world: a 16x16 grid of column containers, each 16 storage units tall,
//! spanning 256x256x256 voxels addressed by one byte per axis.
//!
//! Storage units are held flat, ordered by container column (x-major, then
//! z), then height. Every valid absolute position is exactly one 3-byte
//! tuple, so no bounds check is ever needed on a position.

use vstd::prelude::*;
use crate::catalog::{BlockCatalog, BlockUsingError};
use crate::chunk::{Chunk, ChunkGenerator, SubChunk, id_hi, id_lo, id_of_bytes};
use crate::light_map::nibble;

verus! {

/// Index of the storage unit that owns the position with these coordinates.
pub open spec fn sub_index_xyz(x: int, y: int, z: int) -> int {
    ((x / 16) * 16 + (z / 16)) * 16 + (y / 16)
}

/// Flat index inside a storage unit of the position with these coordinates.
pub open spec fn loc_index_xyz(x: int, y: int, z: int) -> int {
    (y % 16) * 256 + (z % 16) * 16 + (x % 16)
}

/// The position with these coordinates as a 3-byte tuple.
pub open spec fn pos_of(x: int, y: int, z: int) -> [u8; 3] {
    [x as u8, y as u8, z as u8]
}

/// Index of the storage unit that owns position `p`.
pub open spec fn sub_index(p: [u8; 3]) -> int {
    sub_index_xyz(p[0] as int, p[1] as int, p[2] as int)
}

/// Flat index of position `p` inside its storage unit.
pub open spec fn loc_index(p: [u8; 3]) -> int {
    loc_index_xyz(p[0] as int, p[1] as int, p[2] as int)
}

/// A position's storage-unit index is always one of the 4096 units.
pub proof fn lemma_sub_index_range(p: [u8; 3])
    ensures
        0 <= sub_index(p) < 4096,
        0 <= loc_index(p) < 4096,
{
}

/// The pair of unit index and in-unit index determines the position.
pub proof fn lemma_pos_index_injective(p: [u8; 3], q: [u8; 3])
    requires
        sub_index(p) == sub_index(q),
        loc_index(p) == loc_index(q),
    ensures
        p@ == q@,
{
    assert(p[0] as int == (p[0] as int / 16) * 16 + p[0] as int % 16);
    assert(q[0] as int == (q[0] as int / 16) * 16 + q[0] as int % 16);
    assert(p[1] as int == (p[1] as int / 16) * 16 + p[1] as int % 16);
    assert(q[1] as int == (q[1] as int / 16) * 16 + q[1] as int % 16);
    assert(p[2] as int == (p[2] as int / 16) * 16 + p[2] as int % 16);
    assert(q[2] as int == (q[2] as int / 16) * 16 + q[2] as int % 16);
    assert(p@ =~= q@);
}

/// The storage units whose dirty flag a block write at `p` sets: the owning
/// unit, and each unit sharing the face that the position touches.
pub open spec fn touched_on_block_write(p: [u8; 3], ci: int) -> bool {
    ||| ci == sub_index(p)
    ||| (p[0] as int % 16 == 15 && p[0] as int / 16 < 15 && ci == sub_index(p) + 256)
    ||| (p[1] as int % 16 == 15 && p[1] as int / 16 < 15 && ci == sub_index(p) + 1)
    ||| (p[2] as int % 16 == 15 && p[2] as int / 16 < 15 && ci == sub_index(p) + 16)
    ||| (p[0] as int % 16 == 0 && p[0] as int / 16 > 0 && ci == sub_index(p) - 256)
    ||| (p[1] as int % 16 == 0 && p[1] as int / 16 > 0 && ci == sub_index(p) - 1)
    ||| (p[2] as int % 16 == 0 && p[2] as int / 16 > 0 && ci == sub_index(p) - 16)
}

/// Bytes of one persisted world: 4096 storage units x 4096 voxels x 2 bytes.
pub const WORLD_BYTES: usize = 33554432;

/// Byte offset of a position's identifier inside a persisted world stream.
pub open spec fn byte_index(p: [u8; 3]) -> int {
    (sub_index(p) * 4096 + loc_index(p)) * 2
}

/// Count of identifiers that lie within fully persisted column containers of
/// a stream of the given length; only those are inspected before a short
/// stream is rejected.
pub open spec fn readable_ids(len: int) -> int {
    if len / 131072 < 256 {
        (len / 131072) * 65536
    } else {
        16777216
    }
}

/// A load failure of a persisted world.
#[derive(Clone, Copy, PartialEq, Eq, Structural, Debug)]
pub enum WorldLoadingError {
    /// The stream ends inside a column container.
    InvalidChunkSizeError,
    /// The stream names an identifier the catalog does not have.
    BlockNotFoundError,
}

/// The world: 4096 storage units covering 256x256x256 voxels.
pub struct World {
    pub chunks: Vec<SubChunk>,
}

impl World {
    pub open spec fn wf(self) -> bool {
        self.chunks.len() == 4096
            && forall|i: int| 0 <= i < 4096 ==> self.chunks[i].wf()
    }

    /// Block lid stored at the position with these coordinates.
    pub open spec fn spec_block_xyz(self, x: int, y: int, z: int) -> u16 {
        self.chunks[sub_index_xyz(x, y, z)].data[loc_index_xyz(x, y, z)]
    }

    /// Block lid stored at position `p`.
    pub open spec fn spec_block(self, p: [u8; 3]) -> u16 {
        self.spec_block_xyz(p[0] as int, p[1] as int, p[2] as int)
    }

    /// Light level of channel `c` at the position with these coordinates.
    pub open spec fn spec_light_xyz(self, x: int, y: int, z: int, c: u16) -> u16 {
        nibble(self.chunks[sub_index_xyz(x, y, z)].light_map.data[loc_index_xyz(x, y, z)], c)
    }

    /// Light level of channel `c` at position `p`.
    pub open spec fn spec_light(self, p: [u8; 3], c: u16) -> u16 {
        self.spec_light_xyz(p[0] as int, p[1] as int, p[2] as int, c)
    }

    /// Dirty flag of storage unit `ci`.
    pub open spec fn spec_dirty(self, ci: int) -> bool {
        self.chunks[ci].is_changed
    }

    /// Builds the world by running the generator once per container column:
    /// it succeeds exactly when the generator does, and then every position
    /// holds the block the generator describes for its height and in-unit
    /// place, with all light dark and every storage unit dirty.
    #[verifier::loop_isolation(false)]
    pub fn new<T: ChunkGenerator>(chunk_generator: &T, catalog: &BlockCatalog) -> (r: Result<
        World,
        BlockUsingError,
    >)
        requires
            chunk_generator.wf(),
            catalog.wf(),
        ensures
            r is Ok <==> chunk_generator.spec_succeeds(*catalog),
            r matches Ok(w) ==> {
                &&& w.wf()
                &&& forall|p: [u8; 3], c: u16| c <= 3 ==> w.spec_light(p, c) == 0
                &&& forall|ci: int| 0 <= ci < 4096 ==> w.spec_dirty(ci)
                &&& forall|p: [u8; 3]| #![trigger w.spec_block(p)]
                    w.spec_block(p) == chunk_generator.spec_block_at(
                        *catalog,
                        p[1] as int / 16,
                        loc_index(p),
                    )
            },
    {
        let mut chunks: Vec<SubChunk> = Vec::new();
        let mut cx: usize = 0;
        while cx < 16
            invariant
                chunks.len() == cx * 256,
                cx <= 16,
                forall|i: int| 0 <= i < chunks.len() ==> {
                    &&& chunks[i].wf()
                    &&& chunks[i].is_changed
                    &&& forall|k: int| 0 <= k < 4096 ==> chunks[i].light_map.data[k] == 0u16
                },
                chunks.len() > 0 ==> chunk_generator.spec_succeeds(*catalog),
                forall|u: int, k: int| #![trigger chunks[u].data[k]]
                    0 <= u < chunks.len() && 0 <= k < 4096
                    ==> chunks[u].data[k] == chunk_generator.spec_block_at(*catalog, u % 16, k),
            decreases 16 - cx,
        {
            let mut cz: usize = 0;
            while cz < 16
                invariant
                    chunks.len() == cx * 256 + cz * 16,
                    cz <= 16,
                    cx < 16,
                    forall|i: int| 0 <= i < chunks.len() ==> {
                        &&& chunks[i].wf()
                        &&& chunks[i].is_changed
                        &&& forall|k: int| 0 <= k < 4096 ==> chunks[i].light_map.data[k] == 0u16
                    },
                    chunks.len() > 0 ==> chunk_generator.spec_succeeds(*catalog),
                    forall|u: int, k: int| #![trigger chunks[u].data[k]]
                        0 <= u < chunks.len() && 0 <= k < 4096
                        ==> chunks[u].data[k]
                            == chunk_generator.spec_block_at(*catalog, u % 16, k),
                decreases 16 - cz,
            {
                let chunk_res = Chunk::new(chunk_generator, catalog);
                match chunk_res {
                    Err(e) => {
                        return Err(e);
                    },
                    Ok(mut chunk) => {
                        let mut cy: usize = 0;
                        while cy < 16
                            invariant
                                chunks.len() == cx * 256 + cz * 16 + cy,
                                cy <= 16,
                                cz < 16,
                                cx < 16,
                                chunk_generator.spec_succeeds(*catalog),
                                chunk.subchunks.len() == 16 - cy,
                                forall|s: int| 0 <= s < chunk.subchunks.len() ==> {
                                    &&& chunk.subchunks[s].wf()
                                    &&& chunk.subchunks[s].is_changed
                                    &&& forall|k: int| 0 <= k < 4096
                                        ==> chunk.subchunks[s].light_map.data[k] == 0u16
                                },
                                forall|s: int, k: int| #![trigger chunk.subchunks[s].data[k]]
                                    0 <= s < chunk.subchunks.len() && 0 <= k < 4096
                                    ==> chunk.subchunks[s].data[k]
                                        == chunk_generator.spec_block_at(
                                        *catalog,
                                        cy as int + s,
                                        k,
                                    ),
                                forall|i: int| 0 <= i < chunks.len() ==> {
                                    &&& chunks[i].wf()
                                    &&& chunks[i].is_changed
                                    &&& forall|k: int| 0 <= k < 4096
                                        ==> chunks[i].light_map.data[k] == 0u16
                                },
                                chunks.len() > 0 ==> chunk_generator.spec_succeeds(*catalog),
                                forall|u: int, k: int| #![trigger chunks[u].data[k]]
                                    0 <= u < chunks.len() && 0 <= k < 4096
                                    ==> chunks[u].data[k]
                                        == chunk_generator.spec_block_at(*catalog, u % 16, k),
                            decreases 16 - cy,
                        {
                            let unit = chunk.subchunks.remove(0);
                            chunks.push(unit);
                            proof {
                                assert((16 * ((cx as int) * 16 + cz as int) + cy as int) % 16
                                    == cy as int) by (nonlinear_arith)
                                    requires 0 <= cy < 16,
                                ;
                            }
                            cy += 1;
                        }
                    },
                }
                cz += 1;
            }
            cx += 1;
        }
        let w = World { chunks };
        proof {
            assert forall|p: [u8; 3], c: u16| c <= 3 implies w.spec_light(p, c) == 0 by {
                lemma_sub_index_range(p);
                crate::light_map::lemma_nibble_zero(c);
            }
            assert forall|p: [u8; 3]| #![trigger w.spec_block(p)]
                w.spec_block(p) == chunk_generator.spec_block_at(
                    *catalog,
                    p[1] as int / 16,
                    loc_index(p),
                ) by {
                lemma_sub_index_range(p);
                let u = sub_index(p);
                assert(u % 16 == p[1] as int / 16) by (nonlinear_arith)
                    requires
                        u == ((p[0] as int / 16) * 16 + (p[2] as int / 16)) * 16
                            + (p[1] as int / 16),
                        0 <= p[1] as int / 16 < 16,
                ;
                assert(w.chunks[u].data[loc_index(p)]
                    == chunk_generator.spec_block_at(*catalog, u % 16, loc_index(p)));
            }
        }
        Ok(w)
    }

    /// Block lid at position `pos`.
    pub fn get_block(&self, pos: &[u8; 3]) -> (r: u16)
        requires
            self.wf(),
        ensures
            r == self.spec_block(*pos),
    {
        let si: usize = (((pos[0] / 16) as usize) * 16 + ((pos[2] / 16) as usize)) * 16
            + ((pos[1] / 16) as usize);
        let li: usize = ((pos[1] % 16) as usize) * 256 + ((pos[2] % 16) as usize) * 16
            + ((pos[0] % 16) as usize);
        self.chunks[si].data[li]
    }

    /// Writes the block lid at `pos`, marks the owning storage unit dirty,
    /// and marks each unit behind a face that the position touches dirty
    /// too; no block at another position and no light level changes.
    #[verifier::rlimit(60)]
    pub fn set_block(&mut self, pos: &[u8; 3], block_lid: u16)
        requires
            old(self).wf(),
        ensures
            final(self).wf(),
            final(self).spec_block(*pos) == block_lid,
            forall|q: [u8; 3]| q@ != pos@
                ==> final(self).spec_block(q) == old(self).spec_block(q),
            forall|q: [u8; 3], c: u16| c <= 3
                ==> final(self).spec_light(q, c) == old(self).spec_light(q, c),
            forall|ci: int| 0 <= ci < 4096 ==> final(self).spec_dirty(ci)
                == (old(self).spec_dirty(ci) || touched_on_block_write(*pos, ci)),
    {
        let cx: usize = (pos[0] / 16) as usize;
        let cy: usize = (pos[1] / 16) as usize;
        let cz: usize = (pos[2] / 16) as usize;
        let si: usize = (cx * 16 + cz) * 16 + cy;
        let li: usize = ((pos[1] % 16) as usize) * 256 + ((pos[2] % 16) as usize) * 16
            + ((pos[0] % 16) as usize);
        self.chunks[si].data[li] = block_lid;
        self.chunks[si].is_changed = true;
        if pos[0] % 16 == 15 && cx < 15 {
            self.chunks[si + 256].is_changed = true;
        }
        if pos[1] % 16 == 15 && cy < 15 {
            self.chunks[si + 1].is_changed = true;
        }
        if pos[2] % 16 == 15 && cz < 15 {
            self.chunks[si + 16].is_changed = true;
        }
        if pos[0] % 16 == 0 && cx > 0 {
            self.chunks[si - 256].is_changed = true;
        }
        if pos[1] % 16 == 0 && cy > 0 {
            self.chunks[si - 1].is_changed = true;
        }
        if pos[2] % 16 == 0 && cz > 0 {
            self.chunks[si - 16].is_changed = true;
        }
        proof {
            assert forall|q: [u8; 3]| q@ != pos@
                implies self.spec_block(q) == old(self).spec_block(q) by {
                if sub_index(q) == sub_index(*pos) && loc_index(q) == loc_index(*pos) {
                    lemma_pos_index_injective(q, *pos);
                }
            }
        }
    }

    /// Light level of channel `channel` at position `pos`.
    pub fn get_light_level(&self, pos: &[u8; 3], channel: u8) -> (r: u8)
        requires
            self.wf(),
            channel <= 3,
        ensures
            r == self.spec_light(*pos, channel as u16),
            r <= 15,
    {
        let si: usize = (((pos[0] / 16) as usize) * 16 + ((pos[2] / 16) as usize)) * 16
            + ((pos[1] / 16) as usize);
        let lp: [u8; 3] = [pos[0] % 16, pos[1] % 16, pos[2] % 16];
        self.chunks[si].light_map.get(&lp, channel)
    }

    /// Writes one light channel at `pos` and marks the owning storage unit
    /// dirty; every other channel, every other position, and every block
    /// keep their values.
    pub fn set_light_level(&mut self, pos: &[u8; 3], channel: u8, level: u8)
        requires
            old(self).wf(),
            channel <= 3,
            level <= 15,
        ensures
            final(self).wf(),
            final(self).spec_light(*pos, channel as u16) == level,
            forall|q: [u8; 3], c: u16| c <= 3 && !(q@ == pos@ && c == channel)
                ==> final(self).spec_light(q, c) == old(self).spec_light(q, c),
            forall|q: [u8; 3]| final(self).spec_block(q) == old(self).spec_block(q),
            forall|ci: int| 0 <= ci < 4096 ==> final(self).spec_dirty(ci)
                == (old(self).spec_dirty(ci) || ci == sub_index(*pos)),
    {
        let cx: usize = (pos[0] / 16) as usize;
        let cy: usize = (pos[1] / 16) as usize;
        let cz: usize = (pos[2] / 16) as usize;
        let si: usize = (cx * 16 + cz) * 16 + cy;
        let lp: [u8; 3] = [pos[0] % 16, pos[1] % 16, pos[2] % 16];
        self.chunks[si].light_map.set(&lp, channel, level);
        self.chunks[si].is_changed = true;
        proof {
            assert forall|q: [u8; 3], c: u16| c <= 3 && !(q@ == pos@ && c == channel)
                implies self.spec_light(q, c) == old(self).spec_light(q, c) by {
                if sub_index(q) == sub_index(*pos) {
                    if loc_index(q) == loc_index(*pos) {
                        lemma_pos_index_injective(q, *pos);
                        assert(q@ == pos@);
                        assert(c != channel as u16);
                        assert(crate::light_map::local_index(lp) == loc_index(*pos));
                        assert(self.chunks[si as int].light_map.spec_level(lp, c)
                            == old(self).chunks[si as int].light_map.spec_level(lp, c));
                        assert(self.spec_light(q, c) == self.chunks[
                            si as int
                        ].light_map.spec_level(lp, c));
                        assert(old(self).spec_light(q, c) == old(self).chunks[
                            si as int
                        ].light_map.spec_level(lp, c));
                    } else {
                        assert(self.chunks[sub_index(q)].light_map.data[loc_index(q)]
                            == old(self).chunks[sub_index(q)].light_map.data[loc_index(q)]);
                    }
                }
            }
        }
    }

    /// Serializes the whole world's block identifiers, container by
    /// container in x-major order, each container as in [`Chunk::store`].
    /// Fails exactly when some stored lid has no catalog entry.
    #[verifier::loop_isolation(false)]
    pub fn store(&self, catalog: &BlockCatalog) -> (r: Result<Vec<u8>, BlockUsingError>)
        requires
            self.wf(),
            catalog.wf(),
        ensures
            r is Ok <==> forall|s2: int, i2: int| #![trigger self.chunks[s2].data[i2]]
                0 <= s2 < 4096 && 0 <= i2 < 4096
                ==> self.chunks[s2].data[i2] < catalog.blocks.len(),
            r matches Ok(v) ==> {
                &&& v.len() == WORLD_BYTES
                &&& forall|p: [u8; 3]| #![trigger byte_index(p)] {
                    let id = catalog.blocks[self.spec_block(p) as int].id;
                    v[byte_index(p)] == id_hi(id) && v[byte_index(p) + 1] == id_lo(id)
                }
            },
    {
        let mut out: Vec<u8> = Vec::new();
        let mut g: usize = 0;
        while g < 16777216
            invariant
                out.len() == 2 * g,
                g <= 16777216,
                forall|s2: int, i2: int| #![trigger self.chunks[s2].data[i2]]
                    0 <= s2 < 4096 && 0 <= i2 < 4096 && s2 * 4096 + i2 < g as int ==> {
                    let lid = self.chunks[s2].data[i2];
                    &&& lid < catalog.blocks.len()
                    &&& out[(s2 * 4096 + i2) * 2] == id_hi(catalog.blocks[lid as int].id)
                    &&& out[(s2 * 4096 + i2) * 2 + 1] == id_lo(catalog.blocks[lid as int].id)
                },
            decreases 16777216 - g,
        {
            let s: usize = g / 4096;
            let i: usize = g % 4096;
            let lid: u16 = self.chunks[s].data[i];
            if (lid as usize) >= catalog.len() {
                return Err(BlockUsingError::BlockNotFoundError);
            }
            let id: u16 = catalog.blocks[lid as usize].id;
            let b_hi: u8 = (id >> 8) as u8;
            let b_lo: u8 = (id & 0xff) as u8;
            let ghost prev: Seq<u8> = out@;
            out.push(b_hi);
            out.push(b_lo);
            proof {
                assert(out@ == prev.push(b_hi).push(b_lo));
                assert(s * 4096 + i == g) by (nonlinear_arith)
                    requires
                        s == g / 4096,
                        i == g % 4096,
                        g < 16777216,
                ;
                assert forall|s2: int, i2: int| #![trigger self.chunks[s2].data[i2]]
                    0 <= s2 < 4096 && 0 <= i2 < 4096 && s2 * 4096 + i2 < g as int + 1 implies {
                    let lid2 = self.chunks[s2].data[i2];
                    &&& lid2 < catalog.blocks.len()
                    &&& out[(s2 * 4096 + i2) * 2] == id_hi(catalog.blocks[lid2 as int].id)
                    &&& out[(s2 * 4096 + i2) * 2 + 1] == id_lo(catalog.blocks[lid2 as int].id)
                } by {
                    let e = s2 * 4096 + i2;
                    if e < g as int {
                        assert(out@[e * 2] == prev[e * 2]);
                        assert(out@[e * 2 + 1] == prev[e * 2 + 1]);
                    } else {
                        assert(e == g as int);
                        assert(s2 == s as int && i2 == i as int) by (nonlinear_arith)
                            requires
                                0 <= s2 < 4096,
                                0 <= i2 < 4096,
                                s2 * 4096 + i2 == g as int,
                                (s as int) * 4096 + (i as int) == g as int,
                                0 <= (s as int) < 4096,
                                0 <= (i as int) < 4096,
                        ;
                        assert(out@[e * 2] == b_hi);
                        assert(out@[e * 2 + 1] == b_lo);
                    }
                }
            }
            g += 1;
        }
        proof {
            assert forall|p: [u8; 3]| #![trigger byte_index(p)] {
                let id = catalog.blocks[self.spec_block(p) as int].id;
                out[byte_index(p)] == id_hi(id) && out[byte_index(p) + 1] == id_lo(id)
            } by {
                lemma_sub_index_range(p);
                let s2 = sub_index(p);
                let i2 = loc_index(p);
                assert(s2 * 4096 + i2 < 16777216);
                assert(out[(s2 * 4096 + i2) * 2] == id_hi(
                    catalog.blocks[self.chunks[s2].data[i2] as int].id,
                ));
                assert(out[(s2 * 4096 + i2) * 2 + 1] == id_lo(
                    catalog.blocks[self.chunks[s2].data[i2] as int].id,
                ));
                assert(byte_index(p) == (s2 * 4096 + i2) * 2);
            }
        }
        Ok(out)
    }

    /// Replaces every block in the world from a persisted stream, leaving
    /// the light map untouched (light is always recomputed) and marking
    /// every storage unit dirty. On any failure the world is unchanged:
    /// `InvalidChunkSizeError` when the stream ends inside a container (and
    /// every identifier of the fully present containers before it is
    /// known), `BlockNotFoundError` when such an identifier is unknown.
    #[verifier::loop_isolation(false)]
    pub fn load(&mut self, catalog: &BlockCatalog, data: &[u8]) -> (r: Result<
        (),
        WorldLoadingError,
    >)
        requires
            old(self).wf(),
            catalog.wf(),
        ensures
            final(self).wf(),
            r is Ok <==> (data.len() >= WORLD_BYTES
                && forall|h: int| #![trigger data[2 * h]] 0 <= h < 16777216
                    ==> catalog.spec_has_id(id_of_bytes(data[2 * h], data[2 * h + 1]))),
            r matches Err(_) ==> *final(self) == *old(self),
            r == Result::<(), WorldLoadingError>::Err(WorldLoadingError::InvalidChunkSizeError)
                <==> (data.len() < WORLD_BYTES
                    && forall|h: int| #![trigger data[2 * h]] 0 <= h < readable_ids(
                        data.len() as int,
                    ) ==> catalog.spec_has_id(id_of_bytes(data[2 * h], data[2 * h + 1]))),
            r == Result::<(), WorldLoadingError>::Err(WorldLoadingError::BlockNotFoundError)
                <==> exists|h: int| #![trigger data[2 * h]] 0 <= h < readable_ids(
                    data.len() as int,
                ) && !catalog.spec_has_id(id_of_bytes(data[2 * h], data[2 * h + 1])),
            r is Ok ==> {
                &&& forall|p: [u8; 3]| #![trigger byte_index(p)] {
                    let lid = final(self).spec_block(p);
                    &&& lid < catalog.blocks.len()
                    &&& catalog.blocks[lid as int].id
                        == id_of_bytes(data[byte_index(p)], data[byte_index(p) + 1])
                }
                &&& forall|p: [u8; 3], c: u16| c <= 3
                    ==> final(self).spec_light(p, c) == old(self).spec_light(p, c)
                &&& forall|ci: int| 0 <= ci < 4096 ==> final(self).spec_dirty(ci)
            },
    {
        let mut k: usize = 0;
        while k < 256
            invariant
                k <= 256,
                data.len() >= k * 131072,
                forall|h: int| #![trigger data[2 * h]] 0 <= h < (k as int) * 65536
                    ==> catalog.spec_has_id(id_of_bytes(data[2 * h], data[2 * h + 1])),
            decreases 256 - k,
        {
            if data.len() < (k + 1) * 131072 {
                proof {
                    assert(data.len() as int / 131072 == k as int) by (nonlinear_arith)
                        requires
                            (k as int) * 131072 <= data.len() as int,
                            (data.len() as int) < ((k as int) + 1) * 131072,
                            k < 256,
                    ;
                    assert(readable_ids(data.len() as int) == (k as int) * 65536);
                }
                return Err(WorldLoadingError::InvalidChunkSizeError);
            }
            let mut h: usize = k * 65536;
            while h < (k + 1) * 65536
                invariant
                    k < 256,
                    data.len() >= (k + 1) * 131072,
                    k * 65536 <= h <= (k + 1) * 65536,
                    forall|hh: int| #![trigger data[2 * hh]] 0 <= hh < h as int
                        ==> catalog.spec_has_id(id_of_bytes(data[2 * hh], data[2 * hh + 1])),
                decreases (k + 1) * 65536 - h,
            {
                let b_hi: u8 = data[2 * h];
                let b_lo: u8 = data[2 * h + 1];
                let id: u16 = ((b_hi as u16) << 8) | (b_lo as u16);
                match catalog.lid_of(id) {
                    None => {
                        proof {
                            assert(data.len() as int / 131072 >= (k as int) + 1)
                                by (nonlinear_arith)
                                requires
                                    ((k as int) + 1) * 131072 <= data.len() as int,
                            ;
                            assert(readable_ids(data.len() as int) > h as int);
                        }
                        return Err(WorldLoadingError::BlockNotFoundError);
                    },
                    Some(_) => {},
                }
                h += 1;
            }
            k += 1;
        }
        let mut g: usize = 0;
        while g < 16777216
            invariant
                data.len() >= WORLD_BYTES,
                forall|h: int| #![trigger data[2 * h]] 0 <= h < 16777216
                    ==> catalog.spec_has_id(id_of_bytes(data[2 * h], data[2 * h + 1])),
                g <= 16777216,
                self.chunks.len() == 4096,
                forall|ci: int| 0 <= ci < 4096 ==> {
                    &&& self.chunks[ci].wf()
                    &&& self.chunks[ci].light_map == old(self).chunks[ci].light_map
                    &&& self.chunks[ci].is_changed == old(self).chunks[ci].is_changed
                },
                forall|s2: int, i2: int| #![trigger self.chunks[s2].data[i2]]
                    0 <= s2 < 4096 && 0 <= i2 < 4096 && s2 * 4096 + i2 < g as int ==> {
                    let lid = self.chunks[s2].data[i2];
                    &&& lid < catalog.blocks.len()
                    &&& catalog.blocks[lid as int].id
                        == id_of_bytes(data[(s2 * 4096 + i2) * 2], data[(s2 * 4096 + i2) * 2 + 1])
                },
                forall|s2: int, i2: int| #![trigger self.chunks[s2].data[i2]]
                    0 <= s2 < 4096 && 0 <= i2 < 4096 && s2 * 4096 + i2 >= g as int
                    ==> self.chunks[s2].data[i2] == old(self).chunks[s2].data[i2],
            decreases 16777216 - g,
        {
            let s: usize = g / 4096;
            let i: usize = g % 4096;
            let b_hi: u8 = data[2 * g];
            let b_lo: u8 = data[2 * g + 1];
            let id: u16 = ((b_hi as u16) << 8) | (b_lo as u16);
            let lid_opt = catalog.lid_of(id);
            proof {
                assert(catalog.spec_has_id(id_of_bytes(data[2 * (g as int)], data[
                    2 * (g as int) + 1
                ])));
            }
            // the validation pass above has already resolved every identifier
            let lid: u16 = match lid_opt {
                Some(l) => l,
                None => 0,
            };
            let ghost before = self.chunks;
            self.chunks[s].data[i] = lid;
            proof {
                assert(s * 4096 + i == g) by (nonlinear_arith)
                    requires
                        s == g / 4096,
                        i == g % 4096,
                        g < 16777216,
                ;
                assert forall|s2: int, i2: int| #![trigger self.chunks[s2].data[i2]]
                    0 <= s2 < 4096 && 0 <= i2 < 4096 && s2 * 4096 + i2 != g as int
                    implies self.chunks[s2].data[i2] == before[s2].data[i2] by {
                    if s2 == s as int {
                        assert(i2 != i as int);
                    }
                }
            }
            g += 1;
        }
        let mut ci: usize = 0;
        while ci < 4096
            invariant
                ci <= 4096,
                self.chunks.len() == 4096,
                forall|j: int| 0 <= j < 4096 ==> {
                    &&& self.chunks[j].wf()
                    &&& self.chunks[j].light_map == old(self).chunks[j].light_map
                },
                forall|j: int| 0 <= j < ci as int ==> self.chunks[j].is_changed,
                forall|s2: int, i2: int| #![trigger self.chunks[s2].data[i2]]
                    0 <= s2 < 4096 && 0 <= i2 < 4096 ==> {
                    let lid = self.chunks[s2].data[i2];
                    &&& lid < catalog.blocks.len()
                    &&& catalog.blocks[lid as int].id
                        == id_of_bytes(data[(s2 * 4096 + i2) * 2], data[(s2 * 4096 + i2) * 2 + 1])
                },
            decreases 4096 - ci,
        {
            self.chunks[ci].is_changed = true;
            ci += 1;
        }
        proof {
            assert forall|p: [u8; 3]| #![trigger byte_index(p)] {
                let lid = self.spec_block(p);
                &&& lid < catalog.blocks.len()
                &&& catalog.blocks[lid as int].id
                    == id_of_bytes(data[byte_index(p)], data[byte_index(p) + 1])
            } by {
                lemma_sub_index_range(p);
                let s2 = sub_index(p);
                let i2 = loc_index(p);
                assert(self.chunks[s2].data[i2] < catalog.blocks.len());
                assert(byte_index(p) == (s2 * 4096 + i2) * 2);
            }
            assert forall|p: [u8; 3], c: u16| c <= 3
                implies self.spec_light(p, c) == old(self).spec_light(p, c) by {
                lemma_sub_index_range(p);
            }
        }
        Ok(())
    }
}

} // verus!
