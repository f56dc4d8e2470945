//! Storage units, column containers, their byte codec, and chunk generators.
//!
//! A storage unit ([`SubChunk`]) is a 16x16x16 cube of block lids with its
//! own [`LightMap`] and dirty flag. A column container ([`Chunk`]) stacks 16
//! storage units vertically. A chunk is persisted as a flat big-endian
//! 16-bit-per-voxel stream of block identifiers, storage-unit-major, then
//! plane, then row, then column.

use vstd::prelude::*;
use crate::catalog::{BlockCatalog, BlockUsingError};
use crate::catalog::AIR_BLOCK_ID;
use crate::light_map::{LightMap, local_index};

verus! {

/// Bytes of one persisted column container: 16 units x 4096 voxels x 2 bytes.
pub const CHUNK_BYTES: usize = 131072;

/// High byte of a persisted block identifier.
pub open spec fn id_hi(id: u16) -> u8 {
    (id >> 8) as u8
}

/// Low byte of a persisted block identifier.
pub open spec fn id_lo(id: u16) -> u8 {
    (id & 0xff) as u8
}

/// Identifier read back from its two persisted bytes.
pub open spec fn id_of_bytes(hi: u8, lo: u8) -> u16 {
    ((hi as u16) << 8) | (lo as u16)
}

/// Splitting an identifier into two bytes and reading them back is lossless.
pub proof fn lemma_id_bytes_roundtrip(id: u16)
    by (bit_vector)
    ensures
        id_of_bytes(id_hi(id), id_lo(id)) == id,
{
}


/// Round trip of the column codec: a byte stream that `store` produced for
/// one column rebuilds, through `load`'s identifier translation, exactly
/// the blocks the column held.
pub proof fn lemma_chunk_codec_roundtrip(c: Chunk, c2: Chunk, catalog: BlockCatalog, v: Seq<u8>)
    requires
        catalog.wf(),
        c.wf(),
        c2.wf(),
        forall|s: int, i: int| #![trigger c.subchunks[s].data[i]]
            0 <= s < 16 && 0 <= i < 4096 ==> {
            let lid = c.subchunks[s].data[i];
            &&& lid < catalog.blocks.len()
            &&& v[(s * 4096 + i) * 2] == id_hi(catalog.blocks[lid as int].id)
            &&& v[(s * 4096 + i) * 2 + 1] == id_lo(catalog.blocks[lid as int].id)
        },
        forall|s: int, i: int| #![trigger c2.subchunks[s].data[i]]
            0 <= s < 16 && 0 <= i < 4096 ==> {
            let lid = c2.subchunks[s].data[i];
            &&& lid < catalog.blocks.len()
            &&& catalog.blocks[lid as int].id
                == id_of_bytes(v[(s * 4096 + i) * 2], v[(s * 4096 + i) * 2 + 1])
        },
    ensures
        forall|s: int, i: int| #![trigger c2.subchunks[s].data[i]]
            0 <= s < 16 && 0 <= i < 4096
            ==> c2.subchunks[s].data[i] == c.subchunks[s].data[i],
{
    assert forall|s: int, i: int| #![trigger c2.subchunks[s].data[i]]
        0 <= s < 16 && 0 <= i < 4096
        implies c2.subchunks[s].data[i] == c.subchunks[s].data[i] by {
        let lid1 = c.subchunks[s].data[i];
        let lid2 = c2.subchunks[s].data[i];
        lemma_id_bytes_roundtrip(catalog.blocks[lid1 as int].id);
        assert(catalog.blocks[lid2 as int].id == catalog.blocks[lid1 as int].id);
        if lid1 != lid2 {
            assert(catalog.blocks[lid1 as int].id != catalog.blocks[lid2 as int].id);
        }
    }
}

/// A load failure of one persisted column container.
#[derive(Clone, Copy, PartialEq, Eq, Structural, Debug)]
pub enum ChunkLoadingError {
    /// A byte of an identifier is missing from the stream.
    IdConstructError,
    /// The stream names an identifier the catalog does not have.
    BlockNotFoundError,
}

/// One storage unit: a 16x16x16 cube of block lids, its light map, and the
/// dirty flag that mesh-generation collaborators clear after consuming
/// geometry.
pub struct SubChunk {
    pub data: Vec<u16>,
    pub light_map: LightMap,
    pub is_changed: bool,
}

impl SubChunk {
    pub open spec fn wf(self) -> bool {
        self.data.len() == 4096 && self.light_map.wf()
    }

    /// Block lid at a local position of this unit.
    pub open spec fn spec_block(self, p: [u8; 3]) -> u16 {
        self.data[local_index(p)]
    }

    /// A fresh unit over the given voxel data, fully dark and marked dirty.
    pub fn new(data: Vec<u16>) -> (r: SubChunk)
        requires
            data.len() == 4096,
        ensures
            r.wf(),
            r.data == data,
            r.is_changed,
            forall|i: int| 0 <= i < 4096 ==> r.light_map.data[i] == 0u16,
    {
        SubChunk { data, light_map: LightMap::new(), is_changed: true }
    }
}

/// One column container: 16 storage units stacked bottom to top.
pub struct Chunk {
    pub subchunks: Vec<SubChunk>,
}

impl Chunk {
    pub open spec fn wf(self) -> bool {
        self.subchunks.len() == 16
            && forall|s: int| 0 <= s < 16 ==> self.subchunks[s].wf()
    }

    /// Every light channel of every voxel of the column is zero.
    pub open spec fn lights_zero(self) -> bool {
        forall|s: int, i: int| 0 <= s < 16 && 0 <= i < 4096
            ==> self.subchunks[s].light_map.data[i] == 0u16
    }

    /// Every storage unit of the column is marked dirty.
    pub open spec fn all_dirty(self) -> bool {
        forall|s: int| 0 <= s < 16 ==> self.subchunks[s].is_changed
    }

    /// Builds a column container by running a chunk generator: it succeeds
    /// exactly when the generator does, and then holds block for block what
    /// the generator describes.
    pub fn new<T: ChunkGenerator>(generator: &T, catalog: &BlockCatalog) -> (r: Result<
        Chunk,
        BlockUsingError,
    >)
        requires
            generator.wf(),
            catalog.wf(),
        ensures
            r is Ok <==> generator.spec_succeeds(*catalog),
            r matches Ok(c) ==> {
                &&& c.wf() && c.lights_zero() && c.all_dirty()
                &&& forall|s: int, i: int| #![trigger c.subchunks[s].data[i]]
                    0 <= s < 16 && 0 <= i < 4096
                    ==> c.subchunks[s].data[i] == generator.spec_block_at(*catalog, s, i)
            },
    {
        generator.get_chunk(catalog)
    }

    /// Serializes the column's block identifiers: for each storage unit in
    /// order, each voxel in plane-row-column order, the catalog identifier
    /// of its lid as two big-endian bytes. Fails exactly when some stored
    /// lid has no catalog entry.
    #[verifier::loop_isolation(false)]
    pub fn store(&self, catalog: &BlockCatalog) -> (r: Result<Vec<u8>, BlockUsingError>)
        requires
            self.wf(),
            catalog.wf(),
        ensures
            r is Ok <==> forall|s: int, i: int| 0 <= s < 16 && 0 <= i < 4096
                ==> self.subchunks[s].data[i] < catalog.blocks.len(),
            r matches Ok(v) ==> {
                &&& v.len() == CHUNK_BYTES
                &&& forall|s: int, i: int| #![trigger self.subchunks[s].data[i]]
                    0 <= s < 16 && 0 <= i < 4096 ==> {
                    let id = catalog.blocks[self.subchunks[s].data[i] as int].id;
                    v[(s * 4096 + i) * 2] == id_hi(id) && v[(s * 4096 + i) * 2 + 1] == id_lo(id)
                }
            },
    {
        let mut out: Vec<u8> = Vec::new();
        let mut g: usize = 0;
        while g < 65536
            invariant
                out.len() == 2 * g,
                g <= 65536,
                forall|s2: int, i2: int| #![trigger self.subchunks[s2].data[i2]]
                    0 <= s2 < 16 && 0 <= i2 < 4096 && s2 * 4096 + i2 < g as int ==> {
                    let lid = self.subchunks[s2].data[i2];
                    &&& lid < catalog.blocks.len()
                    &&& out[(s2 * 4096 + i2) * 2] == id_hi(catalog.blocks[lid as int].id)
                    &&& out[(s2 * 4096 + i2) * 2 + 1] == id_lo(catalog.blocks[lid as int].id)
                },
            decreases 65536 - g,
        {
            let s: usize = g / 4096;
            let i: usize = g % 4096;
            let lid: u16 = self.subchunks[s].data[i];
            if (lid as usize) >= catalog.len() {
                return Err(BlockUsingError::BlockNotFoundError);
            }
            let id: u16 = catalog.blocks[lid as usize].id;
            let b_hi: u8 = (id >> 8) as u8;
            let b_lo: u8 = (id & 0xff) as u8;
            let ghost prev: Seq<u8> = out@;
            out.push(b_hi);
            out.push(b_lo);
            proof {
                assert(out@ == prev.push(b_hi).push(b_lo));
                assert(s * 4096 + i == g) by (nonlinear_arith)
                    requires s == g / 4096 && i == g % 4096 && g < 65536;
                assert forall|s2: int, i2: int| #![trigger self.subchunks[s2].data[i2]]
                    0 <= s2 < 16 && 0 <= i2 < 4096 && s2 * 4096 + i2 < g as int + 1 implies {
                    let lid2 = self.subchunks[s2].data[i2];
                    &&& lid2 < catalog.blocks.len()
                    &&& out[(s2 * 4096 + i2) * 2] == id_hi(catalog.blocks[lid2 as int].id)
                    &&& out[(s2 * 4096 + i2) * 2 + 1] == id_lo(catalog.blocks[lid2 as int].id)
                } by {
                    let e = s2 * 4096 + i2;
                    if e < g as int {
                        assert(out@[e * 2] == prev[e * 2]);
                        assert(out@[e * 2 + 1] == prev[e * 2 + 1]);
                    } else {
                        assert(e == g as int);
                        assert(s2 == s as int && i2 == i as int) by (nonlinear_arith)
                            requires
                                0 <= s2 < 16 && 0 <= i2 < 4096 && s2 * 4096 + i2 == g as int
                                && s as int * 4096 + i as int == g as int
                                && 0 <= (s as int) < 16 && 0 <= (i as int) < 4096;
                        assert(out@[e * 2] == b_hi);
                        assert(out@[e * 2 + 1] == b_lo);
                    }
                }
            }
            g += 1;
        }
        Ok(out)
    }

    /// Rebuilds a column container from its persisted byte stream: each
    /// identifier is read back big-endian and translated to its catalog lid.
    /// The rebuilt column is fully dark and marked dirty. Fails with
    /// `IdConstructError` when the stream is shorter than [`CHUNK_BYTES`]
    /// (and every readable identifier is known), and with
    /// `BlockNotFoundError` when a readable identifier has no catalog entry.
    #[verifier::loop_isolation(false)]
    pub fn load(catalog: &BlockCatalog, data: &[u8]) -> (r: Result<Chunk, ChunkLoadingError>)
        requires
            catalog.wf(),
        ensures
            r is Ok <==> (data.len() >= CHUNK_BYTES
                && forall|h: int| #![trigger data[2 * h]] 0 <= h < 65536
                    ==> catalog.spec_has_id(id_of_bytes(data[2 * h], data[2 * h + 1]))),
            r matches Ok(c) ==> {
                &&& c.wf()
                &&& c.lights_zero()
                &&& c.all_dirty()
                &&& forall|s: int, i: int| #![trigger c.subchunks[s].data[i]]
                    0 <= s < 16 && 0 <= i < 4096 ==> {
                    let lid = c.subchunks[s].data[i];
                    &&& lid < catalog.blocks.len()
                    &&& catalog.blocks[lid as int].id
                        == id_of_bytes(data[(s * 4096 + i) * 2], data[(s * 4096 + i) * 2 + 1])
                }
            },
            r == Result::<Chunk, ChunkLoadingError>::Err(ChunkLoadingError::BlockNotFoundError)
                <==> exists|h: int| #![trigger data[2 * h]] 0 <= h < 65536
                    && 2 * h + 1 < data.len()
                    && !catalog.spec_has_id(id_of_bytes(data[2 * h], data[2 * h + 1])),
    {
        let mut subchunks: Vec<SubChunk> = Vec::new();
        let mut s: usize = 0;
        while s < 16
            invariant
                subchunks.len() == s,
                s <= 16,
                forall|t: int| 0 <= t < s as int ==> {
                    &&& subchunks[t].wf()
                    &&& subchunks[t].is_changed
                    &&& forall|i: int| 0 <= i < 4096 ==> subchunks[t].light_map.data[i] == 0u16
                },
                forall|t: int, i: int| #![trigger subchunks[t].data[i]]
                    0 <= t < s as int && 0 <= i < 4096 ==> {
                    let lid = subchunks[t].data[i];
                    &&& lid < catalog.blocks.len()
                    &&& catalog.blocks[lid as int].id
                        == id_of_bytes(data[(t * 4096 + i) * 2], data[(t * 4096 + i) * 2 + 1])
                },
                (s as int) * 8192 <= data.len(),
                forall|h: int| #![trigger data[2 * h]] 0 <= h < (s as int) * 4096
                    ==> catalog.spec_has_id(id_of_bytes(data[2 * h], data[2 * h + 1])),
            decreases 16 - s,
        {
            let mut d: Vec<u16> = Vec::new();
            let mut i: usize = 0;
            while i < 4096
                invariant
                    subchunks.len() == s,
                    s < 16,
                    d.len() == i,
                    i <= 4096,
                    forall|j: int| #![trigger d[j]] 0 <= j < i as int ==> {
                        let lid = d[j];
                        &&& lid < catalog.blocks.len()
                        &&& catalog.blocks[lid as int].id == id_of_bytes(
                            data[((s as int) * 4096 + j) * 2],
                            data[((s as int) * 4096 + j) * 2 + 1],
                        )
                    },
                    ((s as int) * 4096 + i as int) * 2 <= data.len(),
                    forall|h: int| #![trigger data[2 * h]]
                        0 <= h < (s as int) * 4096 + i as int
                        ==> catalog.spec_has_id(id_of_bytes(data[2 * h], data[2 * h + 1])),
                decreases 4096 - i,
            {
                let h: usize = s * 4096 + i;
                if 2 * h + 1 >= data.len() {
                    proof {
                        assert forall|hh: int| #![trigger data[2 * hh]]
                            0 <= hh < 65536 && 2 * hh + 1 < data.len()
                            implies catalog.spec_has_id(
                                id_of_bytes(data[2 * hh], data[2 * hh + 1]),
                            ) by {
                            assert(hh < h as int);
                        }
                    }
                    return Err(ChunkLoadingError::IdConstructError);
                }
                let hi: u8 = data[2 * h];
                let lo: u8 = data[2 * h + 1];
                let id: u16 = ((hi as u16) << 8) | (lo as u16);
                match catalog.lid_of(id) {
                    None => {
                        return Err(ChunkLoadingError::BlockNotFoundError);
                    },
                    Some(lid) => {
                        d.push(lid);
                    },
                }
                i += 1;
            }
            subchunks.push(SubChunk::new(d));
            s += 1;
        }
        Ok(Chunk { subchunks })
    }
}

/// A source of freshly generated column containers.
pub trait ChunkGenerator {
    /// Generator-specific well-formedness that `get_chunk` relies on.
    spec fn wf(&self) -> bool;

    /// Whether generation succeeds against this catalog.
    spec fn spec_succeeds(&self, catalog: BlockCatalog) -> bool;

    /// The block lid generation puts at flat index `i` of storage unit `s`
    /// of the column, when it succeeds.
    spec fn spec_block_at(&self, catalog: BlockCatalog, s: int, i: int) -> u16;

    /// Produces one column container: it succeeds exactly when
    /// `spec_succeeds` holds, and then the column is well formed, fully
    /// dark, marked dirty throughout, and holds block for block what
    /// `spec_block_at` says.
    fn get_chunk(&self, catalog: &BlockCatalog) -> (r: Result<Chunk, BlockUsingError>)
        requires
            self.wf(),
            catalog.wf(),
        ensures
            r is Ok <==> self.spec_succeeds(*catalog),
            r matches Ok(c) ==> {
                &&& c.wf() && c.lights_zero() && c.all_dirty()
                &&& forall|s: int, i: int| #![trigger c.subchunks[s].data[i]]
                    0 <= s < 16 && 0 <= i < 4096
                    ==> c.subchunks[s].data[i] == self.spec_block_at(*catalog, s, i)
            },
    ;
}

/// Generates columns from 256 horizontal layers, each layer one block
/// identifier repeated over the whole 16x16 footprint.
pub struct LayerChunkGenerator {
    pub layers: Vec<u16>,
}

impl LayerChunkGenerator {
    /// All layers empty.
    pub fn new() -> (r: LayerChunkGenerator)
        ensures
            r.wf(),
            forall|y: int| 0 <= y < 256 ==> r.layers[y] == AIR_BLOCK_ID,
    {
        let layers: Vec<u16> = vec![AIR_BLOCK_ID; 256];
        LayerChunkGenerator { layers }
    }

    /// Layers filled from the bottom with the given identifiers, the rest
    /// left empty.
    #[verifier::loop_isolation(false)]
    pub fn from_bottom_layers(bottom_layers: &[u16]) -> (r: LayerChunkGenerator)
        ensures
            r.wf(),
            forall|y: int| 0 <= y < 256 ==> r.layers[y] == if y < bottom_layers.len() {
                bottom_layers[y]
            } else {
                AIR_BLOCK_ID
            },
    {
        let mut layers: Vec<u16> = vec![AIR_BLOCK_ID; 256];
        let top_pos: usize = if bottom_layers.len() < 256 {
            bottom_layers.len()
        } else {
            256
        };
        let mut layer_pos: usize = 0;
        while layer_pos < top_pos
            invariant
                layers.len() == 256,
                top_pos <= 256,
                top_pos <= bottom_layers.len(),
                layer_pos <= top_pos,
                forall|y: int| 0 <= y < layer_pos as int ==> layers[y] == bottom_layers[y],
                forall|y: int| layer_pos as int <= y < 256 ==> layers[y] == AIR_BLOCK_ID,
            decreases top_pos - layer_pos,
        {
            layers[layer_pos] = bottom_layers[layer_pos];
            layer_pos += 1;
        }
        LayerChunkGenerator { layers }
    }

    /// Layers filled from the top with the given identifiers (first
    /// identifier topmost), the rest left empty.
    #[verifier::loop_isolation(false)]
    pub fn from_top_layers(top_layers: &[u16]) -> (r: LayerChunkGenerator)
        ensures
            r.wf(),
            forall|y: int| 0 <= y < 256 ==> r.layers[y] == if 255 - y < top_layers.len() {
                top_layers[255 - y]
            } else {
                AIR_BLOCK_ID
            },
    {
        let mut layers: Vec<u16> = vec![AIR_BLOCK_ID; 256];
        let bottom_pos: usize = if top_layers.len() < 256 {
            256 - top_layers.len()
        } else {
            0
        };
        let mut layer_pos: usize = bottom_pos;
        while layer_pos < 256
            invariant
                layers.len() == 256,
                bottom_pos <= layer_pos,
                layer_pos <= 256,
                256 - bottom_pos <= top_layers.len(),
                forall|y: int| bottom_pos as int <= y < layer_pos as int
                    ==> layers[y] == top_layers[255 - y],
                forall|y: int| 0 <= y < bottom_pos as int ==> layers[y] == AIR_BLOCK_ID,
                forall|y: int| layer_pos as int <= y < 256 ==> layers[y] == AIR_BLOCK_ID,
            decreases 256 - layer_pos,
        {
            layers[layer_pos] = top_layers[255 - layer_pos];
            layer_pos += 1;
        }
        LayerChunkGenerator { layers }
    }
}

impl ChunkGenerator for LayerChunkGenerator {
    open spec fn wf(&self) -> bool {
        self.layers.len() == 256
    }

    /// Generation succeeds exactly when every layer identifier has a
    /// catalog entry.
    open spec fn spec_succeeds(&self, catalog: BlockCatalog) -> bool {
        forall|y: int| 0 <= y < 256 ==> catalog.spec_has_id(self.layers[y])
    }

    /// The voxel plane at height `y = s * 16 + i / 256` holds the lid of
    /// the identifier `layers[y]`.
    open spec fn spec_block_at(&self, catalog: BlockCatalog, s: int, i: int) -> u16 {
        catalog.spec_lid_of(self.layers[s * 16 + i / 256])
    }

    /// Builds the column plane by plane, translating each layer identifier
    /// to its catalog lid.
    #[verifier::loop_isolation(false)]
    fn get_chunk(&self, catalog: &BlockCatalog) -> (r: Result<Chunk, BlockUsingError>)
        ensures
            r matches Ok(c) ==> forall|s: int, i: int| #![trigger c.subchunks[s].data[i]]
                0 <= s < 16 && 0 <= i < 4096 ==> {
                let lid = c.subchunks[s].data[i];
                &&& lid < catalog.blocks.len()
                &&& catalog.blocks[lid as int].id == self.layers[s * 16 + i / 256]
            },
    {
        let mut subchunks: Vec<SubChunk> = Vec::new();
        let mut s: usize = 0;
        while s < 16
            invariant
                subchunks.len() == s,
                s <= 16,
                forall|t: int| 0 <= t < s as int ==> {
                    &&& subchunks[t].wf()
                    &&& subchunks[t].is_changed
                    &&& forall|i: int| 0 <= i < 4096 ==> subchunks[t].light_map.data[i] == 0u16
                },
                forall|t: int, i: int| #![trigger subchunks[t].data[i]]
                    0 <= t < s as int && 0 <= i < 4096 ==> {
                    let lid = subchunks[t].data[i];
                    &&& lid < catalog.blocks.len()
                    &&& catalog.blocks[lid as int].id == self.layers[t * 16 + i / 256]
                    &&& lid == self.spec_block_at(*catalog, t, i)
                },
                forall|y: int| 0 <= y < (s as int) * 16 ==> catalog.spec_has_id(self.layers[y]),
            decreases 16 - s,
        {
            let mut d: Vec<u16> = Vec::new();
            let mut ly: usize = 0;
            while ly < 16
                invariant
                    d.len() == 256 * ly,
                    ly <= 16,
                    s < 16,
                    forall|i: int| #![trigger d[i]] 0 <= i < 256 * (ly as int) ==> {
                        let lid = d[i];
                        &&& lid < catalog.blocks.len()
                        &&& catalog.blocks[lid as int].id
                            == self.layers[(s as int) * 16 + i / 256]
                        &&& lid == self.spec_block_at(*catalog, (s as int), i)
                    },
                    forall|y: int| 0 <= y < (s as int) * 16 + ly as int
                        ==> catalog.spec_has_id(self.layers[y]),
                decreases 16 - ly,
            {
                let layer_id: u16 = self.layers[s * 16 + ly];
                match catalog.lid_of(layer_id) {
                    None => {
                        proof {
                            assert(!catalog.spec_has_id(self.layers[(s as int) * 16 + ly as int]));
                        }
                        return Err(BlockUsingError::BlockNotFoundError);
                    },
                    Some(lid) => {
                        let mut k: usize = 0;
                        while k < 256
                            invariant
                                d.len() == 256 * ly + k,
                                k <= 256,
                                lid < catalog.blocks.len(),
                                catalog.blocks[lid as int].id
                                    == self.layers[(s as int) * 16 + ly as int],
                                lid == catalog.spec_lid_of(
                                    self.layers[(s as int) * 16 + ly as int],
                                ),
                                forall|i: int| #![trigger d[i]]
                                    0 <= i < 256 * (ly as int) ==> {
                                    let lid2 = d[i];
                                    &&& lid2 < catalog.blocks.len()
                                    &&& catalog.blocks[lid2 as int].id
                                        == self.layers[(s as int) * 16 + i / 256]
                                },
                                forall|i: int| #![trigger d[i]]
                                    256 * (ly as int) <= i < d.len() ==> d[i] == lid,
                            decreases 256 - k,
                        {
                            d.push(lid);
                            k += 1;
                        }
                        proof {
                            assert forall|i: int| #![trigger d[i]]
                                0 <= i < 256 * (ly as int + 1) implies {
                                let lid2 = d[i];
                                &&& lid2 < catalog.blocks.len()
                                &&& catalog.blocks[lid2 as int].id
                                    == self.layers[(s as int) * 16 + i / 256]
                                &&& lid2 == self.spec_block_at(*catalog, (s as int), i)
                            } by {
                                if i >= 256 * (ly as int) {
                                    assert(d[i] == lid);
                                    assert(i / 256 == ly as int) by (nonlinear_arith)
                                        requires 256 * (ly as int) <= i < 256 * (ly as int + 1),
                                    ;
                                }
                            }
                        }
                    },
                }
                ly += 1;
            }
            subchunks.push(SubChunk::new(d));
            s += 1;
        }
        Ok(Chunk { subchunks })
    }
}

} // verus!
