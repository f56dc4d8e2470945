//! Catalog of block types: per-identifier emission triple and opacity class.
//!
//! The world stores compact catalog indices ("lids"); the catalog maps a lid
//! to its persistent identifier, its R/G/B emission levels, and its mesh
//! class. Only a full cube blocks light and the ray walk; every other mesh
//! shape is transparent to both.

use vstd::prelude::*;

verus! {

/// Stored identifier of the empty ("air") voxel.
pub const AIR_BLOCK_ID: u16 = 0;
/// Catalog index of the fallback block returned for an unknown lid.
pub const UNKNOWN_BLOCK_ID: u16 = 1;

/// Mesh class of a block: a full cube is opaque to light and to the ray
/// walk's occupancy test, any custom shape is transparent.
#[derive(Clone, Copy, PartialEq, Eq, Structural, Debug)]
pub enum Mesh {
    Cube,
    Custom,
}

impl Mesh {
    pub open spec fn spec_is_cube(self) -> bool {
        self is Cube
    }

    pub fn is_cube(&self) -> (r: bool)
        ensures
            r == self.spec_is_cube(),
    {
        match self {
            Mesh::Cube => true,
            Mesh::Custom => false,
        }
    }
}

/// One catalog entry: persistent identifier, emission per channel, mesh class.
#[derive(Clone, Copy, PartialEq, Eq, Structural, Debug)]
pub struct Block {
    pub id: u16,
    pub light_r: u8,
    pub light_g: u8,
    pub light_b: u8,
    pub mesh: Mesh,
}

/// The loaded block catalog; the position of a block in `blocks` is its lid.
pub struct BlockCatalog {
    pub blocks: Vec<Block>,
}

/// Entry list acceptable as a catalog: air first under identifier 0, a
/// fallback entry present, no identifier repeated, emissions within 4 bits.
pub open spec fn catalog_entries_ok(entries: Seq<Block>) -> bool {
    &&& entries.len() >= 2
    &&& entries.len() <= 0xffff
    &&& entries[0].id == AIR_BLOCK_ID
    &&& forall|i: int, j: int| 0 <= i < j < entries.len() ==> entries[i].id != entries[j].id
    &&& forall|i: int| 0 <= i < entries.len()
        ==> entries[i].light_r <= 15 && entries[i].light_g <= 15 && entries[i].light_b <= 15
}

/// Why a block list was refused as a catalog.
#[derive(Clone, Copy, PartialEq, Eq, Structural, Debug)]
pub enum BlocksLoadingError {
    /// The air entry is missing at the front, or the fallback entry is absent.
    DefaultBlockNotFoundError,
    /// Two entries share one identifier.
    RedefinitionError,
    /// An emission level does not fit in 4 bits.
    EmissionRangeError,
}

/// A lid was used that the catalog has no entry for.
#[derive(Clone, Copy, PartialEq, Eq, Structural, Debug)]
pub enum BlockUsingError {
    BlockNotFoundError,
}

impl BlockCatalog {
    pub open spec fn wf(self) -> bool {
        catalog_entries_ok(self.blocks@)
    }

    /// The entry a lid denotes: the entry at that index, or the fallback
    /// entry when the lid is out of range.
    pub open spec fn spec_get_block(self, lid: u16) -> Block {
        if lid < self.blocks.len() {
            self.blocks[lid as int]
        } else {
            self.blocks[UNKNOWN_BLOCK_ID as int]
        }
    }

    /// Whether the block a lid denotes is opaque (a full cube).
    pub open spec fn spec_is_cube(self, lid: u16) -> bool {
        self.spec_get_block(lid).mesh is Cube
    }

    /// Whether some entry carries the given persistent identifier.
    pub open spec fn spec_has_id(self, id: u16) -> bool {
        exists|i: int| 0 <= i < self.blocks.len() && self.blocks[i].id == id
    }

    /// The lid carrying the given persistent identifier; meaningful only
    /// when some entry does, and then unique, since identifiers never
    /// repeat.
    pub open spec fn spec_lid_of(self, id: u16) -> u16 {
        choose|l: u16| l < self.blocks.len() && self.blocks[l as int].id == id
    }

    /// Validates a block list and takes it over as the catalog.
    #[verifier::loop_isolation(false)]
    pub fn load(entries: Vec<Block>) -> (r: Result<BlockCatalog, BlocksLoadingError>)
        ensures
            r is Ok <==> catalog_entries_ok(entries@),
            r matches Ok(c) ==> c.blocks@ == entries@ && c.wf(),
            r == Result::<BlockCatalog, BlocksLoadingError>::Err(
                BlocksLoadingError::DefaultBlockNotFoundError,
            ) <==> (entries@.len() < 2 || entries@.len() > 0xffff
                || entries@[0].id != AIR_BLOCK_ID),
            r == Result::<BlockCatalog, BlocksLoadingError>::Err(
                BlocksLoadingError::RedefinitionError,
            ) <==> (entries@.len() >= 2 && entries@.len() <= 0xffff
                && entries@[0].id == AIR_BLOCK_ID
                && exists|i: int, j: int| 0 <= i < j < entries@.len()
                    && entries@[i].id == entries@[j].id),
    {
        if entries.len() < 2 || entries.len() > 0xffff {
            return Err(BlocksLoadingError::DefaultBlockNotFoundError);
        }
        if entries[0].id != AIR_BLOCK_ID {
            return Err(BlocksLoadingError::DefaultBlockNotFoundError);
        }
        let n: usize = entries.len();
        let mut i: usize = 0;
        while i < n
            invariant
                n == entries.len(),
                i <= n,
                forall|a: int, b: int| 0 <= a < b < entries@.len() && a < i as int
                    ==> entries@[a].id != entries@[b].id,
            decreases n - i,
        {
            let mut j: usize = i + 1;
            while j < n
                invariant
                    n == entries.len(),
                    i < n,
                    i < j,
                    j <= n,
                    forall|b: int| i < b < j as int ==> entries@[i as int].id != entries@[b].id,
                decreases n - j,
            {
                if entries[i].id == entries[j].id {
                    return Err(BlocksLoadingError::RedefinitionError);
                }
                j += 1;
            }
            i += 1;
        }
        let mut k: usize = 0;
        while k < n
            invariant
                n == entries.len(),
                k <= n,
                forall|a: int| 0 <= a < k as int
                    ==> entries@[a].light_r <= 15 && entries@[a].light_g <= 15
                        && entries@[a].light_b <= 15,
            decreases n - k,
        {
            if entries[k].light_r > 15 || entries[k].light_g > 15 || entries[k].light_b > 15 {
                return Err(BlocksLoadingError::EmissionRangeError);
            }
            k += 1;
        }
        Ok(BlockCatalog { blocks: entries })
    }

    /// Entry count of the catalog.
    pub fn len(&self) -> (r: usize)
        ensures
            r == self.blocks.len(),
    {
        self.blocks.len()
    }

    /// The entry a lid denotes, falling back to the entry at
    /// [`UNKNOWN_BLOCK_ID`] when the lid is out of range.
    pub fn get_block(&self, block_lid: u16) -> (r: &Block)
        requires
            self.wf(),
        ensures
            *r == self.spec_get_block(block_lid),
    {
        if (block_lid as usize) < self.blocks.len() {
            &self.blocks[block_lid as usize]
        } else {
            &self.blocks[UNKNOWN_BLOCK_ID as usize]
        }
    }

    /// Whether the block a lid denotes is a full cube.
    pub fn is_cube(&self, block_lid: u16) -> (r: bool)
        requires
            self.wf(),
        ensures
            r == self.spec_is_cube(block_lid),
    {
        self.get_block(block_lid).mesh.is_cube()
    }

    /// Persistent identifier of a lid; `None` exactly when the lid has no
    /// entry.
    pub fn id_of(&self, block_lid: u16) -> (r: Option<u16>)
        requires
            self.wf(),
        ensures
            block_lid < self.blocks.len() ==> r == Some(self.blocks[block_lid as int].id),
            block_lid >= self.blocks.len() ==> r is None,
    {
        if (block_lid as usize) < self.blocks.len() {
            Some(self.blocks[block_lid as usize].id)
        } else {
            None
        }
    }

    /// Lid of a persistent identifier; `None` exactly when no entry carries
    /// the identifier.
    pub fn lid_of(&self, id: u16) -> (r: Option<u16>)
        requires
            self.wf(),
        ensures
            r matches Some(l) ==> l < self.blocks.len() && self.blocks[l as int].id == id
                && l == self.spec_lid_of(id),
            r is None <==> !self.spec_has_id(id),
    {
        let n: usize = self.blocks.len();
        let mut i: usize = 0;
        while i < n
            invariant
                self.wf(),
                n == self.blocks.len(),
                i <= n,
                forall|a: int| 0 <= a < i as int ==> self.blocks@[a].id != id,
            decreases n - i,
        {
            if self.blocks[i].id == id {
                proof {
                    let l2 = self.spec_lid_of(id);
                    assert(l2 < self.blocks.len() && self.blocks[l2 as int].id == id) by {
                        assert((i as u16) < self.blocks.len()
                            && self.blocks[i as u16 as int].id == id);
                    }
                    if l2 != i as u16 {
                        assert(self.blocks[l2 as int].id != self.blocks[i as int].id);
                    }
                }
                return Some(i as u16);
            }
            i += 1;
        }
        None
    }
}

} // verus!
