//! Packed per-voxel illumination storage for one 16x16x16 storage unit.
//!
//! Each voxel owns one `u16` word holding four independent 4-bit channels:
//! R, G, B and S (sunlight), with channel `c` stored in bits `4*c .. 4*c+4`.

use vstd::prelude::*;

verus! {

pub const R_CHANNEL: u8 = 0;
pub const G_CHANNEL: u8 = 1;
pub const B_CHANNEL: u8 = 2;
pub const S_CHANNEL: u8 = 3;

/// Value of channel `channel` inside one packed word.
pub open spec fn nibble(word: u16, channel: u16) -> u16 {
    (word >> ((4 * channel) as u16)) & 0x0f
}

/// One packed word with channel `channel` replaced by `level`.
pub open spec fn with_nibble(word: u16, channel: u16, level: u16) -> u16 {
    (word & !(0x0fu16 << ((4 * channel) as u16))) | (level << ((4 * channel) as u16))
}

/// Every channel of an all-zero word is zero.
pub proof fn lemma_nibble_zero(channel: u16)
    by (bit_vector)
    ensures
        nibble(0u16, channel) == 0,
{
}

/// A channel value always fits in 4 bits.
pub proof fn lemma_nibble_bound(word: u16, channel: u16)
    by (bit_vector)
    ensures
        nibble(word, channel) <= 15,
{
}

/// Writing one channel sets exactly that channel and leaves the other three
/// channels of the word unchanged.
pub proof fn lemma_with_nibble(word: u16, channel: u16, level: u16, other: u16)
    by (bit_vector)
    requires
        channel <= 3,
        other <= 3,
        level <= 15,
    ensures
        nibble(with_nibble(word, channel, level), channel) == level,
        other != channel ==> nibble(with_nibble(word, channel, level), other)
            == nibble(word, other),
{
}

/// Flat index of a local position inside a 16x16x16 storage unit; the plane
/// is selected by the vertical component, then the row, then the column.
pub open spec fn local_index(p: [u8; 3]) -> int {
    (p[1] as int) * 256 + (p[2] as int) * 16 + (p[0] as int)
}

/// Packed light storage for one storage unit: 4096 words, one per voxel,
/// addressed by [`local_index`].
pub struct LightMap {
    pub data: Vec<u16>,
}

impl LightMap {
    pub open spec fn wf(self) -> bool {
        self.data.len() == 4096
    }

    /// Channel `channel` of the voxel at local position `p`.
    pub open spec fn spec_level(self, p: [u8; 3], channel: u16) -> u16 {
        nibble(self.data[local_index(p)], channel)
    }

    pub fn new() -> (r: LightMap)
        ensures
            r.wf(),
            forall|i: int| 0 <= i < 4096 ==> r.data[i] == 0u16,
    {
        let data: Vec<u16> = vec![0u16; 4096];
        LightMap { data }
    }

    pub fn get(&self, pos: &[u8; 3], channel: u8) -> (r: u8)
        requires
            self.wf(),
            pos[0] < 16,
            pos[1] < 16,
            pos[2] < 16,
            channel <= 3,
        ensures
            r == self.spec_level(*pos, channel as u16),
            r <= 15,
    {
        let idx: usize = (pos[1] as usize) * 256 + (pos[2] as usize) * 16 + (pos[0] as usize);
        let shift: u16 = 4 * (channel as u16);
        let word: u16 = self.data[idx];
        proof {
            lemma_nibble_bound(word, channel as u16);
        }
        ((word >> shift) & 0x0f) as u8
    }

    pub fn get_r(&self, pos: &[u8; 3]) -> (r: u8)
        requires
            self.wf(),
            pos[0] < 16,
            pos[1] < 16,
            pos[2] < 16,
        ensures
            r == self.spec_level(*pos, R_CHANNEL as u16),
            r <= 15,
    {
        self.get(pos, R_CHANNEL)
    }

    pub fn get_g(&self, pos: &[u8; 3]) -> (r: u8)
        requires
            self.wf(),
            pos[0] < 16,
            pos[1] < 16,
            pos[2] < 16,
        ensures
            r == self.spec_level(*pos, G_CHANNEL as u16),
            r <= 15,
    {
        self.get(pos, G_CHANNEL)
    }

    pub fn get_b(&self, pos: &[u8; 3]) -> (r: u8)
        requires
            self.wf(),
            pos[0] < 16,
            pos[1] < 16,
            pos[2] < 16,
        ensures
            r == self.spec_level(*pos, B_CHANNEL as u16),
            r <= 15,
    {
        self.get(pos, B_CHANNEL)
    }

    pub fn get_s(&self, pos: &[u8; 3]) -> (r: u8)
        requires
            self.wf(),
            pos[0] < 16,
            pos[1] < 16,
            pos[2] < 16,
        ensures
            r == self.spec_level(*pos, S_CHANNEL as u16),
            r <= 15,
    {
        self.get(pos, S_CHANNEL)
    }

    /// Writes channel `channel` of the voxel at `pos`; every other channel of
    /// that voxel and every other voxel keep their value.
    pub fn set(&mut self, pos: &[u8; 3], channel: u8, level: u8)
        requires
            old(self).wf(),
            pos[0] < 16,
            pos[1] < 16,
            pos[2] < 16,
            channel <= 3,
            level <= 15,
        ensures
            final(self).wf(),
            final(self).spec_level(*pos, channel as u16) == level,
            forall|q: [u8; 3], c: u16| q[0] < 16 && q[1] < 16 && q[2] < 16 && c <= 3
                && !(q@ == pos@ && c == channel)
                ==> final(self).spec_level(q, c) == old(self).spec_level(q, c),
            forall|i: int| 0 <= i < 4096 && i != local_index(*pos)
                ==> final(self).data[i] == old(self).data[i],
    {
        let idx: usize = (pos[1] as usize) * 256 + (pos[2] as usize) * 16 + (pos[0] as usize);
        let shift: u16 = 4 * (channel as u16);
        let word: u16 = self.data[idx];
        let updated: u16 = (word & !(0x0fu16 << shift)) | ((level as u16) << shift);
        self.data[idx] = updated;
        proof {
            assert(updated == with_nibble(word, channel as u16, level as u16));
            lemma_with_nibble(word, channel as u16, level as u16, 0);
            assert forall|q: [u8; 3], c: u16| q[0] < 16 && q[1] < 16 && q[2] < 16 && c <= 3
                && !(q@ == pos@ && c == channel)
                implies self.spec_level(q, c) == old(self).spec_level(q, c) by {
                if local_index(q) == local_index(*pos) {
                    lemma_local_index_injective(q, *pos);
                    assert(c != channel as u16);
                    lemma_with_nibble(word, channel as u16, level as u16, c);
                }
            }
        }
    }

    pub fn set_r(&mut self, pos: &[u8; 3], level: u8)
        requires
            old(self).wf(),
            pos[0] < 16,
            pos[1] < 16,
            pos[2] < 16,
            level <= 15,
        ensures
            final(self).wf(),
            final(self).spec_level(*pos, R_CHANNEL as u16) == level,
            forall|q: [u8; 3], c: u16| q[0] < 16 && q[1] < 16 && q[2] < 16 && c <= 3
                && !(q@ == pos@ && c == R_CHANNEL)
                ==> final(self).spec_level(q, c) == old(self).spec_level(q, c),
    {
        self.set(pos, R_CHANNEL, level)
    }

    pub fn set_g(&mut self, pos: &[u8; 3], level: u8)
        requires
            old(self).wf(),
            pos[0] < 16,
            pos[1] < 16,
            pos[2] < 16,
            level <= 15,
        ensures
            final(self).wf(),
            final(self).spec_level(*pos, G_CHANNEL as u16) == level,
            forall|q: [u8; 3], c: u16| q[0] < 16 && q[1] < 16 && q[2] < 16 && c <= 3
                && !(q@ == pos@ && c == G_CHANNEL)
                ==> final(self).spec_level(q, c) == old(self).spec_level(q, c),
    {
        self.set(pos, G_CHANNEL, level)
    }

    pub fn set_b(&mut self, pos: &[u8; 3], level: u8)
        requires
            old(self).wf(),
            pos[0] < 16,
            pos[1] < 16,
            pos[2] < 16,
            level <= 15,
        ensures
            final(self).wf(),
            final(self).spec_level(*pos, B_CHANNEL as u16) == level,
            forall|q: [u8; 3], c: u16| q[0] < 16 && q[1] < 16 && q[2] < 16 && c <= 3
                && !(q@ == pos@ && c == B_CHANNEL)
                ==> final(self).spec_level(q, c) == old(self).spec_level(q, c),
    {
        self.set(pos, B_CHANNEL, level)
    }

    pub fn set_s(&mut self, pos: &[u8; 3], level: u8)
        requires
            old(self).wf(),
            pos[0] < 16,
            pos[1] < 16,
            pos[2] < 16,
            level <= 15,
        ensures
            final(self).wf(),
            final(self).spec_level(*pos, S_CHANNEL as u16) == level,
            forall|q: [u8; 3], c: u16| q[0] < 16 && q[1] < 16 && q[2] < 16 && c <= 3
                && !(q@ == pos@ && c == S_CHANNEL)
                ==> final(self).spec_level(q, c) == old(self).spec_level(q, c),
    {
        self.set(pos, S_CHANNEL, level)
    }
}

/// Two local positions with the same flat index are the same position.
pub proof fn lemma_local_index_injective(p: [u8; 3], q: [u8; 3])
    requires
        p[0] < 16,
        p[1] < 16,
        p[2] < 16,
        q[0] < 16,
        q[1] < 16,
        q[2] < 16,
        local_index(p) == local_index(q),
    ensures
        p@ == q@,
{
    assert(p[0] == q[0] && p[1] == q[1] && p[2] == q[2]);
    assert(p@ =~= q@);
}

} // verus!
