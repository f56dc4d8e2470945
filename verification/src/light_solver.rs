//! Incremental flood-fill light propagation, one solver per channel.
//!
//! A solver keeps two FIFO work queues. `add` seeds light to spread, and
//! `remove` seeds light to erase. `solve` first drains the remove queue,
//! clearing every voxel that was lit only through an erased one and handing
//! still-valid neighboring sources to the add queue, and then drains the add
//! queue, flooding light outward with levels falling by exactly one per hop
//! and never entering a full-cube block.

use vstd::prelude::*;
use std::collections::VecDeque;
use crate::catalog::BlockCatalog;
use crate::world::{World, pos_of};

verus! {

/// One queued work item: a position and the light level to process it at.
#[derive(Clone, Copy)]
pub struct LightEntry {
    pub pos: [u8; 3],
    pub light_level: u8,
}

impl LightEntry {
    pub fn new(pos: &[u8; 3], light_level: u8) -> (r: LightEntry)
        ensures
            r.pos == *pos,
            r.light_level == light_level,
    {
        LightEntry { pos: *pos, light_level }
    }
}

/// Sixteen to the power of a light level; the weight of one queue entry in
/// the termination measure of `solve`.
pub open spec fn pow16(l: nat) -> nat
    decreases l,
{
    if l == 0 {
        1
    } else {
        16 * pow16((l - 1) as nat)
    }
}

/// Termination measure of a work queue: processing an entry of level `l`
/// enqueues at most six entries of level `l - 1`, so the total weight
/// strictly falls.
pub open spec fn queue_pot(s: Seq<LightEntry>) -> nat
    decreases s.len(),
{
    if s.len() == 0 {
        0
    } else {
        pow16(s[0].light_level as nat) + queue_pot(s.drop_first())
    }
}

pub proof fn lemma_pow16_pos(l: nat)
    ensures
        pow16(l) >= 1,
    decreases l,
{
    if l > 0 {
        lemma_pow16_pos((l - 1) as nat);
    }
}

pub proof fn lemma_queue_pot_push(s: Seq<LightEntry>, e: LightEntry)
    ensures
        queue_pot(s.push(e)) == queue_pot(s) + pow16(e.light_level as nat),
    decreases s.len(),
{
    if s.len() == 0 {
        assert(s.push(e)[0] == e);
        assert(s.push(e).drop_first() =~= Seq::<LightEntry>::empty());
        assert(queue_pot(s.push(e)) == pow16(e.light_level as nat)
            + queue_pot(s.push(e).drop_first()));
    } else {
        assert(s.push(e)[0] == s[0]);
        assert(s.push(e).drop_first() =~= s.drop_first().push(e));
        lemma_queue_pot_push(s.drop_first(), e);
        assert(queue_pot(s.push(e)) == pow16(s[0].light_level as nat)
            + queue_pot(s.push(e).drop_first()));
        assert(queue_pot(s) == pow16(s[0].light_level as nat) + queue_pot(s.drop_first()));
    }
}


/// Every existing axis neighbor of `p` that is not a full cube carries at
/// least level `l` of channel `ch`.
pub open spec fn neighbors_at_least(
    w: World,
    catalog: BlockCatalog,
    p: [u8; 3],
    l: int,
    ch: u16,
) -> bool {
    &&& (p[2] as int - 1 >= 0 && !catalog.spec_is_cube(
        w.spec_block_xyz(p[0] as int, p[1] as int, p[2] as int - 1),
    ) ==> w.spec_light_xyz(p[0] as int, p[1] as int, p[2] as int - 1, ch) >= l)
    &&& (p[2] as int + 1 <= 255 && !catalog.spec_is_cube(
        w.spec_block_xyz(p[0] as int, p[1] as int, p[2] as int + 1),
    ) ==> w.spec_light_xyz(p[0] as int, p[1] as int, p[2] as int + 1, ch) >= l)
    &&& (p[1] as int - 1 >= 0 && !catalog.spec_is_cube(
        w.spec_block_xyz(p[0] as int, p[1] as int - 1, p[2] as int),
    ) ==> w.spec_light_xyz(p[0] as int, p[1] as int - 1, p[2] as int, ch) >= l)
    &&& (p[1] as int + 1 <= 255 && !catalog.spec_is_cube(
        w.spec_block_xyz(p[0] as int, p[1] as int + 1, p[2] as int),
    ) ==> w.spec_light_xyz(p[0] as int, p[1] as int + 1, p[2] as int, ch) >= l)
    &&& (p[0] as int - 1 >= 0 && !catalog.spec_is_cube(
        w.spec_block_xyz(p[0] as int - 1, p[1] as int, p[2] as int),
    ) ==> w.spec_light_xyz(p[0] as int - 1, p[1] as int, p[2] as int, ch) >= l)
    &&& (p[0] as int + 1 <= 255 && !catalog.spec_is_cube(
        w.spec_block_xyz(p[0] as int + 1, p[1] as int, p[2] as int),
    ) ==> w.spec_light_xyz(p[0] as int + 1, p[1] as int, p[2] as int, ch) >= l)
}

/// Raising light levels and keeping blocks preserves a lower bound on a
/// position's neighbors.
proof fn lemma_neighbors_at_least_monotone(
    a: World,
    b: World,
    catalog: BlockCatalog,
    p: [u8; 3],
    l: int,
    ch: u16,
)
    requires
        neighbors_at_least(a, catalog, p, l, ch),
        forall|q: [u8; 3]| #![trigger b.spec_light(q, ch)]
            b.spec_light(q, ch) >= a.spec_light(q, ch),
        forall|q: [u8; 3]| a.spec_block(q) == b.spec_block(q),
    ensures
        neighbors_at_least(b, catalog, p, l, ch),
{
    let x = p[0] as int;
    let y = p[1] as int;
    let z = p[2] as int;
    if z - 1 >= 0 {
        assert(b.spec_light(pos_of(x, y, z - 1), ch) >= a.spec_light(pos_of(x, y, z - 1), ch));
        assert(a.spec_block(pos_of(x, y, z - 1)) == b.spec_block(pos_of(x, y, z - 1)));
    }
    if z + 1 <= 255 {
        assert(b.spec_light(pos_of(x, y, z + 1), ch) >= a.spec_light(pos_of(x, y, z + 1), ch));
        assert(a.spec_block(pos_of(x, y, z + 1)) == b.spec_block(pos_of(x, y, z + 1)));
    }
    if y - 1 >= 0 {
        assert(b.spec_light(pos_of(x, y - 1, z), ch) >= a.spec_light(pos_of(x, y - 1, z), ch));
        assert(a.spec_block(pos_of(x, y - 1, z)) == b.spec_block(pos_of(x, y - 1, z)));
    }
    if y + 1 <= 255 {
        assert(b.spec_light(pos_of(x, y + 1, z), ch) >= a.spec_light(pos_of(x, y + 1, z), ch));
        assert(a.spec_block(pos_of(x, y + 1, z)) == b.spec_block(pos_of(x, y + 1, z)));
    }
    if x - 1 >= 0 {
        assert(b.spec_light(pos_of(x - 1, y, z), ch) >= a.spec_light(pos_of(x - 1, y, z), ch));
        assert(a.spec_block(pos_of(x - 1, y, z)) == b.spec_block(pos_of(x - 1, y, z)));
    }
    if x + 1 <= 255 {
        assert(b.spec_light(pos_of(x + 1, y, z), ch) >= a.spec_light(pos_of(x + 1, y, z), ch));
        assert(a.spec_block(pos_of(x + 1, y, z)) == b.spec_block(pos_of(x + 1, y, z)));
    }
}

/// Bridge of a light lower bound to explicit coordinates.
proof fn lemma_light_ge_at(a: World, b: World, ch: u16, x: int, y: int, z: int)
    requires
        0 <= x < 256,
        0 <= y < 256,
        0 <= z < 256,
        forall|q: [u8; 3]| #![trigger b.spec_light(q, ch)]
            b.spec_light(q, ch) >= a.spec_light(q, ch),
    ensures
        b.spec_light_xyz(x, y, z, ch) >= a.spec_light_xyz(x, y, z, ch),
{
    assert(b.spec_light(pos_of(x, y, z), ch) >= a.spec_light(pos_of(x, y, z), ch));
}

/// Bridge of block agreement to explicit coordinates.
proof fn lemma_block_eq_at(a: World, b: World, x: int, y: int, z: int)
    requires
        0 <= x < 256,
        0 <= y < 256,
        0 <= z < 256,
        forall|q: [u8; 3]| a.spec_block(q) == b.spec_block(q),
    ensures
        a.spec_block_xyz(x, y, z) == b.spec_block_xyz(x, y, z),
{
    assert(a.spec_block(pos_of(x, y, z)) == b.spec_block(pos_of(x, y, z)));
}

/// A prefix of a prefix is a prefix.
proof fn lemma_prefix_trans(s1: Seq<LightEntry>, s2: Seq<LightEntry>, s3: Seq<LightEntry>)
    requires
        s1.is_prefix_of(s2),
        s2.is_prefix_of(s3),
    ensures
        s1.is_prefix_of(s3),
{
    assert forall|i: int| 0 <= i < s1.len()
        implies s1[i] == s3.subrange(0, s1.len() as int)[i] by {
        assert(s1[i] == s2.subrange(0, s1.len() as int)[i]);
        assert(s2[i] == s3.subrange(0, s2.len() as int)[i]);
    }
    assert(s1 =~= s3.subrange(0, s1.len() as int));
}

/// An entry of a prefix stands unchanged in the longer queue.
proof fn lemma_prefix_index(s1: Seq<LightEntry>, s2: Seq<LightEntry>, i: int)
    requires
        s1.is_prefix_of(s2),
        0 <= i < s1.len(),
    ensures
        s2[i] == s1[i],
{
    assert(s1[i] == s2.subrange(0, s1.len() as int)[i]);
}

/// Convergence of one channel: every position's existing non-full-cube
/// neighbors are at most one level darker than it.
pub open spec fn channel_settled(w: World, catalog: BlockCatalog, ch: u16) -> bool {
    forall|x: int, y: int, z: int| #![trigger w.spec_light_xyz(x, y, z, ch)]
        0 <= x < 256 && 0 <= y < 256 && 0 <= z < 256 ==> neighbors_at_least(
            w,
            catalog,
            pos_of(x, y, z),
            w.spec_light_xyz(x, y, z, ch) - 1,
            ch,
        )
}

/// Convergence of one channel up to a work queue: every position either has
/// its neighbors within one level already, or sits in the queue at its own
/// stored level, still waiting to spread.
pub open spec fn settled_except_queue(
    w: World,
    catalog: BlockCatalog,
    q: Seq<LightEntry>,
    ch: u16,
) -> bool {
    forall|x: int, y: int, z: int| #![trigger w.spec_light_xyz(x, y, z, ch)]
        0 <= x < 256 && 0 <= y < 256 && 0 <= z < 256 ==> (neighbors_at_least(
            w,
            catalog,
            pos_of(x, y, z),
            w.spec_light_xyz(x, y, z, ch) - 1,
            ch,
        ) || exists|i: int| #![trigger q[i]] 0 <= i < q.len()
            && q[i].pos[0] == x && q[i].pos[1] == y && q[i].pos[2] == z
            && q[i].light_level == w.spec_light_xyz(x, y, z, ch))
}

/// One light solver: the channel it owns and its two work queues.
pub struct LightSolver {
    pub channel: u8,
    pub add_queue: VecDeque<LightEntry>,
    pub rem_queue: VecDeque<LightEntry>,
}

impl LightSolver {
    /// The channel is one of the four, erase entries carry the nonzero level
    /// that was erased, and every queued level fits in 4 bits.
    pub open spec fn wf(self) -> bool {
        &&& self.channel <= 3
        &&& forall|i: int| #![trigger self.rem_queue@[i]] 0 <= i < self.rem_queue@.len()
            ==> 1 <= self.rem_queue@[i].light_level <= 15
        &&& forall|i: int| #![trigger self.add_queue@[i]] 0 <= i < self.add_queue@.len()
            ==> self.add_queue@[i].light_level <= 15
    }

    pub fn new(channel: u8) -> (r: LightSolver)
        requires
            channel <= 3,
        ensures
            r.wf(),
            r.channel == channel,
            r.add_queue@ =~= Seq::<LightEntry>::empty(),
            r.rem_queue@ =~= Seq::<LightEntry>::empty(),
    {
        LightSolver { channel, add_queue: VecDeque::new(), rem_queue: VecDeque::new() }
    }

    /// The neighbor of `pos` shifted by `offset`, or `None` when the shift
    /// leaves the world's 0..=255 bound on some axis.
    pub fn get_neighbor_pos(pos: &[u8; 3], offset: &[i8; 3]) -> (r: Option<[u8; 3]>)
        ensures
            r is Some <==> (0 <= pos[0] + offset[0] <= 255 && 0 <= pos[1] + offset[1] <= 255
                && 0 <= pos[2] + offset[2] <= 255),
            r matches Some(n) ==> n[0] == pos[0] + offset[0] && n[1] == pos[1] + offset[1]
                && n[2] == pos[2] + offset[2],
    {
        let sx: i16 = (pos[0] as i16) + (offset[0] as i16);
        let sy: i16 = (pos[1] as i16) + (offset[1] as i16);
        let sz: i16 = (pos[2] as i16) + (offset[2] as i16);
        if sx >= 0x00 && sx <= 0xff && sy >= 0x00 && sy <= 0xff && sz >= 0x00 && sz <= 0xff {
            Some([sx as u8, sy as u8, sz as u8])
        } else {
            None
        }
    }

    /// Seeds light: writes `emission` into this solver's channel at `pos`
    /// and queues the position for spreading. Levels of 1 or 0 cannot
    /// spread, so they change nothing at all.
    pub fn add(&mut self, world: &mut World, pos: &[u8; 3], emission: u8)
        requires
            old(self).wf(),
            old(world).wf(),
            emission <= 15,
        ensures
            final(self).wf(),
            final(world).wf(),
            final(self).channel == old(self).channel,
            final(self).rem_queue@ == old(self).rem_queue@,
            emission <= 1 ==> *final(world) == *old(world) && *final(self) == *old(self),
            emission > 1 ==> {
                &&& final(self).add_queue@ == old(self).add_queue@.push(
                    LightEntry { pos: *pos, light_level: emission },
                )
                &&& final(world).spec_light(*pos, old(self).channel as u16) == emission
                &&& forall|q: [u8; 3], c: u16| c <= 3 && !(q@ == pos@ && c == old(self).channel)
                    ==> final(world).spec_light(q, c) == old(world).spec_light(q, c)
                &&& forall|q: [u8; 3]| final(world).spec_block(q) == old(world).spec_block(q)
                &&& forall|ci: int| 0 <= ci < 4096 ==> final(world).spec_dirty(ci)
                    == (old(world).spec_dirty(ci) || ci == crate::world::sub_index(*pos))
            },
    {
        if emission <= 1 {
            return;
        }
        let entry = LightEntry::new(pos, emission);
        self.add_queue.push_back(entry);
        world.set_light_level(pos, self.channel, emission);
    }

    /// Re-seeds spreading from a position whose stored level is kept as it
    /// is: queues the position at its current level (when that level can
    /// spread) without changing any light value.
    pub fn add_last(&mut self, world: &mut World, pos: &[u8; 3])
        requires
            old(self).wf(),
            old(world).wf(),
        ensures
            final(self).wf(),
            final(world).wf(),
            final(self).channel == old(self).channel,
            final(self).rem_queue@ == old(self).rem_queue@,
            forall|q: [u8; 3], c: u16| c <= 3
                ==> final(world).spec_light(q, c) == old(world).spec_light(q, c),
            forall|q: [u8; 3]| final(world).spec_block(q) == old(world).spec_block(q),
            old(world).spec_light(*pos, old(self).channel as u16) <= 1
                ==> *final(world) == *old(world) && *final(self) == *old(self),
            old(world).spec_light(*pos, old(self).channel as u16) > 1 ==> {
                &&& final(self).add_queue@ == old(self).add_queue@.push(
                    LightEntry {
                        pos: *pos,
                        light_level: old(world).spec_light(*pos, old(self).channel as u16) as u8,
                    },
                )
                &&& forall|ci: int| 0 <= ci < 4096 ==> final(world).spec_dirty(ci)
                    == (old(world).spec_dirty(ci) || ci == crate::world::sub_index(*pos))
            },
    {
        let level: u8 = world.get_light_level(pos, self.channel);
        self.add(world, pos, level);
    }

    /// Seeds darkness: zeroes this solver's channel at `pos` and queues the
    /// erased level for de-propagation. A position already at zero changes
    /// nothing at all.
    pub fn remove(&mut self, world: &mut World, pos: &[u8; 3])
        requires
            old(self).wf(),
            old(world).wf(),
        ensures
            final(self).wf(),
            final(world).wf(),
            final(self).channel == old(self).channel,
            final(self).add_queue@ == old(self).add_queue@,
            old(world).spec_light(*pos, old(self).channel as u16) == 0
                ==> *final(world) == *old(world) && *final(self) == *old(self),
            old(world).spec_light(*pos, old(self).channel as u16) > 0 ==> {
                &&& final(self).rem_queue@ == old(self).rem_queue@.push(
                    LightEntry {
                        pos: *pos,
                        light_level: old(world).spec_light(*pos, old(self).channel as u16) as u8,
                    },
                )
                &&& final(world).spec_light(*pos, old(self).channel as u16) == 0
                &&& forall|q: [u8; 3], c: u16| c <= 3 && !(q@ == pos@ && c == old(self).channel)
                    ==> final(world).spec_light(q, c) == old(world).spec_light(q, c)
                &&& forall|q: [u8; 3]| final(world).spec_block(q) == old(world).spec_block(q)
                &&& forall|ci: int| 0 <= ci < 4096 ==> final(world).spec_dirty(ci)
                    == (old(world).spec_dirty(ci) || ci == crate::world::sub_index(*pos))
            },
    {
        let light_level: u8 = world.get_light_level(pos, self.channel);
        if light_level == 0 {
            return;
        }
        let entry = LightEntry::new(pos, light_level);
        self.rem_queue.push_back(entry);
        world.set_light_level(pos, self.channel, 0);
    }

    /// One de-propagation step toward one neighbor: a neighbor lit at
    /// exactly one below the erased level was lit only through the erased
    /// voxel, so it is zeroed and queued for further erasing; a neighbor at
    /// or above the erased level is an independent source and is handed to
    /// the add queue to re-flood the darkened region.
    fn rem_step(&mut self, world: &mut World, pos: &[u8; 3], level: u8, offset: &[i8; 3])
        requires
            old(self).wf(),
            old(world).wf(),
            1 <= level <= 15,
        ensures
            final(self).wf(),
            final(world).wf(),
            final(self).channel == old(self).channel,
            queue_pot(final(self).rem_queue@) <= queue_pot(old(self).rem_queue@)
                + pow16((level - 1) as nat),
            forall|q: [u8; 3], c: u16| c <= 3 && c != old(self).channel
                ==> final(world).spec_light(q, c) == old(world).spec_light(q, c),
            forall|q: [u8; 3]| #![trigger final(world).spec_light(q, old(self).channel as u16)]
                final(world).spec_light(q, old(self).channel as u16)
                    <= old(world).spec_light(q, old(self).channel as u16),
            forall|q: [u8; 3]| final(world).spec_block(q) == old(world).spec_block(q),
            forall|ci: int| 0 <= ci < 4096 && old(world).spec_dirty(ci)
                ==> final(world).spec_dirty(ci),
            ({
                let nx = pos[0] as int + offset[0] as int;
                let ny = pos[1] as int + offset[1] as int;
                let nz = pos[2] as int + offset[2] as int;
                let inb = 0 <= nx <= 255 && 0 <= ny <= 255 && 0 <= nz <= 255;
                let nl = old(world).spec_light_xyz(nx, ny, nz, old(self).channel as u16);
                &&& (!inb ==> *final(world) == *old(world)
                    && final(self).rem_queue@ == old(self).rem_queue@
                    && final(self).add_queue@ == old(self).add_queue@)
                &&& ((inb && nl != 0 && nl == level - 1) ==> {
                    // the neighbor was lit only through the erased voxel: it
                    // is zeroed and queued for further erasing
                    &&& final(self).add_queue@ == old(self).add_queue@
                    &&& old(self).rem_queue@.is_prefix_of(final(self).rem_queue@)
                    &&& final(self).rem_queue@.len() == old(self).rem_queue@.len() + 1
                    &&& final(self).rem_queue@.last().pos[0] == nx
                    &&& final(self).rem_queue@.last().pos[1] == ny
                    &&& final(self).rem_queue@.last().pos[2] == nz
                    &&& final(self).rem_queue@.last().light_level == nl
                    &&& final(world).spec_light_xyz(nx, ny, nz, old(self).channel as u16) == 0
                })
                &&& ((inb && !(nl != 0 && nl == level - 1) && nl >= level) ==> {
                    // a neighbor at or above the erased level (not strictly
                    // above) is an independent source: it is queued at its
                    // own level to re-flood the darkened region
                    &&& *final(world) == *old(world)
                    &&& final(self).rem_queue@ == old(self).rem_queue@
                    &&& old(self).add_queue@.is_prefix_of(final(self).add_queue@)
                    &&& final(self).add_queue@.len() == old(self).add_queue@.len() + 1
                    &&& final(self).add_queue@.last().pos[0] == nx
                    &&& final(self).add_queue@.last().pos[1] == ny
                    &&& final(self).add_queue@.last().pos[2] == nz
                    &&& final(self).add_queue@.last().light_level == nl
                })
                &&& ((inb && !(nl != 0 && nl == level - 1) && nl < level)
                    ==> *final(world) == *old(world)
                        && final(self).rem_queue@ == old(self).rem_queue@
                        && final(self).add_queue@ == old(self).add_queue@)
            }),
    {
        let ghost ch = self.channel as u16;
        match Self::get_neighbor_pos(pos, offset) {
            None => {
                proof {
                    assert(queue_pot(self.rem_queue@) <= queue_pot(old(self).rem_queue@)
                        + pow16((level - 1) as nat)) by {
                        lemma_pow16_pos((level - 1) as nat);
                    }
                }
            },
            Some(neigh_pos) => {
                let light_level: u8 = world.get_light_level(&neigh_pos, self.channel);
                let neigh_entry = LightEntry::new(&neigh_pos, light_level);
                if light_level != 0 && light_level == level - 1 {
                    self.rem_queue.push_back(neigh_entry);
                    world.set_light_level(&neigh_pos, self.channel, 0);
                    proof {
                        lemma_queue_pot_push(old(self).rem_queue@, neigh_entry);
                    }
                } else if light_level >= level {
                    self.add_queue.push_back(neigh_entry);
                    proof {
                        lemma_pow16_pos((level - 1) as nat);
                    }
                } else {
                    proof {
                        lemma_pow16_pos((level - 1) as nat);
                    }
                }
            },
        }
    }

    /// One re-propagation step toward one neighbor: light enters a neighbor
    /// that is not a full cube and is more than one level darker, setting it
    /// to one below the spreading level and queueing it to spread on.
    fn add_step(
        &mut self,
        world: &mut World,
        catalog: &BlockCatalog,
        pos: &[u8; 3],
        level: u8,
        offset: &[i8; 3],
    )
        requires
            old(self).wf(),
            old(world).wf(),
            catalog.wf(),
            2 <= level <= 15,
        ensures
            final(self).wf(),
            final(world).wf(),
            final(self).channel == old(self).channel,
            final(self).rem_queue@ == old(self).rem_queue@,
            old(self).add_queue@.is_prefix_of(final(self).add_queue@),
            queue_pot(final(self).add_queue@) <= queue_pot(old(self).add_queue@)
                + pow16((level - 1) as nat),
            forall|q: [u8; 3], c: u16| c <= 3 && c != old(self).channel
                ==> final(world).spec_light(q, c) == old(world).spec_light(q, c),
            forall|q: [u8; 3]| catalog.spec_is_cube(old(world).spec_block(q))
                ==> final(world).spec_light(q, old(self).channel as u16)
                    == old(world).spec_light(q, old(self).channel as u16),
            forall|q: [u8; 3]| #![trigger final(world).spec_light(q, old(self).channel as u16)]
                final(world).spec_light(q, old(self).channel as u16)
                    >= old(world).spec_light(q, old(self).channel as u16),
            forall|q: [u8; 3]| final(world).spec_block(q) == old(world).spec_block(q),
            forall|ci: int| 0 <= ci < 4096 && old(world).spec_dirty(ci)
                ==> final(world).spec_dirty(ci),
            ({
                let nx = pos[0] as int + offset[0] as int;
                let ny = pos[1] as int + offset[1] as int;
                let nz = pos[2] as int + offset[2] as int;
                (0 <= nx <= 255 && 0 <= ny <= 255 && 0 <= nz <= 255
                    && !catalog.spec_is_cube(old(world).spec_block_xyz(nx, ny, nz)))
                    ==> final(world).spec_light_xyz(nx, ny, nz, old(self).channel as u16)
                        >= level - 1
            }),
            forall|q: [u8; 3]| #![trigger final(world).spec_light(q, old(self).channel as u16)]
                final(world).spec_light(q, old(self).channel as u16)
                    != old(world).spec_light(q, old(self).channel as u16)
                ==> (final(world).spec_light(q, old(self).channel as u16) == level - 1
                    && exists|j: int| #![trigger final(self).add_queue@[j]]
                        0 <= j < final(self).add_queue@.len()
                        && final(self).add_queue@[j].pos@ == q@
                        && final(self).add_queue@[j].light_level == level - 1),
    {
        match Self::get_neighbor_pos(pos, offset) {
            None => {
                proof {
                    lemma_pow16_pos((level - 1) as nat);
                }
            },
            Some(neigh_pos) => {
                let light_level: u8 = world.get_light_level(&neigh_pos, self.channel);
                let block_lid: u16 = world.get_block(&neigh_pos);
                if !catalog.is_cube(block_lid) && level > light_level + 1 {
                    world.set_light_level(&neigh_pos, self.channel, level - 1);
                    let neigh_entry = LightEntry::new(&neigh_pos, level - 1);
                    self.add_queue.push_back(neigh_entry);
                    proof {
                        lemma_queue_pot_push(old(self).add_queue@, neigh_entry);
                        let ghost ch2 = old(self).channel as u16;
                        let ghost jlast = self.add_queue@.len() - 1;
                        assert forall|q: [u8; 3]| #![trigger world.spec_light(q, ch2)]
                            world.spec_light(q, ch2) != old(world).spec_light(q, ch2)
                            implies (world.spec_light(q, ch2) == level - 1
                                && exists|j: int| #![trigger self.add_queue@[j]]
                                    0 <= j < self.add_queue@.len()
                                    && self.add_queue@[j].pos@ == q@
                                    && self.add_queue@[j].light_level == level - 1) by {
                            assert(q@ == neigh_pos@);
                            assert(self.add_queue@[jlast].pos@ == q@
                                && self.add_queue@[jlast].light_level == level - 1);
                        }
                    }
                } else {
                    proof {
                        lemma_pow16_pos((level - 1) as nat);
                    }
                }
            },
        }
    }

    /// Drains both queues to convergence: the full de-propagation pass runs
    /// first, then the re-propagation pass. Only this solver's channel is
    /// touched, no block changes, dirty flags are only ever set, light never
    /// rises on a voxel whose block is a full cube, and with both queues
    /// empty the call changes nothing at all. When no erasing is pending,
    /// light also never falls, every queued seed ends with its existing
    /// non-full-cube neighbors at most one level below it, and a world that
    /// was converged up to the queued seeds comes out converged everywhere:
    /// no voxel exceeds an existing non-full-cube neighbor by more than one
    /// level.
    #[verifier::loop_isolation(false)]
    #[verifier::spinoff_prover]
    #[verifier::rlimit(100)]
    pub fn solve(&mut self, world: &mut World, catalog: &BlockCatalog)
        requires
            old(self).wf(),
            old(world).wf(),
            catalog.wf(),
        ensures
            final(self).wf(),
            final(world).wf(),
            final(self).channel == old(self).channel,
            final(self).add_queue@.len() == 0,
            final(self).rem_queue@.len() == 0,
            forall|q: [u8; 3], c: u16| c <= 3 && c != old(self).channel
                ==> final(world).spec_light(q, c) == old(world).spec_light(q, c),
            forall|q: [u8; 3]| final(world).spec_block(q) == old(world).spec_block(q),
            forall|ci: int| 0 <= ci < 4096 && old(world).spec_dirty(ci)
                ==> final(world).spec_dirty(ci),
            forall|q: [u8; 3]| catalog.spec_is_cube(old(world).spec_block(q))
                ==> final(world).spec_light(q, old(self).channel as u16)
                    <= old(world).spec_light(q, old(self).channel as u16),
            old(self).rem_queue@.len() == 0
                ==> forall|q: [u8; 3]|
                    #![trigger final(world).spec_light(q, old(self).channel as u16)]
                    final(world).spec_light(q, old(self).channel as u16)
                        >= old(world).spec_light(q, old(self).channel as u16),
            old(self).rem_queue@.len() == 0 ==> forall|i: int|
                #![trigger old(self).add_queue@[i]]
                0 <= i < old(self).add_queue@.len() && old(self).add_queue@[i].light_level >= 2
                ==> neighbors_at_least(
                    *final(world),
                    *catalog,
                    old(self).add_queue@[i].pos,
                    old(self).add_queue@[i].light_level - 1,
                    old(self).channel as u16,
                ),
            (old(self).rem_queue@.len() == 0 && settled_except_queue(
                *old(world),
                *catalog,
                old(self).add_queue@,
                old(self).channel as u16,
            )) ==> channel_settled(*final(world), *catalog, old(self).channel as u16),
            old(self).add_queue@.len() == 0 && old(self).rem_queue@.len() == 0
                ==> *final(world) == *old(world) && *final(self) == *old(self),
    {
        let ghost ch = old(self).channel as u16;
        while self.rem_queue.len() != 0
            invariant
                self.wf(),
                world.wf(),
                self.channel == old(self).channel,
                forall|q: [u8; 3], c: u16| c <= 3 && c != old(self).channel
                    ==> world.spec_light(q, c) == old(world).spec_light(q, c),
                forall|q: [u8; 3]| world.spec_light(q, ch) <= old(world).spec_light(q, ch),
                forall|q: [u8; 3]| world.spec_block(q) == old(world).spec_block(q),
                forall|ci: int| 0 <= ci < 4096 && old(world).spec_dirty(ci)
                    ==> world.spec_dirty(ci),
                (old(self).add_queue@.len() == 0 && old(self).rem_queue@.len() == 0)
                    ==> (*self == *old(self) && *world == *old(world)),
                old(self).rem_queue@.len() == 0
                    ==> (*world == *old(world) && self.rem_queue@.len() == 0
                        && self.add_queue@ == old(self).add_queue@),
            decreases queue_pot(self.rem_queue@),
        {
            let ghost pot0 = queue_pot(self.rem_queue@);
            if let Some(entry) = self.rem_queue.pop_front() {
                let ghost rest = self.rem_queue@;
                proof {
                    assert(1 <= entry.light_level <= 15);
                    assert(pot0 == pow16(entry.light_level as nat) + queue_pot(rest));
                }
                let level: u8 = entry.light_level;
                self.rem_step(world, &entry.pos, level, &[0, 0, -1]);
                self.rem_step(world, &entry.pos, level, &[0, 0, 1]);
                self.rem_step(world, &entry.pos, level, &[0, -1, 0]);
                self.rem_step(world, &entry.pos, level, &[0, 1, 0]);
                self.rem_step(world, &entry.pos, level, &[-1, 0, 0]);
                self.rem_step(world, &entry.pos, level, &[1, 0, 0]);
                proof {
                    assert(queue_pot(self.rem_queue@) <= queue_pot(rest)
                        + 6 * pow16((level - 1) as nat));
                    assert(pow16(level as nat) == 16 * pow16((level - 1) as nat));
                    assert(queue_pot(self.rem_queue@) < pot0) by {
                        lemma_pow16_pos((level - 1) as nat);
                    }
                }
            }
        }
        proof {
            if old(self).rem_queue@.len() == 0 {
                assert forall|i: int|
                    0 <= i < old(self).add_queue@.len()
                    && old(self).add_queue@[i].light_level >= 2
                    implies exists|j: int| #![trigger self.add_queue@[j]]
                        0 <= j < self.add_queue@.len()
                        && self.add_queue@[j] == old(self).add_queue@[i] by {
                    assert(self.add_queue@[i] == old(self).add_queue@[i]);
                }
            }
        }
        while self.add_queue.len() != 0
            invariant
                self.wf(),
                world.wf(),
                self.channel == old(self).channel,
                self.rem_queue@.len() == 0,
                forall|q: [u8; 3], c: u16| c <= 3 && c != old(self).channel
                    ==> world.spec_light(q, c) == old(world).spec_light(q, c),
                forall|q: [u8; 3]| catalog.spec_is_cube(old(world).spec_block(q))
                    ==> world.spec_light(q, ch) <= old(world).spec_light(q, ch),
                forall|q: [u8; 3]| world.spec_block(q) == old(world).spec_block(q),
                forall|ci: int| 0 <= ci < 4096 && old(world).spec_dirty(ci)
                    ==> world.spec_dirty(ci),
                (old(self).add_queue@.len() == 0 && old(self).rem_queue@.len() == 0)
                    ==> (*self == *old(self) && *world == *old(world)),
                old(self).rem_queue@.len() == 0 ==> forall|q: [u8; 3]|
                    #![trigger world.spec_light(q, ch)]
                    world.spec_light(q, ch) >= old(world).spec_light(q, ch),
                old(self).rem_queue@.len() == 0 ==> forall|i: int|
                    #![trigger old(self).add_queue@[i]]
                    0 <= i < old(self).add_queue@.len()
                    && old(self).add_queue@[i].light_level >= 2
                    ==> ((exists|j: int| #![trigger self.add_queue@[j]]
                        0 <= j < self.add_queue@.len()
                        && self.add_queue@[j] == old(self).add_queue@[i])
                        || neighbors_at_least(
                            *world,
                            *catalog,
                            old(self).add_queue@[i].pos,
                            old(self).add_queue@[i].light_level - 1,
                            ch,
                        )),
                (old(self).rem_queue@.len() == 0 && settled_except_queue(
                    *old(world),
                    *catalog,
                    old(self).add_queue@,
                    ch,
                )) ==> settled_except_queue(*world, *catalog, self.add_queue@, ch),
            decreases queue_pot(self.add_queue@),
        {
            let ghost pot0 = queue_pot(self.add_queue@);
            let ghost qpre = self.add_queue@;
            let ghost wpre = *world;
            if let Some(entry) = self.add_queue.pop_front() {
                let ghost rest = self.add_queue@;
                proof {
                    assert(entry.light_level <= 15);
                    assert(pot0 == pow16(entry.light_level as nat) + queue_pot(rest));
                    lemma_pow16_pos(entry.light_level as nat);
                }
                if entry.light_level > 1 {
                    let level: u8 = entry.light_level;
                    let ghost g0 = *world;
                    self.add_step(world, catalog, &entry.pos, level, &[0, 0, -1]);
                    let ghost g1 = *world;
                    let ghost a1 = self.add_queue@;
                    self.add_step(world, catalog, &entry.pos, level, &[0, 0, 1]);
                    let ghost g2 = *world;
                    let ghost a2 = self.add_queue@;
                    self.add_step(world, catalog, &entry.pos, level, &[0, -1, 0]);
                    let ghost g3 = *world;
                    let ghost a3 = self.add_queue@;
                    self.add_step(world, catalog, &entry.pos, level, &[0, 1, 0]);
                    let ghost g4 = *world;
                    let ghost a4 = self.add_queue@;
                    self.add_step(world, catalog, &entry.pos, level, &[-1, 0, 0]);
                    let ghost g5 = *world;
                    let ghost a5 = self.add_queue@;
                    self.add_step(world, catalog, &entry.pos, level, &[1, 0, 0]);
                    proof {
                        assert(queue_pot(self.add_queue@) <= queue_pot(rest)
                            + 6 * pow16((level - 1) as nat));
                        assert(pow16(level as nat) == 16 * pow16((level - 1) as nat));
                        assert(queue_pot(self.add_queue@) < pot0) by {
                            lemma_pow16_pos((level - 1) as nat);
                        }
                        assert(neighbors_at_least(*world, *catalog, entry.pos, level - 1, ch)) by {
                            let x = entry.pos[0] as int;
                            let y = entry.pos[1] as int;
                            let z = entry.pos[2] as int;
                            if z - 1 >= 0 && !catalog.spec_is_cube(
                                world.spec_block_xyz(x, y, z - 1),
                            ) {
                                assert forall|q: [u8; 3]|
                                    g0.spec_block(q) == world.spec_block(q) by {}
                                lemma_block_eq_at(g0, *world, x, y, z - 1);
                                assert(!catalog.spec_is_cube(g0.spec_block_xyz(x, y, z - 1)));
                                assert(g1.spec_light_xyz(x, y, z - 1, ch) >= level - 1);
                                assert forall|q: [u8; 3]| #![trigger world.spec_light(q, ch)]
                                    world.spec_light(q, ch) >= g1.spec_light(q, ch) by {}
                                lemma_light_ge_at(g1, *world, ch, x, y, z - 1);
                            }
                            if z + 1 <= 255 && !catalog.spec_is_cube(
                                world.spec_block_xyz(x, y, z + 1),
                            ) {
                                assert forall|q: [u8; 3]|
                                    g1.spec_block(q) == world.spec_block(q) by {}
                                lemma_block_eq_at(g1, *world, x, y, z + 1);
                                assert(!catalog.spec_is_cube(g1.spec_block_xyz(x, y, z + 1)));
                                assert(g2.spec_light_xyz(x, y, z + 1, ch) >= level - 1);
                                assert forall|q: [u8; 3]| #![trigger world.spec_light(q, ch)]
                                    world.spec_light(q, ch) >= g2.spec_light(q, ch) by {}
                                lemma_light_ge_at(g2, *world, ch, x, y, z + 1);
                            }
                            if y - 1 >= 0 && !catalog.spec_is_cube(
                                world.spec_block_xyz(x, y - 1, z),
                            ) {
                                assert forall|q: [u8; 3]|
                                    g2.spec_block(q) == world.spec_block(q) by {}
                                lemma_block_eq_at(g2, *world, x, y - 1, z);
                                assert(!catalog.spec_is_cube(g2.spec_block_xyz(x, y - 1, z)));
                                assert(g3.spec_light_xyz(x, y - 1, z, ch) >= level - 1);
                                assert forall|q: [u8; 3]| #![trigger world.spec_light(q, ch)]
                                    world.spec_light(q, ch) >= g3.spec_light(q, ch) by {}
                                lemma_light_ge_at(g3, *world, ch, x, y - 1, z);
                            }
                            if y + 1 <= 255 && !catalog.spec_is_cube(
                                world.spec_block_xyz(x, y + 1, z),
                            ) {
                                assert forall|q: [u8; 3]|
                                    g3.spec_block(q) == world.spec_block(q) by {}
                                lemma_block_eq_at(g3, *world, x, y + 1, z);
                                assert(!catalog.spec_is_cube(g3.spec_block_xyz(x, y + 1, z)));
                                assert(g4.spec_light_xyz(x, y + 1, z, ch) >= level - 1);
                                assert forall|q: [u8; 3]| #![trigger world.spec_light(q, ch)]
                                    world.spec_light(q, ch) >= g4.spec_light(q, ch) by {}
                                lemma_light_ge_at(g4, *world, ch, x, y + 1, z);
                            }
                            if x - 1 >= 0 && !catalog.spec_is_cube(
                                world.spec_block_xyz(x - 1, y, z),
                            ) {
                                assert forall|q: [u8; 3]|
                                    g4.spec_block(q) == world.spec_block(q) by {}
                                lemma_block_eq_at(g4, *world, x - 1, y, z);
                                assert(!catalog.spec_is_cube(g4.spec_block_xyz(x - 1, y, z)));
                                assert(g5.spec_light_xyz(x - 1, y, z, ch) >= level - 1);
                                assert forall|q: [u8; 3]| #![trigger world.spec_light(q, ch)]
                                    world.spec_light(q, ch) >= g5.spec_light(q, ch) by {}
                                lemma_light_ge_at(g5, *world, ch, x - 1, y, z);
                            }
                            if x + 1 <= 255 && !catalog.spec_is_cube(
                                world.spec_block_xyz(x + 1, y, z),
                            ) {
                                assert forall|q: [u8; 3]|
                                    g5.spec_block(q) == world.spec_block(q) by {}
                                lemma_block_eq_at(g5, *world, x + 1, y, z);
                                assert(!catalog.spec_is_cube(g5.spec_block_xyz(x + 1, y, z)));
                                assert(world.spec_light_xyz(x + 1, y, z, ch) >= level - 1);
                            }
                        }
                        if old(self).rem_queue@.len() == 0 {
                            assert(rest.is_prefix_of(self.add_queue@));
                            assert forall|i: int|
                                0 <= i < old(self).add_queue@.len()
                                && old(self).add_queue@[i].light_level >= 2
                                implies ((exists|j: int| #![trigger self.add_queue@[j]]
                                    0 <= j < self.add_queue@.len()
                                    && self.add_queue@[j] == old(self).add_queue@[i])
                                    || neighbors_at_least(
                                        *world,
                                        *catalog,
                                        old(self).add_queue@[i].pos,
                                        old(self).add_queue@[i].light_level - 1,
                                        ch,
                                    )) by {
                                let e = old(self).add_queue@[i];
                                if exists|j: int| 0 <= j < qpre.len() && qpre[j] == e {
                                    let j0 = choose|j: int| 0 <= j < qpre.len() && qpre[j] == e;
                                    if j0 == 0 {
                                        assert(e == entry);
                                        assert(neighbors_at_least(*world, *catalog, entry.pos,
                                            level - 1, ch));
                                    } else {
                                        assert(rest[j0 - 1] == qpre[j0]);
                                        assert(rest =~= self.add_queue@.subrange(
                                            0,
                                            rest.len() as int,
                                        ));
                                        assert(self.add_queue@[j0 - 1] == rest[j0 - 1]);
                                    }
                                } else {
                                    assert(neighbors_at_least(wpre, *catalog, e.pos,
                                        e.light_level - 1, ch));
                                    assert forall|q: [u8; 3]| #![trigger world.spec_light(q, ch)]
                                        world.spec_light(q, ch) >= wpre.spec_light(q, ch) by {}
                                    assert forall|q: [u8; 3]|
                                        wpre.spec_block(q) == world.spec_block(q) by {}
                                    lemma_neighbors_at_least_monotone(wpre, *world, *catalog,
                                        e.pos, e.light_level - 1, ch);
                                }
                            }
                        }

                        if old(self).rem_queue@.len() == 0 && settled_except_queue(
                            *old(world),
                            *catalog,
                            old(self).add_queue@,
                            ch,
                        ) {
                            assert(settled_except_queue(g0, *catalog, qpre, ch));
                            assert(rest.is_prefix_of(a1));
                            lemma_prefix_trans(a4, a5, self.add_queue@);
                            lemma_prefix_trans(a3, a4, self.add_queue@);
                            lemma_prefix_trans(a2, a3, self.add_queue@);
                            lemma_prefix_trans(a1, a2, self.add_queue@);
                            lemma_prefix_trans(rest, a1, self.add_queue@);
                            assert forall|x: int, y: int, z: int|
                                0 <= x < 256 && 0 <= y < 256 && 0 <= z < 256
                                implies (neighbors_at_least(
                                    *world,
                                    *catalog,
                                    pos_of(x, y, z),
                                    world.spec_light_xyz(x, y, z, ch) - 1,
                                    ch,
                                ) || exists|i: int| #![trigger self.add_queue@[i]]
                                    0 <= i < self.add_queue@.len()
                                    && self.add_queue@[i].pos[0] == x
                                    && self.add_queue@[i].pos[1] == y
                                    && self.add_queue@[i].pos[2] == z
                                    && self.add_queue@[i].light_level
                                        == world.spec_light_xyz(x, y, z, ch)) by {
                                let r = pos_of(x, y, z);
                                assert(r[0] == x && r[1] == y && r[2] == z);
                                assert(g0.spec_light_xyz(x, y, z, ch) == g0.spec_light(r, ch));
                                if world.spec_light(r, ch) != g0.spec_light(r, ch) {
                                if g1.spec_light(r, ch) != g0.spec_light(r, ch) {
                                    assert(g1.spec_light(r, ch) == level - 1);
                                    assert(g2.spec_light(r, ch) == level - 1);
                                    assert(g3.spec_light(r, ch) == level - 1);
                                    assert(g4.spec_light(r, ch) == level - 1);
                                    assert(g5.spec_light(r, ch) == level - 1);
                                    assert(world.spec_light(r, ch) == level - 1);
                                    let j0 = choose|j: int|
                                        0 <= j < a1.len() && a1[j].pos@ == r@
                                        && a1[j].light_level == level - 1;
                                    lemma_prefix_index(a1, self.add_queue@, j0);
                                    assert(self.add_queue@[j0].pos[0] == x
                                        && self.add_queue@[j0].pos[1] == y
                                        && self.add_queue@[j0].pos[2] == z
                                        && self.add_queue@[j0].light_level
                                            == world.spec_light_xyz(x, y, z, ch));
                                } else if g2.spec_light(r, ch) != g1.spec_light(r, ch) {
                                    assert(g2.spec_light(r, ch) == level - 1);
                                    assert(g3.spec_light(r, ch) == level - 1);
                                    assert(g4.spec_light(r, ch) == level - 1);
                                    assert(g5.spec_light(r, ch) == level - 1);
                                    assert(world.spec_light(r, ch) == level - 1);
                                    let j0 = choose|j: int|
                                        0 <= j < a2.len() && a2[j].pos@ == r@
                                        && a2[j].light_level == level - 1;
                                    lemma_prefix_index(a2, self.add_queue@, j0);
                                    assert(self.add_queue@[j0].pos[0] == x
                                        && self.add_queue@[j0].pos[1] == y
                                        && self.add_queue@[j0].pos[2] == z
                                        && self.add_queue@[j0].light_level
                                            == world.spec_light_xyz(x, y, z, ch));
                                } else if g3.spec_light(r, ch) != g2.spec_light(r, ch) {
                                    assert(g3.spec_light(r, ch) == level - 1);
                                    assert(g4.spec_light(r, ch) == level - 1);
                                    assert(g5.spec_light(r, ch) == level - 1);
                                    assert(world.spec_light(r, ch) == level - 1);
                                    let j0 = choose|j: int|
                                        0 <= j < a3.len() && a3[j].pos@ == r@
                                        && a3[j].light_level == level - 1;
                                    lemma_prefix_index(a3, self.add_queue@, j0);
                                    assert(self.add_queue@[j0].pos[0] == x
                                        && self.add_queue@[j0].pos[1] == y
                                        && self.add_queue@[j0].pos[2] == z
                                        && self.add_queue@[j0].light_level
                                            == world.spec_light_xyz(x, y, z, ch));
                                } else if g4.spec_light(r, ch) != g3.spec_light(r, ch) {
                                    assert(g4.spec_light(r, ch) == level - 1);
                                    assert(g5.spec_light(r, ch) == level - 1);
                                    assert(world.spec_light(r, ch) == level - 1);
                                    let j0 = choose|j: int|
                                        0 <= j < a4.len() && a4[j].pos@ == r@
                                        && a4[j].light_level == level - 1;
                                    lemma_prefix_index(a4, self.add_queue@, j0);
                                    assert(self.add_queue@[j0].pos[0] == x
                                        && self.add_queue@[j0].pos[1] == y
                                        && self.add_queue@[j0].pos[2] == z
                                        && self.add_queue@[j0].light_level
                                            == world.spec_light_xyz(x, y, z, ch));
                                } else if g5.spec_light(r, ch) != g4.spec_light(r, ch) {
                                    assert(g5.spec_light(r, ch) == level - 1);
                                    assert(world.spec_light(r, ch) == level - 1);
                                    let j0 = choose|j: int|
                                        0 <= j < a5.len() && a5[j].pos@ == r@
                                        && a5[j].light_level == level - 1;
                                    lemma_prefix_index(a5, self.add_queue@, j0);
                                    assert(self.add_queue@[j0].pos[0] == x
                                        && self.add_queue@[j0].pos[1] == y
                                        && self.add_queue@[j0].pos[2] == z
                                        && self.add_queue@[j0].light_level
                                            == world.spec_light_xyz(x, y, z, ch));
                                } else if world.spec_light(r, ch) != g5.spec_light(r, ch) {
                                    assert(world.spec_light(r, ch) == level - 1);
                                    let j0 = choose|j: int|
                                        0 <= j < self.add_queue@.len()
                                        && self.add_queue@[j].pos@ == r@
                                        && self.add_queue@[j].light_level == level - 1;
                                    assert(self.add_queue@[j0].pos[0] == x
                                        && self.add_queue@[j0].pos[1] == y
                                        && self.add_queue@[j0].pos[2] == z
                                        && self.add_queue@[j0].light_level
                                            == world.spec_light_xyz(x, y, z, ch));
                                } else {
                                    assert(world.spec_light(r, ch) == g0.spec_light(r, ch));
                                }
                                } else {
                                    if neighbors_at_least(g0, *catalog, r,
                                        g0.spec_light_xyz(x, y, z, ch) - 1, ch) {
                                        assert forall|q: [u8; 3]|
                                            #![trigger world.spec_light(q, ch)]
                                            world.spec_light(q, ch) >= g0.spec_light(q, ch)
                                            by {}
                                        assert forall|q: [u8; 3]|
                                            g0.spec_block(q) == world.spec_block(q) by {}
                                        lemma_neighbors_at_least_monotone(g0, *world, *catalog,
                                            r, g0.spec_light_xyz(x, y, z, ch) - 1, ch);
                                    } else {
                                        let i0 = choose|i: int|
                                            0 <= i < qpre.len() && qpre[i].pos[0] == x
                                            && qpre[i].pos[1] == y && qpre[i].pos[2] == z
                                            && qpre[i].light_level
                                                == g0.spec_light_xyz(x, y, z, ch);
                                        if i0 == 0 {
                                            assert(qpre[0] == entry);
                                            assert(entry.pos[0] == x && entry.pos[1] == y
                                                && entry.pos[2] == z);
                                            assert(entry.light_level
                                                == g0.spec_light_xyz(x, y, z, ch));
                                            assert(neighbors_at_least(*world, *catalog,
                                                entry.pos, level - 1, ch));
                                            assert(neighbors_at_least(*world, *catalog, r,
                                                level - 1, ch));
                                        } else {
                                            assert(rest[i0 - 1] == qpre[i0]);
                                            lemma_prefix_index(rest, self.add_queue@, i0 - 1);
                                        }
                                    }
                                }
                            }
                        }
                    }
                } else {
                    proof {
                        if old(self).rem_queue@.len() == 0 {
                            assert forall|i: int|
                                0 <= i < old(self).add_queue@.len()
                                && old(self).add_queue@[i].light_level >= 2
                                implies ((exists|j: int| #![trigger self.add_queue@[j]]
                                    0 <= j < self.add_queue@.len()
                                    && self.add_queue@[j] == old(self).add_queue@[i])
                                    || neighbors_at_least(
                                        *world,
                                        *catalog,
                                        old(self).add_queue@[i].pos,
                                        old(self).add_queue@[i].light_level - 1,
                                        ch,
                                    )) by {
                                let e = old(self).add_queue@[i];
                                if exists|j: int| 0 <= j < qpre.len() && qpre[j] == e {
                                    let j0 = choose|j: int| 0 <= j < qpre.len() && qpre[j] == e;
                                    if j0 == 0 {
                                        assert(e == entry);
                                    } else {
                                        assert(self.add_queue@[j0 - 1] == qpre[j0]);
                                    }
                                } else {
                                    assert(neighbors_at_least(wpre, *catalog, e.pos,
                                        e.light_level - 1, ch));
                                }
                            }
                        }

                        if old(self).rem_queue@.len() == 0 && settled_except_queue(
                            *old(world),
                            *catalog,
                            old(self).add_queue@,
                            ch,
                        ) {
                            assert(settled_except_queue(wpre, *catalog, qpre, ch));
                            assert forall|x: int, y: int, z: int|
                                0 <= x < 256 && 0 <= y < 256 && 0 <= z < 256
                                implies (neighbors_at_least(
                                    *world,
                                    *catalog,
                                    pos_of(x, y, z),
                                    world.spec_light_xyz(x, y, z, ch) - 1,
                                    ch,
                                ) || exists|i: int| #![trigger self.add_queue@[i]]
                                    0 <= i < self.add_queue@.len()
                                    && self.add_queue@[i].pos[0] == x
                                    && self.add_queue@[i].pos[1] == y
                                    && self.add_queue@[i].pos[2] == z
                                    && self.add_queue@[i].light_level
                                        == world.spec_light_xyz(x, y, z, ch)) by {
                                let r = pos_of(x, y, z);
                                assert(r[0] == x && r[1] == y && r[2] == z);
                                assert(wpre.spec_light_xyz(x, y, z, ch)
                                    == wpre.spec_light(r, ch));
                                if !neighbors_at_least(*world, *catalog, r,
                                    world.spec_light_xyz(x, y, z, ch) - 1, ch) {
                                    let i0 = choose|i: int|
                                        0 <= i < qpre.len() && qpre[i].pos[0] == x
                                        && qpre[i].pos[1] == y && qpre[i].pos[2] == z
                                        && qpre[i].light_level
                                            == wpre.spec_light_xyz(x, y, z, ch);
                                    if i0 == 0 {
                                        assert(qpre[0] == entry);
                                        assert(world.spec_light_xyz(x, y, z, ch) <= 1);
                                    } else {
                                        assert(rest[i0 - 1] == qpre[i0]);
                                    }
                                }
                            }
                        }
                    }
                }
            }
        }
    }
}

} // verus!
