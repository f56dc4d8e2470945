//! Vertical sunlight seeding.
//!
//! Sunlight falls straight down without attenuation: in every column, each
//! voxel above the first full cube (scanning from the top) is set to the
//! maximum level directly. Horizontal spread into shadowed pockets is left
//! to the solver: each lit voxel that borders a fully dark neighbor is
//! re-queued at its own level, and a later `solve` floods from there.

use vstd::prelude::*;
use crate::catalog::BlockCatalog;
use crate::light_map::S_CHANNEL;
use crate::light_solver::LightSolver;
use crate::world::{World, pos_of};

verus! {

/// Whether direct sunlight reaches this position: no full cube sits at or
/// above it in its column.
pub open spec fn open_above(w: World, catalog: BlockCatalog, x: int, y: int, z: int) -> bool {
    forall|y2: int| #![trigger w.spec_block_xyz(x, y2, z)] y <= y2 <= 255
        ==> !catalog.spec_is_cube(w.spec_block_xyz(x, y2, z))
}

/// Whether some existing axis neighbor of this position is fully dark in
/// the sunlight channel.
pub open spec fn has_dark_neighbor(w: World, x: int, y: int, z: int) -> bool {
    ||| (z - 1 >= 0 && w.spec_light_xyz(x, y, z - 1, 3) == 0)
    ||| (z + 1 <= 255 && w.spec_light_xyz(x, y, z + 1, 3) == 0)
    ||| (y - 1 >= 0 && w.spec_light_xyz(x, y - 1, z, 3) == 0)
    ||| (y + 1 <= 255 && w.spec_light_xyz(x, y + 1, z, 3) == 0)
    ||| (x - 1 >= 0 && w.spec_light_xyz(x - 1, y, z, 3) == 0)
    ||| (x + 1 <= 255 && w.spec_light_xyz(x + 1, y, z, 3) == 0)
}

/// Light level after seeding: the maximum on every sunlit position, the
/// stored level everywhere else.
pub open spec fn seeded_level(w0: World, catalog: BlockCatalog, x: int, y: int, z: int) -> u16 {
    if open_above(w0, catalog, x, y, z) {
        15
    } else {
        w0.spec_light_xyz(x, y, z, 3)
    }
}

/// Two worlds that agree on every block agree on vertical openness.
proof fn lemma_same_blocks(a: World, b: World, catalog: BlockCatalog)
    requires
        forall|q: [u8; 3]| a.spec_block(q) == b.spec_block(q),
    ensures
        forall|x: int, y: int, z: int|
            #![trigger a.spec_block_xyz(x, y, z)]
            0 <= x < 256 && 0 <= y < 256 && 0 <= z < 256
                ==> a.spec_block_xyz(x, y, z) == b.spec_block_xyz(x, y, z),
        forall|x: int, y: int, z: int|
            #![trigger open_above(a, catalog, x, y, z)]
            0 <= x < 256 && 0 <= y < 256 && 0 <= z < 256
                ==> (open_above(a, catalog, x, y, z) <==> open_above(b, catalog, x, y, z)),
{
    assert forall|x: int, y: int, z: int|
        #![trigger a.spec_block_xyz(x, y, z)]
        0 <= x < 256 && 0 <= y < 256 && 0 <= z < 256
        implies a.spec_block_xyz(x, y, z) == b.spec_block_xyz(x, y, z) by {
        assert(a.spec_block(pos_of(x, y, z)) == b.spec_block(pos_of(x, y, z)));
    }
    assert forall|x: int, y: int, z: int|
        #![trigger open_above(a, catalog, x, y, z)]
        0 <= x < 256 && 0 <= y < 256 && 0 <= z < 256
        implies (open_above(a, catalog, x, y, z) <==> open_above(b, catalog, x, y, z)) by {
        if open_above(a, catalog, x, y, z) {
            assert forall|y2: int| y <= y2 <= 255
                implies !catalog.spec_is_cube(b.spec_block_xyz(x, y2, z)) by {
                assert(!catalog.spec_is_cube(a.spec_block_xyz(x, y2, z)));
            }
        }
        if open_above(b, catalog, x, y, z) {
            assert forall|y2: int| y <= y2 <= 255
                implies !catalog.spec_is_cube(a.spec_block_xyz(x, y2, z)) by {
                assert(!catalog.spec_is_cube(b.spec_block_xyz(x, y2, z)));
            }
        }
    }
}

/// Two worlds that agree on every sunlight value agree on dark
/// neighborhoods.
proof fn lemma_same_lights(a: World, b: World)
    requires
        forall|q: [u8; 3]| a.spec_light(q, 3) == b.spec_light(q, 3),
    ensures
        forall|x: int, y: int, z: int|
            #![trigger a.spec_light_xyz(x, y, z, 3)]
            0 <= x < 256 && 0 <= y < 256 && 0 <= z < 256
                ==> a.spec_light_xyz(x, y, z, 3) == b.spec_light_xyz(x, y, z, 3),
        forall|x: int, y: int, z: int|
            #![trigger has_dark_neighbor(a, x, y, z)]
            0 <= x < 256 && 0 <= y < 256 && 0 <= z < 256
                ==> (has_dark_neighbor(a, x, y, z) <==> has_dark_neighbor(b, x, y, z)),
{
    assert forall|x: int, y: int, z: int|
        #![trigger a.spec_light_xyz(x, y, z, 3)]
        0 <= x < 256 && 0 <= y < 256 && 0 <= z < 256
        implies a.spec_light_xyz(x, y, z, 3) == b.spec_light_xyz(x, y, z, 3) by {
        assert(a.spec_light(pos_of(x, y, z), 3) == b.spec_light(pos_of(x, y, z), 3));
    }
    assert forall|x: int, y: int, z: int|
        #![trigger has_dark_neighbor(a, x, y, z)]
        0 <= x < 256 && 0 <= y < 256 && 0 <= z < 256
        implies (has_dark_neighbor(a, x, y, z) <==> has_dark_neighbor(b, x, y, z)) by {
        if z - 1 >= 0 {
            assert(a.spec_light(pos_of(x, y, z - 1), 3) == b.spec_light(pos_of(x, y, z - 1), 3));
        }
        if z + 1 <= 255 {
            assert(a.spec_light(pos_of(x, y, z + 1), 3) == b.spec_light(pos_of(x, y, z + 1), 3));
        }
        if y - 1 >= 0 {
            assert(a.spec_light(pos_of(x, y - 1, z), 3) == b.spec_light(pos_of(x, y - 1, z), 3));
        }
        if y + 1 <= 255 {
            assert(a.spec_light(pos_of(x, y + 1, z), 3) == b.spec_light(pos_of(x, y + 1, z), 3));
        }
        if x - 1 >= 0 {
            assert(a.spec_light(pos_of(x - 1, y, z), 3) == b.spec_light(pos_of(x - 1, y, z), 3));
        }
        if x + 1 <= 255 {
            assert(a.spec_light(pos_of(x + 1, y, z), 3) == b.spec_light(pos_of(x + 1, y, z), 3));
        }
    }
}

/// Seeds one column: scanning from the top, every voxel above the first
/// full cube gets the maximum sunlight level, the rest of the column keeps
/// its levels.
#[verifier::loop_isolation(false)]
#[verifier::spinoff_prover]
#[verifier::rlimit(100)]
fn seed_levels_column(world: &mut World, catalog: &BlockCatalog, x: usize, z: usize)
    requires
        old(world).wf(),
        catalog.wf(),
        x < 256,
        z < 256,
    ensures
        final(world).wf(),
        forall|qx: int, qy: int, qz: int|
            #![trigger final(world).spec_light_xyz(qx, qy, qz, 3)]
            0 <= qx < 256 && 0 <= qy < 256 && 0 <= qz < 256 ==> {
            if qx == x as int && qz == z as int {
                final(world).spec_light_xyz(qx, qy, qz, 3)
                    == seeded_level(*old(world), *catalog, qx, qy, qz)
            } else {
                final(world).spec_light_xyz(qx, qy, qz, 3)
                    == old(world).spec_light_xyz(qx, qy, qz, 3)
            }
        },
        forall|q: [u8; 3], c: u16| c < 3
            ==> final(world).spec_light(q, c) == old(world).spec_light(q, c),
        forall|q: [u8; 3]| final(world).spec_block(q) == old(world).spec_block(q),
        forall|ci: int| 0 <= ci < 4096 && old(world).spec_dirty(ci)
            ==> final(world).spec_dirty(ci),
{
    let mut yi: usize = 256;
    let mut open: bool = true;
    while yi > 0
        invariant
            world.wf(),
            forall|q: [u8; 3]| world.spec_block(q) == old(world).spec_block(q),
            forall|q: [u8; 3], c: u16| c < 3
                ==> world.spec_light(q, c) == old(world).spec_light(q, c),
            forall|ci: int| 0 <= ci < 4096 && old(world).spec_dirty(ci)
                ==> world.spec_dirty(ci),
            yi <= 256,
            open <==> open_above(*old(world), *catalog, x as int, yi as int, z as int)
                || yi == 256,
            forall|qx: int, qy: int, qz: int|
                #![trigger world.spec_light_xyz(qx, qy, qz, 3)]
                0 <= qx < 256 && 0 <= qy < 256 && 0 <= qz < 256 ==> {
                if qx == x as int && qz == z as int && qy >= yi as int {
                    world.spec_light_xyz(qx, qy, qz, 3)
                        == seeded_level(*old(world), *catalog, qx, qy, qz)
                } else {
                    world.spec_light_xyz(qx, qy, qz, 3)
                        == old(world).spec_light_xyz(qx, qy, qz, 3)
                }
            },
        decreases yi,
    {
        yi -= 1;
        if open {
            let pos: [u8; 3] = [x as u8, yi as u8, z as u8];
            let lid: u16 = world.get_block(&pos);
            proof {
                assert(old(world).spec_block_xyz(x as int, yi as int, z as int) == lid);
            }
            if catalog.is_cube(lid) {
                open = false;
                proof {
                    assert(!open_above(*old(world), *catalog, x as int, yi as int, z as int));
                    assert(world.spec_light_xyz(x as int, yi as int, z as int, 3)
                        == old(world).spec_light_xyz(x as int, yi as int, z as int, 3));
                }
            } else {
                let ghost before = *world;
                world.set_light_level(&pos, S_CHANNEL, 15);
                proof {
                    assert forall|y2: int| yi as int <= y2 <= 255
                        implies !catalog.spec_is_cube(
                            old(world).spec_block_xyz(x as int, y2, z as int),
                        ) by {
                        if y2 == yi as int {
                        } else {
                            assert(open_above(
                                *old(world),
                                *catalog,
                                x as int,
                                yi as int + 1,
                                z as int,
                            ));
                        }
                    }
                    assert(open_above(*old(world), *catalog, x as int, yi as int, z as int));
                    assert(seeded_level(*old(world), *catalog, x as int, yi as int, z as int)
                        == 15);
                    assert(world.spec_light_xyz(x as int, yi as int, z as int, 3) == 15);
                    assert forall|qx: int, qy: int, qz: int|
                        0 <= qx < 256 && 0 <= qy < 256 && 0 <= qz < 256
                        && !(qx == x as int && qy == yi as int && qz == z as int)
                        implies world.spec_light_xyz(qx, qy, qz, 3)
                            == before.spec_light_xyz(qx, qy, qz, 3) by {
                        assert(pos_of(qx, qy, qz)@ != pos@);
                        assert(world.spec_light(pos_of(qx, qy, qz), 3)
                            == before.spec_light(pos_of(qx, qy, qz), 3));
                    }
                    assert forall|qx: int, qy: int, qz: int|
                        #![trigger world.spec_light_xyz(qx, qy, qz, 3)]
                        0 <= qx < 256 && 0 <= qy < 256 && 0 <= qz < 256 implies {
                        if qx == x as int && qz == z as int && qy >= yi as int {
                            world.spec_light_xyz(qx, qy, qz, 3)
                                == seeded_level(*old(world), *catalog, qx, qy, qz)
                        } else {
                            world.spec_light_xyz(qx, qy, qz, 3)
                                == old(world).spec_light_xyz(qx, qy, qz, 3)
                        }
                    } by {
                        if qx == x as int && qy == yi as int && qz == z as int {
                            assert(world.spec_light_xyz(qx, qy, qz, 3) == 15);
                        } else {
                            assert(world.spec_light_xyz(qx, qy, qz, 3)
                                == before.spec_light_xyz(qx, qy, qz, 3));
                            if qx == x as int && qz == z as int && qy >= yi as int {
                                assert(qy >= yi as int + 1);
                                assert(before.spec_light_xyz(qx, qy, qz, 3)
                                    == seeded_level(*old(world), *catalog, qx, qy, qz));
                            } else {
                                assert(before.spec_light_xyz(qx, qy, qz, 3)
                                    == old(world).spec_light_xyz(qx, qy, qz, 3));
                            }
                        }
                    }
                }
            }
        } else {
            proof {
                assert(!open_above(*old(world), *catalog, x as int, yi as int, z as int));
                assert(world.spec_light_xyz(x as int, yi as int, z as int, 3)
                    == old(world).spec_light_xyz(x as int, yi as int, z as int, 3));
            }
        }
    }
}

/// Writes the maximum sunlight level into every position that nothing
/// opaque shadows from above, column by column.
#[verifier::loop_isolation(false)]
#[verifier::rlimit(60)]
fn seed_levels(world: &mut World, catalog: &BlockCatalog)
    requires
        old(world).wf(),
        catalog.wf(),
    ensures
        final(world).wf(),
        forall|x: int, y: int, z: int|
            #![trigger final(world).spec_light_xyz(x, y, z, 3)]
            0 <= x < 256 && 0 <= y < 256 && 0 <= z < 256
                ==> final(world).spec_light_xyz(x, y, z, 3)
                    == seeded_level(*old(world), *catalog, x, y, z),
        forall|q: [u8; 3], c: u16| c < 3
            ==> final(world).spec_light(q, c) == old(world).spec_light(q, c),
        forall|q: [u8; 3]| final(world).spec_block(q) == old(world).spec_block(q),
        forall|ci: int| 0 <= ci < 4096 && old(world).spec_dirty(ci)
            ==> final(world).spec_dirty(ci),
{
    let mut x: usize = 0;
    while x < 256
        invariant
            world.wf(),
            forall|q: [u8; 3]| world.spec_block(q) == old(world).spec_block(q),
            forall|q: [u8; 3], c: u16| c < 3
                ==> world.spec_light(q, c) == old(world).spec_light(q, c),
            forall|ci: int| 0 <= ci < 4096 && old(world).spec_dirty(ci)
                ==> world.spec_dirty(ci),
            x <= 256,
            forall|qx: int, qy: int, qz: int|
                #![trigger world.spec_light_xyz(qx, qy, qz, 3)]
                0 <= qx < 256 && 0 <= qy < 256 && 0 <= qz < 256 ==> {
                if qx < x as int {
                    world.spec_light_xyz(qx, qy, qz, 3)
                        == seeded_level(*old(world), *catalog, qx, qy, qz)
                } else {
                    world.spec_light_xyz(qx, qy, qz, 3) == old(world).spec_light_xyz(qx, qy, qz, 3)
                }
            },
        decreases 256 - x,
    {
        let mut z: usize = 0;
        while z < 256
            invariant
                world.wf(),
                forall|q: [u8; 3]| world.spec_block(q) == old(world).spec_block(q),
                forall|q: [u8; 3], c: u16| c < 3
                    ==> world.spec_light(q, c) == old(world).spec_light(q, c),
                forall|ci: int| 0 <= ci < 4096 && old(world).spec_dirty(ci)
                    ==> world.spec_dirty(ci),
                x < 256,
                z <= 256,
                forall|qx: int, qy: int, qz: int|
                    #![trigger world.spec_light_xyz(qx, qy, qz, 3)]
                    0 <= qx < 256 && 0 <= qy < 256 && 0 <= qz < 256 ==> {
                    if qx < x as int || (qx == x as int && qz < z as int) {
                        world.spec_light_xyz(qx, qy, qz, 3)
                            == seeded_level(*old(world), *catalog, qx, qy, qz)
                    } else {
                        world.spec_light_xyz(qx, qy, qz, 3)
                            == old(world).spec_light_xyz(qx, qy, qz, 3)
                    }
                },
            decreases 256 - z,
        {
            let ghost mid = *world;
            seed_levels_column(world, catalog, x, z);
            proof {
                lemma_same_blocks(mid, *old(world), *catalog);
                assert forall|qx: int, qy: int, qz: int|
                    0 <= qx < 256 && 0 <= qy < 256 && 0 <= qz < 256
                    implies world.spec_light_xyz(qx, qy, qz, 3) == (
                        if qx < x as int || (qx == x as int && qz <= z as int) {
                            seeded_level(*old(world), *catalog, qx, qy, qz)
                        } else {
                            old(world).spec_light_xyz(qx, qy, qz, 3)
                        }
                    ) by {
                    assert(open_above(mid, *catalog, qx, qy, qz) <==> open_above(
                        *old(world),
                        *catalog,
                        qx,
                        qy,
                        qz,
                    ));
                    if qx == x as int && qz == z as int {
                        assert(world.spec_light_xyz(qx, qy, qz, 3)
                            == seeded_level(mid, *catalog, qx, qy, qz));
                        if !open_above(mid, *catalog, qx, qy, qz) {
                            assert(mid.spec_light_xyz(qx, qy, qz, 3)
                                == old(world).spec_light_xyz(qx, qy, qz, 3));
                        }
                    }
                }
            }
            z += 1;
        }
        x += 1;
    }
}

/// Whether some existing axis neighbor of `pos` is fully dark in the
/// sunlight channel.
fn boundary_flag(world: &World, pos: &[u8; 3]) -> (r: bool)
    requires
        world.wf(),
    ensures
        r == has_dark_neighbor(*world, pos[0] as int, pos[1] as int, pos[2] as int),
{
    let mut flag: bool = false;
    match LightSolver::get_neighbor_pos(pos, &[0, 0, -1]) {
        Some(n) => {
            if world.get_light_level(&n, S_CHANNEL) == 0 {
                flag = true;
            }
        },
        None => {},
    }
    match LightSolver::get_neighbor_pos(pos, &[0, 0, 1]) {
        Some(n) => {
            if world.get_light_level(&n, S_CHANNEL) == 0 {
                flag = true;
            }
        },
        None => {},
    }
    match LightSolver::get_neighbor_pos(pos, &[0, -1, 0]) {
        Some(n) => {
            if world.get_light_level(&n, S_CHANNEL) == 0 {
                flag = true;
            }
        },
        None => {},
    }
    match LightSolver::get_neighbor_pos(pos, &[0, 1, 0]) {
        Some(n) => {
            if world.get_light_level(&n, S_CHANNEL) == 0 {
                flag = true;
            }
        },
        None => {},
    }
    match LightSolver::get_neighbor_pos(pos, &[-1, 0, 0]) {
        Some(n) => {
            if world.get_light_level(&n, S_CHANNEL) == 0 {
                flag = true;
            }
        },
        None => {},
    }
    match LightSolver::get_neighbor_pos(pos, &[1, 0, 0]) {
        Some(n) => {
            if world.get_light_level(&n, S_CHANNEL) == 0 {
                flag = true;
            }
        },
        None => {},
    }
    flag
}

/// Queues the sunlit boundary voxels of one column, changing no light.
#[verifier::loop_isolation(false)]
#[verifier::rlimit(100)]
fn seed_queue_column(
    world: &mut World,
    catalog: &BlockCatalog,
    solver: &mut LightSolver,
    x: usize,
    z: usize,
)
    requires
        old(world).wf(),
        catalog.wf(),
        old(solver).wf(),
        old(solver).channel == S_CHANNEL,
        x < 256,
        z < 256,
        forall|x2: int, y2: int, z2: int|
            #![trigger old(world).spec_light_xyz(x2, y2, z2, 3)]
            0 <= x2 < 256 && 0 <= y2 < 256 && 0 <= z2 < 256
                && open_above(*old(world), *catalog, x2, y2, z2)
                ==> old(world).spec_light_xyz(x2, y2, z2, 3) == 15,
    ensures
        final(world).wf(),
        final(solver).wf(),
        final(solver).channel == S_CHANNEL,
        final(solver).rem_queue@ == old(solver).rem_queue@,
        forall|q: [u8; 3], c: u16| c <= 3
            ==> final(world).spec_light(q, c) == old(world).spec_light(q, c),
        forall|q: [u8; 3]| final(world).spec_block(q) == old(world).spec_block(q),
        forall|ci: int| 0 <= ci < 4096 && old(world).spec_dirty(ci)
            ==> final(world).spec_dirty(ci),
        old(solver).add_queue@.is_prefix_of(final(solver).add_queue@),
        forall|i: int| #![trigger final(solver).add_queue@[i]]
            old(solver).add_queue@.len() <= i < final(solver).add_queue@.len() ==> {
            let e = final(solver).add_queue@[i];
            &&& e.light_level == 15
            &&& e.pos[0] == x && e.pos[2] == z
            &&& open_above(*old(world), *catalog, e.pos[0] as int, e.pos[1] as int, e.pos[2] as int)
            &&& has_dark_neighbor(*old(world), e.pos[0] as int, e.pos[1] as int, e.pos[2] as int)
        },
        forall|qy: int| 0 <= qy < 256
            && open_above(*old(world), *catalog, x as int, qy, z as int)
            && has_dark_neighbor(*old(world), x as int, qy, z as int)
            ==> exists|i: int| #![trigger final(solver).add_queue@[i]]
                old(solver).add_queue@.len() <= i < final(solver).add_queue@.len()
                && final(solver).add_queue@[i].pos[0] == x
                && final(solver).add_queue@[i].pos[1] == qy
                && final(solver).add_queue@[i].pos[2] == z,
{
    let mut yi: usize = 256;
    let mut open: bool = true;
    while yi > 0
        invariant
            world.wf(),
            solver.wf(),
            solver.channel == S_CHANNEL,
            solver.rem_queue@ == old(solver).rem_queue@,
            forall|q: [u8; 3], c: u16| c <= 3
                ==> world.spec_light(q, c) == old(world).spec_light(q, c),
            forall|q: [u8; 3]| world.spec_block(q) == old(world).spec_block(q),
            forall|ci: int| 0 <= ci < 4096 && old(world).spec_dirty(ci)
                ==> world.spec_dirty(ci),
            yi <= 256,
            open <==> open_above(*old(world), *catalog, x as int, yi as int, z as int)
                || yi == 256,
            old(solver).add_queue@.is_prefix_of(solver.add_queue@),
            forall|i: int| #![trigger solver.add_queue@[i]]
                old(solver).add_queue@.len() <= i < solver.add_queue@.len() ==> {
                let e = solver.add_queue@[i];
                &&& e.light_level == 15
                &&& e.pos[0] == x && e.pos[2] == z
                &&& open_above(
                    *old(world),
                    *catalog,
                    e.pos[0] as int,
                    e.pos[1] as int,
                    e.pos[2] as int,
                )
                &&& has_dark_neighbor(*old(world), e.pos[0] as int, e.pos[1] as int, e.pos[2] as int)
            },
            forall|qy: int| 0 <= qy < 256 && qy >= yi as int
                && open_above(*old(world), *catalog, x as int, qy, z as int)
                && has_dark_neighbor(*old(world), x as int, qy, z as int)
                ==> exists|i: int| #![trigger solver.add_queue@[i]]
                    old(solver).add_queue@.len() <= i < solver.add_queue@.len()
                    && solver.add_queue@[i].pos[0] == x
                    && solver.add_queue@[i].pos[1] == qy
                    && solver.add_queue@[i].pos[2] == z,
        decreases yi,
    {
        yi -= 1;
        if open {
            let pos: [u8; 3] = [x as u8, yi as u8, z as u8];
            let lid: u16 = world.get_block(&pos);
            proof {
                assert(old(world).spec_block_xyz(x as int, yi as int, z as int) == lid);
            }
            if catalog.is_cube(lid) {
                open = false;
                proof {
                    assert(!open_above(*old(world), *catalog, x as int, yi as int, z as int));
                }
            } else {
                proof {
                    assert forall|y2: int| yi as int <= y2 <= 255
                        implies !catalog.spec_is_cube(
                            old(world).spec_block_xyz(x as int, y2, z as int),
                        ) by {
                        if y2 == yi as int {
                        } else {
                            assert(open_above(
                                *old(world),
                                *catalog,
                                x as int,
                                yi as int + 1,
                                z as int,
                            ));
                        }
                    }
                    assert(open_above(*old(world), *catalog, x as int, yi as int, z as int));
                }
                let flag: bool = boundary_flag(world, &pos);
                proof {
                    lemma_same_lights(*world, *old(world));
                    assert(flag == has_dark_neighbor(*old(world), x as int, yi as int, z as int));
                }
                if flag {
                    proof {
                        assert(old(world).spec_light_xyz(x as int, yi as int, z as int, 3) == 15);
                        assert(world.spec_light(pos, 3) == 15);
                    }
                    let ghost qbefore = solver.add_queue@;
                    solver.add_last(world, &pos);
                    proof {
                        let qlen = solver.add_queue@.len() as int;
                        assert(solver.add_queue@ == qbefore.push(
                            crate::light_solver::LightEntry { pos, light_level: 15u8 },
                        ));
                        assert(solver.add_queue@[qlen - 1].pos[1] == yi as u8);
                        assert forall|qy: int| 0 <= qy < 256 && qy >= yi as int
                            && open_above(*old(world), *catalog, x as int, qy, z as int)
                            && has_dark_neighbor(*old(world), x as int, qy, z as int)
                            implies exists|i: int| #![trigger solver.add_queue@[i]]
                                old(solver).add_queue@.len() <= i < solver.add_queue@.len()
                                && solver.add_queue@[i].pos[0] == x
                                && solver.add_queue@[i].pos[1] == qy
                                && solver.add_queue@[i].pos[2] == z by {
                            if qy == yi as int {
                                assert(old(solver).add_queue@.len() <= qlen - 1 < qlen
                                    && solver.add_queue@[qlen - 1].pos[0] == x
                                    && solver.add_queue@[qlen - 1].pos[1] == qy
                                    && solver.add_queue@[qlen - 1].pos[2] == z);
                            } else {
                                let i0 = choose|i: int|
                                    old(solver).add_queue@.len() <= i < qbefore.len()
                                    && qbefore[i].pos[0] == x && qbefore[i].pos[1] == qy
                                    && qbefore[i].pos[2] == z;
                                assert(solver.add_queue@[i0] == qbefore[i0]);
                            }
                        }
                    }
                } else {
                    proof {
                        assert(!has_dark_neighbor(
                            *old(world),
                            x as int,
                            yi as int,
                            z as int,
                        ));
                    }
                }
            }
        } else {
            proof {
                assert(!open_above(*old(world), *catalog, x as int, yi as int, z as int));
            }
        }
    }
}

/// Queues, at its own level, every sunlit position that borders a fully
/// dark neighbor, changing no light value.
#[verifier::loop_isolation(false)]
#[verifier::rlimit(60)]
fn seed_queue(world: &mut World, catalog: &BlockCatalog, solver: &mut LightSolver)
    requires
        old(world).wf(),
        catalog.wf(),
        old(solver).wf(),
        old(solver).channel == S_CHANNEL,
        forall|x: int, y: int, z: int|
            #![trigger old(world).spec_light_xyz(x, y, z, 3)]
            0 <= x < 256 && 0 <= y < 256 && 0 <= z < 256
                && open_above(*old(world), *catalog, x, y, z)
                ==> old(world).spec_light_xyz(x, y, z, 3) == 15,
    ensures
        final(world).wf(),
        final(solver).wf(),
        final(solver).channel == S_CHANNEL,
        final(solver).rem_queue@ == old(solver).rem_queue@,
        forall|q: [u8; 3], c: u16| c <= 3
            ==> final(world).spec_light(q, c) == old(world).spec_light(q, c),
        forall|q: [u8; 3]| final(world).spec_block(q) == old(world).spec_block(q),
        forall|ci: int| 0 <= ci < 4096 && old(world).spec_dirty(ci)
            ==> final(world).spec_dirty(ci),
        old(solver).add_queue@.is_prefix_of(final(solver).add_queue@),
        forall|i: int| #![trigger final(solver).add_queue@[i]]
            old(solver).add_queue@.len() <= i < final(solver).add_queue@.len() ==> {
            let e = final(solver).add_queue@[i];
            &&& e.light_level == 15
            &&& open_above(*old(world), *catalog, e.pos[0] as int, e.pos[1] as int, e.pos[2] as int)
            &&& has_dark_neighbor(*old(world), e.pos[0] as int, e.pos[1] as int, e.pos[2] as int)
        },
        forall|x: int, y: int, z: int| 0 <= x < 256 && 0 <= y < 256 && 0 <= z < 256
            && open_above(*old(world), *catalog, x, y, z)
            && has_dark_neighbor(*old(world), x, y, z)
            ==> exists|i: int| #![trigger final(solver).add_queue@[i]]
                old(solver).add_queue@.len() <= i < final(solver).add_queue@.len()
                && final(solver).add_queue@[i].pos[0] == x
                && final(solver).add_queue@[i].pos[1] == y
                && final(solver).add_queue@[i].pos[2] == z,
{
    let mut x: usize = 0;
    while x < 256
        invariant
            world.wf(),
            solver.wf(),
            solver.channel == S_CHANNEL,
            solver.rem_queue@ == old(solver).rem_queue@,
            forall|q: [u8; 3], c: u16| c <= 3
                ==> world.spec_light(q, c) == old(world).spec_light(q, c),
            forall|q: [u8; 3]| world.spec_block(q) == old(world).spec_block(q),
            forall|ci: int| 0 <= ci < 4096 && old(world).spec_dirty(ci)
                ==> world.spec_dirty(ci),
            x <= 256,
            old(solver).add_queue@.is_prefix_of(solver.add_queue@),
            forall|i: int| #![trigger solver.add_queue@[i]]
                old(solver).add_queue@.len() <= i < solver.add_queue@.len() ==> {
                let e = solver.add_queue@[i];
                &&& e.light_level == 15
                &&& open_above(
                    *old(world),
                    *catalog,
                    e.pos[0] as int,
                    e.pos[1] as int,
                    e.pos[2] as int,
                )
                &&& has_dark_neighbor(*old(world), e.pos[0] as int, e.pos[1] as int, e.pos[2] as int)
            },
            forall|qx: int, qy: int, qz: int| 0 <= qx < 256 && 0 <= qy < 256 && 0 <= qz < 256
                && qx < x as int
                && open_above(*old(world), *catalog, qx, qy, qz)
                && has_dark_neighbor(*old(world), qx, qy, qz)
                ==> exists|i: int| #![trigger solver.add_queue@[i]]
                    old(solver).add_queue@.len() <= i < solver.add_queue@.len()
                    && solver.add_queue@[i].pos[0] == qx
                    && solver.add_queue@[i].pos[1] == qy
                    && solver.add_queue@[i].pos[2] == qz,
        decreases 256 - x,
    {
        let mut z: usize = 0;
        while z < 256
            invariant
                world.wf(),
                solver.wf(),
                solver.channel == S_CHANNEL,
                solver.rem_queue@ == old(solver).rem_queue@,
                forall|q: [u8; 3], c: u16| c <= 3
                    ==> world.spec_light(q, c) == old(world).spec_light(q, c),
                forall|q: [u8; 3]| world.spec_block(q) == old(world).spec_block(q),
                forall|ci: int| 0 <= ci < 4096 && old(world).spec_dirty(ci)
                    ==> world.spec_dirty(ci),
                x < 256,
                z <= 256,
                old(solver).add_queue@.is_prefix_of(solver.add_queue@),
                forall|i: int| #![trigger solver.add_queue@[i]]
                    old(solver).add_queue@.len() <= i < solver.add_queue@.len() ==> {
                    let e = solver.add_queue@[i];
                    &&& e.light_level == 15
                    &&& open_above(
                        *old(world),
                        *catalog,
                        e.pos[0] as int,
                        e.pos[1] as int,
                        e.pos[2] as int,
                    )
                    &&& has_dark_neighbor(
                        *old(world),
                        e.pos[0] as int,
                        e.pos[1] as int,
                        e.pos[2] as int,
                    )
                },
                forall|qx: int, qy: int, qz: int| 0 <= qx < 256 && 0 <= qy < 256 && 0 <= qz < 256
                    && (qx < x as int || (qx == x as int && qz < z as int))
                    && open_above(*old(world), *catalog, qx, qy, qz)
                    && has_dark_neighbor(*old(world), qx, qy, qz)
                    ==> exists|i: int| #![trigger solver.add_queue@[i]]
                        old(solver).add_queue@.len() <= i < solver.add_queue@.len()
                        && solver.add_queue@[i].pos[0] == qx
                        && solver.add_queue@[i].pos[1] == qy
                        && solver.add_queue@[i].pos[2] == qz,
            decreases 256 - z,
        {
            let ghost mid_world = *world;
            let ghost mid_solver = *solver;
            proof {
                lemma_same_blocks(mid_world, *old(world), *catalog);
                lemma_same_lights(mid_world, *old(world));
            }
            seed_queue_column(world, catalog, solver, x, z);
            proof {
                lemma_same_blocks(mid_world, *old(world), *catalog);
                lemma_same_lights(mid_world, *old(world));
                assert forall|i: int| #![trigger solver.add_queue@[i]]
                    old(solver).add_queue@.len() <= i < solver.add_queue@.len() implies {
                    let e = solver.add_queue@[i];
                    &&& e.light_level == 15
                    &&& open_above(
                        *old(world),
                        *catalog,
                        e.pos[0] as int,
                        e.pos[1] as int,
                        e.pos[2] as int,
                    )
                    &&& has_dark_neighbor(
                        *old(world),
                        e.pos[0] as int,
                        e.pos[1] as int,
                        e.pos[2] as int,
                    )
                } by {
                    if i < mid_solver.add_queue@.len() {
                        assert(mid_solver.add_queue@ =~= solver.add_queue@.subrange(
                            0,
                            mid_solver.add_queue@.len() as int,
                        ));
                        assert(solver.add_queue@[i] == mid_solver.add_queue@[i]);
                        let e2 = mid_solver.add_queue@[i];
                        assert(e2.light_level == 15 && open_above(
                            *old(world),
                            *catalog,
                            e2.pos[0] as int,
                            e2.pos[1] as int,
                            e2.pos[2] as int,
                        ) && has_dark_neighbor(
                            *old(world),
                            e2.pos[0] as int,
                            e2.pos[1] as int,
                            e2.pos[2] as int,
                        ));
                    } else {
                        let e = solver.add_queue@[i];
                        assert(open_above(mid_world, *catalog, e.pos[0] as int, e.pos[1] as int,
                            e.pos[2] as int));
                        assert(has_dark_neighbor(mid_world, e.pos[0] as int, e.pos[1] as int,
                            e.pos[2] as int));
                    }
                }
                assert forall|qx: int, qy: int, qz: int| 0 <= qx < 256 && 0 <= qy < 256
                    && 0 <= qz < 256
                    && (qx < x as int || (qx == x as int && qz <= z as int))
                    && open_above(*old(world), *catalog, qx, qy, qz)
                    && has_dark_neighbor(*old(world), qx, qy, qz)
                    implies exists|i: int| #![trigger solver.add_queue@[i]]
                        old(solver).add_queue@.len() <= i < solver.add_queue@.len()
                        && solver.add_queue@[i].pos[0] == qx
                        && solver.add_queue@[i].pos[1] == qy
                        && solver.add_queue@[i].pos[2] == qz by {
                    if qx == x as int && qz == z as int {
                        assert(open_above(mid_world, *catalog, qx, qy, qz));
                        assert(has_dark_neighbor(mid_world, qx, qy, qz));
                        let i0 = choose|i: int|
                            mid_solver.add_queue@.len() <= i < solver.add_queue@.len()
                            && solver.add_queue@[i].pos[0] == qx
                            && solver.add_queue@[i].pos[1] == qy
                            && solver.add_queue@[i].pos[2] == qz;
                        assert(solver.add_queue@[i0].pos[0] == qx);
                    } else {
                        let i0 = choose|i: int|
                            old(solver).add_queue@.len() <= i < mid_solver.add_queue@.len()
                            && mid_solver.add_queue@[i].pos[0] == qx
                            && mid_solver.add_queue@[i].pos[1] == qy
                            && mid_solver.add_queue@[i].pos[2] == qz;
                        assert(mid_solver.add_queue@ =~= solver.add_queue@.subrange(
                            0,
                            mid_solver.add_queue@.len() as int,
                        ));
                        assert(solver.add_queue@[i0] == mid_solver.add_queue@[i0]);
                    }
                }
            }
            z += 1;
        }
        x += 1;
    }
}

/// Seeds the sunlight channel of the whole world and queues the boundary of
/// the sunlit region for horizontal spreading: afterwards a position's
/// sunlight is the maximum exactly when nothing opaque sits above it, every
/// other channel and every block is untouched, and the solver's add queue
/// has gained one entry, at the maximum level, for exactly the sunlit
/// positions that border a fully dark neighbor.
#[verifier::rlimit(60)]
pub fn seed_sunlight(world: &mut World, catalog: &BlockCatalog, solver: &mut LightSolver)
    requires
        old(world).wf(),
        catalog.wf(),
        old(solver).wf(),
        old(solver).channel == S_CHANNEL,
    ensures
        final(world).wf(),
        final(solver).wf(),
        final(solver).channel == S_CHANNEL,
        final(solver).rem_queue@ == old(solver).rem_queue@,
        forall|x: int, y: int, z: int|
            #![trigger final(world).spec_light_xyz(x, y, z, 3)]
            0 <= x < 256 && 0 <= y < 256 && 0 <= z < 256
                ==> final(world).spec_light_xyz(x, y, z, 3)
                    == seeded_level(*old(world), *catalog, x, y, z),
        forall|q: [u8; 3], c: u16| c < 3
            ==> final(world).spec_light(q, c) == old(world).spec_light(q, c),
        forall|q: [u8; 3]| final(world).spec_block(q) == old(world).spec_block(q),
        forall|ci: int| 0 <= ci < 4096 && old(world).spec_dirty(ci)
            ==> final(world).spec_dirty(ci),
        old(solver).add_queue@.is_prefix_of(final(solver).add_queue@),
        forall|i: int| #![trigger final(solver).add_queue@[i]]
            old(solver).add_queue@.len() <= i < final(solver).add_queue@.len() ==> {
            let e = final(solver).add_queue@[i];
            &&& e.light_level == 15
            &&& open_above(*old(world), *catalog, e.pos[0] as int, e.pos[1] as int, e.pos[2] as int)
            &&& has_dark_neighbor(
                *final(world),
                e.pos[0] as int,
                e.pos[1] as int,
                e.pos[2] as int,
            )
        },
        forall|x: int, y: int, z: int| 0 <= x < 256 && 0 <= y < 256 && 0 <= z < 256
            && open_above(*old(world), *catalog, x, y, z)
            && has_dark_neighbor(*final(world), x, y, z)
            ==> exists|i: int| #![trigger final(solver).add_queue@[i]]
                old(solver).add_queue@.len() <= i < final(solver).add_queue@.len()
                && final(solver).add_queue@[i].pos[0] == x
                && final(solver).add_queue@[i].pos[1] == y
                && final(solver).add_queue@[i].pos[2] == z,
{
    seed_levels(world, catalog);
    let ghost w1 = *world;
    proof {
        assert forall|x: int, y: int, z: int|
            0 <= x < 256 && 0 <= y < 256 && 0 <= z < 256
            implies w1.spec_block_xyz(x, y, z) == old(world).spec_block_xyz(x, y, z) by {
            assert(w1.spec_block(pos_of(x, y, z)) == old(world).spec_block(pos_of(x, y, z)));
        }
        assert forall|x: int, y: int, z: int|
            0 <= x < 256 && 0 <= y < 256 && 0 <= z < 256
            implies (open_above(w1, *catalog, x, y, z) <==> open_above(
                *old(world),
                *catalog,
                x,
                y,
                z,
            )) by {
            if open_above(w1, *catalog, x, y, z) {
                assert forall|y2: int| y <= y2 <= 255
                    implies !catalog.spec_is_cube(old(world).spec_block_xyz(x, y2, z)) by {
                    assert(!catalog.spec_is_cube(w1.spec_block_xyz(x, y2, z)));
                }
            }
            if open_above(*old(world), *catalog, x, y, z) {
                assert forall|y2: int| y <= y2 <= 255
                    implies !catalog.spec_is_cube(w1.spec_block_xyz(x, y2, z)) by {
                    assert(!catalog.spec_is_cube(old(world).spec_block_xyz(x, y2, z)));
                }
            }
        }
        assert forall|x: int, y: int, z: int|
            #![trigger w1.spec_light_xyz(x, y, z, 3)]
            0 <= x < 256 && 0 <= y < 256 && 0 <= z < 256 && open_above(w1, *catalog, x, y, z)
            implies w1.spec_light_xyz(x, y, z, 3) == 15 by {
            assert(open_above(*old(world), *catalog, x, y, z));
            assert(seeded_level(*old(world), *catalog, x, y, z) == 15);
        }
    }
    seed_queue(world, catalog, solver);
    proof {
        lemma_same_lights(*world, w1);
        assert forall|x: int, y: int, z: int|
            #![trigger world.spec_light_xyz(x, y, z, 3)]
            0 <= x < 256 && 0 <= y < 256 && 0 <= z < 256
            implies world.spec_light_xyz(x, y, z, 3) == seeded_level(
                *old(world),
                *catalog,
                x,
                y,
                z,
            ) by {
            assert(world.spec_light_xyz(x, y, z, 3) == w1.spec_light_xyz(x, y, z, 3));
        }
    }
}

} // verus!
