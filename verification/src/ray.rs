//! Grid ray walk for block picking: an incremental voxel traversal that
//! finds the first non-empty cell along a ray.
//!
//! Coordinates are exact Q16.16 fixed-point rationals: a value `v` stands
//! for `v / 65536` world units. The walk itself runs on exact integer
//! cross-multiplied comparisons, so it is fully deterministic: per axis it
//! keeps the crossing parameter `t` as a fraction `n / d`, where `d` is the
//! absolute direction numerator (`d == 0` standing for an axis the ray
//! never crosses) and `n` advances by one voxel's worth per step.

use vstd::prelude::*;
use crate::catalog::AIR_BLOCK_ID;
use crate::world::World;

verus! {

/// Fixed-point unit: numerators count 1/65536 world units.
pub const RAY_SCALE: i64 = 65536;

/// Largest fixed-point magnitude `ray_get` accepts for origin, direction
/// and reach, 4096 world units: far beyond the world, yet small enough that
/// every cross-multiplied comparison stays exact in 64 bits.
pub const RAY_COORD_MAX: i64 = 268435456;

/// Integer part of a fixed-point value, truncated toward zero.
pub open spec fn fx_trunc(v: int) -> int {
    if v >= 0 {
        v / 65536
    } else {
        -((-v) / 65536)
    }
}

/// Whether the fraction `n1 / d1` is below `n2 / d2`, a zero denominator
/// standing for an infinite value.
pub open spec fn spec_t_lt(n1: int, d1: int, n2: int, d2: int) -> bool {
    if d1 == 0 {
        false
    } else if d2 == 0 {
        true
    } else {
        n1 * d2 < n2 * d1
    }
}

/// Whether the parameter `pn / pd` is within a fixed-point reach `m`.
pub open spec fn spec_t_le_max(pn: int, pd: int, m: int) -> bool {
    pn * 65536 <= m * pd
}

/// Exact comparison of the reached parameter against the allowed reach.
fn t_le_max(pn: i64, pd: i64, m: i64) -> (r: bool)
    requires
        -1073741824 <= pn <= 1073741824,
        1 <= pd <= RAY_COORD_MAX,
        0 <= m <= RAY_COORD_MAX,
    ensures
        r == spec_t_le_max(pn as int, pd as int, m as int),
{
    proof {
        assert(0 <= m * pd <= 268435456 * 268435456) by (nonlinear_arith)
            requires
                1 <= pd <= 268435456,
                0 <= m <= 268435456,
        ;
    }
    pn * 65536 <= m * pd
}

/// Exact comparison of two crossing parameters.
fn t_lt(n1: i64, d1: i64, n2: i64, d2: i64) -> (r: bool)
    requires
        -1073741824 <= n1 <= 1073741824,
        -1073741824 <= n2 <= 1073741824,
        0 <= d1 <= RAY_COORD_MAX,
        0 <= d2 <= RAY_COORD_MAX,
    ensures
        r == spec_t_lt(n1 as int, d1 as int, n2 as int, d2 as int),
{
    if d1 == 0 {
        false
    } else if d2 == 0 {
        true
    } else {
        proof {
            assert((-1073741824) * 268435456 <= n1 * d2 <= 1073741824 * 268435456)
                by (nonlinear_arith)
                requires
                    -1073741824 <= n1 <= 1073741824,
                    1 <= d2 <= 268435456,
            ;
            assert((-1073741824) * 268435456 <= n2 * d1 <= 1073741824 * 268435456)
                by (nonlinear_arith)
                requires
                    -1073741824 <= n2 <= 1073741824,
                    1 <= d1 <= 268435456,
            ;
        }
        n1 * d2 < n2 * d1
    }
}

/// Integer part of a fixed-point value, truncated toward zero.
fn fx_trunc_exec(v: i64) -> (r: i64)
    requires
        -RAY_COORD_MAX <= v <= RAY_COORD_MAX,
    ensures
        r == fx_trunc(v as int),
        -4096 <= r <= 4096,
{
    if v >= 0 {
        v / 65536
    } else {
        -((-v) / 65536)
    }
}


/// One snapshot of the walk: the current voxel, the per-axis crossing
/// numerators, the parameter reached as a fraction, and the axis stepped
/// last (or -1 before the first step).
pub struct RayState {
    pub ix: int,
    pub iy: int,
    pub iz: int,
    pub nx: int,
    pub ny: int,
    pub nz: int,
    pub pn: int,
    pub pd: int,
    pub stepind: int,
}

/// The walk's fixed data: per-axis step signs, absolute direction
/// numerators (zero for an axis the ray never crosses), and the reach.
pub struct RayConfig {
    pub sx: int,
    pub sy: int,
    pub sz: int,
    pub dx: int,
    pub dy: int,
    pub dz: int,
    pub max: int,
}

/// What a walk ends in: a hit with its block, or no hit; either way the
/// state it stopped at.
pub struct RayOutcome {
    pub hit: bool,
    pub block: u16,
    pub state: RayState,
}

/// The walk's fixed data as derived from the direction and reach.
pub open spec fn ray_config_of(dir: [i64; 3], max_dist: i64) -> RayConfig {
    RayConfig {
        sx: if dir[0] > 0 { 1 } else { -1 },
        sy: if dir[1] > 0 { 1 } else { -1 },
        sz: if dir[2] > 0 { 1 } else { -1 },
        dx: if dir[0] > 0 { dir[0] as int } else { -(dir[0] as int) },
        dy: if dir[1] > 0 { dir[1] as int } else { -(dir[1] as int) },
        dz: if dir[2] > 0 { dir[2] as int } else { -(dir[2] as int) },
        max: max_dist as int,
    }
}

/// The walk's starting state: the origin's voxel, and per axis the
/// numerator of the distance to the first boundary in the step direction.
pub open spec fn ray_start_of(pos: [i64; 3], dir: [i64; 3]) -> RayState {
    RayState {
        ix: fx_trunc(pos[0] as int),
        iy: fx_trunc(pos[1] as int),
        iz: fx_trunc(pos[2] as int),
        nx: if dir[0] > 0 {
            (fx_trunc(pos[0] as int) + 1) * 65536 - pos[0]
        } else {
            pos[0] - fx_trunc(pos[0] as int) * 65536
        },
        ny: if dir[1] > 0 {
            (fx_trunc(pos[1] as int) + 1) * 65536 - pos[1]
        } else {
            pos[1] - fx_trunc(pos[1] as int) * 65536
        },
        nz: if dir[2] > 0 {
            (fx_trunc(pos[2] as int) + 1) * 65536 - pos[2]
        } else {
            pos[2] - fx_trunc(pos[2] as int) * 65536
        },
        pn: 0,
        pd: 1,
        stepind: -1,
    }
}

pub open spec fn ray_in_bounds(s: RayState) -> bool {
    0 <= s.ix <= 255 && 0 <= s.iy <= 255 && 0 <= s.iz <= 255
}

/// One step of the walk: advance on the axis whose crossing parameter is
/// smallest, ties preferring z over y and y over x.
pub open spec fn ray_step(c: RayConfig, s: RayState) -> RayState {
    if spec_t_lt(s.nx, c.dx, s.ny, c.dy) {
        if spec_t_lt(s.nx, c.dx, s.nz, c.dz) {
            RayState { ix: s.ix + c.sx, nx: s.nx + 65536, pn: s.nx, pd: c.dx, stepind: 0, ..s }
        } else {
            RayState { iz: s.iz + c.sz, nz: s.nz + 65536, pn: s.nz, pd: c.dz, stepind: 2, ..s }
        }
    } else {
        if spec_t_lt(s.ny, c.dy, s.nz, c.dz) {
            RayState { iy: s.iy + c.sy, ny: s.ny + 65536, pn: s.ny, pd: c.dy, stepind: 1, ..s }
        } else {
            RayState { iz: s.iz + c.sz, nz: s.nz + 65536, pn: s.nz, pd: c.dz, stepind: 2, ..s }
        }
    }
}

/// The face normal a hit reports: minus the step direction on the axis
/// stepped last, or all zero when the starting voxel itself was hit.
pub open spec fn ray_norm(c: RayConfig, stepind: int) -> [i8; 3] {
    if stepind == 0 {
        [(-c.sx) as i8, 0i8, 0i8]
    } else if stepind == 1 {
        [0i8, (-c.sy) as i8, 0i8]
    } else if stepind == 2 {
        [0i8, 0i8, (-c.sz) as i8]
    } else {
        [0i8, 0i8, 0i8]
    }
}

/// The state of a walk as captured from the walker's variables.
pub open spec fn ray_state_of(
    ix: i64,
    iy: i64,
    iz: i64,
    nx: i64,
    ny: i64,
    nz: i64,
    pn: i64,
    pd: i64,
    stepind: i8,
) -> RayState {
    RayState {
        ix: ix as int,
        iy: iy as int,
        iz: iz as int,
        nx: nx as int,
        ny: ny as int,
        nz: nz as int,
        pn: pn as int,
        pd: pd as int,
        stepind: stepind as int,
    }
}

/// The whole walk: from a state within reach, either the current voxel is
/// outside the world (no hit), holds a block (hit), or the walk steps on.
/// The fuel only bounds the recursion; `ray_get` never comes close to
/// exhausting it, since each axis can be stepped at most 258 times before
/// the voxel leaves the world.
#[verifier::opaque]
pub open spec fn ray_walk(w: World, c: RayConfig, s: RayState, fuel: nat) -> RayOutcome
    decreases fuel,
{
    if !spec_t_le_max(s.pn, s.pd, c.max) {
        RayOutcome { hit: false, block: 0, state: s }
    } else if !ray_in_bounds(s) {
        RayOutcome { hit: false, block: 0, state: s }
    } else if w.spec_block_xyz(s.ix, s.iy, s.iz) != AIR_BLOCK_ID {
        RayOutcome { hit: true, block: w.spec_block_xyz(s.ix, s.iy, s.iz), state: s }
    } else if fuel == 0 {
        RayOutcome { hit: false, block: 0, state: s }
    } else {
        ray_walk(w, c, ray_step(c, s), (fuel - 1) as nat)
    }
}

impl World {
    /// Walks the ray from `pos` along `dir` (both Q16.16; `dir` need not be
    /// normalized but must be nonzero) until it either enters a non-empty
    /// voxel, leaves the world, or exceeds `max_dist` (also Q16.16, in
    /// units of the ray parameter). On a hit the block's lid is returned,
    /// `iend` holds the hit voxel, and `norm` holds the entry face normal:
    /// one axis at minus the step direction, or all zero when the starting
    /// voxel itself is the hit. Without a hit, `None` is returned and
    /// `norm` is all zero. `pdist` always holds the ray parameter reached,
    /// as the exact fraction numerator over denominator. Ties between axes
    /// prefer z over y and y over x.
    #[verifier::spinoff_prover]
    #[verifier::rlimit(100)]
    pub fn ray_get(
        &self,
        pos: &[i64; 3],
        dir: &[i64; 3],
        max_dist: i64,
        pdist: &mut [i64; 2],
        norm: &mut [i8; 3],
        iend: &mut [u8; 3],
    ) -> (r: Option<u16>)
        requires
            self.wf(),
            -RAY_COORD_MAX <= pos[0] <= RAY_COORD_MAX,
            -RAY_COORD_MAX <= pos[1] <= RAY_COORD_MAX,
            -RAY_COORD_MAX <= pos[2] <= RAY_COORD_MAX,
            -RAY_COORD_MAX <= dir[0] <= RAY_COORD_MAX,
            -RAY_COORD_MAX <= dir[1] <= RAY_COORD_MAX,
            -RAY_COORD_MAX <= dir[2] <= RAY_COORD_MAX,
            dir[0] != 0 || dir[1] != 0 || dir[2] != 0,
            0 <= max_dist <= RAY_COORD_MAX,
        ensures
            final(pdist)[1] >= 1,
            r matches Some(b) ==> {
                &&& b == self.spec_block_xyz(
                    final(iend)[0] as int,
                    final(iend)[1] as int,
                    final(iend)[2] as int,
                )
                &&& b != AIR_BLOCK_ID
            },
            r is None ==> final(norm)[0] == 0 && final(norm)[1] == 0 && final(norm)[2] == 0,
            ({
                let outcome = ray_walk(
                    *self,
                    ray_config_of(*dir, max_dist),
                    ray_start_of(*pos, *dir),
                    800,
                );
                &&& (r is Some <==> outcome.hit)
                &&& (r matches Some(b) ==> b == outcome.block)
                &&& final(iend)[0] == outcome.state.ix as u8
                &&& final(iend)[1] == outcome.state.iy as u8
                &&& final(iend)[2] == outcome.state.iz as u8
                &&& final(pdist)[0] == outcome.state.pn
                &&& final(pdist)[1] == outcome.state.pd
                &&& (r is Some ==> final(norm)@ == ray_norm(
                    ray_config_of(*dir, max_dist),
                    outcome.state.stepind,
                )@)
            }),
    {
        let stepx: i8 = if dir[0] > 0 { 1 } else { -1 };
        let stepy: i8 = if dir[1] > 0 { 1 } else { -1 };
        let stepz: i8 = if dir[2] > 0 { 1 } else { -1 };

        let dx: i64 = if dir[0] > 0 { dir[0] } else { -dir[0] };
        let dy: i64 = if dir[1] > 0 { dir[1] } else { -dir[1] };
        let dz: i64 = if dir[2] > 0 { dir[2] } else { -dir[2] };

        let mut ipx: i64 = fx_trunc_exec(pos[0]);
        let mut ipy: i64 = fx_trunc_exec(pos[1]);
        let mut ipz: i64 = fx_trunc_exec(pos[2]);

        let mut nx: i64 = if stepx > 0 { (ipx + 1) * RAY_SCALE - pos[0] } else { pos[0] - ipx * RAY_SCALE };
        let mut ny: i64 = if stepy > 0 { (ipy + 1) * RAY_SCALE - pos[1] } else { pos[1] - ipy * RAY_SCALE };
        let mut nz: i64 = if stepz > 0 { (ipz + 1) * RAY_SCALE - pos[2] } else { pos[2] - ipz * RAY_SCALE };

        let mut pn: i64 = 0;
        let mut pd: i64 = 1;
        let mut stepind: i8 = -1;

        let ghost ip0x = ipx as int;
        let ghost ip0y = ipy as int;
        let ghost ip0z = ipz as int;
        let ghost n0x = nx as int;
        let ghost n0y = ny as int;
        let ghost n0z = nz as int;
        let ghost cfg = ray_config_of(*dir, max_dist);
        let ghost start = ray_start_of(*pos, *dir);
        proof {
            assert(cfg.sx == stepx as int && cfg.sy == stepy as int && cfg.sz == stepz as int);
            assert(cfg.dx == dx as int && cfg.dy == dy as int && cfg.dz == dz as int);
            assert(start == ray_state_of(ipx, ipy, ipz, nx, ny, nz, pn, pd, stepind));
        }

        while t_le_max(pn, pd, max_dist) && ipx <= 0xff && ipx >= 0x00 && ipy <= 0xff
            && ipy >= 0x00 && ipz <= 0xff && ipz >= 0x00
            invariant
                self.wf(),
                stepx == 1 || stepx == -1,
                stepy == 1 || stepy == -1,
                stepz == 1 || stepz == -1,
                0 <= dx <= RAY_COORD_MAX,
                0 <= dy <= RAY_COORD_MAX,
                0 <= dz <= RAY_COORD_MAX,
                dx > 0 || dy > 0 || dz > 0,
                0 <= max_dist <= RAY_COORD_MAX,
                -4096 <= ip0x <= 4096,
                -4096 <= ip0y <= 4096,
                -4096 <= ip0z <= 4096,
                -536936448 <= n0x <= 536936448,
                -536936448 <= n0y <= 536936448,
                -536936448 <= n0z <= 536936448,
                cfg == ray_config_of(*dir, max_dist),
                start == ray_start_of(*pos, *dir),
                cfg.sx == stepx as int && cfg.sy == stepy as int && cfg.sz == stepz as int,
                cfg.dx == dx as int && cfg.dy == dy as int && cfg.dz == dz as int,
                cfg.max == max_dist as int,
                (if stepx > 0 { ipx - ip0x } else { ip0x - ipx }) >= 0,
                (if stepy > 0 { ipy - ip0y } else { ip0y - ipy }) >= 0,
                (if stepz > 0 { ipz - ip0z } else { ip0z - ipz }) >= 0,
                nx == n0x + 65536 * (if stepx > 0 { ipx - ip0x } else { ip0x - ipx }),
                ny == n0y + 65536 * (if stepy > 0 { ipy - ip0y } else { ip0y - ipy }),
                nz == n0z + 65536 * (if stepz > 0 { ipz - ip0z } else { ip0z - ipz }),
                ipx != ip0x ==> (0 <= ip0x <= 255 && -1 <= ipx <= 256),
                ipy != ip0y ==> (0 <= ip0y <= 255 && -1 <= ipy <= 256),
                ipz != ip0z ==> (0 <= ip0z <= 255 && -1 <= ipz <= 256),
                -1073741824 <= nx <= 1073741824,
                -1073741824 <= ny <= 1073741824,
                -1073741824 <= nz <= 1073741824,
                -1073741824 <= pn <= 1073741824,
                1 <= pd <= RAY_COORD_MAX,
                -1 <= stepind <= 2,
                ray_walk(*self, cfg, start, 800) == ray_walk(
                    *self,
                    cfg,
                    ray_state_of(ipx, ipy, ipz, nx, ny, nz, pn, pd, stepind),
                    (800 - ((if stepx > 0 { ipx - ip0x } else { ip0x - ipx })
                        + (if stepy > 0 { ipy - ip0y } else { ip0y - ipy })
                        + (if stepz > 0 { ipz - ip0z } else { ip0z - ipz }))) as nat,
                ),
            decreases 774 - ((if stepx > 0 { ipx - ip0x } else { ip0x - ipx })
                + (if stepy > 0 { ipy - ip0y } else { ip0y - ipy })
                + (if stepz > 0 { ipz - ip0z } else { ip0z - ipz })),
        {
            {
                let bpos: [u8; 3] = [ipx as u8, ipy as u8, ipz as u8];
                let block: u16 = self.get_block(&bpos);
                if block != AIR_BLOCK_ID {
                    proof {
                        reveal_with_fuel(ray_walk, 1);
                        let cur = ray_state_of(ipx, ipy, ipz, nx, ny, nz, pn, pd, stepind);
                        let fuel = (800 - ((if stepx > 0 { ipx - ip0x } else { ip0x - ipx })
                            + (if stepy > 0 { ipy - ip0y } else { ip0y - ipy })
                            + (if stepz > 0 { ipz - ip0z } else { ip0z - ipz }))) as nat;
                        assert(ray_walk(*self, cfg, cur, fuel) == (RayOutcome {
                            hit: true,
                            block: self.spec_block_xyz(cur.ix, cur.iy, cur.iz),
                            state: cur,
                        }));
                    }
                    *iend = bpos;
                    let mut nrm: [i8; 3] = [0, 0, 0];
                    if stepind == 0 {
                        nrm = [-stepx, 0, 0];
                    } else if stepind == 1 {
                        nrm = [0, -stepy, 0];
                    } else if stepind == 2 {
                        nrm = [0, 0, -stepz];
                    }
                    *norm = nrm;
                    *pdist = [pn, pd];
                    return Some(block);
                }
                let ghost pre = ray_state_of(ipx, ipy, ipz, nx, ny, nz, pn, pd, stepind);
                let ghost kpre = (if stepx > 0 { ipx - ip0x } else { ip0x - ipx })
                    + (if stepy > 0 { ipy - ip0y } else { ip0y - ipy })
                    + (if stepz > 0 { ipz - ip0z } else { ip0z - ipz });
                proof {
                    reveal_with_fuel(ray_walk, 1);
                    assert(kpre <= 771);
                    assert(ray_walk(*self, cfg, pre, (800 - kpre) as nat) == ray_walk(
                        *self,
                        cfg,
                        ray_step(cfg, pre),
                        (800 - (kpre + 1)) as nat,
                    ));
                }
                if t_lt(nx, dx, ny, dy) {
                    if t_lt(nx, dx, nz, dz) {
                        proof {
                            assert(dx != 0);
                        }
                        ipx = ipx + (stepx as i64);
                        pn = nx;
                        pd = dx;
                        nx = nx + RAY_SCALE;
                        stepind = 0;
                        proof {
                            assert(ray_step(cfg, pre) == ray_state_of(ipx, ipy, ipz, nx, ny, nz,
                                pn, pd, stepind));
                        }
                    } else {
                        proof {
                            assert(dz != 0);
                        }
                        ipz = ipz + (stepz as i64);
                        pn = nz;
                        pd = dz;
                        nz = nz + RAY_SCALE;
                        stepind = 2;
                        proof {
                            assert(ray_step(cfg, pre) == ray_state_of(ipx, ipy, ipz, nx, ny, nz,
                                pn, pd, stepind));
                        }
                    }
                } else {
                    if t_lt(ny, dy, nz, dz) {
                        proof {
                            assert(dy != 0);
                        }
                        ipy = ipy + (stepy as i64);
                        pn = ny;
                        pd = dy;
                        ny = ny + RAY_SCALE;
                        stepind = 1;
                        proof {
                            assert(ray_step(cfg, pre) == ray_state_of(ipx, ipy, ipz, nx, ny, nz,
                                pn, pd, stepind));
                        }
                    } else {
                        proof {
                            assert(if dz == 0 {
                                dy == 0 && dx == 0
                            } else {
                                true
                            });
                            assert(dz != 0);
                        }
                        ipz = ipz + (stepz as i64);
                        pn = nz;
                        pd = dz;
                        nz = nz + RAY_SCALE;
                        stepind = 2;
                        proof {
                            assert(ray_step(cfg, pre) == ray_state_of(ipx, ipy, ipz, nx, ny, nz,
                                pn, pd, stepind));
                        }
                    }
                }
            }
        }

        proof {
            reveal_with_fuel(ray_walk, 1);
            let cur = ray_state_of(ipx, ipy, ipz, nx, ny, nz, pn, pd, stepind);
            let fuel = (800 - ((if stepx > 0 { ipx - ip0x } else { ip0x - ipx })
                + (if stepy > 0 { ipy - ip0y } else { ip0y - ipy })
                + (if stepz > 0 { ipz - ip0z } else { ip0z - ipz }))) as nat;
            assert(ray_walk(*self, cfg, cur, fuel) == (RayOutcome {
                hit: false,
                block: 0,
                state: cur,
            }));
        }

        #[verifier::truncate]
        let ex: u8 = ipx as u8;
        #[verifier::truncate]
        let ey: u8 = ipy as u8;
        #[verifier::truncate]
        let ez: u8 = ipz as u8;
        *iend = [ex, ey, ez];
        *norm = [0, 0, 0];
        *pdist = [pn, pd];
        None
    }
}

} // verus!
