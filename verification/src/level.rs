//! The static tile grid of a level, the entities living on it, and the
//! grid queries made against it — above all the DDA ray march used for
//! line-of-sight tests.

use vstd::prelude::*;
use vstd::arithmetic::div_mod::{
    lemma_fundamental_div_mod,
    lemma_fundamental_div_mod_converse_mod,
    lemma_div_is_ordered,
    lemma_div_multiples_vanish,
};
use crate::kmath::{Vec2, div_trunc, div_trunc_i64, iabs, in_world, khash, scale_mul, WORLD_MAX};
use crate::entity::{Entity, EntityCommand, EntityKind, EntityTable, lookup};
use crate::rng::{rand_range_i32, rand_u32};

verus! {

/// One cell of the walkability grid; the extra flags mark rendering hints
/// computed once after generation.
#[derive(PartialEq, Eq, Copy, Clone, Debug, Structural)]
pub struct Tile {
    pub walkable: bool,
    pub overhang: bool,
    pub underhang: bool,
    pub edge: bool,
}

/// A level: its walkability grid (row-major by x, `side_length` cells each
/// way, each cell `grid_size` world units wide) and its live entities.
pub struct Level {
    pub entities: EntityTable,
    pub tiles: Vec<Tile>,
    pub side_length: usize,
    pub grid_size: i64,
}

/// Distance from `u` to the next grid line in the direction of `sign`,
/// always in `(0, gs]`: standing exactly on a line counts a full cell.
pub open spec fn bound_spec(u: int, sign: int, gs: int) -> int
    recommends
        gs > 0,
{
    let r = u % gs;
    if r == 0 {
        gs
    } else if sign >= 0 {
        gs - r
    } else {
        r
    }
}

/// Grid steps the march can still take along one axis before it leaves the
/// interior band `[0, side - 2]` in its fixed direction.
pub open spec fn steps_left(g: int, positive: bool, side: int) -> int {
    if positive {
        if g >= side - 1 {
            0
        } else {
            side - 1 - g
        }
    } else {
        if g < 0 {
            0
        } else {
            g + 1
        }
    }
}

/// One tick of the DDA march, written as a recursion over the remaining
/// grid steps. Terminates by `steps_left`: every step moves the current
/// cell one column or one row further along its fixed direction.
pub open spec fn ray_march(
    tiles: Seq<Tile>,
    side: int,
    gs: int,
    dest_x: int,
    dest_y: int,
    dx: int,
    dy: int,
    grid_x: int,
    grid_y: int,
    march_x: int,
    march_y: int,
) -> Option<Vec2>
    recommends
        gs > 0,
    decreases steps_left(grid_x, dx > 0, side) + steps_left(grid_y, dy > 0, side),
{
    if grid_x < 0 || grid_x >= side - 1 || grid_y < 0 || grid_y >= side - 1 {
        Some(Vec2 { x: march_x as i64, y: march_y as i64 })
    } else if !tiles[grid_x * side + grid_y].walkable {
        Some(Vec2 { x: march_x as i64, y: march_y as i64 })
    } else if grid_x == dest_x && grid_y == dest_y {
        None
    } else {
        let sign_x: int = if dx > 0 {
            1
        } else {
            -1
        };
        let sign_y: int = if dy > 0 {
            1
        } else {
            -1
        };
        let x_d = bound_spec(march_x, sign_x, gs);
        let y_d = bound_spec(march_y, sign_y, gs);
        let choose_x = if dx == 0 {
            false
        } else if dy == 0 {
            true
        } else {
            x_d * iabs(dy) <= y_d * iabs(dx)
        };
        let x_m = if choose_x {
            x_d
        } else {
            div_trunc(y_d * iabs(dx), iabs(dy))
        };
        let y_m = if choose_x {
            div_trunc(x_d * iabs(dy), iabs(dx))
        } else {
            y_d
        };
        let new_grid_x = if x_m >= x_d {
            grid_x + sign_x
        } else {
            grid_x
        };
        let new_grid_y = if y_m >= y_d {
            grid_y + sign_y
        } else {
            grid_y
        };
        ray_march(
            tiles,
            side,
            gs,
            dest_x,
            dest_y,
            dx,
            dy,
            new_grid_x,
            new_grid_y,
            march_x + sign_x * x_m,
            march_y + sign_y * y_m,
        )
    }
}

/// What a ray from `origin` toward `dest` returns: `None` on a clear line
/// of sight to the destination cell, otherwise the march position at which
/// a non-walkable cell or the level boundary was reached.
pub open spec fn raycast_spec(tiles: Seq<Tile>, side: int, gs: int, origin: Vec2, dest: Vec2) -> Option<
    Vec2,
>
    recommends
        gs > 0,
{
    ray_march(
        tiles,
        side,
        gs,
        div_trunc(dest.x as int, gs),
        div_trunc(dest.y as int, gs),
        dest.x - origin.x,
        dest.y - origin.y,
        div_trunc(origin.x as int, gs),
        div_trunc(origin.y as int, gs),
        origin.x as int,
        origin.y as int,
    )
}

/// A zero-length ray terminates at once: it reports the boundary or a
/// blocking cell it already stands in, and a clear line of sight
/// otherwise.
pub proof fn lemma_raycast_self(tiles: Seq<Tile>, side: int, gs: int, p: Vec2)
    requires
        gs > 0,
    ensures
        ({
            let cx = div_trunc(p.x as int, gs);
            let cy = div_trunc(p.y as int, gs);
            raycast_spec(tiles, side, gs, p, p) == if cx < 0 || cx >= side - 1 || cy < 0 || cy
                >= side - 1 {
                Some(p)
            } else if !tiles[cx * side + cy].walkable {
                Some(p)
            } else {
                None::<Vec2>
            }
        }),
{
}

/// Distance from `u` to the next grid line toward `sign`.
fn bound_dist(u: i64, sign: i32, gs: i64) -> (r: i64)
    requires
        0 < gs <= 1_000_000,
        -0x4000_0000_0000_0000 < u < 0x4000_0000_0000_0000,
    ensures
        r == bound_spec(u as int, sign as int, gs as int),
        0 < r <= gs,
{
    let q = div_trunc_i64(u, gs);
    proof {
        lemma_fundamental_div_mod(u as int, gs as int);
        if u < 0 {
            lemma_fundamental_div_mod(-u as int, gs as int);
        }
        assert(q * gs == gs * q) by (nonlinear_arith);
        assert(-0x4000_0000_0000_0000 < q * gs < 0x4000_0000_0000_0000) by (nonlinear_arith)
            requires
                0 < gs <= 1_000_000,
                -0x4000_0000_0000_0000 < u < 0x4000_0000_0000_0000,
                q == div_trunc(u as int, gs as int),
        {
            assert(q == if u >= 0 {
                u as int / gs as int
            } else {
                -((-u) as int / gs as int)
            });
        };
    }
    let t = q * gs;
    let rem = u - t;
    let em = if rem < 0 {
        rem + gs
    } else {
        rem
    };
    proof {
        if u >= 0 {
            assert(q == u as int / gs as int);
            assert(u as int % gs as int == u - (u as int / gs as int) * gs) by {
                lemma_fundamental_div_mod(u as int, gs as int);
                assert(gs as int * (u as int / gs as int) == (u as int / gs as int) * gs)
                    by (nonlinear_arith);
            };
            assert(em == u as int % gs as int);
        } else {
            let un = (-u) as int;
            let gsi = gs as int;
            assert(q == -(un / gsi));
            lemma_fundamental_div_mod(un, gsi);
            assert(gsi * (un / gsi) == (un / gsi) * gsi) by (nonlinear_arith);
            assert(un == (un / gsi) * gsi + un % gsi);
            assert(q * gs == -((un / gsi) * gsi)) by (nonlinear_arith)
                requires
                    q == -(un / gsi),
                    gsi == gs,
            {};
            assert(rem == -(un % gsi));
            assert(0 <= un % gsi < gsi);
            if rem == 0 {
                lemma_fundamental_div_mod_converse_mod(u as int, gsi, q as int, 0);
                assert(em == u as int % gsi);
            } else {
                assert(em == gsi - un % gsi);
                assert(u as int == (q - 1) * gsi + em) by (nonlinear_arith)
                    requires
                        u == q * gs + rem,
                        rem == em - gs,
                        gsi == gs,
                {};
                lemma_fundamental_div_mod_converse_mod(u as int, gsi, q as int - 1, em as int);
                assert(em == u as int % gsi);
            }
        }
    }
    if em == 0 {
        gs
    } else if sign >= 0 {
        gs - em
    } else {
        em
    }
}

/// After marching `m` toward `sign` along one axis, the distance to the
/// next grid line has shrunk by `m`, or the march landed exactly on a line
/// and a full cell lies ahead.
proof fn lemma_bound_after_march(u: int, m: int, sign: int, gs: int)
    requires
        gs > 0,
        0 <= m <= bound_spec(u, sign, gs),
        sign == 1 || sign == -1,
    ensures
        ({
            let u2 = u + sign * m;
            &&& m < bound_spec(u, sign, gs) ==> bound_spec(u2, sign, gs) == bound_spec(u, sign, gs)
                - m
            &&& m == bound_spec(u, sign, gs) ==> bound_spec(u2, sign, gs) == gs
        }),
{
    let r = u % gs;
    let q = u / gs;
    lemma_fundamental_div_mod(u, gs);
    assert(u == gs * q + r);
    assert(0 <= r < gs);
    assert(q * gs == gs * q) by (nonlinear_arith);
    assert((q + 1) * gs == q * gs + gs) by (nonlinear_arith);
    assert((q - 1) * gs == q * gs - gs) by (nonlinear_arith);
    let u2 = u + sign * m;
    if sign == 1 {
        if r == 0 {
            // distance to the next line is a full cell
            if m < gs {
                lemma_fundamental_div_mod_converse_mod(u2, gs, q, m);
            } else {
                assert(m == gs);
                assert(u2 == gs * (q + 1) + 0) by (nonlinear_arith)
                    requires
                        u2 == gs * q + gs,
                {};
                lemma_fundamental_div_mod_converse_mod(u2, gs, q + 1, 0);
            }
        } else {
            // distance is gs - r
            if m < gs - r {
                lemma_fundamental_div_mod_converse_mod(u2, gs, q, r + m);
            } else {
                assert(m == gs - r);
                assert(u2 == gs * (q + 1) + 0) by (nonlinear_arith)
                    requires
                        u2 == gs * q + r + m,
                        m == gs - r,
                {};
                lemma_fundamental_div_mod_converse_mod(u2, gs, q + 1, 0);
            }
        }
    } else {
        if r == 0 {
            if m < gs {
                if m > 0 {
                    assert(u2 == gs * (q - 1) + (gs - m)) by (nonlinear_arith)
                        requires
                            u2 == gs * q - m,
                    {};
                    lemma_fundamental_div_mod_converse_mod(u2, gs, q - 1, gs - m);
                } else {
                    lemma_fundamental_div_mod_converse_mod(u2, gs, q, 0);
                }
            } else {
                assert(m == gs);
                assert(u2 == gs * (q - 1) + 0) by (nonlinear_arith)
                    requires
                        u2 == gs * q - gs,
                {};
                lemma_fundamental_div_mod_converse_mod(u2, gs, q - 1, 0);
            }
        } else {
            if m < r {
                lemma_fundamental_div_mod_converse_mod(u2, gs, q, r - m);
            } else {
                assert(m == r);
                lemma_fundamental_div_mod_converse_mod(u2, gs, q, 0);
            }
        }
    }
}

/// A march of `floor(xd * ady / adx)` along the other axis never
/// overshoots that axis's own distance when the chosen axis won the
/// comparison.
proof fn lemma_march_le(xd: int, yd: int, adx: int, ady: int)
    requires
        0 <= xd,
        0 <= yd,
        0 < adx,
        0 <= ady,
        xd * ady <= yd * adx,
    ensures
        0 <= div_trunc(xd * ady, adx) <= yd,
{
    assert(xd * ady >= 0) by (nonlinear_arith)
        requires
            0 <= xd,
            0 <= ady,
    {};
    lemma_div_is_ordered(xd * ady, yd * adx, adx);
    lemma_div_multiples_vanish(yd, adx);
    assert(adx * yd == yd * adx) by (nonlinear_arith);
}

impl Level {
    /// The grid is square with the declared side, and the scales stay in
    /// the range the fixed-point arithmetic supports.
    pub open spec fn grid_wf(&self) -> bool {
        &&& self.tiles@.len() == self.side_length * self.side_length
        &&& 0 < self.grid_size <= 1_000_000
        &&& 0 < self.side_length <= 40_000
    }

    /// Grid well-formedness plus a well-formed entity table.
    pub open spec fn wf(&self) -> bool {
        &&& self.grid_wf()
        &&& self.entities.wf()
    }

    /// The tile at `(i, j)`, if the indices lie on the grid.
    pub fn get_tile(&self, i: i32, j: i32) -> (r: Option<Tile>)
        requires
            self.grid_wf(),
        ensures
            0 <= i < self.side_length && 0 <= j < self.side_length ==> r == Some(
                self.tiles@[i * self.side_length + j],
            ),
            !(0 <= i < self.side_length && 0 <= j < self.side_length) ==> r is None,
    {
        let side = self.side_length as i32;
        if i >= 0 && i < side && j >= 0 && j < side {
            proof {
                assert(0 <= i * side + j < side * side && i * side + j <= 1_600_000_000)
                    by (nonlinear_arith)
                    requires
                        0 <= i < side,
                        0 <= j < side,
                        side <= 40_000,
                {};
            }
            Some(self.tiles[(i as usize) * self.side_length + (j as usize)])
        } else {
            None
        }
    }


    /// Mutable access to the tile at `(i, j)`, if the indices lie on the
    /// grid; the grid keeps exactly one tile changed, to whatever the
    /// caller writes through the reference.
    pub fn get_tile_mut(&mut self, i: i32, j: i32) -> (r: Option<&mut Tile>)
        requires
            old(self).grid_wf(),
        ensures
            final(self).side_length == old(self).side_length,
            final(self).grid_size == old(self).grid_size,
            final(self).entities == old(self).entities,
            0 <= i < old(self).side_length && 0 <= j < old(self).side_length ==> match r {
                Some(t) => *t == old(self).tiles@[i * old(self).side_length + j]
                    && final(self).tiles@ == old(self).tiles@.update(
                    i * old(self).side_length + j,
                    *final(t),
                ),
                None => false,
            },
            !(0 <= i < old(self).side_length && 0 <= j < old(self).side_length) ==> r is None
                && final(self).tiles@ == old(self).tiles@,
    {
        let side = self.side_length as i32;
        if i >= 0 && i < side && j >= 0 && j < side {
            proof {
                assert(0 <= i * side + j && i * side + j < side * side && i * side + j
                    <= 1_600_000_000) by (nonlinear_arith)
                    requires
                        0 <= i < side,
                        0 <= j < side,
                        side <= 40_000,
                {};
            }
            Some(&mut self.tiles[(i as usize) * self.side_length + (j as usize)])
        } else {
            None
        }
    }

    /// Overwrites the tile at `(i, j)`; the indices must lie on the grid.
    pub fn set_tile(&mut self, i: i32, j: i32, t: Tile)
        requires
            old(self).grid_wf(),
            0 <= i < old(self).side_length,
            0 <= j < old(self).side_length,
        ensures
            final(self).tiles@ == old(self).tiles@.update(i * old(self).side_length + j, t),
            final(self).side_length == old(self).side_length,
            final(self).grid_size == old(self).grid_size,
            final(self).entities == old(self).entities,
            final(self).grid_wf(),
    {
        let side = self.side_length;
        proof {
            assert(0 <= i * side + j < side * side && i * side + j <= 1_600_000_000)
                by (nonlinear_arith)
                requires
                    0 <= i < side,
                    0 <= j < side,
                    side <= 40_000,
            {};
        }
        self.tiles.set((i as usize) * side + (j as usize), t);
    }

    /// Applies one intent to the entity it names; an id that no longer
    /// resolves is ignored. A movement intent carries a direction of at
    /// most unit length, scaled by the entity's own speed.
    pub fn apply_command(&mut self, command: EntityCommand)
        requires
            old(self).entities.wf(),
            ({
                match command {
                    EntityCommand::Move(_, dir) => iabs(dir.x as int) <= crate::kmath::FP_SCALE
                        && iabs(dir.y as int) <= crate::kmath::FP_SCALE,
                    _ => true,
                }
            }),
        ensures
            final(self).entities.wf(),
            final(self).tiles@ == old(self).tiles@,
            final(self).side_length == old(self).side_length,
            final(self).grid_size == old(self).grid_size,
            ({
                match command {
                    EntityCommand::Move(id, dir) => match lookup(old(self).entities@, id) {
                        Some(e) => iabs(e.speed as int) <= WORLD_MAX ==> lookup(
                            final(self).entities@,
                            id,
                        ) == Some(
                            Entity {
                                velocity: Vec2 {
                                    x: scale_mul(e.speed as int, dir.x as int) as i64,
                                    y: scale_mul(e.speed as int, dir.y as int) as i64,
                                },
                                ..e
                            },
                        ) && (forall|other: u32|
                            other != id ==> lookup(final(self).entities@, other) == lookup(
                                old(self).entities@,
                                other,
                            )),
                        None => final(self).entities@ == old(self).entities@,
                    },
                    EntityCommand::Shoot(id, dir) => match lookup(old(self).entities@, id) {
                        Some(e) => lookup(final(self).entities@, id) == Some(
                            Entity { want_shoot: true, previous_shoot_dir: dir, ..e },
                        ) && (forall|other: u32|
                            other != id ==> lookup(final(self).entities@, other) == lookup(
                                old(self).entities@,
                                other,
                            )),
                        None => final(self).entities@ == old(self).entities@,
                    },
                    EntityCommand::Unshoot(id) => match lookup(old(self).entities@, id) {
                        Some(e) => lookup(final(self).entities@, id) == Some(
                            Entity { want_shoot: false, ..e },
                        ) && (forall|other: u32|
                            other != id ==> lookup(final(self).entities@, other) == lookup(
                                old(self).entities@,
                                other,
                            )),
                        None => final(self).entities@ == old(self).entities@,
                    },
                }
            }),
    {
        match command {
            EntityCommand::Move(id, dir) => {
                match self.entities.get(id) {
                    Some(ent) => {
                        if -WORLD_MAX <= ent.speed && ent.speed <= WORLD_MAX {
                            proof {
                                assert(iabs(ent.speed as int * dir.x as int) <= 1_000_000_000_000)
                                    by (nonlinear_arith)
                                    requires
                                        iabs(ent.speed as int) <= 1_000_000_000,
                                        iabs(dir.x as int) <= 1000,
                                {};
                                assert(iabs(ent.speed as int * dir.y as int) <= 1_000_000_000_000)
                                    by (nonlinear_arith)
                                    requires
                                        iabs(ent.speed as int) <= 1_000_000_000,
                                        iabs(dir.y as int) <= 1000,
                                {};
                            }
                            let vx = div_trunc_i64(ent.speed * dir.x, crate::kmath::FP_SCALE);
                            let vy = div_trunc_i64(ent.speed * dir.y, crate::kmath::FP_SCALE);
                            let moved = ent.with_velocity(Vec2::new(vx, vy));
                            self.entities.insert(id, moved);
                        }
                    },
                    None => {},
                }
            },
            EntityCommand::Shoot(id, dir) => {
                match self.entities.get(id) {
                    Some(ent) => {
                        let mut e = ent;
                        e.want_shoot = true;
                        e.previous_shoot_dir = dir;
                        self.entities.insert(id, e);
                    },
                    None => {},
                }
            },
            EntityCommand::Unshoot(id) => {
                match self.entities.get(id) {
                    Some(ent) => {
                        let mut e = ent;
                        e.want_shoot = false;
                        self.entities.insert(id, e);
                    },
                    None => {},
                }
            },
        }
    }

    /// Marches a ray from `ray_origin` toward `ray_destination` cell by
    /// cell: returns the point at which it enters a non-walkable cell or
    /// reaches the level boundary, and `None` once it reaches the
    /// destination's cell first (a clear line of sight). A zero-length ray
    /// terminates immediately with the answer for its own cell; the march
    /// is proved to take at most one grid crossing per step, so no
    /// iteration cap is needed.
    #[verifier::loop_isolation(false)]
    #[verifier::rlimit(60)]
    pub fn raycast(&self, ray_origin: Vec2, ray_destination: Vec2) -> (r: Option<Vec2>)
        requires
            self.grid_wf(),
            in_world(ray_origin.x as int),
            in_world(ray_origin.y as int),
            in_world(ray_destination.x as int),
            in_world(ray_destination.y as int),
        ensures
            r == raycast_spec(
                self.tiles@,
                self.side_length as int,
                self.grid_size as int,
                ray_origin,
                ray_destination,
            ),
    {
        let gs = self.grid_size;
        let side = self.side_length as i32;

        let mut grid_x: i32 = div_trunc_i64(ray_origin.x, gs) as i32;
        let mut grid_y: i32 = div_trunc_i64(ray_origin.y, gs) as i32;
        let grid_dest_x: i32 = div_trunc_i64(ray_destination.x, gs) as i32;
        let grid_dest_y: i32 = div_trunc_i64(ray_destination.y, gs) as i32;

        let delta_x = ray_destination.x - ray_origin.x;
        let delta_y = ray_destination.y - ray_origin.y;
        let sign_x: i32 = if delta_x > 0 {
            1
        } else {
            -1
        };
        let sign_y: i32 = if delta_y > 0 {
            1
        } else {
            -1
        };

        let mut actual_march_x: i64 = ray_origin.x;
        let mut actual_march_y: i64 = ray_origin.y;

        let mut next_tile_in_x: i64 = bound_dist(actual_march_x, sign_x, gs);
        let mut next_tile_in_y: i64 = bound_dist(actual_march_y, sign_y, gs);

        let ghost target = raycast_spec(
            self.tiles@,
            self.side_length as int,
            self.grid_size as int,
            ray_origin,
            ray_destination,
        );
        let ghost t0 = steps_left(grid_x as int, delta_x > 0, side as int) + steps_left(
            grid_y as int,
            delta_y > 0,
            side as int,
        );
        let ghost g0x = grid_x as int;
        let ghost g0y = grid_y as int;
        proof {
            assert(iabs(g0x) <= 1_500_000_000 && iabs(g0y) <= 1_500_000_000);
            assert(t0 <= 4_000_000_000);
        }

        loop
            invariant
                next_tile_in_x == bound_spec(actual_march_x as int, sign_x as int, gs as int),
                next_tile_in_y == bound_spec(actual_march_y as int, sign_y as int, gs as int),
                target == ray_march(
                    self.tiles@,
                    side as int,
                    gs as int,
                    grid_dest_x as int,
                    grid_dest_y as int,
                    delta_x as int,
                    delta_y as int,
                    grid_x as int,
                    grid_y as int,
                    actual_march_x as int,
                    actual_march_y as int,
                ),
                delta_x == 0 && delta_y == 0 ==> grid_x == grid_dest_x && grid_y == grid_dest_y,
                grid_x as int == g0x || -1 <= grid_x <= side - 1,
                grid_y as int == g0y || -1 <= grid_y <= side - 1,
                iabs(actual_march_x as int) + gs * (steps_left(grid_x as int, delta_x > 0, side as int)
                    + steps_left(grid_y as int, delta_y > 0, side as int)) <= WORLD_MAX + gs * t0,
                iabs(actual_march_y as int) + gs * (steps_left(grid_x as int, delta_x > 0, side as int)
                    + steps_left(grid_y as int, delta_y > 0, side as int)) <= WORLD_MAX + gs * t0,
                steps_left(grid_x as int, delta_x > 0, side as int) + steps_left(
                    grid_y as int,
                    delta_y > 0,
                    side as int,
                ) <= t0,
            decreases steps_left(grid_x as int, delta_x > 0, side as int) + steps_left(
                grid_y as int,
                delta_y > 0,
                side as int,
            ),
        {
            let ghost cur_total = steps_left(grid_x as int, delta_x > 0, side as int) + steps_left(
                grid_y as int,
                delta_y > 0,
                side as int,
            );
            proof {
                assert(0 <= cur_total);
                assert(gs * cur_total >= 0) by (nonlinear_arith)
                    requires
                        gs > 0,
                        cur_total >= 0,
                {};
                assert(gs * cur_total <= gs * t0) by (nonlinear_arith)
                    requires
                        gs > 0,
                        0 <= cur_total <= t0,
                {};
                assert(gs * t0 <= 1_000_000 * t0) by (nonlinear_arith)
                    requires
                        0 < gs <= 1_000_000,
                        t0 >= 0,
                {};
            }
            // leaving the level counts as a hit on its boundary
            if grid_x < 0 || grid_x >= side - 1 || grid_y < 0 || grid_y >= side - 1 {
                return Some(Vec2::new(actual_march_x, actual_march_y));
            }
            // a wall stops the ray at the current march point
            proof {
                assert(0 <= grid_x * side + grid_y && grid_x * side + grid_y < side * side
                    && grid_x * side + grid_y <= 1_600_000_000) by (nonlinear_arith)
                    requires
                        0 <= grid_x && grid_x < side - 1,
                        0 <= grid_y && grid_y < side - 1,
                        1 <= side <= 40_000,
                {};
            }
            if !self.tiles[(grid_x * side + grid_y) as usize].walkable {
                return Some(Vec2::new(actual_march_x, actual_march_y));
            }
            // reaching the destination cell first means clear sight
            if grid_x == grid_dest_x && grid_y == grid_dest_y {
                return None;
            }

            let x_distance = bound_dist(actual_march_x, sign_x, gs);
            let y_distance = bound_dist(actual_march_y, sign_y, gs);
            let abs_dx = if delta_x >= 0 {
                delta_x
            } else {
                -delta_x
            };
            let abs_dy = if delta_y >= 0 {
                delta_y
            } else {
                -delta_y
            };
            proof {
                assert(x_distance * abs_dy <= 1_000_000 * 2_000_000_000 && x_distance * abs_dy >= 0)
                    by (nonlinear_arith)
                    requires
                        0 <= x_distance <= 1_000_000,
                        0 <= abs_dy <= 2_000_000_000,
                {};
                assert(y_distance * abs_dx <= 1_000_000 * 2_000_000_000 && y_distance * abs_dx >= 0)
                    by (nonlinear_arith)
                    requires
                        0 <= y_distance <= 1_000_000,
                        0 <= abs_dx <= 2_000_000_000,
                {};
            }
            let choose_x = if delta_x == 0 {
                false
            } else if delta_y == 0 {
                true
            } else {
                x_distance * abs_dy <= y_distance * abs_dx
            };
            let x_to_march: i64;
            let y_to_march: i64;
            if choose_x {
                x_to_march = x_distance;
                y_to_march = div_trunc_i64(x_distance * abs_dy, abs_dx);
                proof {
                    if delta_y == 0 {
                        assert(x_distance * abs_dy == 0) by (nonlinear_arith)
                            requires
                                abs_dy == 0,
                        {};
                        assert(y_to_march == 0);
                    } else {
                        lemma_march_le(
                            x_distance as int,
                            y_distance as int,
                            abs_dx as int,
                            abs_dy as int,
                        );
                    }
                    assert(0 <= y_to_march <= y_distance);
                }
            } else {
                y_to_march = y_distance;
                x_to_march = div_trunc_i64(y_distance * abs_dx, abs_dy);
                proof {
                    if delta_x == 0 {
                        assert(y_distance * abs_dx == 0) by (nonlinear_arith)
                            requires
                                abs_dx == 0,
                        {};
                        assert(x_to_march == 0);
                    } else {
                        assert(y_distance * abs_dx < x_distance * abs_dy);
                        lemma_march_le(
                            y_distance as int,
                            x_distance as int,
                            abs_dy as int,
                            abs_dx as int,
                        );
                    }
                    assert(0 <= x_to_march <= x_distance);
                }
            }

            proof {
                lemma_bound_after_march(
                    actual_march_x as int,
                    x_to_march as int,
                    sign_x as int,
                    gs as int,
                );
                lemma_bound_after_march(
                    actual_march_y as int,
                    y_to_march as int,
                    sign_y as int,
                    gs as int,
                );
            }

            let ghost om_x = actual_march_x as int;
            let ghost om_y = actual_march_y as int;
            let ghost og_x = grid_x as int;
            let ghost og_y = grid_y as int;
            let ghost ontx = next_tile_in_x as int;
            let ghost onty = next_tile_in_y as int;
            proof {
                assert(ontx == x_distance as int);
                assert(onty == y_distance as int);
            }

            // march the ray
            actual_march_x = actual_march_x + (if sign_x > 0 {
                x_to_march
            } else {
                -x_to_march
            });
            actual_march_y = actual_march_y + (if sign_y > 0 {
                y_to_march
            } else {
                -y_to_march
            });

            // cross into the neighboring cell where a grid line was reached
            next_tile_in_x = next_tile_in_x - x_to_march;
            if next_tile_in_x <= 0 {
                next_tile_in_x = next_tile_in_x + gs;
                grid_x = grid_x + sign_x;
            }
            next_tile_in_y = next_tile_in_y - y_to_march;
            if next_tile_in_y <= 0 {
                next_tile_in_y = next_tile_in_y + gs;
                grid_y = grid_y + sign_y;
            }

            proof {
                assert(sign_x == 1 || sign_x == -1);
                assert(sign_y == 1 || sign_y == -1);
                if sign_x == 1 {
                    assert((sign_x as int) * (x_to_march as int) == x_to_march as int)
                        by (nonlinear_arith)
                        requires
                            sign_x == 1,
                    {};
                } else {
                    assert((sign_x as int) * (x_to_march as int) == -(x_to_march as int))
                        by (nonlinear_arith)
                        requires
                            sign_x == -1,
                    {};
                }
                if sign_y == 1 {
                    assert((sign_y as int) * (y_to_march as int) == y_to_march as int)
                        by (nonlinear_arith)
                        requires
                            sign_y == 1,
                    {};
                } else {
                    assert((sign_y as int) * (y_to_march as int) == -(y_to_march as int))
                        by (nonlinear_arith)
                        requires
                            sign_y == -1,
                    {};
                }
                assert(actual_march_x as int == om_x + (sign_x as int) * (x_to_march as int));
                assert(actual_march_y as int == om_y + (sign_y as int) * (y_to_march as int));
                // the crossing tests fire exactly when a full cell distance was marched
                assert(grid_x as int == if x_to_march as int >= x_distance as int {
                    og_x + sign_x as int
                } else {
                    og_x
                });
                assert(grid_y as int == if y_to_march as int >= y_distance as int {
                    og_y + sign_y as int
                } else {
                    og_y
                });
                // the stored distances still measure to the next grid line
                if x_to_march < x_distance {
                    assert(bound_spec(actual_march_x as int, sign_x as int, gs as int)
                        == x_distance - x_to_march);
                    assert(next_tile_in_x == x_distance - x_to_march);
                } else {
                    assert(x_to_march == x_distance);
                    assert(bound_spec(actual_march_x as int, sign_x as int, gs as int) == gs as int);
                    assert(next_tile_in_x == gs);
                }
                if y_to_march < y_distance {
                    assert(bound_spec(actual_march_y as int, sign_y as int, gs as int)
                        == y_distance - y_to_march);
                    assert(next_tile_in_y == y_distance - y_to_march);
                } else {
                    assert(y_to_march == y_distance);
                    assert(bound_spec(actual_march_y as int, sign_y as int, gs as int) == gs as int);
                    assert(next_tile_in_y == gs);
                }
                let new_total = steps_left(grid_x as int, delta_x > 0, side as int) + steps_left(
                    grid_y as int,
                    delta_y > 0,
                    side as int,
                );
                assert(steps_left(grid_x as int, delta_x > 0, side as int) <= steps_left(
                    og_x,
                    delta_x > 0,
                    side as int,
                ));
                assert(steps_left(grid_y as int, delta_y > 0, side as int) <= steps_left(
                    og_y,
                    delta_y > 0,
                    side as int,
                ));
                if choose_x {
                    assert(grid_x as int == og_x + sign_x);
                    assert(steps_left(grid_x as int, delta_x > 0, side as int) <= steps_left(
                        og_x,
                        delta_x > 0,
                        side as int,
                    ) - 1);
                } else {
                    assert(grid_y as int == og_y + sign_y);
                    assert(steps_left(grid_y as int, delta_y > 0, side as int) <= steps_left(
                        og_y,
                        delta_y > 0,
                        side as int,
                    ) - 1);
                }
                assert(new_total <= cur_total - 1);
                assert(gs * new_total <= gs * (cur_total - 1)) by (nonlinear_arith)
                    requires
                        gs > 0,
                        new_total <= cur_total - 1,
                {};
                assert(gs * (cur_total - 1) == gs * cur_total - gs) by (nonlinear_arith);
                assert(iabs(actual_march_x as int) <= iabs(om_x) + x_to_march);
                assert(iabs(actual_march_y as int) <= iabs(om_y) + y_to_march);
                assert(target == ray_march(
                    self.tiles@,
                    side as int,
                    gs as int,
                    grid_dest_x as int,
                    grid_dest_y as int,
                    delta_x as int,
                    delta_y as int,
                    grid_x as int,
                    grid_y as int,
                    actual_march_x as int,
                    actual_march_y as int,
                )) by {
                    let x_d_s = bound_spec(om_x, sign_x as int, gs as int);
                    let y_d_s = bound_spec(om_y, sign_y as int, gs as int);
                    assert(x_d_s == x_distance as int);
                    assert(y_d_s == y_distance as int);
                    assert(iabs(delta_x as int) == abs_dx as int);
                    assert(iabs(delta_y as int) == abs_dy as int);
                    let ch = if delta_x as int == 0 {
                        false
                    } else if delta_y as int == 0 {
                        true
                    } else {
                        x_d_s * iabs(delta_y as int) <= y_d_s * iabs(delta_x as int)
                    };
                    assert(ch == choose_x);
                    let x_m_s = if ch {
                        x_d_s
                    } else {
                        div_trunc(y_d_s * iabs(delta_x as int), iabs(delta_y as int))
                    };
                    let y_m_s = if ch {
                        div_trunc(x_d_s * iabs(delta_y as int), iabs(delta_x as int))
                    } else {
                        y_d_s
                    };
                    assert(x_m_s == x_to_march as int);
                    assert(y_m_s == y_to_march as int);
                    assert(ray_march(
                        self.tiles@,
                        side as int,
                        gs as int,
                        grid_dest_x as int,
                        grid_dest_y as int,
                        delta_x as int,
                        delta_y as int,
                        og_x,
                        og_y,
                        om_x,
                        om_y,
                    ) == ray_march(
                        self.tiles@,
                        side as int,
                        gs as int,
                        grid_dest_x as int,
                        grid_dest_y as int,
                        delta_x as int,
                        delta_y as int,
                        grid_x as int,
                        grid_y as int,
                        actual_march_x as int,
                        actual_march_y as int,
                    ));
                };
            }
        }
    }
}

/// Parameters of the walker-carved level generator; the direction-change
/// chance is counted in thousandths.
#[derive(Debug)]
pub struct LevelGenParams {
    pub side_length: i32,
    pub num_walkers: i32,
    pub walk_iters: i32,
    pub p_change_dir: i64,
}

impl LevelGenParams {
    pub fn new() -> (r: LevelGenParams)
        ensures
            r.side_length == 20,
            r.num_walkers == 20,
            r.walk_iters == 20,
            r.p_change_dir == 300,
    {
        LevelGenParams { side_length: 20, num_walkers: 20, walk_iters: 20, p_change_dir: 300 }
    }

    /// Freshly rolled parameters, each within its documented range.
    pub fn new_rand() -> (r: LevelGenParams)
        ensures
            15 <= r.side_length < 50,
            15 <= r.num_walkers < 50,
            5 <= r.walk_iters < 40,
            100 <= r.p_change_dir < 500,
    {
        LevelGenParams {
            side_length: rand_range_i32(15, 50),
            num_walkers: rand_range_i32(15, 50),
            walk_iters: rand_range_i32(5, 40),
            p_change_dir: rand_range_i32(100, 500) as i64,
        }
    }
}

/// Whether the position list already holds `p`.
fn contains_pos(v: &Vec<(i32, i32)>, p: (i32, i32)) -> (r: bool)
    ensures
        r == v@.contains(p),
{
    let mut i: usize = 0;
    while i < v.len()
        invariant
            i <= v@.len(),
            forall|k: int| 0 <= k < i ==> v@[k] != p,
        decreases v@.len() - i,
    {
        if v[i].0 == p.0 && v[i].1 == p.1 {
            proof {
                assert(v@[i as int] == p);
            }
            return true;
        }
        i = i + 1;
    }
    proof {
        assert(!v@.contains(p)) by {
            if v@.contains(p) {
                let k = choose|k: int| 0 <= k < v@.len() && v@[k] == p;
                assert(v@[k] != p);
            }
        };
    }
    false
}

impl Level {
    /// Recomputes the rendering-hint flags of every tile from its
    /// vertical neighbors; which cells are walkable never changes.
    #[verifier::loop_isolation(false)]
    fn mark_tile_features(&mut self)
        requires
            old(self).grid_wf(),
        ensures
            final(self).grid_wf(),
            final(self).side_length == old(self).side_length,
            final(self).grid_size == old(self).grid_size,
            final(self).entities == old(self).entities,
            final(self).tiles@.len() == old(self).tiles@.len(),
            forall|k: int|
                0 <= k < final(self).tiles@.len() ==> (#[trigger] final(self).tiles@[k]).walkable
                    == old(self).tiles@[k].walkable,
    {
        let side = self.side_length as i32;
        let mut i: i32 = 0;
        while i < side
            invariant
                self.grid_wf(),
                self.side_length == old(self).side_length,
                self.grid_size == old(self).grid_size,
                self.entities == old(self).entities,
                side == self.side_length,
                0 <= i <= side,
                self.tiles@.len() == old(self).tiles@.len(),
                forall|k: int|
                    0 <= k < self.tiles@.len() ==> (#[trigger] self.tiles@[k]).walkable == old(
                        self,
                    ).tiles@[k].walkable,
            decreases side - i,
        {
            let mut j: i32 = 0;
            while j < side
                invariant
                    self.grid_wf(),
                    self.side_length == old(self).side_length,
                    self.grid_size == old(self).grid_size,
                    self.entities == old(self).entities,
                    side == self.side_length,
                    0 <= i < side,
                    0 <= j <= side,
                    self.tiles@.len() == old(self).tiles@.len(),
                    forall|k: int|
                        0 <= k < self.tiles@.len() ==> (#[trigger] self.tiles@[k]).walkable == old(
                            self,
                        ).tiles@[k].walkable,
                decreases side - j,
            {
                let maybe_below = self.get_tile(i, j + 1);
                let maybe_above = self.get_tile(i, j - 1);
                let ghost pre_tiles = self.tiles@;
                match self.get_tile(i, j) {
                    Some(tile) => {
                        let mut t = tile;
                        if t.walkable {
                            match maybe_above {
                                Some(above) => {
                                    if !above.walkable {
                                        t.underhang = true;
                                    }
                                },
                                None => {},
                            }
                            match maybe_below {
                                Some(below) => {
                                    if !below.walkable {
                                        t.overhang = true;
                                    }
                                },
                                None => {},
                            }
                        } else {
                            match maybe_below {
                                Some(below) => {
                                    if below.walkable {
                                        t.edge = true;
                                    }
                                },
                                None => {},
                            }
                        }
                        self.set_tile(i, j, t);
                        proof {
                            let ghost sl = old(self).side_length as int;
                            assert(0 <= i * sl + j && i * sl + j < sl * sl) by (nonlinear_arith)
                                requires
                                    0 <= i && i < sl,
                                    0 <= j && j < sl,
                            {};
                            assert(t.walkable == pre_tiles[i * old(self).side_length + j].walkable);
                            assert forall|k: int| 0 <= k < self.tiles@.len() implies (
                            #[trigger] self.tiles@[k]).walkable == pre_tiles[k].walkable by {
                                if k == i * old(self).side_length + j {
                                    assert(self.tiles@[k] == t);
                                } else {
                                    assert(self.tiles@[k] == pre_tiles[k]);
                                }
                            }
                        }
                    },
                    None => {
                        proof {
                            assert(false);
                        }
                    },
                }
                j = j + 1;
            }
            i = i + 1;
        }
    }

    /// Carves a level with randomly walking diggers from the center,
    /// places the player on the carved cell farthest from the middle and
    /// an enemy on every other digger resting place, then computes the
    /// tile rendering hints.
    #[verifier::loop_isolation(false)]
    #[verifier::rlimit(100)]
    pub fn new(player: Entity) -> (r: Level)
        ensures
            r.wf(),
            15 <= r.side_length < 50,
            r.grid_size == 200,
            lookup(r.entities@, 0) is Some,
    {
        let params = LevelGenParams::new_rand();
        let side = params.side_length;

        proof {
            assert(0 <= side * side <= 2500) by (nonlinear_arith)
                requires
                    15 <= side < 50,
            {};
        }
        let total: usize = (side as usize) * (side as usize);
        let start_tile = Tile { walkable: false, overhang: false, underhang: false, edge: false };
        let mut tiles: Vec<Tile> = Vec::new();
        let mut k: usize = 0;
        while k < total
            invariant
                k <= total,
                tiles@.len() == k,
            decreases total - k,
        {
            tiles.push(start_tile);
            k = k + 1;
        }

        let mut level = Level {
            entities: EntityTable::new(),
            tiles,
            side_length: side as usize,
            grid_size: 200,
        };

        let mut walkers: Vec<(i32, i32, i32, bool)> = Vec::new();
        let mut wk: i32 = 0;
        while wk < params.num_walkers
            invariant
                0 <= wk,
                walkers@.len() == wk,
                forall|q: int|
                    0 <= q < walkers@.len() ==> {
                        let wp = #[trigger] walkers@[q];
                        &&& 0 < wp.0 < side - 1
                        &&& 0 < wp.1 < side - 1
                        &&& 0 <= wp.2 < 4
                    },
            decreases params.num_walkers - wk,
        {
            walkers.push((side / 2, side / 2, rand_range_i32(0, 4), true));
            wk = wk + 1;
        }

        let open_tile = Tile { walkable: true, overhang: false, underhang: false, edge: false };
        level.set_tile(side / 2, side / 2, open_tile);

        let mut it: i32 = 0;
        while it < params.walk_iters
            invariant
                level.grid_wf(),
                level.side_length == side,
                level.grid_size == 200,
                level.entities.wf(),
                forall|q: int|
                    0 <= q < walkers@.len() ==> {
                        let wp = #[trigger] walkers@[q];
                        &&& 0 < wp.0 < side - 1
                        &&& 0 < wp.1 < side - 1
                        &&& 0 <= wp.2 < 4
                    },
            decreases params.walk_iters - it,
        {
            let mut wi: usize = 0;
            while wi < walkers.len()
                invariant
                    level.grid_wf(),
                    level.side_length == side,
                    level.grid_size == 200,
                    level.entities.wf(),
                    wi <= walkers@.len(),
                    forall|q: int|
                        0 <= q < walkers@.len() ==> {
                            let wp = #[trigger] walkers@[q];
                            &&& 0 < wp.0 < side - 1
                            &&& 0 < wp.1 < side - 1
                            &&& 0 <= wp.2 < 4
                        },
                decreases walkers@.len() - wi,
            {
                let (wx, wy, wdir, alive) = walkers[wi];
                if alive {
                    let mut dir_now = wdir;
                    // maybe change direction
                    if rand_range_i32(0, 1000) < params.p_change_dir as i32 {
                        let mut idx = rand_range_i32(0, 3);
                        if idx >= dir_now {
                            idx = idx + 1;
                        }
                        dir_now = idx;
                    }
                    // advance; a walker dies instead of stepping off the rim
                    let (dx, dy): (i32, i32) = match dir_now {
                        0 => (1, 0),
                        1 => (-1, 0),
                        2 => (0, -1),
                        _ => (0, 1),
                    };
                    let cx = wx + dx;
                    let cy = wy + dy;
                    if cx <= 0 || cy <= 0 || cx >= side - 1 || cy >= side - 1 {
                        walkers.set(wi, (wx, wy, dir_now, false));
                    } else {
                        walkers.set(wi, (cx, cy, dir_now, true));
                        level.set_tile(cx, cy, open_tile);
                    }
                }
                wi = wi + 1;
            }
            it = it + 1;
        }

        let mut positions: Vec<(i32, i32)> = Vec::new();
        let mut wi: usize = 0;
        while wi < walkers.len()
            invariant
                wi <= walkers@.len(),
                wi >= 1 ==> positions@.len() >= 1,
                forall|q: int|
                    0 <= q < positions@.len() ==> {
                        let p = #[trigger] positions@[q];
                        0 < p.0 < side - 1 && 0 < p.1 < side - 1
                    },
                forall|q: int|
                    0 <= q < walkers@.len() ==> {
                        let wp = #[trigger] walkers@[q];
                        0 < wp.0 < side - 1 && 0 < wp.1 < side - 1
                    },
            decreases walkers@.len() - wi,
        {
            let (wx, wy, _, _) = walkers[wi];
            if !contains_pos(&positions, (wx, wy)) {
                positions.push((wx, wy));
            } else {
                proof {
                    assert(positions@.len() >= 1) by {
                        assert(positions@.contains((wx, wy)));
                    };
                }
            }
            wi = wi + 1;
        }

        // the resting place farthest from the center becomes the spawn
        let mut best: (i32, i32) = (side / 2, side / 2);
        let mut best_d: i64 = -1;
        let mut pi: usize = 0;
        while pi < positions.len()
            invariant
                pi <= positions@.len(),
                0 <= best.0 < side,
                0 <= best.1 < side,
                forall|q: int|
                    0 <= q < positions@.len() ==> {
                        let p = #[trigger] positions@[q];
                        0 < p.0 < side - 1 && 0 < p.1 < side - 1
                    },
            decreases positions@.len() - pi,
        {
            let p = positions[pi];
            let px64 = (p.0 - side / 2) as i64;
            let py64 = (p.1 - side / 2) as i64;
            proof {
                assert(px64 * px64 + py64 * py64 <= 5000) by (nonlinear_arith)
                    requires
                        -50 <= px64 <= 50,
                        -50 <= py64 <= 50,
                {};
                assert(px64 * px64 >= 0 && py64 * py64 >= 0) by (nonlinear_arith);
            }
            let d: i64 = px64 * px64 + py64 * py64;
            if d >= best_d {
                best = p;
                best_d = d;
            }
            pi = pi + 1;
        }

        let gs: i64 = 200;
        let player_pos_x = best.0 as i64 * gs + gs / 2;
        let player_pos_y = best.1 as i64 * gs + gs / 2;
        let mut placed = player;
        placed.aabb.x = player_pos_x - player.aabb.w / 2;
        placed.aabb.y = player_pos_y - player.aabb.h / 2;
        level.entities.insert(0, placed);

        let mut pi: usize = 0;
        while pi < positions.len()
            invariant
                pi <= positions@.len(),
                level.grid_wf(),
                level.side_length == side,
                level.grid_size == 200,
                level.entities.wf(),
                lookup(level.entities@, 0) is Some,
                forall|q: int|
                    0 <= q < positions@.len() ==> {
                        let p = #[trigger] positions@[q];
                        0 < p.0 < side - 1 && 0 < p.1 < side - 1
                    },
            decreases positions@.len() - pi,
        {
            let p = positions[pi];
            if !(p.0 == best.0 && p.1 == best.1) {
                let px = p.0 as i64 * gs + gs / 2;
                let py = p.1 as i64 * gs + gs / 2;
                let kind = match rand_range_i32(0, 3) {
                    0 => EntityKind::WalkerShooter,
                    1 => EntityKind::RunnerGunner,
                    _ => EntityKind::Chungus,
                };
                let e = Entity::new(kind, Vec2::new(px, py));
                level.entities.insert(rand_u32(), e);
            }
            pi = pi + 1;
        }

        level.mark_tile_features();
        level
    }

    /// Builds a level from the composite cave generator: its grid becomes
    /// the tiles, the player spawns on the generator's pick, and a hashed
    /// sprinkle of enemies lands on walkable cells.
    #[verifier::loop_isolation(false)]
    pub fn new_dla(player: Entity, seed: u32) -> (r: Level)
        requires
            seed + 900 <= u32::MAX,
        ensures
            r.wf(),
            r.side_length == 30,
            r.grid_size == 200,
            lookup(r.entities@, 0) is Some,
    {
        let w: i32 = 30;
        let h: i32 = 30;
        let (player_pos, basic_level) = crate::map_gen::gen_ca2(w, h, seed);

        let mut tiles: Vec<Tile> = Vec::new();
        let mut k: usize = 0;
        while k < basic_level.walkable.len()
            invariant
                k <= basic_level.walkable@.len(),
                tiles@.len() == k,
            decreases basic_level.walkable@.len() - k,
        {
            tiles.push(
                Tile {
                    walkable: basic_level.walkable[k],
                    overhang: false,
                    underhang: false,
                    edge: false,
                },
            );
            k = k + 1;
        }

        let mut level = Level { entities: EntityTable::new(), tiles, side_length: 30, grid_size: 200 };

        let gs: i64 = 200;
        let player_pos_x = player_pos.0 as i64 * gs + gs / 2;
        let player_pos_y = player_pos.1 as i64 * gs + gs / 2;
        let mut placed = player;
        placed.aabb.x = player_pos_x - player.aabb.w / 2;
        placed.aabb.y = player_pos_y - player.aabb.h / 2;
        level.entities.insert(0, placed);

        level.mark_tile_features();

        let mut i: i32 = 0;
        while i < w
            invariant
                level.grid_wf(),
                level.side_length == 30,
                level.grid_size == 200,
                level.entities.wf(),
                lookup(level.entities@, 0) is Some,
                basic_level.wf(),
                basic_level.w == w,
                basic_level.h == h,
                0 <= i <= w,
            decreases w - i,
        {
            let mut j: i32 = 0;
            while j < h
                invariant
                    level.grid_wf(),
                    level.side_length == 30,
                    level.grid_size == 200,
                    level.entities.wf(),
                    lookup(level.entities@, 0) is Some,
                    basic_level.wf(),
                    basic_level.w == w,
                    basic_level.h == h,
                    0 <= i < w,
                    0 <= j <= h,
                decreases h - j,
            {
                if basic_level.get(i, j) {
                    let s = seed.wrapping_mul(213414).wrapping_add(
                        (i as u32).wrapping_mul(4123523),
                    ).wrapping_add((j as u32).wrapping_mul(31234));
                    if khash(s) % 1000 < 80 {
                        let px = i as i64 * gs + gs / 2;
                        let py = j as i64 * gs + gs / 2;
                        let kind = match khash(s.wrapping_add(2)) % 3 {
                            0 => EntityKind::WalkerShooter,
                            1 => EntityKind::RunnerGunner,
                            _ => EntityKind::Chungus,
                        };
                        let e = Entity::new(kind, Vec2::new(px, py));
                        level.entities.insert(khash(s.wrapping_add(1)), e);
                    }
                }
                j = j + 1;
            }
            i = i + 1;
        }

        level
    }
}

} // verus!
