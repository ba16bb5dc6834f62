//! The collision core: 1-D interval overlap, least-penetration vectors for
//! rectangle pairs, contact detection against terrain and other entities,
//! and the per-entity movement resolution.

use vstd::prelude::*;
use crate::kmath::{Vec2, iabs, coord_ok, scale_mul, in_world, div_trunc, FP_SCALE, DT_MAX};
use crate::rect::Rect;
use crate::entity::{Entity, EntityKind, EntityTable, all_bounded, lookup};
use crate::level::Tile;

verus! {

/// What a contact was against: another entity, or a terrain cell.
#[derive(Debug, Clone, Copy, PartialEq, Eq, Structural)]
pub enum CollisionObject {
    Entity(u32),
    Terrain(i32, i32),
}

/// One detected contact of this tick: the subject entity, what it hit, and
/// the signed least-penetration vector (at most one nonzero component; its
/// sign is the direction the subject must move to stop overlapping).
#[derive(Debug, Clone, Copy, PartialEq, Eq, Structural)]
pub struct CollisionEvent {
    pub subject: u32,
    pub object: CollisionObject,
    pub penetration: Vec2,
}

/// Signed overlap of the closed intervals `[a1, a2]` and `[b1, b2]`,
/// evaluated by the first applicable rule: no endpoint of either interval
/// inside the other gives zero (touching counts as non-overlapping); `a`
/// contained in `b` gives `a`'s length; `b` contained in `a` gives `b`'s
/// length; `a` entered from the left of `b` gives `b2 - a1`; `b` entered
/// from the left of `a` gives `-(a2 - b1)`.
pub open spec fn overlap_spec(a1: int, a2: int, b1: int, b2: int) -> int {
    let a1_in_b = b1 <= a1 && a1 <= b2;
    let a2_in_b = b1 <= a2 && a2 <= b2;
    let b1_in_a = a1 <= b1 && b1 <= a2;
    let b2_in_a = a1 <= b2 && b2 <= a2;
    if !a1_in_b && !a2_in_b && !b1_in_a && !b2_in_a {
        0
    } else if a1_in_b && a2_in_b {
        a2 - a1
    } else if b1_in_a && b2_in_a {
        b2 - b1
    } else if a1_in_b {
        b2 - a1
    } else if b1_in_a {
        -(a2 - b1)
    } else {
        0
    }
}

/// The intervals share an interior point.
pub open spec fn strictly_overlap(a1: int, a2: int, b1: int, b2: int) -> bool {
    a1 < b2 && b1 < a2 && a1 < a2 && b1 < b2
}

/// The overlap is zero exactly on separated or merely touching intervals,
/// and its magnitude never exceeds either interval's length by more than
/// the other's.
pub proof fn lemma_overlap_zero_iff_separated(a1: int, a2: int, b1: int, b2: int)
    requires
        a1 <= a2,
        b1 <= b2,
    ensures
        overlap_spec(a1, a2, b1, b2) == 0 <==> !strictly_overlap(a1, a2, b1, b2),
        iabs(overlap_spec(a1, a2, b1, b2)) <= a2 - a1 || iabs(overlap_spec(a1, a2, b1, b2)) <= b2
            - b1,
{
}

/// Signed 1-D overlap of `[a1, a2]` and `[b1, b2]`.
pub fn overlap_amount(a1: i64, a2: i64, b1: i64, b2: i64) -> (r: i64)
    requires
        a1 <= a2,
        b1 <= b2,
        coord_ok(a1 as int),
        coord_ok(a2 as int),
        coord_ok(b1 as int),
        coord_ok(b2 as int),
    ensures
        r == overlap_spec(a1 as int, a2 as int, b1 as int, b2 as int),
{
    let a1_in_b = a1 >= b1 && a1 <= b2;
    let a2_in_b = a2 >= b1 && a2 <= b2;
    let b1_in_a = b1 >= a1 && b1 <= a2;
    let b2_in_a = b2 >= a1 && b2 <= a2;

    if !a1_in_b && !a2_in_b && !b1_in_a && !b2_in_a {
        0
    } else if a1_in_b && a2_in_b {
        a2 - a1
    } else if b1_in_a && b2_in_a {
        b2 - b1
    } else if a1_in_b {
        b2 - a1
    } else {
        // the remaining configurations force b1 inside [a1, a2]
        assert(b1_in_a);
        -(a2 - b1)
    }
}

/// Least-penetration vector for two rectangles, as a pair of ghost
/// integers: `None` when either axis projection fails to overlap strictly;
/// otherwise the smaller-magnitude axis overlap becomes the sole nonzero
/// component (ties go to the y axis).
pub open spec fn collide_spec(a: Rect, b: Rect) -> Option<(int, int)> {
    let xo = overlap_spec(a.spec_left(), a.spec_right(), b.spec_left(), b.spec_right());
    let yo = overlap_spec(a.spec_top(), a.spec_bot(), b.spec_top(), b.spec_bot());
    if xo == 0 || yo == 0 {
        None
    } else if iabs(xo) < iabs(yo) {
        Some((xo, 0))
    } else {
        Some((0, yo))
    }
}

/// There is no 2-D intersection exactly when the rectangles are disjoint
/// or merely touching on some axis.
pub proof fn lemma_collide_none_iff_separated(a: Rect, b: Rect)
    requires
        a.wf(),
        b.wf(),
    ensures
        collide_spec(a, b) is None <==> !(strictly_overlap(
            a.spec_left(),
            a.spec_right(),
            b.spec_left(),
            b.spec_right(),
        ) && strictly_overlap(a.spec_top(), a.spec_bot(), b.spec_top(), b.spec_bot())),
{
    lemma_overlap_zero_iff_separated(a.spec_left(), a.spec_right(), b.spec_left(), b.spec_right());
    lemma_overlap_zero_iff_separated(a.spec_top(), a.spec_bot(), b.spec_top(), b.spec_bot());
}

/// A returned penetration vector has exactly one nonzero component, and
/// its magnitude is at most the extent of one of the rectangles on that
/// axis; when `a`'s projection is contained in `b`'s on the resolved axis,
/// it is at most the shorter of the two extents.
pub proof fn lemma_collide_one_axis(a: Rect, b: Rect)
    requires
        a.wf(),
        b.wf(),
    ensures
        collide_spec(a, b) matches Some(p) ==> ((p.0 != 0 && p.1 == 0) || (p.0 == 0 && p.1 != 0)),
        collide_spec(a, b) matches Some(p) ==> (iabs(p.0) <= a.w || iabs(p.0) <= b.w) && (iabs(p.1)
            <= a.h || iabs(p.1) <= b.h),
        collide_spec(a, b) matches Some(p) ==> (p.0 != 0 && b.spec_left() <= a.spec_left()
            && a.spec_right() <= b.spec_right() ==> iabs(p.0) <= a.w && iabs(p.0) <= b.w),
        collide_spec(a, b) matches Some(p) ==> (p.1 != 0 && b.spec_top() <= a.spec_top()
            && a.spec_bot() <= b.spec_bot() ==> iabs(p.1) <= a.h && iabs(p.1) <= b.h),
{
    lemma_overlap_zero_iff_separated(a.spec_left(), a.spec_right(), b.spec_left(), b.spec_right());
    lemma_overlap_zero_iff_separated(a.spec_top(), a.spec_bot(), b.spec_top(), b.spec_bot());
}

/// Least-penetration vector for two overlapping rectangles, `None` when
/// they do not strictly overlap.
pub fn collide_rects(a: Rect, b: Rect) -> (r: Option<Vec2>)
    requires
        a.extent_ok(),
        b.extent_ok(),
    ensures
        r is None <==> collide_spec(a, b) is None,
        r matches Some(v) ==> collide_spec(a, b) == Some((v.x as int, v.y as int)),
        r matches Some(v) ==> ((v.x != 0 && v.y == 0) || (v.x == 0 && v.y != 0)),
        r matches Some(v) ==> iabs(v.x as int) <= a.w + b.w && iabs(v.y as int) <= a.h + b.h,
{
    proof {
        lemma_overlap_zero_iff_separated(
            a.spec_left(),
            a.spec_right(),
            b.spec_left(),
            b.spec_right(),
        );
        lemma_overlap_zero_iff_separated(a.spec_top(), a.spec_bot(), b.spec_top(), b.spec_bot());
    }
    let x_overlap = overlap_amount(a.left(), a.right(), b.left(), b.right());
    let y_overlap = overlap_amount(a.top(), a.bot(), b.top(), b.bot());

    if x_overlap == 0 || y_overlap == 0 {
        return None;
    }
    let x_abs = if x_overlap >= 0 {
        x_overlap
    } else {
        -x_overlap
    };
    let y_abs = if y_overlap >= 0 {
        y_overlap
    } else {
        -y_overlap
    };
    if x_abs < y_abs {
        Some(Vec2::new(x_overlap, 0))
    } else {
        Some(Vec2::new(0, y_overlap))
    }
}

/// The subject's box as predicted for the end of the tick: translated by
/// `velocity * dt`, each component rounded toward zero.
pub open spec fn desired_rect(e: Entity, dt: int) -> Rect {
    Rect {
        x: (e.aabb.x + scale_mul(e.velocity.x as int, dt)) as i64,
        y: (e.aabb.y + scale_mul(e.velocity.y as int, dt)) as i64,
        w: e.aabb.w,
        h: e.aabb.h,
    }
}

/// One velocity component scaled by the time step.
fn vel_dt(v: i64, dt: i64) -> (r: i64)
    requires
        in_world(v as int),
        0 <= dt <= DT_MAX,
    ensures
        r == scale_mul(v as int, dt as int),
        iabs(r as int) <= 60_000_000_000_000,
{
    proof {
        assert(-60_000_000_000_000 <= v * dt <= 60_000_000_000_000) by (nonlinear_arith)
            requires
                -1_000_000_000 <= v <= 1_000_000_000,
                0 <= dt <= 60_000,
        {};
    }
    let p: i64 = v * dt;
    crate::kmath::div_trunc_i64(p, FP_SCALE)
}

/// The predicted box of `e` after `dt`.
fn desired(e: &Entity, dt: i64) -> (r: Rect)
    requires
        e.bounded(),
        0 <= dt <= DT_MAX,
    ensures
        r == desired_rect(*e, dt as int),
        r.extent_ok(),
        r.wf(),
{
    let dx = vel_dt(e.velocity.x, dt);
    let dy = vel_dt(e.velocity.y, dt);
    e.aabb.translate(Vec2::new(dx, dy))
}

/// The pairwise filter: a subject/object pair produces an event only when
/// both ids resolve, they differ, neither owns the other, they are not two
/// projectiles, and no projectile is involved on its own team.
pub open spec fn keep_spec(tbl: Seq<(u32, Entity)>, sid: u32, oid: u32) -> bool {
    &&& sid != oid
    &&& match (lookup(tbl, sid), lookup(tbl, oid)) {
        (Some(s), Some(o)) => {
            &&& !(s.owner == oid || o.owner == sid)
            &&& !(s.kind == EntityKind::Bullet && o.kind == EntityKind::Bullet)
            &&& !((s.kind == EntityKind::Bullet || o.kind == EntityKind::Bullet) && s.team
                == o.team)
        },
        _ => false,
    }
}

/// Whether the ordered pair survives the collision filter; an id that no
/// longer resolves makes the pair drop out.
pub fn keep_entity_entity_collision(subject_key: u32, object_key: u32, entities: &EntityTable) -> (r:
    bool)
    requires
        entities.wf(),
    ensures
        r == keep_spec(entities@, subject_key, object_key),
{
    if subject_key == object_key {
        return false;
    }
    match (entities.get(subject_key), entities.get(object_key)) {
        (Some(subject), Some(object)) => {
            if subject.owner == object_key || object.owner == subject_key {
                return false;
            }
            if subject.kind == EntityKind::Bullet && object.kind == EntityKind::Bullet {
                return false;
            }
            if (subject.kind == EntityKind::Bullet || object.kind == EntityKind::Bullet)
                && subject.team == object.team {
                return false;
            }
            true
        },
        _ => false,
    }
}

/// The event that the ordered pair at indices `(si, oi)` contributes, if
/// any: the subject's predicted box against the object's current box.
pub open spec fn pair_event(tbl: Seq<(u32, Entity)>, dt: int, si: int, oi: int) -> Option<
    CollisionEvent,
>
    recommends
        0 <= si < tbl.len(),
        0 <= oi < tbl.len(),
{
    let sid = tbl[si].0;
    let s = tbl[si].1;
    let oid = tbl[oi].0;
    let o = tbl[oi].1;
    if keep_spec(tbl, sid, oid) {
        match collide_spec(desired_rect(s, dt), o.aabb) {
            Some(p) => Some(
                CollisionEvent {
                    subject: sid,
                    object: CollisionObject::Entity(oid),
                    penetration: Vec2 { x: p.0 as i64, y: p.1 as i64 },
                },
            ),
            None => None,
        }
    } else {
        None
    }
}

/// Events of all ordered pairs before `(si, oi)` in scan order: subjects
/// with index below `si` completely, then subject `si` against objects
/// with index below `oi`.
pub open spec fn entity_events_partial(tbl: Seq<(u32, Entity)>, dt: int, si: int, oi: int) -> Seq<
    CollisionEvent,
>
    decreases si, oi,
{
    if si <= 0 && oi <= 0 {
        Seq::empty()
    } else if oi <= 0 {
        entity_events_partial(tbl, dt, si - 1, tbl.len() as int)
    } else {
        let pre = entity_events_partial(tbl, dt, si, oi - 1);
        match pair_event(tbl, dt, si, oi - 1) {
            Some(ev) => pre.push(ev),
            None => pre,
        }
    }
}

/// All entity-vs-entity events of one tick, in scan order.
pub open spec fn entity_events(tbl: Seq<(u32, Entity)>, dt: int) -> Seq<CollisionEvent> {
    entity_events_partial(tbl, dt, tbl.len() as int, 0)
}

/// Detects entity-vs-entity contacts: for every ordered pair that survives
/// the filter, the subject's predicted box is tested against the object's
/// current box — deliberately asymmetric, since each member of a pair is
/// predicted in its own turn as subject — and the least-penetration events
/// are appended in scan order.
pub fn collide_entity_entity(
    entities: &EntityTable,
    collisions: &mut Vec<CollisionEvent>,
    dt: i64,
)
    requires
        entities.wf(),
        all_bounded(entities@),
        0 <= dt <= DT_MAX,
    ensures
        final(collisions)@ == old(collisions)@ + entity_events(entities@, dt as int),
        forall|k: int|
            old(collisions)@.len() <= k < final(collisions)@.len() ==> coord_ok(
                (#[trigger] final(collisions)@[k]).penetration.x as int,
            ) && coord_ok(final(collisions)@[k].penetration.y as int),
{
    let ghost base = collisions@;
    let ghost tbl = entities@;
    let n = entities.len();
    let mut si: usize = 0;
    while si < n
        invariant
            entities.wf(),
            all_bounded(entities@),
            0 <= dt <= DT_MAX,
            n == entities@.len(),
            tbl == entities@,
            si <= n,
            collisions@ == base + entity_events_partial(tbl, dt as int, si as int, 0),
            forall|k: int|
                base.len() <= k < collisions@.len() ==> coord_ok(
                    (#[trigger] collisions@[k]).penetration.x as int,
                ) && coord_ok(collisions@[k].penetration.y as int),
        decreases n - si,
    {
        let (subject_key, subject) = entities.entry_at(si);
        proof {
            assert(tbl[si as int].1.bounded());
        }
        let subject_rect_desired = desired(&subject, dt);

        let mut oi: usize = 0;
        while oi < n
            invariant
                entities.wf(),
                all_bounded(entities@),
                0 <= dt <= DT_MAX,
                n == entities@.len(),
                tbl == entities@,
                si < n,
                oi <= n,
                (subject_key, subject) == tbl[si as int],
                subject.bounded(),
                subject_rect_desired == desired_rect(subject, dt as int),
                subject_rect_desired.extent_ok(),
                collisions@ == base + entity_events_partial(tbl, dt as int, si as int, oi as int),
                forall|k: int|
                    base.len() <= k < collisions@.len() ==> coord_ok(
                        (#[trigger] collisions@[k]).penetration.x as int,
                    ) && coord_ok(collisions@[k].penetration.y as int),
            decreases n - oi,
        {
            let (object_key, object) = entities.entry_at(oi);
            proof {
                assert(tbl[oi as int].1.bounded());
            }
            let ghost pre = entity_events_partial(tbl, dt as int, si as int, oi as int);
            if keep_entity_entity_collision(subject_key, object_key, entities) {
                match collide_rects(subject_rect_desired, object.aabb) {
                    Some(penetration) => {
                        let ev = CollisionEvent {
                            subject: subject_key,
                            object: CollisionObject::Entity(object_key),
                            penetration,
                        };
                        collisions.push(ev);
                        proof {
                            assert(pair_event(tbl, dt as int, si as int, oi as int) == Some(ev));
                            assert(entity_events_partial(
                                tbl,
                                dt as int,
                                si as int,
                                oi as int + 1,
                            ) == pre.push(ev));
                            assert(collisions@ =~= base + pre.push(ev));
                        }
                    },
                    None => {
                        proof {
                            assert(pair_event(tbl, dt as int, si as int, oi as int) is None);
                            assert(entity_events_partial(
                                tbl,
                                dt as int,
                                si as int,
                                oi as int + 1,
                            ) == pre);
                        }
                    },
                }
            } else {
                proof {
                    assert(pair_event(tbl, dt as int, si as int, oi as int) is None);
                    assert(entity_events_partial(tbl, dt as int, si as int, oi as int + 1) == pre);
                }
            }
            oi = oi + 1;
        }
        proof {
            assert(entity_events_partial(tbl, dt as int, si as int + 1, 0)
                == entity_events_partial(tbl, dt as int, si as int, n as int));
        }
        si = si + 1;
    }
    proof {
        assert(entity_events(tbl, dt as int) == entity_events_partial(tbl, dt as int, n as int, 0));
    }
}

/// World-space box of the terrain cell `(tx, ty)`.
pub open spec fn tile_rect(tx: int, ty: int, gs: int) -> Rect {
    Rect { x: (tx * gs) as i64, y: (ty * gs) as i64, w: gs as i64, h: gs as i64 }
}

/// Grid cell holding the entity's current centroid, each axis rounded
/// toward zero.
pub open spec fn centroid_cell(e: Entity, gs: int) -> (int, int) {
    (div_trunc(e.aabb.x + e.aabb.w / 2, gs), div_trunc(e.aabb.y + e.aabb.h / 2, gs))
}

/// The event contributed by the `k`-th cell (scan order: x offset outer, y
/// offset inner) of the 3x3 neighborhood around the subject's centroid
/// cell, if any: cells outside the grid or the tile array are skipped, and
/// only non-walkable cells collide.
pub open spec fn terrain_cell_event(
    sid: u32,
    s: Entity,
    tiles: Seq<Tile>,
    gs: int,
    side: int,
    dt: int,
    k: int,
) -> Option<CollisionEvent>
    recommends
        0 <= k < 9,
{
    let tx = centroid_cell(s, gs).0 + k / 3 - 1;
    let ty = centroid_cell(s, gs).1 + k % 3 - 1;
    if 0 <= tx < side && 0 <= ty < side && tx * side + ty < tiles.len() && !tiles[tx * side
        + ty].walkable {
        match collide_spec(desired_rect(s, dt), tile_rect(tx, ty, gs)) {
            Some(p) => Some(
                CollisionEvent {
                    subject: sid,
                    object: CollisionObject::Terrain(tx as i32, ty as i32),
                    penetration: Vec2 { x: p.0 as i64, y: p.1 as i64 },
                },
            ),
            None => None,
        }
    } else {
        None
    }
}

/// Terrain events of all subjects before `si`, plus the first `k` cells of
/// subject `si`'s neighborhood, in scan order.
pub open spec fn terrain_events_partial(
    tbl: Seq<(u32, Entity)>,
    tiles: Seq<Tile>,
    gs: int,
    side: int,
    dt: int,
    si: int,
    k: int,
) -> Seq<CollisionEvent>
    decreases si, k,
{
    if si <= 0 && k <= 0 {
        Seq::empty()
    } else if k <= 0 {
        terrain_events_partial(tbl, tiles, gs, side, dt, si - 1, 9)
    } else {
        let pre = terrain_events_partial(tbl, tiles, gs, side, dt, si, k - 1);
        match terrain_cell_event(tbl[si].0, tbl[si].1, tiles, gs, side, dt, k - 1) {
            Some(ev) => pre.push(ev),
            None => pre,
        }
    }
}

/// All entity-vs-terrain events of one tick, in scan order.
pub open spec fn terrain_events(
    tbl: Seq<(u32, Entity)>,
    tiles: Seq<Tile>,
    gs: int,
    side: int,
    dt: int,
) -> Seq<CollisionEvent> {
    terrain_events_partial(tbl, tiles, gs, side, dt, tbl.len() as int, 0)
}

/// Detects entity-vs-terrain contacts: every entity's predicted box is
/// tested against each non-walkable cell of the 3x3 neighborhood around
/// its current centroid cell. The neighborhood bound assumes that no
/// entity moves more than one grid cell per tick; a larger displacement
/// makes contacts go undetected rather than fail.
pub fn collide_entity_terrain(
    entities: &EntityTable,
    terrain: &Vec<Tile>,
    terrain_grid_size: i64,
    terrain_side_length: i32,
    collisions: &mut Vec<CollisionEvent>,
    dt: i64,
)
    requires
        entities.wf(),
        all_bounded(entities@),
        0 < terrain_grid_size <= 1_000_000,
        0 < terrain_side_length <= 40_000,
        0 <= dt <= DT_MAX,
    ensures
        final(collisions)@ == old(collisions)@ + terrain_events(
            entities@,
            terrain@,
            terrain_grid_size as int,
            terrain_side_length as int,
            dt as int,
        ),
        forall|k: int|
            old(collisions)@.len() <= k < final(collisions)@.len() ==> coord_ok(
                (#[trigger] final(collisions)@[k]).penetration.x as int,
            ) && coord_ok(final(collisions)@[k].penetration.y as int),
{
    let ghost base = collisions@;
    let ghost tbl = entities@;
    let ghost gs = terrain_grid_size as int;
    let ghost side = terrain_side_length as int;
    let n = entities.len();
    let mut si: usize = 0;
    while si < n
        invariant
            entities.wf(),
            all_bounded(entities@),
            0 < terrain_grid_size <= 1_000_000,
            0 < terrain_side_length <= 40_000,
            0 <= dt <= DT_MAX,
            n == entities@.len(),
            tbl == entities@,
            gs == terrain_grid_size as int,
            side == terrain_side_length as int,
            si <= n,
            collisions@ == base + terrain_events_partial(tbl, terrain@, gs, side, dt as int, si as int, 0),
            forall|k: int|
                base.len() <= k < collisions@.len() ==> coord_ok(
                    (#[trigger] collisions@[k]).penetration.x as int,
                ) && coord_ok(collisions@[k].penetration.y as int),
        decreases n - si,
    {
        let (subject_key, subject) = entities.entry_at(si);
        proof {
            assert(tbl[si as int].1.bounded());
        }
        let subject_rect_desired = desired(&subject, dt);
        let c = subject.aabb.centroid();
        let cx64 = crate::kmath::div_trunc_i64(c.x, terrain_grid_size);
        let cy64 = crate::kmath::div_trunc_i64(c.y, terrain_grid_size);
        let cx = cx64 as i32;
        let cy = cy64 as i32;
        proof {
            assert(cx as int == centroid_cell(subject, gs).0);
            assert(cy as int == centroid_cell(subject, gs).1);
        }

        let mut k: usize = 0;
        while k < 9
            invariant
                entities.wf(),
                all_bounded(entities@),
                0 < terrain_grid_size <= 1_000_000,
                0 < terrain_side_length <= 40_000,
                0 <= dt <= DT_MAX,
                n == entities@.len(),
                tbl == entities@,
                gs == terrain_grid_size as int,
                side == terrain_side_length as int,
                si < n,
                k <= 9,
                (subject_key, subject) == tbl[si as int],
                subject.bounded(),
                subject_rect_desired == desired_rect(subject, dt as int),
                subject_rect_desired.extent_ok(),
                cx as int == centroid_cell(subject, gs).0,
                cy as int == centroid_cell(subject, gs).1,
                -2_000_000_000 <= cx <= 2_000_000_000,
                -2_000_000_000 <= cy <= 2_000_000_000,
                collisions@ == base + terrain_events_partial(tbl, terrain@, gs, side, dt as int, si as int, k as int),
                forall|j: int|
                    base.len() <= j < collisions@.len() ==> coord_ok(
                        (#[trigger] collisions@[j]).penetration.x as int,
                    ) && coord_ok(collisions@[j].penetration.y as int),
            decreases 9 - k,
        {
            let ghost pre = terrain_events_partial(tbl, terrain@, gs, side, dt as int, si as int, k as int);
            let di = (k / 3) as i32;
            let dj = (k % 3) as i32;
            let tx = cx + di - 1;
            let ty = cy + dj - 1;
            let mut pushed = false;
            if 0 <= tx && tx < terrain_side_length && 0 <= ty && ty < terrain_side_length {
                proof {
                    assert(0 <= tx * terrain_side_length <= 1_600_000_000) by (nonlinear_arith)
                        requires
                            0 <= tx < terrain_side_length,
                            0 < terrain_side_length <= 40_000,
                    {};
                }
                let idx = (tx * terrain_side_length + ty) as usize;
                if idx < terrain.len() {
                    if !terrain[idx].walkable {
                        proof {
                            assert(0 <= tx as i64 * terrain_grid_size <= 40_000_000_000 && 0 <= ty
                                as i64 * terrain_grid_size <= 40_000_000_000) by (nonlinear_arith)
                                requires
                                    0 <= tx < 40_000,
                                    0 <= ty < 40_000,
                                    0 < terrain_grid_size <= 1_000_000,
                            {};
                        }
                        let t_rect = Rect::new(
                            tx as i64 * terrain_grid_size,
                            ty as i64 * terrain_grid_size,
                            terrain_grid_size,
                            terrain_grid_size,
                        );
                        proof {
                            assert(t_rect == tile_rect(tx as int, ty as int, gs));
                        }
                        match collide_rects(subject_rect_desired, t_rect) {
                            Some(penetration) => {
                                let ev = CollisionEvent {
                                    subject: subject_key,
                                    object: CollisionObject::Terrain(tx, ty),
                                    penetration,
                                };
                                collisions.push(ev);
                                pushed = true;
                                proof {
                                    assert(terrain_cell_event(
                                        subject_key,
                                        subject,
                                        terrain@,
                                        gs,
                                        side,
                                        dt as int,
                                        k as int,
                                    ) == Some(ev));
                                    assert(terrain_events_partial(
                                        tbl,
                                        terrain@,
                                        gs,
                                        side,
                                        dt as int,
                                        si as int,
                                        k as int + 1,
                                    ) == pre.push(ev));
                                    assert(collisions@ =~= base + pre.push(ev));
                                }
                            },
                            None => {},
                        }
                    }
                }
            }
            proof {
                if !pushed {
                    assert(terrain_cell_event(
                        subject_key,
                        subject,
                        terrain@,
                        gs,
                        side,
                        dt as int,
                        k as int,
                    ) is None);
                    assert(terrain_events_partial(
                        tbl,
                        terrain@,
                        gs,
                        side,
                        dt as int,
                        si as int,
                        k as int + 1,
                    ) == pre);
                }
            }
            k = k + 1;
        }
        proof {
            assert(terrain_events_partial(tbl, terrain@, gs, side, dt as int, si as int + 1, 0)
                == terrain_events_partial(tbl, terrain@, gs, side, dt as int, si as int, 9));
        }
        si = si + 1;
    }
}

/// Most negative `penetration.x` among the subject's events with a
/// negative x component; `None` stands for an unbounded correction.
pub open spec fn mb_max_dx(evs: Seq<CollisionEvent>, s: u32) -> Option<i64>
    decreases evs.len(),
{
    if evs.len() == 0 {
        None
    } else {
        let prev = mb_max_dx(evs.drop_last(), s);
        let ev = evs.last();
        if ev.subject == s && ev.penetration.x < 0 {
            match prev {
                None => Some(ev.penetration.x),
                Some(m) => Some(
                    if ev.penetration.x < m {
                        ev.penetration.x
                    } else {
                        m
                    },
                ),
            }
        } else {
            prev
        }
    }
}

/// Most positive `penetration.x` among the subject's events with a
/// positive x component.
pub open spec fn mb_min_dx(evs: Seq<CollisionEvent>, s: u32) -> Option<i64>
    decreases evs.len(),
{
    if evs.len() == 0 {
        None
    } else {
        let prev = mb_min_dx(evs.drop_last(), s);
        let ev = evs.last();
        if ev.subject == s && ev.penetration.x > 0 {
            match prev {
                None => Some(ev.penetration.x),
                Some(m) => Some(
                    if ev.penetration.x > m {
                        ev.penetration.x
                    } else {
                        m
                    },
                ),
            }
        } else {
            prev
        }
    }
}

/// Most negative `penetration.y` among the subject's events with a
/// negative y component.
pub open spec fn mb_max_dy(evs: Seq<CollisionEvent>, s: u32) -> Option<i64>
    decreases evs.len(),
{
    if evs.len() == 0 {
        None
    } else {
        let prev = mb_max_dy(evs.drop_last(), s);
        let ev = evs.last();
        if ev.subject == s && ev.penetration.y < 0 {
            match prev {
                None => Some(ev.penetration.y),
                Some(m) => Some(
                    if ev.penetration.y < m {
                        ev.penetration.y
                    } else {
                        m
                    },
                ),
            }
        } else {
            prev
        }
    }
}

/// Most positive `penetration.y` among the subject's events with a
/// positive y component.
pub open spec fn mb_min_dy(evs: Seq<CollisionEvent>, s: u32) -> Option<i64>
    decreases evs.len(),
{
    if evs.len() == 0 {
        None
    } else {
        let prev = mb_min_dy(evs.drop_last(), s);
        let ev = evs.last();
        if ev.subject == s && ev.penetration.y > 0 {
            match prev {
                None => Some(ev.penetration.y),
                Some(m) => Some(
                    if ev.penetration.y > m {
                        ev.penetration.y
                    } else {
                        m
                    },
                ),
            }
        } else {
            prev
        }
    }
}

/// Per-axis movement bounds aggregated from all of the subject's events,
/// returned as `(min_dx, max_dx, min_dy, max_dy)`; `None` stands for an
/// unbounded side. On each side the largest-magnitude correction wins: a
/// deliberate policy quirk that can over-correct when opposing contacts
/// disagree; a tightest-bound policy is the documented alternative.
pub fn movement_bounds(subject_key: u32, collisions: &Vec<CollisionEvent>) -> (r: (
    Option<i64>,
    Option<i64>,
    Option<i64>,
    Option<i64>,
))
    ensures
        r.0 == mb_min_dx(collisions@, subject_key),
        r.1 == mb_max_dx(collisions@, subject_key),
        r.2 == mb_min_dy(collisions@, subject_key),
        r.3 == mb_max_dy(collisions@, subject_key),
{
    let mut min_dx: Option<i64> = None;
    let mut max_dx: Option<i64> = None;
    let mut min_dy: Option<i64> = None;
    let mut max_dy: Option<i64> = None;
    let n = collisions.len();
    let mut i: usize = 0;
    while i < n
        invariant
            i <= n,
            n == collisions@.len(),
            min_dx == mb_min_dx(collisions@.take(i as int), subject_key),
            max_dx == mb_max_dx(collisions@.take(i as int), subject_key),
            min_dy == mb_min_dy(collisions@.take(i as int), subject_key),
            max_dy == mb_max_dy(collisions@.take(i as int), subject_key),
        decreases n - i,
    {
        let ev = collisions[i];
        proof {
            assert(collisions@.take(i as int + 1).drop_last() =~= collisions@.take(i as int));
            assert(collisions@.take(i as int + 1).last() == collisions@[i as int]);
        }
        if ev.subject == subject_key {
            if ev.penetration.x < 0 {
                max_dx = match max_dx {
                    None => Some(ev.penetration.x),
                    Some(m) => Some(
                        if ev.penetration.x < m {
                            ev.penetration.x
                        } else {
                            m
                        },
                    ),
                };
            }
            if ev.penetration.x > 0 {
                min_dx = match min_dx {
                    None => Some(ev.penetration.x),
                    Some(m) => Some(
                        if ev.penetration.x > m {
                            ev.penetration.x
                        } else {
                            m
                        },
                    ),
                };
            }
            if ev.penetration.y < 0 {
                max_dy = match max_dy {
                    None => Some(ev.penetration.y),
                    Some(m) => Some(
                        if ev.penetration.y < m {
                            ev.penetration.y
                        } else {
                            m
                        },
                    ),
                };
            }
            if ev.penetration.y > 0 {
                min_dy = match min_dy {
                    None => Some(ev.penetration.y),
                    Some(m) => Some(
                        if ev.penetration.y > m {
                            ev.penetration.y
                        } else {
                            m
                        },
                    ),
                };
            }
        }
        i = i + 1;
    }
    proof {
        assert(collisions@.take(n as int) =~= collisions@);
    }
    (min_dx, max_dx, min_dy, max_dy)
}

/// The clamp of the resolver: an absent bound never fires; when both fire
/// (`min > max`, an entity pinched between opposing contacts) the `min`
/// branch wins.
pub open spec fn clamp_spec(val: int, min: Option<i64>, max: Option<i64>) -> int {
    if min is Some && val <= min->0 {
        min->0 as int
    } else if max is Some && val >= max->0 {
        max->0 as int
    } else {
        val
    }
}

/// Clamps `val` into the (possibly unbounded, possibly inverted) interval.
pub fn clamp(val: i64, min: Option<i64>, max: Option<i64>) -> (r: i64)
    ensures
        r == clamp_spec(val as int, min, max),
{
    match min {
        Some(m) if val <= m => m,
        _ => match max {
            Some(m) if val >= m => m,
            _ => val,
        },
    }
}

/// Where an entity ends the tick: its box moved by `velocity * dt`, each
/// axis corrected by the clamp of zero into that axis's movement bounds.
pub open spec fn moved_entity(id: u32, e: Entity, evs: Seq<CollisionEvent>, dt: int) -> Entity {
    let xm = scale_mul(e.velocity.x as int, dt) + clamp_spec(
        0,
        mb_min_dx(evs, id),
        mb_max_dx(evs, id),
    );
    let ym = scale_mul(e.velocity.y as int, dt) + clamp_spec(
        0,
        mb_min_dy(evs, id),
        mb_max_dy(evs, id),
    );
    Entity {
        aabb: Rect {
            x: (e.aabb.x + xm) as i64,
            y: (e.aabb.y + ym) as i64,
            w: e.aabb.w,
            h: e.aabb.h,
        },
        ..e
    }
}

/// Every event's penetration components stay within the overlap
/// arithmetic's range.
pub open spec fn events_ok(evs: Seq<CollisionEvent>) -> bool {
    forall|k: int|
        0 <= k < evs.len() ==> coord_ok((#[trigger] evs[k]).penetration.x as int) && coord_ok(
            evs[k].penetration.y as int,
        )
}

/// Any movement bound is the penetration component of one of the events.
proof fn lemma_mb_in_events(evs: Seq<CollisionEvent>, s: u32)
    ensures
        mb_max_dx(evs, s) matches Some(m) ==> exists|k: int|
            0 <= k < evs.len() && (#[trigger] evs[k]).penetration.x == m,
        mb_min_dx(evs, s) matches Some(m) ==> exists|k: int|
            0 <= k < evs.len() && (#[trigger] evs[k]).penetration.x == m,
        mb_max_dy(evs, s) matches Some(m) ==> exists|k: int|
            0 <= k < evs.len() && (#[trigger] evs[k]).penetration.y == m,
        mb_min_dy(evs, s) matches Some(m) ==> exists|k: int|
            0 <= k < evs.len() && (#[trigger] evs[k]).penetration.y == m,
    decreases evs.len(),
{
    if evs.len() > 0 {
        lemma_mb_in_events(evs.drop_last(), s);
        assert forall|k: int|
            0 <= k < evs.drop_last().len() implies #[trigger] evs.drop_last()[k] == evs[k] by {}
    }
}

/// Commits the tick's movement: every entity's box is translated by its
/// velocity-driven displacement plus the clamped correction from its own
/// movement bounds.
pub fn apply_movement(entities: &mut EntityTable, collisions: &Vec<CollisionEvent>, dt: i64)
    requires
        old(entities).wf(),
        all_bounded(old(entities)@),
        events_ok(collisions@),
        0 <= dt <= DT_MAX,
    ensures
        final(entities).wf(),
        final(entities)@.len() == old(entities)@.len(),
        forall|i: int|
            0 <= i < old(entities)@.len() ==> #[trigger] final(entities)@[i] == (
            old(entities)@[i].0,
            moved_entity(old(entities)@[i].0, old(entities)@[i].1, collisions@, dt as int),
            ),
{
    let ghost pre = entities@;
    let n = entities.len();
    let mut i: usize = 0;
    while i < n
        invariant
            0 <= dt <= DT_MAX,
            events_ok(collisions@),
            n == entities@.len(),
            entities@.len() == pre.len(),
            all_bounded(pre),
            i <= n,
            forall|j: int| i <= j < n ==> #[trigger] entities@[j] == pre[j],
            forall|j: int|
                0 <= j < i ==> #[trigger] entities@[j] == (
                pre[j].0,
                moved_entity(pre[j].0, pre[j].1, collisions@, dt as int),
                ),
        decreases n - i,
    {
        let (entity_key, entity) = entities.entry_at(i);
        proof {
            assert(pre[i as int].1.bounded());
            lemma_mb_in_events(collisions@, entity_key);
        }
        let (min_dx, max_dx, min_dy, max_dy) = movement_bounds(entity_key, collisions);
        let x_movt = vel_dt(entity.velocity.x, dt) + clamp(0, min_dx, max_dx);
        let y_movt = vel_dt(entity.velocity.y, dt) + clamp(0, min_dy, max_dy);
        let mut moved = entity;
        moved.aabb.x = entity.aabb.x + x_movt;
        moved.aabb.y = entity.aabb.y + y_movt;
        entities.set_entry(i, (entity_key, moved));
        proof {
            assert(entities@[i as int] == (
                pre[i as int].0,
                moved_entity(pre[i as int].0, pre[i as int].1, collisions@, dt as int),
            ));
        }
        i = i + 1;
    }
    proof {
        assert forall|p: int, q: int|
            0 <= p < q < entities@.len() implies (#[trigger] entities@[p]).0 != (
        #[trigger] entities@[q]).0 by {
            assert(entities@[p].0 == pre[p].0);
            assert(entities@[q].0 == pre[q].0);
        }
    }
}

/// No entity-vs-entity event ever pairs a projectile with its own firer,
/// two projectiles, or a projectile with a body of its own team; and every
/// event names a pair that survives the filter.
pub proof fn lemma_entity_events_filtered(tbl: Seq<(u32, Entity)>, dt: int, si: int, oi: int)
    ensures
        forall|k: int|
            0 <= k < entity_events_partial(tbl, dt, si, oi).len() ==> {
                let ev = #[trigger] entity_events_partial(tbl, dt, si, oi)[k];
                ev.object matches CollisionObject::Entity(oid) && keep_spec(tbl, ev.subject, oid)
            },
    decreases si, oi,
{
    if si <= 0 && oi <= 0 {
    } else if oi <= 0 {
        lemma_entity_events_filtered(tbl, dt, si - 1, tbl.len() as int);
    } else {
        lemma_entity_events_filtered(tbl, dt, si, oi - 1);
    }
}

/// The filter policy, spelled out: within the events of one tick a bullet
/// never hits its owner, bullets never hit each other, and a bullet never
/// hits anything of its own team.
pub proof fn lemma_no_friendly_fire(tbl: Seq<(u32, Entity)>, dt: int)
    ensures
        forall|k: int|
            0 <= k < entity_events(tbl, dt).len() ==> {
                let ev = #[trigger] entity_events(tbl, dt)[k];
                ev.object matches CollisionObject::Entity(oid) && lookup(tbl, ev.subject) matches
                    Some(s) && lookup(tbl, oid) matches Some(o) && s.owner != oid && o.owner
                    != ev.subject && !(s.kind == EntityKind::Bullet && o.kind == EntityKind::Bullet)
                    && !((s.kind == EntityKind::Bullet || o.kind == EntityKind::Bullet) && s.team
                    == o.team)
            },
{
    lemma_entity_events_filtered(tbl, dt, tbl.len() as int, 0);
}


/// What the four movement bounds mean: an absent bound stands for no
/// event of the subject pushing that way, and a present bound is the
/// largest-magnitude push among them.
pub proof fn lemma_movement_bounds_characterize(evs: Seq<CollisionEvent>, s: u32)
    ensures
        mb_max_dx(evs, s) is None <==> (forall|k: int|
            0 <= k < evs.len() ==> !((#[trigger] evs[k]).subject == s && evs[k].penetration.x < 0)),
        mb_max_dx(evs, s) matches Some(m) ==> (exists|k: int|
            0 <= k < evs.len() && (#[trigger] evs[k]).subject == s && evs[k].penetration.x == m)
            && m < 0 && (forall|k: int|
            0 <= k < evs.len() && (#[trigger] evs[k]).subject == s && evs[k].penetration.x < 0
                ==> evs[k].penetration.x >= m),
        mb_min_dx(evs, s) is None <==> (forall|k: int|
            0 <= k < evs.len() ==> !((#[trigger] evs[k]).subject == s && evs[k].penetration.x > 0)),
        mb_min_dx(evs, s) matches Some(m) ==> (exists|k: int|
            0 <= k < evs.len() && (#[trigger] evs[k]).subject == s && evs[k].penetration.x == m)
            && m > 0 && (forall|k: int|
            0 <= k < evs.len() && (#[trigger] evs[k]).subject == s && evs[k].penetration.x > 0
                ==> evs[k].penetration.x <= m),
        mb_max_dy(evs, s) is None <==> (forall|k: int|
            0 <= k < evs.len() ==> !((#[trigger] evs[k]).subject == s && evs[k].penetration.y < 0)),
        mb_max_dy(evs, s) matches Some(m) ==> (exists|k: int|
            0 <= k < evs.len() && (#[trigger] evs[k]).subject == s && evs[k].penetration.y == m)
            && m < 0 && (forall|k: int|
            0 <= k < evs.len() && (#[trigger] evs[k]).subject == s && evs[k].penetration.y < 0
                ==> evs[k].penetration.y >= m),
        mb_min_dy(evs, s) is None <==> (forall|k: int|
            0 <= k < evs.len() ==> !((#[trigger] evs[k]).subject == s && evs[k].penetration.y > 0)),
        mb_min_dy(evs, s) matches Some(m) ==> (exists|k: int|
            0 <= k < evs.len() && (#[trigger] evs[k]).subject == s && evs[k].penetration.y == m)
            && m > 0 && (forall|k: int|
            0 <= k < evs.len() && (#[trigger] evs[k]).subject == s && evs[k].penetration.y > 0
                ==> evs[k].penetration.y <= m),
    decreases evs.len(),
{
    if evs.len() > 0 {
        let pre = evs.drop_last();
        let last = evs.last();
        let n = evs.len() - 1;
        lemma_movement_bounds_characterize(pre, s);
        assert forall|k: int| 0 <= k < pre.len() implies pre[k] == #[trigger] evs[k] by {}
        assert forall|k: int| 0 <= k < pre.len() implies #[trigger] pre[k] == evs[k] by {}
        assert(last == evs[n]);
        match mb_max_dx(evs, s) {
            Some(m) => {
                if last.subject == s && last.penetration.x == m {
                } else {
                    assert(mb_max_dx(pre, s) == Some(m));
                    let k = choose|k: int|
                        0 <= k < pre.len() && (#[trigger] pre[k]).subject == s
                            && pre[k].penetration.x == m;
                    assert(evs[k].subject == s && evs[k].penetration.x == m);
                }
            },
            None => {},
        }
        match mb_min_dx(evs, s) {
            Some(m) => {
                if last.subject == s && last.penetration.x == m {
                } else {
                    assert(mb_min_dx(pre, s) == Some(m));
                    let k = choose|k: int|
                        0 <= k < pre.len() && (#[trigger] pre[k]).subject == s
                            && pre[k].penetration.x == m;
                    assert(evs[k].subject == s && evs[k].penetration.x == m);
                }
            },
            None => {},
        }
        match mb_max_dy(evs, s) {
            Some(m) => {
                if last.subject == s && last.penetration.y == m {
                } else {
                    assert(mb_max_dy(pre, s) == Some(m));
                    let k = choose|k: int|
                        0 <= k < pre.len() && (#[trigger] pre[k]).subject == s
                            && pre[k].penetration.y == m;
                    assert(evs[k].subject == s && evs[k].penetration.y == m);
                }
            },
            None => {},
        }
        match mb_min_dy(evs, s) {
            Some(m) => {
                if last.subject == s && last.penetration.y == m {
                } else {
                    assert(mb_min_dy(pre, s) == Some(m));
                    let k = choose|k: int|
                        0 <= k < pre.len() && (#[trigger] pre[k]).subject == s
                            && pre[k].penetration.y == m;
                    assert(evs[k].subject == s && evs[k].penetration.y == m);
                }
            },
            None => {},
        }
    }
}

/// An entity with no recorded events has unbounded movement on every side.
pub proof fn lemma_no_events_unbounded(evs: Seq<CollisionEvent>, s: u32)
    requires
        forall|k: int| 0 <= k < evs.len() ==> (#[trigger] evs[k]).subject != s,
    ensures
        mb_min_dx(evs, s) is None,
        mb_max_dx(evs, s) is None,
        mb_min_dy(evs, s) is None,
        mb_max_dy(evs, s) is None,
    decreases evs.len(),
{
    if evs.len() > 0 {
        assert forall|k: int|
            0 <= k < evs.drop_last().len() implies (#[trigger] evs.drop_last()[k]).subject != s by {
            assert(evs.drop_last()[k] == evs[k]);
        }
        lemma_no_events_unbounded(evs.drop_last(), s);
        assert(evs.last() == evs[evs.len() - 1]);
    }
}

/// With no recorded events the resolver reduces to pure `velocity * dt`
/// integration: the clamp is a no-op and the box moves exactly by the
/// velocity-driven displacement.
pub proof fn lemma_free_movement(id: u32, e: Entity, evs: Seq<CollisionEvent>, dt: int)
    requires
        forall|k: int| 0 <= k < evs.len() ==> (#[trigger] evs[k]).subject != id,
    ensures
        moved_entity(id, e, evs, dt).aabb.x == (e.aabb.x + scale_mul(e.velocity.x as int, dt)) as i64,
        moved_entity(id, e, evs, dt).aabb.y == (e.aabb.y + scale_mul(e.velocity.y as int, dt)) as i64,
        moved_entity(id, e, evs, dt).aabb.w == e.aabb.w,
        moved_entity(id, e, evs, dt).aabb.h == e.aabb.h,
{
    lemma_no_events_unbounded(evs, id);
}

} // verus!
