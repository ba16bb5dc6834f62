//! Mobile bodies of the arena and the id-keyed table that holds them.

use vstd::prelude::*;
use crate::kmath::{Vec2, in_world, WORLD_MAX};
use crate::rect::Rect;

verus! {

#[derive(Clone, Copy, Debug, PartialEq, Eq, Structural)]
pub enum EntityKind {
    Player,
    WalkerShooter,
    RunnerGunner,
    Chungus,
    Bullet,
}

#[derive(Clone, Copy, Debug, PartialEq, Eq, Structural)]
pub enum EntityTeam {
    Player,
    Enemy,
}

/// An intent produced by the AI or input layer, applied to one entity.
pub enum EntityCommand {
    Move(u32, Vec2),
    Shoot(u32, Vec2),
    Unshoot(u32),
}

/// Id value that marks an entity as owned by nobody.
pub const NO_OWNER: u32 = 123123;

/// A mobile body: its box, velocity and the attributes the pairwise
/// collision filter reads.
#[derive(Clone, Copy, Debug, PartialEq, Eq, Structural)]
pub struct Entity {
    pub kind: EntityKind,
    pub aabb: Rect,
    pub velocity: Vec2,
    pub speed: i64,
    pub want_shoot: bool,
    pub previous_shoot_dir: Vec2,
    pub owner: u32,
    pub team: EntityTeam,
    pub health: i64,
    pub max_health: i64,
    pub damage: i64,
}

/// Side length of an entity's box, by kind.
pub open spec fn kind_side(kind: EntityKind) -> int {
    match kind {
        EntityKind::Player => 50,
        EntityKind::WalkerShooter => 50,
        EntityKind::RunnerGunner => 50,
        EntityKind::Chungus => 100,
        EntityKind::Bullet => 20,
    }
}

/// Walking speed of an entity, by kind.
pub open spec fn kind_speed(kind: EntityKind) -> int {
    match kind {
        EntityKind::Player => 600,
        EntityKind::WalkerShooter => 200,
        EntityKind::RunnerGunner => 300,
        EntityKind::Chungus => 150,
        EntityKind::Bullet => 0,
    }
}

/// Starting health of an entity, by kind.
pub open spec fn kind_health(kind: EntityKind) -> int {
    match kind {
        EntityKind::Chungus => 8000,
        EntityKind::Player => 4000,
        EntityKind::RunnerGunner => 4000,
        EntityKind::WalkerShooter => 4000,
        EntityKind::Bullet => 1000,
    }
}

/// Team assignment of an entity, by kind.
pub open spec fn kind_team(kind: EntityKind) -> EntityTeam {
    match kind {
        EntityKind::Player => EntityTeam::Player,
        _ => EntityTeam::Enemy,
    }
}

impl Entity {
    /// All coordinates of the entity lie within the legal world range.
    pub open spec fn bounded(self) -> bool {
        self.aabb.bounded() && in_world(self.velocity.x as int) && in_world(
            self.velocity.y as int,
        )
    }

    /// A fresh entity of the given kind with its box centered on `pos`,
    /// standing still, owned by nobody.
    pub fn new(kind: EntityKind, pos: Vec2) -> (r: Entity)
        requires
            -WORLD_MAX + 50 <= pos.x <= WORLD_MAX,
            -WORLD_MAX + 50 <= pos.y <= WORLD_MAX,
        ensures
            r.kind == kind,
            r.aabb == (Rect {
                x: (pos.x - kind_side(kind) / 2) as i64,
                y: (pos.y - kind_side(kind) / 2) as i64,
                w: kind_side(kind) as i64,
                h: kind_side(kind) as i64,
            }),
            r.velocity == (Vec2 { x: 0, y: 0 }),
            r.speed == kind_speed(kind),
            r.want_shoot == false,
            r.previous_shoot_dir == (Vec2 { x: crate::kmath::FP_SCALE, y: 0 }),
            r.owner == NO_OWNER,
            r.team == kind_team(kind),
            r.health == kind_health(kind),
            r.max_health == kind_health(kind),
            r.damage == 0,
            r.bounded(),
    {
        let side_length: i64 = match kind {
            EntityKind::Player => 50,
            EntityKind::WalkerShooter => 50,
            EntityKind::RunnerGunner => 50,
            EntityKind::Chungus => 100,
            EntityKind::Bullet => 20,
        };
        let speed: i64 = match kind {
            EntityKind::Player => 600,
            EntityKind::WalkerShooter => 200,
            EntityKind::RunnerGunner => 300,
            EntityKind::Chungus => 150,
            EntityKind::Bullet => 0,
        };
        let team = match kind {
            EntityKind::Player => EntityTeam::Player,
            _ => EntityTeam::Enemy,
        };
        let health: i64 = match kind {
            EntityKind::Chungus => 8000,
            EntityKind::Player => 4000,
            EntityKind::RunnerGunner => 4000,
            EntityKind::WalkerShooter => 4000,
            EntityKind::Bullet => 1000,
        };
        Entity {
            aabb: Rect::new(
                pos.x - side_length / 2,
                pos.y - side_length / 2,
                side_length,
                side_length,
            ),
            kind,
            velocity: Vec2::new(0, 0),
            want_shoot: false,
            previous_shoot_dir: Vec2::new(crate::kmath::FP_SCALE, 0),
            owner: NO_OWNER,
            health,
            max_health: health,
            damage: 0,
            speed,
            team,
        }
    }

    pub fn with_velocity(self, velocity: Vec2) -> (r: Entity)
        ensures
            r == (Entity { velocity, ..self }),
    {
        let mut e = self;
        e.velocity = velocity;
        e
    }

    pub fn with_owner(self, owner: u32) -> (r: Entity)
        ensures
            r == (Entity { owner, ..self }),
    {
        let mut e = self;
        e.owner = owner;
        e
    }

    pub fn with_team(self, team: EntityTeam) -> (r: Entity)
        ensures
            r == (Entity { team, ..self }),
    {
        let mut e = self;
        e.team = team;
        e
    }

    pub fn with_damage(self, damage: i64) -> (r: Entity)
        ensures
            r == (Entity { damage, ..self }),
    {
        let mut e = self;
        e.damage = damage;
        e
    }
}

/// First entity recorded under `id`, scanning from the front; the table's
/// well-formedness makes it the only one.
pub open spec fn lookup(tbl: Seq<(u32, Entity)>, id: u32) -> Option<Entity>
    decreases tbl.len(),
{
    if tbl.len() == 0 {
        None
    } else if tbl[0].0 == id {
        Some(tbl[0].1)
    } else {
        lookup(tbl.drop_first(), id)
    }
}

/// Every entity of the table lies within the legal world range.
pub open spec fn all_bounded(tbl: Seq<(u32, Entity)>) -> bool {
    forall|i: int| 0 <= i < tbl.len() ==> #[trigger] tbl[i].1.bounded()
}

/// The table of live entities, keyed by id as the surrounding game sees
/// them; ids are unique.
#[derive(Debug)]
pub struct EntityTable {
    pub(crate) entries: Vec<(u32, Entity)>,
}

impl View for EntityTable {
    type V = Seq<(u32, Entity)>;

    closed spec fn view(&self) -> Seq<(u32, Entity)> {
        self.entries@
    }
}

impl EntityTable {
    /// Ids are pairwise distinct.
    pub open spec fn wf(&self) -> bool {
        forall|i: int, j: int|
            0 <= i < j < self@.len() ==> (#[trigger] self@[i]).0 != (#[trigger] self@[j]).0
    }

    pub fn new() -> (r: EntityTable)
        ensures
            r@ =~= Seq::<(u32, Entity)>::empty(),
            r.wf(),
    {
        EntityTable { entries: Vec::new() }
    }

    pub fn len(&self) -> (r: usize)
        ensures
            r == self@.len(),
    {
        self.entries.len()
    }

    pub fn entry_at(&self, i: usize) -> (r: (u32, Entity))
        requires
            i < self@.len(),
        ensures
            r == self@[i as int],
    {
        self.entries[i]
    }

    pub(crate) fn set_entry(&mut self, i: usize, entry: (u32, Entity))
        requires
            i < old(self)@.len(),
        ensures
            final(self)@ == old(self)@.update(i as int, entry),
    {
        self.entries.set(i, entry);
    }

    /// Index of the entry holding `id`, if any.
    fn position(&self, id: u32) -> (r: Option<usize>)
        ensures
            match r {
                Some(i) => i < self@.len() && self@[i as int].0 == id,
                None => forall|i: int| 0 <= i < self@.len() ==> (#[trigger] self@[i]).0 != id,
            },
    {
        let n = self.entries.len();
        let mut i: usize = 0;
        while i < n
            invariant
                i <= n,
                n == self@.len(),
                forall|k: int| 0 <= k < i ==> (#[trigger] self@[k]).0 != id,
            decreases n - i,
        {
            if self.entries[i].0 == id {
                return Some(i);
            }
            i = i + 1;
        }
        None
    }

    pub fn get(&self, id: u32) -> (r: Option<Entity>)
        requires
            self.wf(),
        ensures
            r == lookup(self@, id),
    {
        proof {
            lemma_lookup_characterize(self@, id);
        }
        match self.position(id) {
            Some(i) => Some(self.entries[i].1),
            None => None,
        }
    }

    /// Records `e` under `id`: replaces the entry holding `id`, or appends
    /// a new one — the insertion semantics of a map.
    pub fn insert(&mut self, id: u32, e: Entity)
        requires
            old(self).wf(),
        ensures
            final(self).wf(),
            lookup(final(self)@, id) == Some(e),
            forall|other: u32|
                other != id ==> lookup(final(self)@, other) == lookup(old(self)@, other),
            final(self)@.len() <= old(self)@.len() + 1,
            all_bounded(old(self)@) && e.bounded() ==> all_bounded(final(self)@),
    {
        proof {
            lemma_lookup_characterize(self@, id);
        }
        let ghost pre = self@;
        match self.position(id) {
            Some(i) => {
                self.entries[i] = (id, e);
                proof {
                    assert(self@ =~= pre.update(i as int, (id, e)));
                    lemma_lookup_update(pre, i as int, id, e);
                }
            },
            None => {
                self.entries.push((id, e));
                proof {
                    lemma_lookup_append(pre, id, e);
                }
            },
        }
    }

    /// Removes the entry holding `id`, if any; the order of the remaining
    /// entries is kept.
    pub fn remove(&mut self, id: u32)
        requires
            old(self).wf(),
        ensures
            final(self).wf(),
            lookup(final(self)@, id) == None::<Entity>,
            forall|other: u32|
                other != id ==> lookup(final(self)@, other) == lookup(old(self)@, other),
            all_bounded(old(self)@) ==> all_bounded(final(self)@),
    {
        proof {
            lemma_lookup_characterize(self@, id);
        }
        let ghost pre = self@;
        match self.position(id) {
            Some(i) => {
                self.entries.remove(i);
                proof {
                    lemma_lookup_remove(pre, i as int, id);
                }
            },
            None => {
                proof {
                    lemma_lookup_characterize(pre, id);
                }
            },
        }
    }
}

/// `lookup` finds an entry exactly when one carries the id; in a
/// well-formed table it is the entry.
pub proof fn lemma_lookup_characterize(tbl: Seq<(u32, Entity)>, id: u32)
    ensures
        lookup(tbl, id) is Some <==> exists|i: int| 0 <= i < tbl.len() && (#[trigger] tbl[i]).0 == id,
        (forall|i: int, j: int|
            0 <= i < j < tbl.len() ==> (#[trigger] tbl[i]).0 != (#[trigger] tbl[j]).0) ==> forall|
            i: int,
        |
            0 <= i < tbl.len() && (#[trigger] tbl[i]).0 == id ==> lookup(tbl, id) == Some(tbl[i].1),
    decreases tbl.len(),
{
    if tbl.len() > 0 && tbl[0].0 != id {
        lemma_lookup_characterize(tbl.drop_first(), id);
        assert forall|i: int| 0 <= i < tbl.len() && (#[trigger] tbl[i]).0 == id implies exists|
            k: int,
        | 0 <= k < tbl.drop_first().len() && (#[trigger] tbl.drop_first()[k]).0 == id by {
            assert(tbl.drop_first()[i - 1].0 == id);
        }
    }
}

proof fn lemma_lookup_update(tbl: Seq<(u32, Entity)>, i: int, id: u32, e: Entity)
    requires
        0 <= i < tbl.len(),
        tbl[i].0 == id,
        forall|p: int, q: int|
            0 <= p < q < tbl.len() ==> (#[trigger] tbl[p]).0 != (#[trigger] tbl[q]).0,
    ensures
        lookup(tbl.update(i, (id, e)), id) == Some(e),
        forall|other: u32| other != id ==> lookup(tbl.update(i, (id, e)), other) == lookup(tbl, other),
    decreases tbl.len(),
{
    let upd = tbl.update(i, (id, e));
    if i == 0 {
        assert(upd[0] == (id, e));
        assert forall|other: u32| other != id implies lookup(upd, other) == lookup(tbl, other) by {
            assert(upd.drop_first() =~= tbl.drop_first());
            assert(lookup(upd, other) == lookup(upd.drop_first(), other));
            assert(lookup(tbl, other) == lookup(tbl.drop_first(), other));
        }
    } else {
        assert(upd[0] == tbl[0]);
        assert(tbl[0].0 != id);
        assert(upd.drop_first() =~= tbl.drop_first().update(i - 1, (id, e)));
        assert forall|p: int, q: int|
            0 <= p < q < tbl.drop_first().len() implies (#[trigger] tbl.drop_first()[p]).0 != (
        #[trigger] tbl.drop_first()[q]).0 by {
            assert(tbl.drop_first()[p] == tbl[p + 1]);
            assert(tbl.drop_first()[q] == tbl[q + 1]);
        }
        lemma_lookup_update(tbl.drop_first(), i - 1, id, e);
        assert(lookup(upd, id) == lookup(upd.drop_first(), id));
        assert forall|other: u32| other != id implies lookup(upd, other) == lookup(tbl, other) by {
            if tbl[0].0 == other {
                assert(lookup(upd, other) == Some(upd[0].1));
                assert(lookup(tbl, other) == Some(tbl[0].1));
            } else {
                assert(lookup(upd, other) == lookup(upd.drop_first(), other));
                assert(lookup(tbl, other) == lookup(tbl.drop_first(), other));
            }
        }
    }
}

proof fn lemma_lookup_append(tbl: Seq<(u32, Entity)>, id: u32, e: Entity)
    requires
        forall|i: int| 0 <= i < tbl.len() ==> (#[trigger] tbl[i]).0 != id,
    ensures
        lookup(tbl.push((id, e)), id) == Some(e),
        forall|other: u32| other != id ==> lookup(tbl.push((id, e)), other) == lookup(tbl, other),
    decreases tbl.len(),
{
    let ext = tbl.push((id, e));
    if tbl.len() == 0 {
        assert(ext[0] == (id, e));
        assert(lookup(ext, id) == Some(e));
        assert forall|other: u32| other != id implies lookup(ext, other) == lookup(tbl, other) by {
            assert(ext.drop_first() =~= Seq::<(u32, Entity)>::empty());
            assert(lookup(ext.drop_first(), other) == None::<Entity>);
            assert(lookup(ext, other) == lookup(ext.drop_first(), other));
            assert(lookup(tbl, other) == None::<Entity>);
        }
    } else {
        assert(ext[0] == tbl[0]);
        assert(ext.drop_first() =~= tbl.drop_first().push((id, e)));
        assert forall|i: int| 0 <= i < tbl.drop_first().len() implies (
        #[trigger] tbl.drop_first()[i]).0 != id by {
            assert(tbl.drop_first()[i] == tbl[i + 1]);
        }
        lemma_lookup_append(tbl.drop_first(), id, e);
        assert(tbl[0].0 != id);
        assert(lookup(ext, id) == lookup(ext.drop_first(), id));
        assert forall|other: u32| other != id implies lookup(ext, other) == lookup(tbl, other) by {
            if tbl[0].0 == other {
                assert(lookup(ext, other) == Some(ext[0].1));
                assert(lookup(tbl, other) == Some(tbl[0].1));
            } else {
                assert(lookup(ext, other) == lookup(ext.drop_first(), other));
                assert(lookup(tbl, other) == lookup(tbl.drop_first(), other));
            }
        }
    }
}

proof fn lemma_lookup_remove(tbl: Seq<(u32, Entity)>, i: int, id: u32)
    requires
        0 <= i < tbl.len(),
        tbl[i].0 == id,
        forall|p: int, q: int|
            0 <= p < q < tbl.len() ==> (#[trigger] tbl[p]).0 != (#[trigger] tbl[q]).0,
    ensures
        lookup(tbl.remove(i), id) == None::<Entity>,
        forall|other: u32| other != id ==> lookup(tbl.remove(i), other) == lookup(tbl, other),
    decreases tbl.len(),
{
    let rem = tbl.remove(i);
    if i == 0 {
        assert(rem =~= tbl.drop_first());
        lemma_lookup_characterize(tbl.drop_first(), id);
        assert forall|k: int|
            0 <= k < tbl.drop_first().len() implies (#[trigger] tbl.drop_first()[k]).0 != id by {
            assert(tbl.drop_first()[k] == tbl[k + 1]);
        }
        assert(lookup(rem, id) == None::<Entity>);
        assert forall|other: u32| other != id implies lookup(rem, other) == lookup(tbl, other) by {
            assert(lookup(tbl, other) == lookup(tbl.drop_first(), other));
        }
    } else {
        assert(rem[0] == tbl[0]);
        assert(tbl[0].0 != id);
        assert(rem.drop_first() =~= tbl.drop_first().remove(i - 1));
        assert forall|p: int, q: int|
            0 <= p < q < tbl.drop_first().len() implies (#[trigger] tbl.drop_first()[p]).0 != (
        #[trigger] tbl.drop_first()[q]).0 by {
            assert(tbl.drop_first()[p] == tbl[p + 1]);
            assert(tbl.drop_first()[q] == tbl[q + 1]);
        }
        lemma_lookup_remove(tbl.drop_first(), i - 1, id);
        assert(lookup(rem, id) == lookup(rem.drop_first(), id));
        assert forall|other: u32| other != id implies lookup(rem, other) == lookup(tbl, other) by {
            if tbl[0].0 == other {
                assert(lookup(rem, other) == Some(rem[0].1));
                assert(lookup(tbl, other) == Some(tbl[0].1));
            } else {
                assert(lookup(rem, other) == lookup(rem.drop_first(), other));
                assert(lookup(tbl, other) == lookup(tbl.drop_first(), other));
            }
        }
    }
}

} // verus!
