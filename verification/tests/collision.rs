// Exercises the collision core on concrete fixtures; all world values are
// in thousandths of a world unit.

use arena_sim::collision::{
    apply_movement, clamp, collide_entity_entity, collide_entity_terrain, collide_rects,
    movement_bounds, overlap_amount, CollisionEvent, CollisionObject,
};
use arena_sim::entity::{Entity, EntityKind, EntityTable};
use arena_sim::kmath::Vec2;
use arena_sim::level::Tile;
use arena_sim::rect::Rect;

fn open_tile() -> Tile {
    Tile { walkable: true, overhang: false, underhang: false, edge: false }
}

fn wall_tile() -> Tile {
    Tile { walkable: false, overhang: false, underhang: false, edge: false }
}

#[test]
fn test_collide_rects() {
    {
        let r1 = Rect::new(0, 0, 1000, 1000);
        let r2 = Rect::new(900, 0, 1000, 1000);
        println!("rect intersection: {:?}", collide_rects(r1, r2));
    }
    {
        let r1 = Rect::new(0, 0, 1000, 1000);
        let r2 = Rect::new(900, 100, 1000, 1000);
        println!("rect intersection: {:?}", collide_rects(r1, r2));
    }
}

#[test]
fn test_collision() {
    let mut entities = EntityTable::new();
    let mut collisions = Vec::new();
    entities.insert(
        0,
        Entity::new(EntityKind::Player, Vec2::new(25, 25)).with_velocity(Vec2::new(1000, 0)),
    );
    entities.insert(1, Entity::new(EntityKind::Player, Vec2::new(75, 25)));
    println!("entities before: {:?}", entities);
    collide_entity_entity(&entities, &mut collisions, 10);
    println!("collisions: {:?}", collisions);
    let bounds = movement_bounds(0, &collisions);
    println!("bounds: {:?}", bounds);
    apply_movement(&mut entities, &collisions, 10);
    println!("entities now: {:?}", entities);
}

#[test]
fn overlap_branch_fixtures() {
    // disjoint intervals
    assert_eq!(overlap_amount(0, 1000, 2000, 3000), 0);
    // touching intervals count as non-overlapping
    assert_eq!(overlap_amount(0, 1000, 1000, 2000), 0);
    // a fully within b
    assert_eq!(overlap_amount(400, 600, 0, 1000), 200);
    // b fully within a
    assert_eq!(overlap_amount(0, 1000, 400, 600), 200);
    // a entered b from the left of b's high end: a=[0,1], b=[0.9,1.9]
    assert_eq!(overlap_amount(0, 1000, 900, 1900), -100);
    // a=[0.9,1.9], b=[0,1]
    assert_eq!(overlap_amount(900, 1900, 0, 1000), 100);
    // a=[0,1], b=[-0.5,0.5]
    assert_eq!(overlap_amount(0, 1000, -500, 500), 500);
}

#[test]
fn least_penetration_and_swap() {
    let a = Rect::new(0, 0, 1000, 1000);
    let b = Rect::new(900, 800, 1000, 1000);
    assert_eq!(collide_rects(a, b), Some(Vec2::new(-100, 0)));
    assert_eq!(collide_rects(b, a), Some(Vec2::new(100, 0)));
    // exactly one nonzero component
    let p = collide_rects(a, b).unwrap();
    assert!((p.x != 0) ^ (p.y != 0));
}

#[test]
fn non_overlapping_rects_give_none() {
    let a = Rect::new(0, 0, 1000, 1000);
    assert_eq!(collide_rects(a, Rect::new(1000, 0, 1000, 1000)), None);
    assert_eq!(collide_rects(a, Rect::new(0, 1000, 1000, 1000)), None);
    assert_eq!(collide_rects(a, Rect::new(5000, 5000, 1000, 1000)), None);
    // zero-length shared projection
    assert_eq!(collide_rects(a, Rect::new(500, 500, 0, 1000)), None);
}

#[test]
fn bullet_filter_never_fires_on_owner_or_bullets() {
    // a bullet overlapping its own firer
    let mut entities = EntityTable::new();
    entities.insert(1, Entity::new(EntityKind::Player, Vec2::new(25, 25)));
    entities.insert(2, Entity::new(EntityKind::Bullet, Vec2::new(25, 25)).with_owner(1));
    let mut collisions: Vec<CollisionEvent> = Vec::new();
    collide_entity_entity(&entities, &mut collisions, 10);
    // the player/bullet pair is exempt both ways; nothing else overlaps
    assert!(collisions.is_empty());

    // two bullets of different teams
    let mut entities = EntityTable::new();
    entities.insert(1, Entity::new(EntityKind::Bullet, Vec2::new(25, 25)));
    entities.insert(
        2,
        Entity::new(EntityKind::Bullet, Vec2::new(25, 25))
            .with_team(arena_sim::entity::EntityTeam::Player),
    );
    let mut collisions: Vec<CollisionEvent> = Vec::new();
    collide_entity_entity(&entities, &mut collisions, 10);
    assert!(collisions.is_empty());

    // a bullet overlapping a same-team body it does not own
    let mut entities = EntityTable::new();
    entities.insert(1, Entity::new(EntityKind::WalkerShooter, Vec2::new(25, 25)));
    entities.insert(2, Entity::new(EntityKind::Bullet, Vec2::new(25, 25)).with_owner(77));
    let mut collisions: Vec<CollisionEvent> = Vec::new();
    collide_entity_entity(&entities, &mut collisions, 10);
    assert!(collisions.is_empty());

    // two same-team solid bodies still collide, in both directions
    let mut entities = EntityTable::new();
    entities.insert(1, Entity::new(EntityKind::WalkerShooter, Vec2::new(25, 25)));
    entities.insert(2, Entity::new(EntityKind::RunnerGunner, Vec2::new(30, 25)));
    let mut collisions: Vec<CollisionEvent> = Vec::new();
    collide_entity_entity(&entities, &mut collisions, 10);
    assert_eq!(
        collisions,
        vec![
            CollisionEvent {
                subject: 1,
                object: CollisionObject::Entity(2),
                penetration: Vec2::new(-45, 0),
            },
            CollisionEvent {
                subject: 2,
                object: CollisionObject::Entity(1),
                penetration: Vec2::new(45, 0),
            },
        ]
    );
}

#[test]
fn no_events_mean_free_movement() {
    assert_eq!(movement_bounds(7, &Vec::new()), (None, None, None, None));

    let mut entities = EntityTable::new();
    entities.insert(
        7,
        Entity::new(EntityKind::Player, Vec2::new(1000, 1000))
            .with_velocity(Vec2::new(300, -400)),
    );
    let before = entities.get(7).unwrap().aabb;
    apply_movement(&mut entities, &Vec::new(), 100);
    let after = entities.get(7).unwrap().aabb;
    // pure velocity * dt integration
    assert_eq!(after.x, before.x + 30);
    assert_eq!(after.y, before.y - 40);
    assert_eq!(after.w, before.w);
    assert_eq!(after.h, before.h);
}

#[test]
fn movement_bounds_take_largest_magnitude() {
    let ev = |px: i64, py: i64| CollisionEvent {
        subject: 3,
        object: CollisionObject::Terrain(0, 0),
        penetration: Vec2::new(px, py),
    };
    let collisions = vec![ev(-100, 0), ev(-300, 0), ev(50, 0), ev(200, 0), ev(0, -20), ev(0, 70)];
    let (min_dx, max_dx, min_dy, max_dy) = movement_bounds(3, &collisions);
    assert_eq!(max_dx, Some(-300));
    assert_eq!(min_dx, Some(200));
    assert_eq!(max_dy, Some(-20));
    assert_eq!(min_dy, Some(70));
    // events of other subjects are ignored
    assert_eq!(movement_bounds(4, &collisions), (None, None, None, None));
}

#[test]
fn clamp_branches() {
    assert_eq!(clamp(0, None, None), 0);
    assert_eq!(clamp(0, Some(5), None), 5);
    assert_eq!(clamp(0, None, Some(-5)), -5);
    assert_eq!(clamp(3, Some(1), Some(10)), 3);
    // inverted bounds: the min branch wins
    assert_eq!(clamp(0, Some(7), Some(-7)), 7);
}

#[test]
fn wall_stops_horizontal_movement() {
    // a 1x1 entity flush against a wall on its right, moving right
    let mut entities = EntityTable::new();
    let mut e = Entity::new(EntityKind::Player, Vec2::new(500, 500));
    e.aabb = Rect::new(0, 0, 1000, 1000);
    e.velocity = Vec2::new(1000, 500);
    entities.insert(1, e);

    let mut terrain = vec![open_tile(); 9];
    terrain[1 * 3 + 0] = wall_tile(); // cell (1, 0), world x in [1000, 2000)

    let mut collisions: Vec<CollisionEvent> = Vec::new();
    collide_entity_terrain(&entities, &terrain, 1000, 3, &mut collisions, 100);
    assert_eq!(collisions.len(), 1);
    assert_eq!(collisions[0].subject, 1);
    assert_eq!(collisions[0].object, CollisionObject::Terrain(1, 0));
    assert_eq!(collisions[0].penetration, Vec2::new(-100, 0));

    apply_movement(&mut entities, &collisions, 100);
    let after = entities.get(1).unwrap().aabb;
    // no residual overlap with the wall face at x = 1000
    assert!(after.x + after.w <= 1000);
    assert_eq!(after.x, 0);
    // the y axis advances by velocity.y * dt alone
    assert_eq!(after.y, 50);
}
