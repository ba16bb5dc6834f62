// Entities, the id-keyed table, commands and the level constructors.

use arena_sim::entity::{Entity, EntityCommand, EntityKind, EntityTable, EntityTeam, NO_OWNER};
use arena_sim::kmath::{khash, Vec2};
use arena_sim::level::{Level, LevelGenParams};

#[test]
fn entity_stats_by_kind() {
    let p = Entity::new(EntityKind::Player, Vec2::new(1000, 2000));
    assert_eq!(p.aabb.w, 50);
    assert_eq!(p.aabb.h, 50);
    assert_eq!(p.aabb.x, 1000 - 25);
    assert_eq!(p.aabb.y, 2000 - 25);
    assert_eq!(p.speed, 600);
    assert_eq!(p.team, EntityTeam::Player);
    assert_eq!(p.health, 4000);
    assert_eq!(p.max_health, 4000);
    assert_eq!(p.owner, NO_OWNER);
    assert_eq!(p.velocity, Vec2::new(0, 0));

    let c = Entity::new(EntityKind::Chungus, Vec2::new(0, 0));
    assert_eq!(c.aabb.w, 100);
    assert_eq!(c.speed, 150);
    assert_eq!(c.team, EntityTeam::Enemy);
    assert_eq!(c.health, 8000);

    let b = Entity::new(EntityKind::Bullet, Vec2::new(0, 0));
    assert_eq!(b.aabb.w, 20);
    assert_eq!(b.speed, 0);

    let tuned = Entity::new(EntityKind::Bullet, Vec2::new(0, 0))
        .with_velocity(Vec2::new(7, -7))
        .with_owner(3)
        .with_team(EntityTeam::Player)
        .with_damage(500);
    assert_eq!(tuned.velocity, Vec2::new(7, -7));
    assert_eq!(tuned.owner, 3);
    assert_eq!(tuned.team, EntityTeam::Player);
    assert_eq!(tuned.damage, 500);
}

#[test]
fn table_insert_get_remove() {
    let mut t = EntityTable::new();
    assert_eq!(t.len(), 0);
    assert!(t.get(5).is_none());
    let a = Entity::new(EntityKind::Player, Vec2::new(100, 100));
    let b = Entity::new(EntityKind::Chungus, Vec2::new(200, 200));
    t.insert(5, a);
    t.insert(9, b);
    assert_eq!(t.len(), 2);
    assert_eq!(t.get(5).unwrap().kind, EntityKind::Player);
    assert_eq!(t.get(9).unwrap().kind, EntityKind::Chungus);
    // reinserting an id replaces its entity
    t.insert(5, b);
    assert_eq!(t.len(), 2);
    assert_eq!(t.get(5).unwrap().kind, EntityKind::Chungus);
    t.remove(5);
    assert_eq!(t.len(), 1);
    assert!(t.get(5).is_none());
    assert!(t.get(9).is_some());
}

#[test]
fn commands_drive_entities() {
    let mut level = Level {
        entities: EntityTable::new(),
        tiles: Vec::new(),
        side_length: 0,
        grid_size: 200,
    };
    level.entities.insert(4, Entity::new(EntityKind::Player, Vec2::new(500, 500)));

    // a unit direction scales by the entity's own speed
    level.apply_command(EntityCommand::Move(4, Vec2::new(1000, 0)));
    assert_eq!(level.entities.get(4).unwrap().velocity, Vec2::new(600, 0));
    level.apply_command(EntityCommand::Move(4, Vec2::new(0, -500)));
    assert_eq!(level.entities.get(4).unwrap().velocity, Vec2::new(0, -300));

    level.apply_command(EntityCommand::Shoot(4, Vec2::new(0, 1000)));
    assert!(level.entities.get(4).unwrap().want_shoot);
    assert_eq!(level.entities.get(4).unwrap().previous_shoot_dir, Vec2::new(0, 1000));
    level.apply_command(EntityCommand::Unshoot(4));
    assert!(!level.entities.get(4).unwrap().want_shoot);

    // a command for a missing id changes nothing
    level.apply_command(EntityCommand::Unshoot(99));
    assert_eq!(level.entities.len(), 1);
}

#[test]
fn khash_is_deterministic() {
    assert_eq!(khash(12345), khash(12345));
    assert_ne!(khash(12345), khash(12346));
}

#[test]
fn gen_params_stay_in_range() {
    let p = LevelGenParams::new();
    assert_eq!(p.side_length, 20);
    assert_eq!(p.p_change_dir, 300);
    for _ in 0..50u32 {
        let q = LevelGenParams::new_rand();
        assert!((15..50).contains(&q.side_length));
        assert!((15..50).contains(&q.num_walkers));
        assert!((5..40).contains(&q.walk_iters));
        assert!((100..500).contains(&q.p_change_dir));
    }
}

#[test]
fn walker_level_holds_player() {
    let level = Level::new(Entity::new(EntityKind::Player, Vec2::new(0, 0)));
    assert!((15..50).contains(&(level.side_length as i32)));
    assert_eq!(level.grid_size, 200);
    assert_eq!(level.tiles.len(), level.side_length * level.side_length);
    let player = level.entities.get(0).expect("the player is entity 0");
    assert_eq!(player.kind, EntityKind::Player);
    // the player stands on a carved, walkable tile
    let cx = ((player.aabb.x + player.aabb.w / 2) / level.grid_size) as usize;
    let cy = ((player.aabb.y + player.aabb.h / 2) / level.grid_size) as usize;
    assert!(level.tiles[cx * level.side_length + cy].walkable);
}

#[test]
fn cave_level_holds_player() {
    let level = Level::new_dla(Entity::new(EntityKind::Player, Vec2::new(0, 0)), 77);
    assert_eq!(level.side_length, 30);
    assert_eq!(level.grid_size, 200);
    assert_eq!(level.tiles.len(), 900);
    let player = level.entities.get(0).expect("the player is entity 0");
    assert_eq!(player.kind, EntityKind::Player);
    // deterministic for a fixed seed
    let again = Level::new_dla(Entity::new(EntityKind::Player, Vec2::new(0, 0)), 77);
    assert_eq!(again.entities.get(0).unwrap().aabb, player.aabb);
}
