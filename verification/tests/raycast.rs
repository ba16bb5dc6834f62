// Grid ray-march behavior, including the zero-length edge case.

use arena_sim::entity::EntityTable;
use arena_sim::kmath::Vec2;
use arena_sim::level::{Level, Tile};

fn level_from(walls: &[(i32, i32)], side: usize) -> Level {
    let open = Tile { walkable: true, overhang: false, underhang: false, edge: false };
    let mut tiles = vec![open; side * side];
    for &(x, y) in walls {
        tiles[(x as usize) * side + (y as usize)].walkable = false;
    }
    Level { entities: EntityTable::new(), tiles, side_length: side, grid_size: 1000 }
}

#[test]
fn raycast_zero_length_ray() {
    // in an open interior cell: immediate clear sight
    let level = level_from(&[], 3);
    assert_eq!(level.raycast(Vec2::new(1500, 1500), Vec2::new(1500, 1500)), None);

    // standing inside a wall cell: immediate hit at the very point
    let level = level_from(&[(1, 1)], 3);
    assert_eq!(
        level.raycast(Vec2::new(1500, 1500), Vec2::new(1500, 1500)),
        Some(Vec2::new(1500, 1500))
    );

    // outside the interior band: boundary hit at the very point
    let level = level_from(&[], 3);
    assert_eq!(
        level.raycast(Vec2::new(2500, 1500), Vec2::new(2500, 1500)),
        Some(Vec2::new(2500, 1500))
    );
}

#[test]
fn raycast_hits_wall_face() {
    // horizontal march into a wall two cells to the right
    let level = level_from(&[(3, 1)], 5);
    assert_eq!(
        level.raycast(Vec2::new(1500, 1500), Vec2::new(4500, 1500)),
        Some(Vec2::new(3000, 1500))
    );
}

#[test]
fn raycast_clear_and_boundary() {
    let level = level_from(&[], 5);
    // clear line of sight inside the interior
    assert_eq!(level.raycast(Vec2::new(1500, 1500), Vec2::new(3500, 1500)), None);
    // marching toward the rim stops at the interior band's edge
    assert_eq!(
        level.raycast(Vec2::new(1500, 1500), Vec2::new(4700, 1500)),
        Some(Vec2::new(4000, 1500))
    );
}

#[test]
fn raycast_diagonal() {
    // diagonal march blocked by a wall on the diagonal
    let level = level_from(&[(3, 3)], 6);
    let hit = level
        .raycast(Vec2::new(1500, 1500), Vec2::new(4500, 4500))
        .expect("diagonal ray must stop at the wall");
    // the march enters cell (3, 3) at its corner
    assert_eq!(hit, Vec2::new(3000, 3000));

    // without the wall the same ray is clear
    let level = level_from(&[], 6);
    assert_eq!(level.raycast(Vec2::new(1500, 1500), Vec2::new(4500, 4500)), None);
}
