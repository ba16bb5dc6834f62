// Seeded map generation: fragments, combinators, walks and paths.

use arena_sim::map_fragment::MapFragment;
use arena_sim::map_gen::{gen_ca, gen_ca2, gen_dla, gen_dla_rim};

#[test]
fn fragment_new_and_set() {
    let mut mf = MapFragment::new(4, 3);
    assert_eq!(mf.w, 4);
    assert_eq!(mf.h, 3);
    assert_eq!(mf.walkable.len(), 12);
    assert!(!mf.get(2, 1));
    mf.set(2, 1, true);
    assert!(mf.get(2, 1));
    assert!(!mf.get(1, 2));

    let open = MapFragment::new_open(2, 2);
    assert!(open.get(0, 0) && open.get(1, 1));
}

#[test]
fn fragment_and_equals() {
    let mut a = MapFragment::new_open(3, 3);
    let mut b = MapFragment::new(3, 3);
    b.set(1, 1, true);
    b.set(2, 0, true);
    a.and_equals(&b, 0, 0);
    assert!(a.get(1, 1));
    assert!(a.get(2, 0));
    assert!(!a.get(0, 0));
    assert!(!a.get(2, 2));
}

#[test]
fn fragment_blit_stamps_window() {
    let mut dst = MapFragment::new(4, 4);
    let src = MapFragment::new_open(2, 2);
    dst.blit(&src, 1, 1);
    for x in 0..4i32 {
        for y in 0..4i32 {
            let inside = (1..3).contains(&x) && (1..3).contains(&y);
            assert_eq!(dst.get(x, y), inside, "cell {},{}", x, y);
        }
    }
}

#[test]
fn fragment_scramble_is_seeded() {
    let a = MapFragment::new(8, 8).scramble(550, 42);
    let b = MapFragment::new(8, 8).scramble(550, 42);
    assert_eq!(a.walkable, b.walkable);
    let c = MapFragment::new(8, 8).scramble(550, 43);
    assert_ne!(a.walkable, c.walkable);
    // density zero blocks everything, full density opens everything
    assert!(MapFragment::new(4, 4).scramble(0, 7).walkable.iter().all(|b| !b));
    assert!(MapFragment::new(4, 4).scramble(1000, 7).walkable.iter().all(|b| *b));
}

#[test]
fn fragment_dla_grows_from_center() {
    let mf = MapFragment::new(9, 9).dla(40, 5);
    assert!(mf.get(4, 4));
    assert_eq!(mf.w, 9);
    assert_eq!(mf.h, 9);
}

#[test]
fn fragment_dla_rim_keeps_fragment() {
    let mf = MapFragment::new_open(5, 5).dla_rim(10, 3);
    assert!(mf.get(0, 0));
    assert_eq!(mf.walkable.len(), 25);
}

#[test]
fn fragment_ca_on_empty_grid_stays_empty() {
    // no neighbors anywhere: the survival rule clears every cell
    let mf = MapFragment::new(4, 4).ca(3, 0);
    assert!(mf.walkable.iter().all(|b| !b));
    // a single open cell feeds its neighbors for one pass
    let mut seeded = MapFragment::new(4, 4);
    seeded.set(2, 2, true);
    let stepped = seeded.ca(1, 0);
    assert!(stepped.get(1, 1));
    assert!(stepped.get(2, 1));
    assert!(!stepped.get(2, 2));
}

#[test]
fn paths_follow_walkable_cells() {
    // a 4x4 grid with an open 2x2 block away from the low borders
    let mut mf = MapFragment::new(4, 4);
    mf.set(1, 1, true);
    mf.set(1, 2, true);
    mf.set(2, 1, true);
    mf.set(2, 2, true);
    let paths = mf.paths_from(1, 1);
    assert!(paths.reachable(1, 1));
    assert!(paths.reachable(2, 2));
    assert!(!paths.reachable(0, 0));
    assert_eq!(paths.dist(1, 1), 0);
    assert_eq!(paths.dist(1, 2), 1);
    assert_eq!(paths.dist(2, 2), 2);

    let far = paths.furthest();
    assert_eq!(paths.dist(far.0, far.1), 2);

    let within = paths.tiles_within_dist(2);
    assert_eq!(within.len(), 3);
    assert!(within.contains(&(1, 1)));
    assert!(within.contains(&(1, 2)));
    assert!(within.contains(&(2, 1)));

    let chain = paths.path(1, 1, 2, 2);
    assert_eq!(chain, vec![(1, 1), (1, 2)]);
}

#[test]
fn generators_produce_full_grids() {
    let level = gen_dla(12, 10, 50, 9);
    assert_eq!(level.len(), 120);
    assert!(level[(12 / 2) * 10 + 10 / 2]);

    let rim = gen_dla_rim(12, 10, 50, 9);
    assert_eq!(rim.len(), 120);
    assert!(rim[(12 / 2) * 10 + 10 / 2]);

    let cave = gen_ca(16, 16, 600, 4, 11);
    assert_eq!(cave.len(), 256);
    // the border is sealed after every pass
    for k in 0..16usize {
        assert!(!cave[k]); // x == 0 column
        assert!(!cave[15 * 16 + k]); // x == 15 column
        assert!(!cave[k * 16]); // y == 0 row
        assert!(!cave[k * 16 + 15]); // y == 15 row
    }
}

#[test]
fn composite_generator_is_deterministic() {
    let (spawn_a, grid_a) = gen_ca2(30, 30, 1234);
    let (spawn_b, grid_b) = gen_ca2(30, 30, 1234);
    assert_eq!(spawn_a, spawn_b);
    assert_eq!(grid_a.walkable, grid_b.walkable);
    assert_eq!(grid_a.w, 30);
    assert_eq!(grid_a.h, 30);
    assert!(spawn_a.0 >= 0 && spawn_a.0 < 30);
    assert!(spawn_a.1 >= 0 && spawn_a.1 < 30);
}
