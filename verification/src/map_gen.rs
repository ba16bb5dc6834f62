//! Seeded level generators built on the walkability fragments: aggregation
//! walks, a cellular-automaton cave shaper, and the composite generator
//! that also picks a spawn point.

use vstd::prelude::*;
use crate::kmath::{khash, imax};
use crate::map_fragment::{
    ca_iter, ca_step, lemma_cell_in_range, MapFragment,
};
use crate::kmath::khash_spec;

verus! {

/// Aggregation-walk generator over a flat grid: the center cell opens,
/// then `n` hashed walkers slide until they stick to the aggregate.
pub fn gen_dla(w: usize, h: usize, n: u32, seed: u32) -> (r: Vec<bool>)
    requires
        1 <= w <= 10_000,
        1 <= h <= 10_000,
    ensures
        r@.len() == w * h,
        r@[(w / 2) * h + h / 2],
{
    let mf = MapFragment::new(w as i32, h as i32);
    let grown = mf.dla(n, seed);
    proof {
        assert((w as int / 2) * (h as int) + (h as int / 2) == (w / 2) * h + h / 2) by (nonlinear_arith)
            requires
                1 <= w <= 10_000,
                1 <= h <= 10_000,
        {};
    }
    grown.walkable
}

/// Rim-seeded aggregation walk: walkers start on an edge of the grid and
/// slide inward until they stick or leave.
#[verifier::rlimit(100)]
pub fn gen_dla_rim(w: usize, h: usize, n: u32, seed: u32) -> (r: Vec<bool>)
    requires
        1 <= w <= 10_000,
        1 <= h <= 10_000,
    ensures
        r@.len() == w * h,
        r@[(w / 2) * h + h / 2],
{
    let wi = w as i32;
    let hi = h as i32;
    let mut mf = MapFragment::new(wi, hi);
    mf.set(wi / 2, hi / 2, true);
    let mut s = seed;
    let mut it: u32 = 0;
    while it < n
        invariant
            mf.wf(),
            mf.w == wi,
            mf.h == hi,
            wi == w,
            hi == h,
            1 <= wi <= 10_000,
            1 <= hi <= 10_000,
            mf.cell(wi as int / 2, hi as int / 2),
        decreases n - it,
    {
        let pick = khash(s.wrapping_add(2)) % 4;
        let r1 = khash(s.wrapping_add(1));
        let mut px: i32;
        let mut py: i32;
        let dx: i32;
        let dy: i32 = 0;
        if pick == 0 {
            px = wi - 1;
            py = (r1 % (h as u32)) as i32;
            dx = -1;
        } else if pick == 1 {
            px = 0;
            py = (r1 % (h as u32)) as i32;
            dx = 1;
        } else if pick == 2 {
            px = (r1 % (w as u32)) as i32;
            py = hi - 1;
            dx = -1;
        } else {
            px = (r1 % (h as u32)) as i32;
            py = 0;
            dx = 1;
        }
        loop
            invariant
                mf.wf(),
                mf.w == wi,
                mf.h == hi,
                1 <= wi <= 10_000,
                1 <= hi <= 10_000,
                mf.cell(wi as int / 2, hi as int / 2),
                dx == 1 || dx == -1,
                dy == 0,
                -1 <= px <= 20_001,
                -1 <= py <= 20_001,
            decreases (if dx < 0 {
                px + 1
            } else {
                imax(wi - px, 0)
            }),
        {
            if px < 0 || py < 0 || px >= wi || py >= hi {
                break;
            }
            if mf.has_walkable_neighbor(px, py) {
                mf.set(px, py, true);
                break;
            }
            px = px + dx;
            py = py + dy;
        }
        s = khash(s.wrapping_add(2305982305));
        it = it + 1;
    }
    proof {
        assert((wi as int / 2) * (hi as int) + (hi as int / 2) == (w / 2) * h + h / 2)
            by (nonlinear_arith)
            requires
                1 <= w <= 10_000,
                1 <= h <= 10_000,
                wi == w,
                hi == h,
        {};
    }
    mf.walkable
}

/// A hashed scatter: cell `k` opens when the seeded hash of `k` falls
/// below the per-mille density.
pub open spec fn hash_scatter(n: int, seed: u32, density: u32) -> Seq<bool> {
    Seq::new(n as nat, |k: int| khash_spec((seed + k) as u32) % 1000 < density)
}

/// The grid with its outermost rows and columns forced non-walkable.
pub open spec fn seal_border(w: int, h: int, s: Seq<bool>) -> Seq<bool> {
    Seq::new(
        s.len(),
        |k: int|
            {
                let a = k / h;
                let b = k % h;
                if a == 0 || b == 0 || a == w - 1 || b == h - 1 {
                    false
                } else {
                    s[k]
                }
            },
    )
}

/// One shaping pass of the cave generator: an automaton step, then the
/// sealed border.
pub open spec fn gen_ca_pass(w: int, h: int, s: Seq<bool>) -> Seq<bool> {
    seal_border(w, h, ca_step(w, h, s))
}

/// `n` shaping passes.
pub open spec fn gen_ca_iter(w: int, h: int, s: Seq<bool>, n: nat) -> Seq<bool>
    decreases n,
{
    if n == 0 {
        s
    } else {
        gen_ca_pass(w, h, gen_ca_iter(w, h, s, (n - 1) as nat))
    }
}

/// Cave generator: a hashed scatter of the given per-mille density,
/// shaped by survival-rule passes with the border sealed after each one.
#[verifier::loop_isolation(false)]
pub fn gen_ca(w: usize, h: usize, density: u32, iters: u32, seed: u32) -> (r: Vec<bool>)
    requires
        1 <= w <= 10_000,
        1 <= h <= 10_000,
        seed.wrapping_mul(1231412) + w * h <= u32::MAX,
    ensures
        r@.len() == w * h,
        r@ == gen_ca_iter(
            w as int,
            h as int,
            hash_scatter((w * h) as int, seed.wrapping_mul(1231412), density),
            iters as nat,
        ),
{
    let wi = w as i32;
    let hi = h as i32;
    let ghost init = hash_scatter((w * h) as int, seed.wrapping_mul(1231412), density);
    let mf = MapFragment::new(wi, hi);
    let mut cur = mf.scramble(density, seed.wrapping_mul(1231412));
    proof {
        assert(cur.walkable@ =~= init);
    }
    let mut it: u32 = 0;
    while it < iters
        invariant
            it <= iters,
            cur.wf(),
            cur.w == wi,
            cur.h == hi,
            cur.walkable@ == gen_ca_iter(w as int, h as int, init, it as nat),
        decreases iters - it,
    {
        cur = cur.ca(1, seed);
        let ghost stepped = cur.walkable@;
        proof {
            let prev = gen_ca_iter(w as int, h as int, init, it as nat);
            assert(ca_iter(w as int, h as int, prev, 0nat) == prev);
            assert(ca_iter(w as int, h as int, prev, 1nat) == ca_step(w as int, h as int, prev));
            assert(stepped == ca_step(w as int, h as int, prev));
        }
        let mut i: i32 = 0;
        while i < wi
            invariant
                cur.wf(),
                cur.w == wi,
                cur.h == hi,
                0 <= i <= wi,
                cur.walkable@.len() == stepped.len(),
                forall|a: int, b: int|
                    #![trigger cur.cell(a, b)]
                    cur.in_bounds(a, b) ==> cur.cell(a, b) == (if a < i && (a == 0 || b == 0 || a
                        == wi - 1 || b == hi - 1) {
                        false
                    } else {
                        stepped[a * hi + b]
                    }),
            decreases wi - i,
        {
            let mut j: i32 = 0;
            while j < hi
                invariant
                    cur.wf(),
                    cur.w == wi,
                    cur.h == hi,
                    0 <= i < wi,
                    0 <= j <= hi,
                    cur.walkable@.len() == stepped.len(),
                    forall|a: int, b: int|
                        #![trigger cur.cell(a, b)]
                        cur.in_bounds(a, b) ==> cur.cell(a, b) == (if (a < i || (a == i && b < j))
                            && (a == 0 || b == 0 || a == wi - 1 || b == hi - 1) {
                            false
                        } else {
                            stepped[a * hi + b]
                        }),
                decreases hi - j,
            {
                if j == 0 || i == 0 || i == wi - 1 || j == hi - 1 {
                    cur.set(i, j, false);
                }
                j = j + 1;
            }
            i = i + 1;
        }
        proof {
            assert forall|k: int| 0 <= k < cur.walkable@.len() implies cur.walkable@[k]
                == seal_border(w as int, h as int, stepped)[k] by {
                let a = k / (hi as int);
                let b = k % (hi as int);
                vstd::arithmetic::div_mod::lemma_fundamental_div_mod(k, hi as int);
                assert(0 <= b < hi);
                assert(k == (hi as int) * a + b);
                assert(k == a * (hi as int) + b) by (nonlinear_arith)
                    requires
                        k == (hi as int) * a + b,
                {};
                assert(0 <= a < wi) by (nonlinear_arith)
                    requires
                        k == a * (hi as int) + b,
                        0 <= k < wi * hi,
                        0 <= b < hi,
                        0 < hi,
                {};
                lemma_cell_in_range(a, b, wi as int, hi as int);
                assert(cur.cell(a, b) == cur.walkable@[k]);
            }
            assert(cur.walkable@ =~= seal_border(w as int, h as int, stepped));
            assert(gen_ca_iter(w as int, h as int, init, (it + 1) as nat) == gen_ca_pass(
                w as int,
                h as int,
                gen_ca_iter(w as int, h as int, init, it as nat),
            ));
        }
        it = it + 1;
    }
    cur.walkable
}

/// Composite cave generator: scatter and shape a cave, pick a walkable
/// cell near the middle, take the farthest reachable cell as the player
/// spawn, and keep only cells within a short distance of the main path
/// that stay reachable from the middle. Returns the spawn and the grid.
#[verifier::loop_isolation(false)]
pub fn gen_ca2(w: i32, h: i32, seed: u32) -> (r: ((i32, i32), MapFragment))
    requires
        10 <= w <= 10_000,
        10 <= h <= 10_000,
        seed + w * h <= u32::MAX,
    ensures
        r.1.wf(),
        r.1.w == w,
        r.1.h == h,
        0 <= r.0.0 < w,
        0 <= r.0.1 < h,
{
    let mut ca = MapFragment::new(w, h).scramble(550, seed).ca(10, seed.wrapping_add(1));

    let mut ppseed = seed.wrapping_add(12534129);
    let mut center: (i32, i32) = (w / 2, h / 2);
    // an unbounded hash search could spin forever on a fully blocked
    // cave; a bounded number of draws keeps the walk total, with the
    // exact middle as the fallback center
    let mut tries: u32 = 0;
    while tries < 100_000
        invariant
            ca.wf(),
            ca.w == w,
            ca.h == h,
            0 <= center.0 < w,
            0 <= center.1 < h,
        decreases 100_000 - tries,
    {
        let rx = (khash(ppseed) % 10) as i32 - 5;
        let ry = (khash(ppseed.wrapping_add(1)) % 10) as i32 - 5;
        let pp = (w / 2 + rx, h / 2 + ry);
        if ca.get(pp.0, pp.1) {
            center = pp;
            break;
        }
        ppseed = ppseed.wrapping_add(2);
        tries = tries + 1;
    }

    let paths1 = ca.paths_from(center.0, center.1);
    let player_spawn = paths1.furthest();

    let paths2 = ca.paths_from(player_spawn.0, player_spawn.1);
    let end = paths2.furthest();

    let hot_path = paths2.path(player_spawn.0, player_spawn.1, end.0, end.1);
    let mut mf_save = MapFragment::new(w, h);
    let mut t: usize = 0;
    while t < hot_path.len()
        invariant
            mf_save.wf(),
            mf_save.w == w,
            mf_save.h == h,
            t <= hot_path@.len(),
            forall|k: int|
                0 <= k < hot_path@.len() ==> paths2.reachable_spec(
                    (#[trigger] hot_path@[k]).0 as int,
                    hot_path@[k].1 as int,
                ),
        decreases hot_path@.len() - t,
    {
        let tile = hot_path[t];
        let paths = ca.paths_from(tile.0, tile.1);
        let ok_tiles = paths.tiles_within_dist(7);
        let mut o: usize = 0;
        while o < ok_tiles.len()
            invariant
                mf_save.wf(),
                mf_save.w == w,
                mf_save.h == h,
                o <= ok_tiles@.len(),
                forall|k: int|
                    0 <= k < ok_tiles@.len() ==> paths.reachable_spec(
                        (#[trigger] ok_tiles@[k]).0 as int,
                        ok_tiles@[k].1 as int,
                    ),
                paths.dims() == (w as int, h as int),
            decreases ok_tiles@.len() - o,
        {
            let ok_tile = ok_tiles[o];
            mf_save.set(ok_tile.0, ok_tile.1, true);
            o = o + 1;
        }
        t = t + 1;
    }

    ca.and_equals(&mf_save, 0, 0);

    let mut i: i32 = 0;
    while i < w
        invariant
            ca.wf(),
            ca.w == w,
            ca.h == h,
            0 <= i <= w,
        decreases w - i,
    {
        let mut j: i32 = 0;
        while j < h
            invariant
                ca.wf(),
                ca.w == w,
                ca.h == h,
                0 <= i < w,
                0 <= j <= h,
            decreases h - j,
        {
            if !paths1.reachable(i, j) {
                ca.set(i, j, false);
            }
            j = j + 1;
        }
        i = i + 1;
    }

    (player_spawn, ca)
}

} // verus!
