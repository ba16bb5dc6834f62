//! Rectangular boolean walkability fragments: the raw material of the
//! seeded map generators, with blitting, pointwise combination, cellular
//! automaton passes, aggregation walks and grid shortest paths.

use vstd::prelude::*;
use vstd::arithmetic::div_mod::lemma_fundamental_div_mod_converse;
use crate::kmath::{khash, khash_spec, imin, imax};

verus! {

/// The flat index of a cell decomposes back into its coordinates.
pub(crate) proof fn lemma_cell_decompose(i: int, j: int, h: int)
    requires
        0 <= j < h,
    ensures
        (i * h + j) / h == i,
        (i * h + j) % h == j,
{
    lemma_fundamental_div_mod_converse(i * h + j, h, i, j);
}

/// Contribution of one cell to a neighbor count: one when it lies in the
/// interior band the automaton inspects (borders excluded on the low
/// sides, as the rule has always done) and is walkable.
pub open spec fn grid_nb(w: int, h: int, s: Seq<bool>, x: int, y: int) -> int {
    if x > 0 && y > 0 && x < w && y < h && s[x * h + y] {
        1
    } else {
        0
    }
}

/// Number of walkable cells among the eight neighbors of `(i, j)`.
pub open spec fn neigh_count(w: int, h: int, s: Seq<bool>, i: int, j: int) -> int {
    grid_nb(w, h, s, i - 1, j - 1) + grid_nb(w, h, s, i - 1, j) + grid_nb(w, h, s, i - 1, j + 1)
        + grid_nb(w, h, s, i, j - 1) + grid_nb(w, h, s, i, j + 1) + grid_nb(w, h, s, i + 1, j - 1)
        + grid_nb(w, h, s, i + 1, j) + grid_nb(w, h, s, i + 1, j + 1)
}

/// The automaton's survival rule: walkable next tick iff one to four
/// neighbors are walkable now.
pub open spec fn ca_rule(w: int, h: int, s: Seq<bool>, i: int, j: int) -> bool {
    1 <= neigh_count(w, h, s, i, j) < 5
}

/// One synchronous pass of the automaton over the whole grid.
pub open spec fn ca_step(w: int, h: int, s: Seq<bool>) -> Seq<bool> {
    Seq::new(s.len(), |k: int| ca_rule(w, h, s, k / h, k % h))
}

/// `n` passes of the automaton.
pub open spec fn ca_iter(w: int, h: int, s: Seq<bool>, n: nat) -> Seq<bool>
    decreases n,
{
    if n == 0 {
        s
    } else {
        ca_step(w, h, ca_iter(w, h, s, (n - 1) as nat))
    }
}

/// The image of one stamping, as a whole grid: the pointwise result that
/// `blit` promises cell by cell.
pub open spec fn blit_seq(
    dw: int,
    dh: int,
    d: Seq<bool>,
    sw: int,
    sh: int,
    s: Seq<bool>,
    x: int,
    y: int,
) -> Seq<bool> {
    Seq::new(
        d.len(),
        |k: int|
            {
                let a = k / dh;
                let b = k % dh;
                if imax(x, 0) <= a < imin(x + sw, dw) && imax(y, 0) <= b < imin(y + sh, dh) {
                    s[imin(a - x, dw - 1) * sh + imin(b - y, dh - 1)]
                } else {
                    d[k]
                }
            },
    )
}

/// The convolution fold after processing `a` full kernel rows and `b`
/// kernel positions of row `a`: wherever the source grid is walkable at
/// the kernel center, the kernel shape has been stamped onto the
/// accumulator.
pub open spec fn conv_upto(
    sw: int,
    sh: int,
    orig: Seq<bool>,
    ow: int,
    oh: int,
    osrc: Seq<bool>,
    a: int,
    b: int,
) -> Seq<bool>
    decreases a, b,
{
    if a <= 0 && b <= 0 {
        orig
    } else if b <= 0 {
        conv_upto(sw, sh, orig, ow, oh, osrc, a - 1, sh)
    } else {
        let pre = conv_upto(sw, sh, orig, ow, oh, osrc, a, b - 1);
        if 0 <= a < sw && 0 <= b - 1 < sh && orig[a * sh + (b - 1)] {
            blit_seq(sw, sh, pre, ow, oh, osrc, a - ow / 2, b - 1 - oh / 2)
        } else {
            pre
        }
    }
}

/// The full convolution image of a grid under a kernel.
pub open spec fn conv_spec(sw: int, sh: int, orig: Seq<bool>, ow: int, oh: int, osrc: Seq<bool>) -> Seq<
    bool,
> {
    conv_upto(sw, sh, orig, ow, oh, osrc, sw, 0)
}

/// A `w` by `h` grid of walkability flags, row-major by x: cell `(x, y)`
/// lives at index `x * h + y`.
#[derive(Debug)]
pub struct MapFragment {
    pub w: i32,
    pub h: i32,
    pub walkable: Vec<bool>,
}

/// Two cells carry the same index exactly when they are the same cell.
pub(crate) proof fn lemma_cell_index(a: int, b: int, i: int, j: int, h: int)
    requires
        0 <= b < h,
        0 <= j < h,
    ensures
        a * h + b == i * h + j <==> (a == i && b == j),
{
    assert(a * h + b == i * h + j <==> (a == i && b == j)) by (nonlinear_arith)
        requires
            0 <= b < h,
            0 <= j < h,
    {};
}

/// The flat index of an in-bounds cell stays inside the grid.
pub(crate) proof fn lemma_cell_in_range(x: int, y: int, w: int, h: int)
    requires
        0 <= x < w,
        0 <= y < h,
        w <= 10_000,
        h <= 10_000,
    ensures
        0 <= x * h + y < w * h,
        x * h + y <= 100_000_000,
{
    assert(0 <= x * h + y < w * h && x * h + y <= 100_000_000) by (nonlinear_arith)
        requires
            0 <= x < w,
            0 <= y < h,
            w <= 10_000,
            h <= 10_000,
    {};
}

impl MapFragment {
    /// The flat array matches the declared dimensions, which stay small
    /// enough for all index arithmetic.
    pub open spec fn wf(&self) -> bool {
        &&& 0 <= self.w <= 10_000
        &&& 0 <= self.h <= 10_000
        &&& self.walkable@.len() == self.w * self.h
    }

    /// The walkability flag of cell `(x, y)`.
    pub open spec fn cell(&self, x: int, y: int) -> bool
        recommends
            0 <= x < self.w,
            0 <= y < self.h,
    {
        self.walkable@[x * self.h + y]
    }

    /// `(x, y)` lies on the grid.
    pub open spec fn in_bounds(&self, x: int, y: int) -> bool {
        0 <= x < self.w && 0 <= y < self.h
    }

    /// A fully blocked fragment.
    pub fn new(w: i32, h: i32) -> (r: MapFragment)
        requires
            0 <= w <= 10_000,
            0 <= h <= 10_000,
        ensures
            r.w == w,
            r.h == h,
            r.wf(),
            forall|x: int, y: int| r.in_bounds(x, y) ==> !r.cell(x, y),
    {
        proof {
            assert(0 <= w * h <= 100_000_000) by (nonlinear_arith)
                requires
                    0 <= w <= 10_000,
                    0 <= h <= 10_000,
            {};
        }
        let n: usize = (w as usize) * (h as usize);
        let mut v: Vec<bool> = Vec::new();
        let mut i: usize = 0;
        while i < n
            invariant
                i <= n,
                n == w * h,
                v@.len() == i,
                forall|k: int| 0 <= k < i ==> !v@[k],
            decreases n - i,
        {
            v.push(false);
            i = i + 1;
        }
        let r = MapFragment { w, h, walkable: v };
        proof {
            assert forall|x: int, y: int| r.in_bounds(x, y) implies !r.cell(x, y) by {
                lemma_cell_in_range(x, y, w as int, h as int);
            }
        }
        r
    }

    /// A fully open fragment.
    pub fn new_open(w: i32, h: i32) -> (r: MapFragment)
        requires
            0 <= w <= 10_000,
            0 <= h <= 10_000,
        ensures
            r.w == w,
            r.h == h,
            r.wf(),
            forall|x: int, y: int| r.in_bounds(x, y) ==> r.cell(x, y),
    {
        proof {
            assert(0 <= w * h <= 100_000_000) by (nonlinear_arith)
                requires
                    0 <= w <= 10_000,
                    0 <= h <= 10_000,
            {};
        }
        let n: usize = (w as usize) * (h as usize);
        let mut v: Vec<bool> = Vec::new();
        let mut i: usize = 0;
        while i < n
            invariant
                i <= n,
                n == w * h,
                v@.len() == i,
                forall|k: int| 0 <= k < i ==> v@[k],
            decreases n - i,
        {
            v.push(true);
            i = i + 1;
        }
        let r = MapFragment { w, h, walkable: v };
        proof {
            assert forall|x: int, y: int| r.in_bounds(x, y) implies r.cell(x, y) by {
                lemma_cell_in_range(x, y, w as int, h as int);
            }
        }
        r
    }

    /// The walkability flag of `(x, y)`, which must lie on the grid.
    pub fn get(&self, x: i32, y: i32) -> (r: bool)
        requires
            self.wf(),
            self.in_bounds(x as int, y as int),
        ensures
            r == self.cell(x as int, y as int),
    {
        proof {
            lemma_cell_in_range(x as int, y as int, self.w as int, self.h as int);
        }
        self.walkable[(x as usize) * (self.h as usize) + (y as usize)]
    }

    /// Overwrites the flag of `(x, y)`, which must lie on the grid.
    pub fn set(&mut self, x: i32, y: i32, value: bool)
        requires
            old(self).wf(),
            old(self).in_bounds(x as int, y as int),
        ensures
            final(self).wf(),
            final(self).w == old(self).w,
            final(self).h == old(self).h,
            final(self).cell(x as int, y as int) == value,
            forall|a: int, b: int|
                final(self).in_bounds(a, b) && !(a == x && b == y) ==> final(self).cell(a, b)
                    == old(self).cell(a, b),
    {
        proof {
            lemma_cell_in_range(x as int, y as int, self.w as int, self.h as int);
        }
        self.walkable.set((x as usize) * (self.h as usize) + (y as usize), value);
        proof {
            assert forall|a: int, b: int|
                self.in_bounds(a, b) && !(a == x as int && b == y as int) implies self.cell(a, b)
                == old(self).cell(a, b) by {
                lemma_cell_in_range(a, b, self.w as int, self.h as int);
                lemma_cell_index(a, b, x as int, y as int, self.h as int);
            }
        }
    }

    /// Stamps `other` onto this fragment with its top-left corner at
    /// `(x, y)`, clipped to this grid; source indices are additionally
    /// clamped to this fragment's dimensions, as the stamping has always
    /// done.
    #[verifier::loop_isolation(false)]
    pub fn blit(&mut self, other: &MapFragment, x: i32, y: i32)
        requires
            old(self).wf(),
            other.wf(),
            -100_000 <= x <= 100_000,
            -100_000 <= y <= 100_000,
        ensures
            final(self).wf(),
            final(self).w == old(self).w,
            final(self).h == old(self).h,
            forall|a: int, b: int|
                #![trigger final(self).cell(a, b)]
                final(self).in_bounds(a, b) ==> final(self).cell(a, b) == (if imax(x as int, 0) <= a
                    < imin(x + other.w, old(self).w as int) && imax(y as int, 0) <= b < imin(
                    y + other.h,
                    old(self).h as int,
                ) {
                    other.cell(imin(a - x, old(self).w - 1), imin(b - y, old(self).h - 1))
                } else {
                    old(self).cell(a, b)
                }),
    {
        let istart = if x > 0 {
            x
        } else {
            0
        };
        let iend = if x + other.w < self.w {
            x + other.w
        } else {
            self.w
        };
        let jstart = if y > 0 {
            y
        } else {
            0
        };
        let jend = if y + other.h < self.h {
            y + other.h
        } else {
            self.h
        };
        let mut i: i32 = istart;
        while i < iend
            invariant
                self.wf(),
                self.w == old(self).w,
                self.h == old(self).h,
                istart <= i <= iend || i == istart,
                forall|a: int, b: int|
                    #![trigger self.cell(a, b)]
                    self.in_bounds(a, b) ==> self.cell(a, b) == (if istart <= a < i && jstart <= b
                        < jend {
                        other.cell(imin(a - x, old(self).w - 1), imin(b - y, old(self).h - 1))
                    } else {
                        old(self).cell(a, b)
                    }),
            decreases iend - i,
        {
            let mut j: i32 = jstart;
            while j < jend
                invariant
                    self.wf(),
                    self.w == old(self).w,
                    self.h == old(self).h,
                    istart <= i < iend,
                    jstart <= j <= jend || j == jstart,
                    forall|a: int, b: int|
                        #![trigger self.cell(a, b)]
                        self.in_bounds(a, b) ==> self.cell(a, b) == (if (istart <= a < i && jstart
                            <= b < jend) || (a == i && jstart <= b < j) {
                            other.cell(imin(a - x, old(self).w - 1), imin(b - y, old(self).h - 1))
                        } else {
                            old(self).cell(a, b)
                        }),
                decreases jend - j,
            {
                let sx = if i - x < self.w - 1 {
                    i - x
                } else {
                    self.w - 1
                };
                let sy = if j - y < self.h - 1 {
                    j - y
                } else {
                    self.h - 1
                };
                let v = other.get(sx, sy);
                self.set(i, j, v);
                j = j + 1;
            }
            i = i + 1;
        }
    }

    /// Rebuilds every cell from the seeded hash: cell index `k` becomes
    /// walkable when `khash(seed + k)`, reduced to a per-mille value, falls
    /// below `density`.
    #[verifier::loop_isolation(false)]
    pub fn scramble(self, density: u32, seed: u32) -> (r: MapFragment)
        requires
            self.wf(),
            seed + self.w * self.h <= u32::MAX,
        ensures
            r.w == self.w,
            r.h == self.h,
            r.wf(),
            forall|k: int|
                0 <= k < r.walkable@.len() ==> r.walkable@[k] == (khash_spec((seed + k) as u32)
                    % 1000 < density),
    {
        let n = self.walkable.len();
        let mut v: Vec<bool> = Vec::new();
        let mut i: usize = 0;
        while i < n
            invariant
                i <= n,
                v@.len() == i,
                forall|k: int|
                    0 <= k < i ==> v@[k] == (khash_spec((seed + k) as u32) % 1000 < density),
            decreases n - i,
        {
            let cell = khash(seed + i as u32) % 1000 < density;
            v.push(cell);
            i = i + 1;
        }
        MapFragment { w: self.w, h: self.h, walkable: v }
    }

    /// Whether one of the four orthogonal neighbors of `(x, y)` lies on
    /// the grid and is walkable.
    pub open spec fn neighbor_walkable(&self, x: int, y: int) -> bool {
        ||| (self.in_bounds(x - 1, y) && self.cell(x - 1, y))
        ||| (self.in_bounds(x + 1, y) && self.cell(x + 1, y))
        ||| (self.in_bounds(x, y - 1) && self.cell(x, y - 1))
        ||| (self.in_bounds(x, y + 1) && self.cell(x, y + 1))
    }

    pub(crate) fn has_walkable_neighbor(&self, x: i32, y: i32) -> (r: bool)
        requires
            self.wf(),
            -20_000 <= x <= 20_000,
            -20_000 <= y <= 20_000,
        ensures
            r == self.neighbor_walkable(x as int, y as int),
    {
        if x - 1 >= 0 && x - 1 < self.w && y >= 0 && y < self.h && self.get(x - 1, y) {
            return true;
        }
        if x + 1 >= 0 && x + 1 < self.w && y >= 0 && y < self.h && self.get(x + 1, y) {
            return true;
        }
        if x >= 0 && x < self.w && y - 1 >= 0 && y - 1 < self.h && self.get(x, y - 1) {
            return true;
        }
        if x >= 0 && x < self.w && y + 1 >= 0 && y + 1 < self.h && self.get(x, y + 1) {
            return true;
        }
        false
    }

    /// Grows an aggregate from the center cell: each iteration drops a
    /// hashed walker onto the grid and slides it along a fixed direction
    /// until it leaves the grid or sticks to a cell adjacent to the
    /// aggregate. Cells only ever turn walkable.
    #[verifier::loop_isolation(false)]
    pub fn dla(self, iters: u32, seed: u32) -> (r: MapFragment)
        requires
            self.wf(),
            1 <= self.w,
            1 <= self.h,
        ensures
            r.w == self.w,
            r.h == self.h,
            r.wf(),
            r.cell(self.w as int / 2, self.h as int / 2),
            forall|a: int, b: int|
                #![trigger r.cell(a, b)]
                r.in_bounds(a, b) && self.cell(a, b) ==> r.cell(a, b),
    {
        let mut this = self;
        let w = this.w;
        let h = this.h;
        this.set(w / 2, h / 2, true);
        let mut s = seed;
        let mut it: u32 = 0;
        while it < iters
            invariant
                this.wf(),
                this.w == w,
                this.h == h,
                this.cell(w as int / 2, h as int / 2),
                forall|a: int, b: int|
                    #![trigger this.cell(a, b)]
                    this.in_bounds(a, b) && self.cell(a, b) ==> this.cell(a, b),
            decreases iters - it,
        {
            let mut px = (khash(s) % (w as u32)) as i32;
            let mut py = (khash(s.wrapping_add(1)) % (h as u32)) as i32;
            let dir = khash(s.wrapping_add(2)) % 4;
            let dx: i32 = if dir == 0 {
                -1
            } else if dir == 1 {
                1
            } else {
                0
            };
            let dy: i32 = if dir == 0 || dir == 1 {
                0
            } else if dir == 2 {
                -1
            } else {
                1
            };
            loop
                invariant
                    this.wf(),
                    this.w == w,
                    this.h == h,
                    this.cell(w as int / 2, h as int / 2),
                    forall|a: int, b: int|
                        #![trigger this.cell(a, b)]
                        this.in_bounds(a, b) && self.cell(a, b) ==> this.cell(a, b),
                    (dx == -1 && dy == 0) || (dx == 1 && dy == 0) || (dx == 0 && dy == -1) || (dx
                        == 0 && dy == 1),
                    -1 <= px <= w,
                    -1 <= py <= h,
                decreases (if dx < 0 {
                    px + 1
                } else if dx > 0 {
                    w - px
                } else if dy < 0 {
                    py + 1
                } else {
                    h - py
                }),
            {
                if px < 0 || py < 0 || px >= w || py >= h {
                    break;
                }
                if this.has_walkable_neighbor(px, py) {
                    this.set(px, py, true);
                    break;
                }
                px = px + dx;
                py = py + dy;
            }
            s = khash(s.wrapping_add(2305982305));
            it = it + 1;
        }
        this
    }

    /// Reserved rim-seeded variant of the aggregation walk; the fragment
    /// passes through unchanged.
    pub fn dla_rim(self, iters: u32, seed: u32) -> (r: MapFragment)
        ensures
            r == self,
    {
        self
    }

    /// An identical fragment with its own storage.
    fn copy_of(&self) -> (r: MapFragment)
        ensures
            r.w == self.w,
            r.h == self.h,
            r.walkable@ == self.walkable@,
    {
        let n = self.walkable.len();
        let mut v: Vec<bool> = Vec::new();
        let mut i: usize = 0;
        while i < n
            invariant
                i <= n,
                n == self.walkable@.len(),
                v@.len() == i,
                forall|k: int| 0 <= k < i ==> v@[k] == self.walkable@[k],
            decreases n - i,
        {
            v.push(self.walkable[i]);
            i = i + 1;
        }
        proof {
            assert(v@ =~= self.walkable@);
        }
        MapFragment { w: self.w, h: self.h, walkable: v }
    }

    /// Number of walkable cells among the eight neighbors of `(i, j)`.
    fn count_neighbors(&self, i: i32, j: i32) -> (r: u32)
        requires
            self.wf(),
            0 <= i < self.w,
            0 <= j < self.h,
        ensures
            r as int == neigh_count(self.w as int, self.h as int, self.walkable@, i as int, j as int),
            r <= 8,
    {
        let mut c: u32 = 0;
        if i - 1 > 0 && j - 1 > 0 && i - 1 < self.w && j - 1 < self.h && self.get(i - 1, j - 1) {
            c = c + 1;
        }
        if i - 1 > 0 && j > 0 && i - 1 < self.w && j < self.h && self.get(i - 1, j) {
            c = c + 1;
        }
        if i - 1 > 0 && j + 1 > 0 && i - 1 < self.w && j + 1 < self.h && self.get(i - 1, j + 1) {
            c = c + 1;
        }
        if i > 0 && j - 1 > 0 && i < self.w && j - 1 < self.h && self.get(i, j - 1) {
            c = c + 1;
        }
        if i > 0 && j + 1 > 0 && i < self.w && j + 1 < self.h && self.get(i, j + 1) {
            c = c + 1;
        }
        if i + 1 > 0 && j - 1 > 0 && i + 1 < self.w && j - 1 < self.h && self.get(i + 1, j - 1) {
            c = c + 1;
        }
        if i + 1 > 0 && j > 0 && i + 1 < self.w && j < self.h && self.get(i + 1, j) {
            c = c + 1;
        }
        if i + 1 > 0 && j + 1 > 0 && i + 1 < self.w && j + 1 < self.h && self.get(i + 1, j + 1) {
            c = c + 1;
        }
        c
    }

    /// Runs `iters` synchronous passes of the survival-rule automaton over
    /// the grid.
    #[verifier::loop_isolation(false)]
    pub fn ca(self, iters: u32, seed: u32) -> (r: MapFragment)
        requires
            self.wf(),
        ensures
            r.w == self.w,
            r.h == self.h,
            r.wf(),
            r.walkable@ == ca_iter(self.w as int, self.h as int, self.walkable@, iters as nat),
    {
        let w = self.w;
        let h = self.h;
        let ghost orig = self.walkable@;
        let mut cur = self;
        let mut n: u32 = 0;
        while n < iters
            invariant
                n <= iters,
                cur.wf(),
                cur.w == w,
                cur.h == h,
                cur.walkable@ == ca_iter(w as int, h as int, orig, n as nat),
            decreases iters - n,
        {
            let ghost prev = cur.walkable@;
            let mut pong: Vec<bool> = Vec::new();
            let mut i: i32 = 0;
            while i < w
                invariant
                    cur.wf(),
                    cur.w == w,
                    cur.h == h,
                    cur.walkable@ == prev,
                    0 <= i <= w,
                    pong@.len() == i * h,
                    forall|k: int| 0 <= k < i * h ==> pong@[k] == ca_step(w as int, h as int, prev)[k],
                decreases w - i,
            {
                let mut j: i32 = 0;
                while j < h
                    invariant
                        cur.wf(),
                        cur.w == w,
                        cur.h == h,
                        cur.walkable@ == prev,
                        0 <= i < w,
                        0 <= j <= h,
                        pong@.len() == i * h + j,
                        forall|k: int|
                            0 <= k < i * h + j ==> pong@[k] == ca_step(w as int, h as int, prev)[k],
                    decreases h - j,
                {
                    let c = cur.count_neighbors(i, j);
                    pong.push(c >= 1 && c < 5);
                    proof {
                        lemma_cell_decompose(i as int, j as int, h as int);
                        lemma_cell_in_range(i as int, j as int, w as int, h as int);
                        assert(ca_step(w as int, h as int, prev)[i * h + j] == ca_rule(
                            w as int,
                            h as int,
                            prev,
                            i as int,
                            j as int,
                        ));
                    }
                    j = j + 1;
                }
                i = i + 1;
                proof {
                    assert(i * h == (i - 1) * h + h) by (nonlinear_arith);
                }
            }
            proof {
                assert(pong@ =~= ca_step(w as int, h as int, prev));
            }
            cur = MapFragment { w, h, walkable: pong };
            n = n + 1;
        }
        cur
    }

    /// Stamps the kernel `other` onto a copy of this fragment at every
    /// position whose kernel center is walkable here, sweeping the grid in
    /// row-major order.
    #[verifier::loop_isolation(false)]
    pub fn conv(self, other: &MapFragment) -> (r: MapFragment)
        requires
            self.wf(),
            other.wf(),
        ensures
            r.w == self.w,
            r.h == self.h,
            r.wf(),
            r.walkable@ == conv_spec(
                self.w as int,
                self.h as int,
                self.walkable@,
                other.w as int,
                other.h as int,
                other.walkable@,
            ),
    {
        let w = self.w;
        let h = self.h;
        let ghost orig = self.walkable@;
        let ghost osrc = other.walkable@;
        let mut pong = self.copy_of();

        let conv_xmin = -(other.w / 2);
        let conv_ymin = -(other.h / 2);

        let mut i: i32 = conv_xmin;
        while i < w - other.w / 2
            invariant
                pong.wf(),
                pong.w == w,
                pong.h == h,
                conv_xmin <= i <= w - other.w / 2,
                pong.walkable@ == conv_upto(
                    w as int,
                    h as int,
                    orig,
                    other.w as int,
                    other.h as int,
                    osrc,
                    i + other.w / 2,
                    0,
                ),
            decreases w - other.w / 2 - i,
        {
            let mut j: i32 = conv_ymin;
            while j < h - other.h / 2
                invariant
                    pong.wf(),
                    pong.w == w,
                    pong.h == h,
                    conv_xmin <= i < w - other.w / 2,
                    conv_ymin <= j <= h - other.h / 2,
                    pong.walkable@ == conv_upto(
                        w as int,
                        h as int,
                        orig,
                        other.w as int,
                        other.h as int,
                        osrc,
                        i + other.w / 2,
                        j + other.h / 2,
                    ),
                decreases h - other.h / 2 - j,
            {
                let ghost row = i + other.w as int / 2;
                let ghost col = j + other.h as int / 2;
                let ghost pre = pong.walkable@;
                let kernel_center_x = i + other.w / 2;
                let kernel_center_y = j + other.h / 2;
                if self.get(kernel_center_x, kernel_center_y) {
                    pong.blit(other, i, j);
                    proof {
                        lemma_cell_in_range(
                            kernel_center_x as int,
                            kernel_center_y as int,
                            w as int,
                            h as int,
                        );
                        assert forall|k: int| 0 <= k < pong.walkable@.len() implies pong.walkable@[k]
                            == blit_seq(
                            w as int,
                            h as int,
                            pre,
                            other.w as int,
                            other.h as int,
                            osrc,
                            i as int,
                            j as int,
                        )[k] by {
                            let a = k / (h as int);
                            let b = k % (h as int);
                            vstd::arithmetic::div_mod::lemma_fundamental_div_mod(k, h as int);
                            assert(0 <= b < h);
                            assert(k == (h as int) * a + b);
                            assert(k == a * (h as int) + b) by (nonlinear_arith)
                                requires
                                    k == (h as int) * a + b,
                            {};
                            assert(0 <= a < w) by (nonlinear_arith)
                                requires
                                    k == a * (h as int) + b,
                                    0 <= k < w * h,
                                    0 <= b < h,
                                    0 < h,
                            {};
                            lemma_cell_in_range(a, b, w as int, h as int);
                            assert(pong.cell(a, b) == blit_seq(
                                w as int,
                                h as int,
                                pre,
                                other.w as int,
                                other.h as int,
                                osrc,
                                i as int,
                                j as int,
                            )[k]) by {
                                if imax(i as int, 0) <= a < imin(i + other.w, w as int) && imax(
                                    j as int,
                                    0,
                                ) <= b < imin(j + other.h, h as int) {
                                    lemma_cell_in_range(
                                        imin(a - i, w as int - 1),
                                        imin(b - j, h as int - 1),
                                        other.w as int,
                                        other.h as int,
                                    );
                                }
                            };
                        }
                        assert(pong.walkable@ =~= blit_seq(
                            w as int,
                            h as int,
                            pre,
                            other.w as int,
                            other.h as int,
                            osrc,
                            i as int,
                            j as int,
                        ));
                        assert(conv_upto(
                            w as int,
                            h as int,
                            orig,
                            other.w as int,
                            other.h as int,
                            osrc,
                            row,
                            col + 1,
                        ) == pong.walkable@);
                    }
                } else {
                    proof {
                        lemma_cell_in_range(
                            kernel_center_x as int,
                            kernel_center_y as int,
                            w as int,
                            h as int,
                        );
                        assert(conv_upto(
                            w as int,
                            h as int,
                            orig,
                            other.w as int,
                            other.h as int,
                            osrc,
                            row,
                            col + 1,
                        ) == pre);
                    }
                }
                j = j + 1;
            }
            i = i + 1;
            proof {
                assert(conv_upto(
                    w as int,
                    h as int,
                    orig,
                    other.w as int,
                    other.h as int,
                    osrc,
                    i + other.w as int / 2,
                    0,
                ) == conv_upto(
                    w as int,
                    h as int,
                    orig,
                    other.w as int,
                    other.h as int,
                    osrc,
                    i - 1 + other.w as int / 2,
                    h as int,
                ));
            }
        }
        pong
    }

    /// Intersects this fragment cell by cell with `other` placed at the
    /// offset `(x, y)`; only a congruent placement at the origin keeps
    /// every access on both grids.
    #[verifier::loop_isolation(false)]
    pub fn and_equals(&mut self, other: &MapFragment, x: i32, y: i32)
        requires
            old(self).wf(),
            other.wf(),
            x == 0,
            y == 0,
            other.w == old(self).w,
            other.h == old(self).h,
        ensures
            final(self).wf(),
            final(self).w == old(self).w,
            final(self).h == old(self).h,
            forall|a: int, b: int|
                final(self).in_bounds(a, b) ==> final(self).cell(a, b) == (old(self).cell(a, b)
                    && other.cell(a, b)),
    {
        let w = self.w;
        let h = self.h;
        let mut i: i32 = 0;
        while i < w
            invariant
                self.wf(),
                self.w == w,
                self.h == h,
                other.wf(),
                other.w == w,
                other.h == h,
                0 <= i <= w,
                forall|a: int, b: int|
                    #![trigger self.cell(a, b)]
                    self.in_bounds(a, b) && a < i ==> self.cell(a, b) == (old(self).cell(a, b)
                        && other.cell(a, b)),
                forall|a: int, b: int|
                    #![trigger self.cell(a, b)]
                    self.in_bounds(a, b) && a >= i ==> self.cell(a, b) == old(self).cell(a, b),
            decreases w - i,
        {
            let mut j: i32 = 0;
            while j < h
                invariant
                    self.wf(),
                    self.w == w,
                    self.h == h,
                    other.wf(),
                    other.w == w,
                    other.h == h,
                    0 <= i < w,
                    0 <= j <= h,
                    forall|a: int, b: int|
                        #![trigger self.cell(a, b)]
                        self.in_bounds(a, b) && (a < i || (a == i && b < j)) ==> self.cell(a, b)
                            == (old(self).cell(a, b) && other.cell(a, b)),
                    forall|a: int, b: int|
                        #![trigger self.cell(a, b)]
                        self.in_bounds(a, b) && (a > i || (a == i && b >= j)) ==> self.cell(a, b)
                            == old(self).cell(a, b),
                decreases h - j,
            {
                let v = self.get(i, j) && other.get(i - x, j - y);
                self.set(i, j, v);
                j = j + 1;
            }
            i = i + 1;
        }
    }

    /// Consumes the fragment, computing the pointwise union and then
    /// discarding it — the result never becomes observable.
    #[verifier::loop_isolation(false)]
    pub fn or_equals(self, other: &MapFragment, x: i32, y: i32)
        requires
            self.wf(),
            other.wf(),
            x == 0,
            y == 0,
            other.w == self.w,
            other.h == self.h,
    {
        let mut this = self;
        let w = this.w;
        let h = this.h;
        let mut i: i32 = 0;
        while i < w
            invariant
                this.wf(),
                this.w == w,
                this.h == h,
                other.wf(),
                other.w == w,
                other.h == h,
                0 <= i <= w,
            decreases w - i,
        {
            let mut j: i32 = 0;
            while j < h
                invariant
                    this.wf(),
                    this.w == w,
                    this.h == h,
                    other.wf(),
                    other.w == w,
                    other.h == h,
                    0 <= i < w,
                    0 <= j <= h,
                decreases h - j,
            {
                let v = this.get(i, j) || other.get(i - x, j - y);
                this.set(i, j, v);
                j = j + 1;
            }
            i = i + 1;
        }
    }
}

/// The path-table entry stored for cell `(x, y)`: its predecessor on the
/// discovered path and its own distance from the root.
pub open spec fn pentry(h: int, p: Seq<Option<(i32, i32, u32)>>, x: int, y: int) -> Option<
    (i32, i32, u32),
> {
    p[x * h + y]
}

/// Every discovered cell other than the root points at a discovered
/// predecessor whose distance is exactly one less.
pub open spec fn plinked(
    w: int,
    h: int,
    p: Seq<Option<(i32, i32, u32)>>,
    rx: int,
    ry: int,
) -> bool {
    forall|a: int, b: int|
        #![trigger pentry(h, p, a, b)]
        0 <= a < w && 0 <= b < h && pentry(h, p, a, b) is Some && !(a == rx && b == ry)
            ==> match pentry(h, p, a, b) {
            Some(e) => {
                &&& 0 <= e.0 < w
                &&& 0 <= e.1 < h
                &&& e.2 >= 1
                &&& match pentry(h, p, e.0 as int, e.1 as int) {
                    Some(pe) => pe.2 == e.2 - 1,
                    None => false,
                }
            },
            None => false,
        }
}

/// Number of discovered entries in a path table.
pub open spec fn count_some(p: Seq<Option<(i32, i32, u32)>>) -> int
    decreases p.len(),
{
    if p.len() == 0 {
        0
    } else {
        count_some(p.drop_last()) + (if p.last() is Some {
            1int
        } else {
            0int
        })
    }
}

proof fn lemma_count_some_bounds(p: Seq<Option<(i32, i32, u32)>>)
    ensures
        0 <= count_some(p) <= p.len(),
    decreases p.len(),
{
    if p.len() > 0 {
        lemma_count_some_bounds(p.drop_last());
    }
}

proof fn lemma_count_some_none(p: Seq<Option<(i32, i32, u32)>>)
    requires
        forall|k: int| 0 <= k < p.len() ==> (#[trigger] p[k]) is None,
    ensures
        count_some(p) == 0,
    decreases p.len(),
{
    if p.len() > 0 {
        assert forall|k: int| 0 <= k < p.drop_last().len() implies (#[trigger] p.drop_last()[k])
            is None by {
            assert(p.drop_last()[k] == p[k]);
        }
        lemma_count_some_none(p.drop_last());
        assert(p.last() == p[p.len() - 1]);
    }
}

proof fn lemma_count_some_update(p: Seq<Option<(i32, i32, u32)>>, i: int, v: (i32, i32, u32))
    requires
        0 <= i < p.len(),
        p[i] is None,
    ensures
        count_some(p.update(i, Some(v))) == count_some(p) + 1,
    decreases p.len(),
{
    let q = p.update(i, Some(v));
    if i == p.len() - 1 {
        assert(q.drop_last() =~= p.drop_last());
        assert(q.last() == Some(v));
        assert(p.last() is None);
    } else {
        assert(q.drop_last() =~= p.drop_last().update(i, Some(v)));
        assert(q.last() == p.last());
        lemma_count_some_update(p.drop_last(), i, v);
    }
}

/// All shortest paths of a fragment from one root cell, stored densely:
/// for each discovered cell its predecessor and its distance.
pub struct MapPaths {
    w: i32,
    h: i32,
    root_x: i32,
    root_y: i32,
    prev: Vec<Option<(i32, i32, u32)>>,
}

impl MapPaths {
    /// Width and height of the grid the table covers.
    pub closed spec fn dims(&self) -> (int, int) {
        (self.w as int, self.h as int)
    }

    pub open spec fn in_bounds(&self, x: int, y: int) -> bool {
        0 <= x < self.dims().0 && 0 <= y < self.dims().1
    }

    /// The stored entry of `(x, y)`.
    pub closed spec fn entry(&self, x: int, y: int) -> Option<(i32, i32, u32)>
        recommends
            self.in_bounds(x, y),
    {
        pentry(self.h as int, self.prev@, x, y)
    }

    /// `(x, y)` was discovered by the search.
    pub open spec fn reachable_spec(&self, x: int, y: int) -> bool {
        self.in_bounds(x, y) && self.entry(x, y) is Some
    }

    /// Stored distance of a discovered cell.
    pub open spec fn dist_spec(&self, x: int, y: int) -> int
        recommends
            self.reachable_spec(x, y),
    {
        match self.entry(x, y) {
            Some(e) => e.2 as int,
            None => 0,
        }
    }

    /// The root cell of the table.
    pub closed spec fn root_spec(&self) -> (int, int) {
        (self.root_x as int, self.root_y as int)
    }

    /// The table covers its grid, the root is discovered at distance
    /// zero, and every discovered cell links back toward the root.
    pub closed spec fn wf(&self) -> bool {
        &&& 0 < self.w <= 10_000
        &&& 0 < self.h <= 10_000
        &&& self.prev@.len() == self.w * self.h
        &&& self.in_bounds(self.root_x as int, self.root_y as int)
        &&& self.entry(self.root_x as int, self.root_y as int) == Some(
            (self.root_x, self.root_y, 0u32),
        )
        &&& plinked(self.w as int, self.h as int, self.prev@, self.root_x as int, self.root_y as int)
    }

    /// Whether the search discovered `(x, y)`.
    pub fn reachable(&self, x: i32, y: i32) -> (r: bool)
        requires
            self.wf(),
        ensures
            r == self.reachable_spec(x as int, y as int),
    {
        if x >= 0 && x < self.w && y >= 0 && y < self.h {
            proof {
                lemma_cell_in_range(x as int, y as int, self.w as int, self.h as int);
            }
            self.prev[(x as usize) * (self.h as usize) + (y as usize)].is_some()
        } else {
            false
        }
    }

    /// Distance of a discovered cell from the root.
    pub fn dist(&self, x: i32, y: i32) -> (r: u32)
        requires
            self.wf(),
            self.reachable_spec(x as int, y as int),
        ensures
            r as int == self.dist_spec(x as int, y as int),
    {
        proof {
            lemma_cell_in_range(x as int, y as int, self.w as int, self.h as int);
        }
        match self.prev[(x as usize) * (self.h as usize) + (y as usize)] {
            Some(t) => t.2,
            None => {
                proof {
                    assert(false);
                }
                0
            },
        }
    }

    /// A discovered cell of maximal stored distance.
    #[verifier::loop_isolation(false)]
    pub fn furthest(&self) -> (r: (i32, i32))
        requires
            self.wf(),
        ensures
            self.reachable_spec(r.0 as int, r.1 as int),
            forall|a: int, b: int|
                self.reachable_spec(a, b) ==> self.dist_spec(a, b) <= self.dist_spec(
                    r.0 as int,
                    r.1 as int,
                ),
    {
        let mut bx = self.root_x;
        let mut by = self.root_y;
        let mut bd: u32 = 0;
        let mut a: i32 = 0;
        while a < self.w
            invariant
                0 <= a <= self.w,
                self.reachable_spec(bx as int, by as int),
                bd as int == self.dist_spec(bx as int, by as int),
                forall|p: int, q: int|
                    self.reachable_spec(p, q) && p < a ==> self.dist_spec(p, q) <= bd,
            decreases self.w - a,
        {
            let mut b: i32 = 0;
            while b < self.h
                invariant
                    0 <= a < self.w,
                    0 <= b <= self.h,
                    self.reachable_spec(bx as int, by as int),
                    bd as int == self.dist_spec(bx as int, by as int),
                    forall|p: int, q: int|
                        self.reachable_spec(p, q) && (p < a || (p == a && q < b)) ==> self.dist_spec(
                            p,
                            q,
                        ) <= bd,
                decreases self.h - b,
            {
                proof {
                    lemma_cell_in_range(a as int, b as int, self.w as int, self.h as int);
                }
                match self.prev[(a as usize) * (self.h as usize) + (b as usize)] {
                    Some(t) => {
                        if t.2 > bd {
                            bx = a;
                            by = b;
                            bd = t.2;
                        }
                    },
                    None => {},
                }
                b = b + 1;
            }
            a = a + 1;
        }
        (bx, by)
    }

    /// The discovered predecessor chain from just below `(x2, y2)` back
    /// to the root `(x1, y1)`, returned in root-to-target order; every
    /// returned cell was discovered by the search.
    #[verifier::loop_isolation(false)]
    pub fn path(&self, x1: i32, y1: i32, x2: i32, y2: i32) -> (r: Vec<(i32, i32)>)
        requires
            self.wf(),
            (x1 as int, y1 as int) == self.root_spec(),
            self.reachable_spec(x2 as int, y2 as int),
        ensures
            forall|k: int|
                0 <= k < r@.len() ==> self.reachable_spec(
                    (#[trigger] r@[k]).0 as int,
                    r@[k].1 as int,
                ),
    {
        let mut v: Vec<(i32, i32)> = Vec::new();
        let mut px = x2;
        let mut py = y2;
        while !(px == x1 && py == y1)
            invariant
                self.reachable_spec(px as int, py as int),
                forall|k: int|
                    0 <= k < v@.len() ==> self.reachable_spec(
                        (#[trigger] v@[k]).0 as int,
                        v@[k].1 as int,
                    ),
            decreases self.dist_spec(px as int, py as int),
        {
            proof {
                lemma_cell_in_range(px as int, py as int, self.w as int, self.h as int);
            }
            match self.prev[(px as usize) * (self.h as usize) + (py as usize)] {
                Some(t) => {
                    v.push((t.0, t.1));
                    px = t.0;
                    py = t.1;
                },
                None => {
                    proof {
                        assert(false);
                    }
                },
            }
        }
        let mut out: Vec<(i32, i32)> = Vec::new();
        let mut k = v.len();
        while k > 0
            invariant
                k <= v@.len(),
                forall|q: int|
                    0 <= q < v@.len() ==> self.reachable_spec(
                        (#[trigger] v@[q]).0 as int,
                        v@[q].1 as int,
                    ),
                forall|q: int|
                    0 <= q < out@.len() ==> self.reachable_spec(
                        (#[trigger] out@[q]).0 as int,
                        out@[q].1 as int,
                    ),
            decreases k,
        {
            k = k - 1;
            out.push(v[k]);
        }
        out
    }

    /// All discovered cells whose stored distance lies strictly below the
    /// bound, in row-major order.
    #[verifier::loop_isolation(false)]
    pub fn tiles_within_dist(&self, dist: u32) -> (r: Vec<(i32, i32)>)
        requires
            self.wf(),
        ensures
            forall|k: int|
                0 <= k < r@.len() ==> self.reachable_spec(
                    (#[trigger] r@[k]).0 as int,
                    r@[k].1 as int,
                ) && self.dist_spec(r@[k].0 as int, r@[k].1 as int) < dist,
            forall|a: i32, b: i32|
                self.reachable_spec(a as int, b as int) && self.dist_spec(a as int, b as int)
                    < dist ==> r@.contains((a, b)),
    {
        let mut v: Vec<(i32, i32)> = Vec::new();
        let mut a: i32 = 0;
        while a < self.w
            invariant
                0 <= a <= self.w,
                forall|k: int|
                    0 <= k < v@.len() ==> self.reachable_spec(
                        (#[trigger] v@[k]).0 as int,
                        v@[k].1 as int,
                    ) && self.dist_spec(v@[k].0 as int, v@[k].1 as int) < dist,
                forall|p: i32, q: i32|
                    self.reachable_spec(p as int, q as int) && self.dist_spec(p as int, q as int)
                        < dist && p < a ==> v@.contains((p, q)),
            decreases self.w - a,
        {
            let mut b: i32 = 0;
            while b < self.h
                invariant
                    0 <= a < self.w,
                    0 <= b <= self.h,
                    forall|k: int|
                        0 <= k < v@.len() ==> self.reachable_spec(
                            (#[trigger] v@[k]).0 as int,
                            v@[k].1 as int,
                        ) && self.dist_spec(v@[k].0 as int, v@[k].1 as int) < dist,
                    forall|p: i32, q: i32|
                        self.reachable_spec(p as int, q as int) && self.dist_spec(
                            p as int,
                            q as int,
                        ) < dist && (p < a || (p == a && q < b)) ==> v@.contains((p, q)),
                decreases self.h - b,
            {
                proof {
                    lemma_cell_in_range(a as int, b as int, self.w as int, self.h as int);
                }
                let ghost pre = v@;
                let mut pushed = false;
                match self.prev[(a as usize) * (self.h as usize) + (b as usize)] {
                    Some(t) => {
                        if t.2 < dist {
                            v.push((a, b));
                            pushed = true;
                        }
                    },
                    None => {},
                }
                proof {
                    if pushed {
                        assert(v@ == pre.push((a, b)));
                        assert(v@[v@.len() - 1] == (a, b));
                        assert forall|p: i32, q: i32| pre.contains((p, q)) implies v@.contains(
                            (p, q),
                        ) by {
                            let idx = choose|idx: int| 0 <= idx < pre.len() && pre[idx] == (p, q);
                            assert(v@[idx] == (p, q));
                        }
                        assert(v@.contains((a, b)));
                    }
                }
                b = b + 1;
            }
            a = a + 1;
        }
        v
    }
}

impl MapFragment {
    /// Breadth-first shortest paths over walkable cells from `(x, y)`;
    /// neighbors on the low border rows are never entered, matching the
    /// neighbor rule of the other grid passes.
    #[verifier::loop_isolation(false)]
    #[verifier::rlimit(60)]
    pub fn paths_from(&self, x: i32, y: i32) -> (r: MapPaths)
        requires
            self.wf(),
            self.in_bounds(x as int, y as int),
        ensures
            r.wf(),
            r.dims() == (self.w as int, self.h as int),
            r.root_spec() == (x as int, y as int),
            r.reachable_spec(x as int, y as int),
            forall|a: int, b: int|
                #![trigger r.entry(a, b)]
                r.in_bounds(a, b) && r.entry(a, b) is Some && !(a == x && b == y) ==> self.cell(
                    a,
                    b,
                ),
    {
        let w = self.w;
        let h = self.h;
        proof {
            assert(0 <= w * h <= 100_000_000) by (nonlinear_arith)
                requires
                    0 <= w <= 10_000,
                    0 <= h <= 10_000,
            {};
        }
        let n: usize = (w as usize) * (h as usize);
        let mut prev: Vec<Option<(i32, i32, u32)>> = Vec::new();
        let mut i: usize = 0;
        while i < n
            invariant
                i <= n,
                prev@.len() == i,
                forall|k: int| 0 <= k < i ==> (#[trigger] prev@[k]) is None,
            decreases n - i,
        {
            prev.push(None);
            i = i + 1;
        }
        proof {
            lemma_cell_in_range(x as int, y as int, w as int, h as int);
            lemma_count_some_update(prev@, x as int * (h as int) + y as int, (x, y, 0u32));
            assert(count_some(prev@) == 0) by {
                lemma_count_some_none(prev@);
            };
        }
        prev.set((x as usize) * (h as usize) + (y as usize), Some((x, y, 0)));
        let mut queue: Vec<(i32, i32)> = Vec::new();
        queue.push((x, y));
        let mut head: usize = 0;
        proof {
            assert forall|a: int, b: int|
                #![trigger pentry(h as int, prev@, a, b)]
                0 <= a < w && 0 <= b < h && pentry(h as int, prev@, a, b) is Some implies (a
                == x as int && b == y as int) by {
                lemma_cell_in_range(a, b, w as int, h as int);
                lemma_cell_index(a, b, x as int, y as int, h as int);
            }
        }
        while head < queue.len()
            invariant
                self.wf(),
                self.w == w,
                self.h == h,
                0 < w,
                0 < h,
                prev@.len() == w * h,
                pentry(h as int, prev@, x as int, y as int) == Some((x, y, 0u32)),
                plinked(w as int, h as int, prev@, x as int, y as int),
                forall|a: int, b: int|
                    #![trigger pentry(h as int, prev@, a, b)]
                    0 <= a < w && 0 <= b < h && pentry(h as int, prev@, a, b) is Some && !(a
                        == x as int && b == y as int) ==> self.cell(a, b),
                forall|a: int, b: int|
                    #![trigger pentry(h as int, prev@, a, b)]
                    0 <= a < w && 0 <= b < h && pentry(h as int, prev@, a, b) is Some
                        ==> match pentry(h as int, prev@, a, b) {
                        Some(e) => e.2 < count_some(prev@),
                        None => false,
                    },
                head <= queue.len(),
                forall|qi: int|
                    0 <= qi < queue@.len() ==> {
                        let c = #[trigger] queue@[qi];
                        &&& 0 <= c.0 < w
                        &&& 0 <= c.1 < h
                        &&& pentry(h as int, prev@, c.0 as int, c.1 as int) is Some
                    },
                count_some(prev@) <= w * h,
            decreases 4 * (w * h - count_some(prev@)) + queue@.len() - head,
        {
            let ghost m0 = 4 * (w * h - count_some(prev@)) + queue@.len() - head;
            let (cx, cy) = queue[head];
            head = head + 1;
            proof {
                lemma_cell_in_range(cx as int, cy as int, w as int, h as int);
            }
            let d: u32;
            match prev[(cx as usize) * (h as usize) + (cy as usize)] {
                Some(t) => {
                    d = t.2;
                },
                None => {
                    proof {
                        assert(false);
                    }
                    d = 0;
                },
            }
            proof {
                lemma_count_some_bounds(prev@);
                assert(d < count_some(prev@));
            }
            let mut dir: u32 = 0;
            while dir < 4
                invariant
                    self.wf(),
                    self.w == w,
                    self.h == h,
                    0 < w,
                    0 < h,
                    dir <= 4,
                    0 <= cx < w,
                    0 <= cy < h,
                    prev@.len() == w * h,
                    pentry(h as int, prev@, x as int, y as int) == Some((x, y, 0u32)),
                    pentry(h as int, prev@, cx as int, cy as int) is Some,
                    match pentry(h as int, prev@, cx as int, cy as int) {
                        Some(e) => e.2 == d,
                        None => false,
                    },
                    plinked(w as int, h as int, prev@, x as int, y as int),
                    forall|a: int, b: int|
                        #![trigger pentry(h as int, prev@, a, b)]
                        0 <= a < w && 0 <= b < h && pentry(h as int, prev@, a, b) is Some && !(a
                            == x as int && b == y as int) ==> self.cell(a, b),
                    forall|a: int, b: int|
                        #![trigger pentry(h as int, prev@, a, b)]
                        0 <= a < w && 0 <= b < h && pentry(h as int, prev@, a, b) is Some
                            ==> match pentry(h as int, prev@, a, b) {
                            Some(e) => e.2 < count_some(prev@),
                            None => false,
                        },
                    head <= queue.len(),
                    forall|qi: int|
                        0 <= qi < queue@.len() ==> {
                            let c = #[trigger] queue@[qi];
                            &&& 0 <= c.0 < w
                            &&& 0 <= c.1 < h
                            &&& pentry(h as int, prev@, c.0 as int, c.1 as int) is Some
                        },
                    count_some(prev@) <= w * h,
                    4 * (w * h - count_some(prev@)) + queue@.len() - head <= m0 - 1,
                decreases 4 - dir,
            {
                let (dx, dy): (i32, i32) = match dir {
                    0 => (-1, 0),
                    1 => (0, -1),
                    2 => (0, 1),
                    _ => (1, 0),
                };
                let nx = cx + dx;
                let ny = cy + dy;
                if nx > 0 && nx < w && ny > 0 && ny < h && self.get(nx, ny) {
                    proof {
                        lemma_cell_in_range(nx as int, ny as int, w as int, h as int);
                    }
                    let nidx = (nx as usize) * (h as usize) + (ny as usize);
                    if prev[nidx].is_none() {
                        let ghost pre = prev@;
                        proof {
                            lemma_count_some_update(
                                prev@,
                                nx as int * (h as int) + ny as int,
                                (cx, cy, (d + 1) as u32),
                            );
                            lemma_count_some_bounds(prev@);
                        }
                        prev.set(nidx, Some((cx, cy, d + 1)));
                        queue.push((nx, ny));
                        proof {
                            assert(count_some(prev@) == count_some(pre) + 1);
                            lemma_count_some_bounds(prev@);
                            assert forall|a: int, b: int|
                                0 <= a < w && 0 <= b < h implies #[trigger] pentry(
                                h as int,
                                prev@,
                                a,
                                b,
                            ) == (if a == nx as int && b == ny as int {
                                Some((cx, cy, (d + 1) as u32))
                            } else {
                                pentry(h as int, pre, a, b)
                            }) by {
                                lemma_cell_in_range(a, b, w as int, h as int);
                                lemma_cell_index(a, b, nx as int, ny as int, h as int);
                            }
                            assert(pentry(h as int, prev@, cx as int, cy as int) == pentry(
                                h as int,
                                pre,
                                cx as int,
                                cy as int,
                            ));
                        }
                    }
                }
                dir = dir + 1;
            }
        }
        MapPaths { w, h, root_x: x, root_y: y, prev }
    }
}

} // verus!
