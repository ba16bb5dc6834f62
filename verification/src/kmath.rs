//! Fixed-point scalar arithmetic and the 2-D vector type used by the
//! simulation core.
//!
//! All world coordinates, sizes, velocities and time steps are integers
//! counted in thousandths of a world unit; every rounding that the core
//! performs is truncation toward zero, stated here once as `div_trunc`.

use vstd::prelude::*;

verus! {

/// Fixed-point units per world unit (and per second, for time steps).
pub const FP_SCALE: i64 = 1000;

/// Largest magnitude accepted for a world coordinate, size or velocity;
/// keeps every intermediate product of the core inside `i64`.
pub const WORLD_MAX: i64 = 1_000_000_000;

/// Largest time step accepted by the tick functions (one minute).
pub const DT_MAX: i64 = 60_000;

/// Bound on the interval endpoints the rectangle-overlap arithmetic
/// accepts: differences of two such values still fit in `i64`.
pub const COORD_LIMIT: i64 = 0x1000_0000_0000_0000;

/// Division rounding toward zero (the rounding of Rust's `/`), for a
/// positive divisor. Ghost `/` alone is Euclidean, which differs on
/// negative dividends.
pub open spec fn div_trunc(a: int, b: int) -> int
    recommends
        b > 0,
{
    if a >= 0 {
        a / b
    } else {
        -((-a) / b)
    }
}

/// A fixed-point quantity scaled by another (a velocity by a time step):
/// the exact product brought back to fixed point, rounded toward zero.
pub open spec fn scale_mul(a: int, b: int) -> int {
    div_trunc(a * b, FP_SCALE as int)
}

/// Magnitude of a ghost integer.
pub open spec fn iabs(a: int) -> int {
    if a >= 0 {
        a
    } else {
        -a
    }
}

/// Smaller of two ghost integers.
pub open spec fn imin(a: int, b: int) -> int {
    if a <= b {
        a
    } else {
        b
    }
}

/// Larger of two ghost integers.
pub open spec fn imax(a: int, b: int) -> int {
    if a >= b {
        a
    } else {
        b
    }
}

/// True when `a` is a legal world coordinate, size, velocity component or
/// time step magnitude.
pub open spec fn in_world(a: int) -> bool {
    -WORLD_MAX <= a <= WORLD_MAX
}

/// True when `a` is small enough for the overlap arithmetic.
pub open spec fn coord_ok(a: int) -> bool {
    -COORD_LIMIT <= a <= COORD_LIMIT
}

/// Truncating division on machine integers, for a positive divisor.
pub fn div_trunc_i64(a: i64, b: i64) -> (r: i64)
    requires
        b > 0,
        a > i64::MIN,
    ensures
        r == div_trunc(a as int, b as int),
        iabs(r as int) <= iabs(a as int),
{
    a / b
}

/// A 2-D fixed-point vector.
#[derive(Clone, Copy, Debug, PartialEq, Eq, Structural)]
pub struct Vec2 {
    pub x: i64,
    pub y: i64,
}

impl Vec2 {
    pub fn new(x: i64, y: i64) -> (r: Vec2)
        ensures
            r == (Vec2 { x, y }),
    {
        Vec2 { x, y }
    }
}

/// One mixing round of the deterministic hash: xor with a key, then a
/// multiplication by an odd constant, truncated to 32 bits.
pub open spec fn kmix(a: u32, k: u32) -> u32 {
    ((((a ^ k) as int) * 0x9E3779B9) % 0x1_0000_0000) as u32
}

/// The deterministic 32-bit hash that drives every seeded generator of the
/// crate: two mixing rounds with fixed keys.
pub open spec fn khash_spec(s: u32) -> u32 {
    kmix(kmix(s, 0x85EB_CA6B), 0xC2B2_AE35)
}

/// Deterministic 32-bit avalanche hash; seeded map generation draws all of
/// its pseudo-randomness from iterating this function.
pub fn khash(s: u32) -> (r: u32)
    ensures
        r == khash_spec(s),
{
    let r1: u64 = (((s ^ 0x85EB_CA6B) as u64) * 0x9E3779B9u64) % 0x1_0000_0000u64;
    let r2: u64 = ((((r1 as u32) ^ 0xC2B2_AE35) as u64) * 0x9E3779B9u64) % 0x1_0000_0000u64;
    r2 as u32
}

} // verus!
