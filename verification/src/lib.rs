//! Right-triangulated irregular network (RTIN) terrain meshing.
//!
//! The crate turns a dense square grid of height samples into an adaptively
//! simplified triangle mesh, and decides which terrain chunks must exist
//! around a moving viewpoint:
//!
//! - [`rtin`] precomputes the triangle index table for one grid size.
//! - [`errormap`] aggregates per-cell interpolation errors bottom-up.
//! - [`mesh`] extracts a mesh whose local error stays under a threshold.
//! - [`chunk`] runs the whole pipeline and places the result in the world.
//! - [`streaming`] tracks the chunk window around the viewpoint.
//!
//! Heights are plain signed integers: callers pick a fixed-point scale for
//! their world units. Error values are measured in half height units, so the
//! midpoint interpolation error of two samples is always exact.

use vstd::prelude::*;

pub mod chunk;
pub mod errormap;
pub mod mesh;
pub mod rtin;
pub mod streaming;

verus! {

/// Configuration failures detected before any table or heightfield work.
#[derive(Clone, Copy, Debug, PartialEq, Eq, Structural)]
pub enum TerrainError {
    /// The grid side length is not `2^n + 1`, or is larger than supported.
    InvalidGridSize,
    /// A heightfield's length does not match `grid_size * grid_size`.
    TerrainSizeMismatch,
}

/// Largest supported grid side; `MAX_GRID_SIZE - 1` is `2^12`.
pub const MAX_GRID_SIZE: usize = 4097;

/// `n` is a power of two.
pub open spec fn spec_is_pow2(n: int) -> bool
    decreases n,
{
    if n <= 0 {
        false
    } else if n == 1 {
        true
    } else {
        n % 2 == 0 && spec_is_pow2(n / 2)
    }
}

/// Grid sides this crate accepts: `2^n + 1` for `1 <= n <= 12`.
pub open spec fn valid_grid_size(g: int) -> bool {
    3 <= g <= MAX_GRID_SIZE && spec_is_pow2(g - 1)
}

/// Runtime check for [`spec_is_pow2`].
pub fn is_pow2(n: usize) -> (r: bool)
    ensures
        r == spec_is_pow2(n as int),
{
    if n == 0 {
        return false;
    }
    let mut t: usize = n;
    while t > 1
        invariant
            t >= 1,
            spec_is_pow2(n as int) == spec_is_pow2(t as int),
        decreases t,
    {
        if t % 2 == 1 {
            return false;
        }
        t = t / 2;
    }
    true
}

} // verus!
