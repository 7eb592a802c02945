//! Triangle index table for one grid size.
//!
//! The right triangles of an RTIN hierarchy are the nodes of an implicit
//! binary tree: triangle array index `i` corresponds to tree id `i + 2`, the
//! two seed triangles (ids 2 and 3) being the two halves of the full tile
//! square. The table stores, for each triangle, the grid coordinates of the
//! two hypotenuse endpoints `a` and `b`; the apex `c` is recoverable from
//! them. Each entry is produced by a walk over the bits of its tree id,
//! mirrored exactly by the specification functions below.

use vstd::prelude::*;

use crate::TerrainError;
use crate::spec_is_pow2;
use crate::valid_grid_size;

verus! {

/// Corner coordinates of one triangle: hypotenuse `a`-`b`, apex `c`.
pub ghost struct TriCorners {
    pub ax: int,
    pub ay: int,
    pub bx: int,
    pub by: int,
    pub cx: int,
    pub cy: int,
}

/// Seed triangle for a tree id: the two halves of the `s x s` tile square.
pub open spec fn seed_tri(id: nat, s: int) -> TriCorners {
    if id % 2 == 1 {
        TriCorners { ax: 0, ay: 0, bx: s, by: s, cx: s, cy: 0 }
    } else {
        TriCorners { ax: s, ay: s, bx: 0, by: 0, cx: 0, cy: s }
    }
}

/// One refinement step of the id walk: the hypotenuse midpoint becomes the
/// new apex, and the branch bit picks which child triangle to descend into.
pub open spec fn step_tri(t: TriCorners, odd: bool) -> TriCorners {
    let mx = (t.ax + t.bx) / 2;
    let my = (t.ay + t.by) / 2;
    if odd {
        TriCorners { ax: t.cx, ay: t.cy, bx: t.ax, by: t.ay, cx: mx, cy: my }
    } else {
        TriCorners { ax: t.bx, ay: t.by, bx: t.cx, by: t.cy, cx: mx, cy: my }
    }
}

/// Bit `j` of `id`, as used by step `j` of the walk.
pub open spec fn walk_bit(id: nat, j: nat) -> bool {
    (id / vstd::arithmetic::power2::pow2(j)) % 2 == 1
}

/// The triangle reached after `steps` walk steps for tree id `id`.
pub open spec fn walk_tri(id: nat, steps: nat, s: int) -> TriCorners
    decreases steps,
{
    if steps == 0 {
        seed_tri(id, s)
    } else {
        step_tri(walk_tri(id, (steps - 1) as nat, s), walk_bit(id, steps))
    }
}

/// Number of binary digits of `n` (`nbits(2) == nbits(3) == 2`).
pub open spec fn nbits(n: nat) -> nat
    decreases n,
{
    if n <= 1 {
        n
    } else {
        1 + nbits(n / 2)
    }
}

/// The walk for tree id `id` takes `nbits(id) - 2` steps.
pub open spec fn walk_steps(id: nat) -> nat {
    (nbits(id) - 2) as nat
}

/// The finished table entry for tree id `id` on a tile of side `s`.
pub open spec fn entry_tri(id: nat, s: int) -> TriCorners {
    walk_tri(id, walk_steps(id), s)
}

/// Precomputed triangle index table, shared by every chunk of one grid size.
pub struct Rtin {
    /// Grid side length, `2^n + 1`.
    pub grid_size: usize,
    /// Triangle count; treated as read-only after construction.
    pub num_triangles: usize,
    /// Non-leaf entry count; treated as read-only after construction.
    pub num_parent_triangles: usize,
    /// Corner table, four values per triangle; read-only after construction.
    pub coords: Vec<usize>,
}

impl Rtin {
    /// Triangle count of the table: `2 * (grid_size - 1)^2 - 2`.
    pub open spec fn spec_num_triangles(&self) -> int {
        self.num_triangles as int
    }

    /// Count of non-leaf entries; the trailing `(grid_size - 1)^2` entries
    /// are the full-resolution leaf triangles.
    pub open spec fn spec_num_parent_triangles(&self) -> int {
        self.num_parent_triangles as int
    }

    /// The stored corner table, four values per triangle.
    pub open spec fn spec_coords(&self) -> Seq<usize> {
        self.coords@
    }

    /// Table well-formedness: counts match the grid size and every entry
    /// holds the hypotenuse endpoints computed by the id walk.
    pub open spec fn wf(&self) -> bool {
        let s = self.grid_size - 1;
        &&& valid_grid_size(self.grid_size as int)
        &&& self.spec_num_triangles() == s * s * 2 - 2
        &&& self.spec_num_parent_triangles() == self.spec_num_triangles() - s * s
        &&& self.spec_coords().len() == 4 * self.spec_num_triangles()
        &&& forall|i: int| 0 <= i < self.spec_num_triangles() ==> #[trigger] self.entry_pinned(i)
    }

    /// Entry `i` stores exactly the walked corners of tree id `i + 2`.
    pub open spec fn entry_pinned(&self, i: int) -> bool {
        let t = entry_tri((i + 2) as nat, self.grid_size - 1);
        &&& self.spec_coords()[4 * i] as int == t.ax
        &&& self.spec_coords()[4 * i + 1] as int == t.ay
        &&& self.spec_coords()[4 * i + 2] as int == t.bx
        &&& self.spec_coords()[4 * i + 3] as int == t.by
    }

    /// Builds the triangle index table for `grid_size`, rejecting any side
    /// length that is not `2^n + 1` or is larger than supported.
    pub fn new(grid_size: usize) -> (r: Result<Rtin, TerrainError>)
        ensures
            match r {
                Ok(rt) => {
                    &&& valid_grid_size(grid_size as int)
                    &&& rt.wf()
                    &&& rt.grid_size == grid_size
                },
                Err(e) => {
                    &&& e == TerrainError::InvalidGridSize
                    &&& !valid_grid_size(grid_size as int)
                },
            },
    {
        if grid_size < 3 || grid_size > crate::MAX_GRID_SIZE {
            return Err(TerrainError::InvalidGridSize);
        }
        let tile_size = grid_size - 1;
        if !crate::is_pow2(tile_size) {
            return Err(TerrainError::InvalidGridSize);
        }

        assert(4 <= tile_size * tile_size <= 4096 * 4096) by (nonlinear_arith)
            requires
                2 <= tile_size <= 4096,
        ;
        let num_triangles = tile_size * tile_size * 2 - 2;
        let num_parent_triangles = num_triangles - tile_size * tile_size;
        let mut coords: Vec<usize> = Vec::new();
        let s = tile_size;

        let mut i: usize = 0;
        while i < num_triangles
            invariant
                2 <= grid_size <= crate::MAX_GRID_SIZE,
                s == grid_size - 1,
                s * s <= 4096 * 4096,
                num_triangles == s * s * 2 - 2,
                s * s >= 4,
                i <= num_triangles,
                coords@.len() == 4 * i,
                forall|j: int| 0 <= j < i ==> #[trigger] entry_matches(coords@, j, s as int),
            decreases num_triangles - i,
        {
            let id0 = i + 2;
            let mut id = id0;
            let mut ax: usize = 0;
            let mut ay: usize = 0;
            let mut bx: usize = 0;
            let mut by: usize = 0;
            let mut cx: usize = 0;
            let mut cy: usize = 0;
            if id % 2 == 1 {
                bx = s;
                by = s;
                cx = s;
            } else {
                ax = s;
                ay = s;
                cy = s;
            }
            let ghost mut t: nat = 0;
            proof {
                vstd::arithmetic::power2::lemma2_to64();
            }

            while id / 2 > 1
                invariant
                    2 <= id0,
                    2 <= id,
                    s <= crate::MAX_GRID_SIZE - 1,
                    ax <= s && ay <= s && bx <= s && by <= s && cx <= s && cy <= s,
                    id as int == id0 as int / vstd::arithmetic::power2::pow2(t) as int,
                    walk_tri(id0 as nat, t, s as int) == (TriCorners {
                        ax: ax as int,
                        ay: ay as int,
                        bx: bx as int,
                        by: by as int,
                        cx: cx as int,
                        cy: cy as int,
                    }),
                decreases id,
            {
                id = id / 2;
                proof {
                    vstd::arithmetic::power2::lemma_pow2_pos(t);
                    vstd::arithmetic::power2::lemma_pow2_adds(t, 1);
                    vstd::arithmetic::power2::lemma2_to64();
                    vstd::arithmetic::div_mod::lemma_div_denominator(
                        id0 as int,
                        vstd::arithmetic::power2::pow2(t) as int,
                        2,
                    );
                    t = t + 1;
                }
                let mx = (ax + bx) / 2;
                let my = (ay + by) / 2;

                if id % 2 == 1 {
                    bx = ax;
                    by = ay;
                    ax = cx;
                    ay = cy;
                } else {
                    ax = bx;
                    ay = by;
                    bx = cx;
                    by = cy;
                }
                cx = mx;
                cy = my;
            }
            proof {
                lemma_walk_exit(id0 as nat, t);
            }
            let ghost coords_before = coords@;
            coords.push(ax);
            coords.push(ay);
            coords.push(bx);
            coords.push(by);
            proof {
                assert forall|j: int| 0 <= j < i + 1 implies #[trigger] entry_matches(
                    coords@,
                    j,
                    s as int,
                ) by {
                    if j < i {
                        assert(entry_matches(coords_before, j, s as int));
                        assert(coords@[4 * j] == coords_before[4 * j]);
                        assert(coords@[4 * j + 1] == coords_before[4 * j + 1]);
                        assert(coords@[4 * j + 2] == coords_before[4 * j + 2]);
                        assert(coords@[4 * j + 3] == coords_before[4 * j + 3]);
                    } else {
                        assert(coords@[4 * j] == ax);
                        assert(coords@[4 * j + 1] == ay);
                        assert(coords@[4 * j + 2] == bx);
                        assert(coords@[4 * j + 3] == by);
                    }
                }
            }
            i = i + 1;
        }

        let rt = Rtin { grid_size, num_triangles, num_parent_triangles, coords };
        proof {
            assert forall|j: int| 0 <= j < rt.spec_num_triangles() implies #[trigger] rt
                .entry_pinned(j) by {
                assert(entry_matches(rt.coords@, j, s as int));
            }
        }
        Ok(rt)
    }
}

/// Entry `j` of a raw corner table matches the walked corners of id `j + 2`.
pub open spec fn entry_matches(coords: Seq<usize>, j: int, s: int) -> bool {
    let t = entry_tri((j + 2) as nat, s);
    &&& coords[4 * j] as int == t.ax
    &&& coords[4 * j + 1] as int == t.ay
    &&& coords[4 * j + 2] as int == t.bx
    &&& coords[4 * j + 3] as int == t.by
}

/// `nbits` shifts down by one for each halving.
proof fn lemma_nbits_div(n: nat, t: nat)
    requires
        n / vstd::arithmetic::power2::pow2(t) >= 1,
    ensures
        nbits(n / vstd::arithmetic::power2::pow2(t)) + t == nbits(n),
    decreases t,
{
    vstd::arithmetic::power2::lemma2_to64();
    if t == 0 {
        assert(vstd::arithmetic::power2::pow2(0) == 1) by {
            vstd::arithmetic::power2::lemma2_to64();
        }
        assert(n / 1 == n) by (nonlinear_arith);
    } else {
        let tm = (t - 1) as nat;
        vstd::arithmetic::power2::lemma_pow2_pos(tm);
        vstd::arithmetic::power2::lemma_pow2_adds(tm, 1);
        vstd::arithmetic::div_mod::lemma_div_denominator(
            n as int,
            vstd::arithmetic::power2::pow2(tm) as int,
            2,
        );
        assert(n / vstd::arithmetic::power2::pow2(t) == (n / vstd::arithmetic::power2::pow2(tm))
            / 2);
        assert(n / vstd::arithmetic::power2::pow2(tm) >= 2) by {
            vstd::arithmetic::div_mod::lemma_div_non_zero(
                (n / vstd::arithmetic::power2::pow2(tm)) as int,
                2,
            );
        }
        lemma_nbits_div(n, tm);
        assert(nbits(n / vstd::arithmetic::power2::pow2(tm)) == 1 + nbits(
            (n / vstd::arithmetic::power2::pow2(tm)) / 2,
        ));
    }
}

/// When the walk stops at id 2 or 3, it has taken `nbits(id0) - 2` steps.
proof fn lemma_walk_exit(id0: nat, t: nat)
    requires
        id0 >= 2,
        2 <= id0 / vstd::arithmetic::power2::pow2(t) <= 3,
    ensures
        t == walk_steps(id0),
{
    lemma_nbits_div(id0, t);
    let r = id0 / vstd::arithmetic::power2::pow2(t);
    assert(nbits(r) == 2) by {
        reveal_with_fuel(nbits, 3);
    }
}


/// Exponent of a power of two: `lg(8) == 3`.
pub open spec fn lg(n: int) -> nat
    decreases n,
{
    if n <= 1 {
        0
    } else {
        1 + lg(n / 2)
    }
}

pub proof fn lemma_lg_pow2(n: int)
    requires
        spec_is_pow2(n),
    ensures
        vstd::arithmetic::power2::pow2(lg(n)) == n,
    decreases n,
{
    vstd::arithmetic::power2::lemma2_to64();
    if n > 1 {
        lemma_lg_pow2(n / 2);
        vstd::arithmetic::power2::lemma_pow2_adds(1, lg(n / 2));
    }
}

/// Diagonal-hypotenuse shape: `a` and `b` are opposite corners of an
/// axis-aligned square of side `h`, corners aligned to the `h` grid, and the
/// apex `c` is the quarter-turn image of `a` around the hypotenuse midpoint.
pub open spec fn shape_a(t: TriCorners, h: int, s: int) -> bool {
    &&& spec_is_pow2(h)
    &&& 2 <= h <= s
    &&& 0 <= t.ax <= s && 0 <= t.ay <= s && 0 <= t.bx <= s && 0 <= t.by <= s
    &&& 0 <= t.cx <= s && 0 <= t.cy <= s
    &&& (t.ax - t.bx == h || t.bx - t.ax == h)
    &&& (t.ay - t.by == h || t.by - t.ay == h)
    &&& t.ax % h == 0 && t.ay % h == 0 && t.bx % h == 0 && t.by % h == 0
    &&& 2 * t.cx == t.ax + t.bx + t.by - t.ay
    &&& 2 * t.cy == t.ay + t.by + t.ax - t.bx
}

/// Axis-hypotenuse shape: `a`-`b` runs along a grid axis with length `h`,
/// endpoints aligned to the `h` grid, apex as in [`shape_a`].
pub open spec fn shape_b(t: TriCorners, h: int, s: int) -> bool {
    &&& spec_is_pow2(h)
    &&& 2 <= h <= s
    &&& 0 <= t.ax <= s && 0 <= t.ay <= s && 0 <= t.bx <= s && 0 <= t.by <= s
    &&& 0 <= t.cx <= s && 0 <= t.cy <= s
    &&& ((t.ax == t.bx && (t.ay - t.by == h || t.by - t.ay == h)) || (t.ay == t.by && (t.ax
        - t.bx == h || t.bx - t.ax == h)))
    &&& t.ax % h == 0 && t.ay % h == 0 && t.bx % h == 0 && t.by % h == 0
    &&& 2 * t.cx == t.ax + t.bx + t.by - t.ay
    &&& 2 * t.cy == t.ay + t.by + t.ax - t.bx
}

/// A multiple of an even `h` is a multiple of `h / 2`.
proof fn lemma_mod_half(x: int, h: int)
    requires
        h >= 2,
        h % 2 == 0,
        x % h == 0,
    ensures
        x % (h / 2) == 0,
{
    let q = x / h;
    vstd::arithmetic::div_mod::lemma_fundamental_div_mod(x, h);
    assert(x == (h / 2) * (2 * q)) by (nonlinear_arith)
        requires
            x == h * q + x % h,
            x % h == 0,
            h % 2 == 0,
    ;
    vstd::arithmetic::div_mod::lemma_mod_multiples_basic(2 * q, h / 2);
}

/// Splitting a diagonal-hypotenuse triangle yields axis-hypotenuse children
/// at the same scale.
pub proof fn lemma_step_a_to_b(t: TriCorners, h: int, s: int, odd: bool)
    requires
        shape_a(t, h, s),
    ensures
        shape_b(step_tri(t, odd), h, s),
{
}

/// Splitting an axis-hypotenuse triangle yields diagonal-hypotenuse children
/// at half the scale.
pub proof fn lemma_step_b_to_a(t: TriCorners, h: int, s: int, odd: bool)
    requires
        shape_b(t, h, s),
        h >= 4,
    ensures
        shape_a(step_tri(t, odd), h / 2, s),
{
    lemma_mod_half(t.ax, h);
    lemma_mod_half(t.ay, h);
    lemma_mod_half(t.bx, h);
    lemma_mod_half(t.by, h);
    let sx = t.ax + t.bx;
    let sy = t.ay + t.by;
    let scx = t.ax + t.bx + t.by - t.ay;
    let scy = t.ay + t.by + t.ax - t.bx;
    assert(sx % h == 0 && sy % h == 0 && scx % h == 0 && scy % h == 0) by {
        lemma_sum_mod_zero(t.ax, t.bx, h);
        lemma_sum_mod_zero(t.ay, t.by, h);
        lemma_sum_mod_zero(sx, t.by, h);
        lemma_diff_mod_zero(sx + t.by, t.ay, h);
        lemma_sum_mod_zero(sy, t.ax, h);
        lemma_diff_mod_zero(sy + t.ax, t.bx, h);
    }
    assert(sx / 2 % (h / 2) == 0 && sy / 2 % (h / 2) == 0) by {
        lemma_half_mod(sx, h);
        lemma_half_mod(sy, h);
    }
    assert(t.cx % (h / 2) == 0 && t.cy % (h / 2) == 0) by {
        lemma_half_mod(scx, h);
        lemma_half_mod(scy, h);
        vstd::arithmetic::div_mod::lemma_div_multiples_vanish(t.cx, 2);
        vstd::arithmetic::div_mod::lemma_div_multiples_vanish(t.cy, 2);
        assert(scx == 2 * t.cx && scy == 2 * t.cy);
        assert(scx / 2 == t.cx && scy / 2 == t.cy);
    }
    assert(2 * (sx / 2) == sx && 2 * (sy / 2) == sy) by {
        vstd::arithmetic::div_mod::lemma_fundamental_div_mod(sx, 2);
        vstd::arithmetic::div_mod::lemma_fundamental_div_mod(sy, 2);
        lemma_mod_half(sx, h);
        lemma_mod_half(sy, h);
        lemma_even_of_mod(sx, h);
        lemma_even_of_mod(sy, h);
    }
}

/// A nonzero multiple of an even modulus is even.
proof fn lemma_even_of_mod(x: int, h: int)
    requires
        h >= 2,
        h % 2 == 0,
        x % h == 0,
    ensures
        x % 2 == 0,
{
    let q = x / h;
    vstd::arithmetic::div_mod::lemma_fundamental_div_mod(x, h);
    assert(x == 2 * ((h / 2) * q)) by (nonlinear_arith)
        requires
            x == h * q,
            h % 2 == 0,
            h >= 2,
    ;
    vstd::arithmetic::div_mod::lemma_mod_multiples_basic((h / 2) * q, 2);
    assert(x == ((h / 2) * q) * 2);
}

/// Two multiples of `m` sum to a multiple of `m`.
proof fn lemma_sum_mod_zero(x: int, y: int, m: int)
    requires
        m > 0,
        x % m == 0,
        y % m == 0,
    ensures
        (x + y) % m == 0,
{
    vstd::arithmetic::div_mod::lemma_add_mod_noop(x, y, m);
    vstd::arithmetic::div_mod::lemma_small_mod(0, m as nat);
}

/// The difference of two multiples of `m` is a multiple of `m`.
proof fn lemma_diff_mod_zero(x: int, y: int, m: int)
    requires
        m > 0,
        x % m == 0,
        y % m == 0,
    ensures
        (x - y) % m == 0,
{
    vstd::arithmetic::div_mod::lemma_sub_mod_noop(x, y, m);
    vstd::arithmetic::div_mod::lemma_small_mod(0, m as nat);
}

/// Half of a multiple of an even `h` is a multiple of `h / 2`.
proof fn lemma_half_mod(x: int, h: int)
    requires
        h >= 2,
        h % 2 == 0,
        x % h == 0,
    ensures
        (x / 2) % (h / 2) == 0,
{
    let q = x / h;
    vstd::arithmetic::div_mod::lemma_fundamental_div_mod(x, h);
    assert(x == 2 * ((h / 2) * q)) by (nonlinear_arith)
        requires
            x == h * q,
            h % 2 == 0,
            h >= 2,
    ;
    vstd::arithmetic::div_mod::lemma_div_multiples_vanish((h / 2) * q, 2);
    vstd::arithmetic::div_mod::lemma_mod_multiples_basic(q, h / 2);
    assert(x / 2 == (h / 2) * q);
    assert((q * (h / 2)) % (h / 2) == 0);
    assert((h / 2) * q == q * (h / 2)) by (nonlinear_arith);
}


/// Any number below `pow2(j)` has at most `j` binary digits.
proof fn lemma_nbits_le(x: nat, j: nat)
    requires
        x < vstd::arithmetic::power2::pow2(j),
    ensures
        nbits(x) <= j,
    decreases x,
{
    vstd::arithmetic::power2::lemma2_to64();
    if x <= 1 {
        if x == 1 {
            assert(j >= 1) by {
                if j == 0 {
                    assert(vstd::arithmetic::power2::pow2(0) == 1);
                }
            }
        }
    } else {
        assert(j >= 1) by {
            if j == 0 {
                assert(vstd::arithmetic::power2::pow2(0) == 1);
            }
        }
        let jm = (j - 1) as nat;
        vstd::arithmetic::power2::lemma_pow2_adds(1, jm);
        assert(x / 2 < vstd::arithmetic::power2::pow2(jm));
        lemma_nbits_le(x / 2, jm);
    }
}

/// Walking any id keeps the triangle in shape: diagonal hypotenuse after an
/// even number of steps, axis hypotenuse after an odd number, at scale
/// `s / 2^(steps / 2)`.
pub proof fn lemma_walk_shape(id: nat, steps: nat, s: int)
    requires
        id >= 2,
        spec_is_pow2(s),
        steps / 2 + 1 <= lg(s),
    ensures
        steps % 2 == 0 ==> shape_a(
            walk_tri(id, steps, s),
            vstd::arithmetic::power2::pow2((lg(s) - steps / 2) as nat) as int,
            s,
        ),
        steps % 2 == 1 ==> shape_b(
            walk_tri(id, steps, s),
            vstd::arithmetic::power2::pow2((lg(s) - steps / 2) as nat) as int,
            s,
        ),
    decreases steps,
{
    lemma_lg_pow2(s);
    vstd::arithmetic::power2::lemma2_to64();
    let k = lg(s);
    let h = vstd::arithmetic::power2::pow2((k - steps / 2) as nat) as int;
    assert(h >= 2) by {
        vstd::arithmetic::power2::lemma_pow2_adds(1, (k - steps / 2 - 1) as nat);
        lemma_pow2_is_pow2((k - steps / 2 - 1) as nat);
    }
    lemma_pow2_is_pow2((k - steps / 2) as nat);
    if steps == 0 {
        assert(h == s);
        let t = seed_tri(id, s);
        assert(0int % s == 0) by {
            vstd::arithmetic::div_mod::lemma_small_mod(0, s as nat);
        }
        assert(s % s == 0) by {
            vstd::arithmetic::div_mod::lemma_mod_self_0(s);
        }
        assert(shape_a(t, h, s));
    } else if steps % 2 == 1 {
        lemma_walk_shape(id, (steps - 1) as nat, s);
        assert((steps - 1) / 2 == steps / 2);
        lemma_step_a_to_b(walk_tri(id, (steps - 1) as nat, s), h, s, walk_bit(id, steps));
    } else {
        lemma_walk_shape(id, (steps - 1) as nat, s);
        assert((steps - 1) / 2 == steps / 2 - 1);
        let hp = vstd::arithmetic::power2::pow2((k - steps / 2 + 1) as nat) as int;
        assert(hp == 2 * h) by {
            vstd::arithmetic::power2::lemma_pow2_adds(1, (k - steps / 2) as nat);
        }
        lemma_step_b_to_a(walk_tri(id, (steps - 1) as nat, s), hp, s, walk_bit(id, steps));
        assert(hp / 2 == h) by {
            vstd::arithmetic::div_mod::lemma_div_multiples_vanish(h, 2);
        }
    }
}

/// `pow2` values satisfy the recursive power-of-two predicate.
proof fn lemma_pow2_is_pow2(e: nat)
    ensures
        spec_is_pow2(vstd::arithmetic::power2::pow2(e) as int),
    decreases e,
{
    vstd::arithmetic::power2::lemma2_to64();
    if e > 0 {
        lemma_pow2_is_pow2((e - 1) as nat);
        vstd::arithmetic::power2::lemma_pow2_adds(1, (e - 1) as nat);
    }
}

/// Facts about a table entry that index arithmetic relies on: corners stay
/// on the grid, the hypotenuse midpoint is exact, and the apex derived from
/// it stays on the grid as well.
pub open spec fn tri_sane(t: TriCorners, s: int) -> bool {
    &&& 0 <= t.ax <= s && 0 <= t.ay <= s && 0 <= t.bx <= s && 0 <= t.by <= s
    &&& 0 <= t.cx <= s && 0 <= t.cy <= s
    &&& (t.ax + t.bx) % 2 == 0 && (t.ay + t.by) % 2 == 0
    &&& 2 * t.cx == t.ax + t.bx + t.by - t.ay
    &&& 2 * t.cy == t.ay + t.by + t.ax - t.bx
}

/// Scale and orientation of table entry `i`: the number of walk steps that
/// produced it.
pub open spec fn entry_steps(i: int) -> nat {
    walk_steps((i + 2) as nat)
}

/// Every triangle id of a table on tile side `s` is sane in the sense of
/// [`tri_sane`], and has the walked shape for its depth.
pub proof fn lemma_id_shape(id: nat, s: int)
    requires
        spec_is_pow2(s),
        s >= 2,
        2 <= id,
        id <= 2 * (s * s) - 1,
    ensures
        ({
            let t = entry_tri(id, s);
            let steps = walk_steps(id);
            let h = vstd::arithmetic::power2::pow2((lg(s) - steps / 2) as nat) as int;
            &&& tri_sane(t, s)
            &&& (steps % 2 == 0 ==> shape_a(t, h, s))
            &&& (steps % 2 == 1 ==> shape_b(t, h, s))
        }),
{
    let k = lg(s);
    lemma_lg_pow2(s);
    vstd::arithmetic::power2::lemma2_to64();
    vstd::arithmetic::power2::lemma_pow2_adds(k, k);
    vstd::arithmetic::power2::lemma_pow2_adds(1, 2 * k);
    assert(s * s == vstd::arithmetic::power2::pow2(2 * k) as int) by {
        vstd::arithmetic::power2::lemma_pow2_adds(k, k);
        assert(s * s == vstd::arithmetic::power2::pow2(k) as int
            * vstd::arithmetic::power2::pow2(k) as int);
    }
    assert(id < vstd::arithmetic::power2::pow2(2 * k + 1));
    lemma_nbits_le(id, 2 * k + 1);
    assert(nbits(id) >= 2) by {
        reveal_with_fuel(nbits, 3);
        if id >= 2 {
            assert(nbits(id) == 1 + nbits(id / 2));
            assert(id / 2 >= 1);
            assert(nbits(id / 2) >= 1);
        }
    }
    let steps = walk_steps(id);
    assert(steps <= 2 * k - 1);
    assert(steps / 2 + 1 <= k);
    lemma_walk_shape(id, steps, s);
    let t = entry_tri(id, s);
    let h = vstd::arithmetic::power2::pow2((k - steps / 2) as nat) as int;
    assert(h % 2 == 0) by {
        if steps % 2 == 0 {
            assert(shape_a(t, h, s));
        } else {
            assert(shape_b(t, h, s));
        }
        lemma_even_pow2(h);
    }
    assert(tri_sane(t, s));
}

/// Every table entry of a well-formed table is sane in the sense of
/// [`tri_sane`], and has the walked shape for its depth.
pub proof fn lemma_entry_shape(rt: &Rtin, i: int)
    requires
        rt.wf(),
        0 <= i < rt.spec_num_triangles(),
    ensures
        ({
            let s = rt.grid_size - 1;
            let t = entry_tri((i + 2) as nat, s as int);
            let steps = entry_steps(i);
            let h = vstd::arithmetic::power2::pow2((lg(s as int) - steps / 2) as nat) as int;
            &&& tri_sane(t, s as int)
            &&& (steps % 2 == 0 ==> shape_a(t, h, s as int))
            &&& (steps % 2 == 1 ==> shape_b(t, h, s as int))
        }),
{
    let s = (rt.grid_size - 1) as int;
    lemma_id_shape((i + 2) as nat, s);
}

/// A power of two that is at least 2 is even.
proof fn lemma_even_pow2(h: int)
    requires
        spec_is_pow2(h),
        h >= 2,
    ensures
        h % 2 == 0,
{
}



/// Center-of-square cell pattern at scale `h`: both coordinates are odd
/// multiples of `h / 2`.
pub open spec fn pat_a(x: int, y: int, h: int) -> bool {
    x % h == h / 2 && y % h == h / 2
}

/// Edge-midpoint cell pattern at scale `h`: one coordinate is a multiple of
/// `h`, the other an odd multiple of `h / 2`.
pub open spec fn pat_b(x: int, y: int, h: int) -> bool {
    ||| (x % h == 0 && y % h == h / 2)
    ||| (x % h == h / 2 && y % h == 0)
}

/// Adding or subtracting half the modulus to an aligned value lands on the
/// half-residue.
proof fn lemma_offset_mod_half(x: int, h: int)
    requires
        h >= 2,
        h % 2 == 0,
        x % h == 0,
    ensures
        (x + h / 2) % h == h / 2,
        (x - h / 2) % h == h / 2,
{
    vstd::arithmetic::div_mod::lemma_add_mod_noop(x, h / 2, h);
    vstd::arithmetic::div_mod::lemma_small_mod((h / 2) as nat, h as nat);
    assert((x + h / 2) % h == h / 2);
    vstd::arithmetic::div_mod::lemma_sub_mod_noop(x + h / 2, h, h);
    vstd::arithmetic::div_mod::lemma_mod_self_0(h);
    assert((x - h / 2) % h == ((x + h / 2) % h - h % h) % h);
    vstd::arithmetic::div_mod::lemma_small_mod((h / 2) as nat, h as nat);
}

/// The hypotenuse midpoint of a diagonal-hypotenuse triangle is a center
/// cell at the triangle's scale.
proof fn lemma_shape_a_mid(t: TriCorners, h: int, s: int)
    requires
        shape_a(t, h, s),
    ensures
        2 * ((t.ax + t.bx) / 2) == t.ax + t.bx,
        2 * ((t.ay + t.by) / 2) == t.ay + t.by,
        pat_a((t.ax + t.bx) / 2, (t.ay + t.by) / 2, h),
{
    lemma_even_pow2(h);
    let mx = (t.ax + t.bx) / 2;
    let my = (t.ay + t.by) / 2;
    assert(t.ax + t.bx == 2 * t.ax + h || t.ax + t.bx == 2 * t.ax - h);
    assert(mx == t.ax + h / 2 || mx == t.ax - h / 2);
    assert(my == t.ay + h / 2 || my == t.ay - h / 2);
    lemma_offset_mod_half(t.ax, h);
    lemma_offset_mod_half(t.ay, h);
}

/// The hypotenuse midpoint of an axis-hypotenuse triangle is an edge cell at
/// the triangle's scale.
proof fn lemma_shape_b_mid(t: TriCorners, h: int, s: int)
    requires
        shape_b(t, h, s),
    ensures
        2 * ((t.ax + t.bx) / 2) == t.ax + t.bx,
        2 * ((t.ay + t.by) / 2) == t.ay + t.by,
        pat_b((t.ax + t.bx) / 2, (t.ay + t.by) / 2, h),
{
    lemma_even_pow2(h);
    let mx = (t.ax + t.bx) / 2;
    let my = (t.ay + t.by) / 2;
    lemma_offset_mod_half(t.ax, h);
    lemma_offset_mod_half(t.ay, h);
    if t.ax == t.bx {
        assert(mx == t.ax);
        assert(my == t.ay + h / 2 || my == t.ay - h / 2);
    } else {
        assert(my == t.ay);
        assert(mx == t.ax + h / 2 || mx == t.ax - h / 2);
    }
}

/// The child midpoint cells a non-leaf diagonal-hypotenuse triangle folds
/// are edge cells at its own scale.
#[verifier::rlimit(50)]
proof fn lemma_shape_a_children(t: TriCorners, h: int, s: int)
    requires
        shape_a(t, h, s),
    ensures
        2 * ((t.ax + t.cx) / 2) == t.ax + t.cx,
        2 * ((t.ay + t.cy) / 2) == t.ay + t.cy,
        2 * ((t.bx + t.cx) / 2) == t.bx + t.cx,
        2 * ((t.by + t.cy) / 2) == t.by + t.cy,
        pat_b((t.ax + t.cx) / 2, (t.ay + t.cy) / 2, h),
        pat_b((t.bx + t.cx) / 2, (t.by + t.cy) / 2, h),
{
    lemma_even_pow2(h);
    assert((t.cx == t.ax && t.cy == t.by) || (t.cx == t.bx && t.cy == t.ay));
    lemma_offset_mod_half(t.ax, h);
    lemma_offset_mod_half(t.ay, h);
    lemma_offset_mod_half(t.bx, h);
    lemma_offset_mod_half(t.by, h);
    assert(t.ax % h == 0 && t.ay % h == 0 && t.bx % h == 0 && t.by % h == 0);
    if t.cx == t.ax && t.cy == t.by {
        assert((t.ax + t.cx) / 2 == t.ax && (t.ay + t.cy) / 2 == t.ay + (t.by - t.ay) / 2);
        assert((t.by - t.ay) / 2 == h / 2 || (t.by - t.ay) / 2 == -(h / 2));
    } else {
        assert((t.ay + t.cy) / 2 == t.ay);
        assert((t.bx + t.cx) / 2 == t.bx);
    }
}

/// The child midpoint cells a non-leaf axis-hypotenuse triangle folds are
/// center cells at half its scale.
#[verifier::rlimit(50)]
proof fn lemma_shape_b_children(t: TriCorners, h: int, s: int)
    requires
        shape_b(t, h, s),
        h >= 4,
    ensures
        2 * ((t.ax + t.cx) / 2) == t.ax + t.cx,
        2 * ((t.ay + t.cy) / 2) == t.ay + t.cy,
        2 * ((t.bx + t.cx) / 2) == t.bx + t.cx,
        2 * ((t.by + t.cy) / 2) == t.by + t.cy,
        pat_a((t.ax + t.cx) / 2, (t.ay + t.cy) / 2, h / 2),
        pat_a((t.bx + t.cx) / 2, (t.by + t.cy) / 2, h / 2),
{
    lemma_even_pow2(h);
    assert(spec_is_pow2(h / 2) && h / 2 >= 2);
    lemma_even_pow2(h / 2);
    lemma_mod_half(t.ax, h);
    lemma_mod_half(t.ay, h);
    lemma_mod_half(t.bx, h);
    lemma_mod_half(t.by, h);
    let hh = h / 2;
    let hq = h / 4;
    assert(2 * hq == hh && 2 * hh == h);
    if t.ax == t.bx {
        // Vertical hypotenuse: the apex sits half a scale to the side.
        assert(2 * t.cx == 2 * t.ax + t.by - t.ay);
        assert(t.cx == t.ax + hh || t.cx == t.ax - hh);
        assert(2 * t.cy == t.ay + t.by);
        assert(t.cy == t.ay + hh || t.cy == t.ay - hh);
        assert((t.ax + t.cx) / 2 == t.ax + hq || (t.ax + t.cx) / 2 == t.ax - hq);
        assert((t.ay + t.cy) / 2 == t.ay + hq || (t.ay + t.cy) / 2 == t.ay - hq);
        assert((t.bx + t.cx) / 2 == t.bx + hq || (t.bx + t.cx) / 2 == t.bx - hq);
        assert((t.by + t.cy) / 2 == t.by + hq || (t.by + t.cy) / 2 == t.by - hq);
    } else {
        assert(2 * t.cy == 2 * t.ay + t.ax - t.bx);
        assert(t.cy == t.ay + hh || t.cy == t.ay - hh);
        assert(2 * t.cx == t.ax + t.bx);
        assert(t.cx == t.ax + hh || t.cx == t.ax - hh);
        assert((t.ax + t.cx) / 2 == t.ax + hq || (t.ax + t.cx) / 2 == t.ax - hq);
        assert((t.ay + t.cy) / 2 == t.ay + hq || (t.ay + t.cy) / 2 == t.ay - hq);
        assert((t.bx + t.cx) / 2 == t.bx + hq || (t.bx + t.cx) / 2 == t.bx - hq);
        assert((t.by + t.cy) / 2 == t.by + hq || (t.by + t.cy) / 2 == t.by - hq);
    }
    lemma_offset_mod_half(t.ax, hh);
    lemma_offset_mod_half(t.ay, hh);
    lemma_offset_mod_half(t.bx, hh);
    lemma_offset_mod_half(t.by, hh);
}


/// Larger numbers have at least as many binary digits.
pub proof fn lemma_nbits_monotone(a: nat, b: nat)
    requires
        a <= b,
    ensures
        nbits(a) <= nbits(b),
    decreases b,
{
    if b <= 1 {
    } else if a <= 1 {
        assert(nbits(b) == 1 + nbits(b / 2));
    } else {
        lemma_nbits_monotone(a / 2, b / 2);
    }
}

/// A multiple of a power of two is a multiple of every smaller power.
proof fn lemma_mod_pow2_le(x: int, e: nat, e2: nat)
    requires
        e2 <= e,
        x % (vstd::arithmetic::power2::pow2(e) as int) == 0,
    ensures
        x % (vstd::arithmetic::power2::pow2(e2) as int) == 0,
{
    let h = vstd::arithmetic::power2::pow2(e) as int;
    let h2 = vstd::arithmetic::power2::pow2(e2) as int;
    let f = vstd::arithmetic::power2::pow2((e - e2) as nat) as int;
    vstd::arithmetic::power2::lemma_pow2_pos(e);
    vstd::arithmetic::power2::lemma_pow2_pos(e2);
    vstd::arithmetic::power2::lemma_pow2_pos((e - e2) as nat);
    vstd::arithmetic::power2::lemma_pow2_adds(e2, (e - e2) as nat);
    let q = x / h;
    vstd::arithmetic::div_mod::lemma_fundamental_div_mod(x, h);
    assert(x == (f * q) * h2) by (nonlinear_arith)
        requires
            x == h * q,
            h == h2 * f,
    ;
    vstd::arithmetic::div_mod::lemma_mod_multiples_basic(f * q, h2);
}

/// A value on the half-grid of a power of two is a multiple of every power
/// at least one step smaller.
proof fn lemma_mod_pow2_half(x: int, e: nat, e2: nat)
    requires
        e >= 1,
        e2 <= e - 1,
        x % (vstd::arithmetic::power2::pow2(e) as int) == vstd::arithmetic::power2::pow2(
            (e - 1) as nat,
        ) as int,
    ensures
        x % (vstd::arithmetic::power2::pow2(e2) as int) == 0,
{
    let h = vstd::arithmetic::power2::pow2(e) as int;
    let hm = vstd::arithmetic::power2::pow2((e - 1) as nat) as int;
    let h2 = vstd::arithmetic::power2::pow2(e2) as int;
    let f = vstd::arithmetic::power2::pow2((e - e2) as nat) as int;
    let fm = vstd::arithmetic::power2::pow2((e - 1 - e2) as nat) as int;
    vstd::arithmetic::power2::lemma_pow2_pos(e);
    vstd::arithmetic::power2::lemma_pow2_pos(e2);
    vstd::arithmetic::power2::lemma_pow2_adds(e2, (e - e2) as nat);
    vstd::arithmetic::power2::lemma_pow2_adds(e2, (e - 1 - e2) as nat);
    let q = x / h;
    vstd::arithmetic::div_mod::lemma_fundamental_div_mod(x, h);
    assert(x == (f * q + fm) * h2) by (nonlinear_arith)
        requires
            x == h * q + hm,
            h == h2 * f,
            hm == h2 * fm,
    ;
    vstd::arithmetic::div_mod::lemma_mod_multiples_basic(f * q + fm, h2);
}

/// The cell pattern of a hypotenuse midpoint at a given tree depth:
/// center-of-square cells on even depths, edge cells on odd depths, at the
/// scale the depth dictates.
pub open spec fn level_pat(x: int, y: int, steps: nat, k: nat) -> bool {
    let h = vstd::arithmetic::power2::pow2((k - steps / 2) as nat) as int;
    if steps % 2 == 0 {
        pat_a(x, y, h)
    } else {
        pat_b(x, y, h)
    }
}

/// Half of `pow2(e)` is `pow2(e - 1)`.
proof fn lemma_pow2_halves(e: nat)
    requires
        e >= 1,
    ensures
        vstd::arithmetic::power2::pow2(e) as int / 2 == vstd::arithmetic::power2::pow2(
            (e - 1) as nat,
        ) as int,
        vstd::arithmetic::power2::pow2(e) as int == 2 * vstd::arithmetic::power2::pow2(
            (e - 1) as nat,
        ) as int,
{
    vstd::arithmetic::power2::lemma_pow2_adds(1, (e - 1) as nat);
    vstd::arithmetic::power2::lemma2_to64();
    vstd::arithmetic::div_mod::lemma_div_multiples_vanish(
        vstd::arithmetic::power2::pow2((e - 1) as nat) as int,
        2,
    );
}

/// Midpoint cells of different tree depths never collide.
pub proof fn lemma_level_pat_disjoint(x: int, y: int, l1: nat, l2: nat, k: nat)
    requires
        l1 < l2,
        l1 / 2 + 1 <= k,
        l2 / 2 + 1 <= k,
        level_pat(x, y, l1, k),
    ensures
        !level_pat(x, y, l2, k),
{
    let e1 = (k - l1 / 2) as nat;
    let e2 = (k - l2 / 2) as nat;
    let h1 = vstd::arithmetic::power2::pow2(e1) as int;
    let h2 = vstd::arithmetic::power2::pow2(e2) as int;
    vstd::arithmetic::power2::lemma_pow2_pos(e1);
    vstd::arithmetic::power2::lemma_pow2_pos(e2);
    lemma_pow2_halves(e1);
    lemma_pow2_halves(e2);
    if e1 == e2 {
        // Consecutive depths at the same scale: center versus edge cells.
        assert(l1 % 2 == 0 && l2 % 2 == 1);
        assert(h1 / 2 > 0);
        assert(pat_a(x, y, h1));
        assert(!pat_b(x, y, h2));
    } else {
        assert(e2 < e1);
        assert(x % h2 == 0 && y % h2 == 0) by {
            if l1 % 2 == 0 {
                assert(pat_a(x, y, h1));
                lemma_mod_pow2_half(x, e1, e2);
                lemma_mod_pow2_half(y, e1, e2);
            } else {
                assert(pat_b(x, y, h1));
                if x % h1 == 0 {
                    lemma_mod_pow2_le(x, e1, e2);
                    lemma_mod_pow2_half(y, e1, e2);
                } else {
                    lemma_mod_pow2_half(x, e1, e2);
                    lemma_mod_pow2_le(y, e1, e2);
                }
            }
        }
        assert(h2 / 2 > 0);
        if level_pat(x, y, l2, k) {
            if l2 % 2 == 0 {
                assert(x % h2 == h2 / 2);
            } else {
                assert(x % h2 == h2 / 2 || y % h2 == h2 / 2);
            }
        }
    }
}

/// The hypotenuse midpoint cell of any table entry carries the pattern of
/// its tree depth, exactly and within the grid.
pub proof fn lemma_entry_mid_pat(id: nat, s: int)
    requires
        spec_is_pow2(s),
        s >= 2,
        2 <= id <= 2 * (s * s) - 1,
    ensures
        ({
            let t = entry_tri(id, s);
            let mx = (t.ax + t.bx) / 2;
            let my = (t.ay + t.by) / 2;
            &&& 2 * mx == t.ax + t.bx
            &&& 2 * my == t.ay + t.by
            &&& 0 <= mx <= s && 0 <= my <= s
            &&& level_pat(mx, my, walk_steps(id), lg(s))
        }),
{
    lemma_id_shape(id, s);
    let t = entry_tri(id, s);
    let steps = walk_steps(id);
    let h = vstd::arithmetic::power2::pow2((lg(s) - steps / 2) as nat) as int;
    if steps % 2 == 0 {
        lemma_shape_a_mid(t, h, s);
    } else {
        lemma_shape_b_mid(t, h, s);
    }
}

/// The two child midpoint cells of a non-leaf table entry carry the pattern
/// of the next tree depth, exactly and within the grid.
pub proof fn lemma_entry_child_pat(id: nat, s: int)
    requires
        spec_is_pow2(s),
        s >= 2,
        2 <= id <= s * s - 1,
    ensures
        ({
            let t = entry_tri(id, s);
            let l1x = (t.ax + t.cx) / 2;
            let l1y = (t.ay + t.cy) / 2;
            let l2x = (t.bx + t.cx) / 2;
            let l2y = (t.by + t.cy) / 2;
            &&& 2 * l1x == t.ax + t.cx && 2 * l1y == t.ay + t.cy
            &&& 2 * l2x == t.bx + t.cx && 2 * l2y == t.by + t.cy
            &&& 0 <= l1x <= s && 0 <= l1y <= s && 0 <= l2x <= s && 0 <= l2y <= s
            &&& walk_steps(id) + 1 <= 2 * lg(s) - 1
            &&& level_pat(l1x, l1y, walk_steps(id) + 1, lg(s))
            &&& level_pat(l2x, l2y, walk_steps(id) + 1, lg(s))
        }),
{
    let k = lg(s);
    lemma_lg_pow2(s);
    vstd::arithmetic::power2::lemma2_to64();
    lemma_id_shape(id, s);
    let t = entry_tri(id, s);
    let steps = walk_steps(id);
    let h = vstd::arithmetic::power2::pow2((k - steps / 2) as nat) as int;
    assert(id < vstd::arithmetic::power2::pow2(2 * k)) by {
        vstd::arithmetic::power2::lemma_pow2_adds(k, k);
        assert(s * s == vstd::arithmetic::power2::pow2(k) as int
            * vstd::arithmetic::power2::pow2(k) as int);
    }
    lemma_nbits_le(id, 2 * k);
    assert(nbits(id) <= 2 * k);
    assert(k >= 1) by {
        assert(lg(s) == 1 + lg(s / 2));
    }
    assert(nbits(id) >= 2) by {
        reveal_with_fuel(nbits, 3);
        assert(nbits(id) == 1 + nbits(id / 2));
        assert(id / 2 >= 1);
        assert(nbits(id / 2) >= 1);
    }
    assert(steps <= 2 * k - 2);
    if steps % 2 == 0 {
        lemma_shape_a_children(t, h, s);
        assert((steps + 1) / 2 == steps / 2);
    } else {
        assert(steps <= 2 * k - 3);
        assert(steps / 2 <= k - 2);
        assert(h >= 4) by {
            vstd::arithmetic::power2::lemma_pow2_adds(2, (k - steps / 2 - 2) as nat);
            vstd::arithmetic::power2::lemma_pow2_pos((k - steps / 2 - 2) as nat);
        }
        lemma_shape_b_children(t, h, s);
        assert((steps + 1) / 2 == steps / 2 + 1);
        lemma_pow2_halves((k - steps / 2) as nat);
        assert(h / 2 == vstd::arithmetic::power2::pow2((k - (steps + 1) / 2) as nat) as int);
    }
}


/// Depth bound for any id in a table: strictly shallower than the leaf row
/// allows.
pub proof fn lemma_walk_steps_bound(id: nat, s: int)
    requires
        spec_is_pow2(s),
        s >= 2,
        2 <= id <= 2 * (s * s) - 1,
    ensures
        walk_steps(id) <= 2 * lg(s) - 1,
        walk_steps(id) / 2 + 1 <= lg(s),
{
    let k = lg(s);
    lemma_lg_pow2(s);
    vstd::arithmetic::power2::lemma2_to64();
    assert(k >= 1) by {
        assert(lg(s) == 1 + lg(s / 2));
    }
    assert(id < vstd::arithmetic::power2::pow2(2 * k + 1)) by {
        vstd::arithmetic::power2::lemma_pow2_adds(k, k);
        vstd::arithmetic::power2::lemma_pow2_adds(1, 2 * k);
        assert(s * s == vstd::arithmetic::power2::pow2(k) as int
            * vstd::arithmetic::power2::pow2(k) as int);
    }
    lemma_nbits_le(id, 2 * k + 1);
    assert(nbits(id) >= 2) by {
        reveal_with_fuel(nbits, 3);
        assert(nbits(id) == 1 + nbits(id / 2));
        assert(id / 2 >= 1);
        assert(nbits(id / 2) >= 1);
    }
}

} // verus!
