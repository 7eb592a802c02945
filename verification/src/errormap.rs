//! Bottom-up interpolation error aggregation.
//!
//! For every triangle, taken in reverse table order so that finer triangles
//! come first, the builder measures how far the height at the hypotenuse
//! midpoint is from the average of the heights at the hypotenuse endpoints,
//! and folds the already-aggregated errors of the two child triangles into
//! every non-leaf entry. The resulting per-cell value bounds the vertical
//! error of dropping that cell and everything below it.
//!
//! All errors are doubled ("half height units"), so the midpoint average
//! needs no fractional values: the stored error is `|h_a + h_b - 2 * h_m|`.

use vstd::prelude::*;
use vstd::pervasive::VecAdditionalExecFns;

use crate::TerrainError;
use crate::rtin::Rtin;
use crate::rtin::TriCorners;
use crate::rtin::entry_tri;
use crate::rtin::lemma_entry_shape;
use crate::rtin::tri_sane;
use crate::valid_grid_size;

verus! {

/// Absolute value.
pub open spec fn abs_int(x: int) -> int {
    if x < 0 {
        -x
    } else {
        x
    }
}

/// The larger of two integers.
pub open spec fn max_int(a: int, b: int) -> int {
    if a >= b {
        a
    } else {
        b
    }
}

/// Read with a default: out-of-range cells count as error zero.
pub open spec fn get0(errs: Seq<int>, idx: int) -> int {
    if 0 <= idx < errs.len() {
        errs[idx]
    } else {
        0
    }
}

/// Write that leaves the map unchanged when the cell is out of range.
pub open spec fn set0(errs: Seq<int>, idx: int, v: int) -> Seq<int> {
    if 0 <= idx < errs.len() {
        errs.update(idx, v)
    } else {
        errs
    }
}

/// Grid index of the hypotenuse midpoint of `t` on grid side `g`.
pub open spec fn mid_index(g: int, t: TriCorners) -> int {
    ((t.ay + t.by) / 2) * g + (t.ax + t.bx) / 2
}

/// Grid index of the first child triangle's hypotenuse midpoint.
pub open spec fn child1_index(g: int, t: TriCorners) -> int {
    ((t.ay + t.cy) / 2) * g + (t.ax + t.cx) / 2
}

/// Grid index of the second child triangle's hypotenuse midpoint.
pub open spec fn child2_index(g: int, t: TriCorners) -> int {
    ((t.by + t.cy) / 2) * g + (t.bx + t.cx) / 2
}

/// Doubled interpolation error at the hypotenuse midpoint of `t`:
/// `|h_a + h_b - 2 * h_m|`.
pub open spec fn local_error2(terrain: Seq<i32>, g: int, t: TriCorners) -> int {
    let ha = terrain[t.ay * g + t.ax] as int;
    let hb = terrain[t.by * g + t.bx] as int;
    let hm = terrain[mid_index(g, t)] as int;
    abs_int(ha + hb - 2 * hm)
}

/// One builder step: fold the local error of entry `j`, and for non-leaf
/// entries also the aggregated errors of its two children, into the error
/// value at the entry's midpoint cell.
pub open spec fn apply_entry(
    errs: Seq<int>,
    terrain: Seq<i32>,
    g: int,
    n_par: int,
    j: int,
) -> Seq<int> {
    let t = entry_tri((j + 2) as nat, g - 1);
    let mi = mid_index(g, t);
    let base = max_int(get0(errs, mi), local_error2(terrain, g, t));
    let errs1 = set0(errs, mi, base);
    if j < n_par {
        set0(
            errs1,
            mi,
            max_int(base, max_int(get0(errs1, child1_index(g, t)), get0(errs1, child2_index(g, t)))),
        )
    } else {
        errs1
    }
}

/// Error map state after processing every entry with index `>= j`, starting
/// from the all-zero map and walking the table in reverse.
pub open spec fn em_from(terrain: Seq<i32>, g: int, n_tri: int, n_par: int, j: int) -> Seq<int>
    decreases n_tri - j,
{
    if j < 0 || j >= n_tri {
        Seq::new((g * g) as nat, |ci: int| 0)
    } else {
        apply_entry(em_from(terrain, g, n_tri, n_par, j + 1), terrain, g, n_par, j)
    }
}

/// The finished error map: every entry folded in, finest first.
pub open spec fn error_map_spec(terrain: Seq<i32>, g: int, n_tri: int, n_par: int) -> Seq<int> {
    em_from(terrain, g, n_tri, n_par, 0)
}

/// A heightfield bundled with its aggregated error map, ready for mesh
/// extraction.
pub struct Tile {
    /// Aggregated per-cell error, in half height units.
    pub errors: Vec<u64>,
    /// Row-major height samples, one per grid cell.
    pub terrain: Vec<i32>,
    /// Grid side length.
    pub size: usize,
}

impl Tile {
    /// Lengths and grid side agree.
    pub open spec fn wf(&self) -> bool {
        &&& valid_grid_size(self.size as int)
        &&& self.errors@.len() == self.size * self.size
        &&& self.terrain@.len() == self.size * self.size
    }
}

/// Doubled errors never exceed `2^33`, the largest value two `i32` heights
/// can produce.
pub open spec fn em_bounded(errs: Seq<int>) -> bool {
    forall|ci: int| 0 <= ci < errs.len() ==> 0 <= #[trigger] errs[ci] <= 0x2_0000_0000
}

pub proof fn lemma_em_from_bounded(terrain: Seq<i32>, g: int, n_tri: int, n_par: int, j: int)
    ensures
        em_bounded(em_from(terrain, g, n_tri, n_par, j)),
        em_from(terrain, g, n_tri, n_par, j).len() == g * g,
    decreases n_tri - j,
{
    assert(g * g >= 0) by (nonlinear_arith);
    if j < 0 || j >= n_tri {
    } else {
        lemma_em_from_bounded(terrain, g, n_tri, n_par, j + 1);
    }
}

/// Lower-bound helper for grid indexing products.
pub proof fn lemma_grid_index(x: int, y: int, g: int)
    requires
        0 <= x < g,
        0 <= y < g,
        g >= 1,
    ensures
        0 <= y * g + x < g * g,
{
    assert(y * g + x < g * g) by (nonlinear_arith)
        requires
            0 <= x < g,
            0 <= y < g,
    ;
    assert(y * g >= 0) by (nonlinear_arith)
        requires
            y >= 0,
            g >= 1,
    ;
}

impl Rtin {
    /// Builds the aggregated error map for one heightfield, rejecting a
    /// heightfield whose length does not match this table's grid size.
    #[verifier::rlimit(100)]
    pub fn create_tile(&self, terrain: &Vec<i32>) -> (r: Result<Tile, TerrainError>)
        requires
            self.wf(),
        ensures
            match r {
                Ok(tile) => {
                    &&& terrain@.len() == self.grid_size * self.grid_size
                    &&& tile.size == self.grid_size
                    &&& tile.terrain@ == terrain@
                    &&& tile.wf()
                    &&& forall|ci: int|
                        0 <= ci < tile.errors@.len() ==> #[trigger] tile.errors@[ci] as int
                            == error_map_spec(
                            terrain@,
                            self.grid_size as int,
                            self.spec_num_triangles(),
                            self.spec_num_parent_triangles(),
                        )[ci]
                },
                Err(e) => {
                    &&& e == TerrainError::TerrainSizeMismatch
                    &&& terrain@.len() != self.grid_size * self.grid_size
                },
            },
    {
        let size = self.grid_size;
        assert(size * size <= 4097 * 4097) by (nonlinear_arith)
            requires
                size <= 4097,
        ;
        let terrain_size = size * size;
        if terrain.len() != terrain_size {
            return Err(TerrainError::TerrainSizeMismatch);
        }

        let ghost gi = size as int;
        let ghost n_tri = self.spec_num_triangles();
        let ghost n_par = self.spec_num_parent_triangles();

        let mut errors: Vec<u64> = Vec::new();
        let mut n: usize = 0;
        while n < terrain_size
            invariant
                n <= terrain_size,
                errors@.len() == n,
                forall|ci: int| 0 <= ci < n ==> #[trigger] errors@[ci] == 0u64,
            decreases terrain_size - n,
        {
            errors.push(0);
            n = n + 1;
        }

        proof {
            lemma_em_from_bounded(terrain@, gi, n_tri, n_par, n_tri);
        }

        assert(self.spec_num_triangles() <= 2 * 4096 * 4096) by (nonlinear_arith)
            requires
                self.spec_num_triangles() == (self.grid_size - 1) * (self.grid_size - 1) * 2 - 2,
                self.grid_size <= 4097,
        ;
        let mut i: usize = self.num_triangles;
        while i > 0
            invariant
                self.wf(),
                i <= self.num_triangles,
                gi == self.grid_size as int,
                n_tri == self.spec_num_triangles(),
                n_par == self.spec_num_parent_triangles(),
                terrain@.len() == self.grid_size * self.grid_size,
                self.grid_size * self.grid_size <= 4097 * 4097,
                self.num_triangles <= 2 * 4096 * 4096,
                size == self.grid_size,
                terrain_size == self.grid_size * self.grid_size,
                errors@.len() == terrain_size,
                forall|ci: int|
                    0 <= ci < errors@.len() ==> #[trigger] errors@[ci] as int == em_from(
                        terrain@,
                        gi,
                        n_tri,
                        n_par,
                        i as int,
                    )[ci],
            decreases i,
        {
            i = i - 1;
            let ghost prev = em_from(terrain@, gi, n_tri, n_par, i + 1);
            proof {
                lemma_em_from_bounded(terrain@, gi, n_tri, n_par, i + 1);
                lemma_entry_shape(self, i as int);
                assert(prev.len() == gi * gi);
                assert(forall|ci: int| 0 <= ci < prev.len() ==> #[trigger] prev[ci] == errors@[ci]);
            }
            let ghost t = entry_tri((i + 2) as nat, gi - 1);
            let k = 4 * i;
            let ax = self.coords[k];
            let ay = self.coords[k + 1];
            let bx = self.coords[k + 2];
            let by = self.coords[k + 3];
            proof {
                assert(self.entry_pinned(i as int));
            }
            let mx = (ax + bx) / 2;
            let my = (ay + by) / 2;
            proof {
                assert(tri_sane(t, gi - 1));
                lemma_grid_index(ax as int, ay as int, gi);
                lemma_grid_index(bx as int, by as int, gi);
                lemma_grid_index(mx as int, my as int, gi);
            }

            let interpolated2: i64 = terrain[ay * size + ax] as i64 + terrain[by * size + bx]
                as i64;
            let middle_index = my * size + mx;
            let diff: i64 = interpolated2 - 2 * (terrain[middle_index] as i64);
            let middle_error2: u64 = if diff < 0 {
                (-diff) as u64
            } else {
                diff as u64
            };
            let ghost mi = mid_index(gi, t);
            let ghost base = max_int(get0(prev, mi), local_error2(terrain@, gi, t));
            proof {
                assert(middle_index as int == mi);
                assert(middle_error2 as int == local_error2(terrain@, gi, t));
            }

            if middle_error2 > errors[middle_index] {
                errors.set(middle_index, middle_error2);
            }
            let ghost errs1 = set0(prev, mi, base);
            proof {
                assert(errors@[mi] as int == base);
                assert(forall|ci: int|
                    0 <= ci < errors@.len() ==> #[trigger] errors@[ci] as int == errs1[ci]);
            }

            if i < self.num_parent_triangles {
                let cx = mx + my - ay;
                let cy = my + ax - mx;
                proof {
                    assert(cx as int == t.cx && cy as int == t.cy);
                    lemma_grid_index(((ax + cx) / 2) as int, ((ay + cy) / 2) as int, gi);
                    lemma_grid_index(((bx + cx) / 2) as int, ((by + cy) / 2) as int, gi);
                }
                let left_child_index = ((ay + cy) / 2) * size + (ax + cx) / 2;
                let right_child_index = ((by + cy) / 2) * size + (bx + cx) / 2;
                let lc = errors[left_child_index];
                let rc = errors[right_child_index];
                proof {
                    assert(left_child_index as int == child1_index(gi, t));
                    assert(right_child_index as int == child2_index(gi, t));
                    assert(lc as int == get0(errs1, child1_index(gi, t)));
                    assert(rc as int == get0(errs1, child2_index(gi, t)));
                }
                let folded = if lc >= rc {
                    lc
                } else {
                    rc
                };
                if folded > errors[middle_index] {
                    errors.set(middle_index, folded);
                }
            }

            proof {
                let stepped = apply_entry(prev, terrain@, gi, n_par, i as int);
                assert(em_from(terrain@, gi, n_tri, n_par, i as int) == stepped);
                assert forall|ci: int| 0 <= ci < errors@.len() implies #[trigger] errors@[ci]
                    as int == stepped[ci] by {
                    if ci != mi {
                        assert(stepped[ci] == errs1[ci]);
                    }
                }
            }
        }

        let tile = Tile { errors, terrain: terrain.clone(), size };
        proof {
            assert(tile.terrain@ == terrain@);
            assert forall|ci: int| 0 <= ci < tile.errors@.len() implies #[trigger] tile.errors@[ci]
                as int == error_map_spec(terrain@, gi, n_tri, n_par)[ci] by {
                assert(tile.errors@.map_values(|v: u64| v as int)[ci] == tile.errors@[ci] as int);
            }
        }
        Ok(tile)
    }
}


/// On a constant heightfield every aggregated error is zero: each midpoint
/// sits exactly on the average of its hypotenuse endpoints, and folding
/// zeros keeps zeros.
pub proof fn lemma_flat_error_map(
    terrain: Seq<i32>,
    g: int,
    n_tri: int,
    n_par: int,
    h0: i32,
    j: int,
)
    requires
        valid_grid_size(g),
        terrain.len() == g * g,
        forall|ci: int| 0 <= ci < terrain.len() ==> #[trigger] terrain[ci] == h0,
        n_tri == (g - 1) * (g - 1) * 2 - 2,
    ensures
        forall|ci: int|
            0 <= ci < g * g ==> #[trigger] em_from(terrain, g, n_tri, n_par, j)[ci] == 0,
    decreases n_tri - j,
{
    lemma_em_from_bounded(terrain, g, n_tri, n_par, j);
    if j < 0 || j >= n_tri {
    } else {
        lemma_flat_error_map(terrain, g, n_tri, n_par, h0, j + 1);
        lemma_em_from_bounded(terrain, g, n_tri, n_par, j + 1);
        let prev = em_from(terrain, g, n_tri, n_par, j + 1);
        let s = g - 1;
        crate::rtin::lemma_id_shape((j + 2) as nat, s);
        let t = entry_tri((j + 2) as nat, s);
        assert(tri_sane(t, s));
        lemma_grid_index(t.ax, t.ay, g);
        lemma_grid_index(t.bx, t.by, g);
        lemma_grid_index((t.ax + t.bx) / 2, (t.ay + t.by) / 2, g);
        assert(local_error2(terrain, g, t) == 0);
        assert forall|ci: int|
            0 <= ci < g * g implies #[trigger] em_from(terrain, g, n_tri, n_par, j)[ci] == 0 by {
            assert(em_from(terrain, g, n_tri, n_par, j) == apply_entry(prev, terrain, g, n_par, j));
        }
    }
}


/// Grid cell indices are injective over in-range coordinates.
proof fn lemma_cell_inj(g: int, x1: int, y1: int, x2: int, y2: int)
    requires
        0 <= x1 < g,
        0 <= y1 < g,
        0 <= x2 < g,
        0 <= y2 < g,
        y1 * g + x1 == y2 * g + x2,
    ensures
        x1 == x2 && y1 == y2,
{
    assert(y1 * g + x1 == g * y1 + x1) by (nonlinear_arith);
    assert(y2 * g + x2 == g * y2 + x2) by (nonlinear_arith);
    vstd::arithmetic::div_mod::lemma_fundamental_div_mod_converse(y1 * g + x1, g, y1, x1);
    vstd::arithmetic::div_mod::lemma_fundamental_div_mod_converse(y2 * g + x2, g, y2, x2);
}

/// What one builder step does, cell by cell: only the entry's midpoint cell
/// changes, it never shrinks, and for non-leaf entries it ends up
/// dominating both child midpoint cells.
proof fn lemma_apply_entry_cells(errs: Seq<int>, terrain: Seq<i32>, g: int, n_par: int, j: int)
    requires
        valid_grid_size(g),
        errs.len() == g * g,
        0 <= j,
        j + 2 <= 2 * ((g - 1) * (g - 1)) - 1,
        n_par <= (g - 1) * (g - 1) - 2,
    ensures
        ({
            let t = entry_tri((j + 2) as nat, g - 1);
            let nw = apply_entry(errs, terrain, g, n_par, j);
            let mi = mid_index(g, t);
            &&& nw.len() == errs.len()
            &&& 0 <= mi < g * g
            &&& forall|ci: int| 0 <= ci < errs.len() && ci != mi ==> #[trigger] nw[ci] == errs[ci]
            &&& nw[mi] >= errs[mi]
            &&& (j < n_par ==> {
                &&& 0 <= child1_index(g, t) < g * g
                &&& 0 <= child2_index(g, t) < g * g
                &&& nw[mi] >= nw[child1_index(g, t)]
                &&& nw[mi] >= nw[child2_index(g, t)]
            })
        }),
{
    let s = g - 1;
    let t = entry_tri((j + 2) as nat, s);
    let nw = apply_entry(errs, terrain, g, n_par, j);
    let mi = mid_index(g, t);
    crate::rtin::lemma_entry_mid_pat((j + 2) as nat, s);
    lemma_grid_index((t.ax + t.bx) / 2, (t.ay + t.by) / 2, g);
    let base = max_int(get0(errs, mi), local_error2(terrain, g, t));
    let errs1 = set0(errs, mi, base);
    if j < n_par {
        assert(j + 2 <= s * s - 1);
        let c1 = child1_index(g, t);
        let c2 = child2_index(g, t);
        assert(0 <= c1 < g * g && 0 <= c2 < g * g) by {
            crate::rtin::lemma_id_shape((j + 2) as nat, s);
            lemma_grid_index((t.ax + t.cx) / 2, (t.ay + t.cy) / 2, g);
            lemma_grid_index((t.bx + t.cx) / 2, (t.by + t.cy) / 2, g);
        }
        let folded = max_int(base, max_int(get0(errs1, c1), get0(errs1, c2)));
        assert(nw == set0(errs1, mi, folded));
        assert(nw[mi] == folded);
        assert(nw[c1] == if c1 == mi {
            folded
        } else {
            errs1[c1]
        });
        assert(nw[c2] == if c2 == mi {
            folded
        } else {
            errs1[c2]
        });
    }
}


/// The midpoint cell of an earlier entry never collides with the child
/// midpoint cells of a later non-leaf entry: the earlier entry sits at a
/// shallower or equal tree depth, the child cells one deeper, and cells of
/// different depths have incompatible alignment.
proof fn lemma_mid_child_distinct(g: int, j: int, p: int)
    requires
        valid_grid_size(g),
        0 <= j < p,
        p + 2 <= (g - 1) * (g - 1) - 1,
    ensures
        ({
            let tj = entry_tri((j + 2) as nat, g - 1);
            let tp = entry_tri((p + 2) as nat, g - 1);
            &&& mid_index(g, tj) != child1_index(g, tp)
            &&& mid_index(g, tj) != child2_index(g, tp)
        }),
{
    let s = g - 1;
    let k = crate::rtin::lg(s);
    let idj = (j + 2) as nat;
    let idp = (p + 2) as nat;
    let tj = entry_tri(idj, s);
    let tp = entry_tri(idp, s);
    assert(s * s >= 4) by (nonlinear_arith)
        requires
            s >= 2,
    ;
    crate::rtin::lemma_entry_mid_pat(idj, s);
    crate::rtin::lemma_entry_child_pat(idp, s);
    crate::rtin::lemma_nbits_monotone(idj, idp);
    crate::rtin::lemma_walk_steps_bound(idj, s);
    let lj = crate::rtin::walk_steps(idj);
    let lp = crate::rtin::walk_steps(idp);
    assert(lj <= lp) by {
        assert(crate::rtin::nbits(idj) <= crate::rtin::nbits(idp));
        assert(crate::rtin::nbits(idj) >= 2) by {
            reveal_with_fuel(crate::rtin::nbits, 3);
            assert(crate::rtin::nbits(idj) == 1 + crate::rtin::nbits(idj / 2));
            assert(idj / 2 >= 1);
            assert(crate::rtin::nbits(idj / 2) >= 1);
        }
    }
    let mxj = (tj.ax + tj.bx) / 2;
    let myj = (tj.ay + tj.by) / 2;
    let c1x = (tp.ax + tp.cx) / 2;
    let c1y = (tp.ay + tp.cy) / 2;
    let c2x = (tp.bx + tp.cx) / 2;
    let c2y = (tp.by + tp.cy) / 2;
    if mid_index(g, tj) == child1_index(g, tp) {
        lemma_cell_inj(g, mxj, myj, c1x, c1y);
        crate::rtin::lemma_level_pat_disjoint(mxj, myj, lj, lp + 1, k);
    }
    if mid_index(g, tj) == child2_index(g, tp) {
        lemma_cell_inj(g, mxj, myj, c2x, c2y);
        crate::rtin::lemma_level_pat_disjoint(mxj, myj, lj, lp + 1, k);
    }
}

/// Monotonicity holds of every partially built error map, for every
/// non-leaf entry already folded in.
proof fn lemma_em_monotone_from(terrain: Seq<i32>, g: int, n_tri: int, n_par: int, j: int, p: int)
    requires
        valid_grid_size(g),
        n_tri == (g - 1) * (g - 1) * 2 - 2,
        n_par == n_tri - (g - 1) * (g - 1),
        0 <= p < n_par,
        0 <= j <= p,
    ensures
        ({
            let em = em_from(terrain, g, n_tri, n_par, j);
            let tp = entry_tri((p + 2) as nat, g - 1);
            &&& em[mid_index(g, tp)] >= em[child1_index(g, tp)]
            &&& em[mid_index(g, tp)] >= em[child2_index(g, tp)]
        }),
    decreases p - j,
{
    let s = g - 1;
    let tp = entry_tri((p + 2) as nat, s);
    let prev = em_from(terrain, g, n_tri, n_par, j + 1);
    lemma_em_from_bounded(terrain, g, n_tri, n_par, j + 1);
    assert(s * s >= 4) by (nonlinear_arith)
        requires
            s >= 2,
    ;
    assert(em_from(terrain, g, n_tri, n_par, j) == apply_entry(prev, terrain, g, n_par, j));
    lemma_apply_entry_cells(prev, terrain, g, n_par, j);
    if j == p {
    } else {
        lemma_em_monotone_from(terrain, g, n_tri, n_par, j + 1, p);
        lemma_mid_child_distinct(g, j, p);
        let tj = entry_tri((j + 2) as nat, s);
        let em = em_from(terrain, g, n_tri, n_par, j);
        let mij = mid_index(g, tj);
        let mip = mid_index(g, tp);
        let c1 = child1_index(g, tp);
        let c2 = child2_index(g, tp);
        lemma_apply_entry_cells(prev, terrain, g, n_par, p);
        assert(0 <= c1 < g * g && 0 <= c2 < g * g && 0 <= mip < g * g);
        assert(em[c1] == prev[c1] && em[c2] == prev[c2]);
        if mij == mip {
            assert(em[mip] >= prev[mip]);
        } else {
            assert(em[mip] == prev[mip]);
        }
    }
}

/// The aggregated error map is monotonic: for every non-leaf triangle of
/// the table, the error stored at its hypotenuse midpoint is at least the
/// error stored at either of its children's hypotenuse midpoints, so a
/// single threshold test at any level is conservative.
pub proof fn lemma_error_map_monotonic(terrain: Seq<i32>, g: int, n_tri: int, n_par: int, p: int)
    requires
        valid_grid_size(g),
        n_tri == (g - 1) * (g - 1) * 2 - 2,
        n_par == n_tri - (g - 1) * (g - 1),
        0 <= p < n_par,
    ensures
        ({
            let em = error_map_spec(terrain, g, n_tri, n_par);
            let t = entry_tri((p + 2) as nat, g - 1);
            &&& em[mid_index(g, t)] >= em[child1_index(g, t)]
            &&& em[mid_index(g, t)] >= em[child2_index(g, t)]
        }),
{
    lemma_em_monotone_from(terrain, g, n_tri, n_par, 0, p);
}

} // verus!
