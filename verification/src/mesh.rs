//! Adaptive mesh extraction.
//!
//! Starting from the two root triangles that cover the tile, the extractor
//! descends: a triangle whose hypotenuse spans more than one cell and whose
//! aggregated midpoint error exceeds the threshold is split into its two
//! children, anything else is emitted as a leaf. The leaf list is computed
//! once, so the counting pass and the building pass see the same triangles
//! in the same order by construction. Vertices are numbered in first-use
//! order: a grid cell gets its index the first time it appears as a leaf
//! corner and keeps it afterwards.

use vstd::prelude::*;

use crate::errormap::Tile;
use crate::errormap::abs_int;
use crate::errormap::mid_index;
use crate::rtin::TriCorners;
use crate::rtin::shape_a;
use crate::rtin::shape_b;
use crate::rtin::step_tri;
use crate::valid_grid_size;

verus! {

/// One triangle of the descent, corners as grid coordinates: hypotenuse
/// `a`-`b`, apex `c`.
#[derive(Clone, Copy, PartialEq, Eq, Structural, Debug)]
pub struct MeshTri {
    pub ax: usize,
    pub ay: usize,
    pub bx: usize,
    pub by: usize,
    pub cx: usize,
    pub cy: usize,
}

impl MeshTri {
    /// Mathematical view of the corners.
    pub open spec fn corners(&self) -> TriCorners {
        TriCorners {
            ax: self.ax as int,
            ay: self.ay as int,
            bx: self.bx as int,
            by: self.by as int,
            cx: self.cx as int,
            cy: self.cy as int,
        }
    }
}

/// Manhattan distance from `a` to the apex: the scale of the triangle.
pub open spec fn tri_span(t: TriCorners) -> int {
    abs_int(t.ax - t.cx) + abs_int(t.ay - t.cy)
}

/// 1 for a diagonal hypotenuse, 0 for an axis-aligned one; together with
/// [`tri_span`] this orders the descent.
pub open spec fn tri_rank(t: TriCorners) -> int {
    if t.ax != t.bx && t.ay != t.by {
        1
    } else {
        0
    }
}

/// The finest triangle of the hierarchy: half of a single grid cell.
pub open spec fn shape_a1(t: TriCorners, s: int) -> bool {
    &&& 0 <= t.ax <= s && 0 <= t.ay <= s && 0 <= t.bx <= s && 0 <= t.by <= s
    &&& 0 <= t.cx <= s && 0 <= t.cy <= s
    &&& (t.ax - t.bx == 1 || t.bx - t.ax == 1)
    &&& (t.ay - t.by == 1 || t.by - t.ay == 1)
    &&& 2 * t.cx == t.ax + t.bx + t.by - t.ay
    &&& 2 * t.cy == t.ay + t.by + t.ax - t.bx
}

/// Triangles the descent can encounter: one of the two walk shapes at the
/// triangle's own scale, or a finest half-cell triangle.
pub open spec fn desc_ok(t: TriCorners, s: int) -> bool {
    ||| shape_a(t, tri_span(t), s)
    ||| shape_a1(t, s)
    ||| shape_b(t, tri_span(t), s)
}

/// Split decision: the hypotenuse spans more than one cell and the
/// aggregated error at its midpoint exceeds the threshold.
pub open spec fn tri_split(errs: Seq<u64>, g: int, max_err: u64, t: TriCorners) -> bool {
    tri_span(t) > 1 && errs[mid_index(g, t)] > max_err
}

/// Children of a split are in shape too, strictly smaller in the descent
/// order `(span, rank)`.
pub proof fn lemma_desc_children(t: TriCorners, s: int, odd: bool)
    requires
        desc_ok(t, s),
        tri_span(t) > 1,
    ensures
        desc_ok(step_tri(t, odd), s),
        tri_span(step_tri(t, odd)) <= tri_span(t),
        tri_span(step_tri(t, odd)) < tri_span(t) || tri_rank(step_tri(t, odd)) < tri_rank(t),
{
    let h = tri_span(t);
    if shape_a(t, h, s) {
        crate::rtin::lemma_step_a_to_b(t, h, s, odd);
        assert(shape_b(step_tri(t, odd), h, s));
        assert(tri_span(step_tri(t, odd)) == h);
    } else if shape_b(t, h, s) {
        if h >= 4 {
            crate::rtin::lemma_step_b_to_a(t, h, s, odd);
            assert(shape_a(step_tri(t, odd), h / 2, s));
            assert(tri_span(step_tri(t, odd)) == h / 2);
        } else {
            lemma_step_b_to_a1(t, s, odd);
            assert(tri_span(step_tri(t, odd)) == 1);
        }
    }
}

/// Splitting the coarsest axis-hypotenuse triangles yields the finest
/// half-cell triangles.
proof fn lemma_step_b_to_a1(t: TriCorners, s: int, odd: bool)
    requires
        shape_b(t, 2, s),
    ensures
        shape_a1(step_tri(t, odd), s),
{
}

/// The triangles the descent emits, in emission order.
pub open spec fn leaves_spec(errs: Seq<u64>, g: int, max_err: u64, t: TriCorners) -> Seq<
    TriCorners,
>
    decreases tri_span(t), tri_rank(t),
        when desc_ok(t, g - 1)
        via leaves_spec_dec
{
    if tri_split(errs, g, max_err, t) {
        leaves_spec(errs, g, max_err, step_tri(t, true)) + leaves_spec(
            errs,
            g,
            max_err,
            step_tri(t, false),
        )
    } else {
        seq![t]
    }
}

#[via_fn]
proof fn leaves_spec_dec(errs: Seq<u64>, g: int, max_err: u64, t: TriCorners) {
    if tri_split(errs, g, max_err, t) {
        lemma_desc_children(t, g - 1, true);
        lemma_desc_children(t, g - 1, false);
    }
}

/// Runs the descent below `t`, appending every emitted leaf to `out`.
#[verifier::rlimit(50)]
fn collect_leaves(errors: &Vec<u64>, g: usize, max_err: u64, t: MeshTri, out: &mut Vec<MeshTri>)
    requires
        valid_grid_size(g as int),
        errors@.len() == g * g,
        desc_ok(t.corners(), g - 1),
    ensures
        final(out)@.len() == old(out)@.len() + leaves_spec(
            errors@,
            g as int,
            max_err,
            t.corners(),
        ).len(),
        forall|j: int| 0 <= j < old(out)@.len() ==> final(out)@[j] == #[trigger] old(out)@[j],
        forall|j: int|
            old(out)@.len() <= j < final(out)@.len() ==> #[trigger] final(out)@[j].corners()
                == leaves_spec(errors@, g as int, max_err, t.corners())[j - old(out)@.len()],
    decreases tri_span(t.corners()), tri_rank(t.corners()),
{
    let ghost gi = g as int;
    let ghost tc = t.corners();
    let ghost leaves = leaves_spec(errors@, gi, max_err, tc);
    assert(g * g <= 4097 * 4097) by (nonlinear_arith)
        requires
            g <= 4097,
    ;
    let mx = (t.ax + t.bx) / 2;
    let my = (t.ay + t.by) / 2;
    proof {
        crate::errormap::lemma_grid_index(mx as int, my as int, gi);
    }
    let dx = if t.ax > t.cx {
        t.ax - t.cx
    } else {
        t.cx - t.ax
    };
    let dy = if t.ay > t.cy {
        t.ay - t.cy
    } else {
        t.cy - t.ay
    };
    let split = dx + dy > 1 && errors[my * g + mx] > max_err;
    proof {
        assert(split == tri_split(errors@, gi, max_err, tc));
    }
    if split {
        let child1 = MeshTri { ax: t.cx, ay: t.cy, bx: t.ax, by: t.ay, cx: mx, cy: my };
        let child2 = MeshTri { ax: t.bx, ay: t.by, bx: t.cx, by: t.cy, cx: mx, cy: my };
        proof {
            lemma_desc_children(tc, gi - 1, true);
            lemma_desc_children(tc, gi - 1, false);
            assert(child1.corners() == step_tri(tc, true));
            assert(child2.corners() == step_tri(tc, false));
        }
        let ghost n0 = out@.len() as int;
        collect_leaves(errors, g, max_err, child1, out);
        let ghost mid_state = out@;
        let ghost n1 = out@.len() as int;
        collect_leaves(errors, g, max_err, child2, out);
        proof {
            let l1 = leaves_spec(errors@, gi, max_err, step_tri(tc, true));
            let l2 = leaves_spec(errors@, gi, max_err, step_tri(tc, false));
            assert(leaves == l1 + l2);
            assert(leaves.len() == l1.len() + l2.len());
            assert forall|j: int| n0 <= j < out@.len() implies #[trigger] out@[j].corners()
                == leaves[j - n0] by {
                if j < n1 {
                    assert(out@[j] == mid_state[j]);
                    assert(mid_state[j].corners() == l1[j - n0]);
                    assert(leaves[j - n0] == l1[j - n0]);
                } else {
                    assert(out@[j].corners() == l2[j - n1]);
                    assert(leaves[j - n0] == l2[j - n0 - l1.len()]);
                }
            }
        }
    } else {
        out.push(t);
        proof {
            assert(leaves =~= seq![tc]);
        }
    }
}


/// Grid cell index of the corner `(x, y)`.
pub open spec fn cell_of(g: int, x: int, y: int) -> int {
    y * g + x
}

/// Appends a cell unless it was already assigned a vertex index.
pub open spec fn add_cell(acc: Seq<int>, c: int) -> Seq<int> {
    if acc.contains(c) {
        acc
    } else {
        acc.push(c)
    }
}

/// Folds the three corner cells of `t` into the first-use order, `a` first.
pub open spec fn add_tri_cells(acc: Seq<int>, g: int, t: TriCorners) -> Seq<int> {
    add_cell(
        add_cell(add_cell(acc, cell_of(g, t.ax, t.ay)), cell_of(g, t.bx, t.by)),
        cell_of(g, t.cx, t.cy),
    )
}

/// The distinct corner cells of the leaves, in first-use order: cell `k`
/// receives vertex index `k`.
pub open spec fn mesh_cells(g: int, leaves: Seq<TriCorners>) -> Seq<int>
    decreases leaves.len(),
{
    if leaves.len() == 0 {
        Seq::empty()
    } else {
        add_tri_cells(mesh_cells(g, leaves.drop_last()), g, leaves.last())
    }
}

/// Cells already in the order stay, and stay at their position.
proof fn lemma_add_cell_grows(acc: Seq<int>, c: int)
    ensures
        acc.len() <= add_cell(acc, c).len(),
        forall|k: int| 0 <= k < acc.len() ==> #[trigger] add_cell(acc, c)[k] == acc[k],
        add_cell(acc, c).contains(c),
        forall|x: int| acc.contains(x) ==> #[trigger] add_cell(acc, c).contains(x),
        forall|x: int|
            #[trigger] add_cell(acc, c).contains(x) ==> acc.contains(x) || x == c,
{
    if !acc.contains(c) {
        assert(add_cell(acc, c)[acc.len() as int] == c);
        assert forall|x: int| acc.contains(x) implies #[trigger] add_cell(acc, c).contains(x) by {
            let k = choose|k: int| 0 <= k < acc.len() && acc[k] == x;
            assert(add_cell(acc, c)[k] == x);
        }
    }
}

/// The fold keeps distinctness and the range of its entries.
proof fn lemma_add_cell_wf(acc: Seq<int>, c: int, n: int)
    requires
        acc.no_duplicates(),
        forall|k: int| 0 <= k < acc.len() ==> 0 <= #[trigger] acc[k] < n,
        0 <= c < n,
    ensures
        add_cell(acc, c).no_duplicates(),
        forall|k: int|
            0 <= k < add_cell(acc, c).len() ==> 0 <= #[trigger] add_cell(acc, c)[k] < n,
{
}

/// At most `n` distinct cells fit in `[0, n)`.
proof fn lemma_distinct_bounded(cells: Seq<int>, n: int)
    requires
        cells.no_duplicates(),
        forall|k: int| 0 <= k < cells.len() ==> 0 <= #[trigger] cells[k] < n,
        n >= 0,
    ensures
        cells.len() <= n,
{
    cells.unique_seq_to_set();
    assert(cells.to_set().subset_of(vstd::set_lib::set_int_range(0, n)));
    vstd::set_lib::lemma_int_range(0, n);
    vstd::set_lib::lemma_len_subset(cells.to_set(), vstd::set_lib::set_int_range(0, n));
}

/// The vertex index array of the counting pass agrees with the first-use
/// cell order: cell `cells[k]` holds index `k + 1`, every other cell holds 0.
pub open spec fn ids_match(ids: Seq<u32>, cells: Seq<int>, g: int) -> bool {
    &&& ids.len() == g * g
    &&& cells.no_duplicates()
    &&& forall|k: int|
        0 <= k < cells.len() ==> 0 <= #[trigger] cells[k] < g * g && ids[cells[k]] == k + 1
    &&& forall|ci: int|
        0 <= ci < g * g ==> ((#[trigger] ids[ci] == 0) <==> !cells.contains(ci))
    &&& forall|ci: int|
        0 <= ci < g * g && #[trigger] ids[ci] != 0 ==> 1 <= ids[ci] <= cells.len()
            && cells[ids[ci] - 1] == ci
}

/// A fresh, all-zero index array matches the empty cell order.
proof fn lemma_ids_match_empty(ids: Seq<u32>, g: int)
    requires
        ids.len() == g * g,
        forall|ci: int| 0 <= ci < ids.len() ==> #[trigger] ids[ci] == 0,
    ensures
        ids_match(ids, Seq::<int>::empty(), g),
{
}

/// Folding one cell into the order keeps the index array in agreement, when
/// the array is updated exactly on a first use.
proof fn lemma_ids_match_step(ids: Seq<u32>, cells: Seq<int>, g: int, c: int)
    requires
        ids_match(ids, cells, g),
        0 <= c < g * g,
        1 <= g <= 4097,
    ensures
        ids[c] == 0 ==> ids_match(
            ids.update(c, (cells.len() + 1) as u32),
            add_cell(cells, c),
            g,
        ),
        ids[c] != 0 ==> ids_match(ids, add_cell(cells, c), g),
{
    lemma_add_cell_grows(cells, c);
    assert(g * g <= 4097 * 4097) by (nonlinear_arith)
        requires
            0 <= g <= 4097,
    ;
    lemma_add_cell_wf(cells, c, g * g);
    lemma_distinct_bounded(add_cell(cells, c), g * g);
    if ids[c] == 0 {
        assert(!cells.contains(c));
        assert(add_cell(cells, c).len() == cells.len() + 1);
        let cells2 = add_cell(cells, c);
        let ids2 = ids.update(c, (cells.len() + 1) as u32);
        assert(cells2 == cells.push(c));
        assert(ids2[c] == cells.len() + 1);
        assert forall|ci: int| 0 <= ci < g * g implies ((#[trigger] ids2[ci] == 0)
            <==> !cells2.contains(ci)) by {
            if ci == c {
                assert(cells2.contains(c));
            } else {
                assert(ids2[ci] == ids[ci]);
                assert(cells2.contains(ci) <==> cells.contains(ci)) by {
                    if cells2.contains(ci) {
                        let k = choose|k: int| 0 <= k < cells2.len() && cells2[k] == ci;
                        assert(k < cells.len() && cells[k] == ci);
                    }
                    if cells.contains(ci) {
                        assert(cells2.contains(ci));
                    }
                }
            }
        }
        assert forall|ci: int| 0 <= ci < g * g && #[trigger] ids2[ci] != 0 implies 1 <= ids2[ci]
            <= cells2.len() && cells2[ids2[ci] - 1] == ci by {
            if ci == c {
                assert(cells2[cells.len() as int] == c);
            } else {
                assert(ids2[ci] == ids[ci]);
                assert(cells2[ids[ci] - 1] == cells[ids[ci] - 1]);
            }
        }
        assert(forall|k: int|
            0 <= k < cells2.len() ==> 0 <= #[trigger] cells2[k] < g * g && ids2[cells2[k]] == k
                + 1);
    }
}



/// `ci` is one of the three corner cells of `t`.
pub open spec fn is_corner_cell(g: int, t: TriCorners, ci: int) -> bool {
    ||| ci == cell_of(g, t.ax, t.ay)
    ||| ci == cell_of(g, t.bx, t.by)
    ||| ci == cell_of(g, t.cx, t.cy)
}

/// Every leaf corner has a vertex index: the first-use order contains it.
proof fn lemma_corners_in_cells(g: int, lcs: Seq<TriCorners>, j: int)
    requires
        0 <= j < lcs.len(),
    ensures
        mesh_cells(g, lcs).contains(cell_of(g, lcs[j].ax, lcs[j].ay)),
        mesh_cells(g, lcs).contains(cell_of(g, lcs[j].bx, lcs[j].by)),
        mesh_cells(g, lcs).contains(cell_of(g, lcs[j].cx, lcs[j].cy)),
    decreases lcs.len(),
{
    let prev = mesh_cells(g, lcs.drop_last());
    let t = lcs.last();
    let acc1 = add_cell(prev, cell_of(g, t.ax, t.ay));
    let acc2 = add_cell(acc1, cell_of(g, t.bx, t.by));
    let acc3 = add_cell(acc2, cell_of(g, t.cx, t.cy));
    lemma_add_cell_grows(prev, cell_of(g, t.ax, t.ay));
    lemma_add_cell_grows(acc1, cell_of(g, t.bx, t.by));
    lemma_add_cell_grows(acc2, cell_of(g, t.cx, t.cy));
    if j == lcs.len() - 1 {
    } else {
        lemma_corners_in_cells(g, lcs.drop_last(), j);
        assert(lcs.drop_last()[j] == lcs[j]);
    }
}

/// Conversely, every indexed cell is a corner of some leaf.
proof fn lemma_cells_are_corners(g: int, lcs: Seq<TriCorners>, k: int)
    requires
        0 <= k < mesh_cells(g, lcs).len(),
    ensures
        exists|j: int|
            0 <= j < lcs.len() && is_corner_cell(g, #[trigger] lcs[j], mesh_cells(g, lcs)[k]),
    decreases lcs.len(),
{
    let cells = mesh_cells(g, lcs);
    let prev = mesh_cells(g, lcs.drop_last());
    let t = lcs.last();
    let acc1 = add_cell(prev, cell_of(g, t.ax, t.ay));
    let acc2 = add_cell(acc1, cell_of(g, t.bx, t.by));
    lemma_add_cell_grows(prev, cell_of(g, t.ax, t.ay));
    lemma_add_cell_grows(acc1, cell_of(g, t.bx, t.by));
    lemma_add_cell_grows(acc2, cell_of(g, t.cx, t.cy));
    if k < prev.len() {
        lemma_cells_are_corners(g, lcs.drop_last(), k);
        let j = choose|j: int|
            0 <= j < lcs.drop_last().len() && is_corner_cell(
                g,
                #[trigger] lcs.drop_last()[j],
                prev[k],
            );
        assert(lcs[j] == lcs.drop_last()[j]);
        assert(cells[k] == prev[k]);
        assert(is_corner_cell(g, lcs[j], cells[k]));
    } else {
        assert(is_corner_cell(g, lcs[lcs.len() - 1], cells[k]));
    }
}

/// A grid cell index decomposes back into its coordinates.
proof fn lemma_cell_decompose(x: int, y: int, g: int)
    requires
        0 <= x < g,
        0 <= y < g,
    ensures
        cell_of(g, x, y) % g == x,
        cell_of(g, x, y) / g == y,
{
    assert(y * g + x == g * y + x) by (nonlinear_arith);
    vstd::arithmetic::div_mod::lemma_fundamental_div_mod_converse(y * g + x, g, y, x);
}

/// Every leaf the descent emits is itself in shape.
pub proof fn lemma_leaves_ok(errs: Seq<u64>, g: int, max_err: u64, t: TriCorners, j: int)
    requires
        desc_ok(t, g - 1),
        0 <= j < leaves_spec(errs, g, max_err, t).len(),
    ensures
        desc_ok(leaves_spec(errs, g, max_err, t)[j], g - 1),
    decreases tri_span(t), tri_rank(t),
{
    if tri_split(errs, g, max_err, t) {
        lemma_desc_children(t, g - 1, true);
        lemma_desc_children(t, g - 1, false);
        let l1 = leaves_spec(errs, g, max_err, step_tri(t, true));
        let l2 = leaves_spec(errs, g, max_err, step_tri(t, false));
        if j < l1.len() {
            lemma_leaves_ok(errs, g, max_err, step_tri(t, true), j);
        } else {
            lemma_leaves_ok(errs, g, max_err, step_tri(t, false), j - l1.len());
        }
    }
}

/// Counting pass: walks the leaves in order and assigns each distinct corner
/// cell the next vertex index on first sight. Returns the index array and
/// the number of vertices.
#[verifier::rlimit(50)]
fn assign_vertex_ids(leaves: &Vec<MeshTri>, g: usize) -> (r: (Vec<u32>, usize))
    requires
        valid_grid_size(g as int),
        forall|j: int|
            0 <= j < leaves@.len() ==> desc_ok(#[trigger] leaves@[j].corners(), g - 1),
    ensures
        ({
            let cells = mesh_cells(g as int, leaves@.map_values(|t: MeshTri| t.corners()));
            &&& ids_match(r.0@, cells, g as int)
            &&& r.1 == cells.len()
        }),
{
    let ghost gi = g as int;
    let ghost lcs = leaves@.map_values(|t: MeshTri| t.corners());
    assert(g * g <= 4097 * 4097) by (nonlinear_arith)
        requires
            g <= 4097,
    ;
    let gg = g * g;
    let mut ids: Vec<u32> = Vec::new();
    let mut n: usize = 0;
    while n < gg
        invariant
            n <= gg,
            ids@.len() == n,
            forall|ci: int| 0 <= ci < n ==> #[trigger] ids@[ci] == 0u32,
        decreases gg - n,
    {
        ids.push(0);
        n = n + 1;
    }
    proof {
        lemma_ids_match_empty(ids@, gi);
        assert(lcs.subrange(0, 0) =~= Seq::<TriCorners>::empty());
        assert(mesh_cells(gi, lcs.subrange(0, 0)) =~= Seq::<int>::empty());
    }

    let mut num_vertices: usize = 0;
    let mut li: usize = 0;
    while li < leaves.len()
        invariant
            valid_grid_size(gi),
            gi == g as int,
            gg == g * g,
            g * g <= 4097 * 4097,
            lcs == leaves@.map_values(|t: MeshTri| t.corners()),
            forall|j: int|
                0 <= j < leaves@.len() ==> desc_ok(#[trigger] leaves@[j].corners(), g - 1),
            li <= leaves@.len(),
            ids@.len() == gg,
            ids_match(ids@, mesh_cells(gi, lcs.subrange(0, li as int)), gi),
            num_vertices == mesh_cells(gi, lcs.subrange(0, li as int)).len(),
        decreases leaves@.len() - li,
    {
        let t = leaves[li];
        let ghost tc = t.corners();
        let ghost cells0 = mesh_cells(gi, lcs.subrange(0, li as int));
        proof {
            assert(desc_ok(tc, g - 1));
            crate::errormap::lemma_grid_index(tc.ax, tc.ay, gi);
            crate::errormap::lemma_grid_index(tc.bx, tc.by, gi);
            crate::errormap::lemma_grid_index(tc.cx, tc.cy, gi);
        }

        let ca = t.ay * g + t.ax;
        proof {
            lemma_distinct_bounded(cells0, gi * gi);
            lemma_ids_match_step(ids@, cells0, gi, ca as int);
        }
        if ids[ca] == 0 {
            num_vertices = num_vertices + 1;
            ids.set(ca, num_vertices as u32);
        }
        let ghost cells1 = add_cell(cells0, ca as int);
        proof {
            assert(ids_match(ids@, cells1, gi));
            assert(num_vertices == cells1.len());
        }

        let cb = t.by * g + t.bx;
        proof {
            lemma_distinct_bounded(cells1, gi * gi);
            lemma_ids_match_step(ids@, cells1, gi, cb as int);
        }
        if ids[cb] == 0 {
            num_vertices = num_vertices + 1;
            ids.set(cb, num_vertices as u32);
        }
        let ghost cells2 = add_cell(cells1, cb as int);
        proof {
            assert(ids_match(ids@, cells2, gi));
            assert(num_vertices == cells2.len());
        }

        let cc = t.cy * g + t.cx;
        proof {
            lemma_distinct_bounded(cells2, gi * gi);
            lemma_ids_match_step(ids@, cells2, gi, cc as int);
        }
        if ids[cc] == 0 {
            num_vertices = num_vertices + 1;
            ids.set(cc, num_vertices as u32);
        }
        let ghost cells3 = add_cell(cells2, cc as int);
        proof {
            assert(ids_match(ids@, cells3, gi));
            assert(num_vertices == cells3.len());
            let pre = lcs.subrange(0, li + 1);
            assert(pre.drop_last() =~= lcs.subrange(0, li as int));
            assert(pre.last() == tc);
            assert(mesh_cells(gi, pre) == add_tri_cells(cells0, gi, tc));
            assert(cells3 == add_tri_cells(cells0, gi, tc));
        }
        li = li + 1;
    }
    proof {
        assert(lcs.subrange(0, leaves@.len() as int) =~= lcs);
    }
    (ids, num_vertices)
}


/// One mesh vertex: grid position `x`/`z` and the sampled height.
#[derive(Clone, Copy, PartialEq, Eq, Structural, Debug)]
pub struct MeshVertex {
    pub x: usize,
    pub height: i32,
    pub z: usize,
}

/// The vertex that cell `ci` produces: its grid coordinates and height.
pub open spec fn vertex_for(terrain: Seq<i32>, g: int, ci: int) -> MeshVertex {
    MeshVertex { x: (ci % g) as usize, height: terrain[ci], z: (ci / g) as usize }
}

/// Some leaf among the first `jn` has `ci` as a corner cell.
pub open spec fn corner_seen(g: int, lcs: Seq<TriCorners>, jn: int, ci: int) -> bool {
    exists|jj: int| 0 <= jj < jn && is_corner_cell(g, #[trigger] lcs[jj], ci)
}

/// Building pass: fills the pre-sized vertex buffer and the flat index list
/// from the leaves, reusing the vertex indices of the counting pass.
#[verifier::rlimit(100)]
fn build_buffers(
    leaves: &Vec<MeshTri>,
    terrain: &Vec<i32>,
    ids: &Vec<u32>,
    num_vertices: usize,
    g: usize,
) -> (r: (Vec<MeshVertex>, Vec<u32>))
    requires
        valid_grid_size(g as int),
        terrain@.len() == g * g,
        forall|j: int|
            0 <= j < leaves@.len() ==> desc_ok(#[trigger] leaves@[j].corners(), g - 1),
        ids_match(ids@, mesh_cells(g as int, leaves@.map_values(|t: MeshTri| t.corners())), g as int),
        num_vertices == mesh_cells(g as int, leaves@.map_values(|t: MeshTri| t.corners())).len(),
    ensures
        ({
            let lcs = leaves@.map_values(|t: MeshTri| t.corners());
            let cells = mesh_cells(g as int, lcs);
            &&& r.0@.len() == cells.len()
            &&& r.1@.len() == 3 * lcs.len()
            &&& forall|k: int|
                0 <= k < cells.len() ==> #[trigger] r.0@[k] == vertex_for(
                    terrain@,
                    g as int,
                    cells[k],
                )
            &&& forall|j: int|
                0 <= j < lcs.len() ==> {
                    &&& #[trigger] r.1@[3 * j] < cells.len()
                    &&& r.1@[3 * j + 1] < cells.len()
                    &&& r.1@[3 * j + 2] < cells.len()
                    &&& cells[r.1@[3 * j] as int] == cell_of(g as int, lcs[j].ax, lcs[j].ay)
                    &&& cells[r.1@[3 * j + 1] as int] == cell_of(g as int, lcs[j].bx, lcs[j].by)
                    &&& cells[r.1@[3 * j + 2] as int] == cell_of(g as int, lcs[j].cx, lcs[j].cy)
                }
            &&& forall|k: int| 0 <= k < cells.len() ==> #[trigger] r.1@.contains(k as u32)
        }),
{
    let ghost gi = g as int;
    let ghost lcs = leaves@.map_values(|t: MeshTri| t.corners());
    let ghost cells = mesh_cells(gi, lcs);
    assert(g * g <= 4097 * 4097) by (nonlinear_arith)
        requires
            g <= 4097,
    ;
    proof {
        lemma_distinct_bounded(cells, gi * gi);
    }

    let mut vertices: Vec<MeshVertex> = Vec::new();
    let mut n: usize = 0;
    while n < num_vertices
        invariant
            n <= num_vertices,
            vertices@.len() == n,
        decreases num_vertices - n,
    {
        vertices.push(MeshVertex { x: 0, height: 0, z: 0 });
        n = n + 1;
    }

    let mut indices: Vec<u32> = Vec::new();
    let mut li: usize = 0;
    while li < leaves.len()
        invariant
            valid_grid_size(gi),
            gi == g as int,
            g * g <= 4097 * 4097,
            lcs == leaves@.map_values(|t: MeshTri| t.corners()),
            cells == mesh_cells(gi, lcs),
            cells.len() <= gi * gi,
            forall|j: int|
                0 <= j < leaves@.len() ==> desc_ok(#[trigger] leaves@[j].corners(), g - 1),
            terrain@.len() == g * g,
            ids_match(ids@, cells, gi),
            num_vertices == cells.len(),
            li <= leaves@.len(),
            vertices@.len() == num_vertices,
            indices@.len() == 3 * li,
            forall|j: int|
                0 <= j < li ==> {
                    &&& #[trigger] indices@[3 * j] < cells.len()
                    &&& indices@[3 * j + 1] < cells.len()
                    &&& indices@[3 * j + 2] < cells.len()
                    &&& cells[indices@[3 * j] as int] == cell_of(gi, lcs[j].ax, lcs[j].ay)
                    &&& cells[indices@[3 * j + 1] as int] == cell_of(gi, lcs[j].bx, lcs[j].by)
                    &&& cells[indices@[3 * j + 2] as int] == cell_of(gi, lcs[j].cx, lcs[j].cy)
                },
            forall|k: int|
                0 <= k < cells.len() && corner_seen(gi, lcs, li as int, #[trigger] cells[k]) ==> {
                    &&& vertices@[k] == vertex_for(terrain@, gi, cells[k])
                    &&& indices@.contains(k as u32)
                },
        decreases leaves@.len() - li,
    {
        let t = leaves[li];
        let ghost tc = t.corners();
        proof {
            assert(desc_ok(tc, g - 1));
            crate::errormap::lemma_grid_index(tc.ax, tc.ay, gi);
            crate::errormap::lemma_grid_index(tc.bx, tc.by, gi);
            crate::errormap::lemma_grid_index(tc.cx, tc.cy, gi);
            assert(lcs.subrange(0, leaves@.len() as int) =~= lcs);
            lemma_corners_in_cells(gi, lcs, li as int);
            lemma_cell_decompose(tc.ax, tc.ay, gi);
            lemma_cell_decompose(tc.bx, tc.by, gi);
            lemma_cell_decompose(tc.cx, tc.cy, gi);
        }
        let ghost ind0 = indices@;
        let ghost verts0 = vertices@;

        let ca = t.ay * g + t.ax;
        let va = ids[ca] as usize;
        proof {
            assert(cells.contains(ca as int));
            assert(ids@[ca as int] != 0);
        }
        vertices.set(va - 1, MeshVertex { x: t.ax, height: terrain[ca], z: t.ay });
        indices.push((va - 1) as u32);

        let cb = t.by * g + t.bx;
        let vb = ids[cb] as usize;
        proof {
            assert(cells.contains(cb as int));
            assert(ids@[cb as int] != 0);
        }
        vertices.set(vb - 1, MeshVertex { x: t.bx, height: terrain[cb], z: t.by });
        indices.push((vb - 1) as u32);

        let cc = t.cy * g + t.cx;
        let vc = ids[cc] as usize;
        proof {
            assert(cells.contains(cc as int));
            assert(ids@[cc as int] != 0);
        }
        vertices.set(vc - 1, MeshVertex { x: t.cx, height: terrain[cc], z: t.cy });
        indices.push((vc - 1) as u32);

        proof {
            assert(cells[va - 1] == ca as int);
            assert(cells[vb - 1] == cb as int);
            assert(cells[vc - 1] == cc as int);
            assert(vertices@[va - 1] == vertex_for(terrain@, gi, ca as int));
            assert(vertices@[vb - 1] == vertex_for(terrain@, gi, cb as int));
            assert(vertices@[vc - 1] == vertex_for(terrain@, gi, cc as int));
            assert(indices@ == ind0.push((va - 1) as u32).push((vb - 1) as u32).push(
                (vc - 1) as u32,
            ));
            assert(1 <= va <= cells.len() && 1 <= vb <= cells.len() && 1 <= vc <= cells.len());
            assert(indices@[3 * li as int] == (va - 1) as u32);
            assert(indices@[3 * li as int + 1] == (vb - 1) as u32);
            assert(indices@[3 * li as int + 2] == (vc - 1) as u32);
            assert(indices@[3 * li as int] as int == va - 1);
            assert(indices@[3 * li as int + 1] as int == vb - 1);
            assert(indices@[3 * li as int + 2] as int == vc - 1);
            assert(lcs[li as int] == tc);
            assert(cells[indices@[3 * li as int] as int] == cell_of(gi, lcs[li as int].ax,
                lcs[li as int].ay));
            assert(cells[indices@[3 * li as int + 1] as int] == cell_of(gi, lcs[li as int].bx,
                lcs[li as int].by));
            assert(cells[indices@[3 * li as int + 2] as int] == cell_of(gi, lcs[li as int].cx,
                lcs[li as int].cy));
            assert forall|j: int| 0 <= j < li + 1 implies {
                &&& #[trigger] indices@[3 * j] < cells.len()
                &&& indices@[3 * j + 1] < cells.len()
                &&& indices@[3 * j + 2] < cells.len()
                &&& cells[indices@[3 * j] as int] == cell_of(gi, lcs[j].ax, lcs[j].ay)
                &&& cells[indices@[3 * j + 1] as int] == cell_of(gi, lcs[j].bx, lcs[j].by)
                &&& cells[indices@[3 * j + 2] as int] == cell_of(gi, lcs[j].cx, lcs[j].cy)
            } by {
                if j < li {
                    assert(3 * j + 2 < ind0.len());
                    assert(indices@[3 * j] == ind0[3 * j]);
                    assert(indices@[3 * j + 1] == ind0[3 * j + 1]);
                    assert(indices@[3 * j + 2] == ind0[3 * j + 2]);
                } else {
                    assert(3 * j == 3 * li as int);
                    assert(indices@[3 * j] == (va - 1) as u32);
                    assert(indices@[3 * j + 1] == (vb - 1) as u32);
                    assert(indices@[3 * j + 2] == (vc - 1) as u32);
                    assert(lcs[j] == tc);
                }
            }
            assert forall|k: int|
                0 <= k < cells.len() && corner_seen(gi, lcs, li + 1, #[trigger] cells[k]) implies {
                    &&& vertices@[k] == vertex_for(terrain@, gi, cells[k])
                    &&& indices@.contains(k as u32)
                } by {
                let jj = choose|jj: int|
                    0 <= jj < li + 1 && is_corner_cell(gi, #[trigger] lcs[jj], cells[k]);
                if cells[k] == ca as int || cells[k] == cb as int || cells[k] == cc as int {
                    if cells[k] == cc as int {
                        assert(k == vc - 1);
                        assert(indices@[3 * li as int + 2] == k as u32);
                    } else if cells[k] == cb as int {
                        assert(k == vb - 1);
                        if k != vc - 1 {
                            assert(vertices@[k] == vertex_for(terrain@, gi, cells[k]));
                        }
                        assert(indices@[3 * li as int + 1] == k as u32);
                    } else {
                        assert(k == va - 1);
                        if k != vc - 1 && k != vb - 1 {
                            assert(vertices@[k] == vertex_for(terrain@, gi, cells[k]));
                        }
                        assert(indices@[3 * li as int] == k as u32);
                    }
                } else {
                    assert(jj < li);
                    assert(corner_seen(gi, lcs, li as int, cells[k]));
                    assert(verts0[k] == vertex_for(terrain@, gi, cells[k]));
                    assert(k != va - 1 && k != vb - 1 && k != vc - 1);
                    assert(vertices@[k] == verts0[k]);
                    let ki = choose|ki: int| 0 <= ki < ind0.len() && ind0[ki] == k as u32;
                    assert(indices@[ki] == k as u32);
                }
            }
        }
        li = li + 1;
    }
    proof {
        assert forall|k: int| 0 <= k < cells.len() implies #[trigger] vertices@[k] == vertex_for(
            terrain@,
            gi,
            cells[k],
        ) by {
            lemma_cells_are_corners(gi, lcs, k);
            assert(corner_seen(gi, lcs, lcs.len() as int, cells[k]));
        }
        assert forall|k: int| 0 <= k < cells.len() implies #[trigger] indices@.contains(
            k as u32,
        ) by {
            lemma_cells_are_corners(gi, lcs, k);
            assert(corner_seen(gi, lcs, lcs.len() as int, cells[k]));
        }
    }
    (vertices, indices)
}


/// The two root triangles covering the whole tile: the halves of the square
/// on either side of the main diagonal.
pub open spec fn root_lower(s: int) -> TriCorners {
    crate::rtin::seed_tri(3, s)
}

pub open spec fn root_upper(s: int) -> TriCorners {
    crate::rtin::seed_tri(2, s)
}

/// The full leaf list of one extraction: the lower root's leaves followed by
/// the upper root's.
pub open spec fn extraction_leaves(errs: Seq<u64>, g: int, max_err: u64) -> Seq<TriCorners> {
    leaves_spec(errs, g, max_err, root_lower(g - 1)) + leaves_spec(
        errs,
        g,
        max_err,
        root_upper(g - 1),
    )
}

/// The root triangles are in shape for any valid grid size.
pub proof fn lemma_roots_ok(g: int)
    requires
        valid_grid_size(g),
    ensures
        desc_ok(root_lower(g - 1), g - 1),
        desc_ok(root_upper(g - 1), g - 1),
        tri_span(root_lower(g - 1)) == g - 1,
        tri_span(root_upper(g - 1)) == g - 1,
{
    let s = g - 1;
    assert(crate::rtin::lg(s) >= 1) by {
        assert(s >= 2);
    }
    crate::rtin::lemma_lg_pow2(s);
    crate::rtin::lemma_walk_shape(3, 0, s);
    crate::rtin::lemma_walk_shape(2, 0, s);
    assert(crate::rtin::walk_tri(3, 0, s) == root_lower(s));
    assert(crate::rtin::walk_tri(2, 0, s) == root_upper(s));
    assert(shape_a(root_lower(s), s, s));
    assert(shape_a(root_upper(s), s, s));
}

/// A simplified triangle mesh: vertex positions and a flat triangle index
/// list, three entries per triangle. Texture coordinates and normals are the
/// renderer adapter's business; the grid coordinates in each vertex carry
/// everything it needs.
pub struct MeshData {
    /// One entry per distinct leaf corner cell, in first-use order.
    pub vertices: Vec<MeshVertex>,
    /// Vertex indices, one triple `a`, `b`, `c` per emitted leaf triangle.
    pub indices: Vec<u32>,
}

/// Everything an extraction promises of its output: both buffer lengths
/// match the leaf descent, every vertex carries the grid position and height
/// of its first-use cell, every index triple names its leaf's corners, and
/// every vertex slot is referenced.
pub open spec fn mesh_pinned(
    m: MeshData,
    terrain: Seq<i32>,
    g: int,
    errs: Seq<u64>,
    max_err: u64,
) -> bool {
    let leaves = extraction_leaves(errs, g, max_err);
    let cells = mesh_cells(g, leaves);
    &&& m.vertices@.len() == cells.len()
    &&& m.indices@.len() == 3 * leaves.len()
    &&& cells.no_duplicates()
    &&& forall|k: int|
        0 <= k < cells.len() ==> #[trigger] m.vertices@[k] == vertex_for(terrain, g, cells[k])
    &&& forall|j: int|
        0 <= j < leaves.len() ==> {
            &&& #[trigger] m.indices@[3 * j] < cells.len()
            &&& m.indices@[3 * j + 1] < cells.len()
            &&& m.indices@[3 * j + 2] < cells.len()
            &&& cells[m.indices@[3 * j] as int] == cell_of(g, leaves[j].ax, leaves[j].ay)
            &&& cells[m.indices@[3 * j + 1] as int] == cell_of(g, leaves[j].bx, leaves[j].by)
            &&& cells[m.indices@[3 * j + 2] as int] == cell_of(g, leaves[j].cx, leaves[j].cy)
        }
    &&& forall|k: int| 0 <= k < cells.len() ==> #[trigger] m.indices@.contains(k as u32)
}

impl Tile {
    /// The leaf triangles an extraction with threshold `max_error` emits.
    pub open spec fn spec_leaves(&self, max_error: u64) -> Seq<TriCorners> {
        extraction_leaves(self.errors@, self.size as int, max_error)
    }

    /// Extracts the simplified mesh for this tile: every leaf triangle whose
    /// aggregated midpoint error is at most `max_error` (in half height
    /// units), with vertices numbered in first-use order.
    pub fn generate_mesh_data(&self, max_error: u64) -> (r: MeshData)
        requires
            self.wf(),
        ensures
            mesh_pinned(r, self.terrain@, self.size as int, self.errors@, max_error),
    {
        let g = self.size;
        let s = g - 1;
        let ghost gi = g as int;
        let root1 = MeshTri { ax: 0, ay: 0, bx: s, by: s, cx: s, cy: 0 };
        let root2 = MeshTri { ax: s, ay: s, bx: 0, by: 0, cx: 0, cy: s };
        proof {
            lemma_roots_ok(gi);
            assert(root1.corners() == root_lower(gi - 1));
            assert(root2.corners() == root_upper(gi - 1));
        }
        let mut leaves: Vec<MeshTri> = Vec::new();
        collect_leaves(&self.errors, g, max_error, root1, &mut leaves);
        let ghost n1 = leaves@.len() as int;
        let ghost mid = leaves@;
        collect_leaves(&self.errors, g, max_error, root2, &mut leaves);
        let ghost lv = self.spec_leaves(max_error);
        let ghost l1 = leaves_spec(self.errors@, gi, max_error, root_lower(gi - 1));
        let ghost l2 = leaves_spec(self.errors@, gi, max_error, root_upper(gi - 1));
        proof {
            assert(lv == l1 + l2);
            assert forall|j: int| 0 <= j < leaves@.len() implies #[trigger] leaves@[j].corners()
                == lv[j] by {
                if j < n1 {
                    assert(leaves@[j] == mid[j]);
                    assert(mid[j].corners() == l1[j]);
                    assert(lv[j] == l1[j]);
                } else {
                    assert(leaves@[j].corners() == l2[j - n1]);
                    assert(lv[j] == l2[j - n1]);
                }
            }
            assert forall|j: int| 0 <= j < leaves@.len() implies desc_ok(
                #[trigger] leaves@[j].corners(),
                g - 1,
            ) by {
                if j < n1 {
                    lemma_leaves_ok(self.errors@, gi, max_error, root_lower(gi - 1), j);
                } else {
                    lemma_leaves_ok(self.errors@, gi, max_error, root_upper(gi - 1), j - n1);
                }
            }
            assert(leaves@.map_values(|t: MeshTri| t.corners()) =~= lv);
        }
        let (ids, num_vertices) = assign_vertex_ids(&leaves, g);
        let (vertices, indices) = build_buffers(&leaves, &self.terrain, &ids, num_vertices, g);
        MeshData { vertices, indices }
    }
}


/// When the aggregated error at the tile center is within the threshold —
/// in particular for any threshold on a flat heightfield — the extraction
/// stops at the two root triangles: two leaves, and exactly the four tile
/// corners as vertices.
pub proof fn lemma_coarsest_mesh(errs: Seq<u64>, g: int, max_err: u64)
    requires
        valid_grid_size(g),
        errs.len() == g * g,
        errs[mid_index(g, root_lower(g - 1))] <= max_err,
    ensures
        extraction_leaves(errs, g, max_err) =~= seq![root_lower(g - 1), root_upper(g - 1)],
        mesh_cells(g, extraction_leaves(errs, g, max_err)) =~= seq![
            0int,
            (g - 1) * g + (g - 1),
            g - 1,
            (g - 1) * g,
        ],
{
    let s = g - 1;
    lemma_roots_ok(g);
    let r1 = root_lower(s);
    let r2 = root_upper(s);
    assert(mid_index(g, r2) == mid_index(g, r1));
    assert(!tri_split(errs, g, max_err, r1));
    assert(!tri_split(errs, g, max_err, r2));
    let leaves = extraction_leaves(errs, g, max_err);
    assert(leaves_spec(errs, g, max_err, r1) == seq![r1]);
    assert(leaves_spec(errs, g, max_err, r2) == seq![r2]);
    assert(leaves =~= seq![r1, r2]);

    reveal_with_fuel(mesh_cells, 4);
    let two = seq![r1, r2];
    let one = seq![r1];
    assert(two.drop_last() =~= one);
    assert(one.drop_last() =~= Seq::<TriCorners>::empty());
    let c00 = cell_of(g, 0, 0);
    let css = cell_of(g, s, s);
    let cs0 = cell_of(g, s, 0);
    let c0s = cell_of(g, 0, s);
    assert(c00 == 0 && css == s * g + s && cs0 == s && c0s == s * g);
    assert(s * g >= 2 * s) by (nonlinear_arith)
        requires
            s >= 0,
            g >= 2,
    ;
    let e0 = Seq::<int>::empty();
    let a1 = add_cell(e0, c00);
    assert(!e0.contains(c00));
    assert(a1 =~= seq![c00]);
    let a2 = add_cell(a1, css);
    assert(!a1.contains(css)) by {
        if a1.contains(css) {
            let k = choose|k: int| 0 <= k < a1.len() && a1[k] == css;
        }
    }
    assert(a2 =~= seq![c00, css]);
    let a3 = add_cell(a2, cs0);
    assert(!a2.contains(cs0)) by {
        if a2.contains(cs0) {
            let k = choose|k: int| 0 <= k < a2.len() && a2[k] == cs0;
        }
    }
    assert(a3 =~= seq![c00, css, cs0]);
    assert(mesh_cells(g, one) == add_tri_cells(e0, g, r1));
    assert(mesh_cells(g, one) =~= seq![c00, css, cs0]);

    let m1 = mesh_cells(g, one);
    let b1 = add_cell(m1, css);
    assert(m1.contains(css)) by {
        assert(m1[1] == css);
    }
    assert(b1 =~= m1);
    let b2 = add_cell(b1, c00);
    assert(b1.contains(c00)) by {
        assert(b1[0] == c00);
    }
    assert(b2 =~= m1);
    let b3 = add_cell(b2, c0s);
    assert(!b2.contains(c0s)) by {
        if b2.contains(c0s) {
            let k = choose|k: int| 0 <= k < b2.len() && b2[k] == c0s;
        }
    }
    assert(b3 =~= seq![c00, css, cs0, c0s]);
    assert(mesh_cells(g, two) == add_tri_cells(m1, g, r2));
    assert(mesh_cells(g, two) =~= seq![c00, css, cs0, c0s]);
    assert(mesh_cells(g, leaves) =~= seq![0int, s * g + s, s, s * g]);
}

/// On a constant heightfield every threshold yields the coarsest mesh: two
/// root triangles over the four tile corners, all at the constant height.
pub proof fn lemma_flat_terrain_mesh(
    terrain: Seq<i32>,
    g: int,
    n_tri: int,
    n_par: int,
    errs: Seq<u64>,
    max_err: u64,
    h0: i32,
)
    requires
        valid_grid_size(g),
        terrain.len() == g * g,
        forall|ci: int| 0 <= ci < terrain.len() ==> #[trigger] terrain[ci] == h0,
        n_tri == (g - 1) * (g - 1) * 2 - 2,
        errs.len() == g * g,
        forall|ci: int|
            0 <= ci < errs.len() ==> #[trigger] errs[ci] as int == crate::errormap::error_map_spec(
                terrain,
                g,
                n_tri,
                n_par,
            )[ci],
    ensures
        extraction_leaves(errs, g, max_err) =~= seq![root_lower(g - 1), root_upper(g - 1)],
        mesh_cells(g, extraction_leaves(errs, g, max_err)) =~= seq![
            0int,
            (g - 1) * g + (g - 1),
            g - 1,
            (g - 1) * g,
        ],
        forall|k: int|
            0 <= k < 4 ==> #[trigger] vertex_for(
                terrain,
                g,
                mesh_cells(g, extraction_leaves(errs, g, max_err))[k],
            ).height == h0,
{
    let s = g - 1;
    crate::errormap::lemma_flat_error_map(terrain, g, n_tri, n_par, h0, 0);
    lemma_roots_ok(g);
    assert(0 <= mid_index(g, root_lower(s)) < g * g) by {
        crate::errormap::lemma_grid_index(s / 2, s / 2, g);
        assert(mid_index(g, root_lower(s)) == (s / 2) * g + s / 2);
    }
    assert(errs[mid_index(g, root_lower(s))] == 0);
    lemma_coarsest_mesh(errs, g, max_err);
    let cells = mesh_cells(g, extraction_leaves(errs, g, max_err));
    assert forall|k: int| 0 <= k < 4 implies #[trigger] vertex_for(terrain, g, cells[k]).height
        == h0 by {
        assert(s * g >= 0) by (nonlinear_arith)
            requires
                s >= 0,
                g >= 0,
        ;
        assert(s * g + s < g * g && s * g < g * g) by {
            crate::errormap::lemma_grid_index(s, s, g);
            crate::errormap::lemma_grid_index(0, s, g);
        }
        assert(0 <= cells[k] < g * g);
    }
}


/// When the aggregated error exceeds the threshold everywhere, the descent
/// below a triangle refines all the way down: a diagonal-hypotenuse
/// triangle of span `h` yields `h * h` half-cell leaves, an axis-hypotenuse
/// one half as many.
pub proof fn lemma_full_resolution(errs: Seq<u64>, g: int, max_err: u64, t: TriCorners)
    requires
        g >= 2,
        errs.len() == g * g,
        desc_ok(t, g - 1),
        forall|ci: int| 0 <= ci < errs.len() ==> #[trigger] errs[ci] > max_err,
    ensures
        tri_rank(t) == 1 ==> leaves_spec(errs, g, max_err, t).len() == tri_span(t) * tri_span(t),
        tri_rank(t) == 0 ==> 2 * leaves_spec(errs, g, max_err, t).len() == tri_span(t) * tri_span(
            t,
        ),
    decreases tri_span(t), tri_rank(t),
{
    let h = tri_span(t);
    let mx = (t.ax + t.bx) / 2;
    let my = (t.ay + t.by) / 2;
    if h > 1 {
        assert(0 <= my * g + mx < g * g) by {
            crate::errormap::lemma_grid_index(mx, my, g);
        }
        assert(tri_split(errs, g, max_err, t));
        lemma_desc_children(t, g - 1, true);
        lemma_desc_children(t, g - 1, false);
        lemma_full_resolution(errs, g, max_err, step_tri(t, true));
        lemma_full_resolution(errs, g, max_err, step_tri(t, false));
        if tri_rank(t) == 1 {
            assert(shape_a(t, h, g - 1));
            crate::rtin::lemma_step_a_to_b(t, h, g - 1, true);
            crate::rtin::lemma_step_a_to_b(t, h, g - 1, false);
            assert(tri_span(step_tri(t, true)) == h && tri_rank(step_tri(t, true)) == 0);
            assert(tri_span(step_tri(t, false)) == h && tri_rank(step_tri(t, false)) == 0);
        } else {
            assert(shape_b(t, h, g - 1));
            if h >= 4 {
                crate::rtin::lemma_step_b_to_a(t, h, g - 1, true);
                crate::rtin::lemma_step_b_to_a(t, h, g - 1, false);
                assert(tri_span(step_tri(t, true)) == h / 2 && tri_rank(step_tri(t, true)) == 1);
                assert(tri_span(step_tri(t, false)) == h / 2 && tri_rank(step_tri(t, false))
                    == 1);
                assert(2 * ((h / 2) * (h / 2) + (h / 2) * (h / 2)) == h * h) by (nonlinear_arith)
                    requires
                        h % 2 == 0,
                ;
            } else {
                assert(tri_span(step_tri(t, true)) == 1 && tri_rank(step_tri(t, true)) == 1);
                assert(tri_span(step_tri(t, false)) == 1 && tri_rank(step_tri(t, false)) == 1);
            }
        }
    } else {
        assert(shape_a1(t, g - 1));
        assert(h == 1);
        assert(tri_rank(t) == 1);
        assert(leaves_spec(errs, g, max_err, t) == seq![t]);
    }
}


/// When every cell's aggregated error exceeds the threshold — as a zero
/// threshold on terrain with detail everywhere — the extraction produces
/// the maximum-resolution mesh: one leaf triangle per half grid cell.
pub proof fn lemma_full_resolution_extraction(errs: Seq<u64>, g: int, max_err: u64)
    requires
        valid_grid_size(g),
        errs.len() == g * g,
        forall|ci: int| 0 <= ci < errs.len() ==> #[trigger] errs[ci] > max_err,
    ensures
        extraction_leaves(errs, g, max_err).len() == 2 * ((g - 1) * (g - 1)),
{
    let s = g - 1;
    lemma_roots_ok(g);
    assert(tri_rank(root_lower(s)) == 1 && tri_rank(root_upper(s)) == 1);
    lemma_full_resolution(errs, g, max_err, root_lower(s));
    lemma_full_resolution(errs, g, max_err, root_upper(s));
}

} // verus!
