//! Chunk streaming around a moving viewpoint.
//!
//! The viewpoint's world position maps to a chunk coordinate; the window of
//! all coordinates within a Chebyshev radius of it is the set of chunks that
//! should exist. The controller tracks the lifecycle of every requested
//! chunk — queued, generating, resident — hands out the coordinates whose
//! generation must start, and names resident chunks that have left the
//! window as eviction candidates. It never blocks: background work happens
//! elsewhere and is reported back through [`ChunkStreamer::complete`].

use vstd::prelude::*;

use crate::errormap::abs_int;
use crate::errormap::max_int;

verus! {

/// Position of a tile in the infinite chunk grid.
#[derive(Clone, Copy, PartialEq, Eq, Structural, Debug, Hash)]
pub struct ChunkCoord {
    pub x: i32,
    pub y: i32,
}

/// Chebyshev distance between two chunk coordinates.
pub open spec fn chebyshev(a: ChunkCoord, b: ChunkCoord) -> int {
    max_int(abs_int(a.x - b.x), abs_int(a.y - b.y))
}

/// Lifecycle of one requested chunk; a coordinate the controller has never
/// seen is absent.
#[derive(Clone, Copy, PartialEq, Eq, Structural, Debug)]
pub enum ChunkState {
    /// Generation requested, job not yet started.
    Queued,
    /// A background job is producing the chunk.
    Generating,
    /// The chunk was handed to the host scene.
    Resident,
}

/// All coordinates within Chebyshev distance `radius` of `center`, row by
/// row. The result enumerates a `(2 * radius + 1)` square.
pub fn chunk_window(center: ChunkCoord, radius: u32) -> (r: Vec<ChunkCoord>)
    requires
        radius <= 1024,
        -1000000 <= center.x <= 1000000,
        -1000000 <= center.y <= 1000000,
    ensures
        ({
            let w = 2 * radius + 1;
            &&& r@.len() == w * w
            &&& forall|i: int|
                0 <= i < r@.len() ==> (#[trigger] r@[i]).x == center.x - radius + i / (w as int)
                    && r@[i].y == center.y - radius + i % (w as int)
            &&& forall|c: ChunkCoord| #[trigger]
                r@.contains(c) <==> chebyshev(c, center) <= radius
            &&& r@.no_duplicates()
        }),
{
    let w: u32 = 2 * radius + 1;
    let ghost wi = w as int;
    let mut out: Vec<ChunkCoord> = Vec::new();
    let mut nx: u32 = 0;
    assert(w * w <= 2049 * 2049) by (nonlinear_arith)
        requires
            w <= 2049,
    ;
    while nx < w
        invariant
            w == 2 * radius + 1,
            wi == w as int,
            w * w <= 2049 * 2049,
            radius <= 1024,
            -1000000 <= center.x <= 1000000,
            -1000000 <= center.y <= 1000000,
            nx <= w,
            out@.len() == nx * w,
            forall|i: int|
                0 <= i < out@.len() ==> (#[trigger] out@[i]).x == center.x - radius + i / wi
                    && out@[i].y == center.y - radius + i % wi,
        decreases w - nx,
    {
        let mut ny: u32 = 0;
        while ny < w
            invariant
                w == 2 * radius + 1,
                wi == w as int,
                w * w <= 2049 * 2049,
                radius <= 1024,
                -1000000 <= center.x <= 1000000,
                -1000000 <= center.y <= 1000000,
                nx < w,
                ny <= w,
                out@.len() == nx * w + ny,
                forall|i: int|
                    0 <= i < out@.len() ==> (#[trigger] out@[i]).x == center.x - radius + i / wi
                        && out@[i].y == center.y - radius + i % wi,
            decreases w - ny,
        {
            let cx = center.x - radius as i32 + nx as i32;
            let cy = center.y - radius as i32 + ny as i32;
            out.push(ChunkCoord { x: cx, y: cy });
            proof {
                let i = out@.len() - 1;
                assert(i == nx * w + ny);
                vstd::arithmetic::div_mod::lemma_fundamental_div_mod_converse(
                    i,
                    wi,
                    nx as int,
                    ny as int,
                );
                assert(i / wi == nx as int && i % wi == ny as int);
            }
            ny = ny + 1;
        }
        proof {
            assert((nx + 1) * w == nx * w + w) by (nonlinear_arith);
        }
        nx = nx + 1;
    }
    proof {
        lemma_window_chars(out@, center, radius as int);
    }
    out
}

/// From the positional layout of a window, its membership law and the
/// absence of duplicates.
proof fn lemma_window_chars(win: Seq<ChunkCoord>, center: ChunkCoord, radius: int)
    requires
        0 <= radius <= 1024,
        -1000000 <= center.x <= 1000000,
        -1000000 <= center.y <= 1000000,
        win.len() == (2 * radius + 1) * (2 * radius + 1),
        forall|i: int|
            0 <= i < win.len() ==> (#[trigger] win[i]).x == center.x - radius + i / (2 * radius
                + 1) && win[i].y == center.y - radius + i % (2 * radius + 1),
    ensures
        forall|c: ChunkCoord| #[trigger] win.contains(c) <==> chebyshev(c, center) <= radius,
        win.no_duplicates(),
{
    let w = 2 * radius + 1;
    assert forall|i: int| #![trigger win[i]] 0 <= i < win.len() implies 0 <= i / w <= 2 * radius
        && 0 <= i % w <= 2 * radius by {
        vstd::arithmetic::div_mod::lemma_fundamental_div_mod(i, w);
        assert(i / w >= 0) by (nonlinear_arith)
            requires
                i >= 0,
                w > 0,
        ;
        assert(i / w <= 2 * radius) by (nonlinear_arith)
            requires
                i < w * w,
                w == 2 * radius + 1,
                w > 0,
                i == w * (i / w) + i % w,
                0 <= i % w < w,
        ;
    }
    assert forall|c: ChunkCoord| #[trigger] win.contains(c) implies chebyshev(c, center)
        <= radius by {
        let i = choose|i: int| 0 <= i < win.len() && win[i] == c;
    }
    assert forall|c: ChunkCoord| chebyshev(c, center) <= radius implies #[trigger] win.contains(
        c,
    ) by {
        let dx = c.x - center.x + radius;
        let dy = c.y - center.y + radius;
        let i = dx * w + dy;
        vstd::arithmetic::div_mod::lemma_fundamental_div_mod_converse(i, w, dx, dy);
        assert(0 <= i < win.len()) by (nonlinear_arith)
            requires
                0 <= dx <= 2 * radius,
                0 <= dy <= 2 * radius,
                w == 2 * radius + 1,
                i == dx * w + dy,
                win.len() == w * w,
        ;
        assert(win[i].x == c.x && win[i].y == c.y);
        assert(win[i] == c);
    }
    assert forall|i: int, j: int| 0 <= i < j < win.len() implies win[i] != win[j] by {
        if win[i] == win[j] {
            vstd::arithmetic::div_mod::lemma_fundamental_div_mod(i, w);
            vstd::arithmetic::div_mod::lemma_fundamental_div_mod(j, w);
            assert(i / w == j / w && i % w == j % w);
            assert(i == j) by (nonlinear_arith)
                requires
                    i == w * (i / w) + i % w,
                    j == w * (j / w) + j % w,
                    i / w == j / w,
                    i % w == j % w,
            ;
        }
    }
}

/// Maps a world position to its chunk coordinate: the position is shifted by
/// half a chunk, divided by the chunk size and floored; the depth axis is
/// negated, so that increasing world depth walks negative chunk rows.
pub fn viewpoint_chunk(x_w: i64, z_w: i64, chunk_size: i64) -> (r: ChunkCoord)
    requires
        1 <= chunk_size <= 0x8000_0000,
        -500000 * chunk_size <= x_w <= 500000 * chunk_size,
        -500000 * chunk_size <= z_w <= 500000 * chunk_size,
    ensures
        chunk_size * r.x <= x_w + chunk_size / 2 < chunk_size * (r.x + 1),
        chunk_size * (-r.y) <= z_w + chunk_size / 2 < chunk_size * (-r.y + 1),
        -1000000 <= r.x <= 1000000,
        -1000000 <= r.y <= 1000000,
{
    let half = chunk_size / 2;
    let qx = floor_div(x_w + half, chunk_size);
    let qz = floor_div(z_w + half, chunk_size);
    proof {
        lemma_floor_bounds(x_w as int + half, chunk_size as int, qx as int);
        lemma_floor_bounds(z_w as int + half, chunk_size as int, qz as int);
    }
    ChunkCoord { x: qx as i32, y: (-qz) as i32 }
}

/// Quotient rounded toward negative infinity.
fn floor_div(v: i64, d: i64) -> (q: i64)
    requires
        1 <= d <= 0x8000_0000,
        -0x4000_0000_0000_0000 <= v <= 0x4000_0000_0000_0000,
    ensures
        d * q <= v < d * (q + 1),
{
    let ghost di = d as int;
    if v >= 0 {
        let q = ((v as u64) / (d as u64)) as i64;
        proof {
            let vi = v as int;
            vstd::arithmetic::div_mod::lemma_fundamental_div_mod(vi, di);
            assert(q == vi / di);
            assert(di * (vi / di) <= vi < di * (vi / di + 1)) by (nonlinear_arith)
                requires
                    vi == di * (vi / di) + vi % di,
                    0 <= vi % di < di,
            ;
        }
        q
    } else {
        let u = (-v + d - 1) as u64;
        let q = -((u / (d as u64)) as i64);
        proof {
            let ui = u as int;
            vstd::arithmetic::div_mod::lemma_fundamental_div_mod(ui, di);
            assert(q == -(ui / di));
            assert(di * (-(ui / di)) <= v < di * (-(ui / di) + 1)) by (nonlinear_arith)
                requires
                    ui == di * (ui / di) + ui % di,
                    0 <= ui % di < di,
                    ui == -(v as int) + di - 1,
                    di >= 1,
            ;
        }
        q
    }
}

/// Bounded input yields a bounded chunk coordinate.
proof fn lemma_floor_bounds(v: int, d: int, q: int)
    requires
        1 <= d,
        -500000 * d <= v - d / 2,
        v - d / 2 <= 500000 * d,
        0 <= d / 2 < d,
        d * q <= v < d * (q + 1),
    ensures
        -1000000 <= q <= 1000000,
{
    assert(-1000000 <= q <= 1000000) by (nonlinear_arith)
        requires
            1 <= d,
            -500000 * d <= v - d / 2,
            v - d / 2 <= 500000 * d,
            0 <= d / 2 < d,
            d * q <= v < d * (q + 1),
    ;
}


/// State lookup in an entry list, scanned from the back.
pub open spec fn find_state(entries: Seq<(ChunkCoord, ChunkState)>, c: ChunkCoord) -> Option<
    ChunkState,
>
    decreases entries.len(),
{
    if entries.len() == 0 {
        Option::None
    } else if entries.last().0 == c {
        Option::Some(entries.last().1)
    } else {
        find_state(entries.drop_last(), c)
    }
}

/// Each coordinate appears at most once.
pub open spec fn entries_unique(entries: Seq<(ChunkCoord, ChunkState)>) -> bool {
    forall|i: int, j: int|
        0 <= i < j < entries.len() ==> (#[trigger] entries[i]).0 != (#[trigger] entries[j]).0
}

/// In a unique entry list, an entry determines the lookup result.
proof fn lemma_find_present(entries: Seq<(ChunkCoord, ChunkState)>, i: int)
    requires
        entries_unique(entries),
        0 <= i < entries.len(),
    ensures
        find_state(entries, entries[i].0) == Option::Some(entries[i].1),
    decreases entries.len(),
{
    if i < entries.len() - 1 {
        assert(entries.last().0 != entries[i].0);
        assert(entries.drop_last()[i] == entries[i]);
        lemma_find_present(entries.drop_last(), i);
    }
}

/// A coordinate on no entry has no state.
proof fn lemma_find_absent(entries: Seq<(ChunkCoord, ChunkState)>, c: ChunkCoord)
    requires
        forall|i: int| 0 <= i < entries.len() ==> (#[trigger] entries[i]).0 != c,
    ensures
        find_state(entries, c) == Option::<ChunkState>::None,
    decreases entries.len(),
{
    if entries.len() > 0 {
        lemma_find_absent(entries.drop_last(), c);
    }
}

/// Conversely, a state implies an entry.
proof fn lemma_find_some_has_entry(entries: Seq<(ChunkCoord, ChunkState)>, c: ChunkCoord)
    requires
        find_state(entries, c) is Some,
    ensures
        exists|i: int|
            0 <= i < entries.len() && (#[trigger] entries[i]).0 == c && entries[i].1
                == find_state(entries, c)->Some_0,
    decreases entries.len(),
{
    if entries.len() > 0 {
        if entries.last().0 == c {
            assert(entries[entries.len() - 1].0 == c);
        } else {
            lemma_find_some_has_entry(entries.drop_last(), c);
            let i = choose|i: int|
                0 <= i < entries.drop_last().len() && (#[trigger] entries.drop_last()[i]).0 == c
                    && entries.drop_last()[i].1 == find_state(entries.drop_last(), c)->Some_0;
            assert(entries[i] == entries.drop_last()[i]);
        }
    }
}

/// Replacing the state at entry `i` changes only that coordinate's lookup.
proof fn lemma_find_update(
    entries: Seq<(ChunkCoord, ChunkState)>,
    i: int,
    st: ChunkState,
    d: ChunkCoord,
)
    requires
        entries_unique(entries),
        0 <= i < entries.len(),
    ensures
        d == entries[i].0 ==> find_state(entries.update(i, (entries[i].0, st)), d)
            == Option::Some(st),
        d != entries[i].0 ==> find_state(entries.update(i, (entries[i].0, st)), d) == find_state(
            entries,
            d,
        ),
        entries_unique(entries.update(i, (entries[i].0, st))),
{
    let upd = entries.update(i, (entries[i].0, st));
    assert(entries_unique(upd)) by {
        assert forall|a: int, b: int| 0 <= a < b < upd.len() implies (#[trigger] upd[a]).0
            != (#[trigger] upd[b]).0 by {
            assert(upd[a].0 == entries[a].0 && upd[b].0 == entries[b].0);
        }
    }
    if d == entries[i].0 {
        assert(upd[i] == (entries[i].0, st));
        lemma_find_present(upd, i);
    } else {
        if find_state(entries, d) is Some {
            lemma_find_some_has_entry(entries, d);
            let k = choose|k: int|
                0 <= k < entries.len() && (#[trigger] entries[k]).0 == d && entries[k].1
                    == find_state(entries, d)->Some_0;
            assert(upd[k] == entries[k]);
            lemma_find_present(upd, k);
        } else {
            assert forall|k: int| 0 <= k < entries.len() implies (#[trigger] entries[k]).0
                != d by {
                if entries[k].0 == d {
                    lemma_find_present(entries, k);
                }
            }
            assert(forall|k: int| 0 <= k < upd.len() ==> (#[trigger] upd[k]).0 != d);
            lemma_find_absent(upd, d);
        }
    }
}

/// Streaming controller: decides which chunks to request, records their
/// lifecycle, and names eviction candidates. It performs no work itself;
/// the host runs the generation jobs and reports completions back.
pub struct ChunkStreamer {
    /// Chebyshev radius of the window of wanted chunks.
    pub view_radius: u32,
    /// Side length of one chunk in world units.
    pub chunk_size: i64,
    /// Chunk the viewpoint was last seen in.
    pub viewpoint: ChunkCoord,
    /// Whether a viewpoint was ever registered; the first registration
    /// always computes a window.
    pub primed: bool,
    /// Lifecycle of every chunk requested so far.
    pub entries: Vec<(ChunkCoord, ChunkState)>,
}

impl ChunkStreamer {
    /// The recorded lifecycle state of `c`, if any.
    pub open spec fn spec_state(&self, c: ChunkCoord) -> Option<ChunkState> {
        find_state(self.entries@, c)
    }

    pub open spec fn wf(&self) -> bool {
        &&& entries_unique(self.entries@)
        &&& 1 <= self.chunk_size <= 0x8000_0000
        &&& self.view_radius <= 1024
        &&& -1000000 <= self.viewpoint.x <= 1000000
        &&& -1000000 <= self.viewpoint.y <= 1000000
    }

    /// A controller with no chunks and no registered viewpoint.
    pub fn new(view_radius: u32, chunk_size: i64) -> (r: ChunkStreamer)
        requires
            view_radius <= 1024,
            1 <= chunk_size <= 0x8000_0000,
        ensures
            r.wf(),
            r.view_radius == view_radius,
            r.chunk_size == chunk_size,
            !r.primed,
            forall|c: ChunkCoord| r.spec_state(c) == Option::<ChunkState>::None,
    {
        let r = ChunkStreamer {
            view_radius,
            chunk_size,
            viewpoint: ChunkCoord { x: 0, y: 0 },
            primed: false,
            entries: Vec::new(),
        };
        proof {
            assert forall|c: ChunkCoord| r.spec_state(c) == Option::<ChunkState>::None by {
                lemma_find_absent(r.entries@, c);
            }
        }
        r
    }

    /// Registers the viewpoint's chunk. When it differs from the last one
    /// (or none was ever registered), the window is recomputed and every
    /// window coordinate without a recorded state becomes `Queued`; the
    /// returned list holds exactly those coordinates, each once.
    pub fn update_viewpoint(&mut self, vp: ChunkCoord) -> (to_queue: Vec<ChunkCoord>)
        requires
            old(self).wf(),
            -1000000 <= vp.x <= 1000000,
            -1000000 <= vp.y <= 1000000,
        ensures
            final(self).wf(),
            final(self).view_radius == old(self).view_radius,
            final(self).chunk_size == old(self).chunk_size,
            final(self).viewpoint == vp,
            final(self).primed,
            old(self).primed && vp == old(self).viewpoint ==> final(self).entries@ == old(
                self,
            ).entries@ && to_queue@.len() == 0,
            !(old(self).primed && vp == old(self).viewpoint) ==> {
                &&& forall|c: ChunkCoord|
                    #[trigger] final(self).spec_state(c) == if chebyshev(c, vp) <= old(
                        self,
                    ).view_radius && old(self).spec_state(c) is None {
                        Option::Some(ChunkState::Queued)
                    } else {
                        old(self).spec_state(c)
                    }
                &&& forall|c: ChunkCoord|
                    #[trigger] to_queue@.contains(c) <==> (chebyshev(c, vp) <= old(
                        self,
                    ).view_radius && old(self).spec_state(c) is None)
                &&& to_queue@.no_duplicates()
            },
    {
        let ghost old_entries = self.entries@;
        if self.primed && vp.x == self.viewpoint.x && vp.y == self.viewpoint.y {
            self.viewpoint = vp;
            return Vec::new();
        }
        self.viewpoint = vp;
        self.primed = true;
        let window = chunk_window(vp, self.view_radius);
        let ghost rad = self.view_radius as int;
        let mut to_queue: Vec<ChunkCoord> = Vec::new();
        let mut wi: usize = 0;
        while wi < window.len()
            invariant
                self.wf(),
                self.view_radius == old(self).view_radius,
                self.chunk_size == old(self).chunk_size,
                self.viewpoint == vp,
                self.primed,
                rad == self.view_radius as int,
                wi <= window@.len(),
                forall|c: ChunkCoord| #[trigger]
                    window@.contains(c) <==> chebyshev(c, vp) <= rad,
                window@.no_duplicates(),
                forall|c: ChunkCoord|
                    #[trigger] find_state(self.entries@, c) == if window@.subrange(
                        0,
                        wi as int,
                    ).contains(c) && find_state(old_entries, c) is None {
                        Option::Some(ChunkState::Queued)
                    } else {
                        find_state(old_entries, c)
                    },
                forall|c: ChunkCoord|
                    #[trigger] to_queue@.contains(c) <==> (window@.subrange(0, wi as int).contains(
                        c,
                    ) && find_state(old_entries, c) is None),
                to_queue@.no_duplicates(),
            decreases window@.len() - wi,
        {
            let c0 = window[wi];
            let ghost pre = self.entries@;
            let ghost preq = to_queue@;
            let present = self.lookup(c0).is_some();
            if !present {
                self.entries.push((c0, ChunkState::Queued));
                to_queue.push(c0);
            }
            proof {
                let sub1 = window@.subrange(0, wi + 1);
                let sub0 = window@.subrange(0, wi as int);
                assert(sub1.drop_last() =~= sub0);
                assert(sub1.last() == c0);
                assert forall|c: ChunkCoord| #[trigger] sub1.contains(c) implies (sub0.contains(c)
                    || c == c0) by {
                    let k = choose|k: int| 0 <= k < sub1.len() && sub1[k] == c;
                    if k < sub0.len() {
                        assert(sub0[k] == c);
                    }
                }
                assert forall|c: ChunkCoord| sub0.contains(c) implies #[trigger] sub1.contains(
                    c,
                ) by {
                    let k = choose|k: int| 0 <= k < sub0.len() && sub0[k] == c;
                    assert(sub1[k] == c);
                }
                assert(sub1.contains(c0)) by {
                    assert(sub1[sub1.len() - 1] == c0);
                }
                if !present {
                    assert(entries_unique(self.entries@)) by {
                        assert forall|a: int, b: int|
                            0 <= a < b < self.entries@.len() implies (#[trigger] self.entries@[a]).0
                            != (#[trigger] self.entries@[b]).0 by {
                            if b == self.entries@.len() - 1 {
                                assert(self.entries@[a] == pre[a]);
                                if pre[a].0 == c0 {
                                    lemma_find_present(pre, a);
                                }
                            } else {
                                assert(self.entries@[a] == pre[a]);
                                assert(self.entries@[b] == pre[b]);
                            }
                        }
                    }
                    assert forall|c: ChunkCoord| true implies #[trigger] find_state(
                        self.entries@,
                        c,
                    ) == if sub1.contains(c) && find_state(old_entries, c) is None {
                        Option::Some(ChunkState::Queued)
                    } else {
                        find_state(old_entries, c)
                    } by {
                        assert(self.entries@.drop_last() =~= pre);
                        if c == c0 {
                            assert(find_state(self.entries@, c) == Option::Some(
                                ChunkState::Queued,
                            ));
                            assert(find_state(pre, c0) is None);
                        } else {
                            assert(find_state(self.entries@, c) == find_state(pre, c));
                        }
                    }
                    assert forall|c: ChunkCoord| #[trigger] to_queue@.contains(c) implies (
                    sub1.contains(c) && find_state(old_entries, c) is None) by {
                        let k = choose|k: int| 0 <= k < to_queue@.len() && to_queue@[k] == c;
                        if k < preq.len() {
                            assert(preq[k] == c);
                            assert(preq.contains(c));
                        } else {
                            assert(c == c0);
                            assert(find_state(pre, c0) is None);
                            assert(find_state(old_entries, c0) is None);
                        }
                    }
                    assert forall|c: ChunkCoord| (sub1.contains(c) && find_state(
                        old_entries,
                        c,
                    ) is None) implies #[trigger] to_queue@.contains(c) by {
                        if c == c0 {
                            assert(to_queue@[to_queue@.len() - 1] == c0);
                        } else {
                            assert(preq.contains(c));
                            let k = choose|k: int| 0 <= k < preq.len() && preq[k] == c;
                            assert(to_queue@[k] == c);
                        }
                    }
                    assert(to_queue@.no_duplicates()) by {
                        assert(!preq.contains(c0));
                        assert(to_queue@.drop_last() =~= preq);
                    }
                } else {
                    assert forall|c: ChunkCoord| true implies #[trigger] find_state(
                        self.entries@,
                        c,
                    ) == if sub1.contains(c) && find_state(old_entries, c) is None {
                        Option::Some(ChunkState::Queued)
                    } else {
                        find_state(old_entries, c)
                    } by {
                        if c == c0 {
                            assert(find_state(pre, c0) is Some);
                            assert(find_state(old_entries, c0) is Some) by {
                                if find_state(old_entries, c0) is None {
                                    assert(find_state(pre, c0) == Option::Some(
                                        ChunkState::Queued,
                                    ) || find_state(pre, c0) == find_state(old_entries, c0));
                                }
                            }
                        }
                    }
                }
            }
            wi = wi + 1;
        }
        proof {
            assert(window@.subrange(0, window@.len() as int) =~= window@);
        }
        to_queue
    }

    /// Looks up the recorded state of `c`.
    pub fn lookup(&self, c: ChunkCoord) -> (r: Option<ChunkState>)
        requires
            self.wf(),
        ensures
            r == self.spec_state(c),
    {
        let mut i: usize = 0;
        while i < self.entries.len()
            invariant
                self.wf(),
                i <= self.entries@.len(),
                forall|k: int| 0 <= k < i ==> (#[trigger] self.entries@[k]).0 != c,
            decreases self.entries@.len() - i,
        {
            let (coord, st) = self.entries[i];
            if coord.x == c.x && coord.y == c.y {
                proof {
                    lemma_find_present(self.entries@, i as int);
                }
                return Some(st);
            }
            i = i + 1;
        }
        proof {
            lemma_find_absent(self.entries@, c);
        }
        None
    }

    /// Marks a queued chunk as generating; reports whether it was queued.
    pub fn begin_generation(&mut self, c: ChunkCoord) -> (r: bool)
        requires
            old(self).wf(),
        ensures
            final(self).wf(),
            r == (old(self).spec_state(c) == Option::Some(ChunkState::Queued)),
            final(self).spec_state(c) == if r {
                Option::Some(ChunkState::Generating)
            } else {
                old(self).spec_state(c)
            },
            forall|d: ChunkCoord|
                d != c ==> #[trigger] final(self).spec_state(d) == old(self).spec_state(d),
            final(self).view_radius == old(self).view_radius,
            final(self).chunk_size == old(self).chunk_size,
            final(self).viewpoint == old(self).viewpoint,
            final(self).primed == old(self).primed,
    {
        self.transition(c, ChunkState::Queued, false, ChunkState::Generating)
    }

    /// Records a finished generation job: the chunk becomes resident.
    /// Reports whether the coordinate was queued or generating.
    pub fn complete(&mut self, c: ChunkCoord) -> (r: bool)
        requires
            old(self).wf(),
        ensures
            final(self).wf(),
            r == (old(self).spec_state(c) == Option::Some(ChunkState::Queued) || old(
                self,
            ).spec_state(c) == Option::Some(ChunkState::Generating)),
            final(self).spec_state(c) == if r {
                Option::Some(ChunkState::Resident)
            } else {
                old(self).spec_state(c)
            },
            forall|d: ChunkCoord|
                d != c ==> #[trigger] final(self).spec_state(d) == old(self).spec_state(d),
            final(self).view_radius == old(self).view_radius,
            final(self).chunk_size == old(self).chunk_size,
            final(self).viewpoint == old(self).viewpoint,
            final(self).primed == old(self).primed,
    {
        self.transition(c, ChunkState::Queued, true, ChunkState::Resident)
    }

    /// Moves `c` from `from` (or, when `or_generating` is set, also from
    /// `Generating`) to `to`; reports whether a transition happened.
    fn transition(&mut self, c: ChunkCoord, from: ChunkState, or_generating: bool, to: ChunkState)
        -> (r: bool)
        requires
            old(self).wf(),
        ensures
            final(self).wf(),
            r == (old(self).spec_state(c) == Option::Some(from) || (or_generating && old(
                self,
            ).spec_state(c) == Option::Some(ChunkState::Generating))),
            final(self).spec_state(c) == if r {
                Option::Some(to)
            } else {
                old(self).spec_state(c)
            },
            forall|d: ChunkCoord|
                d != c ==> #[trigger] final(self).spec_state(d) == old(self).spec_state(d),
            final(self).view_radius == old(self).view_radius,
            final(self).chunk_size == old(self).chunk_size,
            final(self).viewpoint == old(self).viewpoint,
            final(self).primed == old(self).primed,
            final(self).entries@.len() == old(self).entries@.len(),
    {
        let mut i: usize = 0;
        while i < self.entries.len()
            invariant
                self.wf(),
                self == old(self),
                i <= self.entries@.len(),
                forall|k: int| 0 <= k < i ==> (#[trigger] self.entries@[k]).0 != c,
            decreases self.entries@.len() - i,
        {
            let (coord, st) = self.entries[i];
            if coord.x == c.x && coord.y == c.y {
                proof {
                    lemma_find_present(self.entries@, i as int);
                }
                let hit = match st {
                    ChunkState::Queued => matches!(from, ChunkState::Queued) || (or_generating
                        && false),
                    ChunkState::Generating => matches!(from, ChunkState::Generating)
                        || or_generating,
                    ChunkState::Resident => matches!(from, ChunkState::Resident),
                };
                if hit {
                    proof {
                        lemma_find_update(self.entries@, i as int, to, c);
                    }
                    let ghost pre = self.entries@;
                    self.entries.set(i, (c, to));
                    proof {
                        assert(self.entries@ =~= pre.update(i as int, (pre[i as int].0, to)));
                        assert forall|d: ChunkCoord| d != c implies #[trigger] find_state(
                            self.entries@,
                            d,
                        ) == find_state(pre, d) by {
                            lemma_find_update(pre, i as int, to, d);
                        }
                    }
                    return true;
                }
                return false;
            }
            i = i + 1;
        }
        proof {
            lemma_find_absent(self.entries@, c);
        }
        false
    }

    /// Resident chunks outside the current window: what an eviction policy
    /// would remove. Nothing is removed automatically; eviction stays an
    /// explicit, separate step.
    pub fn eviction_candidates(&self) -> (r: Vec<ChunkCoord>)
        requires
            self.wf(),
        ensures
            forall|c: ChunkCoord|
                #[trigger] r@.contains(c) <==> (self.spec_state(c) == Option::Some(
                    ChunkState::Resident,
                ) && chebyshev(c, self.viewpoint) > self.view_radius),
            r@.no_duplicates(),
    {
        let mut out: Vec<ChunkCoord> = Vec::new();
        let mut i: usize = 0;
        while i < self.entries.len()
            invariant
                self.wf(),
                i <= self.entries@.len(),
                forall|c: ChunkCoord|
                    #[trigger] out@.contains(c) <==> exists|k: int|
                        0 <= k < i && (#[trigger] self.entries@[k]).0 == c && self.entries@[k].1
                            == ChunkState::Resident && chebyshev(c, self.viewpoint)
                            > self.view_radius,
                out@.no_duplicates(),
            decreases self.entries@.len() - i,
        {
            let (coord, st) = self.entries[i];
            let ghost preo = out@;
            let resident = matches!(st, ChunkState::Resident);
            let cx = coord.x as i64;
            let cy = coord.y as i64;
            let vx = self.viewpoint.x as i64;
            let vy = self.viewpoint.y as i64;
            let dx = if cx >= vx {
                cx - vx
            } else {
                vx - cx
            };
            let dy = if cy >= vy {
                cy - vy
            } else {
                vy - cy
            };
            let cheb = if dx >= dy {
                dx
            } else {
                dy
            };
            proof {
                assert(cheb as int == chebyshev(coord, self.viewpoint));
            }
            if resident && cheb > self.view_radius as i64 {
                out.push(coord);
                proof {
                    assert(!preo.contains(coord)) by {
                        if preo.contains(coord) {
                            let k = choose|k: int|
                                0 <= k < i && (#[trigger] self.entries@[k]).0 == coord
                                    && self.entries@[k].1 == ChunkState::Resident && chebyshev(
                                    coord,
                                    self.viewpoint,
                                ) > self.view_radius;
                            assert(self.entries@[k].0 == self.entries@[i as int].0);
                        }
                    }
                    assert(out@.drop_last() =~= preo);
                }
            }
            proof {
                assert forall|c: ChunkCoord| #[trigger] out@.contains(c) implies exists|k: int|
                    0 <= k < i + 1 && (#[trigger] self.entries@[k]).0 == c && self.entries@[k].1
                        == ChunkState::Resident && chebyshev(c, self.viewpoint)
                        > self.view_radius by {
                    if preo.contains(c) {
                        let k = choose|k: int|
                            0 <= k < i && (#[trigger] self.entries@[k]).0 == c
                                && self.entries@[k].1 == ChunkState::Resident && chebyshev(
                                c,
                                self.viewpoint,
                            ) > self.view_radius;
                        assert(0 <= k < i + 1 && self.entries@[k].0 == c);
                    } else {
                        let k = choose|k: int| 0 <= k < out@.len() && out@[k] == c;
                        assert(c == coord);
                        assert(self.entries@[i as int].0 == c);
                    }
                }
                assert forall|c: ChunkCoord|
                    exists|k: int|
                        0 <= k < i + 1 && (#[trigger] self.entries@[k]).0 == c
                            && self.entries@[k].1 == ChunkState::Resident && chebyshev(
                            c,
                            self.viewpoint,
                        ) > self.view_radius implies #[trigger] out@.contains(c) by {
                    let k = choose|k: int|
                        0 <= k < i + 1 && (#[trigger] self.entries@[k]).0 == c
                            && self.entries@[k].1 == ChunkState::Resident && chebyshev(
                            c,
                            self.viewpoint,
                        ) > self.view_radius;
                    if k < i {
                        assert(preo.contains(c));
                        let kk = choose|kk: int| 0 <= kk < preo.len() && preo[kk] == c;
                        assert(out@[kk] == c);
                    } else {
                        assert(out@[out@.len() - 1] == c);
                    }
                }
            }
            i = i + 1;
        }
        proof {
            assert forall|c: ChunkCoord| #[trigger] out@.contains(c) implies (self.spec_state(c)
                == Option::Some(ChunkState::Resident) && chebyshev(c, self.viewpoint)
                > self.view_radius) by {
                let k = choose|k: int|
                    0 <= k < self.entries@.len() && (#[trigger] self.entries@[k]).0 == c
                        && self.entries@[k].1 == ChunkState::Resident && chebyshev(
                        c,
                        self.viewpoint,
                    ) > self.view_radius;
                lemma_find_present(self.entries@, k);
            }
            assert forall|c: ChunkCoord|
                (self.spec_state(c) == Option::Some(ChunkState::Resident) && chebyshev(
                    c,
                    self.viewpoint,
                ) > self.view_radius) implies #[trigger] out@.contains(c) by {
                lemma_find_some_has_entry(self.entries@, c);
            }
        }
        out
    }

    /// Removes the record of a resident chunk outside the window; reports
    /// whether an entry was removed. The chunk itself is the host's to
    /// despawn.
    pub fn evict(&mut self, c: ChunkCoord) -> (r: bool)
        requires
            old(self).wf(),
        ensures
            final(self).wf(),
            r == (old(self).spec_state(c) == Option::Some(ChunkState::Resident)),
            r ==> final(self).spec_state(c) == Option::<ChunkState>::None,
            !r ==> final(self).spec_state(c) == old(self).spec_state(c),
            forall|d: ChunkCoord|
                d != c ==> #[trigger] final(self).spec_state(d) == old(self).spec_state(d),
            final(self).view_radius == old(self).view_radius,
            final(self).chunk_size == old(self).chunk_size,
            final(self).viewpoint == old(self).viewpoint,
            final(self).primed == old(self).primed,
    {
        let mut i: usize = 0;
        while i < self.entries.len()
            invariant
                self.wf(),
                self == old(self),
                i <= self.entries@.len(),
                forall|k: int| 0 <= k < i ==> (#[trigger] self.entries@[k]).0 != c,
            decreases self.entries@.len() - i,
        {
            let (coord, st) = self.entries[i];
            if coord.x == c.x && coord.y == c.y {
                proof {
                    lemma_find_present(self.entries@, i as int);
                }
                if matches!(st, ChunkState::Resident) {
                    let ghost pre = self.entries@;
                    self.entries.remove(i);
                    proof {
                        assert(self.entries@ =~= pre.remove(i as int));
                        lemma_remove_effects(pre, i as int);
                    }
                    return true;
                }
                return false;
            }
            i = i + 1;
        }
        proof {
            lemma_find_absent(self.entries@, c);
        }
        false
    }
}

/// Removing entry `i` clears that coordinate's state and keeps the rest.
proof fn lemma_remove_effects(entries: Seq<(ChunkCoord, ChunkState)>, i: int)
    requires
        entries_unique(entries),
        0 <= i < entries.len(),
    ensures
        entries_unique(entries.remove(i)),
        find_state(entries.remove(i), entries[i].0) == Option::<ChunkState>::None,
        forall|d: ChunkCoord|
            d != entries[i].0 ==> #[trigger] find_state(entries.remove(i), d) == find_state(
                entries,
                d,
            ),
{
    let rem = entries.remove(i);
    assert(entries_unique(rem)) by {
        assert forall|a: int, b: int| 0 <= a < b < rem.len() implies (#[trigger] rem[a]).0
            != (#[trigger] rem[b]).0 by {
            let a0 = if a < i {
                a
            } else {
                a + 1
            };
            let b0 = if b < i {
                b
            } else {
                b + 1
            };
            assert(rem[a] == entries[a0] && rem[b] == entries[b0]);
        }
    }
    assert(find_state(rem, entries[i].0) == Option::<ChunkState>::None) by {
        assert forall|k: int| 0 <= k < rem.len() implies (#[trigger] rem[k]).0 != entries[i].0 by {
            let k0 = if k < i {
                k
            } else {
                k + 1
            };
            assert(rem[k] == entries[k0]);
        }
        lemma_find_absent(rem, entries[i].0);
    }
    assert forall|d: ChunkCoord| d != entries[i].0 implies #[trigger] find_state(rem, d)
        == find_state(entries, d) by {
        if find_state(entries, d) is Some {
            lemma_find_some_has_entry(entries, d);
            let k = choose|k: int|
                0 <= k < entries.len() && (#[trigger] entries[k]).0 == d && entries[k].1
                    == find_state(entries, d)->Some_0;
            let kr = if k < i {
                k
            } else {
                k - 1
            };
            assert(rem[kr] == entries[k]);
            lemma_find_present(rem, kr);
        } else {
            assert forall|k: int| 0 <= k < entries.len() implies (#[trigger] entries[k]).0
                != d by {
                if entries[k].0 == d {
                    lemma_find_present(entries, k);
                }
            }
            assert forall|k: int| 0 <= k < rem.len() implies (#[trigger] rem[k]).0 != d by {
                let k0 = if k < i {
                    k
                } else {
                    k + 1
                };
                assert(rem[k] == entries[k0]);
            }
            lemma_find_absent(rem, d);
        }
    }
}

} // verus!
