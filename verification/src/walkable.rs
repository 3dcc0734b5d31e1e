//! Boolean walkability wrapper over `Grid<bool>` with origin-centered
//! (signed) coordinate addressing and nearest-walkable lookup.

use vstd::prelude::*;

use crate::grid::all_false_on;
use crate::grid::keep_matches_on;
use crate::grid::lr_prefix;
use crate::grid::masked;
use crate::grid::ring_bottom;
use crate::grid::ring_count;
use crate::grid::ring_left;
use crate::grid::ring_outcome;
use crate::grid::ring_right;
use crate::grid::ring_scan;
use crate::grid::ring_top;
use crate::grid::ring_witness;
use crate::grid::tb_prefix;
use crate::grid::Grid;

verus! {

/// The cells of `scan` whose grid cell is `true`, in scan order.
pub open spec fn scan_matches(g: &Grid<bool>, scan: Seq<(usize, usize)>) -> Seq<(usize, usize)>
    decreases scan.len(),
{
    if scan.len() == 0 {
        Seq::empty()
    } else {
        scan_matches(g, scan.drop_last()) + (if g.cell(
            scan.last().0 as int,
            scan.last().1 as int,
        ) {
            seq![scan.last()]
        } else {
            Seq::empty()
        })
    }
}

/// The matching cells of the ring at Chebyshev distance `d` around `(x, y)`.
pub open spec fn ring_matches(g: &Grid<bool>, x: int, y: int, d: int) -> Seq<(usize, usize)> {
    scan_matches(g, ring_scan(x, y, d, g.width(), g.height()))
}

/// The result of scanning rings from distance `d` outward: the matches of
/// the first non-empty ring, or empty when no ring up to the bound matches.
pub open spec fn search_rings(g: &Grid<bool>, x: int, y: int, d: int) -> Seq<(usize, usize)>
    decreases ring_count(g.width(), g.height()) - d,
{
    if d < 1 || d >= ring_count(g.width(), g.height()) {
        Seq::empty()
    } else if ring_matches(g, x, y, d).len() > 0 {
        ring_matches(g, x, y, d)
    } else {
        search_rings(g, x, y, d + 1)
    }
}

/// The exact result of the spiral search for `true` cells on a boolean
/// grid: empty when the query is out of bounds, just the query cell when it
/// is itself `true`, and otherwise the matches of the nearest non-empty
/// ring.
pub open spec fn spiral_search_result(g: &Grid<bool>, x: int, y: int) -> Seq<(usize, usize)> {
    if !g.in_bounds(x, y) {
        Seq::empty()
    } else if g.cell(x, y) {
        seq![(x as usize, y as usize)]
    } else {
        search_rings(g, x, y, 1)
    }
}

/// When `keep` records exactly the cell values along `scan`, masking equals
/// selecting the `true` cells.
proof fn lemma_masked_is_matches(g: &Grid<bool>, scan: Seq<(usize, usize)>, keep: Seq<bool>)
    requires
        keep.len() == scan.len(),
        forall|i: int|
            0 <= i < scan.len() ==> keep[i] == g.cell(
                #[trigger] scan[i].0 as int,
                scan[i].1 as int,
            ),
    ensures
        masked(scan, keep) == scan_matches(g, scan),
    decreases scan.len(),
{
    if scan.len() > 0 {
        lemma_masked_is_matches(g, scan.drop_last(), keep.drop_last());
    }
}

/// A scan whose cells are all `false` has no matches.
proof fn lemma_all_false_matches_empty(g: &Grid<bool>, scan: Seq<(usize, usize)>)
    requires
        forall|i: int| 0 <= i < scan.len() ==> !g.cell(#[trigger] scan[i].0 as int, scan[i].1 as int),
    ensures
        scan_matches(g, scan).len() == 0,
    decreases scan.len(),
{
    if scan.len() > 0 {
        lemma_all_false_matches_empty(g, scan.drop_last());
    }
}

/// Skipping rings with no matches does not change the search result.
proof fn lemma_search_rings_skip(g: &Grid<bool>, x: int, y: int, d: int)
    requires
        1 <= d <= ring_count(g.width(), g.height()),
        forall|e: int| 1 <= e < d ==> (#[trigger] ring_matches(g, x, y, e)).len() == 0,
    ensures
        search_rings(g, x, y, 1) == search_rings(g, x, y, d),
    decreases d,
{
    if d > 1 {
        lemma_search_rings_skip(g, x, y, d - 1);
        assert(ring_matches(g, x, y, d - 1).len() == 0);
        assert(search_rings(g, x, y, d - 1) == search_rings(g, x, y, d));
    }
}

/// Every cell of a `tb_prefix` lies within the ring's column and row
/// bounds.
proof fn lemma_tb_prefix_elems(right: int, top: int, bottom: int, k: int)
    requires
        0 <= top <= bottom,
        0 <= right,
        k <= right + 1,
    ensures
        forall|i: int|
            0 <= i < tb_prefix(right, top, bottom, k).len() ==> (#[trigger] tb_prefix(
                right,
                top,
                bottom,
                k,
            )[i]).0 <= right && tb_prefix(right, top, bottom, k)[i].1 <= bottom,
    decreases k,
{
    if k > 0 {
        lemma_tb_prefix_elems(right, top, bottom, k - 1);
        assert forall|i: int|
            0 <= i < tb_prefix(right, top, bottom, k).len() implies (#[trigger] tb_prefix(
            right,
            top,
            bottom,
            k,
        )[i]).0 <= right && tb_prefix(right, top, bottom, k)[i].1 <= bottom by {
            if i < tb_prefix(right, top, bottom, k - 1).len() {
                assert(tb_prefix(right, top, bottom, k - 1)[i].0 <= right);
            } else {
                assert(0 <= right - (k - 1));
            }
        }
    }
}

/// Every cell of an `lr_prefix` lies within the ring's column bounds and
/// at most `k` rows below the top edge.
proof fn lemma_lr_prefix_elems(top: int, left: int, right: int, k: int)
    requires
        0 <= left <= right,
        0 <= top,
    ensures
        forall|i: int|
            0 <= i < lr_prefix(top, left, right, k).len() ==> (#[trigger] lr_prefix(
                top,
                left,
                right,
                k,
            )[i]).0 <= right && lr_prefix(top, left, right, k)[i].1 <= top + k,
    decreases k,
{
    if k > 0 {
        lemma_lr_prefix_elems(top, left, right, k - 1);
        assert forall|i: int|
            0 <= i < lr_prefix(top, left, right, k).len() implies (#[trigger] lr_prefix(
            top,
            left,
            right,
            k,
        )[i]).0 <= right && lr_prefix(top, left, right, k)[i].1 <= top + k by {
            if i < lr_prefix(top, left, right, k - 1).len() {
                assert(lr_prefix(top, left, right, k - 1)[i].1 <= top + k - 1);
            }
        }
    }
}

/// Every cell of a ring scan around an in-bounds center is in bounds.
pub proof fn lemma_ring_scan_in_bounds(x: int, y: int, d: int, w: int, h: int)
    requires
        0 <= x < w,
        0 <= y < h,
        1 <= d,
    ensures
        forall|i: int|
            0 <= i < ring_scan(x, y, d, w, h).len() ==> (#[trigger] ring_scan(x, y, d, w, h)[i]).0
                < w && ring_scan(x, y, d, w, h)[i].1 < h,
{
    let l = ring_left(x, d);
    let r = ring_right(x, d, w);
    let t = ring_top(y, d);
    let b = ring_bottom(y, d, h);
    lemma_tb_prefix_elems(r, t, b, r - l + 1);
    lemma_lr_prefix_elems(t, l, r, b - t - 1);
    assert forall|i: int|
        0 <= i < ring_scan(x, y, d, w, h).len() implies (#[trigger] ring_scan(x, y, d, w, h)[i]).0
        < w && ring_scan(x, y, d, w, h)[i].1 < h by {
        let tb = tb_prefix(r, t, b, r - l + 1);
        let lr = lr_prefix(t, l, r, b - t - 1);
        if i < tb.len() {
            assert(ring_scan(x, y, d, w, h)[i] == tb[i]);
            assert(tb[i].0 <= r);
        } else {
            assert(ring_scan(x, y, d, w, h)[i] == lr[i - tb.len()]);
            assert(lr[i - tb.len()].1 <= t + (b - t - 1));
        }
    }
}

/// Every match comes from the scanned sequence.
proof fn lemma_scan_matches_subset(g: &Grid<bool>, scan: Seq<(usize, usize)>)
    ensures
        forall|i: int|
            0 <= i < scan_matches(g, scan).len() ==> scan.contains(
                #[trigger] scan_matches(g, scan)[i],
            ),
    decreases scan.len(),
{
    if scan.len() > 0 {
        lemma_scan_matches_subset(g, scan.drop_last());
        assert forall|i: int|
            0 <= i < scan_matches(g, scan).len() implies scan.contains(
            #[trigger] scan_matches(g, scan)[i],
        ) by {
            let prev = scan_matches(g, scan.drop_last());
            if i < prev.len() {
                let e = prev[i];
                assert(scan.drop_last().contains(e));
                let j = choose|j: int| 0 <= j < scan.drop_last().len() && scan.drop_last()[j] == e;
                assert(scan[j] == e);
            } else {
                assert(scan_matches(g, scan)[i] == scan.last());
                assert(scan[scan.len() - 1] == scan.last());
            }
        }
    }
}

/// Every cell of the ring search result is in bounds.
proof fn lemma_search_rings_in_bounds(g: &Grid<bool>, x: int, y: int, d: int)
    requires
        g.in_bounds(x, y),
        1 <= d,
    ensures
        forall|i: int|
            0 <= i < search_rings(g, x, y, d).len() ==> (#[trigger] search_rings(g, x, y, d)[i]).0
                < g.width() && search_rings(g, x, y, d)[i].1 < g.height(),
    decreases ring_count(g.width(), g.height()) - d,
{
    if d < ring_count(g.width(), g.height()) {
        if ring_matches(g, x, y, d).len() > 0 {
            lemma_ring_scan_in_bounds(x, y, d, g.width(), g.height());
            lemma_scan_matches_subset(g, ring_scan(x, y, d, g.width(), g.height()));
            let scan = ring_scan(x, y, d, g.width(), g.height());
            assert forall|i: int|
                0 <= i < search_rings(g, x, y, d).len() implies (#[trigger] search_rings(
                g,
                x,
                y,
                d,
            )[i]).0 < g.width() && search_rings(g, x, y, d)[i].1 < g.height() by {
                let e = search_rings(g, x, y, d)[i];
                assert(scan.contains(e));
                let j = choose|j: int| 0 <= j < scan.len() && scan[j] == e;
                assert(scan[j].0 < g.width() && scan[j].1 < g.height());
            }
            assert(search_rings(g, x, y, d) == ring_matches(g, x, y, d));
        } else {
            lemma_search_rings_in_bounds(g, x, y, d + 1);
            assert(search_rings(g, x, y, d) == search_rings(g, x, y, d + 1));
        }
    } else {
        assert(search_rings(g, x, y, d) == Seq::<(usize, usize)>::empty());
    }
}

/// Every cell of a spiral search result is in bounds.
pub proof fn lemma_spiral_result_in_bounds(g: &Grid<bool>, x: int, y: int)
    ensures
        forall|i: int|
            0 <= i < spiral_search_result(g, x, y).len() ==> (#[trigger] spiral_search_result(
                g,
                x,
                y,
            )[i]).0 < g.width() && spiral_search_result(g, x, y)[i].1 < g.height(),
{
    if g.in_bounds(x, y) && !g.cell(x, y) {
        lemma_search_rings_in_bounds(g, x, y, 1);
    }
}

/// Spiral-search self-match: when the query cell itself satisfies the
/// predicate, the search returns exactly the query cell, regardless of any
/// other matching cells elsewhere in the grid.
pub proof fn lemma_spiral_self_match(g: &Grid<bool>, x: int, y: int)
    requires
        g.in_bounds(x, y),
        g.cell(x, y),
    ensures
        spiral_search_result(g, x, y) == seq![(x as usize, y as usize)],
{
}

/// Absolute (origin-centered, signed) to local (zero-based) coordinate:
/// add half the dimension, saturating a negative result to zero.
pub open spec fn spec_abs_to_local(v: int, dim: int) -> int {
    if v + dim / 2 < 0 {
        0
    } else {
        v + dim / 2
    }
}

/// Local (zero-based) to absolute (origin-centered) coordinate: subtract
/// half the dimension.
pub open spec fn spec_local_to_abs(v: int, dim: int) -> int {
    v - dim / 2
}

/// `true` = walkable; built once from a level asset's numeric grid, then
/// read every frame.
pub struct WalkableTiles {
    value: Grid<bool>,
}

impl WalkableTiles {
    /// The underlying boolean grid.
    pub closed spec fn grid(&self) -> Grid<bool> {
        self.value
    }

    /// Well-formed: the grid shape invariant holds, and the dimensions are
    /// small enough that origin-centered signed coordinates fit in `i32`.
    pub open spec fn wf(&self) -> bool {
        &&& self.grid().wf()
        &&& self.grid().width() <= u32::MAX
        &&& self.grid().height() <= u32::MAX
    }

    /// Build from a numeric grid: a cell is walkable iff its value is 1.
    pub fn from_u8_grid(dto: &Grid<u8>) -> (w: WalkableTiles)
        requires
            dto.wf(),
            dto.width() <= u32::MAX,
            dto.height() <= u32::MAX,
        ensures
            w.wf(),
            w.grid().width() == dto.width(),
            w.grid().height() == dto.height(),
            forall|x: int, y: int|
                dto.in_bounds(x, y) ==> (#[trigger] w.grid().cell(x, y) <==> dto.cell(x, y) == 1),
    {
        let is_one = |v: &u8| -> (r: bool)
            ensures
                r == (*v == 1u8),
            { *v == 1 };
        let g = dto.map(is_one);
        let w = WalkableTiles { value: g };
        proof {
            assert forall|x: int, y: int| dto.in_bounds(x, y) implies (#[trigger] w.grid().cell(
                x,
                y,
            ) <==> dto.cell(x, y) == 1) by {
                assert(call_ensures(is_one, (&dto.cell(x, y),), g.cell(x, y)));
            }
        }
        w
    }

    /// Nearest walkable tiles in local (zero-based) coordinates: exactly
    /// the query tile, unmodified, when it is itself walkable; otherwise
    /// the walkable tiles of the nearest non-empty Chebyshev ring, in scan
    /// order (empty when the query is out of bounds or nothing within the
    /// search bound is walkable).
    pub fn nearest_walkable_tiles_local(&self, current_tile: (usize, usize)) -> (res: Vec<
        (usize, usize),
    >)
        requires
            self.wf(),
        ensures
            res@ == spiral_search_result(
                &self.grid(),
                current_tile.0 as int,
                current_tile.1 as int,
            ),
    {
        let (x, y) = current_tile;
        if self.is_walkable_local(x, y) {
            let mut res: Vec<(usize, usize)> = Vec::new();
            res.push((x, y));
            proof {
                assert(res@ =~= seq![(x, y)]);
            }
            res
        } else {
            let is_true = |v: &bool| -> (r: bool)
                ensures
                    r == *v,
                { *v };
            let res = self.value.search_from_pos(x, y, is_true);
            proof {
                let g = self.grid();
                let gx = x as int;
                let gy = y as int;
                assert(forall|t: &bool, r: bool| call_ensures(is_true, (t,), r) ==> r == *t);
                if g.in_bounds(gx, gy) {
                    let bb = choose|bb: bool|
                        {
                            &&& call_ensures(is_true, (&g.cell(gx, gy),), bb)
                            &&& if bb {
                                res@ == seq![(x, y)]
                            } else {
                                ring_outcome(&g, gx, gy, is_true, res@)
                            }
                        };
                    assert(!bb);
                    let (d, keep) = choose|d: int, keep: Seq<bool>|
                        ring_witness(&g, gx, gy, d, keep, is_true, res@);
                    let w = g.width();
                    let h = g.height();
                    assert forall|e: int| 1 <= e < d implies (#[trigger] ring_matches(
                        &g,
                        gx,
                        gy,
                        e,
                    )).len() == 0 by {
                        let sc = ring_scan(gx, gy, e, w, h);
                        assert(all_false_on(&g, is_true, sc));
                        assert forall|i: int| 0 <= i < sc.len() implies !g.cell(
                            #[trigger] sc[i].0 as int,
                            sc[i].1 as int,
                        ) by {
                            assert(call_ensures(
                                is_true,
                                (&g.cell(sc[i].0 as int, sc[i].1 as int),),
                                false,
                            ));
                        }
                        lemma_all_false_matches_empty(&g, sc);
                    }
                    lemma_search_rings_skip(&g, gx, gy, d);
                    if d < ring_count(w, h) {
                        let sc = ring_scan(gx, gy, d, w, h);
                        assert(keep_matches_on(&g, is_true, sc, keep));
                        assert forall|i: int| 0 <= i < sc.len() implies keep[i] == g.cell(
                            #[trigger] sc[i].0 as int,
                            sc[i].1 as int,
                        ) by {
                            assert(call_ensures(
                                is_true,
                                (&g.cell(sc[i].0 as int, sc[i].1 as int),),
                                keep[i],
                            ));
                        }
                        lemma_masked_is_matches(&g, sc, keep);
                        assert(res@ == ring_matches(&g, gx, gy, d));
                        assert(search_rings(&g, gx, gy, d) == ring_matches(&g, gx, gy, d));
                    } else {
                        assert(search_rings(&g, gx, gy, d) == Seq::<(usize, usize)>::empty());
                        assert(res@ == Seq::<(usize, usize)>::empty());
                    }
                    assert(res@ == search_rings(&g, gx, gy, 1));
                } else {
                    assert(res@ == spiral_search_result(&g, gx, gy));
                }
            }
            res
        }
    }

    /// Nearest walkable tiles in absolute (origin-centered, signed)
    /// coordinates: the query is converted to local coordinates by adding
    /// half the grid dimension — saturating negative results to zero, so
    /// far-out queries alias to the boundary rather than failing — then the
    /// local search runs and every result is converted back by subtracting
    /// the same offset.
    pub fn nearest_walkable_tiles(&self, current_tile: (i32, i32)) -> (res: Vec<(i32, i32)>)
        requires
            self.wf(),
        ensures
            ({
                let lx = spec_abs_to_local(current_tile.0 as int, self.grid().width());
                let ly = spec_abs_to_local(current_tile.1 as int, self.grid().height());
                let loc = spiral_search_result(&self.grid(), lx, ly);
                &&& res@.len() == loc.len()
                &&& forall|i: int|
                    0 <= i < loc.len() ==> #[trigger] res@[i] == ((
                        spec_local_to_abs((#[trigger] loc[i]).0 as int, self.grid().width()) as i32,
                        spec_local_to_abs(loc[i].1 as int, self.grid().height()) as i32,
                    ))
            }),
    {
        let (ax, ay) = current_tile;
        let x = self.abs_to_local_x(ax);
        let y = self.abs_to_local_y(ay);
        let local = self.nearest_walkable_tiles_local((x, y));
        proof {
            lemma_spiral_result_in_bounds(&self.grid(), x as int, y as int);
        }
        let mut res: Vec<(i32, i32)> = Vec::new();
        let n = local.len();
        for i in 0..n
            invariant
                self.wf(),
                n == local@.len(),
                local@ == spiral_search_result(
                    &self.grid(),
                    spec_abs_to_local(current_tile.0 as int, self.grid().width()),
                    spec_abs_to_local(current_tile.1 as int, self.grid().height()),
                ),
                forall|j: int|
                    0 <= j < n ==> (#[trigger] local@[j]).0 < self.grid().width()
                        && local@[j].1 < self.grid().height(),
                res@.len() == i,
                forall|j: int|
                    0 <= j < i ==> #[trigger] res@[j] == ((
                        spec_local_to_abs(local@[j].0 as int, self.grid().width()) as i32,
                        spec_local_to_abs(local@[j].1 as int, self.grid().height()) as i32,
                    )),
        {
            let (cx, cy) = local[i];
            let px = self.local_to_abs_x(cx);
            let py = self.local_to_abs_y(cy);
            res.push((px, py));
        }
        res
    }

    /// Local column index to absolute: subtract half the width.
    fn local_to_abs_x(&self, x: usize) -> (r: i32)
        requires
            self.wf(),
            x < self.grid().width(),
        ensures
            r == spec_local_to_abs(x as int, self.grid().width()),
    {
        ((x as i64) - ((self.value.x_max() / 2) as i64)) as i32
    }

    /// Local row index to absolute: subtract half the height.
    fn local_to_abs_y(&self, y: usize) -> (r: i32)
        requires
            self.wf(),
            y < self.grid().height(),
        ensures
            r == spec_local_to_abs(y as int, self.grid().height()),
    {
        ((y as i64) - ((self.value.y_max() / 2) as i64)) as i32
    }

    /// Absolute column index to local: add half the width, saturating a
    /// negative result to zero.
    fn abs_to_local_x(&self, x: i32) -> (r: usize)
        requires
            self.wf(),
        ensures
            r == spec_abs_to_local(x as int, self.grid().width()),
    {
        let rr = (x as i64) + ((self.value.x_max() / 2) as i64);
        if rr < 0 {
            0
        } else {
            rr as usize
        }
    }

    /// Absolute row index to local: add half the height, saturating a
    /// negative result to zero.
    fn abs_to_local_y(&self, y: i32) -> (r: usize)
        requires
            self.wf(),
        ensures
            r == spec_abs_to_local(y as int, self.grid().height()),
    {
        let rr = (y as i64) + ((self.value.y_max() / 2) as i64);
        if rr < 0 {
            0
        } else {
            rr as usize
        }
    }

    /// Whether the local (zero-based) tile `(x, y)` is walkable: `false`
    /// for any out-of-range index (absent cell) or a `false` cell; never
    /// panics.
    pub fn is_walkable_local(&self, x: usize, y: usize) -> (r: bool)
        requires
            self.wf(),
        ensures
            r == (self.grid().in_bounds(x as int, y as int) && self.grid().cell(
                x as int,
                y as int,
            )),
    {
        match self.value.get(x, y) {
            Some(v) => *v,
            None => false,
        }
    }
}

} // verus!
