//! A rectangular, fixed-size, row-major 2D container with bounds-checked
//! access and a ring-expanding nearest-match search.

use vstd::prelude::*;

verus! {

/// Error taxonomy for grid construction and writes.
#[derive(Debug, Clone, PartialEq, Eq)]
pub enum GridError {
    /// A write targeted an index beyond the grid's dimension.
    OutOfBounds { asked: usize, max: usize },
    /// The source rows of a construction had differing lengths; all distinct
    /// observed lengths are reported in first-occurrence order.
    MismatchedWidth { widths: Vec<usize> },
    /// A construction was given zero rows.
    NoDataInColumns,
}

/// The length of each row, in row order.
pub open spec fn row_widths<T>(rows: Seq<Seq<T>>) -> Seq<usize> {
    Seq::new(rows.len(), |i: int| rows[i].len() as usize)
}

/// The distinct values among the first `i` entries of `ws`, in
/// first-occurrence order.
pub open spec fn distinct_prefix(ws: Seq<usize>, i: int) -> Seq<usize>
    decreases i,
{
    if i <= 0 {
        Seq::empty()
    } else {
        let prev = distinct_prefix(ws, i - 1);
        if prev.contains(ws[i - 1]) {
            prev
        } else {
            prev.push(ws[i - 1])
        }
    }
}

/// All distinct row lengths of `rows`, in first-occurrence order.
pub open spec fn distinct_widths<T>(rows: Seq<Seq<T>>) -> Seq<usize> {
    distinct_prefix(row_widths(rows), rows.len() as int)
}

/// `distinct_prefix` holds exactly the values seen among the first `i`
/// entries, each once.
proof fn lemma_distinct_prefix_props(ws: Seq<usize>, i: int)
    requires
        0 <= i <= ws.len(),
    ensures
        forall|w: usize| #[trigger]
            distinct_prefix(ws, i).contains(w) <==> exists|k: int| 0 <= k < i && ws[k] == w,
        forall|a: int, b: int|
            0 <= a < b < distinct_prefix(ws, i).len() ==> distinct_prefix(ws, i)[a]
                != distinct_prefix(ws, i)[b],
    decreases i,
{
    if i > 0 {
        lemma_distinct_prefix_props(ws, i - 1);
        let prev = distinct_prefix(ws, i - 1);
        let cur = distinct_prefix(ws, i);
        assert forall|w: usize| #[trigger] cur.contains(w) implies exists|k: int|
            0 <= k < i && ws[k] == w by {
            if prev.contains(w) {
            } else {
                assert(w == ws[i - 1]);
            }
        }
        assert forall|w: usize| exists|k: int| 0 <= k < i && ws[k] == w implies #[trigger] cur.contains(
            w,
        ) by {
            let k = choose|k: int| 0 <= k < i && ws[k] == w;
            if k < i - 1 {
                assert(prev.contains(w));
                if !prev.contains(ws[i - 1]) {
                    let j = choose|j: int| 0 <= j < prev.len() && prev[j] == w;
                    assert(cur[j] == w);
                }
            } else {
                if prev.contains(ws[i - 1]) {
                } else {
                    assert(cur[cur.len() - 1] == w);
                }
            }
        }
    }
}

/// If only one distinct row length was seen, every row has that length.
proof fn lemma_distinct_prefix_single(ws: Seq<usize>, i: int)
    requires
        0 <= i <= ws.len(),
        distinct_prefix(ws, i).len() == 1,
    ensures
        forall|k: int| 0 <= k < i ==> ws[k] == distinct_prefix(ws, i)[0],
{
    lemma_distinct_prefix_props(ws, i);
    assert forall|k: int| 0 <= k < i implies ws[k] == distinct_prefix(ws, i)[0] by {
        assert(distinct_prefix(ws, i).contains(ws[k]));
    }
}

/// Left bound of the ring at Chebyshev distance `d` around column `x`,
/// clamped to the grid edge.
pub open spec fn ring_left(x: int, d: int) -> int {
    if x - d > 0 {
        x - d
    } else {
        0
    }
}

/// Right bound of the ring at distance `d` around column `x` in a grid of
/// width `w`, clamped to the grid edge.
pub open spec fn ring_right(x: int, d: int, w: int) -> int {
    if x + d < w - 1 {
        x + d
    } else {
        w - 1
    }
}

/// Top bound of the ring at distance `d` around row `y`, clamped.
pub open spec fn ring_top(y: int, d: int) -> int {
    if y - d > 0 {
        y - d
    } else {
        0
    }
}

/// Bottom bound of the ring at distance `d` around row `y` in a grid of
/// height `h`, clamped.
pub open spec fn ring_bottom(y: int, d: int, h: int) -> int {
    if y + d < h - 1 {
        y + d
    } else {
        h - 1
    }
}

/// One past the largest ring distance the search ever scans.
pub open spec fn ring_count(w: int, h: int) -> int {
    if w > h {
        w
    } else {
        h
    }
}

/// The cells of one ring column: the top-edge cell, then the bottom-edge
/// cell when the two edges differ.
pub open spec fn col_cells(xc: int, top: int, bottom: int) -> Seq<(usize, usize)> {
    if top == bottom {
        seq![(xc as usize, top as usize)]
    } else {
        seq![(xc as usize, top as usize), (xc as usize, bottom as usize)]
    }
}

/// The cells of one interior ring row: the left-edge cell, then the
/// right-edge cell when the two edges differ.
pub open spec fn row_cells(yc: int, left: int, right: int) -> Seq<(usize, usize)> {
    if left == right {
        seq![(left as usize, yc as usize)]
    } else {
        seq![(left as usize, yc as usize), (right as usize, yc as usize)]
    }
}

/// The top- and bottom-edge cells of the first `k` ring columns, scanned
/// from the right edge leftward.
pub open spec fn tb_prefix(right: int, top: int, bottom: int, k: int) -> Seq<(usize, usize)>
    decreases k,
{
    if k <= 0 {
        Seq::empty()
    } else {
        tb_prefix(right, top, bottom, k - 1) + col_cells(right - (k - 1), top, bottom)
    }
}

/// The left- and right-edge cells of the first `k` interior ring rows,
/// scanned downward from just below the top edge.
pub open spec fn lr_prefix(top: int, left: int, right: int, k: int) -> Seq<(usize, usize)>
    decreases k,
{
    if k <= 0 {
        Seq::empty()
    } else {
        lr_prefix(top, left, right, k - 1) + row_cells(top + k, left, right)
    }
}

/// The scan order of the full ring at Chebyshev distance `d` around
/// `(x, y)`: top and bottom edges first (right to left, top before bottom
/// in each column), then the strictly interior left and right edges
/// (downward, left before right in each row). Clamping can make rings near
/// a grid edge revisit cells of smaller rings.
pub open spec fn ring_scan(x: int, y: int, d: int, w: int, h: int) -> Seq<(usize, usize)> {
    let l = ring_left(x, d);
    let r = ring_right(x, d, w);
    let t = ring_top(y, d);
    let b = ring_bottom(y, d, h);
    tb_prefix(r, t, b, r - l + 1) + lr_prefix(t, l, r, b - t - 1)
}

/// The elements of `scan` whose corresponding entry of `keep` is true, in
/// scan order.
pub open spec fn masked(scan: Seq<(usize, usize)>, keep: Seq<bool>) -> Seq<(usize, usize)>
    decreases scan.len(),
{
    if scan.len() == 0 {
        Seq::empty()
    } else {
        masked(scan.drop_last(), keep.drop_last()) + (if keep.last() {
            seq![scan.last()]
        } else {
            Seq::empty()
        })
    }
}

/// Appending one scanned cell extends the masked selection by that cell
/// exactly when it is kept.
proof fn lemma_masked_push(scan: Seq<(usize, usize)>, keep: Seq<bool>, e: (usize, usize), kb: bool)
    requires
        scan.len() == keep.len(),
    ensures
        masked(scan.push(e), keep.push(kb)) == masked(scan, keep) + (if kb {
            seq![e]
        } else {
            Seq::<(usize, usize)>::empty()
        }),
{
    assert(scan.push(e).drop_last() =~= scan);
    assert(keep.push(kb).drop_last() =~= keep);
}

/// An empty masked selection means nothing was kept.
proof fn lemma_masked_all_false(scan: Seq<(usize, usize)>, keep: Seq<bool>)
    requires
        scan.len() == keep.len(),
        masked(scan, keep).len() == 0,
    ensures
        forall|i: int| 0 <= i < keep.len() ==> !keep[i],
    decreases scan.len(),
{
    if scan.len() > 0 {
        lemma_masked_all_false(scan.drop_last(), keep.drop_last());
        assert(!keep.last());
        assert forall|i: int| 0 <= i < keep.len() implies !keep[i] by {
            if i < keep.len() - 1 {
                assert(!keep.drop_last()[i]);
            }
        }
    }
}

/// Every call of `f` on a cell of `scan` is ensured to return `false`.
pub open spec fn all_false_on<T, F: Fn(&T) -> bool>(
    g: &Grid<T>,
    f: F,
    scan: Seq<(usize, usize)>,
) -> bool {
    forall|i: int|
        0 <= i < scan.len() ==> call_ensures(
            f,
            (&g.cell(scan[i].0 as int, scan[i].1 as int),),
            false,
        )
}

/// `keep` records, cell for cell, an outcome of calling `f` on `scan`.
pub open spec fn keep_matches_on<T, F: Fn(&T) -> bool>(
    g: &Grid<T>,
    f: F,
    scan: Seq<(usize, usize)>,
    keep: Seq<bool>,
) -> bool {
    &&& keep.len() == scan.len()
    &&& forall|i: int|
        0 <= i < scan.len() ==> call_ensures(
            f,
            (&g.cell(scan[i].0 as int, scan[i].1 as int),),
            keep[i],
        )
}

/// The search outcome when the query cell itself did not match: some ring
/// distance `d` such that every smaller ring tested all-false, and either
/// ring `d` produced the (non-empty) result by masking its scan with the
/// recorded outcomes, or every ring up to the bound tested all-false and
/// the result is empty.
pub open spec fn ring_witness<T, F: Fn(&T) -> bool>(
    g: &Grid<T>,
    x: int,
    y: int,
    d: int,
    keep: Seq<bool>,
    f: F,
    res: Seq<(usize, usize)>,
) -> bool {
    let w = g.width();
    let h = g.height();
    &&& 1 <= d <= ring_count(w, h)
    &&& forall|e: int| 1 <= e < d ==> all_false_on(g, f, #[trigger] ring_scan(x, y, e, w, h))
    &&& if d < ring_count(w, h) {
        &&& keep_matches_on(g, f, ring_scan(x, y, d, w, h), keep)
        &&& res == masked(ring_scan(x, y, d, w, h), keep)
        &&& res.len() > 0
    } else {
        res == Seq::<(usize, usize)>::empty()
    }
}

/// There is a ring distance and a record of call outcomes explaining `res`.
pub open spec fn ring_outcome<T, F: Fn(&T) -> bool>(
    g: &Grid<T>,
    x: int,
    y: int,
    f: F,
    res: Seq<(usize, usize)>,
) -> bool {
    exists|d: int, keep: Seq<bool>| ring_witness(g, x, y, d, keep, f, res)
}

/// A rectangular 2D container of `T`, indexed `[y][x]` (row index first).
///
/// Invariant (`wf`): there are exactly `height` rows and every row has
/// exactly `width` cells.
pub struct Grid<T> {
    vec2: Vec<Vec<T>>,
    y_max: usize,
    x_max: usize,
}

impl<T> View for Grid<T> {
    type V = Seq<Seq<T>>;

    closed spec fn view(&self) -> Seq<Seq<T>> {
        Seq::new(self.vec2@.len(), |y: int| self.vec2@[y]@)
    }
}

impl<T> Grid<T> {
    /// Number of columns.
    pub closed spec fn width(&self) -> int {
        self.x_max as int
    }

    /// Number of rows.
    pub closed spec fn height(&self) -> int {
        self.y_max as int
    }

    /// The shape invariant: the stored dimensions agree with the rows.
    pub open spec fn wf(&self) -> bool {
        &&& self@.len() == self.height()
        &&& forall|y: int| 0 <= y < self@.len() ==> (#[trigger] self@[y]).len() == self.width()
    }

    /// Whether `(x, y)` addresses a cell of the grid.
    pub open spec fn in_bounds(&self, x: int, y: int) -> bool {
        0 <= x < self.width() && 0 <= y < self.height()
    }

    /// The cell at `(x, y)`.
    pub open spec fn cell(&self, x: int, y: int) -> T {
        self@[y][x]
    }

    /// Number of columns (`x` values run in `0 .. x_max`).
    pub fn x_max(&self) -> (r: usize)
        ensures
            r == self.width(),
    {
        self.x_max
    }

    /// Number of rows (`y` values run in `0 .. y_max`).
    pub fn y_max(&self) -> (r: usize)
        ensures
            r == self.height(),
    {
        self.y_max
    }

    /// A grid of the given dimensions with every cell a clone of `default`.
    pub fn new(height: usize, width: usize, default: T) -> (g: Grid<T>) where T: Clone
        ensures
            g.wf(),
            g.width() == width,
            g.height() == height,
            forall|x: int, y: int|
                g.in_bounds(x, y) ==> vstd::pervasive::cloned(default, #[trigger] g.cell(x, y)),
    {
        let mut vec2: Vec<Vec<T>> = Vec::new();
        for yy in 0..height
            invariant
                vec2@.len() == yy,
                forall|y: int| 0 <= y < yy ==> (#[trigger] vec2@[y])@.len() == width,
                forall|y: int, x: int|
                    0 <= y < yy && 0 <= x < width ==> vstd::pervasive::cloned(
                        default,
                        #[trigger] vec2@[y]@[x],
                    ),
        {
            let mut row: Vec<T> = Vec::new();
            for xx in 0..width
                invariant
                    row@.len() == xx,
                    forall|x: int|
                        0 <= x < xx ==> vstd::pervasive::cloned(default, #[trigger] row@[x]),
            {
                row.push(default.clone());
            }
            vec2.push(row);
        }
        Grid { vec2, y_max: height, x_max: width }
    }

    /// Build a grid from a nested sequence of rows: succeeds iff there is at
    /// least one row and every row has the same length. With zero rows the
    /// whole construction reports `NoDataInColumns`; with unequal row lengths
    /// it reports every distinct length observed, in first-occurrence order.
    pub fn try_from(vec2: Vec<Vec<T>>) -> (r: Result<Grid<T>, GridError>)
        ensures
            vec2@.len() == 0 ==> r == Err::<Grid<T>, GridError>(GridError::NoDataInColumns),
            vec2@.len() > 0 && (forall|k: int|
                0 <= k < vec2@.len() ==> (#[trigger] vec2@[k])@.len() == vec2@[0]@.len())
                ==> (r matches Ok(g) && g.wf() && g.height() == vec2@.len() && g.width()
                == vec2@[0]@.len() && g@ == vec2@.map_values(|row: Vec<T>| row@)),
            vec2@.len() > 0 && !(forall|k: int|
                0 <= k < vec2@.len() ==> (#[trigger] vec2@[k])@.len() == vec2@[0]@.len())
                ==> (r matches Err(GridError::MismatchedWidth { widths }) && widths@
                == distinct_widths(vec2@.map_values(|row: Vec<T>| row@))),
    {
        let ghost rows: Seq<Seq<T>> = vec2@.map_values(|row: Vec<T>| row@);
        let ghost ws: Seq<usize> = row_widths(rows);
        let height = vec2.len();
        let mut widths: Vec<usize> = Vec::new();
        for i in 0..height
            invariant
                vec2@.len() == height,
                rows == vec2@.map_values(|row: Vec<T>| row@),
                ws == row_widths(rows),
                widths@ == distinct_prefix(ws, i as int),
                forall|k: int| 0 <= k < i ==> (#[trigger] rows[k]).len() == ws[k],
        {
            let w = vec2[i].len();
            proof {
                assert(ws[i as int] == w);
            }
            let mut found = false;
            for j in 0..widths.len()
                invariant
                    found <==> exists|k: int| 0 <= k < j && widths@[k] == w,
            {
                if widths[j] == w {
                    found = true;
                }
            }
            if !found {
                widths.push(w);
            }
        }
        if widths.len() == 0 {
            proof {
                if height > 0 {
                    lemma_distinct_prefix_props(ws, height as int);
                    assert(ws[0] == ws[0]);
                    assert(widths@.contains(ws[0]));
                }
            }
            Err(GridError::NoDataInColumns)
        } else if widths.len() > 1 {
            proof {
                lemma_distinct_prefix_props(ws, height as int);
                assert(widths@[0] != widths@[1]);
                assert(widths@.contains(widths@[0]));
                assert(widths@.contains(widths@[1]));
                let k0 = choose|k: int| 0 <= k < height && ws[k] == widths@[0];
                let k1 = choose|k: int| 0 <= k < height && ws[k] == widths@[1];
                assert(rows[k0].len() != rows[k1].len());
                assert(rows[k0] == vec2@[k0]@);
                assert(rows[k1] == vec2@[k1]@);
                if forall|k: int|
                    0 <= k < vec2@.len() ==> (#[trigger] vec2@[k])@.len() == vec2@[0]@.len() {
                    assert(vec2@[k0]@.len() == vec2@[0]@.len());
                    assert(vec2@[k1]@.len() == vec2@[0]@.len());
                    assert(false);
                }
            }
            Err(GridError::MismatchedWidth { widths })
        } else {
            let x_max = widths[0];
            proof {
                lemma_distinct_prefix_props(ws, height as int);
                lemma_distinct_prefix_single(ws, height as int);
                assert(widths@.contains(ws[0]));
                assert forall|k: int| 0 <= k < height implies (#[trigger] rows[k]).len()
                    == x_max as int by {
                    assert(ws[k] == x_max);
                }
                assert forall|k: int| 0 <= k < height implies (#[trigger] vec2@[k])@.len()
                    == vec2@[0]@.len() by {
                    assert(rows[k] == vec2@[k]@);
                    assert(rows[0] == vec2@[0]@);
                }
            }
            let g = Grid { vec2, y_max: height, x_max };
            proof {
                assert(g@ =~~= rows);
            }
            Ok(g)
        }
    }

    /// The underlying rows, consumed: the inverse of `try_from` on a
    /// well-formed grid.
    pub fn into_vec(self) -> (v: Vec<Vec<T>>)
        ensures
            v@.len() == self@.len(),
            forall|y: int| 0 <= y < self@.len() ==> (#[trigger] v@[y])@ == self@[y],
    {
        self.vec2
    }

    /// Bounds-checked read: `None` for any out-of-range index, never panics.
    pub fn get(&self, x: usize, y: usize) -> (r: Option<&T>)
        requires
            self.wf(),
        ensures
            r is Some <==> self.in_bounds(x as int, y as int),
            r matches Some(v) ==> *v == self.cell(x as int, y as int),
    {
        if y < self.y_max && x < self.x_max {
            proof {
                assert(self@[y as int].len() == self.width());
            }
            Some(&self.vec2[y][x])
        } else {
            None
        }
    }

    /// Element-wise transform preserving dimensions and row-major order:
    /// every cell of the result is an output of `f` on the source cell at
    /// the same position.
    pub fn map<R, F: Fn(&T) -> R>(&self, f: F) -> (g: Grid<R>)
        requires
            self.wf(),
            forall|t: &T| call_requires(f, (t,)),
        ensures
            g.wf(),
            g.width() == self.width(),
            g.height() == self.height(),
            forall|x: int, y: int|
                self.in_bounds(x, y) ==> call_ensures(
                    f,
                    (&self.cell(x, y),),
                    #[trigger] g.cell(x, y),
                ),
    {
        let mut out: Vec<Vec<R>> = Vec::new();
        for yy in 0..self.y_max
            invariant
                self.wf(),
                self.y_max == self.height(),
                self.x_max == self.width(),
                forall|t: &T| call_requires(f, (t,)),
                out@.len() == yy,
                forall|y: int| 0 <= y < yy ==> (#[trigger] out@[y])@.len() == self.width(),
                forall|x: int, y: int|
                    0 <= y < yy && 0 <= x < self.width() ==> call_ensures(
                        f,
                        (&self.cell(x, y),),
                        #[trigger] out@[y]@[x],
                    ),
        {
            let mut row: Vec<R> = Vec::new();
            for xx in 0..self.x_max
                invariant
                    self.wf(),
                    self.y_max == self.height(),
                    self.x_max == self.width(),
                    yy < self.height(),
                    forall|t: &T| call_requires(f, (t,)),
                    row@.len() == xx,
                    forall|x: int|
                        0 <= x < xx ==> call_ensures(
                            f,
                            (&self.cell(x, yy as int),),
                            #[trigger] row@[x],
                        ),
            {
                proof {
                    assert(self@[yy as int].len() == self.width());
                }
                row.push(f(&self.vec2[yy][xx]));
            }
            out.push(row);
        }
        let g = Grid { vec2: out, y_max: self.y_max, x_max: self.x_max };
        proof {
            assert forall|x: int, y: int| g.in_bounds(x, y) implies call_ensures(
                f,
                (&self.cell(x, y),),
                #[trigger] g.cell(x, y),
            ) by {
                assert(g.cell(x, y) == out@[y]@[x]);
            }
        }
        g
    }

    /// Visits every cell in row-major order (`y` outer, `x` inner), passing
    /// `(x, y, &value)` to the visitor. The visitor borrows immutably, so a
    /// caller that accumulates (a debug dump of the grid as text, say) does
    /// it through interior mutability.
    pub fn for_each<F: Fn(usize, usize, &T)>(&self, f: F)
        requires
            self.wf(),
            forall|x: usize, y: usize, t: &T| call_requires(f, (x, y, t)),
    {
        for yy in 0..self.y_max
            invariant
                self.wf(),
                self.y_max == self.height(),
                self.x_max == self.width(),
                forall|x: usize, y: usize, t: &T| call_requires(f, (x, y, t)),
        {
            for xx in 0..self.x_max
                invariant
                    self.wf(),
                    self.y_max == self.height(),
                    self.x_max == self.width(),
                    yy < self.height(),
                    forall|x: usize, y: usize, t: &T| call_requires(f, (x, y, t)),
            {
                proof {
                    assert(self@[yy as int].len() == self.width());
                }
                f(xx, yy, &self.vec2[yy][xx]);
            }
        }
    }

    /// The ring-expanding ("spiral") nearest-match search.
    ///
    /// An out-of-bounds query returns the empty sequence. If `f` matches the
    /// query cell itself, the result is exactly that cell. Otherwise square
    /// rings at Chebyshev distance `1, 2, ...` up to `max(width, height) - 1`
    /// are scanned in the order of `ring_scan`, and the first ring with at
    /// least one match returns all of that ring's matches, in scan order; if
    /// no ring matches, the result is empty. Side-effect-free and
    /// restartable: safe to call every frame.
    #[verifier::rlimit(80)]
    pub fn search_from_pos<F: Fn(&T) -> bool>(&self, x: usize, y: usize, f: F) -> (res: Vec<
        (usize, usize),
    >)
        requires
            self.wf(),
            forall|t: &T| call_requires(f, (t,)),
        ensures
            !self.in_bounds(x as int, y as int) ==> res@ == Seq::<(usize, usize)>::empty(),
            self.in_bounds(x as int, y as int) ==> exists|bb: bool|
                {
                    &&& #[trigger] call_ensures(f, (&self.cell(x as int, y as int),), bb)
                    &&& if bb {
                        res@ == seq![(x, y)]
                    } else {
                        ring_outcome(self, x as int, y as int, f, res@)
                    }
                },
    {
        if y >= self.y_max || x >= self.x_max {
            return Vec::new();
        }
        proof {
            assert(self@[y as int].len() == self.width());
        }
        let b0 = f(&self.vec2[y][x]);
        proof {
            assert(call_ensures(f, (&self.cell(x as int, y as int),), b0));
        }
        if b0 {
            let mut found: Vec<(usize, usize)> = Vec::new();
            found.push((x, y));
            proof {
                assert(found@ =~= seq![(x, y)]);
            }
            return found;
        }
        let w = self.x_max;
        let h = self.y_max;
        let bound = if w > h {
            w
        } else {
            h
        };
        let mut ring: Vec<(usize, usize)> = Vec::new();
        for d in 1..bound
            invariant
                self.wf(),
                w == self.width(),
                h == self.height(),
                x < w,
                y < h,
                bound == ring_count(w as int, h as int),
                forall|t0: &T| call_requires(f, (t0,)),
                call_ensures(f, (&self.cell(x as int, y as int),), false),
                ring@.len() == 0,
                forall|e: int|
                    1 <= e < d ==> all_false_on(
                        self,
                        f,
                        #[trigger] ring_scan(x as int, y as int, e, w as int, h as int),
                    ),
        {
            let l = if x >= d {
                x - d
            } else {
                0
            };
            let r = if d <= w - 1 - x {
                x + d
            } else {
                w - 1
            };
            let t = if y >= d {
                y - d
            } else {
                0
            };
            let b = if d <= h - 1 - y {
                y + d
            } else {
                h - 1
            };
            proof {
                assert(l as int == ring_left(x as int, d as int));
                assert(r as int == ring_right(x as int, d as int, w as int));
                assert(t as int == ring_top(y as int, d as int));
                assert(b as int == ring_bottom(y as int, d as int, h as int));
            }
            let ghost mut scanned: Seq<(usize, usize)> = Seq::empty();
            let ghost mut keep: Seq<bool> = Seq::empty();
            let cols = r - l + 1;
            for i in 0..cols
                invariant
                    self.wf(),
                    w == self.width(),
                    h == self.height(),
                    forall|t0: &T| call_requires(f, (t0,)),
                    l <= x < w,
                    y < h,
                    l <= r < w,
                    t <= y || y <= b,
                    t <= b < h,
                    cols == r - l + 1,
                    scanned == tb_prefix(r as int, t as int, b as int, i as int),
                    keep_matches_on(self, f, scanned, keep),
                    ring@ == masked(scanned, keep),
            {
                let cx = r - i;
                proof {
                    assert(self@[t as int].len() == self.width());
                    assert(self@[b as int].len() == self.width());
                }
                let vt = f(&self.vec2[t][cx]);
                if vt {
                    ring.push((cx, t));
                }
                proof {
                    lemma_masked_push(scanned, keep, (cx, t), vt);
                    scanned = scanned.push((cx, t));
                    keep = keep.push(vt);
                    assert(ring@ =~= masked(scanned, keep));
                }
                if b != t {
                    let vb = f(&self.vec2[b][cx]);
                    if vb {
                        ring.push((cx, b));
                    }
                    proof {
                        lemma_masked_push(scanned, keep, (cx, b), vb);
                        scanned = scanned.push((cx, b));
                        keep = keep.push(vb);
                        assert(ring@ =~= masked(scanned, keep));
                    }
                }
                proof {
                    assert(scanned =~= tb_prefix(r as int, t as int, b as int, i + 1));
                }
            }
            let n_int = if b > t + 1 {
                b - t - 1
            } else {
                0
            };
            for k in 0..n_int
                invariant
                    self.wf(),
                    w == self.width(),
                    h == self.height(),
                    forall|t0: &T| call_requires(f, (t0,)),
                    l <= r < w,
                    t <= b < h,
                    cols == r - l + 1,
                    n_int == (if b + 0 > t + 1 {
                        b - t - 1
                    } else {
                        0
                    }),
                    scanned == tb_prefix(r as int, t as int, b as int, cols as int) + lr_prefix(
                        t as int,
                        l as int,
                        r as int,
                        k as int,
                    ),
                    keep_matches_on(self, f, scanned, keep),
                    ring@ == masked(scanned, keep),
            {
                let yc = t + 1 + k;
                proof {
                    assert(self@[yc as int].len() == self.width());
                }
                let vl = f(&self.vec2[yc][l]);
                if vl {
                    ring.push((l, yc));
                }
                proof {
                    lemma_masked_push(scanned, keep, (l, yc), vl);
                    scanned = scanned.push((l, yc));
                    keep = keep.push(vl);
                    assert(ring@ =~= masked(scanned, keep));
                }
                if l != r {
                    let vr = f(&self.vec2[yc][r]);
                    if vr {
                        ring.push((r, yc));
                    }
                    proof {
                        lemma_masked_push(scanned, keep, (r, yc), vr);
                        scanned = scanned.push((r, yc));
                        keep = keep.push(vr);
                        assert(ring@ =~= masked(scanned, keep));
                    }
                }
                proof {
                    assert(scanned =~= tb_prefix(r as int, t as int, b as int, cols as int)
                        + lr_prefix(t as int, l as int, r as int, k + 1));
                }
            }
            proof {
                assert(scanned =~= ring_scan(x as int, y as int, d as int, w as int, h as int));
            }
            if ring.len() > 0 {
                proof {
                    assert(ring_witness(self, x as int, y as int, d as int, keep, f, ring@));
                }
                return ring;
            }
            proof {
                lemma_masked_all_false(scanned, keep);
                let sc = ring_scan(x as int, y as int, d as int, w as int, h as int);
                assert forall|i: int| 0 <= i < sc.len() implies call_ensures(
                    f,
                    (&self.cell(sc[i].0 as int, sc[i].1 as int),),
                    false,
                ) by {
                    assert(!keep[i]);
                    assert(call_ensures(f, (&self.cell(sc[i].0 as int, sc[i].1 as int),), keep[i]));
                }
                assert(all_false_on(self, f, sc));
            }
        }
        proof {
            assert(ring@ =~= Seq::<(usize, usize)>::empty());
            assert(ring_witness(
                self,
                x as int,
                y as int,
                ring_count(w as int, h as int),
                Seq::<bool>::empty(),
                f,
                ring@,
            ));
        }
        ring
    }

    /// Bounds-checked write with strict `index >= length` checks: the row
    /// index is checked first against the number of rows, then the column
    /// index against the row's length.
    pub fn set(&mut self, x: usize, y: usize, value: T) -> (r: Result<(), GridError>)
        requires
            old(self).wf(),
        ensures
            final(self).wf(),
            final(self).width() == old(self).width(),
            final(self).height() == old(self).height(),
            old(self).in_bounds(x as int, y as int) ==> r is Ok && final(self)@ == old(
                self,
            )@.update(y as int, old(self)@[y as int].update(x as int, value)),
            !old(self).in_bounds(x as int, y as int) ==> final(self)@ == old(self)@,
            y as int >= old(self).height() ==> r == (Err::<(), GridError>(
                GridError::OutOfBounds { asked: y, max: (old(self).height() as usize) },
            )),
            (y as int) < old(self).height() && x as int >= old(self).width() ==> r == (Err::<
                (),
                GridError,
            >(GridError::OutOfBounds { asked: x, max: (old(self).width() as usize) })),
    {
        if y >= self.y_max {
            Err(GridError::OutOfBounds { asked: y, max: self.y_max })
        } else {
            let row_len = self.vec2[y].len();
            proof {
                assert(self@[y as int].len() == self.width());
            }
            if x >= row_len {
                Err(GridError::OutOfBounds { asked: x, max: row_len })
            } else {
                let row = &mut self.vec2[y];
                row.set(x, value);
                proof {
                    assert(self@ =~~= old(self)@.update(
                        y as int,
                        old(self)@[y as int].update(x as int, value),
                    ));
                }
                Ok(())
            }
        }
    }
}

} // verus!
