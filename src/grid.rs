use vstd::prelude::*;
use crate::extent::{end_offset_lat, end_offset_lon, get_end_offset, get_start_offset};
use crate::extent::{lemma_whole_cells_monotone, start_offset_lat, start_offset_lon, Extent};
use crate::decimal::{lemma_pow10_positive, Decimal};
use crate::level::{cells_per_degree, lemma_level_bounds, mesh_counts, valid_level};
use crate::level::{x_mesh_count, y_mesh_count, MeshError};

verus! {

/// The cells `x_start <= x < x_end`, `y_start <= y < y_end` that an enumeration
/// visits.
#[derive(Debug, Clone, Copy, PartialEq, Eq, Structural)]
pub struct GridWindow {
    pub x_start: u64,
    pub x_end: u64,
    pub y_start: u64,
    pub y_end: u64,
}

/// `a - b`, or 0 where `b > a`.
pub open spec fn sat_sub(a: int, b: int) -> int {
    if b >= a {
        0
    } else {
        a - b
    }
}

/// The smaller of `a` and `b`.
pub open spec fn min(a: int, b: int) -> int {
    if a <= b {
        a
    } else {
        b
    }
}

/// The window of a level: the whole reference area, or, with a box, from the
/// lower-left corner's start offsets up to the grid size less the upper-right
/// corner's end offsets (an empty range where these cross).
pub open spec fn window_of(level: int, extent: Option<Extent>) -> GridWindow {
    match extent {
        None => GridWindow {
            x_start: 0,
            x_end: x_mesh_count(level) as u64,
            y_start: 0,
            y_end: y_mesh_count(level) as u64,
        },
        Some(e) => {
            let x_end = sat_sub(x_mesh_count(level), end_offset_lon(level, e.righttop.lon));
            let y_end = sat_sub(y_mesh_count(level), end_offset_lat(level, e.righttop.lat));
            GridWindow {
                x_start: min(start_offset_lon(level, e.leftbottom.lon), x_end) as u64,
                x_end: x_end as u64,
                y_start: min(start_offset_lat(level, e.leftbottom.lat), y_end) as u64,
                y_end: y_end as u64,
            }
        },
    }
}

impl GridWindow {
    pub open spec fn wf(self, level: int) -> bool {
        &&& self.x_start <= self.x_end <= x_mesh_count(level)
        &&& self.y_start <= self.y_end <= y_mesh_count(level)
    }

    pub open spec fn width(self) -> int {
        self.x_end - self.x_start
    }

    pub open spec fn height(self) -> int {
        self.y_end - self.y_start
    }

    /// How many cells the window holds.
    pub open spec fn count(self) -> int {
        self.width() * self.height()
    }

    /// The `i`-th cell of the window in row-major order (rows south to north,
    /// cells west to east within a row).
    pub open spec fn cell_at(self, i: int) -> (int, int) {
        (self.x_start + i % self.width(), self.y_start + i / self.width())
    }

    /// Whether cell `(x, y)` lies in the window.
    pub open spec fn contains(self, x: int, y: int) -> bool {
        self.x_start <= x < self.x_end && self.y_start <= y < self.y_end
    }
}

/// The cells that an enumeration of a level visits, with or without a box; a
/// level outside `1..=9` is refused before anything is visited.
pub fn get_window(level: u8, extent: Option<Extent>) -> (r: Result<GridWindow, MeshError>)
    requires
        extent matches Some(e) ==> e.wf(),
    ensures
        valid_level(level as int) <==> r is Ok,
        !valid_level(level as int) ==> r == Err::<GridWindow, MeshError>(
            MeshError::UnsupportedLevel(level),
        ),
        r matches Ok(w) ==> w == window_of(level as int, extent) && w.wf(level as int),
{
    let (x_count, y_count) = match mesh_counts(level) {
        Ok(c) => c,
        Err(e) => {
            return Err(e);
        },
    };
    proof {
        lemma_level_bounds(level as int);
    }
    match extent {
        None => Ok(GridWindow { x_start: 0, x_end: x_count, y_start: 0, y_end: y_count }),
        Some(e) => {
            let start = match get_start_offset(level, e.leftbottom) {
                Ok(s) => s,
                Err(err) => {
                    return Err(err);
                },
            };
            let end = match get_end_offset(level, e.righttop) {
                Ok(s) => s,
                Err(err) => {
                    return Err(err);
                },
            };
            let x_end: u64 = if end.0 >= x_count as u128 {
                0
            } else {
                x_count - end.0 as u64
            };
            let y_end: u64 = if end.1 >= y_count as u128 {
                0
            } else {
                y_count - end.1 as u64
            };
            let x_start: u64 = if start.0 <= x_end as u128 {
                start.0 as u64
            } else {
                x_end
            };
            let y_start: u64 = if start.1 <= y_end as u128 {
                start.1 as u64
            } else {
                y_end
            };
            Ok(GridWindow { x_start, x_end, y_start, y_end })
        },
    }
}

/// The number of cells an enumeration of a level visits; a level outside `1..=9`
/// is refused.
pub fn feature_count(level: u8, extent: Option<Extent>) -> (r: Result<u64, MeshError>)
    requires
        extent matches Some(e) ==> e.wf(),
    ensures
        valid_level(level as int) <==> r is Ok,
        !valid_level(level as int) ==> r == Err::<u64, MeshError>(
            MeshError::UnsupportedLevel(level),
        ),
        r matches Ok(c) ==> c == window_of(level as int, extent).count(),
{
    let w = match get_window(level, extent) {
        Ok(w) => w,
        Err(e) => {
            return Err(e);
        },
    };
    proof {
        lemma_level_bounds(level as int);
        assert(w.width() * w.height() <= 256000 * 312000) by (nonlinear_arith)
            requires
                0 <= w.width() <= 256000,
                0 <= w.height() <= 312000,
        ;
    }
    Ok((w.x_end - w.x_start) * (w.y_end - w.y_start))
}

/// A walk over the cells of a window in row-major order, one cell per call.
pub struct MeshCursor {
    level: u8,
    window: GridWindow,
    next: u64,
}

impl MeshCursor {
    pub closed spec fn level_spec(self) -> int {
        self.level as int
    }

    pub closed spec fn window_spec(self) -> GridWindow {
        self.window
    }

    /// How many cells have been handed out.
    pub closed spec fn position(self) -> int {
        self.next as int
    }

    pub closed spec fn wf(self) -> bool {
        &&& valid_level(self.level as int)
        &&& self.window.wf(self.level as int)
        &&& self.next <= self.window.count()
    }

    /// A walk over the cells of a level, with or without a box; a level outside
    /// `1..=9` is refused.
    pub fn new(level: u8, extent: Option<Extent>) -> (r: Result<MeshCursor, MeshError>)
        requires
            extent matches Some(e) ==> e.wf(),
        ensures
            valid_level(level as int) <==> r is Ok,
            !valid_level(level as int) ==> r == Err::<MeshCursor, MeshError>(
                MeshError::UnsupportedLevel(level),
            ),
            r matches Ok(c) ==> {
                &&& c.wf()
                &&& c.level_spec() == level
                &&& c.window_spec() == window_of(level as int, extent)
                &&& c.position() == 0
            },
    {
        match get_window(level, extent) {
            Ok(window) => {
                proof {
                    assert(0 <= window.count()) by (nonlinear_arith)
                        requires
                            window.width() >= 0,
                            window.height() >= 0,
                    ;
                }
                Ok(MeshCursor { level, window, next: 0 })
            },
            Err(e) => Err(e),
        }
    }

    /// The level this walk is over.
    pub fn level(&self) -> (r: u8)
        ensures
            r == self.level_spec(),
    {
        self.level
    }

    /// The window this walk covers.
    pub fn window(&self) -> (r: GridWindow)
        ensures
            r == self.window_spec(),
    {
        self.window
    }

    /// The next cell `(x, y)` in row-major order, or `None` once every cell of the
    /// window has been handed out.
    pub fn next_cell(&mut self) -> (r: Option<(u64, u64)>)
        requires
            old(self).wf(),
        ensures
            final(self).wf(),
            final(self).level_spec() == old(self).level_spec(),
            final(self).window_spec() == old(self).window_spec(),
            old(self).position() < old(self).window_spec().count() ==> {
                &&& final(self).position() == old(self).position() + 1
                &&& r matches Some(c) && c.0 == old(self).window_spec().cell_at(
                    old(self).position(),
                ).0 && c.1 == old(self).window_spec().cell_at(old(self).position()).1
            },
            old(self).position() >= old(self).window_spec().count() ==> {
                &&& r is None
                &&& final(self).position() == old(self).position()
            },
    {
        let w = self.window;
        proof {
            lemma_level_bounds(self.level as int);
            assert(w.width() * w.height() <= 256000 * 312000) by (nonlinear_arith)
                requires
                    0 <= w.width() <= 256000,
                    0 <= w.height() <= 312000,
            ;
        }
        if self.next >= (w.x_end - w.x_start) * (w.y_end - w.y_start) {
            return None;
        }
        let width = w.x_end - w.x_start;
        let i = self.next;
        proof {
            assert(width > 0) by (nonlinear_arith)
                requires
                    i < w.width() * w.height(),
                    width == w.width(),
                    w.height() >= 0,
                    i >= 0,
            ;
            assert(i / width < w.height()) by (nonlinear_arith)
                requires
                    0 <= i < w.width() * w.height(),
                    width == w.width(),
                    width > 0,
            ;
            assert(i % width < width) by (nonlinear_arith)
                requires
                    width > 0,
            ;
        }
        let cell = (w.x_start + i % width, w.y_start + i / width);
        self.next = i + 1;
        Some(cell)
    }
}

/// Without a box, a walk visits every cell of the reference area: its window
/// holds `x_mesh_count(level) * y_mesh_count(level)` cells.
pub proof fn lemma_full_grid_count(level: int)
    requires
        valid_level(level),
    ensures
        window_of(level, None).count() == x_mesh_count(level) * y_mesh_count(level),
{
    lemma_level_bounds(level);
}

/// Scaling both sides of `p <= q` relative to an origin `c` keeps the order, and
/// reverses it when measured back from `c`.
proof fn lemma_scaled_order(p: Decimal, q: Decimal, c: int, k: int)
    requires
        p.le(q),
        k > 0,
    ensures
        (p.mantissa - c * p.den()) * k * q.den() <= (q.mantissa - c * q.den()) * k * p.den(),
        (c * q.den() - q.mantissa) * k * p.den() <= (c * p.den() - p.mantissa) * k * q.den(),
{
    lemma_pow10_positive(p.scale as nat);
    lemma_pow10_positive(q.scale as nat);
    let (mp, dp, mq, dq) = (p.mantissa as int, p.den(), q.mantissa as int, q.den());
    assert((mp - c * dp) * k * dq <= (mq - c * dq) * k * dp) by (nonlinear_arith)
        requires
            mp * dq <= mq * dp,
            k > 0,
    ;
    assert((c * dq - mq) * k * dp <= (c * dp - mp) * k * dq) by (nonlinear_arith)
        requires
            mp * dq <= mq * dp,
            k > 0,
    ;
}

/// Shrinking the box, by moving its lower-left corner up or right or its
/// upper-right corner down or left, never adds cells to the walk.
pub proof fn lemma_shrink_box(level: int, outer: Extent, inner: Extent)
    requires
        valid_level(level),
        outer.leftbottom.lon.le(inner.leftbottom.lon),
        outer.leftbottom.lat.le(inner.leftbottom.lat),
        inner.righttop.lon.le(outer.righttop.lon),
        inner.righttop.lat.le(outer.righttop.lat),
    ensures
        window_of(level, Some(inner)).count() <= window_of(level, Some(outer)).count(),
{
    lemma_level_bounds(level);
    let n = cells_per_degree(level);
    let (olb, ilb, ort, irt) = (outer.leftbottom, inner.leftbottom, outer.righttop, inner.righttop);
    lemma_pow10_positive(olb.lon.scale as nat);
    lemma_pow10_positive(ilb.lon.scale as nat);
    lemma_pow10_positive(olb.lat.scale as nat);
    lemma_pow10_positive(ilb.lat.scale as nat);
    lemma_pow10_positive(ort.lon.scale as nat);
    lemma_pow10_positive(irt.lon.scale as nat);
    lemma_pow10_positive(ort.lat.scale as nat);
    lemma_pow10_positive(irt.lat.scale as nat);
    lemma_scaled_order(olb.lon, ilb.lon, 122, n);
    lemma_whole_cells_monotone(
        (olb.lon.mantissa - 122 * olb.lon.den()) * n,
        olb.lon.den(),
        (ilb.lon.mantissa - 122 * ilb.lon.den()) * n,
        ilb.lon.den(),
    );
    lemma_scaled_order(olb.lat, ilb.lat, 20, 3 * n);
    assert((olb.lat.mantissa - 20 * olb.lat.den()) * (3 * n) * (2 * ilb.lat.den()) <= (
    ilb.lat.mantissa - 20 * ilb.lat.den()) * (3 * n) * (2 * olb.lat.den())) by (nonlinear_arith)
        requires
            (olb.lat.mantissa - 20 * olb.lat.den()) * (3 * n) * ilb.lat.den() <= (
            ilb.lat.mantissa - 20 * ilb.lat.den()) * (3 * n) * olb.lat.den(),
    ;
    lemma_whole_cells_monotone(
        (olb.lat.mantissa - 20 * olb.lat.den()) * (3 * n),
        2 * olb.lat.den(),
        (ilb.lat.mantissa - 20 * ilb.lat.den()) * (3 * n),
        2 * ilb.lat.den(),
    );
    lemma_scaled_order(irt.lon, ort.lon, 154, n);
    lemma_whole_cells_monotone(
        (154 * ort.lon.den() - ort.lon.mantissa) * n,
        ort.lon.den(),
        (154 * irt.lon.den() - irt.lon.mantissa) * n,
        irt.lon.den(),
    );
    lemma_scaled_order(irt.lat, ort.lat, 46, 3 * n);
    assert((46 * ort.lat.den() - ort.lat.mantissa) * (3 * n) * (2 * irt.lat.den()) <= (46
        * irt.lat.den() - irt.lat.mantissa) * (3 * n) * (2 * ort.lat.den())) by (nonlinear_arith)
        requires
            (46 * ort.lat.den() - ort.lat.mantissa) * (3 * n) * irt.lat.den() <= (46
                * irt.lat.den() - irt.lat.mantissa) * (3 * n) * ort.lat.den(),
    ;
    lemma_whole_cells_monotone(
        (46 * ort.lat.den() - ort.lat.mantissa) * (3 * n),
        2 * ort.lat.den(),
        (46 * irt.lat.den() - irt.lat.mantissa) * (3 * n),
        2 * irt.lat.den(),
    );
    let wi = window_of(level, Some(inner));
    let wo = window_of(level, Some(outer));
    assert(0 <= wi.width() <= wo.width());
    assert(0 <= wi.height() <= wo.height());
    assert(wi.count() <= wo.count()) by (nonlinear_arith)
        requires
            0 <= wi.width() <= wo.width(),
            0 <= wi.height() <= wo.height(),
    ;
}

/// The walk is a numbering of the window: the `i`-th cell lies in the window for
/// every `i` below the count, and every cell of the window is the `i`-th for its
/// row-major index `i`.
pub proof fn lemma_walk_covers_window(w: GridWindow, i: int, x: int, y: int)
    requires
        w.x_start <= w.x_end,
        w.y_start <= w.y_end,
    ensures
        0 <= i < w.count() ==> w.contains(w.cell_at(i).0, w.cell_at(i).1),
        w.contains(x, y) ==> {
            let j = (y - w.y_start) * w.width() + (x - w.x_start);
            &&& 0 <= j < w.count()
            &&& w.cell_at(j) == (x, y)
        },
{
    let wd = w.width();
    let h = w.height();
    if 0 <= i < w.count() {
        assert(wd > 0 && 0 <= i % wd < wd && 0 <= i / wd < h) by (nonlinear_arith)
            requires
                0 <= i < wd * h,
                wd >= 0,
                h >= 0,
        ;
    }
    if w.contains(x, y) {
        let (a, b) = (x - w.x_start, y - w.y_start);
        let j = b * wd + a;
        assert(0 <= j < wd * h && j % wd == a && j / wd == b) by (nonlinear_arith)
            requires
                0 <= a < wd,
                0 <= b < h,
                j == b * wd + a,
        ;
    }
}

} // verus!
