//! Orders in which a search may visit the cells of a grid.

use vstd::prelude::*;
use crate::puzzle_structure::{on_rim, PuzzleError};

verus! {

/// A cell position.
#[derive(Clone, Copy, Debug, PartialEq, Eq, Structural)]
pub struct Location {
    pub x: usize,
    pub y: usize,
}

/// The named visiting strategies.
#[derive(Clone, Copy, Debug, PartialEq, Eq, Structural)]
pub enum SearchOption {
    ScanRows,
    ScanColumns,
    ScanLargest,
    BuildSquare,
    SpiralIn,
    SpiralInSquare,
    SpiralOut,
    SpiralOutSquare,
    FrameFirstRows,
    FrameFirstColumns,
    FrameLastRows,
    FrameLastColumns,
}

/// The position `(x, y)`.
pub open spec fn loc(x: int, y: int) -> Location {
    Location { x: x as usize, y: y as usize }
}

/// The cells `(x0, y)`, `(x0 + 1, y)`, up to but without `(x1, y)`.
pub open spec fn row_stripe(x0: int, x1: int, y: int) -> Seq<Location> {
    Seq::new(
        if x1 > x0 {
            (x1 - x0) as nat
        } else {
            0
        },
        |i: int| loc(x0 + i, y),
    )
}

/// The cells `(x, y0)`, `(x, y0 + 1)`, up to but without `(x, y1)`.
pub open spec fn column_stripe(x: int, y0: int, y1: int) -> Seq<Location> {
    Seq::new(
        if y1 > y0 {
            (y1 - y0) as nat
        } else {
            0
        },
        |i: int| loc(x, y0 + i),
    )
}

/// The cells with `x0 <= x < x1` and `y0 <= y < y1`.
pub open spec fn rect_set(x0: int, x1: int, y0: int, y1: int) -> Set<Location> {
    Set::new(|l: Location| x0 <= l.x < x1 && y0 <= l.y < y1)
}

/// The cells of the `w` by `h` grid.
pub open spec fn grid_set(w: int, h: int) -> Set<Location> {
    rect_set(0, w, 0, h)
}

/// `s` lists every cell of `region` exactly once, and no other cell.
pub open spec fn arranges(s: Seq<Location>, region: Set<Location>) -> bool {
    &&& s.no_duplicates()
    &&& forall|l: Location| #[trigger] s.contains(l) <==> region.contains(l)
}

/// A row stripe lists the cells of a rectangle of height one.
pub proof fn lemma_row_stripe(x0: int, x1: int, y: int)
    requires
        0 <= x0 <= x1 <= usize::MAX,
        0 <= y <= usize::MAX,
    ensures
        arranges(row_stripe(x0, x1, y), rect_set(x0, x1, y, y + 1)),
        row_stripe(x0, x1, y).len() == x1 - x0,
{
    let s = row_stripe(x0, x1, y);
    assert forall|l: Location| #[trigger] s.contains(l) <==> rect_set(x0, x1, y, y + 1).contains(
        l,
    ) by {
        if rect_set(x0, x1, y, y + 1).contains(l) {
            assert(s[l.x - x0] == l);
        }
    }
}

/// A column stripe lists the cells of a rectangle of width one.
pub proof fn lemma_column_stripe(x: int, y0: int, y1: int)
    requires
        0 <= y0 <= y1 <= usize::MAX,
        0 <= x <= usize::MAX,
    ensures
        arranges(column_stripe(x, y0, y1), rect_set(x, x + 1, y0, y1)),
        column_stripe(x, y0, y1).len() == y1 - y0,
{
    let s = column_stripe(x, y0, y1);
    assert forall|l: Location| #[trigger] s.contains(l) <==> rect_set(x, x + 1, y0, y1).contains(
        l,
    ) by {
        if rect_set(x, x + 1, y0, y1).contains(l) {
            assert(s[l.y - y0] == l);
        }
    }
}

/// Two arrangements of regions without a common cell, one after the other,
/// arrange the union of the regions.
pub proof fn lemma_arranges_concat(
    a: Seq<Location>,
    ra: Set<Location>,
    b: Seq<Location>,
    rb: Set<Location>,
    r: Set<Location>,
)
    requires
        arranges(a, ra),
        arranges(b, rb),
        forall|l: Location| !(ra.contains(l) && rb.contains(l)),
        forall|l: Location| r.contains(l) <==> ra.contains(l) || rb.contains(l),
    ensures
        arranges(a + b, r),
{
    let s = a + b;
    assert forall|i: int, j: int| 0 <= i < a.len() && 0 <= j < b.len() implies a[i] != b[j] by {
        assert(a.contains(a[i]));
        assert(b.contains(b[j]));
    }
    vstd::seq_lib::lemma_no_dup_in_concat(a, b);
    assert forall|l: Location| #[trigger] s.contains(l) <==> r.contains(l) by {
        if s.contains(l) {
            let i = choose|i: int| 0 <= i < s.len() && s[i] == l;
            if i < a.len() {
                assert(a[i] == l);
                assert(a.contains(l));
            } else {
                assert(b[i - a.len()] == l);
                assert(b.contains(l));
            }
        }
        if ra.contains(l) {
            assert(a.contains(l));
            let i = choose|i: int| 0 <= i < a.len() && a[i] == l;
            assert(s[i] == l);
        }
        if rb.contains(l) {
            assert(b.contains(l));
            let i = choose|i: int| 0 <= i < b.len() && b[i] == l;
            assert(s[a.len() + i] == l);
        }
    }
}

/// An arrangement read backwards arranges the same region.
pub proof fn lemma_arranges_reverse(s: Seq<Location>, r: Set<Location>)
    requires
        arranges(s, r),
    ensures
        arranges(s.reverse(), r),
        s.reverse().len() == s.len(),
{
    let t = s.reverse();
    assert forall|l: Location| #[trigger] t.contains(l) <==> r.contains(l) by {
        if t.contains(l) {
            let i = choose|i: int| 0 <= i < t.len() && t[i] == l;
            assert(s[s.len() - 1 - i] == l);
            assert(s.contains(l));
        }
        if r.contains(l) {
            assert(s.contains(l));
            let i = choose|i: int| 0 <= i < s.len() && s[i] == l;
            assert(t[s.len() - 1 - i] == l);
        }
    }
}

/// The spiral through the rectangle `x0 <= x < x1`, `y0 <= y < y1` that
/// starts with side `dir`: the top row from left to right (0), the right
/// column from top to bottom (1), the bottom row from right to left (2), the
/// left column from bottom to top (3), and so on around what is left.
pub open spec fn spiral_seq(x0: int, x1: int, y0: int, y1: int, dir: int) -> Seq<Location>
    decreases
            (if x1 > x0 {
                x1 - x0
            } else {
                0
            }) + (if y1 > y0 {
                y1 - y0
            } else {
                0
            }),
{
    if x0 >= x1 || y0 >= y1 {
        Seq::empty()
    } else if dir == 0 {
        row_stripe(x0, x1, y0) + spiral_seq(x0, x1, y0 + 1, y1, 1)
    } else if dir == 1 {
        column_stripe(x1 - 1, y0, y1) + spiral_seq(x0, x1 - 1, y0, y1, 2)
    } else if dir == 2 {
        row_stripe(x0, x1, y1 - 1).reverse() + spiral_seq(x0, x1, y0, y1 - 1, 3)
    } else {
        column_stripe(x0, y0, y1).reverse() + spiral_seq(x0 + 1, x1, y0, y1, 0)
    }
}

/// The order that grows a square from the corner `(x0, y0)` of what is left
/// of the `w` by `h` grid: the leftmost column left while the rest is at
/// least as wide as high, otherwise the topmost row left.
pub open spec fn square_seq(w: int, h: int, x0: int, y0: int) -> Seq<Location>
    decreases
            (if w > x0 {
                w - x0
            } else {
                0
            }) + (if h > y0 {
                h - y0
            } else {
                0
            }),
{
    if x0 >= w || y0 >= h {
        Seq::empty()
    } else if w - x0 >= h - y0 {
        column_stripe(x0, y0, h) + square_seq(w, h, x0 + 1, y0)
    } else {
        row_stripe(x0, w, y0) + square_seq(w, h, x0, y0 + 1)
    }
}

/// The first `y` rows of a grid of width `w`, row after row.
pub open spec fn rows_upto(w: int, y: int) -> Seq<Location>
    decreases y,
{
    if y <= 0 {
        Seq::empty()
    } else {
        rows_upto(w, y - 1) + row_stripe(0, w, y - 1)
    }
}

/// The first `x` columns of a grid of height `h`, column after column.
pub open spec fn columns_upto(h: int, x: int) -> Seq<Location>
    decreases x,
{
    if x <= 0 {
        Seq::empty()
    } else {
        columns_upto(h, x - 1) + column_stripe(x - 1, 0, h)
    }
}

/// A spiral lists every cell of its rectangle exactly once.
pub proof fn lemma_spiral_arranges(x0: int, x1: int, y0: int, y1: int, dir: int)
    requires
        0 <= x0 <= x1 <= usize::MAX,
        0 <= y0 <= y1 <= usize::MAX,
    ensures
        arranges(spiral_seq(x0, x1, y0, y1, dir), rect_set(x0, x1, y0, y1)),
        spiral_seq(x0, x1, y0, y1, dir).len() == (x1 - x0) * (y1 - y0),
    decreases (x1 - x0) + (y1 - y0),
{
    let r = rect_set(x0, x1, y0, y1);
    if x0 >= x1 || y0 >= y1 {
        assert((x1 - x0) * (y1 - y0) == 0) by (nonlinear_arith)
            requires
                x1 - x0 == 0 || y1 - y0 == 0,
        ;
    } else if dir == 0 {
        lemma_row_stripe(x0, x1, y0);
        lemma_spiral_arranges(x0, x1, y0 + 1, y1, 1);
        lemma_arranges_concat(
            row_stripe(x0, x1, y0),
            rect_set(x0, x1, y0, y0 + 1),
            spiral_seq(x0, x1, y0 + 1, y1, 1),
            rect_set(x0, x1, y0 + 1, y1),
            r,
        );
        assert((x1 - x0) * (y1 - y0) == (x1 - x0) + (x1 - x0) * (y1 - (y0 + 1)))
            by (nonlinear_arith);
    } else if dir == 1 {
        lemma_column_stripe(x1 - 1, y0, y1);
        lemma_spiral_arranges(x0, x1 - 1, y0, y1, 2);
        lemma_arranges_concat(
            column_stripe(x1 - 1, y0, y1),
            rect_set(x1 - 1, x1, y0, y1),
            spiral_seq(x0, x1 - 1, y0, y1, 2),
            rect_set(x0, x1 - 1, y0, y1),
            r,
        );
        assert((x1 - x0) * (y1 - y0) == (y1 - y0) + (x1 - 1 - x0) * (y1 - y0))
            by (nonlinear_arith);
    } else if dir == 2 {
        lemma_row_stripe(x0, x1, y1 - 1);
        lemma_arranges_reverse(row_stripe(x0, x1, y1 - 1), rect_set(x0, x1, y1 - 1, y1));
        lemma_spiral_arranges(x0, x1, y0, y1 - 1, 3);
        lemma_arranges_concat(
            row_stripe(x0, x1, y1 - 1).reverse(),
            rect_set(x0, x1, y1 - 1, y1),
            spiral_seq(x0, x1, y0, y1 - 1, 3),
            rect_set(x0, x1, y0, y1 - 1),
            r,
        );
        assert((x1 - x0) * (y1 - y0) == (x1 - x0) + (x1 - x0) * (y1 - 1 - y0))
            by (nonlinear_arith);
    } else {
        lemma_column_stripe(x0, y0, y1);
        lemma_arranges_reverse(column_stripe(x0, y0, y1), rect_set(x0, x0 + 1, y0, y1));
        lemma_spiral_arranges(x0 + 1, x1, y0, y1, 0);
        lemma_arranges_concat(
            column_stripe(x0, y0, y1).reverse(),
            rect_set(x0, x0 + 1, y0, y1),
            spiral_seq(x0 + 1, x1, y0, y1, 0),
            rect_set(x0 + 1, x1, y0, y1),
            r,
        );
        assert((x1 - x0) * (y1 - y0) == (y1 - y0) + (x1 - (x0 + 1)) * (y1 - y0))
            by (nonlinear_arith);
    }
}

/// The square-growing order lists every cell of what is left exactly once.
pub proof fn lemma_square_arranges(w: int, h: int, x0: int, y0: int)
    requires
        0 <= x0 <= w <= usize::MAX,
        0 <= y0 <= h <= usize::MAX,
    ensures
        arranges(square_seq(w, h, x0, y0), rect_set(x0, w, y0, h)),
        square_seq(w, h, x0, y0).len() == (w - x0) * (h - y0),
    decreases (w - x0) + (h - y0),
{
    let r = rect_set(x0, w, y0, h);
    if x0 >= w || y0 >= h {
        assert((w - x0) * (h - y0) == 0) by (nonlinear_arith)
            requires
                w - x0 == 0 || h - y0 == 0,
        ;
    } else if w - x0 >= h - y0 {
        lemma_column_stripe(x0, y0, h);
        lemma_square_arranges(w, h, x0 + 1, y0);
        lemma_arranges_concat(
            column_stripe(x0, y0, h),
            rect_set(x0, x0 + 1, y0, h),
            square_seq(w, h, x0 + 1, y0),
            rect_set(x0 + 1, w, y0, h),
            r,
        );
        assert((w - x0) * (h - y0) == (h - y0) + (w - (x0 + 1)) * (h - y0)) by (nonlinear_arith);
    } else {
        lemma_row_stripe(x0, w, y0);
        lemma_square_arranges(w, h, x0, y0 + 1);
        lemma_arranges_concat(
            row_stripe(x0, w, y0),
            rect_set(x0, w, y0, y0 + 1),
            square_seq(w, h, x0, y0 + 1),
            rect_set(x0, w, y0 + 1, h),
            r,
        );
        assert((w - x0) * (h - y0) == (w - x0) + (w - x0) * (h - (y0 + 1))) by (nonlinear_arith);
    }
}

/// The first `y` rows list every cell of those rows exactly once.
pub proof fn lemma_rows_arrange(w: int, y: int)
    requires
        0 <= w <= usize::MAX,
        0 <= y <= usize::MAX,
    ensures
        arranges(rows_upto(w, y), rect_set(0, w, 0, y)),
        rows_upto(w, y).len() == w * y,
    decreases y,
{
    if y > 0 {
        lemma_rows_arrange(w, y - 1);
        lemma_row_stripe(0, w, y - 1);
        lemma_arranges_concat(
            rows_upto(w, y - 1),
            rect_set(0, w, 0, y - 1),
            row_stripe(0, w, y - 1),
            rect_set(0, w, y - 1, y),
            rect_set(0, w, 0, y),
        );
        assert(w * y == w * (y - 1) + w) by (nonlinear_arith);
    } else {
        assert(w * y == 0) by (nonlinear_arith)
            requires
                y == 0,
        ;
    }
}

/// The first `x` columns list every cell of those columns exactly once.
pub proof fn lemma_columns_arrange(h: int, x: int)
    requires
        0 <= h <= usize::MAX,
        0 <= x <= usize::MAX,
    ensures
        arranges(columns_upto(h, x), rect_set(0, x, 0, h)),
        columns_upto(h, x).len() == x * h,
    decreases x,
{
    if x > 0 {
        lemma_columns_arrange(h, x - 1);
        lemma_column_stripe(x - 1, 0, h);
        lemma_arranges_concat(
            columns_upto(h, x - 1),
            rect_set(0, x - 1, 0, h),
            column_stripe(x - 1, 0, h),
            rect_set(x - 1, x, 0, h),
            rect_set(0, x, 0, h),
        );
        assert(x * h == (x - 1) * h + h) by (nonlinear_arith);
    } else {
        assert(x * h == 0) by (nonlinear_arith)
            requires
                x == 0,
        ;
    }
}

/// A rectangle has as many cells as its width times its height.
pub proof fn lemma_rect_len(x0: int, x1: int, y0: int, y1: int)
    requires
        0 <= x0 <= x1 <= usize::MAX,
        0 <= y0 <= y1 <= usize::MAX,
    ensures
        rect_set(x0, x1, y0, y1).finite(),
        rect_set(x0, x1, y0, y1).len() == (x1 - x0) * (y1 - y0),
{
    let s = spiral_seq(x0, x1, y0, y1, 0);
    lemma_spiral_arranges(x0, x1, y0, y1, 0);
    s.unique_seq_to_set();
    vstd::seq_lib::seq_to_set_is_finite(s);
    assert(s.to_set() =~= rect_set(x0, x1, y0, y1));
}

/// The cell lies on the perimeter of the `w` by `h` grid.
pub open spec fn on_frame(w: int, h: int, l: Location) -> bool {
    on_rim(w, l.x as int) || on_rim(h, l.y as int)
}

/// The cells that a frame order visits in its first pass: the perimeter, or
/// every cell where the split is switched off.
pub open spec fn first_pass(w: int, h: int, ignore: bool) -> spec_fn(Location) -> bool {
    |l: Location| ignore || on_frame(w, h, l)
}

/// The cells that a frame order leaves for its second pass.
pub open spec fn second_pass(w: int, h: int, ignore: bool) -> spec_fn(Location) -> bool {
    |l: Location| !(ignore || on_frame(w, h, l))
}

/// A raster order split in two passes, the second pass first where `reverse`
/// is set.
pub open spec fn frame_seq(raster: Seq<Location>, w: int, h: int, ignore: bool, reverse: bool) -> Seq<
    Location,
> {
    let outer = raster.filter(first_pass(w, h, ignore));
    let inner = raster.filter(second_pass(w, h, ignore));
    if reverse {
        inner + outer
    } else {
        outer + inner
    }
}

/// The cell opposite to `l` through the centre of the grid.
pub open spec fn mirror(w: int, h: int, l: Location) -> Location {
    loc(w - 1 - l.x, h - 1 - l.y)
}

/// `mirror` as a function of the cell.
pub open spec fn mirror_fn(w: int, h: int) -> spec_fn(Location) -> Location {
    |l: Location| mirror(w, h, l)
}

/// What is kept of an arrangement arranges what is kept of its region.
pub proof fn lemma_arranges_filter(s: Seq<Location>, r: Set<Location>, p: spec_fn(Location) -> bool)
    requires
        arranges(s, r),
    ensures
        arranges(s.filter(p), r.filter(p)),
    decreases s.len(),
{
    reveal(Seq::filter);
    let f = s.filter(p);
    if s.len() == 0 {
        assert forall|l: Location| #[trigger] f.contains(l) <==> r.filter(p).contains(l) by {
            if r.contains(l) {
                assert(s.contains(l));
            }
        }
    } else {
        let rest = s.drop_last();
        let last = s.last();
        let rr = r.remove(last);
        assert(s.contains(last));
        assert forall|l: Location| #[trigger] rest.contains(l) <==> rr.contains(l) by {
            if rest.contains(l) {
                let i = choose|i: int| 0 <= i < rest.len() && rest[i] == l;
                assert(s[i] == l);
                assert(s.contains(l));
            }
            if rr.contains(l) {
                assert(s.contains(l));
                let i = choose|i: int| 0 <= i < s.len() && s[i] == l;
                assert(rest[i] == l);
            }
        }
        lemma_arranges_filter(rest, rr, p);
        let fr = rest.filter(p);
        assert(!fr.contains(last));
        assert forall|l: Location| #[trigger] f.contains(l) <==> r.filter(p).contains(l) by {
            if f.contains(l) {
                let i = choose|i: int| 0 <= i < f.len() && f[i] == l;
                if i < fr.len() {
                    assert(fr[i] == l);
                    assert(fr.contains(l));
                }
            }
            if r.filter(p).contains(l) {
                if l == last {
                    assert(f[f.len() - 1] == l);
                } else {
                    assert(rr.filter(p).contains(l));
                    assert(fr.contains(l));
                    let i = choose|i: int| 0 <= i < fr.len() && fr[i] == l;
                    assert(f[i] == l);
                }
            }
        }
        assert forall|i: int, j: int| 0 <= i < f.len() && 0 <= j < f.len() && i != j implies f[i]
            != f[j] by {
            if i < fr.len() && j < fr.len() {
                assert(fr[i] != fr[j]);
            } else if i < fr.len() {
                assert(fr.contains(fr[i]));
            } else if j < fr.len() {
                assert(fr.contains(fr[j]));
            }
        }
    }
}

/// The two passes together are as long as the raster order.
pub proof fn lemma_passes_len(s: Seq<Location>, w: int, h: int, ignore: bool)
    ensures
        s.filter(first_pass(w, h, ignore)).len() + s.filter(second_pass(w, h, ignore)).len()
            == s.len(),
    decreases s.len(),
{
    reveal(Seq::filter);
    if s.len() > 0 {
        lemma_passes_len(s.drop_last(), w, h, ignore);
    }
}

/// A raster order of the grid, split in two passes, still lists every cell
/// exactly once.
pub proof fn lemma_frame_arranges(
    raster: Seq<Location>,
    w: int,
    h: int,
    ignore: bool,
    reverse: bool,
)
    requires
        arranges(raster, grid_set(w, h)),
    ensures
        arranges(frame_seq(raster, w, h, ignore, reverse), grid_set(w, h)),
        frame_seq(raster, w, h, ignore, reverse).len() == raster.len(),
{
    let g = grid_set(w, h);
    let outer = first_pass(w, h, ignore);
    let inner = second_pass(w, h, ignore);
    lemma_arranges_filter(raster, g, outer);
    lemma_arranges_filter(raster, g, inner);
    lemma_passes_len(raster, w, h, ignore);
    if reverse {
        lemma_arranges_concat(raster.filter(inner), g.filter(inner), raster.filter(outer), g.filter(outer), g);
    } else {
        lemma_arranges_concat(raster.filter(outer), g.filter(outer), raster.filter(inner), g.filter(inner), g);
    }
}

/// Mirroring every cell of an arrangement of the grid gives an arrangement
/// of the grid.
pub proof fn lemma_arranges_mirror(s: Seq<Location>, w: int, h: int)
    requires
        0 <= w <= usize::MAX,
        0 <= h <= usize::MAX,
        arranges(s, grid_set(w, h)),
    ensures
        arranges(s.map_values(mirror_fn(w, h)), grid_set(w, h)),
        s.map_values(mirror_fn(w, h)).len() == s.len(),
{
    let t = s.map_values(mirror_fn(w, h));
    let g = grid_set(w, h);
    assert forall|i: int| 0 <= i < s.len() implies g.contains(#[trigger] s[i]) by {
        assert(s.contains(s[i]));
    }
    assert forall|l: Location| #[trigger] t.contains(l) <==> g.contains(l) by {
        if t.contains(l) {
            let i = choose|i: int| 0 <= i < t.len() && t[i] == l;
            assert(g.contains(s[i]));
        }
        if g.contains(l) {
            let m = mirror(w, h, l);
            assert(g.contains(m));
            assert(s.contains(m));
            let i = choose|i: int| 0 <= i < s.len() && s[i] == m;
            assert(t[i] == l);
        }
    }
    assert forall|i: int, j: int| 0 <= i < t.len() && 0 <= j < t.len() && i != j implies t[i]
        != t[j] by {
        assert(g.contains(s[i]));
        assert(g.contains(s[j]));
        assert(s[i] != s[j]);
    }
}

/// Appends the cells of row `y` from column `x0` up to but without `x1`,
/// from right to left where `backwards` is set.
fn push_row(order: &mut Vec<Location>, x0: usize, x1: usize, y: usize, backwards: bool)
    requires
        x0 <= x1,
    ensures
        final(order)@ == old(order)@ + (if backwards {
            row_stripe(x0 as int, x1 as int, y as int).reverse()
        } else {
            row_stripe(x0 as int, x1 as int, y as int)
        }),
{
    let ghost before = order@;
    let ghost stripe = if backwards {
        row_stripe(x0 as int, x1 as int, y as int).reverse()
    } else {
        row_stripe(x0 as int, x1 as int, y as int)
    };
    let n: usize = x1 - x0;
    let mut i: usize = 0;
    assert(before + stripe.take(0) =~= before);
    while i < n
        invariant
            x0 <= x1,
            n == x1 - x0,
            i <= n,
            stripe.len() == n,
            stripe == (if backwards {
                row_stripe(x0 as int, x1 as int, y as int).reverse()
            } else {
                row_stripe(x0 as int, x1 as int, y as int)
            }),
            order@ == before + stripe.take(i as int),
        decreases n - i,
    {
        let x: usize = if backwards {
            x1 - 1 - i
        } else {
            x0 + i
        };
        let l = Location { x, y };
        assert(stripe[i as int] == l);
        assert(before + stripe.take(i + 1) =~= (before + stripe.take(i as int)).push(l));
        order.push(l);
        i = i + 1;
    }
    assert(stripe.take(n as int) =~= stripe);
}

/// Appends the cells of column `x` from row `y0` up to but without `y1`,
/// from bottom to top where `backwards` is set.
fn push_column(order: &mut Vec<Location>, x: usize, y0: usize, y1: usize, backwards: bool)
    requires
        y0 <= y1,
    ensures
        final(order)@ == old(order)@ + (if backwards {
            column_stripe(x as int, y0 as int, y1 as int).reverse()
        } else {
            column_stripe(x as int, y0 as int, y1 as int)
        }),
{
    let ghost before = order@;
    let ghost stripe = if backwards {
        column_stripe(x as int, y0 as int, y1 as int).reverse()
    } else {
        column_stripe(x as int, y0 as int, y1 as int)
    };
    let n: usize = y1 - y0;
    let mut i: usize = 0;
    assert(before + stripe.take(0) =~= before);
    while i < n
        invariant
            y0 <= y1,
            n == y1 - y0,
            i <= n,
            stripe.len() == n,
            stripe == (if backwards {
                column_stripe(x as int, y0 as int, y1 as int).reverse()
            } else {
                column_stripe(x as int, y0 as int, y1 as int)
            }),
            order@ == before + stripe.take(i as int),
        decreases n - i,
    {
        let y: usize = if backwards {
            y1 - 1 - i
        } else {
            y0 + i
        };
        let l = Location { x, y };
        assert(stripe[i as int] == l);
        assert(before + stripe.take(i + 1) =~= (before + stripe.take(i as int)).push(l));
        order.push(l);
        i = i + 1;
    }
    assert(stripe.take(n as int) =~= stripe);
}

/// The cells of `order` from the last to the first.
fn reversed(order: &Vec<Location>) -> (r: Vec<Location>)
    ensures
        r@ == order@.reverse(),
{
    let n: usize = order.len();
    let mut r: Vec<Location> = Vec::new();
    let mut i: usize = 0;
    while i < n
        invariant
            n == order@.len(),
            i <= n,
            r@.len() == i,
            forall|k: int| 0 <= k < i ==> #[trigger] r@[k] == order@[n - 1 - k],
        decreases n - i,
    {
        r.push(order[n - 1 - i]);
        i = i + 1;
    }
    assert(r@ =~= order@.reverse());
    r
}

/// Every cell of `order` mirrored through the centre of the grid.
fn mirrored(order: &Vec<Location>, width: usize, height: usize) -> (r: Vec<Location>)
    requires
        forall|i: int|
            0 <= i < order@.len() ==> (#[trigger] order@[i]).x < width && order@[i].y < height,
    ensures
        r@ == order@.map_values(mirror_fn(width as int, height as int)),
{
    let n: usize = order.len();
    let mut r: Vec<Location> = Vec::new();
    let mut i: usize = 0;
    while i < n
        invariant
            n == order@.len(),
            i <= n,
            r@.len() == i,
            forall|k: int|
                0 <= k < order@.len() ==> (#[trigger] order@[k]).x < width && order@[k].y < height,
            forall|k: int|
                0 <= k < i ==> #[trigger] r@[k] == mirror(width as int, height as int, order@[k]),
        decreases n - i,
    {
        let l = order[i];
        r.push(Location { x: width - 1 - l.x, y: height - 1 - l.y });
        i = i + 1;
    }
    assert(r@ =~= order@.map_values(mirror_fn(width as int, height as int)));
    r
}

/// Visits the grid row after row. Unless `ignore` is set, the cells of the
/// perimeter come in a pass of their own, before the others, or after them
/// where `reverse` is set.
pub fn frame_rows(width: usize, height: usize, ignore: bool, reverse: bool) -> (r: Vec<Location>)
    ensures
        r@ == frame_seq(
            rows_upto(width as int, height as int),
            width as int,
            height as int,
            ignore,
            reverse,
        ),
        arranges(r@, grid_set(width as int, height as int)),
        r@.len() == width * height,
{
    let ghost w = width as int;
    let ghost h = height as int;
    let ghost outer = first_pass(w, h, ignore);
    let ghost inner = second_pass(w, h, ignore);
    let mut order: Vec<Location> = Vec::new();
    let mut order_inner: Vec<Location> = Vec::new();
    let mut y: usize = 0;
    proof {
        reveal(Seq::filter);
        assert(rows_upto(w, 0).filter(outer) =~= Seq::<Location>::empty());
        assert(rows_upto(w, 0).filter(inner) =~= Seq::<Location>::empty());
    }
    while y < height
        invariant
            w == width,
            h == height,
            outer == first_pass(w, h, ignore),
            inner == second_pass(w, h, ignore),
            y <= height,
            order@ == rows_upto(w, y as int).filter(outer),
            order_inner@ == rows_upto(w, y as int).filter(inner),
        decreases height - y,
    {
        let other_edge = y == 0 || y == height - 1;
        let ghost done = rows_upto(w, y as int);
        let ghost stripe = row_stripe(0, w, y as int);
        let mut x: usize = 0;
        assert(done + stripe.take(0) =~= done);
        while x < width
            invariant
                w == width,
                h == height,
                outer == first_pass(w, h, ignore),
                inner == second_pass(w, h, ignore),
                y < height,
                x <= width,
                other_edge == on_rim(h, y as int),
                done == rows_upto(w, y as int),
                stripe == row_stripe(0, w, y as int),
                order@ == (done + stripe.take(x as int)).filter(outer),
                order_inner@ == (done + stripe.take(x as int)).filter(inner),
            decreases width - x,
        {
            let side_edge = x == 0 || x == width - 1;
            let location = Location { x, y };
            proof {
                let prefix = done + stripe.take(x as int);
                assert(stripe[x as int] == location);
                assert(done + stripe.take(x + 1) =~= prefix.push(location));
                prefix.lemma_filter_push(location, outer);
                prefix.lemma_filter_push(location, inner);
            }
            if side_edge || other_edge || ignore {
                order.push(location);
            } else {
                order_inner.push(location);
            }
            x = x + 1;
        }
        assert(stripe.take(width as int) =~= stripe);
        y = y + 1;
    }
    proof {
        lemma_rows_arrange(w, h);
        lemma_frame_arranges(rows_upto(w, h), w, h, ignore, reverse);
        assert(w * h == h * w) by (nonlinear_arith);
    }
    if reverse {
        order_inner.append(&mut order);
        return order_inner;
    }
    order.append(&mut order_inner);
    order
}

/// Visits the grid column after column. Unless `ignore` is set, the cells of
/// the perimeter come in a pass of their own, before the others, or after
/// them where `reverse` is set.
pub fn frame_columns(width: usize, height: usize, ignore: bool, reverse: bool) -> (r: Vec<
    Location,
>)
    ensures
        r@ == frame_seq(
            columns_upto(height as int, width as int),
            width as int,
            height as int,
            ignore,
            reverse,
        ),
        arranges(r@, grid_set(width as int, height as int)),
        r@.len() == width * height,
{
    let ghost w = width as int;
    let ghost h = height as int;
    let ghost outer = first_pass(w, h, ignore);
    let ghost inner = second_pass(w, h, ignore);
    let mut order: Vec<Location> = Vec::new();
    let mut order_inner: Vec<Location> = Vec::new();
    let mut x: usize = 0;
    proof {
        reveal(Seq::filter);
        assert(columns_upto(h, 0).filter(outer) =~= Seq::<Location>::empty());
        assert(columns_upto(h, 0).filter(inner) =~= Seq::<Location>::empty());
    }
    while x < width
        invariant
            w == width,
            h == height,
            outer == first_pass(w, h, ignore),
            inner == second_pass(w, h, ignore),
            x <= width,
            order@ == columns_upto(h, x as int).filter(outer),
            order_inner@ == columns_upto(h, x as int).filter(inner),
        decreases width - x,
    {
        let side_edge = x == 0 || x == width - 1;
        let ghost done = columns_upto(h, x as int);
        let ghost stripe = column_stripe(x as int, 0, h);
        let mut y: usize = 0;
        assert(done + stripe.take(0) =~= done);
        while y < height
            invariant
                w == width,
                h == height,
                outer == first_pass(w, h, ignore),
                inner == second_pass(w, h, ignore),
                x < width,
                y <= height,
                side_edge == on_rim(w, x as int),
                done == columns_upto(h, x as int),
                stripe == column_stripe(x as int, 0, h),
                order@ == (done + stripe.take(y as int)).filter(outer),
                order_inner@ == (done + stripe.take(y as int)).filter(inner),
            decreases height - y,
        {
            let other_edge = y == 0 || y == height - 1;
            let location = Location { x, y };
            proof {
                let prefix = done + stripe.take(y as int);
                assert(stripe[y as int] == location);
                assert(done + stripe.take(y + 1) =~= prefix.push(location));
                prefix.lemma_filter_push(location, outer);
                prefix.lemma_filter_push(location, inner);
            }
            if side_edge || other_edge || ignore {
                order.push(location);
            } else {
                order_inner.push(location);
            }
            y = y + 1;
        }
        assert(stripe.take(height as int) =~= stripe);
        x = x + 1;
    }
    proof {
        lemma_columns_arrange(h, w);
        lemma_frame_arranges(columns_upto(h, w), w, h, ignore, reverse);
    }
    if reverse {
        order_inner.append(&mut order);
        return order_inner;
    }
    order.append(&mut order_inner);
    order
}

/// The square-growing order of the whole grid; where `reverse` is set, read
/// backwards with every cell mirrored through the centre, so that the square
/// grows from the opposite corner.
pub open spec fn square_order(w: int, h: int, reverse: bool) -> Seq<Location> {
    if reverse {
        square_seq(w, h, 0, 0).reverse().map_values(mirror_fn(w, h))
    } else {
        square_seq(w, h, 0, 0)
    }
}

/// The inward spiral of the whole grid, read backwards where `reverse` is
/// set.
pub open spec fn spiral_order(w: int, h: int, reverse: bool) -> Seq<Location> {
    if reverse {
        spiral_seq(0, w, 0, h, 0).reverse()
    } else {
        spiral_seq(0, w, 0, h, 0)
    }
}

/// Visits the grid so that the visited region stays close to a square: it
/// takes the leftmost column left while what is left is at least as wide as
/// high, otherwise the topmost row left. With `reverse` the order is read
/// backwards and mirrored.
pub fn build_square(width: usize, height: usize, size: usize, reverse: bool) -> (r: Vec<Location>)
    requires
        size == width * height,
    ensures
        r@ == square_order(width as int, height as int, reverse),
        arranges(r@, grid_set(width as int, height as int)),
        r@.len() == size,
{
    let ghost w = width as int;
    let ghost h = height as int;
    let ghost full = square_seq(w, h, 0, 0);
    let mut start_x: usize = 0;
    let mut start_y: usize = 0;
    let mut order: Vec<Location> = Vec::new();
    proof {
        lemma_square_arranges(w, h, 0, 0);
        assert(order@ + full =~= full);
    }
    while order.len() < size && start_x < width && start_y < height
        invariant
            w == width,
            h == height,
            full == square_seq(w, h, 0, 0),
            full.len() == size,
            start_x <= width,
            start_y <= height,
            order@ + square_seq(w, h, start_x as int, start_y as int) == full,
        decreases (width - start_x) + (height - start_y),
    {
        let left_width: usize = width - start_x;
        let left_height: usize = height - start_y;
        let ghost before = order@;
        if left_width >= left_height {
            push_column(&mut order, start_x, start_y, height, false);
            assert(order@ + square_seq(w, h, start_x + 1, start_y as int) =~= before + (
            column_stripe(start_x as int, start_y as int, h) + square_seq(
                w,
                h,
                start_x + 1,
                start_y as int,
            )));
            start_x = start_x + 1;
        } else {
            push_row(&mut order, start_x, width, start_y, false);
            assert(order@ + square_seq(w, h, start_x as int, start_y + 1) =~= before + (row_stripe(
                start_x as int,
                w,
                start_y as int,
            ) + square_seq(w, h, start_x as int, start_y + 1)));
            start_y = start_y + 1;
        }
    }
    assert(order@ =~= full);
    if reverse {
        let backwards = reversed(&order);
        proof {
            lemma_arranges_reverse(full, grid_set(w, h));
            lemma_arranges_mirror(full.reverse(), w, h);
            assert forall|i: int| 0 <= i < backwards@.len() implies (#[trigger] backwards@[i]).x
                < width && backwards@[i].y < height by {
                assert(backwards@.contains(backwards@[i]));
            }
        }
        return mirrored(&backwards, width, height);
    }
    order
}

/// Visits the grid along a spiral from the outside in: the top row from
/// left to right, the right column from top to bottom, the bottom row from
/// right to left, the left column from bottom to top, and so on around what
/// is left. With `reverse` the spiral runs from the inside out. The order
/// does not depend on `keep_square`.
pub fn spiral(width: usize, height: usize, size: usize, keep_square: bool, reverse: bool) -> (r:
    Vec<Location>)
    requires
        size == width * height,
    ensures
        r@ == spiral_order(width as int, height as int, reverse),
        arranges(r@, grid_set(width as int, height as int)),
        r@.len() == size,
{
    let ghost w = width as int;
    let ghost h = height as int;
    let ghost full = spiral_seq(0, w, 0, h, 0);
    let mut start_x: usize = 0;
    let mut start_y: usize = 0;
    let mut end_x: usize = width;
    let mut end_y: usize = height;
    let mut order: Vec<Location> = Vec::new();
    let mut direction: usize = 0;
    proof {
        lemma_spiral_arranges(0, w, 0, h, 0);
        assert(order@ + full =~= full);
    }
    while order.len() < size && start_x < end_x && start_y < end_y
        invariant
            w == width,
            h == height,
            full == spiral_seq(0, w, 0, h, 0),
            full.len() == size,
            start_x <= end_x <= width,
            start_y <= end_y <= height,
            direction < 4,
            order@ + spiral_seq(
                start_x as int,
                end_x as int,
                start_y as int,
                end_y as int,
                direction as int,
            ) == full,
        decreases (end_x - start_x) + (end_y - start_y),
    {
        let ghost before = order@;
        let ghost x0 = start_x as int;
        let ghost x1 = end_x as int;
        let ghost y0 = start_y as int;
        let ghost y1 = end_y as int;
        if direction == 0 {
            push_row(&mut order, start_x, end_x, start_y, false);
            start_y = start_y + 1;
            assert(order@ + spiral_seq(x0, x1, y0 + 1, y1, 1) =~= before + (row_stripe(x0, x1, y0)
                + spiral_seq(x0, x1, y0 + 1, y1, 1)));
        } else if direction == 1 {
            push_column(&mut order, end_x - 1, start_y, end_y, false);
            end_x = end_x - 1;
            assert(order@ + spiral_seq(x0, x1 - 1, y0, y1, 2) =~= before + (column_stripe(
                x1 - 1,
                y0,
                y1,
            ) + spiral_seq(x0, x1 - 1, y0, y1, 2)));
        } else if direction == 2 {
            push_row(&mut order, start_x, end_x, end_y - 1, true);
            end_y = end_y - 1;
            assert(order@ + spiral_seq(x0, x1, y0, y1 - 1, 3) =~= before + (row_stripe(
                x0,
                x1,
                y1 - 1,
            ).reverse() + spiral_seq(x0, x1, y0, y1 - 1, 3)));
        } else {
            push_column(&mut order, start_x, start_y, end_y, true);
            start_x = start_x + 1;
            assert(order@ + spiral_seq(x0 + 1, x1, y0, y1, 0) =~= before + (column_stripe(
                x0,
                y0,
                y1,
            ).reverse() + spiral_seq(x0 + 1, x1, y0, y1, 0)));
        }
        direction = (direction + 1) % 4;
    }
    assert(order@ =~= full);
    if reverse {
        proof {
            lemma_arranges_reverse(full, grid_set(w, h));
        }
        return reversed(&order);
    }
    order
}

/// The order that a strategy gives on the `w` by `h` grid.
pub open spec fn order_of(w: int, h: int, option: SearchOption) -> Seq<Location> {
    match option {
        SearchOption::ScanColumns => frame_seq(columns_upto(h, w), w, h, true, false),
        SearchOption::ScanRows => frame_seq(rows_upto(w, h), w, h, true, false),
        SearchOption::ScanLargest => square_order(w, h, false),
        SearchOption::BuildSquare => square_order(w, h, true),
        SearchOption::SpiralIn => spiral_order(w, h, false),
        SearchOption::SpiralInSquare => spiral_order(w, h, false),
        SearchOption::SpiralOut => spiral_order(w, h, true),
        SearchOption::SpiralOutSquare => spiral_order(w, h, true),
        SearchOption::FrameFirstColumns => frame_seq(columns_upto(h, w), w, h, false, false),
        SearchOption::FrameFirstRows => frame_seq(rows_upto(w, h), w, h, false, false),
        SearchOption::FrameLastColumns => frame_seq(columns_upto(h, w), w, h, false, true),
        SearchOption::FrameLastRows => frame_seq(rows_upto(w, h), w, h, false, true),
    }
}

/// An order in which to visit every cell of a grid once.
pub struct SearchOrder {
    pub width: usize,
    pub height: usize,
    pub size: usize,
    pub order: Vec<Location>,
}

impl SearchOrder {
    /// The invariant of a search order: it lists every cell of its grid
    /// exactly once.
    pub open spec fn wf(&self) -> bool {
        &&& self.width > 1
        &&& self.height > 1
        &&& self.size == self.width * self.height
        &&& self.order@.len() == self.size
        &&& arranges(self.order@, grid_set(self.width as int, self.height as int))
    }

    /// The order in which `search_option` visits the `width` by `height`
    /// grid. A width or height below two is turned down. The number of cells
    /// must fit the machine word.
    pub fn new(width: usize, height: usize, search_option: SearchOption) -> (r: Result<
        SearchOrder,
        PuzzleError,
    >)
        requires
            width > 1 && height > 1 ==> width * height <= usize::MAX,
        ensures
            width <= 1 || height <= 1 ==> r == Err::<SearchOrder, PuzzleError>(
                PuzzleError::InvalidDimensions,
            ),
            width > 1 && height > 1 ==> {
                &&& r is Ok
                &&& r->Ok_0.wf()
                &&& r->Ok_0.width == width
                &&& r->Ok_0.height == height
                &&& r->Ok_0.order@ == order_of(width as int, height as int, search_option)
            },
    {
        if width <= 1 || height <= 1 {
            return Err(PuzzleError::InvalidDimensions);
        }
        let size: usize = width * height;
        let order: Vec<Location> = match search_option {
            SearchOption::ScanColumns => frame_columns(width, height, true, false),
            SearchOption::ScanRows => frame_rows(width, height, true, false),
            SearchOption::ScanLargest => build_square(width, height, size, false),
            SearchOption::BuildSquare => build_square(width, height, size, true),
            SearchOption::SpiralIn => spiral(width, height, size, false, false),
            SearchOption::SpiralInSquare => spiral(width, height, size, true, false),
            SearchOption::SpiralOut => spiral(width, height, size, false, true),
            SearchOption::SpiralOutSquare => spiral(width, height, size, true, true),
            SearchOption::FrameFirstColumns => frame_columns(width, height, false, false),
            SearchOption::FrameFirstRows => frame_rows(width, height, false, false),
            SearchOption::FrameLastColumns => frame_columns(width, height, false, true),
            SearchOption::FrameLastRows => frame_rows(width, height, false, true),
        };
        Ok(SearchOrder { width, height, size, order })
    }
}

} // verus!
