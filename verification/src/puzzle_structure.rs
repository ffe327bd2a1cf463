//! The logical grid of a puzzle: cells, their roles, and the joins between
//! grid-adjacent cells.

use vstd::prelude::*;

verus! {

/// The role of a cell, fixed by how many neighbours it has.
#[derive(Clone, Copy, Debug, PartialEq, Eq, Structural)]
pub enum LocationType {
    Corner,
    Edge,
    Interior,
}

/// The kind of a join: along the perimeter of the grid, or across its inside.
#[derive(Clone, Copy, Debug, PartialEq, Eq, Structural)]
pub enum JoinType {
    Border,
    Middle,
}

/// One end of a join as seen from a cell: the neighbour's position and the
/// kind of the join that leads to it.
#[derive(Clone, Copy, Debug, PartialEq, Eq, Structural)]
pub struct Join {
    pub x: usize,
    pub y: usize,
    pub join_type: JoinType,
}

/// A cell of the grid with its role and its joins.
#[derive(Clone, Debug)]
pub struct Cell {
    pub x: usize,
    pub y: usize,
    pub location_type: LocationType,
    pub joins: Vec<Join>,
}

/// Why a request was turned down.
#[derive(Clone, Copy, Debug, PartialEq, Eq, Structural)]
pub enum PuzzleError {
    /// The width or the height is below two.
    InvalidDimensions,
    /// No border colour or no middle colour was asked for.
    InvalidColorCount,
    /// A search order and a puzzle structure disagree on width or height.
    DimensionMismatch,
}

/// Horizontal step of direction `d`; the four directions are right, down,
/// left and up, in that order.
pub open spec fn step_x(d: int) -> int {
    if d == 0 {
        1
    } else if d == 2 {
        -1
    } else {
        0
    }
}

/// Vertical step of direction `d`.
pub open spec fn step_y(d: int) -> int {
    if d == 1 {
        1
    } else if d == 3 {
        -1
    } else {
        0
    }
}

/// `(x, y)` is a cell of the `w` by `h` grid.
pub open spec fn in_grid(w: int, h: int, x: int, y: int) -> bool {
    0 <= x < w && 0 <= y < h
}

/// `x` is the first or the last column (or row) of `n`.
pub open spec fn on_rim(n: int, x: int) -> bool {
    x == 0 || x == n - 1
}

/// Both cells lie on one and the same side of the perimeter.
pub open spec fn same_side(w: int, h: int, x1: int, y1: int, x2: int, y2: int) -> bool {
    (x1 == x2 && on_rim(w, x1)) || (y1 == y2 && on_rim(h, y1))
}

/// The kind of the join between two adjacent cells.
pub open spec fn join_kind(w: int, h: int, x1: int, y1: int, x2: int, y2: int) -> JoinType {
    if same_side(w, h, x1, y1, x2, y2) {
        JoinType::Border
    } else {
        JoinType::Middle
    }
}

/// The cell `(x, y)` has a neighbour in direction `d`.
pub open spec fn has_neighbor(w: int, h: int, x: int, y: int, d: int) -> bool {
    in_grid(w, h, x + step_x(d), y + step_y(d))
}

/// The join from `(x, y)` in direction `d`.
pub open spec fn join_towards(w: int, h: int, x: int, y: int, d: int) -> Join {
    Join {
        x: (x + step_x(d)) as usize,
        y: (y + step_y(d)) as usize,
        join_type: join_kind(w, h, x, y, x + step_x(d), y + step_y(d)),
    }
}

/// `s`, followed by the join in direction `d` where the grid has one.
pub open spec fn add_join(s: Seq<Join>, w: int, h: int, x: int, y: int, d: int) -> Seq<Join> {
    if has_neighbor(w, h, x, y, d) {
        s.push(join_towards(w, h, x, y, d))
    } else {
        s
    }
}

/// The joins of the cell `(x, y)`, in the order right, down, left, up.
pub open spec fn cell_joins(w: int, h: int, x: int, y: int) -> Seq<Join> {
    add_join(
        add_join(add_join(add_join(Seq::empty(), w, h, x, y, 0), w, h, x, y, 1), w, h, x, y, 2),
        w,
        h,
        x,
        y,
        3,
    )
}

/// The role of the cell `(x, y)`: a corner lies on two sides of the
/// perimeter, an edge on one, an interior cell on none.
pub open spec fn cell_role(w: int, h: int, x: int, y: int) -> LocationType {
    if on_rim(w, x) && on_rim(h, y) {
        LocationType::Corner
    } else if on_rim(w, x) || on_rim(h, y) {
        LocationType::Edge
    } else {
        LocationType::Interior
    }
}

/// Number of the joins of `(x, y)` that run along the perimeter.
pub open spec fn border_degree(w: int, h: int, x: int, y: int) -> int {
    (if on_rim(h, y) { line_degree(w, x) } else { 0 })
        + (if on_rim(w, x) { line_degree(h, y) } else { 0 })
}

/// Number of neighbours of position `x` on a line of `n` positions.
pub open spec fn line_degree(n: int, x: int) -> int {
    if on_rim(n, x) {
        1
    } else {
        2
    }
}

/// Number of joins of `(x, y)`.
pub open spec fn degree(w: int, h: int, x: int, y: int) -> int {
    line_degree(w, x) + line_degree(h, y)
}

/// The role that goes with a number of joins.
pub open spec fn role_of_degree(joins: int) -> LocationType {
    if joins == 2 {
        LocationType::Corner
    } else if joins == 3 {
        LocationType::Edge
    } else {
        LocationType::Interior
    }
}

/// A cell has as many joins as it has neighbours, some of them along the
/// perimeter, and its role follows from their number: two for a corner,
/// three for an edge, four for an interior cell.
pub proof fn lemma_role_by_degree(w: int, h: int, x: int, y: int)
    requires
        w > 1,
        h > 1,
        in_grid(w, h, x, y),
    ensures
        cell_joins(w, h, x, y).len() == degree(w, h, x, y),
        2 <= degree(w, h, x, y) <= 4,
        0 <= border_degree(w, h, x, y) <= degree(w, h, x, y),
        role_of_degree(degree(w, h, x, y)) == cell_role(w, h, x, y),
{
}

/// `c` is the cell `(x, y)` of the `w` by `h` grid.
pub open spec fn cell_ok(c: Cell, w: int, h: int, x: int, y: int) -> bool {
    &&& c.x == x
    &&& c.y == y
    &&& c.joins@ == cell_joins(w, h, x, y)
    &&& c.joins@.len() == degree(w, h, x, y)
    &&& c.location_type == cell_role(w, h, x, y)
}

/// One if the cell `(x, y)` has a join in direction `d`, else zero.
spec fn any_towards(w: int, h: int, x: int, y: int, d: int) -> int {
    if has_neighbor(w, h, x, y, d) {
        1
    } else {
        0
    }
}

/// One if the cell `(x, y)` has a join along the perimeter in direction `d`,
/// else zero.
spec fn border_towards(w: int, h: int, x: int, y: int, d: int) -> int {
    if has_neighbor(w, h, x, y, d) && same_side(w, h, x, y, x + step_x(d), y + step_y(d)) {
        1
    } else {
        0
    }
}

/// What one cell adds to the running tallies.
struct CellTally {
    pub borders: usize,
    pub middles: usize,
}

/// Appends to `joins` the join of `(x, y)` in direction `d`, if the grid has
/// one, and counts it in `tally`.
fn push_join(
    joins: &mut Vec<Join>,
    tally: &mut CellTally,
    width: usize,
    height: usize,
    x: usize,
    y: usize,
    d: u8,
)
    requires
        width > 1,
        height > 1,
        x < width,
        y < height,
        d < 4,
        old(tally).borders + old(tally).middles <= 3,
    ensures
        final(joins)@ == add_join(
            old(joins)@,
            width as int,
            height as int,
            x as int,
            y as int,
            d as int,
        ),
        final(tally).borders == old(tally).borders + border_towards(
            width as int,
            height as int,
            x as int,
            y as int,
            d as int,
        ),
        final(tally).borders + final(tally).middles == old(tally).borders + old(tally).middles
            + any_towards(width as int, height as int, x as int, y as int, d as int),
{
    let mut nx: usize = x;
    let mut ny: usize = y;
    if d == 0 {
        if x + 1 >= width {
            return ;
        }
        nx = x + 1;
    } else if d == 1 {
        if y + 1 >= height {
            return ;
        }
        ny = y + 1;
    } else if d == 2 {
        if x == 0 {
            return ;
        }
        nx = x - 1;
    } else {
        if y == 0 {
            return ;
        }
        ny = y - 1;
    }
    let mut join_type = JoinType::Middle;
    if nx == 0 || nx == width - 1 {
        if ny == 0 || ny == height - 1 || nx == x {
            join_type = JoinType::Border;
        }
    } else if ny == 0 || ny == height - 1 {
        if ny == y {
            join_type = JoinType::Border;
        }
    }
    match join_type {
        JoinType::Border => {
            tally.borders = tally.borders + 1;
        },
        JoinType::Middle => {
            tally.middles = tally.middles + 1;
        },
    }
    joins.push(Join { x: nx, y: ny, join_type });
}

/// Builds the cell `(x, y)`: its joins to the neighbours inside the grid, and
/// its role from their number.
fn build_cell(width: usize, height: usize, x: usize, y: usize) -> (r: (Cell, CellTally))
    requires
        width > 1,
        height > 1,
        x < width,
        y < height,
    ensures
        cell_ok(r.0, width as int, height as int, x as int, y as int),
        r.1.borders == border_degree(width as int, height as int, x as int, y as int),
        r.1.borders + r.1.middles == degree(width as int, height as int, x as int, y as int),
{
    let mut joins: Vec<Join> = Vec::new();
    let mut tally = CellTally { borders: 0, middles: 0 };
    push_join(&mut joins, &mut tally, width, height, x, y, 0);
    push_join(&mut joins, &mut tally, width, height, x, y, 1);
    push_join(&mut joins, &mut tally, width, height, x, y, 2);
    push_join(&mut joins, &mut tally, width, height, x, y, 3);
    let location_type = match joins.len() {
        2 => LocationType::Corner,
        3 => LocationType::Edge,
        _ => LocationType::Interior,
    };
    (Cell { x, y, location_type, joins }, tally)
}

/// How many of the first `k` positions of a line of `n` lie on its rim.
pub open spec fn rim_count(n: int, k: int) -> int {
    (if k >= 1 { 1int } else { 0int }) + (if k >= n { 1int } else { 0int })
}

/// Running tallies over cells: roles, and join ends by kind.
struct Tally {
    pub corners: usize,
    pub edges: usize,
    pub interiors: usize,
    pub borders: usize,
    pub middles: usize,
}

/// `t` holds the tallies of the first `k` cells of column `x`.
spec fn column_tally(t: Tally, w: int, h: int, x: int, k: int) -> bool {
    let rc = rim_count(h, k);
    &&& t.corners == (if on_rim(w, x) { rc } else { 0 })
    &&& t.edges == (if on_rim(w, x) { k - rc } else { rc })
    &&& t.interiors == (if on_rim(w, x) { 0 } else { k - rc })
    &&& t.borders == (if on_rim(w, x) { 2 * k } else { 2 * rc })
    &&& t.borders + t.middles == (if on_rim(w, x) { k } else { 2 * k }) + 2 * k - rc
}

/// `t` holds the tallies of the first `j` columns.
spec fn grid_tally(t: Tally, w: int, h: int, j: int) -> bool {
    let rc = rim_count(w, j);
    &&& t.corners == 2 * rc
    &&& t.edges == rc * (h - 2) + 2 * (j - rc)
    &&& t.interiors == (j - rc) * (h - 2)
    &&& t.borders == rc * (2 * h) + 4 * (j - rc)
    &&& t.borders + t.middles == rc * (3 * h - 2) + (j - rc) * (4 * h - 2)
}

/// Builds column `x` of the grid and tallies its cells.
fn build_column(width: usize, height: usize, x: usize) -> (r: (Vec<Cell>, Tally))
    requires
        width > 1,
        height > 1,
        x < width,
        4 * height <= usize::MAX,
    ensures
        r.0@.len() == height,
        forall|y: int|
            0 <= y < height ==> cell_ok(
                #[trigger] r.0@[y],
                width as int,
                height as int,
                x as int,
                y,
            ),
        column_tally(r.1, width as int, height as int, x as int, height as int),
{
    let mut column: Vec<Cell> = Vec::new();
    let mut t = Tally { corners: 0, edges: 0, interiors: 0, borders: 0, middles: 0 };
    let mut y: usize = 0;
    while y < height
        invariant
            width > 1,
            height > 1,
            x < width,
            4 * height <= usize::MAX,
            y <= height,
            column@.len() == y,
            forall|i: int|
                0 <= i < y ==> cell_ok(
                    #[trigger] column@[i],
                    width as int,
                    height as int,
                    x as int,
                    i,
                ),
            column_tally(t, width as int, height as int, x as int, y as int),
        decreases height - y,
    {
        let (cell, ct) = build_cell(width, height, x, y);
        match cell.location_type {
            LocationType::Corner => {
                t.corners = t.corners + 1;
            },
            LocationType::Edge => {
                t.edges = t.edges + 1;
            },
            LocationType::Interior => {
                t.interiors = t.interiors + 1;
            },
        }
        t.borders = t.borders + ct.borders;
        t.middles = t.middles + ct.middles;
        column.push(cell);
        y = y + 1;
    }
    (column, t)
}

/// Adding one column's tallies to those of the columns before it gives the
/// tallies of one column more, and they fit where those of the grid fit.
proof fn lemma_grid_tally_step(t: Tally, c: Tally, w: int, h: int, j: int)
    requires
        w > 1,
        h > 1,
        0 <= j < w,
        grid_tally(t, w, h, j),
        column_tally(c, w, h, j, h),
    ensures
        t.corners + c.corners == 2 * rim_count(w, j + 1),
        t.edges + c.edges == rim_count(w, j + 1) * (h - 2) + 2 * (j + 1 - rim_count(w, j + 1)),
        t.interiors + c.interiors == (j + 1 - rim_count(w, j + 1)) * (h - 2),
        t.borders + c.borders == rim_count(w, j + 1) * (2 * h) + 4 * (j + 1 - rim_count(w, j + 1)),
        t.borders + c.borders + t.middles + c.middles == rim_count(w, j + 1) * (3 * h - 2) + (j
            + 1 - rim_count(w, j + 1)) * (4 * h - 2),
        t.corners + c.corners <= 4 * w * h,
        t.edges + c.edges <= 4 * w * h,
        t.interiors + c.interiors <= 4 * w * h,
        t.borders + c.borders + t.middles + c.middles <= 4 * w * h,
{
    let rc = rim_count(w, j);
    let rn = rim_count(w, j + 1);
    if on_rim(w, j) {
        assert(rn == rc + 1);
        assert(rn * (h - 2) == rc * (h - 2) + (h - 2)) by (nonlinear_arith)
            requires
                rn == rc + 1,
        ;
        assert(rn * (2 * h) == rc * (2 * h) + 2 * h) by (nonlinear_arith)
            requires
                rn == rc + 1,
        ;
        assert(rn * (3 * h - 2) == rc * (3 * h - 2) + (3 * h - 2)) by (nonlinear_arith)
            requires
                rn == rc + 1,
        ;
    } else {
        assert(rn == rc);
        assert((j + 1 - rn) * (h - 2) == (j - rc) * (h - 2) + (h - 2)) by (nonlinear_arith)
            requires
                rn == rc,
        ;
        assert((j + 1 - rn) * (4 * h - 2) == (j - rc) * (4 * h - 2) + (4 * h - 2))
            by (nonlinear_arith)
            requires
                rn == rc,
        ;
    }
    let k = j + 1;
    assert(0 <= rn <= 2 && rn <= k && k <= w);
    assert(2 * rn <= 4 * w * h) by (nonlinear_arith)
        requires
            0 <= rn <= 2,
            w > 1,
            h > 1,
    ;
    assert(rn * (h - 2) + 2 * (k - rn) <= 4 * w * h) by (nonlinear_arith)
        requires
            0 <= rn <= k,
            k <= w,
            h > 1,
    ;
    assert((k - rn) * (h - 2) <= 4 * w * h) by (nonlinear_arith)
        requires
            0 <= rn <= k,
            k <= w,
            h > 1,
    ;
    assert(rn * (3 * h - 2) + (k - rn) * (4 * h - 2) <= 4 * w * h) by (nonlinear_arith)
        requires
            0 <= rn <= k,
            k <= w,
            h > 1,
    ;
}

/// The tallies of all columns are the totals of the grid, every join
/// counted at both of its ends.
proof fn lemma_grid_totals(t: Tally, w: int, h: int)
    requires
        w > 1,
        h > 1,
        grid_tally(t, w, h, w),
    ensures
        t.corners == 4,
        t.edges == 2 * (w - 2) + 2 * (h - 2),
        t.interiors == (w - 2) * (h - 2),
        t.borders == 2 * total_border_joins(w, h),
        t.middles == 2 * total_middle_joins(w, h),
{
    let rc = rim_count(w, w);
    assert(rc == 2);
    assert(rc * (h - 2) == 2 * h - 4) by (nonlinear_arith)
        requires
            rc == 2,
    ;
    assert(rc * (2 * h) == 4 * h) by (nonlinear_arith)
        requires
            rc == 2,
    ;
    assert(rc * (3 * h - 2) == 6 * h - 4) by (nonlinear_arith)
        requires
            rc == 2,
    ;
    assert((w - rc) * (4 * h - 2) == 4 * (w * h) - 2 * w - 8 * h + 4) by (nonlinear_arith)
        requires
            rc == 2,
    ;
    assert((w - 1) * (h - 2) + (w - 2) * (h - 1) == 2 * (w * h) - 3 * w - 3 * h + 4)
        by (nonlinear_arith);
}

/// The sum of the entries of `s`.
pub open spec fn seq_sum(s: Seq<usize>) -> int
    decreases s.len(),
{
    if s.len() == 0 {
        0
    } else {
        seq_sum(s.drop_last()) + s.last()
    }
}

/// The share of colour `i` when `total` joins are split over `types`
/// colours as evenly as whole numbers allow, the larger shares first.
pub open spec fn quota(total: int, types: int, i: int) -> int {
    (total + types - i - 1) / types
}

/// Appending an entry adds it to the sum.
pub proof fn lemma_seq_sum_push(s: Seq<usize>, v: usize)
    ensures
        seq_sum(s.push(v)) == seq_sum(s) + v,
{
    assert(s.push(v).drop_last() =~= s);
}

/// The share of colour `i` is the whole quotient, and one more for the
/// first `total % types` colours.
pub proof fn lemma_quota_split(total: int, types: int, i: int)
    requires
        total >= 0,
        types >= 1,
        0 <= i < types,
    ensures
        quota(total, types, i) == total / types + (if i < total % types { 1int } else { 0int }),
        total / types + (if i < total % types { 1int } else { 0int }) <= total,
{
    let q = total / types;
    let r = total % types;
    vstd::arithmetic::div_mod::lemma_fundamental_div_mod(total, types);
    assert(total == types * q + r);
    assert(0 <= r < types) by {
        vstd::arithmetic::div_mod::lemma_mod_bound(total, types);
    }
    assert(q >= 0) by {
        vstd::arithmetic::div_mod::lemma_div_pos_is_pos(total, types);
    }
    let e: int = if i < r { 1 } else { 0 };
    let rest = r - i - 1 + types - e * types;
    assert(0 <= rest < types);
    assert(total + types - i - 1 == (q + e) * types + rest) by (nonlinear_arith)
        requires
            total == types * q + r,
            rest == r - i - 1 + types - e * types,
    ;
    vstd::arithmetic::div_mod::lemma_fundamental_div_mod_converse(
        total + types - i - 1,
        types,
        q + e,
        rest,
    );
    assert(q + e <= total) by (nonlinear_arith)
        requires
            total == types * q + r,
            types >= 1,
            q >= 0,
            0 <= r,
            e == 1 ==> r >= 1,
            e == 0 || e == 1,
    ;
}

/// Splits `total` joins over `types` colours: every colour gets the whole
/// quotient, the first `total % types` colours one more.
pub fn even_split(total: usize, types: usize) -> (r: Vec<usize>)
    requires
        types >= 1,
    ensures
        r@.len() == types,
        forall|i: int| 0 <= i < types ==> #[trigger] r@[i] == quota(total as int, types as int, i),
        seq_sum(r@) == total,
{
    let q: usize = total / types;
    let rem: usize = total % types;
    let mut counts: Vec<usize> = Vec::new();
    let mut i: usize = 0;
    proof {
        vstd::arithmetic::div_mod::lemma_fundamental_div_mod(total as int, types as int);
    }
    while i < types
        invariant
            types >= 1,
            i <= types,
            q == total / types,
            rem == total % types,
            total == types * q + rem,
            counts@.len() == i,
            forall|k: int| 0 <= k < i ==> #[trigger] counts@[k] == quota(total as int, types as int, k),
            seq_sum(counts@) == i * q + (if i < rem { i } else { rem }),
        decreases types - i,
    {
        proof {
            lemma_quota_split(total as int, types as int, i as int);
        }
        let share: usize = if i < rem {
            q + 1
        } else {
            q
        };
        proof {
            lemma_seq_sum_push(counts@, share);
            assert((i + 1) * q == i * q + q) by (nonlinear_arith);
        }
        counts.push(share);
        i = i + 1;
    }
    counts
}

/// Number of joins along the perimeter of a `w` by `h` grid.
pub open spec fn total_border_joins(w: int, h: int) -> int {
    2 * (w - 1) + 2 * (h - 1)
}

/// Number of joins across the inside of a `w` by `h` grid.
pub open spec fn total_middle_joins(w: int, h: int) -> int {
    (w - 1) * (h - 2) + (w - 2) * (h - 1)
}

/// The grid of a puzzle with its aggregate counts and the number of joins
/// that each colour gets.
#[derive(Debug)]
pub struct PuzzleStructure {
    pub width: usize,
    pub height: usize,
    pub border_types: usize,
    pub middle_types: usize,
    pub grid: Vec<Vec<Cell>>,
    pub corners: usize,
    pub edges: usize,
    pub interiors: usize,
    pub border_joins: usize,
    pub middle_joins: usize,
    pub border_join_counts: Vec<usize>,
    pub middle_join_counts: Vec<usize>,
}

impl PuzzleStructure {
    /// The grid holds, column by column, every cell with its joins and role.
    pub open spec fn grid_ok(&self) -> bool {
        &&& self.grid@.len() == self.width
        &&& forall|x: int| 0 <= x < self.width ==> (#[trigger] self.grid@[x])@.len() == self.height
        &&& forall|x: int, y: int|
            0 <= x < self.width && 0 <= y < self.height ==> cell_ok(
                #[trigger] self.grid@[x]@[y],
                self.width as int,
                self.height as int,
                x,
                y,
            )
    }

    /// The aggregate counts are those of the grid.
    pub open spec fn counts_ok(&self) -> bool {
        &&& self.corners == 4
        &&& self.edges == 2 * (self.width - 2) + 2 * (self.height - 2)
        &&& self.interiors == (self.width - 2) * (self.height - 2)
        &&& self.border_joins == total_border_joins(self.width as int, self.height as int)
        &&& self.middle_joins == total_middle_joins(self.width as int, self.height as int)
    }

    /// The invariant of a puzzle structure. The colours' shares add up to
    /// the joins of their kind.
    pub open spec fn wf(&self) -> bool {
        &&& self.width > 1
        &&& self.height > 1
        &&& 4 * self.width * self.height <= usize::MAX
        &&& self.border_types >= 1
        &&& self.middle_types >= 1
        &&& self.border_join_counts@.len() == self.border_types
        &&& self.middle_join_counts@.len() == self.middle_types
        &&& self.grid_ok()
        &&& self.counts_ok()
        &&& seq_sum(self.border_join_counts@) == self.border_joins
        &&& seq_sum(self.middle_join_counts@) == self.middle_joins
    }

    /// Builds the structure of a `width` by `height` puzzle with the given
    /// numbers of border and middle colours.
    ///
    /// A width or height below two is turned down first, then a colour count
    /// of zero. The tallies of the grid must fit the machine word.
    pub fn new(width: usize, height: usize, border_types: usize, middle_types: usize) -> (r: Result<
        PuzzleStructure,
        PuzzleError,
    >)
        requires
            width > 1 && height > 1 ==> 4 * width * height <= usize::MAX,
        ensures
            width <= 1 || height <= 1 ==> r == Err::<PuzzleStructure, PuzzleError>(
                PuzzleError::InvalidDimensions,
            ),
            width > 1 && height > 1 && (border_types == 0 || middle_types == 0) ==> r == Err::<
                PuzzleStructure,
                PuzzleError,
            >(PuzzleError::InvalidColorCount),
            width > 1 && height > 1 && border_types >= 1 && middle_types >= 1 ==> {
                &&& r is Ok
                &&& r->Ok_0.wf()
                &&& r->Ok_0.width == width
                &&& r->Ok_0.height == height
                &&& r->Ok_0.border_types == border_types
                &&& r->Ok_0.middle_types == middle_types
                &&& seq_sum(r->Ok_0.border_join_counts@) == total_border_joins(
                    width as int,
                    height as int,
                )
                &&& seq_sum(r->Ok_0.middle_join_counts@) == total_middle_joins(
                    width as int,
                    height as int,
                )
                &&& forall|i: int|
                    0 <= i < border_types ==> #[trigger] r->Ok_0.border_join_counts@[i] == quota(
                        total_border_joins(width as int, height as int),
                        border_types as int,
                        i,
                    )
                &&& forall|i: int|
                    0 <= i < middle_types ==> #[trigger] r->Ok_0.middle_join_counts@[i] == quota(
                        total_middle_joins(width as int, height as int),
                        middle_types as int,
                        i,
                    )
            },
    {
        if width <= 1 || height <= 1 {
            return Err(PuzzleError::InvalidDimensions);
        }
        if border_types == 0 || middle_types == 0 {
            return Err(PuzzleError::InvalidColorCount);
        }
        let mut grid: Vec<Vec<Cell>> = Vec::new();
        let mut t = Tally { corners: 0, edges: 0, interiors: 0, borders: 0, middles: 0 };
        let mut x: usize = 0;
        assert(4 * height <= 4 * width * height) by (nonlinear_arith)
            requires
                width > 1,
                height > 1,
        ;
        while x < width
            invariant
                width > 1,
                height > 1,
                4 * width * height <= usize::MAX,
                4 * height <= usize::MAX,
                x <= width,
                grid@.len() == x,
                forall|i: int| 0 <= i < x ==> (#[trigger] grid@[i])@.len() == height,
                forall|i: int, y: int|
                    0 <= i < x && 0 <= y < height ==> cell_ok(
                        #[trigger] grid@[i]@[y],
                        width as int,
                        height as int,
                        i,
                        y,
                    ),
                grid_tally(t, width as int, height as int, x as int),
            decreases width - x,
        {
            let (column, ct) = build_column(width, height, x);
            proof {
                lemma_grid_tally_step(t, ct, width as int, height as int, x as int);
            }
            t.corners = t.corners + ct.corners;
            t.edges = t.edges + ct.edges;
            t.interiors = t.interiors + ct.interiors;
            t.borders = t.borders + ct.borders;
            t.middles = t.middles + ct.middles;
            grid.push(column);
            x = x + 1;
        }
        proof {
            lemma_grid_totals(t, width as int, height as int);
        }
        let border_joins: usize = t.borders / 2;
        let middle_joins: usize = t.middles / 2;
        let border_join_counts = even_split(border_joins, border_types);
        let middle_join_counts = even_split(middle_joins, middle_types);
        Ok(
            PuzzleStructure {
                width,
                height,
                border_types,
                middle_types,
                grid,
                corners: t.corners,
                edges: t.edges,
                interiors: t.interiors,
                border_joins,
                middle_joins,
                border_join_counts,
                middle_join_counts,
            },
        )
    }
}

/// A sum of counts is not negative.
pub proof fn lemma_seq_sum_nonnegative(s: Seq<usize>)
    ensures
        seq_sum(s) >= 0,
    decreases s.len(),
{
    if s.len() > 0 {
        lemma_seq_sum_nonnegative(s.drop_last());
    }
}

/// The sum of the counts, where it fits the machine word.
pub fn sum_counts(counts: &Vec<usize>) -> (r: usize)
    requires
        seq_sum(counts@) <= usize::MAX,
    ensures
        r == seq_sum(counts@),
{
    proof {
        lemma_seq_sum_nonnegative(counts@);
    }
    match checked_sum(counts) {
        Some(total) => total,
        None => 0,
    }
}

/// The sum of the counts, unless it leaves the machine word.
pub fn checked_sum(counts: &Vec<usize>) -> (r: Option<usize>)
    ensures
        seq_sum(counts@) <= usize::MAX ==> r == Some(seq_sum(counts@) as usize),
        seq_sum(counts@) > usize::MAX ==> r is None,
{
    let mut total: usize = 0;
    let mut k: usize = 0;
    assert(counts@.take(0) =~= Seq::<usize>::empty());
    while k < counts.len()
        invariant
            k <= counts@.len(),
            total == seq_sum(counts@.take(k as int)),
        decreases counts@.len() - k,
    {
        proof {
            lemma_seq_sum_prefix(counts@, k as int);
        }
        if counts[k] > usize::MAX - total {
            return None;
        }
        total = total + counts[k];
        k = k + 1;
    }
    assert(counts@.take(k as int) =~= counts@);
    Some(total)
}

/// The sum of a prefix grows with the prefix and stays below the whole sum.
pub proof fn lemma_seq_sum_prefix(s: Seq<usize>, k: int)
    requires
        0 <= k < s.len(),
    ensures
        seq_sum(s.take(k + 1)) == seq_sum(s.take(k)) + s[k],
        seq_sum(s.take(k + 1)) <= seq_sum(s),
        seq_sum(s.take(k)) >= 0,
    decreases s.len() - k,
{
    assert(s.take(k + 1).drop_last() =~= s.take(k));
    lemma_seq_sum_nonnegative(s.take(k));
    if k + 1 < s.len() {
        lemma_seq_sum_prefix(s, k + 1);
    } else {
        assert(s.take(k + 1) =~= s);
    }
}

impl PuzzleStructure {
    /// Replaces the shares of the border colours. The new shares must add
    /// up to the border joins of the grid; their number becomes the number
    /// of border colours.
    pub fn set_border_join_counts(&mut self, counts: Vec<usize>)
        requires
            old(self).wf(),
            counts@.len() >= 1,
            seq_sum(counts@) == old(self).border_joins,
        ensures
            final(self).wf(),
            final(self).border_join_counts@ == counts@,
            final(self).border_types == counts@.len(),
            final(self).width == old(self).width,
            final(self).height == old(self).height,
            final(self).grid == old(self).grid,
            final(self).corners == old(self).corners,
            final(self).edges == old(self).edges,
            final(self).interiors == old(self).interiors,
            final(self).border_joins == old(self).border_joins,
            final(self).middle_joins == old(self).middle_joins,
            final(self).middle_types == old(self).middle_types,
            final(self).middle_join_counts == old(self).middle_join_counts,
    {
        self.border_types = counts.len();
        self.border_join_counts = counts;
    }

    /// Replaces the shares of the middle colours. The new shares must add
    /// up to the middle joins of the grid; their number becomes the number
    /// of middle colours.
    pub fn set_middle_join_counts(&mut self, counts: Vec<usize>)
        requires
            old(self).wf(),
            counts@.len() >= 1,
            seq_sum(counts@) == old(self).middle_joins,
        ensures
            final(self).wf(),
            final(self).middle_join_counts@ == counts@,
            final(self).middle_types == counts@.len(),
            final(self).width == old(self).width,
            final(self).height == old(self).height,
            final(self).grid == old(self).grid,
            final(self).corners == old(self).corners,
            final(self).edges == old(self).edges,
            final(self).interiors == old(self).interiors,
            final(self).border_joins == old(self).border_joins,
            final(self).middle_joins == old(self).middle_joins,
            final(self).border_types == old(self).border_types,
            final(self).border_join_counts == old(self).border_join_counts,
    {
        self.middle_types = counts.len();
        self.middle_join_counts = counts;
    }
}

} // verus!
