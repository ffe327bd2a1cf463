//! What a search has used up at every depth of a given order.

use vstd::prelude::*;
use crate::puzzle_structure::{
    add_join,
    cell_joins,
    cell_role,
    has_neighbor,
    join_kind,
    join_towards,
    on_rim,
    step_x,
    step_y,
    total_border_joins,
    total_middle_joins,
    Join,
    JoinType,
    LocationType,
    PuzzleError,
    PuzzleStructure,
};
use crate::search_order::{grid_set, lemma_rect_len, loc, rect_set, Location, SearchOrder};

verus! {

/// A progress snapshot: cells placed by role, and joins closed by kind.
#[derive(Clone, Copy, Debug, PartialEq, Eq, Structural)]
pub struct Used {
    pub corners: usize,
    pub edges: usize,
    pub interiors: usize,
    pub borders: usize,
    pub middles: usize,
}

/// The kind of the join between a cell and its right neighbour.
pub open spec fn across_kind(h: int, l: Location) -> JoinType {
    if on_rim(h, l.y as int) {
        JoinType::Border
    } else {
        JoinType::Middle
    }
}

/// The kind of the join between a cell and the neighbour below it.
pub open spec fn down_kind(w: int, l: Location) -> JoinType {
    if on_rim(w, l.x as int) {
        JoinType::Border
    } else {
        JoinType::Middle
    }
}

/// The joins of the given kind between a cell and its right neighbour that
/// have both ends among `visited`, each named by its left end.
pub open spec fn closed_across(w: int, h: int, visited: Set<Location>, kind: JoinType) -> Set<
    Location,
> {
    Set::new(
        |l: Location|
            l.x + 1 < w && l.y < h && across_kind(h, l) == kind && visited.contains(l)
                && visited.contains(loc(l.x + 1, l.y as int)),
    )
}

/// The joins of the given kind between a cell and the neighbour below it
/// that have both ends among `visited`, each named by its upper end.
pub open spec fn closed_down(w: int, h: int, visited: Set<Location>, kind: JoinType) -> Set<
    Location,
> {
    Set::new(
        |l: Location|
            l.x < w && l.y + 1 < h && down_kind(w, l) == kind && visited.contains(l)
                && visited.contains(loc(l.x as int, l.y + 1)),
    )
}

/// Number of joins of the given kind with both ends among `visited`.
pub open spec fn closed_count(w: int, h: int, visited: Set<Location>, kind: JoinType) -> nat {
    closed_across(w, h, visited, kind).len() + closed_down(w, h, visited, kind).len()
}

/// The cells of the given role among `visited`.
pub open spec fn placed(w: int, h: int, visited: Set<Location>, role: LocationType) -> Set<
    Location,
> {
    Set::new(
        |l: Location|
            l.x < w && l.y < h && visited.contains(l) && cell_role(w, h, l.x as int, l.y as int)
                == role,
    )
}

/// `u` is the snapshot of a search that has visited exactly `visited`.
pub open spec fn snapshot_of(u: Used, w: int, h: int, visited: Set<Location>) -> bool {
    &&& u.corners == placed(w, h, visited, LocationType::Corner).len()
    &&& u.edges == placed(w, h, visited, LocationType::Edge).len()
    &&& u.interiors == placed(w, h, visited, LocationType::Interior).len()
    &&& u.borders == closed_count(w, h, visited, JoinType::Border)
    &&& u.middles == closed_count(w, h, visited, JoinType::Middle)
}

/// The cells that an order has visited at depth `d`.
pub open spec fn visited_at(order: Seq<Location>, d: int) -> Set<Location> {
    order.take(d).to_set()
}

/// One if the join of `c` in direction `d` is of the given kind and leads to
/// a visited cell, else zero.
pub open spec fn closes(w: int, h: int, visited: Set<Location>, c: Location, kind: JoinType, d: int) -> int {
    if has_neighbor(w, h, c.x as int, c.y as int, d) && visited.contains(
        loc(c.x + step_x(d), c.y + step_y(d)),
    ) && join_kind(w, h, c.x as int, c.y as int, c.x + step_x(d), c.y + step_y(d)) == kind {
        1
    } else {
        0
    }
}

/// Number of joins of the given kind that close when `c` is visited after
/// `visited`.
pub open spec fn closing(w: int, h: int, visited: Set<Location>, c: Location, kind: JoinType) -> int {
    closes(w, h, visited, c, kind, 0) + closes(w, h, visited, c, kind, 1) + closes(
        w,
        h,
        visited,
        c,
        kind,
        2,
    ) + closes(w, h, visited, c, kind, 3)
}

/// Visiting one more cell closes the joins to its visited neighbours, and
/// no others.
pub proof fn lemma_visit_joins(w: int, h: int, visited: Set<Location>, c: Location, kind: JoinType)
    requires
        1 < w <= usize::MAX,
        1 < h <= usize::MAX,
        c.x < w,
        c.y < h,
        visited.finite(),
        !visited.contains(c),
    ensures
        closed_count(w, h, visited.insert(c), kind) == closed_count(w, h, visited, kind) + closing(
            w,
            h,
            visited,
            c,
            kind,
        ),
{
    let after = visited.insert(c);
    let a0 = closed_across(w, h, visited, kind);
    let a1 = closed_across(w, h, after, kind);
    let d0 = closed_down(w, h, visited, kind);
    let d1 = closed_down(w, h, after, kind);
    assert(a0.subset_of(visited));
    assert(d0.subset_of(visited));
    vstd::set_lib::lemma_len_subset(a0, visited);
    vstd::set_lib::lemma_len_subset(d0, visited);
    let left = loc(c.x - 1, c.y as int);
    let up = loc(c.x as int, c.y - 1);
    let s1 = if closes(w, h, visited, c, kind, 0) == 1 {
        a0.insert(c)
    } else {
        a0
    };
    let s2 = if closes(w, h, visited, c, kind, 2) == 1 {
        s1.insert(left)
    } else {
        s1
    };
    assert(a1 =~= s2);
    let t1 = if closes(w, h, visited, c, kind, 1) == 1 {
        d0.insert(c)
    } else {
        d0
    };
    let t2 = if closes(w, h, visited, c, kind, 3) == 1 {
        t1.insert(up)
    } else {
        t1
    };
    assert(d1 =~= t2);
}

/// Visiting one more cell places that cell, and no other.
pub proof fn lemma_visit_role(w: int, h: int, visited: Set<Location>, c: Location, role: LocationType)
    requires
        c.x < w,
        c.y < h,
        visited.finite(),
        !visited.contains(c),
    ensures
        placed(w, h, visited.insert(c), role).len() == placed(w, h, visited, role).len() + (
        if cell_role(w, h, c.x as int, c.y as int) == role {
            1int
        } else {
            0int
        }),
{
    let held = placed(w, h, visited, role);
    let holds = placed(w, h, visited.insert(c), role);
    assert(held.subset_of(visited));
    vstd::set_lib::lemma_len_subset(held, visited);
    if cell_role(w, h, c.x as int, c.y as int) == role {
        assert(holds =~= held.insert(c));
    } else {
        assert(holds =~= held);
    }
}

/// Two finite sets without a common cell have, together, the sum of their
/// sizes.
proof fn lemma_two_parts(a: Set<Location>, b: Set<Location>, r: Set<Location>)
    requires
        a.finite(),
        b.finite(),
        a.disjoint(b),
        r =~= a + b,
    ensures
        r.finite(),
        r.len() == a.len() + b.len(),
{
    vstd::set_lib::lemma_set_disjoint_lens(a, b);
}

/// Once every cell is visited, every join is closed and every cell placed:
/// the counts are the totals of the grid.
pub proof fn lemma_all_visited(w: int, h: int)
    requires
        1 < w <= usize::MAX,
        1 < h <= usize::MAX,
    ensures
        closed_count(w, h, grid_set(w, h), JoinType::Border) == total_border_joins(w, h),
        closed_count(w, h, grid_set(w, h), JoinType::Middle) == total_middle_joins(w, h),
        placed(w, h, grid_set(w, h), LocationType::Corner).len() == 4,
        placed(w, h, grid_set(w, h), LocationType::Edge).len() == 2 * (w - 2) + 2 * (h - 2),
        placed(w, h, grid_set(w, h), LocationType::Interior).len() == (w - 2) * (h - 2),
{
    let g = grid_set(w, h);
    // joins along the perimeter
    lemma_rect_len(0, w - 1, 0, 1);
    lemma_rect_len(0, w - 1, h - 1, h);
    lemma_two_parts(
        rect_set(0, w - 1, 0, 1),
        rect_set(0, w - 1, h - 1, h),
        closed_across(w, h, g, JoinType::Border),
    );
    lemma_rect_len(0, 1, 0, h - 1);
    lemma_rect_len(w - 1, w, 0, h - 1);
    lemma_two_parts(
        rect_set(0, 1, 0, h - 1),
        rect_set(w - 1, w, 0, h - 1),
        closed_down(w, h, g, JoinType::Border),
    );
    assert((w - 1) * 1 == w - 1 && 1 * (h - 1) == h - 1) by (nonlinear_arith);
    // joins across the inside
    lemma_rect_len(0, w - 1, 1, h - 1);
    assert(closed_across(w, h, g, JoinType::Middle) =~= rect_set(0, w - 1, 1, h - 1));
    lemma_rect_len(1, w - 1, 0, h - 1);
    assert(closed_down(w, h, g, JoinType::Middle) =~= rect_set(1, w - 1, 0, h - 1));
    assert((w - 1) * (h - 1 - 1) == (w - 1) * (h - 2) && (w - 1 - 1) * (h - 1) == (w - 2) * (h
        - 1)) by (nonlinear_arith);
    // corners
    lemma_rect_len(0, 1, 0, 1);
    lemma_rect_len(w - 1, w, 0, 1);
    lemma_rect_len(0, 1, h - 1, h);
    lemma_rect_len(w - 1, w, h - 1, h);
    let top = rect_set(0, 1, 0, 1) + rect_set(w - 1, w, 0, 1);
    let bottom = rect_set(0, 1, h - 1, h) + rect_set(w - 1, w, h - 1, h);
    lemma_two_parts(rect_set(0, 1, 0, 1), rect_set(w - 1, w, 0, 1), top);
    lemma_two_parts(rect_set(0, 1, h - 1, h), rect_set(w - 1, w, h - 1, h), bottom);
    lemma_two_parts(top, bottom, placed(w, h, g, LocationType::Corner));
    assert(1 * 1 == 1) by (nonlinear_arith);
    // edges
    lemma_rect_len(1, w - 1, 0, 1);
    lemma_rect_len(1, w - 1, h - 1, h);
    lemma_rect_len(0, 1, 1, h - 1);
    lemma_rect_len(w - 1, w, 1, h - 1);
    let level = rect_set(1, w - 1, 0, 1) + rect_set(1, w - 1, h - 1, h);
    let upright = rect_set(0, 1, 1, h - 1) + rect_set(w - 1, w, 1, h - 1);
    lemma_two_parts(rect_set(1, w - 1, 0, 1), rect_set(1, w - 1, h - 1, h), level);
    lemma_two_parts(rect_set(0, 1, 1, h - 1), rect_set(w - 1, w, 1, h - 1), upright);
    lemma_two_parts(level, upright, placed(w, h, g, LocationType::Edge));
    assert((w - 1 - 1) * 1 == w - 2 && 1 * (h - 1 - 1) == h - 2) by (nonlinear_arith);
    // interiors
    lemma_rect_len(1, w - 1, 1, h - 1);
    assert(placed(w, h, g, LocationType::Interior) =~= rect_set(1, w - 1, 1, h - 1));
    assert((w - 1 - 1) * (h - 1 - 1) == (w - 2) * (h - 2)) by (nonlinear_arith);
}

/// Number of the joins in `joins` that are of the given kind and lead to a
/// visited cell.
pub open spec fn tally_joins(joins: Seq<Join>, visited: Set<Location>, kind: JoinType) -> int
    decreases joins.len(),
{
    if joins.len() == 0 {
        0
    } else {
        tally_joins(joins.drop_last(), visited, kind) + (if joins.last().join_type == kind
            && visited.contains(Location { x: joins.last().x, y: joins.last().y }) {
            1int
        } else {
            0int
        })
    }
}

/// The joins of a cell that lead to visited cells are those that close when
/// the cell is visited.
pub proof fn lemma_tally_cell(w: int, h: int, visited: Set<Location>, c: Location, kind: JoinType)
    requires
        1 < w <= usize::MAX,
        1 < h <= usize::MAX,
        c.x < w,
        c.y < h,
    ensures
        tally_joins(cell_joins(w, h, c.x as int, c.y as int), visited, kind) == closing(
            w,
            h,
            visited,
            c,
            kind,
        ),
{
    let x = c.x as int;
    let y = c.y as int;
    let s0 = Seq::<Join>::empty();
    let s1 = add_join(s0, w, h, x, y, 0);
    let s2 = add_join(s1, w, h, x, y, 1);
    let s3 = add_join(s2, w, h, x, y, 2);
    let s4 = add_join(s3, w, h, x, y, 3);
    lemma_tally_add(s0, w, h, visited, c, kind, 0);
    lemma_tally_add(s1, w, h, visited, c, kind, 1);
    lemma_tally_add(s2, w, h, visited, c, kind, 2);
    lemma_tally_add(s3, w, h, visited, c, kind, 3);
}

/// One more direction adds to the tally what closes in that direction.
proof fn lemma_tally_add(
    s: Seq<Join>,
    w: int,
    h: int,
    visited: Set<Location>,
    c: Location,
    kind: JoinType,
    d: int,
)
    requires
        1 < w <= usize::MAX,
        1 < h <= usize::MAX,
        c.x < w,
        c.y < h,
        0 <= d < 4,
    ensures
        tally_joins(add_join(s, w, h, c.x as int, c.y as int, d), visited, kind) == tally_joins(
            s,
            visited,
            kind,
        ) + closes(w, h, visited, c, kind, d),
{
    if has_neighbor(w, h, c.x as int, c.y as int, d) {
        let j = join_towards(w, h, c.x as int, c.y as int, d);
        assert(s.push(j).drop_last() =~= s);
        assert(Location { x: j.x, y: j.y } == loc(c.x + step_x(d), c.y + step_y(d)));
    }
}

/// Every join of a cell leads to a cell of the grid, and a cell has at most
/// four joins.
pub proof fn lemma_cell_joins_in_grid(w: int, h: int, x: int, y: int)
    requires
        1 < w <= usize::MAX,
        1 < h <= usize::MAX,
        0 <= x < w,
        0 <= y < h,
    ensures
        cell_joins(w, h, x, y).len() <= 4,
        forall|m: int|
            0 <= m < cell_joins(w, h, x, y).len() ==> (#[trigger] cell_joins(w, h, x, y)[m]).x < w
                && cell_joins(w, h, x, y)[m].y < h,
{
}

/// No count of `a` is above that of `b`.
pub open spec fn used_le(a: Used, b: Used) -> bool {
    &&& a.corners <= b.corners
    &&& a.edges <= b.edges
    &&& a.interiors <= b.interiors
    &&& a.borders <= b.borders
    &&& a.middles <= b.middles
}

/// The snapshot before the first cell.
pub open spec fn used_none() -> Used {
    Used { corners: 0, edges: 0, interiors: 0, borders: 0, middles: 0 }
}

/// The totals of a puzzle structure as a snapshot.
pub open spec fn used_all(structure: PuzzleStructure) -> Used {
    Used {
        corners: structure.corners,
        edges: structure.edges,
        interiors: structure.interiors,
        borders: structure.border_joins,
        middles: structure.middle_joins,
    }
}

/// In a chain of snapshots that never fall, none is above the last.
pub proof fn lemma_below_last(progress: Seq<Used>, d: int)
    requires
        0 <= d < progress.len(),
        forall|i: int|
            0 <= i < progress.len() - 1 ==> used_le(#[trigger] progress[i], progress[i + 1]),
    ensures
        used_le(progress[d], progress[progress.len() - 1]),
    decreases progress.len() - d,
{
    if d < progress.len() - 1 {
        lemma_below_last(progress, d + 1);
    }
}

/// A grid of flags, none of them set.
fn blank_grid(width: usize, height: usize) -> (r: Vec<Vec<bool>>)
    ensures
        r@.len() == width,
        forall|x: int| 0 <= x < width ==> (#[trigger] r@[x])@.len() == height,
        forall|x: int, y: int| 0 <= x < width && 0 <= y < height ==> !(#[trigger] r@[x]@[y]),
{
    let mut grid: Vec<Vec<bool>> = Vec::new();
    let mut x: usize = 0;
    while x < width
        invariant
            x <= width,
            grid@.len() == x,
            forall|i: int| 0 <= i < x ==> (#[trigger] grid@[i])@.len() == height,
            forall|i: int, y: int| 0 <= i < x && 0 <= y < height ==> !(#[trigger] grid@[i]@[y]),
        decreases width - x,
    {
        let mut column: Vec<bool> = Vec::new();
        let mut y: usize = 0;
        while y < height
            invariant
                y <= height,
                column@.len() == y,
                forall|i: int| 0 <= i < y ==> !(#[trigger] column@[i]),
            decreases height - y,
        {
            column.push(false);
            y = y + 1;
        }
        grid.push(column);
        x = x + 1;
    }
    grid
}

/// The progress of a search through a puzzle: one snapshot for every depth
/// from nothing placed to everything placed.
#[derive(Clone, Debug)]
pub struct SearchProgress {
    pub width: usize,
    pub height: usize,
    pub size: usize,
    pub end_point: Used,
    pub progress: Vec<Used>,
}

impl SearchProgress {
    /// Replays `search_order` on `puzzle_structure`. A join closes when the
    /// second of its ends is visited. An order made for another width or
    /// height is turned down.
    pub fn new(puzzle_structure: &PuzzleStructure, search_order: &SearchOrder) -> (r: Result<
        SearchProgress,
        PuzzleError,
    >)
        requires
            puzzle_structure.wf(),
            search_order.wf(),
        ensures
            search_order.width != puzzle_structure.width || search_order.height
                != puzzle_structure.height ==> r == Err::<SearchProgress, PuzzleError>(
                PuzzleError::DimensionMismatch,
            ),
            search_order.width == puzzle_structure.width && search_order.height
                == puzzle_structure.height ==> {
                &&& r is Ok
                &&& r->Ok_0.width == puzzle_structure.width
                &&& r->Ok_0.height == puzzle_structure.height
                &&& r->Ok_0.size == search_order.size
                &&& r->Ok_0.end_point == used_all(*puzzle_structure)
                &&& r->Ok_0.progress@.len() == search_order.size + 1
                &&& forall|d: int|
                    0 <= d <= search_order.size ==> snapshot_of(
                        #[trigger] r->Ok_0.progress@[d],
                        puzzle_structure.width as int,
                        puzzle_structure.height as int,
                        visited_at(search_order.order@, d),
                    )
                &&& forall|d: int|
                    0 <= d < search_order.size ==> used_le(
                        #[trigger] r->Ok_0.progress@[d],
                        r->Ok_0.progress@[d + 1],
                    )
                &&& forall|d: int|
                    0 <= d <= search_order.size ==> used_le(
                        #[trigger] r->Ok_0.progress@[d],
                        r->Ok_0.end_point,
                    )
                &&& r->Ok_0.progress@[0] == used_none()
                &&& r->Ok_0.progress@[search_order.size as int] == r->Ok_0.end_point
            },
    {
        if search_order.width != puzzle_structure.width {
            return Err(PuzzleError::DimensionMismatch);
        }
        if search_order.height != puzzle_structure.height {
            return Err(PuzzleError::DimensionMismatch);
        }
        let width: usize = puzzle_structure.width;
        let height: usize = puzzle_structure.height;
        let size: usize = search_order.size;
        let ghost w = width as int;
        let ghost h = height as int;
        let ghost order = search_order.order@;
        let end_point = Used {
            corners: puzzle_structure.corners,
            edges: puzzle_structure.edges,
            interiors: puzzle_structure.interiors,
            borders: puzzle_structure.border_joins,
            middles: puzzle_structure.middle_joins,
        };
        let mut current = Used { corners: 0, edges: 0, interiors: 0, borders: 0, middles: 0 };
        let mut progress: Vec<Used> = Vec::new();
        progress.push(current);
        let mut filled: Vec<Vec<bool>> = blank_grid(width, height);
        let mut k: usize = 0;
        proof {
            assert(visited_at(order, 0) =~= Set::<Location>::empty());
            assert(closed_across(w, h, visited_at(order, 0), JoinType::Border) =~= Set::empty());
            assert(closed_across(w, h, visited_at(order, 0), JoinType::Middle) =~= Set::empty());
            assert(closed_down(w, h, visited_at(order, 0), JoinType::Border) =~= Set::empty());
            assert(closed_down(w, h, visited_at(order, 0), JoinType::Middle) =~= Set::empty());
            assert(placed(w, h, visited_at(order, 0), LocationType::Corner) =~= Set::empty());
            assert(placed(w, h, visited_at(order, 0), LocationType::Edge) =~= Set::empty());
            assert(placed(w, h, visited_at(order, 0), LocationType::Interior) =~= Set::empty());
            assert(4 * size == 4 * width * height) by (nonlinear_arith)
                requires
                    size == width * height,
            ;
        }
        while k < size
            invariant
                puzzle_structure.wf(),
                search_order.wf(),
                w == width == puzzle_structure.width == search_order.width,
                h == height == puzzle_structure.height == search_order.height,
                size == search_order.size,
                4 * size <= usize::MAX,
                order == search_order.order@,
                k <= size,
                filled@.len() == width,
                forall|x: int| 0 <= x < width ==> (#[trigger] filled@[x])@.len() == height,
                forall|x: int, y: int|
                    0 <= x < width && 0 <= y < height ==> (#[trigger] filled@[x]@[y]
                        <==> visited_at(order, k as int).contains(loc(x, y))),
                progress@.len() == k + 1,
                progress@[k as int] == current,
                progress@[0] == used_none(),
                current.corners + current.edges + current.interiors <= k,
                current.borders + current.middles <= 4 * k,
                forall|d: int|
                    0 <= d <= k ==> snapshot_of(
                        #[trigger] progress@[d],
                        w,
                        h,
                        visited_at(order, d),
                    ),
                forall|d: int| 0 <= d < k ==> used_le(#[trigger] progress@[d], progress@[d + 1]),
            decreases size - k,
        {
            let location = search_order.order[k];
            let ghost visited = visited_at(order, k as int);
            proof {
                assert(order.contains(location));
                vstd::seq_lib::seq_to_set_is_finite(order.take(k as int));
                assert(!visited.contains(location)) by {
                    let before = order.take(k as int);
                    if before.contains(location) {
                        let i = choose|i: int| 0 <= i < before.len() && before[i] == location;
                        assert(order[i] == order[k as int]);
                    }
                }
                let before = order.take(k as int);
                let upto = order.take(k + 1);
                assert(upto =~= before.push(location));
                assert(visited_at(order, k + 1) =~= visited.insert(location)) by {
                    assert forall|l: Location| visited.insert(location).contains(l) implies upto.contains(
                        l,
                    ) by {
                        if l == location {
                            assert(upto[k as int] == l);
                        } else {
                            let i = choose|i: int| 0 <= i < before.len() && before[i] == l;
                            assert(upto[i] == l);
                        }
                    }
                    assert forall|l: Location| upto.contains(l) implies visited.insert(
                        location,
                    ).contains(l) by {
                        let i = choose|i: int| 0 <= i < upto.len() && upto[i] == l;
                        if i < k {
                            assert(before[i] == l);
                        }
                    }
                }
                lemma_cell_joins_in_grid(w, h, location.x as int, location.y as int);
            }
            let cell = &puzzle_structure.grid[location.x][location.y];
            let mut next = current;
            let n: usize = cell.joins.len();
            let mut m: usize = 0;
            while m < n
                invariant
                    n == cell.joins@.len(),
                    n <= 4,
                    m <= n,
                    cell.joins@ == cell_joins(w, h, location.x as int, location.y as int),
                    forall|i: int|
                        0 <= i < n ==> (#[trigger] cell.joins@[i]).x < w && cell.joins@[i].y < h,
                    w == width,
                    h == height,
                    filled@.len() == width,
                    forall|x: int| 0 <= x < width ==> (#[trigger] filled@[x])@.len() == height,
                    forall|x: int, y: int|
                        0 <= x < width && 0 <= y < height ==> (#[trigger] filled@[x]@[y]
                            <==> visited.contains(loc(x, y))),
                    current.borders + current.middles <= 4 * k,
                    4 * k + 4 <= usize::MAX,
                    next.corners == current.corners,
                    next.edges == current.edges,
                    next.interiors == current.interiors,
                    next.borders == current.borders + tally_joins(
                        cell.joins@.take(m as int),
                        visited,
                        JoinType::Border,
                    ),
                    next.middles == current.middles + tally_joins(
                        cell.joins@.take(m as int),
                        visited,
                        JoinType::Middle,
                    ),
                    next.borders + next.middles <= current.borders + current.middles + m,
                decreases n - m,
            {
                let join = cell.joins[m];
                proof {
                    assert(cell.joins@.take(m + 1).drop_last() =~= cell.joins@.take(m as int));
                    assert(Location { x: join.x, y: join.y } == loc(join.x as int, join.y as int));
                }
                if filled[join.x][join.y] {
                    match join.join_type {
                        JoinType::Border => {
                            next.borders = next.borders + 1;
                        },
                        JoinType::Middle => {
                            next.middles = next.middles + 1;
                        },
                    }
                }
                m = m + 1;
            }
            proof {
                assert(cell.joins@.take(n as int) =~= cell.joins@);
                lemma_tally_cell(w, h, visited, location, JoinType::Border);
                lemma_tally_cell(w, h, visited, location, JoinType::Middle);
                lemma_visit_joins(w, h, visited, location, JoinType::Border);
                lemma_visit_joins(w, h, visited, location, JoinType::Middle);
                lemma_visit_role(w, h, visited, location, LocationType::Corner);
                lemma_visit_role(w, h, visited, location, LocationType::Edge);
                lemma_visit_role(w, h, visited, location, LocationType::Interior);
            }
            match cell.location_type {
                LocationType::Corner => {
                    next.corners = next.corners + 1;
                },
                LocationType::Edge => {
                    next.edges = next.edges + 1;
                },
                LocationType::Interior => {
                    next.interiors = next.interiors + 1;
                },
            }
            filled[location.x][location.y] = true;
            progress.push(next);
            current = next;
            k = k + 1;
        }
        proof {
            assert(order.take(size as int) =~= order);
            assert(visited_at(order, size as int) =~= grid_set(w, h));
            lemma_all_visited(w, h);
            assert forall|d: int| 0 <= d <= size implies used_le(
                #[trigger] progress@[d],
                end_point,
            ) by {
                lemma_below_last(progress@, d);
            }
        }
        Ok(SearchProgress { width, height, size, end_point, progress })
    }
}

} // verus!
