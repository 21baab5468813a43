//! Sums over the cells of a grid, by which a solve is seen to come to an end
//! and to count what it has left.

use crate::bits::{has_bit, lemma_mask_ext, lemma_subset_bits};
use crate::grid::{lane_of, rectangular, with_lane};
use crate::line_solve::{narrowed, Cell};
use vstd::prelude::*;

verus! {

/// How many of the colors below `k` the cell can have.
pub open spec fn colors_below(cell: Cell, k: int) -> int
    decreases k,
{
    if k <= 0 {
        0
    } else {
        colors_below(cell, k - 1) + if has_bit(cell.bits(), (k - 1) as u8) {
            1int
        } else {
            0
        }
    }
}

/// How many colors the cell can have.
pub open spec fn weight(cell: Cell) -> int {
    colors_below(cell, 32)
}

/// 1 for a cell that is not known, 0 for one that is.
pub open spec fn unknown(cell: Cell) -> int {
    if cell.known() {
        0
    } else {
        1
    }
}

proof fn lemma_colors_below(a: Cell, b: Cell, k: int)
    requires
        a.within(b),
        0 <= k <= 32,
    ensures
        0 <= colors_below(a, k) <= colors_below(b, k) <= k,
        (exists|c: u8| c < k && has_bit(b.bits(), c) && !has_bit(a.bits(), c)) ==> colors_below(a, k)
            < colors_below(b, k),
    decreases k,
{
    lemma_subset_bits(a.bits(), b.bits());
    if k > 0 {
        lemma_colors_below(a, b, k - 1);
        if exists|c: u8| c < k && has_bit(b.bits(), c) && !has_bit(a.bits(), c) {
            let c = choose|c: u8| c < k && has_bit(b.bits(), c) && !has_bit(a.bits(), c);
            if c < k - 1 {
                assert(exists|c: u8| c < k - 1 && has_bit(b.bits(), c) && !has_bit(a.bits(), c));
            }
        }
    }
}

/// A cell that was narrowed can have no more colors than before, and fewer
/// if it changed.
pub proof fn lemma_weight(a: Cell, b: Cell)
    requires
        a.within(b),
    ensures
        0 <= weight(a) <= weight(b) <= 32,
        a != b ==> weight(a) < weight(b),
{
    lemma_colors_below(a, b, 32);
    lemma_subset_bits(a.bits(), b.bits());
    if a != b {
        a.lemma_by_bits(b);
        if forall|c: u8| c < 32 ==> (has_bit(a.bits(), c) <==> has_bit(b.bits(), c)) {
            lemma_mask_ext(a.bits(), b.bits());
        }
        let c = choose|c: u8| c < 32 && !(has_bit(a.bits(), c) <==> has_bit(b.bits(), c));
        assert(c < 32 && has_bit(b.bits(), c) && !has_bit(a.bits(), c));
    }
}

/// The sum of `f` over the first `n` cells of a lane.
pub open spec fn lane_sum(lane: Seq<Cell>, f: spec_fn(Cell) -> int, n: int) -> int
    decreases n,
{
    if n <= 0 {
        0
    } else {
        lane_sum(lane, f, n - 1) + f(lane[n - 1])
    }
}

/// The sum of `f` over the first `n` rows of a grid whose rows are `width`
/// cells long.
pub open spec fn grid_sum(cells: Seq<Seq<Cell>>, f: spec_fn(Cell) -> int, width: int, n: int) -> int
    decreases n,
{
    if n <= 0 {
        0
    } else {
        grid_sum(cells, f, width, n - 1) + lane_sum(cells[n - 1], f, width)
    }
}

/// What the change of one cell does to the sum of a lane.
pub proof fn lemma_lane_sum_update(lane: Seq<Cell>, f: spec_fn(Cell) -> int, at: int, cell: Cell, n: int)
    requires
        0 <= at < lane.len(),
        0 <= n <= lane.len(),
    ensures
        lane_sum(lane.update(at, cell), f, n) == lane_sum(lane, f, n) + if at < n {
            f(cell) - f(lane[at])
        } else {
            0
        },
    decreases n,
{
    if n > 0 {
        lemma_lane_sum_update(lane, f, at, cell, n - 1);
    }
}

/// Bounds on the sum of a lane from bounds on `f`.
pub proof fn lemma_lane_sum_bounds(lane: Seq<Cell>, f: spec_fn(Cell) -> int, lo: int, hi: int, n: int)
    requires
        0 <= n <= lane.len(),
        forall|i: int| 0 <= i < n ==> lo <= #[trigger] f(lane[i]) <= hi,
    ensures
        n * lo <= lane_sum(lane, f, n) <= n * hi,
    decreases n,
{
    if n > 0 {
        lemma_lane_sum_bounds(lane, f, lo, hi, n - 1);
        assert(lo <= f(lane[n - 1]) <= hi);
        assert(n * lo == (n - 1) * lo + lo) by (nonlinear_arith);
        assert(n * hi == (n - 1) * hi + hi) by (nonlinear_arith);
    } else {
        assert(n * lo == 0) by (nonlinear_arith)
            requires
                n == 0,
        ;
        assert(n * hi == 0) by (nonlinear_arith)
            requires
                n == 0,
        ;
    }
}

/// A lane in which `f` is nowhere more than in another has no greater sum,
/// and a smaller one if `f` is less somewhere.
pub proof fn lemma_lane_sum_less(a: Seq<Cell>, b: Seq<Cell>, f: spec_fn(Cell) -> int, n: int)
    requires
        0 <= n <= a.len(),
        a.len() == b.len(),
        forall|i: int| 0 <= i < n ==> f(#[trigger] a[i]) <= f(b[i]),
    ensures
        lane_sum(a, f, n) <= lane_sum(b, f, n),
        (exists|i: int| 0 <= i < n && f(a[i]) < f(b[i])) ==> lane_sum(a, f, n) < lane_sum(b, f, n),
    decreases n,
{
    if n > 0 {
        lemma_lane_sum_less(a, b, f, n - 1);
        assert(f(a[n - 1]) <= f(b[n - 1]));
        if exists|i: int| 0 <= i < n && f(a[i]) < f(b[i]) {
            let i = choose|i: int| 0 <= i < n && f(a[i]) < f(b[i]);
            if i < n - 1 {
                assert(exists|i: int| 0 <= i < n - 1 && f(a[i]) < f(b[i]));
            }
        }
    }
}

/// What a new row or column does to the sum of a grid.
pub proof fn lemma_grid_sum_with_lane(
    cells: Seq<Seq<Cell>>,
    f: spec_fn(Cell) -> int,
    width: int,
    row: bool,
    index: int,
    lane: Seq<Cell>,
    n: int,
)
    requires
        rectangular(cells, width as nat),
        0 <= width,
        0 <= n <= cells.len(),
        row ==> 0 <= index < cells.len() && lane.len() == width,
        !row ==> 0 <= index < width && lane.len() == cells.len(),
    ensures
        grid_sum(with_lane(cells, row, index, lane), f, width, n) == grid_sum(cells, f, width, n) + if row {
            if index < n {
                lane_sum(lane, f, width) - lane_sum(cells[index], f, width)
            } else {
                0
            }
        } else {
            lane_sum(lane, f, n) - lane_sum(lane_of(cells, false, index), f, n)
        },
    decreases n,
{
    let after = with_lane(cells, row, index, lane);
    if n > 0 {
        lemma_grid_sum_with_lane(cells, f, width, row, index, lane, n - 1);
        if row {
            if index != n - 1 {
                assert(after[n - 1] == cells[n - 1]);
            }
        } else {
            assert(cells[n - 1].len() == width);
            lemma_lane_sum_update(cells[n - 1], f, index, lane[n - 1], width);
            assert(after[n - 1] == cells[n - 1].update(index, lane[n - 1]));
            assert(lane_of(cells, false, index)[n - 1] == cells[n - 1][index]);
        }
    }
}

/// Bounds on the sum of a grid from bounds on `f`.
pub proof fn lemma_grid_sum_bounds(
    cells: Seq<Seq<Cell>>,
    f: spec_fn(Cell) -> int,
    width: int,
    lo: int,
    hi: int,
    n: int,
)
    requires
        rectangular(cells, width as nat),
        0 <= width,
        0 <= n <= cells.len(),
        lo <= 0 <= hi,
        forall|c: Cell| lo <= #[trigger] f(c) <= hi,
    ensures
        n * width * lo <= grid_sum(cells, f, width, n) <= n * width * hi,
    decreases n,
{
    if n > 0 {
        lemma_grid_sum_bounds(cells, f, width, lo, hi, n - 1);
        assert(cells[n - 1].len() == width);
        lemma_lane_sum_bounds(cells[n - 1], f, lo, hi, width);
        assert(n * width * lo == (n - 1) * width * lo + width * lo) by (nonlinear_arith);
        assert(n * width * hi == (n - 1) * width * hi + width * hi) by (nonlinear_arith);
    } else {
        assert(n * width * lo == 0) by (nonlinear_arith)
            requires
                n == 0,
        ;
        assert(n * width * hi == 0) by (nonlinear_arith)
            requires
                n == 0,
        ;
    }
}

/// The number of colors that the cells of the grid can have, all together.
pub open spec fn total_weight(cells: Seq<Seq<Cell>>, width: int) -> int {
    grid_sum(cells, |c: Cell| weight(c), width, cells.len() as int)
}

/// The number of cells of the grid that are not known.
pub open spec fn total_unknown(cells: Seq<Seq<Cell>>, width: int) -> int {
    grid_sum(cells, |c: Cell| unknown(c), width, cells.len() as int)
}

/// The number of cells of the lane that are not known.
pub open spec fn lane_unknown(lane: Seq<Cell>) -> int {
    lane_sum(lane, |c: Cell| unknown(c), lane.len() as int)
}

/// What a narrowed row or column does to the sums of a grid: the cells have
/// no more colors than before, and fewer if the lane changed; and the cells
/// that are not known change by what they change in the lane.
pub proof fn lemma_totals_with_lane(
    cells: Seq<Seq<Cell>>,
    width: int,
    row: bool,
    index: int,
    lane: Seq<Cell>,
)
    requires
        rectangular(cells, width as nat),
        0 <= width,
        row ==> 0 <= index < cells.len(),
        !row ==> 0 <= index < width,
        narrowed(lane_of(cells, row, index), lane),
    ensures
        0 <= total_weight(with_lane(cells, row, index, lane), width) <= total_weight(cells, width),
        lane != lane_of(cells, row, index) ==> total_weight(
            with_lane(cells, row, index, lane),
            width,
        ) < total_weight(cells, width),
        total_unknown(with_lane(cells, row, index, lane), width) == total_unknown(cells, width)
            - lane_unknown(lane_of(cells, row, index)) + lane_unknown(lane),
        total_weight(cells, width) <= cells.len() * width * 32,
        0 <= total_unknown(cells, width) <= cells.len() * width,
        0 <= total_unknown(with_lane(cells, row, index, lane), width),
{
    let before = lane_of(cells, row, index);
    let after = with_lane(cells, row, index, lane);
    let w = |c: Cell| weight(c);
    let u = |c: Cell| unknown(c);
    let n = cells.len() as int;
    let len = lane.len() as int;
    if row {
        assert(cells[index].len() == width);
    }
    lemma_grid_sum_with_lane(cells, w, width, row, index, lane, n);
    lemma_grid_sum_with_lane(cells, u, width, row, index, lane, n);
    assert forall|i: int| 0 <= i < len implies w(#[trigger] lane[i]) <= w(before[i]) by {
        assert(lane[i].within(before[i]));
        lemma_weight(lane[i], before[i]);
    }
    lemma_lane_sum_less(lane, before, w, len);
    if lane != before {
        assert(!(lane =~= before));
        let i = choose|i: int| 0 <= i < len && lane[i] != before[i];
        assert(lane[i].within(before[i]));
        lemma_weight(lane[i], before[i]);
        assert(w(lane[i]) < w(before[i]));
    }
    assert forall|c: Cell| 0 <= #[trigger] w(c) <= 32 by {
        c.lemma_views(c);
        lemma_weight(c, c);
    }
    assert forall|c: Cell| 0 <= #[trigger] u(c) <= 1 by {}
    lemma_grid_sum_bounds(cells, w, width, 0, 32, n);
    lemma_grid_sum_bounds(cells, u, width, 0, 1, n);
    assert forall|y: int| 0 <= y < after.len() implies (#[trigger] after[y]).len() == width by {
        assert(cells[y].len() == width);
    }
    lemma_grid_sum_bounds(after, w, width, 0, 32, n);
    lemma_grid_sum_bounds(after, u, width, 0, 1, n);
    assert(n * width * 0 == 0) by (nonlinear_arith);
    assert(n * width * 1 == n * width) by (nonlinear_arith);
}

/// A known cell that is narrowed, and not left without a color, stays as it
/// is.
pub proof fn lemma_known_stays(after: Cell, before: Cell)
    requires
        after.within(before),
        after.impossible() ==> before.impossible(),
        before.known(),
    ensures
        after == before,
{
    let d = choose|d: u8| d < 32 && before.bits() == crate::bits::bit(d);
    let color = crate::puzzle::Color(d);
    before.lemma_known(color);
    lemma_subset_bits(after.bits(), before.bits());
    let c = crate::bits::lemma_nonzero_has_bit(after.bits());
    assert(before.can(crate::puzzle::Color(c)));
    assert forall|x: u8| x < 32 implies (has_bit(after.bits(), x) <==> has_bit(before.bits(), x)) by {
        if has_bit(before.bits(), x) {
            assert(before.can(crate::puzzle::Color(x)));
        }
    }
    lemma_mask_ext(after.bits(), before.bits());
    after.lemma_by_bits(before);
}

/// A narrowed lane has no more cells that are not known than before.
pub proof fn lemma_unknown_falls(before: Seq<Cell>, after: Seq<Cell>)
    requires
        narrowed(before, after),
    ensures
        0 <= lane_unknown(after) <= lane_unknown(before) <= before.len(),
{
    let u = |c: Cell| unknown(c);
    assert forall|i: int| 0 <= i < after.len() implies u(#[trigger] after[i]) <= u(before[i]) by {
        assert(after[i].within(before[i]));
        if before[i].known() {
            lemma_known_stays(after[i], before[i]);
        }
    }
    lemma_lane_sum_less(after, before, u, after.len() as int);
    lemma_lane_sum_bounds(before, u, 0, 1, before.len() as int);
    lemma_lane_sum_bounds(after, u, 0, 1, after.len() as int);
    assert(before.len() * 0 == 0) by (nonlinear_arith);
    assert(before.len() * 1 == before.len()) by (nonlinear_arith);
    assert(after.len() * 0 == 0) by (nonlinear_arith);
}

/// The number of cells of the lane that are known.
pub fn count_known(lane: &Vec<Cell>) -> (known: usize)
    ensures
        known + lane_unknown(lane@) == lane@.len(),
        known <= lane@.len(),
{
    let ghost u = |c: Cell| unknown(c);
    let mut known: usize = 0;
    let mut i: usize = 0;
    while i < lane.len()
        invariant
            i <= lane@.len(),
            u == |c: Cell| unknown(c),
            known <= i,
            known + lane_sum(lane@, u, i as int) == i,
        decreases lane@.len() - i,
    {
        assert(lane_sum(lane@, u, i + 1) == lane_sum(lane@, u, i as int) + u(lane@[i as int]));
        if lane[i].is_known() {
            known = known + 1;
        }
        i = i + 1;
    }
    known
}

/// The cells of a grid can have no more than 32 colors each.
pub proof fn lemma_total_weight_bounds(cells: Seq<Seq<Cell>>, width: int)
    requires
        rectangular(cells, width as nat),
        0 <= width,
    ensures
        0 <= total_weight(cells, width) <= cells.len() * width * 32,
{
    let w = |c: Cell| weight(c);
    assert forall|c: Cell| 0 <= #[trigger] w(c) <= 32 by {
        c.lemma_views(c);
        lemma_weight(c, c);
    }
    lemma_grid_sum_bounds(cells, w, width, 0, 32, cells.len() as int);
    assert(cells.len() * width * 0 == 0) by (nonlinear_arith);
}

} // verus!
