//! What it means for the clues of a line to be laid out in a lane.
//!
//! A line is taken as plain data: the colors that each clue shows, cell by
//! cell, and for each clue whether a background cell must lie between it and
//! the clue before. A placement gives each clue the index of its first cell.
//! An arrangement is a placement in which every cell can have the color that
//! the placement gives it: the color of the clue over it, or the background.

use crate::line_solve::{Cell, SolveError};
use crate::puzzle::{background, Clue, Color};
use vstd::prelude::*;

verus! {

pub struct Line {
    /// The colors of each clue, from its first cell to its last.
    pub clues: Seq<Seq<Color>>,
    /// Whether a clue must be separated from the one before it.
    pub seps: Seq<bool>,
}

/// The line that a clue vector stands for.
pub open spec fn line_of<C: Clue>(clues: Seq<C>) -> Line {
    Line {
        clues: Seq::new(
            clues.len(),
            |k: int| Seq::new(clues[k].spec_len(), |j: int| clues[k].spec_color_at(j)),
        ),
        seps: Seq::new(clues.len(), |k: int| k > 0 && clues[k - 1].spec_separated(&clues[k])),
    }
}

/// Every clue of the vector is well formed.
pub open spec fn clues_well_formed<C: Clue>(clues: Seq<C>) -> bool {
    forall|k: int| 0 <= k < clues.len() ==> (#[trigger] clues[k]).well_formed()
}

/// A lane read from its other end.
pub open spec fn mirror_lane(lane: Seq<Cell>) -> Seq<Cell> {
    Seq::new(lane.len(), |i: int| lane[lane.len() - 1 - i])
}

impl Line {
    pub open spec fn n(self) -> int {
        self.clues.len() as int
    }

    pub open spec fn len(self, k: int) -> int {
        self.clues[k].len() as int
    }

    pub open spec fn gap(self, k: int) -> int {
        if self.seps[k] {
            1
        } else {
            0
        }
    }

    pub open spec fn wf(self) -> bool {
        &&& self.seps.len() == self.clues.len()
        &&& self.n() > 0 ==> !self.seps[0]
        &&& forall|k: int| 0 <= k < self.n() ==> #[trigger] self.len(k) >= 1
        &&& forall|k: int, j: int|
            0 <= k < self.n() && 0 <= j < self.len(k) ==> (#[trigger] self.clues[k][j]).fits_cell()
    }

    /// The same line read from the other end of the lane.
    pub open spec fn mirror(self) -> Line {
        Line {
            clues: Seq::new(
                self.clues.len(),
                |k: int|
                    Seq::new(
                        self.clues[self.n() - 1 - k].len(),
                        |j: int| self.clues[self.n() - 1 - k][self.len(self.n() - 1 - k) - 1 - j],
                    ),
            ),
            seps: Seq::new(self.clues.len(), |k: int| k > 0 && self.seps[self.n() - k]),
        }
    }

    /// Clue `k` can start at `start`: it lies within the lane, and each of
    /// its cells can have the clue's color.
    pub open spec fn fits(self, lane: Seq<Cell>, k: int, start: int) -> bool {
        &&& 0 <= start
        &&& start + self.len(k) <= lane.len()
        &&& forall|j: int| 0 <= j < self.len(k) ==> (#[trigger] lane[start + j]).can(self.clues[k][j])
    }

    /// Clue `k` starts behind the clue before it, and behind the gap where
    /// one is due.
    pub open spec fn spaced(self, p: Seq<int>, k: int) -> bool {
        k > 0 ==> p[k] >= p[k - 1] + self.len(k - 1) + self.gap(k)
    }

    pub open spec fn is_placement(self, lane: Seq<Cell>, p: Seq<int>) -> bool {
        &&& p.len() == self.n()
        &&& forall|k: int| 0 <= k < self.n() ==> #[trigger] self.fits(lane, k, p[k])
        &&& forall|k: int| 0 <= k < self.n() ==> #[trigger] self.spaced(p, k)
    }

    /// Clue `k` lies over cell `i`.
    pub open spec fn covers(self, p: Seq<int>, k: int, i: int) -> bool {
        0 <= k < self.n() && p[k] <= i < p[k] + self.len(k)
    }

    pub open spec fn covered(self, p: Seq<int>, i: int) -> bool {
        exists|k: int| self.covers(p, k, i)
    }

    /// The placement is one that the lane allows: each clue fits, and each
    /// cell under no clue can be background.
    pub open spec fn is_arrangement(self, lane: Seq<Cell>, p: Seq<int>) -> bool {
        &&& self.is_placement(lane, p)
        &&& forall|i: int|
            0 <= i < lane.len() && !self.covered(p, i) ==> (#[trigger] lane[i]).can(background())
    }

    /// The color that the placement puts at index `i` is one of `allowed`.
    pub open spec fn puts_in(self, p: Seq<int>, i: int, allowed: Set<Color>) -> bool {
        &&& forall|k: int| #[trigger] self.covers(p, k, i) ==> allowed.contains(self.clues[k][i - p[k]])
        &&& !self.covered(p, i) ==> allowed.contains(background())
    }

    /// `cell` allows what the placement puts at index `i`.
    pub open spec fn allows_at(self, p: Seq<int>, i: int, cell: Cell) -> bool {
        self.puts_in(p, i, cell@)
    }

    /// Every arrangement that `before` allows, `after` allows too.
    pub open spec fn preserved(self, before: Seq<Cell>, after: Seq<Cell>) -> bool {
        forall|p: Seq<int>| #[trigger] self.is_arrangement(before, p) ==> self.is_arrangement(after, p)
    }

    /// The lane allows no arrangement at all.
    pub open spec fn refuted(self, lane: Seq<Cell>) -> bool {
        forall|p: Seq<int>| !#[trigger] self.is_arrangement(lane, p)
    }

    /// The placement as seen from the other end of a lane of length `len`.
    pub open spec fn mirror_placement(self, len: int, p: Seq<int>) -> Seq<int> {
        Seq::new(p.len(), |k: int| len - p[self.n() - 1 - k] - self.len(self.n() - 1 - k))
    }

    /// The clues stand in their order, each behind the one before it.
    pub open spec fn in_order(self, p: Seq<int>) -> bool {
        &&& p.len() == self.n()
        &&& forall|k: int| 0 <= k < self.n() ==> #[trigger] self.spaced(p, k)
    }

    /// Clues that stand in order do not overlap.
    pub proof fn lemma_in_order(self, p: Seq<int>, j: int, k: int)
        requires
            self.in_order(p),
            0 <= j < k < self.n(),
        ensures
            p[k] >= p[j] + self.len(j),
        decreases k - j,
    {
        assert(self.spaced(p, k));
        if j < k - 1 {
            self.lemma_in_order(p, j, k - 1);
        }
    }

    /// The color that the placement gives to cell `i`: that of the clue over
    /// it, or the background.
    pub open spec fn color_of(self, p: Seq<int>, i: int) -> Color {
        if self.covered(p, i) {
            let k = choose|k: int| self.covers(p, k, i);
            self.clues[k][i - p[k]]
        } else {
            background()
        }
    }

    /// Where the clues stand in order, the color under clue `k` is the clue's.
    pub proof fn lemma_color_under(self, p: Seq<int>, k: int, i: int)
        requires
            self.in_order(p),
            self.covers(p, k, i),
        ensures
            self.color_of(p, i) == self.clues[k][i - p[k]],
    {
        let c = choose|c: int| self.covers(p, c, i);
        if c < k {
            self.lemma_in_order(p, c, k);
        }
        if k < c {
            self.lemma_in_order(p, k, c);
        }
    }

    /// Where the clues stand in order, a cell between the end of clue `k - 1`
    /// and the start of clue `k` is background.
    pub proof fn lemma_color_between(self, p: Seq<int>, k: int, i: int)
        requires
            self.in_order(p),
            0 <= k <= self.n(),
            k > 0 ==> p[k - 1] + self.len(k - 1) <= i,
            k < self.n() ==> i < p[k],
        ensures
            self.color_of(p, i) == background(),
    {
        assert forall|c: int| !self.covers(p, c, i) by {
            if 0 <= c < self.n() {
                if c < k - 1 {
                    self.lemma_in_order(p, c, k - 1);
                }
                if c > k {
                    self.lemma_in_order(p, k, c);
                }
            }
        }
    }

    /// In a placement the clues stand in their order and do not overlap.
    pub proof fn lemma_order(self, lane: Seq<Cell>, p: Seq<int>, j: int, k: int)
        requires
            self.is_placement(lane, p),
            0 <= j < k < self.n(),
        ensures
            p[k] >= p[j] + self.len(j),
        decreases k - j,
    {
        assert(self.spaced(p, k));
        assert(self.fits(lane, j, p[j]));
        if j < k - 1 {
            self.lemma_order(lane, p, j, k - 1);
            assert(self.fits(lane, k - 1, p[k - 1]));
        }
    }

    /// At most one clue lies over a cell.
    pub proof fn lemma_one_cover(self, lane: Seq<Cell>, p: Seq<int>, j: int, k: int, i: int)
        requires
            self.is_placement(lane, p),
            self.covers(p, j, i),
            self.covers(p, k, i),
        ensures
            j == k,
    {
        if j < k {
            self.lemma_order(lane, p, j, k);
        }
        if k < j {
            self.lemma_order(lane, p, k, j);
        }
    }

    /// An arrangement gives every cell a color that the cell allows.
    pub proof fn lemma_arrangement_allowed(self, lane: Seq<Cell>, p: Seq<int>, i: int)
        requires
            self.is_arrangement(lane, p),
            0 <= i < lane.len(),
        ensures
            self.allows_at(p, i, lane[i]),
    {
        assert forall|k: int| #[trigger] self.covers(p, k, i) implies lane[i].can(
            self.clues[k][i - p[k]],
        ) by {
            assert(self.fits(lane, k, p[k]));
            assert(lane[p[k] + (i - p[k])].can(self.clues[k][i - p[k]]));
        }
    }

    /// Narrowing one cell to what a placement puts there keeps the placement
    /// an arrangement.
    pub proof fn lemma_narrow_keeps(
        self,
        lane: Seq<Cell>,
        p: Seq<int>,
        i: int,
        cell: Cell,
    )
        requires
            self.is_arrangement(lane, p),
            0 <= i < lane.len(),
            self.allows_at(p, i, cell),
        ensures
            self.is_arrangement(lane.update(i, cell), p),
    {
        let after = lane.update(i, cell);
        assert forall|k: int| 0 <= k < self.n() implies #[trigger] self.fits(after, k, p[k]) by {
            assert(self.fits(lane, k, p[k]));
            assert forall|j: int| 0 <= j < self.len(k) implies (#[trigger] after[p[k] + j]).can(
                self.clues[k][j],
            ) by {
                assert(lane[p[k] + j].can(self.clues[k][j]));
                if p[k] + j == i {
                    assert(self.covers(p, k, i));
                }
            }
        }
        assert forall|k: int| 0 <= k < self.n() implies #[trigger] self.spaced(p, k) by {
            assert(self.spaced(p, k));
        }
        assert forall|x: int| 0 <= x < after.len() && !self.covered(p, x) implies (
        #[trigger] after[x]).can(background()) by {
            assert(lane[x].can(background()));
        }
    }

    /// A placement is a placement of the mirrored line in the mirrored lane
    /// when it is mirrored too.
    pub proof fn lemma_mirror_placement(self, lane: Seq<Cell>, p: Seq<int>)
        requires
            self.wf(),
            self.is_placement(lane, p),
        ensures
            self.mirror().is_placement(mirror_lane(lane), self.mirror_placement(lane.len() as int, p)),
    {
        let m = self.mirror();
        let ml = mirror_lane(lane);
        let mp = self.mirror_placement(lane.len() as int, p);
        let n = self.n();
        let len = lane.len() as int;
        assert forall|k: int| 0 <= k < m.n() implies #[trigger] m.fits(ml, k, mp[k]) by {
            let r = n - 1 - k;
            assert(self.fits(lane, r, p[r]));
            assert forall|j: int| 0 <= j < m.len(k) implies (#[trigger] ml[mp[k] + j]).can(
                m.clues[k][j],
            ) by {
                let jj = self.len(r) - 1 - j;
                assert(lane[p[r] + jj].can(self.clues[r][jj]));
                assert(ml[mp[k] + j] == lane[len - 1 - (mp[k] + j)]);
            }
        }
        assert forall|k: int| 0 <= k < m.n() implies #[trigger] m.spaced(mp, k) by {
            if k > 0 {
                assert(self.spaced(p, n - k));
            }
        }
    }

    /// A placement is an arrangement of the mirrored line in the mirrored lane
    /// when it is mirrored too.
    pub proof fn lemma_mirror(self, lane: Seq<Cell>, p: Seq<int>)
        requires
            self.wf(),
            self.is_arrangement(lane, p),
        ensures
            self.mirror().is_arrangement(mirror_lane(lane), self.mirror_placement(lane.len() as int, p)),
    {
        let m = self.mirror();
        let ml = mirror_lane(lane);
        let mp = self.mirror_placement(lane.len() as int, p);
        let n = self.n();
        let len = lane.len() as int;
        assert forall|k: int| 0 <= k < m.n() implies #[trigger] m.fits(ml, k, mp[k]) by {
            let r = n - 1 - k;
            assert(self.fits(lane, r, p[r]));
            assert forall|j: int| 0 <= j < m.len(k) implies (#[trigger] ml[mp[k] + j]).can(
                m.clues[k][j],
            ) by {
                let jj = self.len(r) - 1 - j;
                assert(lane[p[r] + jj].can(self.clues[r][jj]));
                assert(ml[mp[k] + j] == lane[len - 1 - (mp[k] + j)]);
            }
        }
        assert forall|k: int| 0 <= k < m.n() implies #[trigger] m.spaced(mp, k) by {
            if k > 0 {
                assert(self.spaced(p, n - k));
            }
        }
        assert forall|i: int| 0 <= i < ml.len() && !m.covered(mp, i) implies (#[trigger] ml[i]).can(
            background(),
        ) by {
            let x = len - 1 - i;
            if self.covered(p, x) {
                let r = choose|r: int| self.covers(p, r, x);
                assert(m.covers(mp, n - 1 - r, i));
            }
            assert(lane[x].can(background()));
        }
    }
}

/// The line of well-formed clues is well formed.
pub proof fn lemma_line_of_wf<C: Clue>(clues: Seq<C>)
    requires
        clues_well_formed(clues),
    ensures
        line_of(clues).wf(),
        line_of(clues).n() == clues.len(),
        forall|k: int| 0 <= k < clues.len() ==> #[trigger] line_of(clues).len(k) == clues[k].spec_len(),
{
    let line = line_of(clues);
    assert forall|k: int| 0 <= k < line.n() implies #[trigger] line.len(k) >= 1 by {
        clues[k].well_formed_covers();
    }
    assert forall|k: int, j: int| 0 <= k < line.n() && 0 <= j < line.len(k) implies (
    #[trigger] line.clues[k][j]).fits_cell() by {
        clues[k].well_formed_covers();
    }
}

/// The line as it is seen when the lane is walked from one end or the other.
pub open spec fn seen_line(line: Line, reversed: bool) -> Line {
    if reversed {
        line.mirror()
    } else {
        line
    }
}

/// The lane as it is seen when it is walked from one end or the other.
pub open spec fn seen_lane(lane: Seq<Cell>, reversed: bool) -> Seq<Cell> {
    if reversed {
        mirror_lane(lane)
    } else {
        lane
    }
}

/// The mirrored line is well formed where the line is, with the clues in
/// the opposite order.
pub proof fn lemma_mirror_wf(line: Line)
    requires
        line.wf(),
    ensures
        line.mirror().wf(),
        line.mirror().n() == line.n(),
        forall|k: int| 0 <= k < line.n() ==> #[trigger] line.mirror().len(k) == line.len(line.n() - 1 - k),
{
    let m = line.mirror();
    assert forall|k: int| 0 <= k < m.n() implies #[trigger] m.len(k) >= 1 by {
        assert(line.len(line.n() - 1 - k) >= 1);
    }
    assert forall|k: int, j: int| 0 <= k < m.n() && 0 <= j < m.len(k) implies (
    #[trigger] m.clues[k][j]).fits_cell() by {
        let r = line.n() - 1 - k;
        assert(line.clues[r][line.len(r) - 1 - j].fits_cell());
    }
}

/// The right ends `ext` of the clues lie within a lane of length `len`, in
/// order, with room for each clue between its end and the end before.
pub open spec fn right_ends_ok(line: Line, len: int, ext: Seq<usize>) -> bool {
    &&& ext.len() == line.n()
    &&& forall|k: int|
        0 <= k < line.n() ==> {
            &&& line.len(k) <= #[trigger] ext[k] + 1
            &&& ext[k] < len
            &&& k > 0 ==> ext[k - 1] + line.len(k) <= ext[k]
        }
}

/// The first `upto` clues of the placement end at or behind the ends `ext`.
pub open spec fn ends_reach(line: Line, p: Seq<int>, ext: Seq<usize>, upto: int) -> bool {
    forall|k: int| 0 <= k < upto ==> p[k] + line.len(k) - 1 >= #[trigger] ext[k]
}

/// In every arrangement each clue ends at or behind its end in `ext`.
pub open spec fn bounded_from_left(line: Line, lane: Seq<Cell>, ext: Seq<usize>) -> bool {
    forall|p: Seq<int>| #[trigger] line.is_arrangement(lane, p) ==> ends_reach(line, p, ext, line.n())
}

/// The left ends `ext` of the clues lie within a lane of length `len`, in
/// order, with room for each clue between its start and the next.
pub open spec fn left_starts_ok(line: Line, len: int, ext: Seq<usize>) -> bool {
    &&& ext.len() == line.n()
    &&& forall|k: int|
        0 <= k < line.n() ==> {
            &&& #[trigger] ext[k] + line.len(k) <= len
            &&& k > 0 ==> ext[k - 1] + line.len(k - 1) <= ext[k]
        }
}

/// In every arrangement each clue starts at or before its start in `ext`.
pub open spec fn bounded_from_right(line: Line, lane: Seq<Cell>, ext: Seq<usize>) -> bool {
    forall|p: Seq<int>| #[trigger]
        line.is_arrangement(lane, p) ==> forall|k: int|
            0 <= k < line.n() ==> p[k] <= #[trigger] ext[k]
}

/// In every arrangement each clue starts between the start that goes with
/// its end in `lpr` and its start in `rpl`.
pub open spec fn clue_bounds(line: Line, lane: Seq<Cell>, lpr: Seq<usize>, rpl: Seq<usize>) -> bool {
    forall|p: Seq<int>| #[trigger]
        line.is_arrangement(lane, p) ==> forall|k: int|
            0 <= k < line.n() ==> lpr[k] + 1 - line.len(k) <= #[trigger] p[k] <= rpl[k]
}

impl Line {
    /// A cell between the end of clue `k - 1` and the start of clue `k` lies
    /// under no clue.
    pub proof fn lemma_between(self, lane: Seq<Cell>, p: Seq<int>, k: int, i: int)
        requires
            self.is_placement(lane, p),
            0 <= k <= self.n(),
            k > 0 ==> p[k - 1] + self.len(k - 1) <= i,
            k < self.n() ==> i < p[k],
        ensures
            !self.covered(p, i),
    {
        assert forall|c: int| !self.covers(p, c, i) by {
            if 0 <= c < self.n() {
                if c < k - 1 {
                    self.lemma_order(lane, p, c, k - 1);
                    assert(self.fits(lane, k - 1, p[k - 1]));
                }
                if c > k {
                    self.lemma_order(lane, p, k, c);
                    assert(self.fits(lane, k, p[k]));
                }
            }
        }
    }

    /// Whether the line shows the color before the cell `j` of clue `k`, in
    /// the order of the clues and of their cells.
    pub open spec fn shows_before(self, k: int, j: int, c: Color) -> bool {
        exists|a: int, b: int|
            0 <= a < self.n() && 0 <= b < self.len(a) && (a < k || (a == k && b < j))
                && #[trigger] self.clues[a][b] == c
    }

    /// A placement that puts the color at a cell is an arrangement of the
    /// lane in which that cell is known to be of the color. So where that
    /// lane allows no arrangement, no arrangement of this lane has the color
    /// there.
    pub proof fn lemma_hypothesis(self, lane: Seq<Cell>, p: Seq<int>, i: int, color: Color, single: Cell)
        requires
            self.is_arrangement(lane, p),
            0 <= i < lane.len(),
            single.known_to_be(color),
            self.refuted(lane.update(i, single)),
        ensures
            self.puts_in(p, i, Set::new(|c: Color| c != color)),
    {
        single.lemma_known(color);
        if self.covered(p, i) {
            let k0 = choose|k: int| self.covers(p, k, i);
            let col = self.clues[k0][i - p[k0]];
            if col == color {
                assert forall|k: int| #[trigger] self.covers(p, k, i) implies single@.contains(
                    self.clues[k][i - p[k]],
                ) by {
                    self.lemma_one_cover(lane, p, k, k0, i);
                }
                self.lemma_narrow_keeps(lane, p, i, single);
                assert(false);
            }
            assert forall|k: int| #[trigger] self.covers(p, k, i) implies self.clues[k][i - p[k]]
                != color by {
                self.lemma_one_cover(lane, p, k, k0, i);
            }
        } else {
            if background() == color {
                self.lemma_narrow_keeps(lane, p, i, single);
                assert(false);
            }
        }
    }

    /// The cells that the first `k` clues cover.
    pub open spec fn len_sum(self, k: int) -> int
        decreases k,
    {
        if k <= 0 {
            0
        } else {
            self.len_sum(k - 1) + self.len(k - 1)
        }
    }

    /// The cells that the first `k` clues need between them.
    pub open spec fn gap_sum(self, k: int) -> int
        decreases k,
    {
        if k <= 0 {
            0
        } else {
            self.gap_sum(k - 1) + self.gap(k - 1)
        }
    }

    /// The length of the longest of the first `k` clues.
    pub open spec fn longest(self, k: int) -> int
        decreases k,
    {
        if k <= 0 {
            0
        } else if self.len(k - 1) > self.longest(k - 1) {
            self.len(k - 1)
        } else {
            self.longest(k - 1)
        }
    }

    pub proof fn lemma_sums(self, k: int, n: int)
        requires
            0 <= k <= n <= self.n(),
        ensures
            0 <= self.len_sum(k) <= self.len_sum(n),
            0 <= self.longest(k) <= self.len_sum(k),
            0 <= self.gap_sum(k) <= k,
        decreases n,
    {
        if k > 0 {
            self.lemma_sums(k - 1, k - 1);
        }
        if k < n {
            self.lemma_sums(k, n - 1);
        }
    }

    /// Whether the line shows the color somewhere.
    pub open spec fn shows(self, c: Color) -> bool {
        exists|k: int, j: int| 0 <= k < self.n() && 0 <= j < self.len(k) && #[trigger] self.clues[k][j] == c
    }
}

/// The ends found from the left and the starts found from the right bound
/// the start of every clue in every arrangement.
pub proof fn lemma_clue_bounds(line: Line, lane: Seq<Cell>, lpr: Seq<usize>, rpl: Seq<usize>)
    requires
        bounded_from_left(line, lane, lpr),
        bounded_from_right(line, lane, rpl),
    ensures
        clue_bounds(line, lane, lpr, rpl),
{
    assert forall|p: Seq<int>| #[trigger] line.is_arrangement(lane, p) implies forall|k: int|
        0 <= k < line.n() ==> lpr[k] + 1 - line.len(k) <= #[trigger] p[k] <= rpl[k] by {
        assert(ends_reach(line, p, lpr, line.n()));
        assert forall|k: int| 0 <= k < line.n() implies lpr[k] + 1 - line.len(k) <= #[trigger] p[k]
            <= rpl[k] by {
            assert(p[k] + line.len(k) - 1 >= lpr[k]);
            assert(p[k] <= rpl[k]);
        }
    }
}

/// The sum of the first `k` gaps.
pub open spec fn gap_total(gaps: Seq<u16>, k: int) -> int
    decreases k,
{
    if k <= 0 {
        0
    } else {
        gap_total(gaps, k - 1) + gaps[k - 1]
    }
}

/// The sums of the gaps rise with their number.
pub proof fn lemma_gap_total_rises(gaps: Seq<u16>, j: int, k: int)
    requires
        0 <= j <= k <= gaps.len(),
    ensures
        0 <= gap_total(gaps, j) <= gap_total(gaps, k),
    decreases k,
{
    if j > 0 {
        lemma_gap_total_rises(gaps, j - 1, j - 1);
    }
    if j < k {
        lemma_gap_total_rises(gaps, j, k - 1);
    }
}

/// What a change of one gap does to the sums.
pub proof fn lemma_gap_total_update(gaps: Seq<u16>, i: int, v: u16, k: int)
    requires
        0 <= i < gaps.len(),
        0 <= k <= gaps.len(),
    ensures
        gap_total(gaps.update(i, v), k) == gap_total(gaps, k) + if i < k {
            v - gaps[i]
        } else {
            0
        },
    decreases k,
{
    if k > 0 {
        lemma_gap_total_update(gaps, i, v, k - 1);
    }
}

/// A gap is no more than the sum of the gaps.
pub proof fn lemma_gap_in_total(gaps: Seq<u16>, i: int)
    requires
        0 <= i < gaps.len(),
    ensures
        gaps[i] <= gap_total(gaps, gaps.len() as int),
{
    lemma_gap_total_rises(gaps, i + 1, gaps.len() as int);
    lemma_gap_total_rises(gaps, i, i);
}

/// Where each clue starts when `gaps[k]` background cells lie before clue `k`.
pub open spec fn gap_placement(line: Line, gaps: Seq<u16>) -> Seq<int> {
    Seq::new(gaps.len(), |k: int| gap_total(gaps, k + 1) + line.len_sum(k))
}

/// The clues of a placement by gaps stand in order.
pub proof fn lemma_gap_placement(line: Line, gaps: Seq<u16>)
    requires
        gaps.len() == line.n(),
    ensures
        line.in_order_loosely(gap_placement(line, gaps)),
{
    let p = gap_placement(line, gaps);
    assert forall|k: int| 0 < k < line.n() implies #[trigger] p[k] >= p[k - 1] + line.len(k - 1) by {
        assert(gap_total(gaps, k + 1) == gap_total(gaps, k) + gaps[k]);
        assert(line.len_sum(k) == line.len_sum(k - 1) + line.len(k - 1));
    }
}

impl Line {
    /// The clues stand in their order; no gap is asked for between them.
    pub open spec fn in_order_loosely(self, p: Seq<int>) -> bool {
        &&& p.len() == self.n()
        &&& forall|k: int| 0 < k < self.n() ==> #[trigger] p[k] >= p[k - 1] + self.len(k - 1)
    }

    /// The same line with no gap asked for between any two clues.
    pub open spec fn loose(self) -> Line {
        Line { clues: self.clues, seps: Seq::new(self.clues.len(), |k: int| false) }
    }

    pub proof fn lemma_loose(self, p: Seq<int>)
        requires
            self.in_order_loosely(p),
        ensures
            self.loose().in_order(p),
            forall|i: int| self.loose().color_of(p, i) == self.color_of(p, i),
    {
        let l = self.loose();
        assert forall|k: int| 0 <= k < l.n() implies #[trigger] l.spaced(p, k) by {
            if k > 0 {
                assert(p[k] >= p[k - 1] + self.len(k - 1));
            }
        }
        assert forall|i: int| l.color_of(p, i) == self.color_of(p, i) by {
            assert forall|k: int| l.covers(p, k, i) == self.covers(p, k, i) by {}
            assert(l.covered(p, i) == self.covered(p, i));
            if self.covered(p, i) {
                let a = choose|k: int| self.covers(p, k, i);
                let b = choose|k: int| l.covers(p, k, i);
                assert(l.covers(p, a, i));
                l.lemma_color_under(p, a, i);
                l.lemma_color_under(p, b, i);
            }
        }
    }
}

/// Every cell of the lane can have the color that it has in `colors`.
pub open spec fn allows(lane: Seq<Cell>, colors: Seq<Color>) -> bool {
    &&& lane.len() == colors.len()
    &&& forall|i: int| 0 <= i < lane.len() ==> (#[trigger] lane[i]).can(colors[i])
}

impl Line {
    /// The placement lays the clues out within `colors`, in order and with
    /// their gaps, and gives every cell the color that it has there.
    pub open spec fn paints(self, p: Seq<int>, colors: Seq<Color>) -> bool {
        &&& self.in_order(p)
        &&& forall|k: int| 0 <= k < self.n() ==> 0 <= #[trigger] p[k] && p[k] + self.len(k) <= colors.len()
        &&& forall|i: int| 0 <= i < colors.len() ==> self.color_of(p, i) == #[trigger] colors[i]
    }

    /// The colors are what the clues describe: some placement paints them.
    pub open spec fn lays_out(self, colors: Seq<Color>) -> bool {
        exists|p: Seq<int>| self.paints(p, colors)
    }

    /// A placement that paints colors which a lane allows is an arrangement
    /// of the lane.
    pub proof fn lemma_paints_arrangement(self, lane: Seq<Cell>, p: Seq<int>, colors: Seq<Color>)
        requires
            self.paints(p, colors),
            allows(lane, colors),
        ensures
            self.is_arrangement(lane, p),
    {
        assert forall|k: int| 0 <= k < self.n() implies #[trigger] self.fits(lane, k, p[k]) by {
            assert(0 <= p[k] && p[k] + self.len(k) <= colors.len());
            assert forall|j: int| 0 <= j < self.len(k) implies (#[trigger] lane[p[k] + j]).can(
                self.clues[k][j],
            ) by {
                assert(self.covers(p, k, p[k] + j));
                self.lemma_color_under(p, k, p[k] + j);
                assert(colors[p[k] + j] == self.color_of(p, p[k] + j));
            }
        }
        assert forall|k: int| 0 <= k < self.n() implies #[trigger] self.spaced(p, k) by {}
        assert forall|i: int| 0 <= i < lane.len() && !self.covered(p, i) implies (
        #[trigger] lane[i]).can(background()) by {
            assert(colors[i] == self.color_of(p, i));
        }
    }

    /// A lane of which the placement is an arrangement allows the colors that
    /// the placement paints.
    pub proof fn lemma_arrangement_paints(self, lane: Seq<Cell>, p: Seq<int>, colors: Seq<Color>)
        requires
            self.paints(p, colors),
            self.is_arrangement(lane, p),
            lane.len() == colors.len(),
        ensures
            allows(lane, colors),
    {
        assert forall|i: int| 0 <= i < lane.len() implies (#[trigger] lane[i]).can(colors[i]) by {
            assert(colors[i] == self.color_of(p, i));
            if self.covered(p, i) {
                let k = choose|k: int| self.covers(p, k, i);
                assert(self.fits(lane, k, p[k]));
                assert(lane[p[k] + (i - p[k])].can(self.clues[k][i - p[k]]));
            }
        }
    }

    /// A deduction that loses no arrangement keeps every picture of the clues
    /// that the lane allowed.
    pub proof fn lemma_kept_picture(self, before: Seq<Cell>, after: Seq<Cell>, colors: Seq<Color>)
        requires
            self.preserved(before, after),
            after.len() == before.len(),
            self.lays_out(colors),
            allows(before, colors),
        ensures
            allows(after, colors),
    {
        let p = choose|p: Seq<int>| self.paints(p, colors);
        self.lemma_paints_arrangement(before, p, colors);
        assert(self.is_arrangement(after, p));
        self.lemma_arrangement_paints(after, p, colors);
    }

    /// A lane that allows a picture of the clues allows an arrangement.
    pub proof fn lemma_picture_arranged(self, lane: Seq<Cell>, colors: Seq<Color>)
        requires
            self.lays_out(colors),
            allows(lane, colors),
        ensures
            exists|p: Seq<int>| self.is_arrangement(lane, p),
    {
        let p = choose|p: Seq<int>| self.paints(p, colors);
        self.lemma_paints_arrangement(lane, p, colors);
    }
}

impl Line {
    /// An arrangement of a lane is one of every lane that is no narrower.
    pub proof fn lemma_widen(self, narrow: Seq<Cell>, wide: Seq<Cell>, p: Seq<int>)
        requires
            self.is_arrangement(narrow, p),
            wide.len() == narrow.len(),
            forall|i: int| 0 <= i < narrow.len() ==> (#[trigger] narrow[i]).within(wide[i]),
        ensures
            self.is_arrangement(wide, p),
    {
        assert forall|i: int, c: Color| 0 <= i < narrow.len() && narrow[i].can(c) implies #[trigger] wide[i].can(
            c,
        ) by {
            narrow[i].lemma_views(wide[i]);
            assert(narrow[i]@.contains(c));
        }
        assert forall|k: int| 0 <= k < self.n() implies #[trigger] self.fits(wide, k, p[k]) by {
            assert(self.fits(narrow, k, p[k]));
            assert forall|j: int| 0 <= j < self.len(k) implies (#[trigger] wide[p[k] + j]).can(
                self.clues[k][j],
            ) by {
                assert(narrow[p[k] + j].can(self.clues[k][j]));
            }
        }
        assert forall|k: int| 0 <= k < self.n() implies #[trigger] self.spaced(p, k) by {
            assert(self.spaced(p, k));
        }
        assert forall|i: int| 0 <= i < wide.len() && !self.covered(p, i) implies (
        #[trigger] wide[i]).can(background()) by {
            assert(narrow[i].can(background()));
        }
    }
}

/// The indices as numbers without bound.
pub open spec fn ints(indices: Seq<usize>) -> Seq<int> {
    Seq::new(indices.len(), |k: int| indices[k] as int)
}

impl Line {
    /// The placement in which every clue starts as early as it does in any
    /// placement: the clues packed to the start of the lane.
    pub open spec fn is_least_placement(self, lane: Seq<Cell>, p: Seq<int>) -> bool {
        &&& self.is_placement(lane, p)
        &&& forall|q: Seq<int>| #[trigger]
            self.is_placement(lane, q) ==> forall|k: int| 0 <= k < self.n() ==> p[k] <= #[trigger] q[k]
    }

    /// There is only one least placement.
    pub proof fn lemma_least_unique(self, lane: Seq<Cell>, p: Seq<int>, q: Seq<int>)
        requires
            self.is_least_placement(lane, p),
            self.is_least_placement(lane, q),
        ensures
            p == q,
    {
        assert forall|k: int| 0 <= k < self.n() implies p[k] == q[k] by {
            assert(p[k] <= q[k]);
            assert(q[k] <= p[k]);
        }
        assert(p =~= q);
    }

    /// The last cell of each clue of the placement.
    pub open spec fn ends(self, p: Seq<int>) -> Seq<int> {
        Seq::new(p.len(), |k: int| p[k] + self.len(k) - 1)
    }

    /// The ends of the clues after the cells that cannot be background have
    /// pulled them in, with the clue `cur` and the cell `i` next to be looked at.
    /// Walking back from `i`, the first cell that cannot be background pulls the
    /// end of clue `cur` over it, if the end is before it; the walk then goes on
    /// with the clue before and the cell before the clue's first cell.
    pub open spec fn pull(self, lane: Seq<Cell>, ext: Seq<int>, cur: int, i: int) -> Seq<int>
        decreases cur, i,
    {
        if cur < 0 || i < 0 {
            ext
        } else if !lane[i].can(background()) {
            let pulled = if ext[cur] < i {
                ext.update(cur, i)
            } else {
                ext
            };
            let first = pulled[cur] + 1 - self.len(cur);
            if cur == 0 || first <= 0 {
                pulled
            } else {
                self.pull(lane, pulled, cur - 1, first - 1)
            }
        } else if i == 0 {
            ext
        } else {
            self.pull(lane, ext, cur, i - 1)
        }
    }

    /// `ext` holds the last cell of each clue when the clues are packed to the
    /// start of the lane and then pulled in by the cells that cannot be
    /// background.
    pub open spec fn left_packed(self, lane: Seq<Cell>, ext: Seq<int>) -> bool {
        exists|p: Seq<int>| #[trigger]
            self.is_least_placement(lane, p) && ext == self.pull(
                lane,
                self.ends(p),
                self.n() - 1,
                lane.len() - 1,
            )
    }

    /// `ext` holds the first cell of each clue when the clues are packed to
    /// the end of the lane and then pulled in: the same as from the start, seen
    /// from the other end.
    pub open spec fn right_packed(self, lane: Seq<Cell>, ext: Seq<int>) -> bool {
        exists|mirrored: Seq<int>| #[trigger]
            self.mirror().left_packed(mirror_lane(lane), mirrored) && ext == Seq::new(
                mirrored.len(),
                |k: int| lane.len() - 1 - mirrored[self.n() - 1 - k],
            )
    }

    /// The clues can be placed in the lane, each where its cells can have its
    /// colors.
    pub open spec fn packable(self, lane: Seq<Cell>) -> bool {
        exists|p: Seq<int>| self.is_placement(lane, p)
    }

    /// The clues packed to the start of a lane are packed in one way only.
    pub proof fn lemma_left_packed_unique(self, lane: Seq<Cell>, a: Seq<int>, b: Seq<int>)
        requires
            self.left_packed(lane, a),
            self.left_packed(lane, b),
        ensures
            a == b,
    {
        let p = choose|p: Seq<int>| #[trigger]
            self.is_least_placement(lane, p) && a == self.pull(
                lane,
                self.ends(p),
                self.n() - 1,
                lane.len() - 1,
            );
        let q = choose|q: Seq<int>| #[trigger]
            self.is_least_placement(lane, q) && b == self.pull(
                lane,
                self.ends(q),
                self.n() - 1,
                lane.len() - 1,
            );
        self.lemma_least_unique(lane, p, q);
    }

    /// The clues packed to the end of a lane are packed in one way only.
    pub proof fn lemma_right_packed_unique(self, lane: Seq<Cell>, a: Seq<int>, b: Seq<int>)
        requires
            self.right_packed(lane, a),
            self.right_packed(lane, b),
        ensures
            a == b,
    {
        let x = choose|mirrored: Seq<int>| #[trigger]
            self.mirror().left_packed(mirror_lane(lane), mirrored) && a == Seq::new(
                mirrored.len(),
                |k: int| lane.len() - 1 - mirrored[self.n() - 1 - k],
            );
        let y = choose|mirrored: Seq<int>| #[trigger]
            self.mirror().left_packed(mirror_lane(lane), mirrored) && b == Seq::new(
                mirrored.len(),
                |k: int| lane.len() - 1 - mirrored[self.n() - 1 - k],
            );
        self.mirror().lemma_left_packed_unique(mirror_lane(lane), x, y);
    }
}

/// The cell at `i` can have none of the colors that are allowed.
pub open spec fn starved(lane: Seq<Cell>, i: int, allowed: Set<Color>) -> bool {
    0 <= i < lane.len() && forall|c: Color| !(#[trigger] lane[i].can(c) && allowed.contains(c))
}

impl Line {
    /// What the overlap of the two packed places of clue `k` says of the
    /// color `c` at cell `i`: a cell that the clue covers in both places has
    /// one of the colors that the clue can show there, as far as the clue can
    /// still be moved.
    pub open spec fn overlap_allows(self, lpr: Seq<int>, rpl: Seq<int>, k: int, i: int, c: Color) -> bool {
        rpl[k] <= i <= lpr[k] ==> exists|w: int|
            0 <= w <= self.len(k) - 1 - (lpr[k] - rpl[k]) && c == #[trigger] self.clues[k][i - rpl[k]
                + w]
    }

    /// The colors that the overlap of the two packed places of clue `k`
    /// allows at cell `i`.
    pub open spec fn overlap_set(self, lpr: Seq<int>, rpl: Seq<int>, k: int, i: int) -> Set<Color> {
        Set::new(|c: Color| self.overlap_allows(lpr, rpl, k, i, c))
    }

    /// The two packed places of clue `k` are the same place.
    pub open spec fn pinned(self, lpr: Seq<int>, rpl: Seq<int>, k: int) -> bool {
        rpl[k] <= lpr[k] && lpr[k] - rpl[k] + 1 == self.len(k)
    }

    /// What a pinned clue `k` says of the color `c` at cell `i`: the cells
    /// next to it are background where it must be separated from its
    /// neighbours.
    pub open spec fn pinned_allows(self, lpr: Seq<int>, rpl: Seq<int>, k: int, i: int, c: Color) -> bool {
        self.pinned(lpr, rpl, k) ==> {
            &&& self.seps[k] && i == rpl[k] - 1 ==> c == background()
            &&& k + 1 < self.n() && self.seps[k + 1] && i == lpr[k] + 1 ==> c == background()
        }
    }

    /// What clue `k` says of the color `c` at cell `i`.
    pub open spec fn clue_allows(self, lpr: Seq<int>, rpl: Seq<int>, k: int, i: int, c: Color) -> bool {
        self.overlap_allows(lpr, rpl, k, i, c) && self.pinned_allows(lpr, rpl, k, i, c)
    }

    /// What the first `upto` clues say of the color `c` at cell `i`.
    pub open spec fn clues_allow(self, lpr: Seq<int>, rpl: Seq<int>, upto: int, i: int, c: Color) -> bool {
        forall|k: int| 0 <= k < upto ==> #[trigger] self.clue_allows(lpr, rpl, k, i, c)
    }

    /// The colors that clue `k` allows at cell `i`.
    pub open spec fn clue_set(self, lpr: Seq<int>, rpl: Seq<int>, k: int, i: int) -> Set<Color> {
        Set::new(|c: Color| self.clue_allows(lpr, rpl, k, i, c))
    }

    /// The colors that the clues allow at cell `i`.
    pub open spec fn clues_set(self, lpr: Seq<int>, rpl: Seq<int>, i: int) -> Set<Color> {
        Set::new(|c: Color| self.clues_allow(lpr, rpl, self.n(), i, c))
    }

    /// What the gap before clue `k` says of the color `c` at cell `i`: a
    /// cell behind the rightmost place of the clue before and before the
    /// leftmost place of the clue is background.
    pub open spec fn gap_allows(self, lpr: Seq<int>, rpl: Seq<int>, k: int, i: int, c: Color) -> bool {
        rpl[k - 1] + self.len(k - 1) <= i < lpr[k] + 1 - self.len(k) ==> c == background()
    }

    /// What the gaps before the clues below `upto` say of the color `c` at
    /// cell `i`.
    pub open spec fn gaps_allow(self, lpr: Seq<int>, rpl: Seq<int>, upto: int, i: int, c: Color) -> bool {
        forall|k: int| 1 <= k < upto ==> #[trigger] self.gap_allows(lpr, rpl, k, i, c)
    }

    /// What the ends of the lane say of the color `c` at cell `i`: a cell
    /// before the leftmost place of the first clue is background.
    pub open spec fn head_allows(self, lpr: Seq<int>, i: int, c: Color) -> bool {
        i < lpr[0] + 1 - self.len(0) ==> c == background()
    }

    /// A cell behind the rightmost place of the last clue is background.
    pub open spec fn tail_allows(self, rpl: Seq<int>, i: int, c: Color) -> bool {
        rpl[self.n() - 1] + self.len(self.n() - 1) <= i ==> c == background()
    }

    /// The colors that the gaps between the clues and the ends of the lane
    /// allow at cell `i`.
    pub open spec fn gaps_set(self, lpr: Seq<int>, rpl: Seq<int>, i: int) -> Set<Color> {
        Set::new(
            |c: Color|
                self.gaps_allow(lpr, rpl, self.n(), i, c) && self.head_allows(lpr, i, c)
                    && self.tail_allows(rpl, i, c),
        )
    }

    /// All that the packed places say of the color `c` at cell `i`.
    pub open spec fn extents_allow(self, lpr: Seq<int>, rpl: Seq<int>, i: int, c: Color) -> bool {
        &&& self.clues_allow(lpr, rpl, self.n(), i, c)
        &&& self.gaps_allow(lpr, rpl, self.n(), i, c)
        &&& self.head_allows(lpr, i, c)
        &&& self.tail_allows(rpl, i, c)
    }

    /// No clue is shorter than the overlap of its two packed places.
    pub open spec fn sufficient(self, lpr: Seq<int>, rpl: Seq<int>, upto: int) -> bool {
        forall|k: int|
            0 <= k < upto && rpl[k] <= lpr[k] ==> lpr[k] - rpl[k] + 1 <= #[trigger] self.len(k)
    }

    /// `pruned` is the lane with the colors ruled out that the line does not
    /// show.
    pub open spec fn prunes(self, lane: Seq<Cell>, pruned: Seq<Cell>) -> bool {
        &&& pruned.len() == lane.len()
        &&& forall|i: int, c: Color|
            0 <= i < lane.len() ==> (#[trigger] pruned[i].can(c) <==> lane[i].can(c) && (c
                == background() || self.shows(c)))
    }

    /// `result` is what skimming makes of the lane.
    ///
    /// For a line without clues every cell is background. Otherwise the
    /// colors that the line does not show are ruled out; the clues are packed
    /// to either end; and each cell keeps the colors that the packed places
    /// allow. No cell is left without a color.
    pub open spec fn skim_gives(self, lane: Seq<Cell>, result: Seq<Cell>) -> bool {
        &&& result.len() == lane.len()
        &&& forall|i: int| 0 <= i < result.len() ==> !(#[trigger] result[i]).impossible()
        &&& if self.n() == 0 {
            forall|i: int, c: Color|
                0 <= i < lane.len() ==> (#[trigger] result[i].can(c) <==> lane[i].can(c) && c
                    == background())
        } else {
            exists|pruned: Seq<Cell>, lpr: Seq<int>, rpl: Seq<int>| #[trigger]
                self.skim_by(lane, pruned, lpr, rpl, result)
        }
    }

    /// `result` is what skimming makes of the lane, by way of the pruned lane
    /// and the packed places.
    pub open spec fn skim_by(
        self,
        lane: Seq<Cell>,
        pruned: Seq<Cell>,
        lpr: Seq<int>,
        rpl: Seq<int>,
        result: Seq<Cell>,
    ) -> bool {
        &&& self.prunes(lane, pruned)
        &&& forall|i: int| 0 <= i < pruned.len() ==> !(#[trigger] pruned[i]).impossible()
        &&& self.left_packed(pruned, lpr)
        &&& self.right_packed(pruned, rpl)
        &&& self.sufficient(lpr, rpl, self.n())
        &&& result.len() == lane.len()
        &&& forall|i: int, c: Color|
            0 <= i < lane.len() ==> (#[trigger] result[i].can(c) <==> pruned[i].can(c)
                && self.extents_allow(lpr, rpl, i, c))
    }

    /// Skimming makes something of the lane: it does not fail.
    pub open spec fn skim_ok(self, lane: Seq<Cell>) -> bool {
        exists|result: Seq<Cell>| self.skim_gives(lane, result)
    }

    /// What the first `upto + 1` clues say is what the first `upto` say and
    /// what clue `upto` says.
    pub proof fn lemma_clues_allow_step(self, lpr: Seq<int>, rpl: Seq<int>, upto: int, i: int, c: Color)
        requires
            0 <= upto,
        ensures
            self.clues_allow(lpr, rpl, upto + 1, i, c) <==> self.clues_allow(lpr, rpl, upto, i, c)
                && self.clue_allows(lpr, rpl, upto, i, c),
    {
        if self.clues_allow(lpr, rpl, upto + 1, i, c) {
            assert(self.clue_allows(lpr, rpl, upto, i, c));
            assert forall|k: int| 0 <= k < upto implies #[trigger] self.clue_allows(lpr, rpl, k, i, c) by {
                assert(0 <= k < upto + 1);
            }
        }
        if self.clues_allow(lpr, rpl, upto, i, c) && self.clue_allows(lpr, rpl, upto, i, c) {
            assert forall|k: int| 0 <= k < upto + 1 implies #[trigger] self.clue_allows(
                lpr,
                rpl,
                k,
                i,
                c,
            ) by {
                if k < upto {
                    assert(self.clue_allows(lpr, rpl, k, i, c));
                }
            }
        }
    }

    /// What the gaps before the clues up to `upto` say is what those before
    /// it say and what the gap before clue `upto` says.
    pub proof fn lemma_gaps_allow_step(self, lpr: Seq<int>, rpl: Seq<int>, upto: int, i: int, c: Color)
        requires
            1 <= upto,
        ensures
            self.gaps_allow(lpr, rpl, upto + 1, i, c) <==> self.gaps_allow(lpr, rpl, upto, i, c)
                && self.gap_allows(lpr, rpl, upto, i, c),
    {
        if self.gaps_allow(lpr, rpl, upto + 1, i, c) {
            assert(self.gap_allows(lpr, rpl, upto, i, c));
            assert forall|k: int| 1 <= k < upto implies #[trigger] self.gap_allows(lpr, rpl, k, i, c) by {}
        }
    }

    /// What the first clues say is said by all the clues.
    pub proof fn lemma_clues_allow_fewer(
        self,
        lpr: Seq<int>,
        rpl: Seq<int>,
        upto: int,
        i: int,
        c: Color,
    )
        requires
            0 <= upto <= self.n(),
            self.clues_allow(lpr, rpl, self.n(), i, c),
        ensures
            self.clues_allow(lpr, rpl, upto, i, c),
            upto < self.n() ==> self.clue_allows(lpr, rpl, upto, i, c),
    {
        assert forall|k: int| 0 <= k < upto implies #[trigger] self.clue_allows(lpr, rpl, k, i, c) by {
            assert(0 <= k < self.n());
        }
        if upto < self.n() {
            assert(self.clue_allows(lpr, rpl, upto, i, c));
        }
    }

    /// What the first gaps say is said by all the gaps.
    pub proof fn lemma_gaps_allow_fewer(self, lpr: Seq<int>, rpl: Seq<int>, upto: int, i: int, c: Color)
        requires
            1 <= upto <= self.n(),
            self.gaps_allow(lpr, rpl, self.n(), i, c),
        ensures
            self.gaps_allow(lpr, rpl, upto, i, c),
            upto < self.n() ==> self.gap_allows(lpr, rpl, upto, i, c),
    {
        assert forall|k: int| 1 <= k < upto implies #[trigger] self.gap_allows(lpr, rpl, k, i, c) by {}
    }

    /// Lanes whose cells can have the same colors are the same lane.
    pub proof fn lemma_same_cells(a: Seq<Cell>, b: Seq<Cell>)
        requires
            a.len() == b.len(),
            forall|i: int, c: Color| 0 <= i < a.len() ==> (#[trigger] a[i].can(c) <==> b[i].can(c)),
        ensures
            a == b,
    {
        assert forall|i: int| 0 <= i < a.len() implies a[i] == b[i] by {
            assert forall|c: Color| a[i]@.contains(c) <==> b[i]@.contains(c) by {
                assert(a[i].can(c) <==> b[i].can(c));
            }
            assert(a[i]@ =~= b[i]@);
            a[i].lemma_views(b[i]);
        }
        assert(a =~= b);
    }

    /// Skimming makes one thing of a lane, and no other.
    pub proof fn lemma_skim_unique(self, lane: Seq<Cell>, a: Seq<Cell>, b: Seq<Cell>)
        requires
            self.skim_gives(lane, a),
            self.skim_gives(lane, b),
        ensures
            a == b,
    {
        if self.n() == 0 {
            Self::lemma_same_cells(a, b);
        } else {
            let (p1, l1, r1) = choose|pruned: Seq<Cell>, lpr: Seq<int>, rpl: Seq<int>| #[trigger]
                self.skim_by(lane, pruned, lpr, rpl, a);
            let (p2, l2, r2) = choose|pruned: Seq<Cell>, lpr: Seq<int>, rpl: Seq<int>| #[trigger]
                self.skim_by(lane, pruned, lpr, rpl, b);
            Self::lemma_same_cells(p1, p2);
            self.lemma_left_packed_unique(p1, l1, l2);
            self.lemma_right_packed_unique(p1, r1, r2);
            Self::lemma_same_cells(a, b);
        }
    }
}

impl Line {
    /// The lane after the colors from `from` on were tried at cell `i`, which
    /// could have the colors of `tried` when the trying began: a color with
    /// which skimming fails is ruled out. Nothing is left of a lane in which
    /// the only color of the cell is ruled out.
    pub open spec fn scrub_cell(self, lane: Seq<Cell>, i: int, tried: Cell, from: int) -> Option<
        Seq<Cell>,
    >
        decreases 32 - from,
    {
        if from < 0 || from >= 32 {
            Some(lane)
        } else {
            let c = Color(from as u8);
            if tried.can(c) && !self.skim_ok(lane.update(i, Cell::only(c))) {
                if lane[i].known_to_be(c) {
                    None
                } else {
                    self.scrub_cell(lane.update(i, lane[i].without(c)), i, tried, from + 1)
                }
            } else {
                self.scrub_cell(lane, i, tried, from + 1)
            }
        }
    }

    /// The lane of `len` cells after its cells from `i` on were scrubbed:
    /// at each cell that is not known, each color that it can have is tried.
    pub open spec fn scrub_from(self, lane: Seq<Cell>, i: int, len: int) -> Option<Seq<Cell>>
        decreases len - i,
    {
        if i < 0 || i >= len {
            Some(lane)
        } else if lane[i].known() {
            self.scrub_from(lane, i + 1, len)
        } else {
            match self.scrub_cell(lane, i, lane[i], 0) {
                None => None,
                Some(next) => self.scrub_from(next, i + 1, len),
            }
        }
    }

    /// What scrubbing makes of the lane, if it does not fail.
    pub open spec fn scrub_result(self, lane: Seq<Cell>) -> Option<Seq<Cell>> {
        self.scrub_from(lane, 0, lane.len() as int)
    }

    /// Colors that the cell could not have are passed over.
    pub proof fn lemma_scrub_skip(self, lane: Seq<Cell>, i: int, tried: Cell, from: int, to: int)
        requires
            0 <= from <= to <= 32,
            forall|c: u8| from <= c < to ==> !tried.can(Color(c)),
        ensures
            self.scrub_cell(lane, i, tried, from) == self.scrub_cell(lane, i, tried, to),
        decreases to - from,
    {
        if from < to {
            assert(!tried.can(Color(from as u8)));
            self.lemma_scrub_skip(lane, i, tried, from + 1, to);
        }
    }
}

impl Line {
    /// The colors that the line shows, and the background.
    pub open spec fn shown_set(self) -> Set<Color> {
        Set::new(|c: Color| c == background() || self.shows(c))
    }

    /// The colors that the first `upto` clues allow at cell `i`.
    pub open spec fn clues_upto_set(self, lpr: Seq<int>, rpl: Seq<int>, upto: int, i: int) -> Set<Color> {
        Set::new(|c: Color| self.clues_allow(lpr, rpl, upto, i, c))
    }

    /// Clue `k` is shorter than the overlap of its two packed places.
    pub open spec fn too_short(self, lpr: Seq<int>, rpl: Seq<int>, k: int) -> bool {
        rpl[k] <= lpr[k] && lpr[k] - rpl[k] + 1 > self.len(k)
    }

    /// Skimming fails at clue `k`: the clue is too short, or what the clues
    /// up to it say leaves a cell of the pruned lane without a color.
    pub open spec fn clue_fails(self, pruned: Seq<Cell>, lpr: Seq<int>, rpl: Seq<int>, k: int) -> bool {
        self.too_short(lpr, rpl, k) || exists|i: int| #[trigger]
            starved(pruned, i, self.clues_upto_set(lpr, rpl, k + 1, i))
    }

    /// Clue `k` is the first at which skimming fails.
    pub open spec fn first_failure(self, pruned: Seq<Cell>, lpr: Seq<int>, rpl: Seq<int>, k: int) -> bool {
        &&& 0 <= k < self.n()
        &&& self.clue_fails(pruned, lpr, rpl, k)
        &&& forall|j: int| 0 <= j < k ==> !#[trigger] self.clue_fails(pruned, lpr, rpl, j)
    }

    /// The error of a skim that fails after the clues were packed: the line
    /// cannot be satisfied if the first clue at which it fails is too short,
    /// and a cell is contradicted otherwise.
    pub open spec fn packed_error(self, pruned: Seq<Cell>, lpr: Seq<int>, rpl: Seq<int>) -> SolveError {
        if exists|k: int| self.first_failure(pruned, lpr, rpl, k) {
            let k = choose|k: int| self.first_failure(pruned, lpr, rpl, k);
            if self.too_short(lpr, rpl, k) {
                SolveError::UnsatisfiableLine
            } else {
                SolveError::Contradiction
            }
        } else {
            SolveError::Contradiction
        }
    }

    /// The error of a skim that fails: the line cannot be satisfied if its
    /// clues cannot be packed into the lane, or if the first clue at which the
    /// skim fails is too short for its overlap; else a cell is contradicted.
    pub open spec fn skim_error(self, lane: Seq<Cell>) -> SolveError {
        if self.n() == 0 || exists|i: int| #[trigger] starved(lane, i, self.shown_set()) {
            SolveError::Contradiction
        } else {
            let pruned = choose|pruned: Seq<Cell>| self.prunes(lane, pruned);
            if !self.packable(pruned) {
                SolveError::UnsatisfiableLine
            } else {
                let lpr = choose|lpr: Seq<int>| self.left_packed(pruned, lpr);
                let rpl = choose|rpl: Seq<int>| self.right_packed(pruned, rpl);
                self.packed_error(pruned, lpr, rpl)
            }
        }
    }

    /// There is only one first failure.
    pub proof fn lemma_first_failure(self, pruned: Seq<Cell>, lpr: Seq<int>, rpl: Seq<int>, k: int)
        requires
            self.first_failure(pruned, lpr, rpl, k),
        ensures
            self.packed_error(pruned, lpr, rpl) == if self.too_short(lpr, rpl, k) {
                SolveError::UnsatisfiableLine
            } else {
                SolveError::Contradiction
            },
    {
        let chosen = choose|j: int| self.first_failure(pruned, lpr, rpl, j);
        if chosen < k {
            assert(!self.clue_fails(pruned, lpr, rpl, chosen));
        }
        if k < chosen {
            assert(!self.clue_fails(pruned, lpr, rpl, k));
        }
    }

    /// The error of a skim of a lane that was pruned to `pruned` and whose
    /// clues were packed.
    pub proof fn lemma_skim_error(self, lane: Seq<Cell>, pruned: Seq<Cell>, lpr: Seq<int>, rpl: Seq<int>)
        requires
            self.n() > 0,
            self.prunes(lane, pruned),
            forall|i: int| 0 <= i < pruned.len() ==> !(#[trigger] pruned[i]).impossible(),
            self.left_packed(pruned, lpr),
            self.right_packed(pruned, rpl),
        ensures
            self.skim_error(lane) == self.packed_error(pruned, lpr, rpl),
    {
        self.lemma_pruned_error(lane, pruned);
        let p = choose|p: Seq<Cell>| self.prunes(lane, p);
        Self::lemma_same_cells(p, pruned);
        let q = choose|q: Seq<int>| #[trigger]
            self.is_least_placement(pruned, q) && lpr == self.pull(
                pruned,
                self.ends(q),
                self.n() - 1,
                pruned.len() - 1,
            );
        assert(self.is_placement(pruned, q));
        let l = choose|l: Seq<int>| self.left_packed(pruned, l);
        let r = choose|r: Seq<int>| self.right_packed(pruned, r);
        self.lemma_left_packed_unique(pruned, l, lpr);
        self.lemma_right_packed_unique(pruned, r, rpl);
    }

    /// A lane that was pruned without a cell left empty has no cell that the
    /// colors of the line starve.
    pub proof fn lemma_pruned_error(self, lane: Seq<Cell>, pruned: Seq<Cell>)
        requires
            self.prunes(lane, pruned),
            forall|i: int| 0 <= i < pruned.len() ==> !(#[trigger] pruned[i]).impossible(),
        ensures
            !exists|i: int| #[trigger] starved(lane, i, self.shown_set()),
    {
        assert forall|i: int| !#[trigger] starved(lane, i, self.shown_set()) by {
            if starved(lane, i, self.shown_set()) {
                assert forall|c: Color| !pruned[i].can(c) by {
                    if pruned[i].can(c) {
                        assert(lane[i].can(c) && self.shown_set().contains(c));
                    }
                }
                pruned[i].lemma_views(pruned[i]);
                assert(pruned[i]@ =~= Set::<Color>::empty());
            }
        }
    }
}

} // verus!
