//! What skimming and scrubbing keep, shown of the two as they are stated:
//! neither loses an arrangement that the lane allows, and neither fails on a
//! lane that allows one.

use crate::arrangement::{allows, lemma_mirror_wf, mirror_lane, Line};
use crate::line_solve::{lemma_narrowed_on, lemma_narrowed_self, narrowed, Cell};
use crate::puzzle::{background, Color};
use vstd::prelude::*;

verus! {

impl Line {
    /// Some placement has clue `k` start at `at`.
    pub open spec fn can_start(self, lane: Seq<Cell>, k: int, at: int) -> bool {
        exists|q: Seq<int>| self.is_placement(lane, q) && #[trigger] q[k] == at
    }

    /// `at` is the first cell at which some placement has clue `k` start.
    pub open spec fn is_least_start(self, lane: Seq<Cell>, k: int, at: int) -> bool {
        self.can_start(lane, k, at) && forall|b: int| #[trigger] self.can_start(lane, k, b) ==> at <= b
    }

    /// The first cell at which some placement has clue `k` start.
    pub open spec fn least_start(self, lane: Seq<Cell>, k: int) -> int {
        choose|at: int| self.is_least_start(lane, k, at)
    }

    /// Among the starts of a clue there is a first one.
    proof fn lemma_least_start(self, lane: Seq<Cell>, k: int, upper: int)
        requires
            0 <= k < self.n(),
            self.can_start(lane, k, upper),
        ensures
            self.is_least_start(lane, k, self.least_start(lane, k)),
        decreases upper,
    {
        let q = choose|q: Seq<int>| self.is_placement(lane, q) && #[trigger] q[k] == upper;
        assert(self.fits(lane, k, q[k]));
        if exists|b: int| self.can_start(lane, k, b) && b < upper {
            let b = choose|b: int| self.can_start(lane, k, b) && b < upper;
            let r = choose|r: Seq<int>| self.is_placement(lane, r) && #[trigger] r[k] == b;
            assert(self.fits(lane, k, r[k]));
            self.lemma_least_start(lane, k, b);
        } else {
            assert(self.is_least_start(lane, k, upper));
        }
    }

    /// The placement that has every clue start as early as it can.
    pub open spec fn least_placement(self, lane: Seq<Cell>) -> Seq<int> {
        Seq::new(self.n() as nat, |k: int| self.least_start(lane, k))
    }

    /// A lane in which the clues can be placed has a least placement.
    pub proof fn lemma_least_placement(self, lane: Seq<Cell>, q: Seq<int>)
        requires
            self.is_placement(lane, q),
        ensures
            self.is_least_placement(lane, self.least_placement(lane)),
    {
        let p = self.least_placement(lane);
        assert forall|k: int| 0 <= k < self.n() implies self.is_least_start(lane, k, #[trigger] p[k]) by {
            assert(q[k] == q[k]);
            self.lemma_least_start(lane, k, q[k]);
        }
        assert forall|k: int| 0 <= k < self.n() implies #[trigger] self.fits(lane, k, p[k]) by {
            assert(self.is_least_start(lane, k, p[k]));
            let r = choose|r: Seq<int>| self.is_placement(lane, r) && #[trigger] r[k] == p[k];
            assert(self.fits(lane, k, r[k]));
        }
        assert forall|k: int| 0 <= k < self.n() implies #[trigger] self.spaced(p, k) by {
            if k > 0 {
                assert(self.is_least_start(lane, k, p[k]));
                assert(self.is_least_start(lane, k - 1, p[k - 1]));
                let r = choose|r: Seq<int>| self.is_placement(lane, r) && #[trigger] r[k] == p[k];
                assert(self.spaced(r, k));
                assert(r[k - 1] == r[k - 1]);
                assert(self.can_start(lane, k - 1, r[k - 1]));
            }
        }
        assert forall|r: Seq<int>| #[trigger] self.is_placement(lane, r) implies forall|k: int|
            0 <= k < self.n() ==> p[k] <= #[trigger] r[k] by {
            assert forall|k: int| 0 <= k < self.n() implies p[k] <= #[trigger] r[k] by {
                assert(self.is_least_start(lane, k, p[k]));
                assert(self.can_start(lane, k, r[k]));
            }
        }
    }
}

impl Line {
    /// The colors that the placement gives to the cells of a lane of `len`
    /// cells.
    pub open spec fn painted(self, q: Seq<int>, len: nat) -> Seq<Color> {
        Seq::new(len, |i: int| self.color_of(q, i))
    }

    /// An arrangement paints its colors, and the lane allows them.
    pub proof fn lemma_painted(self, lane: Seq<Cell>, q: Seq<int>)
        requires
            self.is_arrangement(lane, q),
        ensures
            self.paints(q, self.painted(q, lane.len())),
            allows(lane, self.painted(q, lane.len())),
    {
        let colors = self.painted(q, lane.len());
        assert forall|k: int| 0 <= k < self.n() implies 0 <= #[trigger] q[k] && q[k] + self.len(k)
            <= colors.len() by {
            assert(self.fits(lane, k, q[k]));
        }
        assert forall|k: int| 0 <= k < self.n() implies #[trigger] self.spaced(q, k) by {}
        self.lemma_arrangement_paints(lane, q, colors);
    }

    /// Each end in `ext` is at or before the end of its clue in the placement.
    pub open spec fn ends_within(self, ext: Seq<int>, q: Seq<int>) -> bool {
        &&& ext.len() == self.n()
        &&& forall|k: int| 0 <= k < self.n() ==> #[trigger] ext[k] <= q[k] + self.len(k) - 1
    }

    /// Each start in `ext` is at or behind the start of its clue in the
    /// placement.
    pub open spec fn starts_within(self, ext: Seq<int>, q: Seq<int>) -> bool {
        &&& ext.len() == self.n()
        &&& forall|k: int| 0 <= k < self.n() ==> q[k] <= #[trigger] ext[k]
    }

    /// Pulling the ends in moves none behind the end of its clue in an
    /// arrangement: a cell that cannot be background lies under a clue, and
    /// under none of those that start behind it.
    proof fn lemma_pull_bounds(self, lane: Seq<Cell>, q: Seq<int>, ext: Seq<int>, cur: int, i: int)
        requires
            self.is_arrangement(lane, q),
            self.ends_within(ext, q),
            -1 <= cur < self.n(),
            i < lane.len(),
            cur + 1 < self.n() ==> i < q[cur + 1],
        ensures
            self.ends_within(self.pull(lane, ext, cur, i), q),
        decreases cur, i,
    {
        if cur < 0 || i < 0 {
        } else if !lane[i].can(background()) {
            assert(self.covered(q, i));
            let j = choose|j: int| self.covers(q, j, i);
            if j > cur + 1 {
                self.lemma_order(lane, q, cur + 1, j);
            }
            if j < cur {
                self.lemma_order(lane, q, j, cur);
            }
            assert(ext[cur] <= q[cur] + self.len(cur) - 1);
            let pulled = if ext[cur] < i {
                ext.update(cur, i)
            } else {
                ext
            };
            assert(self.ends_within(pulled, q)) by {
                assert forall|k: int| 0 <= k < self.n() implies #[trigger] pulled[k] <= q[k] + self.len(
                    k,
                ) - 1 by {
                    assert(ext[k] <= q[k] + self.len(k) - 1);
                }
            }
            let first = pulled[cur] + 1 - self.len(cur);
            if !(cur == 0 || first <= 0) {
                assert(self.fits(lane, cur, q[cur]));
                self.lemma_pull_bounds(lane, q, pulled, cur - 1, first - 1);
            }
        } else if i != 0 {
            self.lemma_pull_bounds(lane, q, ext, cur, i - 1);
        }
    }

    /// The ends of the clues packed to the start of the lane are at or before
    /// their ends in every arrangement.
    pub proof fn lemma_left_bounds(self, lane: Seq<Cell>, ext: Seq<int>, q: Seq<int>)
        requires
            self.left_packed(lane, ext),
            self.is_arrangement(lane, q),
        ensures
            self.ends_within(ext, q),
    {
        let p = choose|p: Seq<int>| #[trigger]
            self.is_least_placement(lane, p) && ext == self.pull(
                lane,
                self.ends(p),
                self.n() - 1,
                lane.len() - 1,
            );
        assert(self.is_placement(lane, q));
        assert(self.ends_within(self.ends(p), q)) by {
            assert forall|k: int| 0 <= k < self.n() implies #[trigger] self.ends(p)[k] <= q[k]
                + self.len(k) - 1 by {
                assert(p[k] <= q[k]);
            }
        }
        self.lemma_pull_bounds(lane, q, self.ends(p), self.n() - 1, lane.len() - 1);
    }

    /// The starts of the clues packed to the end of the lane are at or behind
    /// their starts in every arrangement.
    pub proof fn lemma_right_bounds(self, lane: Seq<Cell>, ext: Seq<int>, q: Seq<int>)
        requires
            self.wf(),
            self.right_packed(lane, ext),
            self.is_arrangement(lane, q),
        ensures
            self.starts_within(ext, q),
    {
        let n = self.n();
        let len = lane.len() as int;
        let m = choose|mirrored: Seq<int>| #[trigger]
            self.mirror().left_packed(mirror_lane(lane), mirrored) && ext == Seq::new(
                mirrored.len(),
                |k: int| lane.len() - 1 - mirrored[self.n() - 1 - k],
            );
        let mq = self.mirror_placement(len, q);
        self.lemma_mirror(lane, q);
        lemma_mirror_wf(self);
        self.mirror().lemma_left_bounds(mirror_lane(lane), m, mq);
        assert forall|k: int| 0 <= k < n implies q[k] <= #[trigger] ext[k] by {
            let r = n - 1 - k;
            assert(m[r] <= mq[r] + self.mirror().len(r) - 1);
            assert(mq[r] == len - q[k] - self.len(k));
        }
    }

    /// What the packed places say of a cell allows the color that an
    /// arrangement gives it, where the packed places bound the arrangement.
    pub proof fn lemma_extents_sound(self, lane: Seq<Cell>, lpr: Seq<int>, rpl: Seq<int>, q: Seq<int>, i: int)
        requires
            self.wf(),
            self.n() > 0,
            self.is_arrangement(lane, q),
            self.ends_within(lpr, q),
            self.starts_within(rpl, q),
            0 <= i < lane.len(),
        ensures
            self.extents_allow(lpr, rpl, i, self.color_of(q, i)),
            self.sufficient(lpr, rpl, self.n()),
    {
        let n = self.n();
        let c = self.color_of(q, i);
        assert(self.in_order(q));
        assert forall|k: int| 0 <= k < n implies lpr[k] + 1 - self.len(k) <= #[trigger] q[k] <= rpl[k] by {}
        assert forall|k: int| 0 <= k < n implies #[trigger] self.clue_allows(lpr, rpl, k, i, c) by {
            assert(lpr[k] + 1 - self.len(k) <= q[k] <= rpl[k]);
            if rpl[k] <= i <= lpr[k] {
                assert(self.covers(q, k, i));
                self.lemma_color_under(q, k, i);
                let w = rpl[k] - q[k];
                assert(c == self.clues[k][i - rpl[k] + w]);
            }
            if self.pinned(lpr, rpl, k) {
                if self.seps[k] && i == rpl[k] - 1 {
                    assert(self.spaced(q, k));
                    self.lemma_color_between(q, k, i);
                }
                if k + 1 < n && self.seps[k + 1] && i == lpr[k] + 1 {
                    assert(self.spaced(q, k + 1));
                    self.lemma_color_between(q, k + 1, i);
                }
            }
        }
        assert forall|k: int| 1 <= k < n implies #[trigger] self.gap_allows(lpr, rpl, k, i, c) by {
            assert(lpr[k] + 1 - self.len(k) <= q[k] <= rpl[k]);
            assert(lpr[k - 1] + 1 - self.len(k - 1) <= q[k - 1] <= rpl[k - 1]);
            if rpl[k - 1] + self.len(k - 1) <= i < lpr[k] + 1 - self.len(k) {
                self.lemma_color_between(q, k, i);
            }
        }
        assert(lpr[0] + 1 - self.len(0) <= q[0] <= rpl[0]);
        assert(lpr[n - 1] + 1 - self.len(n - 1) <= q[n - 1] <= rpl[n - 1]);
        if i < lpr[0] + 1 - self.len(0) {
            self.lemma_color_between(q, 0, i);
        }
        if rpl[n - 1] + self.len(n - 1) <= i {
            self.lemma_color_between(q, n, i);
        }
    }
}

/// A lane whose cells can have only colors that they could have before,
/// and none of which is left without a color, is the lane narrowed.
pub proof fn lemma_fewer_colors(before: Seq<Cell>, after: Seq<Cell>)
    requires
        after.len() == before.len(),
        forall|i: int, c: Color| 0 <= i < before.len() && #[trigger] after[i].can(c) ==> before[i].can(c),
        forall|i: int| 0 <= i < before.len() && before[i] != after[i] ==> !(#[trigger] after[i]).impossible(),
    ensures
        narrowed(before, after),
{
    assert forall|i: int| 0 <= i < before.len() implies (#[trigger] after[i]).within(before[i]) by {
        after[i].lemma_views(before[i]);
        assert forall|c: Color| after[i]@.contains(c) implies before[i]@.contains(c) by {
            assert(after[i].can(c));
        }
    }
}

/// A cell that can have a color is not impossible.
pub proof fn lemma_has_color(cell: Cell, c: Color)
    requires
        cell.can(c),
    ensures
        !cell.impossible(),
{
    cell.lemma_views(cell);
    assert(cell@.contains(c));
}

impl Line {
    /// The lane with the colors ruled out that the line does not show.
    pub open spec fn pruned(self, lane: Seq<Cell>) -> Seq<Cell> {
        Seq::new(lane.len(), |i: int| lane[i].keeping(self.shown_set(), 32))
    }

    /// The lane with the colors ruled out that the packed places do not
    /// allow.
    pub open spec fn cut(self, lane: Seq<Cell>, lpr: Seq<int>, rpl: Seq<int>) -> Seq<Cell> {
        Seq::new(
            lane.len(),
            |i: int| lane[i].keeping(Set::new(|c: Color| self.extents_allow(lpr, rpl, i, c)), 32),
        )
    }

    /// An arrangement of a lane is one of the pruned lane.
    pub proof fn lemma_prune_keeps(self, lane: Seq<Cell>, pruned: Seq<Cell>, q: Seq<int>)
        requires
            self.prunes(lane, pruned),
            self.is_arrangement(lane, q),
        ensures
            self.is_arrangement(pruned, q),
    {
        let colors = self.painted(q, lane.len());
        self.lemma_painted(lane, q);
        assert forall|i: int| 0 <= i < pruned.len() implies (#[trigger] pruned[i]).can(colors[i]) by {
            assert(lane[i].can(colors[i]));
            if self.covered(q, i) {
                let k = choose|k: int| self.covers(q, k, i);
                assert(self.fits(lane, k, q[k]));
                assert(self.clues[k][i - q[k]] == colors[i]);
                assert(self.shows(colors[i]));
            }
            assert(pruned[i].can(colors[i]) <==> lane[i].can(colors[i]) && (colors[i] == background()
                || self.shows(colors[i])));
        }
        self.lemma_paints_arrangement(pruned, q, colors);
    }

    /// Skimming narrows the lane and loses no arrangement that the lane
    /// allows.
    pub proof fn lemma_skim_sound(self, lane: Seq<Cell>, result: Seq<Cell>)
        requires
            self.wf(),
            self.skim_gives(lane, result),
        ensures
            narrowed(lane, result),
            self.preserved(lane, result),
    {
        if self.n() == 0 {
            lemma_fewer_colors(lane, result);
            assert forall|q: Seq<int>| #[trigger] self.is_arrangement(lane, q) implies self.is_arrangement(
                result,
                q,
            ) by {
                let colors = self.painted(q, lane.len());
                self.lemma_painted(lane, q);
                assert forall|i: int| 0 <= i < result.len() implies (#[trigger] result[i]).can(
                    colors[i],
                ) by {
                    assert(!self.covered(q, i));
                    assert(lane[i].can(colors[i]));
                    assert(result[i].can(colors[i]) <==> lane[i].can(colors[i]) && colors[i]
                        == background());
                }
                self.lemma_paints_arrangement(result, q, colors);
            }
        } else {
            let (pruned, lpr, rpl) = choose|pruned: Seq<Cell>, lpr: Seq<int>, rpl: Seq<int>| #[trigger]
                self.skim_by(lane, pruned, lpr, rpl, result);
            assert forall|i: int, c: Color| 0 <= i < lane.len() && #[trigger] result[i].can(
                c,
            ) implies lane[i].can(c) by {
                assert(pruned[i].can(c));
            }
            lemma_fewer_colors(lane, result);
            assert forall|q: Seq<int>| #[trigger] self.is_arrangement(lane, q) implies self.is_arrangement(
                result,
                q,
            ) by {
                self.lemma_prune_keeps(lane, pruned, q);
                self.lemma_left_bounds(pruned, lpr, q);
                self.lemma_right_bounds(pruned, rpl, q);
                let colors = self.painted(q, lane.len());
                self.lemma_painted(pruned, q);
                assert forall|i: int| 0 <= i < result.len() implies (#[trigger] result[i]).can(
                    colors[i],
                ) by {
                    self.lemma_extents_sound(pruned, lpr, rpl, q, i);
                    assert(pruned[i].can(colors[i]));
                    assert(result[i].can(colors[i]) <==> pruned[i].can(colors[i]) && self.extents_allow(
                        lpr,
                        rpl,
                        i,
                        colors[i],
                    ));
                }
                self.lemma_paints_arrangement(result, q, colors);
            }
        }
    }

    /// Skimming does not fail on a lane that allows an arrangement.
    pub proof fn lemma_skim_complete(self, lane: Seq<Cell>, q: Seq<int>)
        requires
            self.wf(),
            self.is_arrangement(lane, q),
        ensures
            self.skim_ok(lane),
    {
        let n = self.n();
        let len = lane.len() as int;
        let colors = self.painted(q, lane.len());
        self.lemma_painted(lane, q);
        if n == 0 {
            let result = Seq::new(lane.len(), |i: int| lane[i].keeping(set![background()], 32));
            assert forall|i: int, c: Color| 0 <= i < lane.len() implies (#[trigger] result[i].can(c)
                <==> lane[i].can(c) && c == background()) by {
                lane[i].lemma_keeping(set![background()], 32);
            }
            assert forall|i: int| 0 <= i < result.len() implies !(#[trigger] result[i]).impossible() by {
                assert(!self.covered(q, i));
                assert(lane[i].can(colors[i]));
                assert(result[i].can(background()));
                lemma_has_color(result[i], background());
            }
            assert(self.skim_gives(lane, result));
        } else {
            let pruned = self.pruned(lane);
            assert forall|i: int, c: Color| 0 <= i < lane.len() implies (#[trigger] pruned[i].can(c)
                <==> lane[i].can(c) && (c == background() || self.shows(c))) by {
                lane[i].lemma_keeping(self.shown_set(), 32);
            }
            assert(self.prunes(lane, pruned));
            self.lemma_prune_keeps(lane, pruned, q);
            self.lemma_painted(pruned, q);
            assert forall|i: int| 0 <= i < pruned.len() implies !(#[trigger] pruned[i]).impossible() by {
                assert(pruned[i].can(colors[i]));
                lemma_has_color(pruned[i], colors[i]);
            }
            // The clues packed to the start of the lane.
            assert(self.is_placement(pruned, q));
            self.lemma_least_placement(pruned, q);
            let least = self.least_placement(pruned);
            let lpr = self.pull(pruned, self.ends(least), n - 1, len - 1);
            assert(self.left_packed(pruned, lpr));
            // The clues packed to its end.
            let m = self.mirror();
            let ml = mirror_lane(pruned);
            self.lemma_mirror_placement(pruned, q);
            lemma_mirror_wf(self);
            m.lemma_least_placement(ml, self.mirror_placement(len, q));
            let mleast = m.least_placement(ml);
            let mirrored = m.pull(ml, m.ends(mleast), m.n() - 1, ml.len() - 1);
            assert(m.left_packed(ml, mirrored));
            let rpl = Seq::new(mirrored.len(), |k: int| pruned.len() - 1 - mirrored[self.n() - 1 - k]);
            assert(self.right_packed(pruned, rpl));
            self.lemma_left_bounds(pruned, lpr, q);
            self.lemma_right_bounds(pruned, rpl, q);
            self.lemma_extents_sound(pruned, lpr, rpl, q, 0);
            // What the packed places leave of the lane.
            let result = self.cut(pruned, lpr, rpl);
            assert forall|i: int, c: Color| 0 <= i < lane.len() implies (#[trigger] result[i].can(c)
                <==> pruned[i].can(c) && self.extents_allow(lpr, rpl, i, c)) by {
                pruned[i].lemma_keeping(Set::new(|c: Color| self.extents_allow(lpr, rpl, i, c)), 32);
            }
            assert forall|i: int| 0 <= i < result.len() implies !(#[trigger] result[i]).impossible() by {
                self.lemma_extents_sound(pruned, lpr, rpl, q, i);
                assert(pruned[i].can(colors[i]));
                assert(result[i].can(colors[i]));
                lemma_has_color(result[i], colors[i]);
            }
            assert(self.skim_by(lane, pruned, lpr, rpl, result));
            assert(self.skim_gives(lane, result));
        }
    }
}

impl Line {
    /// The two lanes allow the same arrangements.
    pub open spec fn allow_the_same(self, a: Seq<Cell>, b: Seq<Cell>) -> bool {
        forall|p: Seq<int>|
            #![trigger self.is_arrangement(a, p)]
            #![trigger self.is_arrangement(b, p)]
            self.is_arrangement(a, p) <==> self.is_arrangement(b, p)
    }

    /// A lane that was narrowed without the loss of an arrangement allows
    /// the arrangements that it allowed before, and no others.
    pub proof fn lemma_same_allowed(self, before: Seq<Cell>, after: Seq<Cell>)
        requires
            narrowed(before, after),
            self.preserved(before, after),
        ensures
            self.allow_the_same(before, after),
    {
        assert forall|p: Seq<int>| self.is_arrangement(after, p) implies self.is_arrangement(
            before,
            p,
        ) by {
            self.lemma_widen(after, before, p);
        }
    }

    /// A lane in which skimming fails once a cell is taken to be of a color
    /// allows no arrangement that gives the cell that color: every arrangement
    /// is one of the lane without the color there. If the cell is known to be
    /// of the color, the lane allows no arrangement at all.
    proof fn lemma_ruled_out(self, lane: Seq<Cell>, i: int, c: Color)
        requires
            self.wf(),
            0 <= i < lane.len(),
            c.fits_cell(),
            !self.skim_ok(lane.update(i, Cell::only(c))),
        ensures
            self.preserved(lane, lane.update(i, lane[i].without(c))),
            !lane[i].known_to_be(c) ==> narrowed(lane, lane.update(i, lane[i].without(c))),
            lane[i].known_to_be(c) ==> self.refuted(lane),
    {
        let single = Cell::only(c);
        let less = lane[i].without(c);
        let next = lane.update(i, less);
        let supposed = lane.update(i, single);
        lane[i].lemma_only_without(c);
        single.lemma_known(c);
        assert forall|q: Seq<int>| !#[trigger] self.is_arrangement(supposed, q) by {
            if self.is_arrangement(supposed, q) {
                self.lemma_skim_complete(supposed, q);
            }
        }
        assert forall|q: Seq<int>| #[trigger] self.is_arrangement(lane, q) implies self.is_arrangement(
            next,
            q,
        ) && !lane[i].known_to_be(c) by {
            self.lemma_hypothesis(lane, q, i, c, single);
            self.lemma_arrangement_allowed(lane, q, i);
            lane[i].lemma_known(c);
            let others = Set::new(|d: Color| d != c);
            if self.covered(q, i) {
                let k = choose|k: int| self.covers(q, k, i);
                assert(others.contains(self.clues[k][i - q[k]]));
                assert(lane[i]@.contains(self.clues[k][i - q[k]]));
            } else {
                assert(others.contains(background()));
                assert(lane[i]@.contains(background()));
            }
            assert forall|k: int| #[trigger] self.covers(q, k, i) implies less@.contains(
                self.clues[k][i - q[k]],
            ) by {
                assert(others.contains(self.clues[k][i - q[k]]));
                assert(lane[i]@.contains(self.clues[k][i - q[k]]));
            }
            self.lemma_narrow_keeps(lane, q, i, less);
        }
        if !lane[i].known_to_be(c) {
            if less != lane[i] && less.impossible() {
                less.lemma_views(less);
                lane[i].lemma_views(single);
                assert forall|d: Color| lane[i].can(d) implies d == c by {
                    assert(!less@.contains(d));
                }
                assert(lane[i].can(c)) by {
                    if !lane[i].can(c) {
                        less.lemma_views(lane[i]);
                        assert(less@ =~= lane[i]@);
                    }
                }
                assert(lane[i]@ =~= single@);
            }
            lemma_fewer_colors(lane, next);
        }
    }

    /// Trying the colors of a cell narrows the lane and loses no arrangement;
    /// where nothing is left of the lane, it allowed none.
    pub proof fn lemma_scrub_cell_sound(self, lane: Seq<Cell>, i: int, tried: Cell, from: int)
        requires
            self.wf(),
            0 <= i < lane.len(),
            0 <= from,
        ensures
            match self.scrub_cell(lane, i, tried, from) {
                Some(result) => narrowed(lane, result) && self.preserved(lane, result),
                None => self.refuted(lane),
            },
        decreases 32 - from,
    {
        if from >= 32 {
            lemma_narrowed_self(lane);
        } else {
            let c = Color(from as u8);
            if tried.can(c) && !self.skim_ok(lane.update(i, Cell::only(c))) {
                self.lemma_ruled_out(lane, i, c);
                if !lane[i].known_to_be(c) {
                    let next = lane.update(i, lane[i].without(c));
                    self.lemma_scrub_cell_sound(next, i, tried, from + 1);
                    match self.scrub_cell(next, i, tried, from + 1) {
                        Some(result) => {
                            lemma_narrowed_on(lane, next, result);
                        },
                        None => {},
                    }
                }
            } else {
                self.lemma_scrub_cell_sound(lane, i, tried, from + 1);
            }
        }
    }

    /// Scrubbing the cells from `i` on narrows the lane and loses no
    /// arrangement; where nothing is left of the lane, it allowed none.
    pub proof fn lemma_scrub_from_sound(self, lane: Seq<Cell>, i: int, len: int)
        requires
            self.wf(),
            0 <= i,
            len == lane.len(),
        ensures
            match self.scrub_from(lane, i, len) {
                Some(result) => narrowed(lane, result) && self.preserved(lane, result),
                None => self.refuted(lane),
            },
        decreases len - i,
    {
        if i >= len {
            lemma_narrowed_self(lane);
        } else if lane[i].known() {
            self.lemma_scrub_from_sound(lane, i + 1, len);
        } else {
            self.lemma_scrub_cell_sound(lane, i, lane[i], 0);
            match self.scrub_cell(lane, i, lane[i], 0) {
                None => {},
                Some(next) => {
                    self.lemma_scrub_from_sound(next, i + 1, len);
                    match self.scrub_from(next, i + 1, len) {
                        Some(result) => {
                            lemma_narrowed_on(lane, next, result);
                        },
                        None => {},
                    }
                },
            }
        }
    }

    /// Scrubbing narrows the lane and loses no arrangement that the lane
    /// allows; it fails only on a lane that allows none.
    pub proof fn lemma_scrub_sound(self, lane: Seq<Cell>)
        requires
            self.wf(),
        ensures
            match self.scrub_result(lane) {
                Some(result) => narrowed(lane, result) && self.preserved(lane, result),
                None => self.refuted(lane),
            },
    {
        self.lemma_scrub_from_sound(lane, 0, lane.len() as int);
    }
}

} // verus!
