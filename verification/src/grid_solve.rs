//! The solver of whole puzzles: it picks the line that promises most, deduces
//! in it, and goes on until nothing more is to be had.

use crate::arrangement::{allows, clues_well_formed, lemma_line_of_wf, line_of, Line};
use crate::line_solve::lemma_narrowed_on;
use crate::grid::{lane_of, rectangular, with_lane, Grid};
use crate::line_solve::{
    copy_lane, kept, lemma_narrowed_self, marks_changes, narrowed, scorable, scrub_heuristic,
    scrub_line, scrub_score, skim_heuristic, skim_line, skim_score, Cell, ModeMap, ScrubReport,
    SolveError, SolveMode,
};
use crate::measure::{
    count_known, grid_sum, lane_sum, lane_unknown, lemma_grid_sum_bounds,
    lemma_total_weight_bounds, lemma_totals_with_lane, lemma_unknown_falls, total_unknown,
    total_weight, unknown, weight,
};
use crate::puzzle::{unsolved, Clue, ClueStyle, Color, ColorInfo, Palette, Puzzle, Solution};
use crate::schedule::{
    best_lane, budget_after, counted, current_mode, deduced, filtered, first_state, is_best,
    lanes_after, lemma_best_unique, scrubbed, skim_result, solve_ends, solve_run, solve_step,
    Finish, LaneView, Outcome, SolveState,
};
use std::collections::HashMap;
use vstd::prelude::*;

verus! {

pub struct SolveOptions {
    /// Asks for a trace of the solve. The library prints nothing; the field is
    /// for the program around it.
    pub trace_solve: bool,
    /// Asks for a sign of progress while solving. The library shows nothing;
    /// the field is for the program around it.
    pub display_cli_progress: bool,
    /// Keeps only the deductions that make a cell known to be of this color.
    pub only_solve_color: Option<Color>,
    /// The dearest mode that the solve may use.
    pub max_effort: SolveMode,
}

/// The options where nothing else is asked for: no trace, no sign of
/// progress, every color, and scrubbing where skimming gets no further.
pub open spec fn default_options() -> SolveOptions {
    SolveOptions {
        trace_solve: false,
        display_cli_progress: false,
        only_solve_color: None,
        max_effort: SolveMode::Scrub,
    }
}

impl Default for SolveOptions {
    fn default() -> (options: SolveOptions)
        ensures
            options == default_options(),
    {
        SolveOptions {
            trace_solve: false,
            display_cli_progress: false,
            only_solve_color: None,
            max_effort: SolveMode::Scrub,
        }
    }
}

/// What a line of a grid can tell: the cheapest mode that makes a cell known,
/// none if no mode does, or the error that the line runs into.
pub type LineStatus = Result<Option<SolveMode>, SolveError>;

pub struct Report {
    /// How often each mode was run on a line.
    pub solve_counts: ModeMap<u64>,
    /// The number of cells that are not known.
    pub cells_left: usize,
    /// The grid as far as it is known, column by column, with `unsolved()`
    /// for the cells that are not.
    pub solution: Solution,
    /// For each cell, column by column, whether it is known.
    pub solved_mask: Vec<Vec<bool>>,
}

/// The clues of a row or of a column of the puzzle.
pub open spec fn lane_clues<C: Clue>(puzzle: &Puzzle<C>, row: bool, index: int) -> Seq<C> {
    if row {
        puzzle.rows@[index]@
    } else {
        puzzle.cols@[index]@
    }
}

/// Every color that the clues show is listed in the palette.
pub open spec fn colors_listed<C: Clue>(clues: Seq<C>, palette: Map<u8, ColorInfo>) -> bool {
    forall|k: int, j: int|
        0 <= k < clues.len() && 0 <= j < clues[k].spec_len() ==> palette.contains_key(
            (#[trigger] clues[k].spec_color_at(j)).0,
        )
}

/// The clues of a lane of `len` cells can be used: each covers a cell, their
/// colors can stand in a cell and are listed in the palette, and together they
/// cover no more cells than the lane has.
pub open spec fn line_ok<C: Clue>(clues: Seq<C>, len: int, palette: Map<u8, ColorInfo>) -> bool {
    &&& clues_well_formed(clues)
    &&& colors_listed(clues, palette)
    &&& line_of(clues).len_sum(clues.len() as int) <= len
}

/// The puzzle can be solved on: it has between 1 and 32767 rows and as many
/// columns, and the clues of each of them can be used.
pub open spec fn puzzle_ok<C: Clue>(puzzle: &Puzzle<C>) -> bool {
    &&& 1 <= puzzle.rows@.len() <= 0x7FFF
    &&& 1 <= puzzle.cols@.len() <= 0x7FFF
    &&& forall|y: int|
        0 <= y < puzzle.rows@.len() ==> line_ok(
            (#[trigger] puzzle.rows@[y])@,
            puzzle.cols@.len() as int,
            puzzle.palette@,
        )
    &&& forall|x: int|
        0 <= x < puzzle.cols@.len() ==> line_ok(
            (#[trigger] puzzle.cols@[x])@,
            puzzle.rows@.len() as int,
            puzzle.palette@,
        )
}

/// Whether the clues of a lane of `len` cells can be used.
pub fn check_line<C: Clue>(clues: &[C], len: usize, palette: &Palette) -> (ok: bool)
    requires
        len <= 0x7FFF,
    ensures
        ok == line_ok(clues@, len as int, palette@),
{
    broadcast use vstd::std_specs::hash::group_hash_axioms;

    let ghost line = line_of(clues@);
    let mut total: usize = 0;
    let mut k: usize = 0;
    while k < clues.len()
        invariant
            line == line_of(clues@),
            len <= 0x7FFF,
            k <= clues@.len(),
            total == line.len_sum(k as int),
            total <= len,
            forall|i: int| 0 <= i < k ==> (#[trigger] clues@[i]).well_formed(),
            forall|i: int, j: int|
                0 <= i < k && 0 <= j < clues@[i].spec_len() ==> palette@.contains_key(
                    (#[trigger] clues@[i].spec_color_at(j)).0,
                ),
        decreases clues@.len() - k,
    {
        let clue = clues[k];
        if !clue.is_well_formed() {
            return false;
        }
        let clue_len = clue.len();
        proof {
            assert(line.len(k as int) == clue_len);
            line.lemma_sums(k + 1, clues@.len() as int);
        }
        if clue_len > len - total {
            return false;
        }
        let mut j: usize = 0;
        while j < clue_len
            invariant
                clue == clues@[k as int],
                k < clues@.len(),
                clue_len == clue.spec_len(),
                j <= clue_len,
                forall|jj: int|
                    0 <= jj < j ==> palette@.contains_key((#[trigger] clue.spec_color_at(jj)).0),
            decreases clue_len - j,
        {
            let color = clue.color_at(j);
            if !palette.contains_key(&color.0) {
                assert(!palette@.contains_key(clues@[k as int].spec_color_at(j as int).0));
                return false;
            }
            j = j + 1;
        }
        total = total + clue_len;
        k = k + 1;
    }
    true
}

/// Whether the puzzle can be solved on.
pub fn check_puzzle<C: Clue>(puzzle: &Puzzle<C>) -> (ok: bool)
    ensures
        ok == puzzle_ok(puzzle),
{
    let height = puzzle.rows.len();
    let width = puzzle.cols.len();
    if height < 1 || height > 0x7FFF || width < 1 || width > 0x7FFF {
        return false;
    }
    let mut y: usize = 0;
    while y < height
        invariant
            height == puzzle.rows@.len(),
            width == puzzle.cols@.len(),
            width <= 0x7FFF,
            y <= height,
            forall|i: int|
                0 <= i < y ==> line_ok(
                    (#[trigger] puzzle.rows@[i])@,
                    puzzle.cols@.len() as int,
                    puzzle.palette@,
                ),
        decreases height - y,
    {
        if !check_line(puzzle.rows[y].as_slice(), width, &puzzle.palette) {
            return false;
        }
        y = y + 1;
    }
    let mut x: usize = 0;
    while x < width
        invariant
            height == puzzle.rows@.len(),
            width == puzzle.cols@.len(),
            height <= 0x7FFF,
            x <= width,
            forall|i: int|
                0 <= i < puzzle.rows@.len() ==> line_ok(
                    (#[trigger] puzzle.rows@[i])@,
                    puzzle.cols@.len() as int,
                    puzzle.palette@,
                ),
            forall|i: int|
                0 <= i < x ==> line_ok(
                    (#[trigger] puzzle.cols@[i])@,
                    puzzle.rows@.len() as int,
                    puzzle.palette@,
                ),
        decreases width - x,
    {
        if !check_line(puzzle.cols[x].as_slice(), height, &puzzle.palette) {
            return false;
        }
        x = x + 1;
    }
    true
}

/// The colors of column `x` of a picture that is given row by row.
pub open spec fn picture_column(picture: Seq<Seq<Color>>, x: int) -> Seq<Color> {
    Seq::new(picture.len(), |y: int| picture[y][x])
}

/// The picture, given row by row, is one that the clues of the puzzle
/// describe.
pub open spec fn solves<C: Clue>(puzzle: &Puzzle<C>, picture: Seq<Seq<Color>>) -> bool {
    &&& picture.len() == puzzle.rows@.len()
    &&& forall|y: int| 0 <= y < picture.len() ==> (#[trigger] picture[y]).len() == puzzle.cols@.len()
    &&& forall|y: int|
        0 <= y < puzzle.rows@.len() ==> line_of((#[trigger] puzzle.rows@[y])@).lays_out(picture[y])
    &&& forall|x: int|
        0 <= x < puzzle.cols@.len() ==> line_of((#[trigger] puzzle.cols@[x])@).lays_out(
            picture_column(picture, x),
        )
}

/// Every cell of the grid can have the color that it has in the picture.
pub open spec fn grid_allows(cells: Seq<Seq<Cell>>, picture: Seq<Seq<Color>>) -> bool {
    &&& cells.len() == picture.len()
    &&& forall|y: int| 0 <= y < cells.len() ==> allows(#[trigger] cells[y], picture[y])
}

/// `after` is `before` with no cell widened.
pub open spec fn grid_narrowed(before: Seq<Seq<Cell>>, after: Seq<Seq<Cell>>) -> bool {
    &&& after.len() == before.len()
    &&& forall|y: int| 0 <= y < before.len() ==> narrowed(#[trigger] before[y], after[y])
}

/// Every solution of the puzzle that `before` allows, `after` allows too.
pub open spec fn pictures_kept<C: Clue>(
    puzzle: &Puzzle<C>,
    before: Seq<Seq<Cell>>,
    after: Seq<Seq<Cell>>,
) -> bool {
    forall|picture: Seq<Seq<Color>>|
        solves(puzzle, picture) && #[trigger] grid_allows(before, picture) ==> grid_allows(
            after,
            picture,
        )
}

/// The grid allows no solution of the puzzle.
pub open spec fn no_picture<C: Clue>(puzzle: &Puzzle<C>, cells: Seq<Seq<Cell>>) -> bool {
    forall|picture: Seq<Seq<Color>>| !(solves(puzzle, picture) && #[trigger] grid_allows(cells, picture))
}

/// The colors that a picture has along a row or a column.
pub open spec fn picture_lane(picture: Seq<Seq<Color>>, row: bool, index: int) -> Seq<Color> {
    if row {
        picture[index]
    } else {
        picture_column(picture, index)
    }
}

/// A grid that allows a picture allows it along every row and column.
pub proof fn lemma_lane_allows(
    cells: Seq<Seq<Cell>>,
    width: nat,
    picture: Seq<Seq<Color>>,
    row: bool,
    index: int,
)
    requires
        rectangular(cells, width),
        grid_allows(cells, picture),
        row ==> 0 <= index < cells.len(),
        !row ==> 0 <= index < width,
    ensures
        allows(lane_of(cells, row, index), picture_lane(picture, row, index)),
{
    if !row {
        let lane = lane_of(cells, row, index);
        let colors = picture_lane(picture, row, index);
        assert forall|y: int| 0 <= y < lane.len() implies (#[trigger] lane[y]).can(colors[y]) by {
            assert(allows(cells[y], picture[y]));
            assert(cells[y].len() == width);
            assert(cells[y][index].can(picture[y][index]));
        }
    } else {
        assert(allows(cells[index], picture[index]));
    }
}

/// A deduction in one row or column that narrows it and loses none of its
/// arrangements narrows the grid and loses none of the solutions of the puzzle.
pub proof fn lemma_lane_step<C: Clue>(
    puzzle: &Puzzle<C>,
    cells: Seq<Seq<Cell>>,
    row: bool,
    index: int,
    lane: Seq<Cell>,
)
    requires
        rectangular(cells, puzzle.cols@.len() as nat),
        cells.len() == puzzle.rows@.len(),
        row ==> 0 <= index < puzzle.rows@.len(),
        !row ==> 0 <= index < puzzle.cols@.len(),
        narrowed(lane_of(cells, row, index), lane),
        line_of(lane_clues(puzzle, row, index)).preserved(lane_of(cells, row, index), lane),
    ensures
        grid_narrowed(cells, with_lane(cells, row, index, lane)),
        pictures_kept(puzzle, cells, with_lane(cells, row, index, lane)),
        rectangular(with_lane(cells, row, index, lane), puzzle.cols@.len() as nat),
{
    let after = with_lane(cells, row, index, lane);
    let before_lane = lane_of(cells, row, index);
    let line = line_of(lane_clues(puzzle, row, index));
    let width = puzzle.cols@.len();
    assert forall|y: int| 0 <= y < cells.len() implies narrowed(#[trigger] cells[y], after[y]) by {
        assert(cells[y].len() == width);
        if row {
            if y != index {
                lemma_narrowed_self(cells[y]);
            }
        } else {
            assert forall|x: int| 0 <= x < cells[y].len() implies (#[trigger] after[y][x]).within(
                cells[y][x],
            ) && (after[y][x].impossible() ==> cells[y][x].impossible()) by {
                if x == index {
                    assert(lane[y].within(before_lane[y]));
                } else {
                    cells[y][x].lemma_views(cells[y][x]);
                }
            }
        }
    }
    assert forall|y: int| 0 <= y < after.len() implies (#[trigger] after[y]).len() == width by {
        assert(cells[y].len() == width);
    }
    assert forall|picture: Seq<Seq<Color>>|
        solves(puzzle, picture) && #[trigger] grid_allows(cells, picture) implies grid_allows(
        after,
        picture,
    ) by {
        let colors = picture_lane(picture, row, index);
        lemma_lane_allows(cells, width as nat, picture, row, index);
        if row {
            assert(line.lays_out(colors));
        } else {
            assert(line.lays_out(colors));
        }
        line.lemma_kept_picture(before_lane, lane, colors);
        assert forall|y: int| 0 <= y < after.len() implies allows(#[trigger] after[y], picture[y]) by {
            assert(allows(cells[y], picture[y]));
            assert(cells[y].len() == width);
            if row {
            } else {
                assert forall|x: int| 0 <= x < after[y].len() implies (#[trigger] after[y][x]).can(
                    picture[y][x],
                ) by {
                    if x == index {
                        assert(lane[y].can(colors[y]));
                    } else {
                        assert(cells[y][x].can(picture[y][x]));
                    }
                }
            }
        }
    }
}

/// A row or column that allows no arrangement of its clues leaves the puzzle
/// without a solution that the grid allows.
pub proof fn lemma_lane_refuted<C: Clue>(
    puzzle: &Puzzle<C>,
    cells: Seq<Seq<Cell>>,
    row: bool,
    index: int,
)
    requires
        rectangular(cells, puzzle.cols@.len() as nat),
        cells.len() == puzzle.rows@.len(),
        row ==> 0 <= index < puzzle.rows@.len(),
        !row ==> 0 <= index < puzzle.cols@.len(),
        line_of(lane_clues(puzzle, row, index)).refuted(lane_of(cells, row, index)),
    ensures
        no_picture(puzzle, cells),
{
    let line = line_of(lane_clues(puzzle, row, index));
    assert forall|picture: Seq<Seq<Color>>|
        !(solves(puzzle, picture) && #[trigger] grid_allows(cells, picture)) by {
        if solves(puzzle, picture) && grid_allows(cells, picture) {
            let colors = picture_lane(picture, row, index);
            lemma_lane_allows(cells, puzzle.cols@.len() as nat, picture, row, index);
            assert(line.lays_out(colors));
            line.lemma_picture_arranged(lane_of(cells, row, index), colors);
        }
    }
}

/// Narrowing and keeping the solutions go on from grid to grid.
pub proof fn lemma_grid_on<C: Clue>(
    puzzle: &Puzzle<C>,
    a: Seq<Seq<Cell>>,
    b: Seq<Seq<Cell>>,
    c: Seq<Seq<Cell>>,
)
    requires
        grid_narrowed(a, b),
        grid_narrowed(b, c),
        pictures_kept(puzzle, a, b),
        pictures_kept(puzzle, b, c),
    ensures
        grid_narrowed(a, c),
        pictures_kept(puzzle, a, c),
{
    assert forall|y: int| 0 <= y < a.len() implies narrowed(#[trigger] a[y], c[y]) by {
        assert(narrowed(a[y], b[y]));
        assert(narrowed(b[y], c[y]));
        crate::line_solve::lemma_narrowed_on(a[y], b[y], c[y]);
    }
    assert forall|picture: Seq<Seq<Color>>|
        solves(puzzle, picture) && #[trigger] grid_allows(a, picture) implies grid_allows(
        c,
        picture,
    ) by {
        assert(grid_allows(b, picture));
    }
}

/// What is known of a lane for one mode.
#[derive(Clone, Copy, Debug, PartialEq, Eq, Structural)]
pub struct PerModeLaneState {
    /// Whether the mode was run on the lane since the lane last changed.
    pub processed: bool,
    /// What the mode promises on the lane as it stands.
    pub score: i32,
    /// What the mode promised when it was last run on the lane.
    pub processed_score: i32,
}

impl PerModeLaneState {
    pub fn new() -> (state: PerModeLaneState)
        ensures
            state == (PerModeLaneState { processed: false, score: 0, processed_score: 0 }),
    {
        PerModeLaneState { processed: false, score: 0, processed_score: 0 }
    }

    /// The score, less the score at the time when the lane was last
    /// processed, kept within the 32-bit numbers.
    pub open spec fn effective(self) -> int {
        let difference = self.score - self.processed_score;
        if difference < i32::MIN {
            i32::MIN as int
        } else if difference > i32::MAX {
            i32::MAX as int
        } else {
            difference
        }
    }
}

/// Every cell of the lane is known.
pub open spec fn all_known(lane: Seq<Cell>) -> bool {
    forall|i: int| 0 <= i < lane.len() ==> (#[trigger] lane[i]).known()
}

/// The state of a lane for a mode after the lane was scored anew. A lane
/// that is known promises nothing. `was_processed` says that a mode was just
/// run on the lane: then the score before is the score at the time of
/// processing.
pub open spec fn rescored<C: Clue>(
    before: PerModeLaneState,
    clues: Seq<C>,
    lane: Seq<Cell>,
    was_processed: bool,
    mode: SolveMode,
) -> PerModeLaneState {
    if all_known(lane) {
        PerModeLaneState { score: i32::MIN, ..before }
    } else {
        PerModeLaneState {
            processed: before.processed,
            score: match mode {
                SolveMode::Skim => skim_score(line_of(clues), lane),
                SolveMode::Scrub => scrub_score(line_of(clues), lane),
            } as i32,
            processed_score: if was_processed {
                before.score
            } else {
                before.processed_score
            },
        }
    }
}

/// A row or a column of a puzzle that is being solved, with what each mode
/// promises on it.
#[derive(Clone, Copy)]
pub struct LaneState<'a, C: Clue> {
    clues: &'a [C],  // just convenience, since `row` and `index` suffice to find it again
    row: bool,
    index: usize,
    per_mode: ModeMap<PerModeLaneState>,
}

impl<'a, C: Clue> LaneState<'a, C> {
    pub closed spec fn clues(&self) -> Seq<C> {
        self.clues@
    }

    /// Whether the lane is a row.
    pub closed spec fn row(&self) -> bool {
        self.row
    }

    /// The number of the row or of the column, from 0 on.
    pub closed spec fn index(&self) -> int {
        self.index as int
    }

    pub closed spec fn state(&self, mode: SolveMode) -> PerModeLaneState {
        self.per_mode.at(mode)
    }

    /// The state for a mode after the lane was scored anew.
    pub open spec fn scored(&self, lane: Seq<Cell>, was_processed: bool, mode: SolveMode) -> PerModeLaneState {
        rescored(self.state(mode), self.clues(), lane, was_processed, mode)
    }

    /// The lane is one of the grid, and can be scored.
    pub open spec fn fits_grid(&self, grid: &Grid) -> bool {
        &&& rectangular(grid@, grid.width())
        &&& self.row() ==> self.index() < grid.height()
        &&& !self.row() ==> self.index() < grid.width()
        &&& clues_well_formed(self.clues())
        &&& scorable(line_of(self.clues()), lane_of(grid@, self.row(), self.index()))
    }

    pub fn new(clues: &'a [C], row: bool, idx: usize, grid: &Grid) -> (lane: LaneState<'a, C>)
        requires
            rectangular(grid@, grid.width()),
            row ==> idx < grid.height(),
            !row ==> idx < grid.width(),
            clues_well_formed(clues@),
            scorable(line_of(clues@), lane_of(grid@, row, idx as int)),
        ensures
            lane.clues() == clues@,
            lane.row() == row,
            lane.index() == idx,
            forall|mode: SolveMode|
                lane.state(mode) == rescored(
                    PerModeLaneState { processed: false, score: 0, processed_score: 0 },
                    clues@,
                    lane_of(grid@, row, idx as int),
                    false,
                    mode,
                ),
            lane_view(lane) == LaneView::fresh(
                clues@,
                row,
                idx as int,
                lane_of(grid@, row, idx as int),
            ),
    {
        let mut res = LaneState {
            clues,
            row,
            index: idx,
            per_mode: ModeMap::new_uniform(PerModeLaneState::new()),
        };
        res.rescore(grid, false);
        res
    }

    /// Scores the lane anew. `was_processed` says that a mode was just run
    /// on it: then the score before becomes the score at the time of processing.
    pub fn rescore(&mut self, grid: &Grid, was_processed: bool)
        requires
            old(self).fits_grid(grid),
        ensures
            final(self).same_place(old(self)),
            final(self).clues() == old(self).clues(),
            final(self).row() == old(self).row(),
            final(self).index() == old(self).index(),
            forall|mode: SolveMode|
                final(self).state(mode) == old(self).scored(
                    lane_of(grid@, old(self).row(), old(self).index()),
                    was_processed,
                    mode,
                ),
    {
        let lane = grid.lane(self.row, self.index);
        let mut known = true;
        let mut i: usize = 0;
        while i < lane.len() && known
            invariant
                i <= lane@.len(),
                known == forall|j: int| 0 <= j < i ==> (#[trigger] lane@[j]).known(),
            decreases lane@.len() - i,
        {
            if !lane[i].is_known() {
                known = false;
            }
            i = i + 1;
        }
        if known {
            self.per_mode.skim.score = i32::MIN;
            self.per_mode.scrub.score = i32::MIN;
            return ;
        }
        if was_processed {
            self.per_mode.skim.processed_score = self.per_mode.skim.score;
            self.per_mode.scrub.processed_score = self.per_mode.scrub.score;
        }
        self.per_mode.skim.score = skim_heuristic(self.clues, &lane);
        self.per_mode.scrub.score = scrub_heuristic(self.clues, &lane);
    }

    pub fn effective_score(&self, mode: SolveMode) -> (score: i32)
        ensures
            score == self.state(mode).effective(),
    {
        let s = self.per_mode.get(mode);
        let difference = s.score as i64 - s.processed_score as i64;
        if difference < i32::MIN as i64 {
            i32::MIN
        } else if difference > i32::MAX as i64 {
            i32::MAX
        } else {
            difference as i32
        }
    }

    /// The two are the same lane of the same puzzle.
    pub closed spec fn same_place(&self, other: &LaneState<'a, C>) -> bool {
        &&& self.clues === other.clues
        &&& self.row == other.row
        &&& self.index == other.index
    }

    /// The lane scored anew on the grid, with both modes to be run again.
    pub closed spec fn woken_on(&self, grid: &Grid) -> LaneState<'a, C> {
        let lane = lane_of(grid@, self.row, self.index as int);
        LaneState {
            clues: self.clues,
            row: self.row,
            index: self.index,
            per_mode: ModeMap {
                skim: PerModeLaneState {
                    processed: false,
                    ..rescored(self.per_mode.skim, self.clues@, lane, false, SolveMode::Skim)
                },
                scrub: PerModeLaneState {
                    processed: false,
                    ..rescored(self.per_mode.scrub, self.clues@, lane, false, SolveMode::Scrub)
                },
            },
        }
    }

    pub fn is_row(&self) -> (row: bool)
        ensures
            row == self.row(),
    {
        self.row
    }

    pub fn number(&self) -> (index: usize)
        ensures
            index == self.index(),
    {
        self.index
    }

    pub fn is_processed(&self, mode: SolveMode) -> (processed: bool)
        ensures
            processed == self.state(mode).processed,
    {
        self.per_mode.get(mode).processed
    }

    /// Notes whether the mode was run on the lane as it stands.
    pub fn set_processed(&mut self, mode: SolveMode, processed: bool)
        ensures
            final(self).same_place(old(self)),
            final(self).clues() == old(self).clues(),
            final(self).row() == old(self).row(),
            final(self).index() == old(self).index(),
            final(self).state(mode) == (PerModeLaneState { processed, ..old(self).state(mode) }),
            forall|other: SolveMode| other != mode ==> final(self).state(other) == old(self).state(other),
    {
        let mut s = self.per_mode.get(mode);
        s.processed = processed;
        self.per_mode.set(mode, s);
    }
}

/// What is known of the lane.
pub open spec fn lane_view<C: Clue>(lane: LaneState<C>) -> LaneView<C> {
    LaneView {
        clues: lane.clues(),
        row: lane.row(),
        index: lane.index(),
        skim: lane.state(SolveMode::Skim),
        scrub: lane.state(SolveMode::Scrub),
    }
}

/// What is known of the lanes.
pub open spec fn lane_views<C: Clue>(lanes: Seq<LaneState<C>>) -> Seq<LaneView<C>> {
    Seq::new(lanes.len(), |i: int| lane_view(lanes[i]))
}

/// The index of the lane to run the mode on next: the lane that comes
/// first among those that the mode was not run on, that promise more than
/// nothing, and that no other such lane promises more than.
pub fn find_best_lane<'a, C: Clue>(lanes: &Vec<LaneState<'a, C>>, mode: SolveMode) -> (best: Option<
    usize,
>)
    ensures
        match best {
            Some(i) => is_best(lane_views(lanes@), mode, i as int),
            None => forall|b: int| !is_best(lane_views(lanes@), mode, b),
        },
        best_lane(lane_views(lanes@), mode) == match best {
            Some(i) => Some(i as int),
            None => None,
        },
{
    let mut best_score = i32::MIN;
    let mut res: Option<usize> = None;
    let mut i: usize = 0;
    while i < lanes.len()
        invariant
            i <= lanes@.len(),
            match res {
                Some(b) => {
                    &&& b < i
                    &&& !lanes@[b as int].state(mode).processed
                    &&& lanes@[b as int].state(mode).effective() == best_score
                    &&& best_score > i32::MIN
                    &&& forall|j: int|
                        0 <= j < i && !(#[trigger] lanes@[j]).state(mode).processed ==> {
                            &&& lanes@[j].state(mode).effective() <= best_score
                            &&& j < b ==> lanes@[j].state(mode).effective() < best_score
                        }
                },
                None => {
                    &&& best_score == i32::MIN
                    &&& forall|j: int|
                        0 <= j < i ==> (#[trigger] lanes@[j]).state(mode).processed || lanes@[j].state(
                            mode,
                        ).effective() == i32::MIN
                },
            },
        decreases lanes@.len() - i,
    {
        let lane = lanes[i];
        if !lane.is_processed(mode) {
            let score = lane.effective_score(mode);
            if score > best_score {
                best_score = score;
                res = Some(i);
            }
        }
        i = i + 1;
    }
    proof {
        let views = lane_views(lanes@);
        assert forall|j: int| 0 <= j < lanes@.len() implies (#[trigger] views[j]).state(mode)
            == lanes@[j].state(mode) by {}
        match res {
            Some(b) => {
                assert(is_best(views, mode, b as int)) by {
                    assert forall|j: int|
                        0 <= j < views.len() && !(#[trigger] views[j]).state(mode).processed implies {
                        &&& views[j].state(mode).effective() <= views[b as int].state(
                            mode,
                        ).effective()
                        &&& j < b ==> views[j].state(mode).effective() < views[b as int].state(
                            mode,
                        ).effective()
                    } by {
                        assert(!lanes@[j].state(mode).processed);
                    }
                }
                let chosen = choose|best: int| is_best(views, mode, best);
                lemma_best_unique(views, mode, chosen, b as int);
            },
            None => {
                assert forall|best: int| !is_best(views, mode, best) by {
                    if is_best(views, mode, best) {
                        assert(lanes@[best].state(mode).processed || lanes@[best].state(
                            mode,
                        ).effective() == i32::MIN);
                    }
                }
            },
        }
    }
    res
}

/// The color of a cell that is known.
pub open spec fn known_color(cell: Cell) -> Color {
    choose|c: Color| cell.known_to_be(c)
}

/// What a finished grid shows for the cell: its color if it is known, and
/// `unsolved()` if it is not.
pub open spec fn shown_color(cell: Cell) -> Color {
    if cell.known() {
        known_color(cell)
    } else {
        unsolved()
    }
}

/// The color that a cell is known to be is its known color.
pub proof fn lemma_known_color(cell: Cell, c: Color)
    requires
        cell.known_to_be(c),
    ensures
        known_color(cell) == c,
        cell.known(),
{
    cell.lemma_known(c);
    let d = known_color(cell);
    assert(cell.known_to_be(d));
    cell.lemma_known(d);
}

/// The grid as a picture, column by column.
pub open spec fn shows_grid(cells: Seq<Seq<Cell>>, width: nat, grid: Seq<Vec<Color>>) -> bool {
    &&& grid.len() == width
    &&& forall|x: int| 0 <= x < width ==> (#[trigger] grid[x])@.len() == cells.len()
    &&& forall|x: int, y: int|
        0 <= x < width && 0 <= y < cells.len() ==> grid[x]@[y] == shown_color(#[trigger] cells[y][x])
}

/// For each cell of the grid, column by column, whether it is known.
pub open spec fn masks_grid(cells: Seq<Seq<Cell>>, width: nat, mask: Seq<Vec<bool>>) -> bool {
    &&& mask.len() == width
    &&& forall|x: int| 0 <= x < width ==> (#[trigger] mask[x])@.len() == cells.len()
    &&& forall|x: int, y: int|
        0 <= x < width && 0 <= y < cells.len() ==> mask[x]@[y] == (#[trigger] cells[y][x]).known()
}

/// For each cell, column by column, whether it is known.
pub fn grid_to_solved_mask(grid: &Grid) -> (mask: Vec<Vec<bool>>)
    ensures
        masks_grid(grid@, grid.width(), mask@),
{
    let height = grid.nrows();
    let width = grid.ncols();
    let mut mask: Vec<Vec<bool>> = Vec::new();
    let mut x: usize = 0;
    while x < width
        invariant
            rectangular(grid@, grid.width()),
            height == grid.height(),
            width == grid.width(),
            x <= width,
            mask@.len() == x,
            forall|i: int| 0 <= i < x ==> (#[trigger] mask@[i])@.len() == height,
            forall|i: int, y: int|
                0 <= i < x && 0 <= y < height ==> mask@[i]@[y] == (#[trigger] grid@[y][i]).known(),
        decreases width - x,
    {
        let mut column: Vec<bool> = Vec::new();
        let mut y: usize = 0;
        while y < height
            invariant
                height == grid.height(),
                width == grid.width(),
                x < width,
                y <= height,
                column@.len() == y,
                forall|j: int| 0 <= j < y ==> column@[j] == (#[trigger] grid@[j][x as int]).known(),
            decreases height - y,
        {
            column.push(grid.get(y, x).is_known());
            y = y + 1;
        }
        mask.push(column);
        x = x + 1;
    }
    mask
}

/// The grid as a solution of the puzzle, with `unsolved()` for the cells
/// that are not known.
pub fn grid_to_solution<C: Clue>(grid: &Grid, puzzle: &Puzzle<C>) -> (solution: Solution)
    ensures
        shows_grid(grid@, grid.width(), solution.grid@),
        solution.palette@ == puzzle.palette@,
        solution.clue_style == C::spec_style(),
{
    let height = grid.nrows();
    let width = grid.ncols();
    let mut colors: Vec<Vec<Color>> = Vec::new();
    let mut x: usize = 0;
    while x < width
        invariant
            rectangular(grid@, grid.width()),
            height == grid.height(),
            width == grid.width(),
            x <= width,
            colors@.len() == x,
            forall|i: int| 0 <= i < x ==> (#[trigger] colors@[i])@.len() == height,
            forall|i: int, y: int|
                0 <= i < x && 0 <= y < height ==> colors@[i]@[y] == shown_color(
                    #[trigger] grid@[y][i],
                ),
        decreases width - x,
    {
        let mut column: Vec<Color> = Vec::new();
        let mut y: usize = 0;
        while y < height
            invariant
                height == grid.height(),
                width == grid.width(),
                x < width,
                y <= height,
                column@.len() == y,
                forall|j: int| 0 <= j < y ==> column@[j] == shown_color(#[trigger] grid@[j][x as int]),
            decreases height - y,
        {
            let cell = grid.get(y, x);
            let color = match cell.known_or() {
                Some(c) => {
                    proof {
                        lemma_known_color(cell, c);
                    }
                    c
                },
                None => unsolved(),
            };
            column.push(color);
            y = y + 1;
        }
        colors.push(column);
        x = x + 1;
    }
    Solution { clue_style: C::style(), grid: colors, palette: puzzle.palette.clone() }
}

/// Keeps of the deductions in a lane only those that made a cell known to be
/// of the color: every other cell that changed gets back what it was.
pub fn filter_report_by_color(
    report: &mut ScrubReport,
    orig_lane: &Vec<Cell>,
    new_lane: &mut Vec<Cell>,
    color: Color,
)
    requires
        old(new_lane)@.len() == orig_lane@.len(),
    ensures
        final(new_lane)@.len() == orig_lane@.len(),
        forall|i: int|
            0 <= i < orig_lane@.len() ==> #[trigger] final(new_lane)@[i] == if old(new_lane)@[i].known_to_be(
                color,
            ) {
                old(new_lane)@[i]
            } else {
                orig_lane@[i]
            },
        marks_changes(orig_lane@, final(new_lane)@, final(report).affected_cells@),
{
    let mut new_affected_cells: Vec<usize> = Vec::new();
    let mut idx: usize = 0;
    while idx < new_lane.len()
        invariant
            new_lane@.len() == orig_lane@.len(),
            new_lane@.len() == old(new_lane)@.len(),
            idx <= new_lane@.len(),
            forall|i: int| idx <= i < new_lane@.len() ==> new_lane@[i] == old(new_lane)@[i],
            forall|i: int|
                0 <= i < idx ==> #[trigger] new_lane@[i] == if old(new_lane)@[i].known_to_be(color) {
                    old(new_lane)@[i]
                } else {
                    orig_lane@[i]
                },
            forall|i: usize| #[trigger]
                new_affected_cells@.contains(i) <==> i < idx && new_lane@[i as int]
                    != orig_lane@[i as int],
        decreases new_lane@.len() - idx,
    {
        let ghost marks = new_affected_cells@;
        let ghost cur = new_lane@;
        if new_lane[idx] != orig_lane[idx] {
            if new_lane[idx].is_known_to_be(color) {
                new_affected_cells.push(idx);
            } else {
                new_lane[idx] = orig_lane[idx];
            }
        }
        proof {
            assert forall|i: usize| #[trigger]
                new_affected_cells@.contains(i) <==> i < idx + 1 && new_lane@[i as int]
                    != orig_lane@[i as int] by {
                assert(marks.contains(i) <==> i < idx && cur[i as int] != orig_lane@[i as int]);
                if i < idx {
                    assert(new_lane@[i as int] == cur[i as int]);
                }
                if new_affected_cells@ != marks {
                    assert(new_affected_cells@ == marks.push(idx));
                    if marks.contains(i) {
                        let w = choose|w: int| 0 <= w < marks.len() && marks[w] == i;
                        assert(new_affected_cells@[w] == i);
                    }
                    if i == idx {
                        assert(new_affected_cells@[marks.len() as int] == i);
                    }
                }
            }
        }
        idx = idx + 1;
    }
    report.affected_cells = new_affected_cells;
}

/// The lane after the first `n` of the recorded cells were put back into it.
pub open spec fn replayed(lane: Seq<Cell>, affected: Seq<usize>, cells: Seq<Cell>, n: int) -> Seq<Cell>
    decreases n,
{
    if n <= 0 {
        lane
    } else {
        replayed(lane, affected, cells, n - 1).update(affected[n - 1] as int, cells[n - 1])
    }
}

proof fn lemma_replayed_cells(
    before: Seq<Cell>,
    after: Seq<Cell>,
    affected: Seq<usize>,
    cells: Seq<Cell>,
    n: int,
)
    requires
        after.len() == before.len(),
        0 <= n <= affected.len(),
        cells.len() == affected.len(),
        forall|j: int|
            0 <= j < affected.len() ==> #[trigger] affected[j] < before.len() && cells[j]
                == after[affected[j] as int],
    ensures
        replayed(before, affected, cells, n).len() == before.len(),
        forall|i: int|
            0 <= i < before.len() ==> #[trigger] replayed(before, affected, cells, n)[i] == if exists|
                j: int,
            |
                0 <= j < n && affected[j] == i {
                after[i]
            } else {
                before[i]
            },
    decreases n,
{
    if n > 0 {
        lemma_replayed_cells(before, after, affected, cells, n - 1);
        let shorter = replayed(before, affected, cells, n - 1);
        let longer = replayed(before, affected, cells, n);
        assert(affected[n - 1] < before.len());
        assert forall|i: int| 0 <= i < before.len() implies #[trigger] longer[i] == if exists|j: int|
            0 <= j < n && affected[j] == i {
            after[i]
        } else {
            before[i]
        } by {
            if i == affected[n - 1] {
                assert(0 <= n - 1 < n && affected[n - 1] == i);
            } else {
                assert(longer[i] == shorter[i]);
                if exists|j: int| 0 <= j < n && affected[j] == i {
                    let j = choose|j: int| 0 <= j < n && affected[j] == i;
                    assert(0 <= j < n - 1 && affected[j] == i);
                }
            }
        }
    }
}

/// Putting back the final cells at the indices that changed gives the lane
/// as it was after the deduction.
pub proof fn lemma_replay(before: Seq<Cell>, after: Seq<Cell>, affected: Seq<usize>, cells: Seq<Cell>)
    requires
        after.len() == before.len(),
        before.len() <= usize::MAX,
        marks_changes(before, after, affected),
        cells.len() == affected.len(),
        forall|j: int| 0 <= j < affected.len() ==> #[trigger] cells[j] == after[affected[j] as int],
    ensures
        replayed(before, affected, cells, affected.len() as int) == after,
{
    assert forall|j: int| 0 <= j < affected.len() implies #[trigger] affected[j] < before.len()
        && cells[j] == after[affected[j] as int] by {
        assert(affected.contains(affected[j]));
    }
    lemma_replayed_cells(before, after, affected, cells, affected.len() as int);
    let r = replayed(before, affected, cells, affected.len() as int);
    assert forall|i: int| 0 <= i < before.len() implies r[i] == after[i] by {
        if !exists|j: int| 0 <= j < affected.len() && affected[j] == i {
            if after[i] != before[i] {
                assert(affected.contains(i as usize));
                let j = choose|j: int| 0 <= j < affected.len() && affected[j] == i as usize;
                assert(0 <= j < affected.len() && affected[j] == i);
            }
        }
    }
    assert(r =~= after);
}

/// What scrubbing made of one lane: the clues and the lane before, the
/// indices of the cells that changed, and for each of them the cell after.
pub struct CacheEntry<C: Clue> {
    clues: Vec<C>,
    before: Vec<Cell>,
    affected: Vec<usize>,
    cells: Vec<Cell>,
}

impl<C: Clue> CacheEntry<C> {
    /// The lane as the recorded cells make it.
    pub closed spec fn after(&self) -> Seq<Cell> {
        replayed(self.before@, self.affected@, self.cells@, self.affected@.len() as int)
    }

    /// What is recorded is what a scrub of the lane may give: the lane is
    /// narrowed, the changes are marked, and no arrangement is lost.
    pub closed spec fn ok(&self) -> bool {
        &&& clues_well_formed(self.clues@)
        &&& self.cells@.len() == self.affected@.len()
        &&& forall|j: int| 0 <= j < self.affected@.len() ==> #[trigger] self.affected@[j] < self.before@.len()
        &&& narrowed(self.before@, self.after())
        &&& marks_changes(self.before@, self.after(), self.affected@)
        &&& line_of(self.clues@).preserved(self.before@, self.after())
        &&& line_of(self.clues@).scrub_result(self.before@) == Some(self.after())
    }
}

/// What scrubbing made of the lanes that it has seen, to be used again when
/// the same clues meet the same lane.
pub struct LineCache<C: Clue> {
    buckets: HashMap<u64, Vec<CacheEntry<C>>>,
}

impl<C: Clue> LineCache<C> {
    /// Every entry holds what a scrub may give.
    pub closed spec fn wf(&self) -> bool {
        forall|key: u64, i: int|
            self.buckets@.contains_key(key) && 0 <= i < self.buckets@[key]@.len() ==> (
            #[trigger] self.buckets@[key]@[i]).ok()
    }

    pub fn new() -> (cache: LineCache<C>)
        ensures
            cache.wf(),
    {
        LineCache { buckets: HashMap::new() }
    }
}

/// The cache, if there is one, holds what a scrub may give.
pub open spec fn cache_ok<C: Clue>(cache: Option<LineCache<C>>) -> bool {
    cache is Some ==> cache->0.wf()
}

/// The number that the first `n` cells of a lane make: from a fixed number
/// to begin with, each cell in turn is mixed in with its bits, and the number
/// is multiplied by a prime, without regard to what does not fit.
pub open spec fn key_of(lane: Seq<Cell>, n: int) -> u64
    decreases n,
{
    if n <= 0 {
        0xcbf29ce484222325
    } else {
        vstd::wrapping::u64_specs::wrapping_mul(
            key_of(lane, n - 1) ^ (lane[n - 1].bits() as u64),
            0x100000001b3,
        )
    }
}

/// A number made of the cells of the lane, by which the entries of a cache
/// are sorted into buckets: lanes of the same cells have the same number, so
/// that what was recorded of a lane is looked for where it was put. The
/// entries of a bucket are told apart by their clues and their lanes.
fn lane_key(lane: &Vec<Cell>) -> (key: u64)
    ensures
        key == key_of(lane@, lane@.len() as int),
{
    let mut key: u64 = 0xcbf29ce484222325;
    let mut i: usize = 0;
    while i < lane.len()
        invariant
            i <= lane@.len(),
            key == key_of(lane@, i as int),
        decreases lane@.len() - i,
    {
        key = (key ^ (lane[i].raw() as u64)).wrapping_mul(0x100000001b3);
        i = i + 1;
    }
    key
}

fn copy_indices(indices: &Vec<usize>) -> (copy: Vec<usize>)
    ensures
        copy@ == indices@,
{
    let mut copy: Vec<usize> = Vec::with_capacity(indices.len());
    let mut i: usize = 0;
    while i < indices.len()
        invariant
            i <= indices@.len(),
            copy@ == indices@.subrange(0, i as int),
        decreases indices@.len() - i,
    {
        copy.push(indices[i]);
        proof {
            assert(copy@ =~= indices@.subrange(0, i + 1));
        }
        i = i + 1;
    }
    proof {
        assert(indices@.subrange(0, i as int) =~= indices@);
    }
    copy
}

fn copy_clues<C: Clue>(clues: &[C]) -> (copy: Vec<C>)
    ensures
        copy@ == clues@,
{
    let mut copy: Vec<C> = Vec::with_capacity(clues.len());
    let mut i: usize = 0;
    while i < clues.len()
        invariant
            i <= clues@.len(),
            copy@ == clues@.subrange(0, i as int),
        decreases clues@.len() - i,
    {
        copy.push(clues[i]);
        proof {
            assert(copy@ =~= clues@.subrange(0, i + 1));
        }
        i = i + 1;
    }
    proof {
        assert(clues@.subrange(0, i as int) =~= clues@);
    }
    copy
}

fn same_clues<C: Clue>(a: &[C], b: &Vec<C>) -> (same: bool)
    ensures
        same == (a@ == b@),
{
    if a.len() != b.len() {
        return false;
    }
    let mut i: usize = 0;
    while i < a.len()
        invariant
            a@.len() == b@.len(),
            i <= a@.len(),
            forall|j: int| 0 <= j < i ==> a@[j] == b@[j],
        decreases a@.len() - i,
    {
        if !a[i].same_as(&b[i]) {
            return false;
        }
        i = i + 1;
    }
    proof {
        assert(a@ =~= b@);
    }
    true
}

fn same_lane(a: &Vec<Cell>, b: &Vec<Cell>) -> (same: bool)
    ensures
        same == (a@ == b@),
{
    if a.len() != b.len() {
        return false;
    }
    let mut i: usize = 0;
    while i < a.len()
        invariant
            a@.len() == b@.len(),
            i <= a@.len(),
            forall|j: int| 0 <= j < i ==> a@[j] == b@[j],
        decreases a@.len() - i,
    {
        if a[i] != b[i] {
            return false;
        }
        i = i + 1;
    }
    proof {
        assert(a@ =~= b@);
    }
    true
}

impl<C: Clue> CacheEntry<C> {
    /// The entry was recorded of these clues and this lane.
    pub closed spec fn is_of(&self, clues: Seq<C>, lane: Seq<Cell>) -> bool {
        self.clues@ == clues && self.before@ == lane
    }
}

/// The first entry of the bucket that was recorded of these clues and this
/// lane, if there is one.
fn find_entry<C: Clue>(bucket: &Vec<CacheEntry<C>>, clues: &[C], lane: &Vec<Cell>) -> (found: Option<
    usize,
>)
    ensures
        match found {
            Some(i) => {
                &&& i < bucket@.len()
                &&& bucket@[i as int].is_of(clues@, lane@)
                &&& forall|j: int| 0 <= j < i ==> !(#[trigger] bucket@[j]).is_of(clues@, lane@)
            },
            None => forall|j: int| 0 <= j < bucket@.len() ==> !(#[trigger] bucket@[j]).is_of(clues@, lane@),
        },
{
    let mut i: usize = 0;
    while i < bucket.len()
        invariant
            i <= bucket@.len(),
            forall|j: int| 0 <= j < i ==> !(#[trigger] bucket@[j]).is_of(clues@, lane@),
        decreases bucket@.len() - i,
    {
        if same_clues(clues, &bucket[i].clues) && same_lane(lane, &bucket[i].before) {
            return Some(i);
        }
        i = i + 1;
    }
    None
}

/// Scrubs the lane, or, where the cache holds what scrubbing made of the
/// same clues and the same lane before, makes the lane what it was made then.
/// What a scrub makes of a lane for the first time is put into the cache.
pub fn op_or_cache<C: Clue>(
    clues: &[C],
    lane: &mut Vec<Cell>,
    cache: &mut Option<LineCache<C>>,
) -> (scrubbed: Result<ScrubReport, SolveError>)
    requires
        clues_well_formed(clues@),
        cache_ok(*old(cache)),
    ensures
        *final(cache) is Some == *old(cache) is Some,
        cache_ok(*final(cache)),
        narrowed(old(lane)@, final(lane)@),
        line_of(clues@).preserved(old(lane)@, final(lane)@),
        (exists|p: Seq<int>| line_of(clues@).is_arrangement(old(lane)@, p)) ==> scrubbed is Ok,
        match scrubbed {
            Ok(report) => {
                &&& marks_changes(old(lane)@, final(lane)@, report.affected_cells@)
                &&& line_of(clues@).scrub_result(old(lane)@) == Some(final(lane)@)
            },
            Err(e) => {
                &&& line_of(clues@).refuted(old(lane)@)
                &&& line_of(clues@).scrub_result(old(lane)@) is None
                &&& e == SolveError::Contradiction
            },
        },
{
    match cache {
        None => scrub_line(clues, lane),
        Some(cache) => scrub_with_cache(clues, lane, cache),
    }
}

fn scrub_with_cache<C: Clue>(clues: &[C], lane: &mut Vec<Cell>, cache: &mut LineCache<C>) -> (scrubbed:
    Result<ScrubReport, SolveError>)
    requires
        clues_well_formed(clues@),
        old(cache).wf(),
    ensures
        final(cache).wf(),
        narrowed(old(lane)@, final(lane)@),
        line_of(clues@).preserved(old(lane)@, final(lane)@),
        (exists|p: Seq<int>| line_of(clues@).is_arrangement(old(lane)@, p)) ==> scrubbed is Ok,
        match scrubbed {
            Ok(report) => {
                &&& marks_changes(old(lane)@, final(lane)@, report.affected_cells@)
                &&& line_of(clues@).scrub_result(old(lane)@) == Some(final(lane)@)
            },
            Err(e) => {
                &&& line_of(clues@).refuted(old(lane)@)
                &&& line_of(clues@).scrub_result(old(lane)@) is None
                &&& e == SolveError::Contradiction
            },
        },
{
    broadcast use vstd::std_specs::hash::group_hash_axioms;

    let key = lane_key(lane);
    let ghost orig = lane@;
    match cache.buckets.get(&key) {
        Some(bucket) => {
            match find_entry(bucket, clues, lane) {
                Some(found) => {
                    let entry = &bucket[found];
                    assert(cache.buckets@.contains_key(key) && cache.buckets@[key]@[found as int].ok());
                    let mut j: usize = 0;
                    while j < entry.affected.len()
                        invariant
                            entry.ok(),
                            entry.before@ == orig,
                            j <= entry.affected@.len(),
                            lane@ == replayed(orig, entry.affected@, entry.cells@, j as int),
                            lane@.len() == orig.len(),
                        decreases entry.affected@.len() - j,
                    {
                        lane[entry.affected[j]] = entry.cells[j];
                        j = j + 1;
                    }
                    return Ok(ScrubReport { affected_cells: copy_indices(&entry.affected) });
                },
                None => {},
            }
        },
        None => {},
    }
    let before = copy_lane(lane);
    let report = scrub_line(clues, lane)?;
    let mut cells_to_cache: Vec<Cell> = Vec::new();
    let mut j: usize = 0;
    while j < report.affected_cells.len()
        invariant
            marks_changes(orig, lane@, report.affected_cells@),
            lane@.len() == orig.len(),
            j <= report.affected_cells@.len(),
            cells_to_cache@.len() == j,
            forall|i: int|
                0 <= i < j ==> #[trigger] cells_to_cache@[i] == lane@[report.affected_cells@[i] as int],
        decreases report.affected_cells@.len() - j,
    {
        assert(report.affected_cells@.contains(report.affected_cells@[j as int]));
        cells_to_cache.push(lane[report.affected_cells[j]]);
        j = j + 1;
    }
    let entry = CacheEntry {
        clues: copy_clues(clues),
        before,
        affected: copy_indices(&report.affected_cells),
        cells: cells_to_cache,
    };
    let len = lane.len();
    proof {
        assert(orig.len() == len);
        lemma_replay(orig, lane@, entry.affected@, entry.cells@);
        assert forall|j: int| 0 <= j < entry.affected@.len() implies #[trigger] entry.affected@[j]
            < entry.before@.len() by {
            assert(entry.affected@.contains(entry.affected@[j]));
        }
        assert(entry.ok());
    }
    let ghost buckets_before = cache.buckets@;
    let mut bucket = match cache.buckets.remove(&key) {
        Some(bucket) => bucket,
        None => Vec::new(),
    };
    proof {
        assert forall|i: int| 0 <= i < bucket@.len() implies (#[trigger] bucket@[i]).ok() by {
            assert(buckets_before.contains_key(key) && buckets_before[key]@[i].ok());
        }
    }
    let ghost bucket_before = bucket@;
    bucket.push(entry);
    proof {
        assert forall|i: int| 0 <= i < bucket@.len() implies (#[trigger] bucket@[i]).ok() by {
            if i < bucket_before.len() {
                assert(bucket@[i] == bucket_before[i]);
            }
        }
    }
    cache.buckets.insert(key, bucket);
    proof {
        assert forall|k: u64, i: int|
            cache.buckets@.contains_key(k) && 0 <= i < cache.buckets@[k]@.len() implies (
        #[trigger] cache.buckets@[k]@[i]).ok() by {
            if k != key {
                assert(buckets_before.contains_key(k) && buckets_before[k]@[i].ok());
            }
        }
    }
    Ok(report)
}

/// The lanes are those of the puzzle: its rows first, then its columns.
pub open spec fn lanes_match<C: Clue>(puzzle: &Puzzle<C>, lanes: Seq<LaneState<C>>) -> bool {
    &&& lanes.len() == puzzle.rows@.len() + puzzle.cols@.len()
    &&& forall|i: int|
        0 <= i < lanes.len() ==> if i < puzzle.rows@.len() {
            &&& (#[trigger] lanes[i]).row()
            &&& lanes[i].index() == i
            &&& lanes[i].clues() == puzzle.rows@[i]@
        } else {
            &&& !lanes[i].row()
            &&& lanes[i].index() == i - puzzle.rows@.len()
            &&& lanes[i].clues() == puzzle.cols@[i - puzzle.rows@.len()]@
        }
}

/// How many modes were not run on a lane as it stands.
pub open spec fn lane_flags<C: Clue>(lane: LaneState<C>) -> int {
    (if lane.state(SolveMode::Skim).processed {
        0int
    } else {
        1
    }) + (if lane.state(SolveMode::Scrub).processed {
        0int
    } else {
        1
    })
}

/// How many runs of a mode on one of the first `n` lanes are still to be
/// made before the lanes must change for more.
pub open spec fn open_flags<C: Clue>(lanes: Seq<LaneState<C>>, n: int) -> int
    decreases n,
{
    if n <= 0 {
        0
    } else {
        open_flags(lanes, n - 1) + lane_flags(lanes[n - 1])
    }
}

pub proof fn lemma_open_flags<C: Clue>(lanes: Seq<LaneState<C>>, n: int)
    requires
        0 <= n <= lanes.len(),
    ensures
        0 <= open_flags(lanes, n) <= 2 * n,
    decreases n,
{
    if n > 0 {
        lemma_open_flags(lanes, n - 1);
    }
}

pub proof fn lemma_open_flags_update<C: Clue>(
    lanes: Seq<LaneState<C>>,
    at: int,
    lane: LaneState<C>,
    n: int,
)
    requires
        0 <= at < lanes.len(),
        0 <= n <= lanes.len(),
    ensures
        open_flags(lanes.update(at, lane), n) == open_flags(lanes, n) + if at < n {
            lane_flags(lane) - lane_flags(lanes[at])
        } else {
            0
        },
    decreases n,
{
    if n > 0 {
        lemma_open_flags_update(lanes, at, lane, n - 1);
    }
}

/// What holds while a puzzle is solved on a grid that began as `start`: the
/// puzzle can be solved on and the grid is of its size; no cell was widened
/// and no solution of the puzzle lost; the lanes are those of the puzzle; and
/// `cells_left` counts the cells that are not known.
pub open spec fn solving<C: Clue>(
    puzzle: &Puzzle<C>,
    start: Seq<Seq<Cell>>,
    grid: &Grid,
    lanes: Seq<LaneState<C>>,
    cells_left: usize,
) -> bool {
    &&& puzzle_ok(puzzle)
    &&& grid.height() == puzzle.rows@.len()
    &&& grid.width() == puzzle.cols@.len()
    &&& rectangular(grid@, grid.width())
    &&& grid_narrowed(start, grid@)
    &&& pictures_kept(puzzle, start, grid@)
    &&& lanes_match(puzzle, lanes)
    &&& cells_left == total_unknown(grid@, grid.width() as int)
}

/// A lane of a puzzle that can be solved on can be scored on a grid of the
/// puzzle's size.
pub proof fn lemma_lane_fits<C: Clue>(puzzle: &Puzzle<C>, grid: &Grid, lane: LaneState<C>)
    requires
        puzzle_ok(puzzle),
        grid.height() == puzzle.rows@.len(),
        grid.width() == puzzle.cols@.len(),
        rectangular(grid@, grid.width()),
        lane.row() ==> 0 <= lane.index() < puzzle.rows@.len() && lane.clues()
            == puzzle.rows@[lane.index()]@,
        !lane.row() ==> 0 <= lane.index() < puzzle.cols@.len() && lane.clues()
            == puzzle.cols@[lane.index()]@,
    ensures
        lane.fits_grid(grid),
{
    if lane.row() {
        assert(line_ok(puzzle.rows@[lane.index()]@, puzzle.cols@.len() as int, puzzle.palette@));
        assert(grid@[lane.index()].len() == grid.width());
    } else {
        assert(line_ok(puzzle.cols@[lane.index()]@, puzzle.rows@.len() as int, puzzle.palette@));
    }
    lemma_line_of_wf(lane.clues());
}

fn contains_index(indices: &Vec<usize>, index: usize) -> (found: bool)
    ensures
        found == indices@.contains(index),
{
    let mut i: usize = 0;
    while i < indices.len()
        invariant
            i <= indices@.len(),
            forall|j: int| 0 <= j < i ==> indices@[j] != index,
        decreases indices@.len() - i,
    {
        if indices[i] == index {
            return true;
        }
        i = i + 1;
    }
    false
}

/// The lane scored anew on the grid, with both modes to be run again.
pub open spec fn woken<'a, C: Clue>(lane: LaneState<'a, C>, grid: &Grid) -> LaneState<'a, C> {
    lane.woken_on(grid)
}

/// A lane that was woken is the same lane of the puzzle, and both modes
/// are to be run on it.
pub proof fn lemma_woken_same<'a, C: Clue>(lane: LaneState<'a, C>, grid: &Grid)
    ensures
        woken(lane, grid).row() == lane.row(),
        woken(lane, grid).index() == lane.index(),
        woken(lane, grid).clues() == lane.clues(),
        !woken(lane, grid).state(SolveMode::Skim).processed,
        !woken(lane, grid).state(SolveMode::Scrub).processed,
        forall|mode: SolveMode|
            woken(lane, grid).state(mode) == (PerModeLaneState {
                processed: false,
                ..lane.scored(lane_of(grid@, lane.row(), lane.index()), false, mode)
            }),
{
}

proof fn lemma_woken<'a, C: Clue>(before: LaneState<'a, C>, grid: &Grid, after: LaneState<'a, C>)
    requires
        after.same_place(&before),
        after.per_mode.skim == (PerModeLaneState {
            processed: false,
            ..before.scored(lane_of(grid@, before.row(), before.index()), false, SolveMode::Skim)
        }),
        after.per_mode.scrub == (PerModeLaneState {
            processed: false,
            ..before.scored(lane_of(grid@, before.row(), before.index()), false, SolveMode::Scrub)
        }),
    ensures
        after == woken(before, grid),
{
}

/// Scores anew the lanes that cross a lane at a cell that changed, and
/// notes that the modes are to be run on them again.
fn wake_crossing<'a, C: Clue>(
    puzzle: &'a Puzzle<C>,
    grid: &Grid,
    lanes: &mut Vec<LaneState<'a, C>>,
    was_row: bool,
    affected: &Vec<usize>,
)
    requires
        puzzle_ok(puzzle),
        grid.height() == puzzle.rows@.len(),
        grid.width() == puzzle.cols@.len(),
        rectangular(grid@, grid.width()),
        lanes_match(puzzle, old(lanes)@),
    ensures
        lanes_match(puzzle, final(lanes)@),
        affected@.len() == 0 ==> final(lanes)@ == old(lanes)@,
        forall|i: int|
            0 <= i < old(lanes)@.len() ==> #[trigger] final(lanes)@[i] == if old(lanes)@[i].row()
                != was_row && affected@.contains(old(lanes)@[i].index() as usize) {
                woken(old(lanes)@[i], grid)
            } else {
                old(lanes)@[i]
            },
{
    let mut i: usize = 0;
    while i < lanes.len()
        invariant
            puzzle_ok(puzzle),
            grid.height() == puzzle.rows@.len(),
            grid.width() == puzzle.cols@.len(),
            rectangular(grid@, grid.width()),
            lanes@.len() == old(lanes)@.len(),
            lanes_match(puzzle, old(lanes)@),
            i <= lanes@.len(),
            forall|j: int| i <= j < lanes@.len() ==> lanes@[j] == old(lanes)@[j],
            forall|j: int|
                0 <= j < i ==> #[trigger] lanes@[j] == if old(lanes)@[j].row() != was_row
                    && affected@.contains(old(lanes)@[j].index() as usize) {
                    woken(old(lanes)@[j], grid)
                } else {
                    old(lanes)@[j]
                },
        decreases lanes@.len() - i,
    {
        let mut other_lane = lanes[i];
        if other_lane.is_row() != was_row && contains_index(affected, other_lane.number()) {
            proof {
                lemma_lane_fits(puzzle, grid, other_lane);
            }
            let ghost before = other_lane;
            other_lane.rescore(grid, false);
            let ghost scored = other_lane;
            other_lane.set_processed(SolveMode::Skim, false);
            let ghost half = other_lane;
            other_lane.set_processed(SolveMode::Scrub, false);
            proof {
                assert(scored.same_place(&before));
                assert(half.same_place(&scored));
                assert(other_lane.same_place(&half));
                assert(other_lane.same_place(&before));
                assert(other_lane.state(SolveMode::Skim) == half.state(SolveMode::Skim));
            }
            proof {
                lemma_woken(lanes@[i as int], grid, other_lane);
            }
            lanes[i] = other_lane;
        }
        i = i + 1;
    }
    proof {
        assert forall|j: int| 0 <= j < lanes@.len() implies if j < puzzle.rows@.len() {
            &&& (#[trigger] lanes@[j]).row()
            &&& lanes@[j].index() == j
            &&& lanes@[j].clues() == puzzle.rows@[j]@
        } else {
            &&& !lanes@[j].row()
            &&& lanes@[j].index() == j - puzzle.rows@.len()
            &&& lanes@[j].clues() == puzzle.cols@[j - puzzle.rows@.len()]@
        } by {
            let before = old(lanes)@[j];
            assert(lanes@[j] == before || lanes@[j] == woken(before, grid));
            lemma_woken_same(before, grid);
        }
        if affected@.len() == 0 {
            assert(lanes@ =~= old(lanes)@);
        }
    }
}

/// The lanes after a step are what the model of the solve says: the lane
/// that the mode was run on is noted and scored anew, and the lanes that cross
/// it at a cell that changed are woken.
proof fn lemma_lanes_after<'a, C: Clue>(
    before: Seq<LaneState<'a, C>>,
    ran: LaneState<'a, C>,
    after: Seq<LaneState<'a, C>>,
    best: int,
    mode: SolveMode,
    grid: &Grid,
    orig: Seq<Cell>,
    new: Seq<Cell>,
    affected: Seq<usize>,
)
    requires
        0 <= best < before.len(),
        after.len() == before.len(),
        new.len() == orig.len(),
        orig.len() <= usize::MAX,
        marks_changes(orig, new, affected),
        ran.same_place(&before[best]),
        ran.clues() == before[best].clues(),
        ran.row() == before[best].row(),
        ran.index() == before[best].index(),
        forall|m: SolveMode|
            ran.state(m) == rescored(
                PerModeLaneState {
                    processed: before[best].state(m).processed || m == mode,
                    ..before[best].state(m)
                },
                before[best].clues(),
                lane_of(grid@, before[best].row(), before[best].index()),
                true,
                m,
            ),
        forall|j: int|
            0 <= j < before.len() ==> 0 <= (#[trigger] before[j]).index() && (before[j].row()
                != before[best].row() ==> before[j].index() < orig.len()),
        forall|j: int|
            0 <= j < before.len() ==> #[trigger] after[j] == (if before.update(best, ran)[j].row()
                != before[best].row() && affected.contains(
                before.update(best, ran)[j].index() as usize,
            ) {
                woken(before.update(best, ran)[j], grid)
            } else {
                before.update(best, ran)[j]
            }),
    ensures
        lane_views(after) == lanes_after(lane_views(before), best, mode, grid@, orig, new),
{
    let views = lane_views(before);
    let goal = lanes_after(views, best, mode, grid@, orig, new);
    let mid = before.update(best, ran);
    let row = before[best].row();
    assert forall|j: int| 0 <= j < before.len() implies lane_view(after[j]) == goal[j] by {
        let lane = if j == best {
            views[j].ran(mode, lane_of(grid@, row, views[j].index))
        } else {
            views[j]
        };
        assert(lane_view(mid[j]) == lane) by {
            if j == best {
                assert(ran.state(SolveMode::Skim) == lane.skim);
                assert(ran.state(SolveMode::Scrub) == lane.scrub);
            }
        }
        assert(0 <= before[j].index());
        let idx = mid[j].index();
        assert(affected.contains(idx as usize) <==> idx < orig.len() && new[idx] != orig[idx]);
        if mid[j].row() != row && affected.contains(idx as usize) {
            lemma_woken_same(mid[j], grid);
            assert(lane_view(woken(mid[j], grid)) == lane.woken(lane_of(grid@, lane.row, lane.index)));
        }
    }
    assert(lane_views(after) =~= goal);
}

/// Runs the mode on a copy of the lane and, where only one color is asked
/// for, undoes what made no cell known to be of that color.
fn deduce_in_lane<C: Clue>(
    clues: &[C],
    orig_lane: &Vec<Cell>,
    mode: SolveMode,
    line_cache: &mut Option<LineCache<C>>,
    options: &SolveOptions,
) -> (deduced: Result<(Vec<Cell>, ScrubReport), SolveError>)
    requires
        clues_well_formed(clues@),
        cache_ok(*old(line_cache)),
    ensures
        *final(line_cache) is Some == *old(line_cache) is Some,
        cache_ok(*final(line_cache)),
        match deduced {
            Ok((lane, report)) => {
                &&& narrowed(orig_lane@, lane@)
                &&& line_of(clues@).preserved(orig_lane@, lane@)
                &&& marks_changes(orig_lane@, lane@, report.affected_cells@)
                &&& crate::schedule::deduced(
                    line_of(clues@),
                    orig_lane@,
                    mode,
                    options.only_solve_color,
                ) == Ok::<Seq<Cell>, SolveError>(lane@)
            },
            Err(e) => {
                &&& line_of(clues@).refuted(orig_lane@)
                &&& e == SolveError::Contradiction || e == SolveError::UnsatisfiableLine
                &&& crate::schedule::deduced(
                    line_of(clues@),
                    orig_lane@,
                    mode,
                    options.only_solve_color,
                ) == Err::<Seq<Cell>, SolveError>(e)
            },
        },
{
    let ghost line = line_of(clues@);
    let mut working = copy_lane(orig_lane);
    let result = match mode {
        SolveMode::Scrub => op_or_cache(clues, &mut working, line_cache),
        SolveMode::Skim => skim_line(clues, &mut working),
    };
    let mut report = match result {
        Ok(report) => report,
        Err(e) => {
            return Err(e);
        },
    };
    let ghost made = working@;
    proof {
        if mode == SolveMode::Skim {
            let chosen = choose|result: Seq<Cell>| line.skim_gives(orig_lane@, result);
            line.lemma_skim_unique(orig_lane@, chosen, made);
        }
        assert(match mode {
            SolveMode::Skim => skim_result(line, orig_lane@),
            SolveMode::Scrub => scrubbed(line, orig_lane@),
        } == Ok::<Seq<Cell>, SolveError>(made));
    }
    match options.only_solve_color {
        None => {},
        Some(color) => {
            let ghost deduced = working@;
            filter_report_by_color(&mut report, orig_lane, &mut working, color);
            proof {
                assert(working@ =~= filtered(orig_lane@, made, color));
                assert forall|i: int| 0 <= i < orig_lane@.len() implies (#[trigger] working@[i]).within(
                    orig_lane@[i],
                ) && (working@[i].impossible() ==> orig_lane@[i].impossible())
                    && deduced[i].within(working@[i]) by {
                    assert(deduced[i].within(orig_lane@[i]));
                    orig_lane@[i].lemma_views(orig_lane@[i]);
                    deduced[i].lemma_views(deduced[i]);
                }
                assert forall|p: Seq<int>| #[trigger]
                    line.is_arrangement(orig_lane@, p) implies line.is_arrangement(working@, p) by {
                    assert(line.is_arrangement(deduced, p));
                    line.lemma_widen(deduced, working@, p);
                }
            }
        },
    }
    Ok((working, report))
}

/// Runs the mode on the lane at `best`, and brings the grid, the count of
/// the cells that are left, and the lanes up to what came of it. Returns
/// whether a cell of the grid changed.
fn solve_lane<'a, C: Clue>(
    puzzle: &'a Puzzle<C>,
    grid: &mut Grid,
    lanes: &mut Vec<LaneState<'a, C>>,
    best: usize,
    mode: SolveMode,
    line_cache: &mut Option<LineCache<C>>,
    options: &SolveOptions,
    cells_left: &mut usize,
    Ghost(start): Ghost<Seq<Seq<Cell>>>,
) -> (stepped: Result<bool, SolveError>)
    requires
        solving(puzzle, start, old(grid), old(lanes)@, *old(cells_left)),
        best < old(lanes)@.len(),
        !old(lanes)@[best as int].state(mode).processed,
        cache_ok(*old(line_cache)),
    ensures
        *final(line_cache) is Some == *old(line_cache) is Some,
        cache_ok(*final(line_cache)),
        final(grid).height() == old(grid).height(),
        final(grid).width() == old(grid).width(),
        grid_narrowed(start, final(grid)@),
        final(lanes)@.len() == old(lanes)@.len(),
        stepped matches Ok(progress) ==> ({
            let lane = lane_view(old(lanes)@[best as int]);
            let orig = lane_of(old(grid)@, lane.row, lane.index);
            let made = deduced(line_of(lane.clues), orig, mode, options.only_solve_color);
            &&& made is Ok
            &&& final(grid)@ == with_lane(old(grid)@, lane.row, lane.index, made->Ok_0)
            &&& progress == (made->Ok_0 != orig)
            &&& lane_views(final(lanes)@) == lanes_after(
                lane_views(old(lanes)@),
                best as int,
                mode,
                final(grid)@,
                orig,
                made->Ok_0,
            )
        }),
        stepped matches Err(e) ==> deduced(
            line_of(old(lanes)@[best as int].clues()),
            lane_of(old(grid)@, old(lanes)@[best as int].row(), old(lanes)@[best as int].index()),
            mode,
            options.only_solve_color,
        ) == Err::<Seq<Cell>, SolveError>(e),
        match stepped {
            Ok(progress) => {
                &&& solving(puzzle, start, final(grid), final(lanes)@, *final(cells_left))
                &&& 0 <= total_weight(final(grid)@, final(grid).width() as int)
                &&& if progress {
                    total_weight(final(grid)@, final(grid).width() as int) < total_weight(
                        old(grid)@,
                        old(grid).width() as int,
                    )
                } else {
                    &&& final(grid)@ == old(grid)@
                    &&& open_flags(final(lanes)@, final(lanes)@.len() as int) == open_flags(
                        old(lanes)@,
                        old(lanes)@.len() as int,
                    ) - 1
                }
            },
            Err(e) => {
                &&& no_picture(puzzle, start)
                &&& final(grid)@ == old(grid)@
                &&& e == SolveError::Contradiction || e == SolveError::UnsatisfiableLine
            },
        },
{
    let mut lane_state = lanes[best];
    let row = lane_state.is_row();
    let index = lane_state.number();
    let ghost cells = grid@;
    let ghost width = grid.width() as int;
    proof {
        lemma_lane_fits(puzzle, grid, lane_state);
    }
    let orig_lane = grid.lane(row, index);
    let (working, report) = match deduce_in_lane(
        lane_state.clues,
        &orig_lane,
        mode,
        line_cache,
        options,
    ) {
        Ok(deduced) => deduced,
        Err(e) => {
            proof {
                lemma_lane_refuted(puzzle, cells, row, index as int);
                assert forall|picture: Seq<Seq<Color>>|
                    !(solves(puzzle, picture) && #[trigger] grid_allows(start, picture)) by {
                    if solves(puzzle, picture) && grid_allows(start, picture) {
                        assert(grid_allows(cells, picture));
                    }
                }
            }
            return Err(e);
        },
    };
    let known_before = count_known(&orig_lane);
    let known_after = count_known(&working);
    grid.set_lane(row, index, &working);
    proof {
        lemma_lane_step(puzzle, cells, row, index as int, working@);
        lemma_grid_on(puzzle, start, cells, grid@);
        lemma_totals_with_lane(cells, width, row, index as int, working@);
        lemma_unknown_falls(orig_lane@, working@);
    }
    *cells_left = *cells_left - (known_after - known_before);

    let ghost lanes_before = lanes@;
    let ghost picked = lane_state;
    lane_state.set_processed(mode, true);
    let ghost noted = lane_state;
    proof {
        lemma_lane_fits(puzzle, grid, lane_state);
    }
    lane_state.rescore(grid,  /*was_processed=*/ true);
    lanes[best] = lane_state;
    proof {
        assert(noted.same_place(&picked));
        assert(lane_state.same_place(&noted));
        assert(lane_state.same_place(&picked));
        assert forall|m: SolveMode|
            lane_state.state(m) == rescored(
                PerModeLaneState {
                    processed: picked.state(m).processed || m == mode,
                    ..picked.state(m)
                },
                picked.clues(),
                lane_of(grid@, picked.row(), picked.index()),
                true,
                m,
            ) by {
            assert(lane_state.state(m) == noted.scored(
                lane_of(grid@, noted.row(), noted.index()),
                true,
                m,
            ));
            if m == mode {
                assert(noted.state(m) == (PerModeLaneState {
                    processed: true,
                    ..picked.state(m)
                }));
            } else {
                assert(noted.state(m) == picked.state(m));
            }
        }
    }
    proof {
        lemma_open_flags_update(lanes_before, best as int, lane_state, lanes_before.len() as int);
        assert(lanes@ == lanes_before.update(best as int, lane_state));
        assert(lanes_match(puzzle, lanes@)) by {
            assert forall|i: int| 0 <= i < lanes@.len() implies if i < puzzle.rows@.len() {
                &&& (#[trigger] lanes@[i]).row()
                &&& lanes@[i].index() == i
                &&& lanes@[i].clues() == puzzle.rows@[i]@
            } else {
                &&& !lanes@[i].row()
                &&& lanes@[i].index() == i - puzzle.rows@.len()
                &&& lanes@[i].clues() == puzzle.cols@[i - puzzle.rows@.len()]@
            } by {
                if i != best {
                    assert(lanes@[i] == lanes_before[i]);
                }
            }
        }
    }
    let progress = report.affected_cells.len() > 0;
    proof {
        if progress {
            let changed = report.affected_cells@[0];
            assert(report.affected_cells@.contains(changed));
            assert(working@[changed as int] != orig_lane@[changed as int]);
        } else {
            assert forall|i: int| 0 <= i < working@.len() implies working@[i] == orig_lane@[i] by {
                if working@[i] != orig_lane@[i] {
                    assert(report.affected_cells@.contains(i as usize));
                }
            }
            assert(working@ =~= orig_lane@);
            assert(grid@ =~= cells) by {
                assert forall|y: int| 0 <= y < cells.len() implies grid@[y] =~= cells[y] by {
                    assert(cells[y].len() == width);
                }
            }
        }
    }
    let ghost mid = lanes@;
    // Affected intersecting lanes now may need to be re-examined:
    wake_crossing(puzzle, grid, lanes, row, &report.affected_cells);
    proof {
        assert(mid == lanes_before.update(best as int, lane_state));
        assert forall|j: int|
            0 <= j < lanes_before.len() implies 0 <= (#[trigger] lanes_before[j]).index() && (
        lanes_before[j].row() != lanes_before[best as int].row() ==> lanes_before[j].index()
            < orig_lane@.len()) by {
            assert(lanes_match(puzzle, lanes_before));
        }
        lemma_lanes_after(
            lanes_before,
            lane_state,
            lanes@,
            best as int,
            mode,
            grid,
            orig_lane@,
            working@,
            report.affected_cells@,
        );
        if progress {
            assert(working@ != orig_lane@);
        }
    }
    Ok(progress)
}

/// The number of cells of the grid that are not known.
fn count_cells_left(grid: &Grid) -> (cells_left: usize)
    requires
        grid.height() <= 0x7FFF,
        grid.width() <= 0x7FFF,
    ensures
        cells_left == total_unknown(grid@, grid.width() as int),
{
    let height = grid.nrows();
    let width = grid.ncols();
    let ghost u = |c: Cell| unknown(c);
    let mut cells_left: usize = 0;
    let mut y: usize = 0;
    while y < height
        invariant
            rectangular(grid@, grid.width()),
            height == grid.height(),
            width == grid.width(),
            height <= 0x7FFF,
            width <= 0x7FFF,
            y <= height,
            u == |c: Cell| unknown(c),
            cells_left == grid_sum(grid@, u, width as int, y as int),
            cells_left <= y * 0x7FFF,
        decreases height - y,
    {
        let lane = grid.lane(true, y);
        let known = count_known(&lane);
        proof {
            assert(grid@[y as int].len() == width);
            assert(lane@ == grid@[y as int]);
            assert((y + 1) * 0x7FFF == y * 0x7FFF + 0x7FFF) by (nonlinear_arith);
            assert(y * 0x7FFF <= 0x7FFF * 0x7FFF) by (nonlinear_arith)
                requires
                    y <= 0x7FFF,
            ;
        }
        cells_left = cells_left + (width - known);
        y = y + 1;
    }
    cells_left
}

/// The report tells what the grid holds: how many cells are not known, the
/// color of each cell that is, and which cells those are; with the counts of
/// the runs of each mode, the palette of the puzzle and the style of its clues.
pub open spec fn reports<C: Clue>(puzzle: &Puzzle<C>, grid: &Grid, report: &Report) -> bool {
    &&& report.cells_left == total_unknown(grid@, grid.width() as int)
    &&& shows_grid(grid@, grid.width(), report.solution.grid@)
    &&& masks_grid(grid@, grid.width(), report.solved_mask@)
    &&& report.solution.palette@ == puzzle.palette@
    &&& report.solution.clue_style == C::spec_style()
}

fn make_report<C: Clue>(
    puzzle: &Puzzle<C>,
    grid: &Grid,
    solve_counts: ModeMap<u64>,
    cells_left: usize,
) -> (report: Report)
    requires
        cells_left == total_unknown(grid@, grid.width() as int),
    ensures
        reports(puzzle, grid, &report),
        report.solve_counts == solve_counts,
{
    Report {
        solve_counts,
        cells_left,
        solution: grid_to_solution::<C>(grid, puzzle),
        solved_mask: grid_to_solved_mask(grid),
    }
}

/// A number that falls with every step of a solve: the colors that the
/// cells can still have weigh most, then the runs that are still to be made
/// on the lanes as they stand, then the failures that skimming is still
/// allowed.
pub open spec fn rank<C: Clue>(grid: &Grid, lanes: Seq<LaneState<C>>, budget: int) -> int {
    total_weight(grid@, grid.width() as int) * (22 * lanes.len() + 11) + open_flags(
        lanes,
        lanes.len() as int,
    ) * 11 + budget
}

proof fn lemma_rank_bound<C: Clue>(grid: &Grid, lanes: Seq<LaneState<C>>, budget: int)
    requires
        rectangular(grid@, grid.width()),
        grid.height() <= 0x7FFF,
        grid.width() <= 0x7FFF,
        lanes.len() == grid.height() + grid.width(),
        0 <= budget <= 10,
    ensures
        0 <= rank(grid, lanes, budget) <= 49535438489517002,
{
    let tw = total_weight(grid@, grid.width() as int);
    let m = 22 * lanes.len() + 11;
    let h = grid.height() as int;
    let w = grid.width() as int;
    lemma_total_weight_bounds(grid@, w);
    lemma_open_flags(lanes, lanes.len() as int);
    assert(h * w * 32 <= 34357641248) by (nonlinear_arith)
        requires
            0 <= h <= 0x7FFF,
            0 <= w <= 0x7FFF,
    ;
    assert(0 <= tw * m <= 49535438488075232) by (nonlinear_arith)
        requires
            0 <= tw <= 34357641248,
            0 <= m <= 1441759,
    ;
}

/// The rank falls with a step that changes a cell, and with one that does
/// not but was a run on a lane.
proof fn lemma_rank_falls(
    weight_before: int,
    weight_after: int,
    lane_count: int,
    flags_before: int,
    flags_after: int,
    budget_before: int,
    budget_after: int,
    progress: bool,
)
    requires
        0 <= lane_count,
        0 <= weight_after,
        0 <= flags_before,
        0 <= flags_after <= 2 * lane_count,
        0 <= budget_before <= 10,
        0 <= budget_after <= 10,
        progress ==> weight_after <= weight_before - 1,
        !progress ==> weight_after == weight_before && flags_after <= flags_before
            && flags_after * 11 + budget_after < flags_before * 11 + budget_before,
    ensures
        0 <= weight_after * (22 * lane_count + 11) + flags_after * 11 + budget_after,
        weight_after * (22 * lane_count + 11) + flags_after * 11 + budget_after < weight_before * (22
            * lane_count + 11) + flags_before * 11 + budget_before,
{
    let m = 22 * lane_count + 11;
    assert(0 <= weight_after * m) by (nonlinear_arith)
        requires
            0 <= weight_after,
            0 <= m,
    ;
    if progress {
        assert(weight_after * m <= weight_before * m - m) by (nonlinear_arith)
            requires
                weight_after <= weight_before - 1,
                m >= 0,
        ;
    }
}

/// What a solve of the puzzle that began with the grid `start` and left it
/// as `end` has returned.
///
/// A puzzle that cannot be solved on is refused, and so is a grid that is not
/// of the puzzle's size; the grid is then left as it was. Otherwise no cell is
/// widened. A report says what the grid holds at the end, and the grid then
/// allows every solution of the puzzle that it allowed at the start. An error
/// says that it allowed none.
pub open spec fn solve_post<C: Clue>(
    puzzle: &Puzzle<C>,
    options: &SolveOptions,
    start: &Grid,
    end: &Grid,
    solved: Result<Report, SolveError>,
) -> bool {
    if !puzzle_ok(puzzle) {
        solved matches Err(e) && e == SolveError::IllFormedPuzzle && end@ == start@
    } else if start.height() != puzzle.rows@.len() || start.width() != puzzle.cols@.len() {
        solved matches Err(e) && e == SolveError::DimensionMismatch && end@ == start@
    } else {
        &&& end.height() == start.height()
        &&& end.width() == start.width()
        &&& grid_narrowed(start@, end@)
        &&& solve_ends(puzzle, options, start@, finish_of(end, solved))
        &&& match solved {
            Ok(report) => pictures_kept(puzzle, start@, end@) && reports(puzzle, end, &report),
            Err(e) => no_picture(puzzle, start@) && (e == SolveError::Contradiction || e
                == SolveError::UnsatisfiableLine),
        }
    }
}

/// The counts as numbers without bound.
pub open spec fn counts_of(counts: ModeMap<u64>) -> ModeMap<int> {
    ModeMap { skim: counts.skim as int, scrub: counts.scrub as int }
}

/// What the solve ended with, as the model of the solve tells it: the cells
/// of the grid, and the counts of the report if there is one.
pub open spec fn finish_of(end: &Grid, solved: Result<Report, SolveError>) -> Finish {
    Finish {
        cells: end@,
        counts: match solved {
            Ok(report) => Ok(counts_of(report.solve_counts)),
            Err(e) => Err(e),
        },
    }
}

/// The state of a solve as the model of the solve sees it.
pub open spec fn state_of<C: Clue>(
    grid: &Grid,
    lanes: Seq<LaneState<C>>,
    counts: ModeMap<u64>,
    budget: usize,
) -> SolveState<C> {
    SolveState {
        cells: grid@,
        width: grid.width() as int,
        lanes: lane_views(lanes),
        counts: counts_of(counts),
        budget: budget as int,
    }
}

/// The lanes of the puzzle, scored on the grid: its rows first, then its
/// columns.
fn make_lanes<'a, C: Clue>(puzzle: &'a Puzzle<C>, grid: &Grid) -> (lanes: Vec<LaneState<'a, C>>)
    requires
        puzzle_ok(puzzle),
        grid.height() == puzzle.rows@.len(),
        grid.width() == puzzle.cols@.len(),
    ensures
        lanes_match(puzzle, lanes@),
        lane_views(lanes@) == first_state(puzzle, grid@).lanes,
{
    let height = grid.nrows();
    let width = grid.ncols();
    let mut solve_lanes: Vec<LaneState<'a, C>> = Vec::new();
    let mut idx: usize = 0;
    while idx < height
        invariant
            puzzle_ok(puzzle),
            rectangular(grid@, grid.width()),
            height == puzzle.rows@.len(),
            width == puzzle.cols@.len(),
            height == grid.height(),
            width == grid.width(),
            idx <= height,
            solve_lanes@.len() == idx,
            forall|i: int|
                0 <= i < idx ==> {
                    &&& (#[trigger] solve_lanes@[i]).row()
                    &&& solve_lanes@[i].index() == i
                    &&& solve_lanes@[i].clues() == puzzle.rows@[i]@
                    &&& lane_view(solve_lanes@[i]) == first_state(puzzle, grid@).lanes[i]
                },
        decreases height - idx,
    {
        proof {
            assert(line_ok(puzzle.rows@[idx as int]@, puzzle.cols@.len() as int, puzzle.palette@));
            assert(grid@[idx as int].len() == grid.width());
            lemma_line_of_wf(puzzle.rows@[idx as int]@);
        }
        solve_lanes.push(LaneState::new(puzzle.rows[idx].as_slice(), true, idx, grid));
        idx = idx + 1;
    }
    let mut idx: usize = 0;
    while idx < width
        invariant
            puzzle_ok(puzzle),
            rectangular(grid@, grid.width()),
            height == puzzle.rows@.len(),
            width == puzzle.cols@.len(),
            height == grid.height(),
            width == grid.width(),
            idx <= width,
            solve_lanes@.len() == height + idx,
            forall|i: int|
                0 <= i < height ==> {
                    &&& (#[trigger] solve_lanes@[i]).row()
                    &&& solve_lanes@[i].index() == i
                    &&& solve_lanes@[i].clues() == puzzle.rows@[i]@
                    &&& lane_view(solve_lanes@[i]) == first_state(puzzle, grid@).lanes[i]
                },
            forall|i: int|
                height <= i < height + idx ==> {
                    &&& !(#[trigger] solve_lanes@[i]).row()
                    &&& solve_lanes@[i].index() == i - height
                    &&& solve_lanes@[i].clues() == puzzle.cols@[i - height]@
                    &&& lane_view(solve_lanes@[i]) == first_state(puzzle, grid@).lanes[i]
                },
        decreases width - idx,
    {
        proof {
            assert(line_ok(puzzle.cols@[idx as int]@, puzzle.rows@.len() as int, puzzle.palette@));
            lemma_line_of_wf(puzzle.cols@[idx as int]@);
        }
        solve_lanes.push(LaneState::new(puzzle.cols[idx].as_slice(), false, idx, grid));
        idx = idx + 1;
    }
    proof {
        assert(lane_views(solve_lanes@) =~= first_state(puzzle, grid@).lanes);
    }
    solve_lanes
}

/// A grid is narrowed from itself, and allows what it allows.
proof fn lemma_grid_self<C: Clue>(puzzle: &Puzzle<C>, cells: Seq<Seq<Cell>>)
    ensures
        grid_narrowed(cells, cells),
        pictures_kept(puzzle, cells, cells),
{
    assert forall|y: int| 0 <= y < cells.len() implies narrowed(#[trigger] cells[y], cells[y]) by {
        lemma_narrowed_self(cells[y]);
    }
}

/// Solves the puzzle on the grid as far as the modes get: again and again
/// the mode that is due is run on the lane that promises most, until every
/// cell is known or no lane is left to run a mode on.
///
/// Skimming is due as long as it is allowed failures: it starts with 10, a
/// run that changes nothing costs one, and a run that changes something gives
/// one back, or all if it was a run of scrubbing. When skimming has none left,
/// or no lane left, the mode of `options.max_effort` is due.
pub fn solve_grid<C: Clue>(
    puzzle: &Puzzle<C>,
    line_cache: &mut Option<LineCache<C>>,
    options: &SolveOptions,
    grid: &mut Grid,
) -> (solved: Result<Report, SolveError>)
    requires
        cache_ok(*old(line_cache)),
    ensures
        *final(line_cache) is Some == *old(line_cache) is Some,
        cache_ok(*final(line_cache)),
        solve_post(puzzle, options, old(grid), final(grid), solved),
{
    if !check_puzzle(puzzle) {
        return Err(SolveError::IllFormedPuzzle);
    }
    if grid.nrows() != puzzle.rows.len() || grid.ncols() != puzzle.cols.len() {
        return Err(SolveError::DimensionMismatch);
    }
    let ghost start = grid@;
    let mut solve_lanes = make_lanes(puzzle, grid);
    let mut cells_left = count_cells_left(grid);
    let mut solve_counts: ModeMap<u64> = ModeMap::new_uniform(0);
    let mut allowed_failures: usize = 10;
    proof {
        lemma_grid_self(puzzle, start);
        lemma_rank_bound(grid, solve_lanes@, 10);
    }
    let ghost first_rank = rank(grid, solve_lanes@, 10);
    let ghost first = first_state(puzzle, start);
    let ghost mut steps: nat = 0;
    proof {
        assert(state_of(grid, solve_lanes@, solve_counts, allowed_failures) == first);
    }

    loop
        invariant
            solving(puzzle, start, grid, solve_lanes@, cells_left),
            first == first_state(puzzle, start),
            forall|f: nat|
                solve_run(options, first, steps + f) == #[trigger] solve_run(
                    options,
                    state_of(grid, solve_lanes@, solve_counts, allowed_failures),
                    f,
                ),
            start == old(grid)@,
            grid.height() == old(grid).height(),
            grid.width() == old(grid).width(),
            *line_cache is Some == *old(line_cache) is Some,
            cache_ok(*line_cache),
            allowed_failures <= 10,
            0 <= rank(grid, solve_lanes@, allowed_failures as int),
            solve_counts.skim + solve_counts.scrub + rank(grid, solve_lanes@, allowed_failures as int)
                <= first_rank,
            first_rank <= 49535438489517002,
        decreases rank(grid, solve_lanes@, allowed_failures as int),
    {
        let current_mode = if allowed_failures > 0 {
            SolveMode::Skim
        } else {
            options.max_effort
        };
        let ghost weight_before = total_weight(grid@, grid.width() as int);
        let ghost flags_before = open_flags(solve_lanes@, solve_lanes@.len() as int);
        let ghost budget_before = allowed_failures as int;
        let ghost lane_count = solve_lanes@.len() as int;
        let ghost here = state_of(grid, solve_lanes@, solve_counts, allowed_failures);
        let ghost step = solve_step(options, here);
        proof {
            lemma_open_flags(solve_lanes@, solve_lanes@.len() as int);
            lemma_total_weight_bounds(grid@, grid.width() as int);
            assert(current_mode == crate::schedule::current_mode(options, here.budget));
            assert(solve_run(options, first, steps + 0) == solve_run(options, here, 0));
        }
        match find_best_lane(&solve_lanes, current_mode) {
            None => {
                if current_mode.at_least(options.max_effort) {
                    // Nothing left to try; can't solve.
                    let report = make_report(puzzle, grid, solve_counts, cells_left);
                    proof {
                        assert(step == Outcome::<C>::Done(finish_of(grid, Ok(report))));
                        assert(solve_run(options, first, steps) == Some(finish_of(grid, Ok(report))));
                    }
                    return Ok(report);
                }
                allowed_failures = 0;  // try the next mode
                proof {
                    let there = state_of(grid, solve_lanes@, solve_counts, allowed_failures);
                    assert(step == Outcome::Next(there));
                    assert forall|f: nat|
                        solve_run(options, first, steps + 1 + f) == #[trigger] solve_run(
                            options,
                            there,
                            f,
                        ) by {
                        assert(solve_run(options, first, steps + (1 + f) as nat) == solve_run(
                            options,
                            here,
                            (1 + f) as nat,
                        ));
                    }
                    steps = steps + 1;
                    lemma_rank_falls(
                        weight_before,
                        weight_before,
                        lane_count,
                        flags_before,
                        flags_before,
                        budget_before,
                        0,
                        false,
                    );
                }
            },
            Some(best) => {
                let ghost counts_before = solve_counts;
                solve_counts.set(current_mode, solve_counts.get(current_mode) + 1);
                proof {
                    let other = match current_mode {
                        SolveMode::Skim => SolveMode::Scrub,
                        SolveMode::Scrub => SolveMode::Skim,
                    };
                    assert(solve_counts.at(other) == counts_before.at(other));
                    assert(solve_counts.at(current_mode) == counts_before.at(current_mode) + 1);
                    assert(solve_counts.skim + solve_counts.scrub == counts_before.skim
                        + counts_before.scrub + 1);
                }
                let progress = match solve_lane(
                    puzzle,
                    grid,
                    &mut solve_lanes,
                    best,
                    current_mode,
                    line_cache,
                    options,
                    &mut cells_left,
                    Ghost(start),
                ) {
                    Ok(progress) => progress,
                    Err(e) => {
                        proof {
                            assert(step == Outcome::<C>::Done(finish_of(grid, Err(e))));
                            assert(solve_run(options, first, steps) == Some(
                                finish_of(grid, Err(e)),
                            ));
                        }
                        return Err(e);
                    },
                };
                proof {
                    assert(counts_of(solve_counts) == counted(here.counts, current_mode));
                }
                if cells_left == 0 {
                    let report = make_report(puzzle, grid, solve_counts, cells_left);
                    proof {
                        assert(step == Outcome::<C>::Done(finish_of(grid, Ok(report))));
                        assert(solve_run(options, first, steps) == Some(finish_of(grid, Ok(report))));
                    }
                    return Ok(report);
                }
                if current_mode != SolveMode::first() && progress {
                    // Made progress: reset and try easy stuff first again.
                    allowed_failures = 10;
                }
                if current_mode != options.max_effort {
                    if !progress {
                        allowed_failures = allowed_failures - 1;
                    } else if allowed_failures < 10 {
                        allowed_failures = allowed_failures + 1;
                    }
                }
                proof {
                    let weight_after = total_weight(grid@, grid.width() as int);
                    let flags_after = open_flags(solve_lanes@, solve_lanes@.len() as int);
                    lemma_open_flags(solve_lanes@, solve_lanes@.len() as int);
                    lemma_rank_falls(
                        weight_before,
                        weight_after,
                        lane_count,
                        flags_before,
                        flags_after,
                        budget_before,
                        allowed_failures as int,
                        progress,
                    );
                    let there = state_of(grid, solve_lanes@, solve_counts, allowed_failures);
                    assert(allowed_failures as int == budget_after(
                        options,
                        here.budget,
                        current_mode,
                        progress,
                    ));
                    assert(step == Outcome::Next(there));
                    assert forall|f: nat|
                        solve_run(options, first, steps + 1 + f) == #[trigger] solve_run(
                            options,
                            there,
                            f,
                        ) by {
                        assert(solve_run(options, first, steps + (1 + f) as nat) == solve_run(
                            options,
                            here,
                            (1 + f) as nat,
                        ));
                    }
                    steps = steps + 1;
                }
            },
        }
    }
}

/// The cell can have exactly the colors of the palette that can stand in a
/// cell.
pub open spec fn full_cell(palette: Map<u8, ColorInfo>, cell: Cell) -> bool {
    forall|c: Color| #[trigger] cell.can(c) <==> c.fits_cell() && palette.contains_key(c.0)
}

/// The grid is of the puzzle's size, and each of its cells can have every
/// color of the palette.
pub open spec fn full_grid<C: Clue>(puzzle: &Puzzle<C>, grid: &Grid) -> bool {
    &&& grid.height() == puzzle.rows@.len()
    &&& grid.width() == puzzle.cols@.len()
    &&& rectangular(grid@, grid.width())
    &&& forall|y: int, x: int|
        0 <= y < grid.height() && 0 <= x < grid.width() ==> full_cell(
            puzzle.palette@,
            #[trigger] grid@[y][x],
        )
}

/// A grid of the puzzle's size can be held in memory.
pub open spec fn fits_memory<C: Clue>(puzzle: &Puzzle<C>) -> bool {
    puzzle.rows@.len() * puzzle.cols@.len() * 4 <= isize::MAX
}

/// What a solve of the puzzle from the full grid has returned: a puzzle that
/// cannot be solved on, or whose grid cannot be held in memory, is refused;
/// otherwise the solve began with a full grid and returned what `solve_post`
/// says.
pub open spec fn solved_from_full<C: Clue>(
    puzzle: &Puzzle<C>,
    options: &SolveOptions,
    solved: Result<Report, SolveError>,
) -> bool {
    if !puzzle_ok(puzzle) || !fits_memory(puzzle) {
        solved matches Err(e) && e == SolveError::IllFormedPuzzle
    } else {
        exists|start: Grid, end: Grid|
            full_grid(puzzle, &start) && solve_post(puzzle, options, &start, &end, solved)
    }
}

/// The report of a solve from the full grid shows a picture of the puzzle's
/// size.
pub proof fn lemma_report_size<C: Clue>(puzzle: &Puzzle<C>, options: &SolveOptions, report: Report)
    requires
        solved_from_full(puzzle, options, Ok(report)),
    ensures
        1 <= puzzle.rows@.len() <= 0x7FFF,
        1 <= puzzle.cols@.len() <= 0x7FFF,
        report.solution.grid@.len() == puzzle.cols@.len(),
        forall|x: int|
            0 <= x < puzzle.cols@.len() ==> (#[trigger] report.solution.grid@[x])@.len()
                == puzzle.rows@.len(),
{
    let (start, end) = choose|start: Grid, end: Grid|
        full_grid(puzzle, &start) && solve_post(puzzle, options, &start, &end, Ok(report));
    assert(reports(puzzle, &end, &report));
}

/// Solves the puzzle from the grid in which every cell can have every color
/// of the palette.
pub fn solve<C: Clue>(
    puzzle: &Puzzle<C>,
    line_cache: &mut Option<LineCache<C>>,
    options: &SolveOptions,
) -> (solved: Result<Report, SolveError>)
    requires
        cache_ok(*old(line_cache)),
    ensures
        *final(line_cache) is Some == *old(line_cache) is Some,
        cache_ok(*final(line_cache)),
        solved_from_full(puzzle, options, solved),
{
    if !check_puzzle(puzzle) {
        return Err(SolveError::IllFormedPuzzle);
    }
    let height = puzzle.rows.len();
    let width = puzzle.cols.len();
    proof {
        assert(height * width <= 0x7FFF * 0x7FFF) by (nonlinear_arith)
            requires
                0 <= height <= 0x7FFF,
                0 <= width <= 0x7FFF,
        ;
    }
    let bytes: u64 = (height as u64) * (width as u64) * 4;
    if bytes > isize::MAX as u64 {
        return Err(SolveError::IllFormedPuzzle);
    }
    let full = Cell::new(puzzle);
    let mut grid = Grid::from_elem((height, width), full);
    let ghost start = grid;
    proof {
        assert(full_cell(puzzle.palette@, full));
        assert forall|y: int, x: int| 0 <= y < grid.height() && 0 <= x < grid.width() implies full_cell(
            puzzle.palette@,
            #[trigger] grid@[y][x],
        ) by {
            assert(grid@[y][x] == full);
        }
        assert(full_grid(puzzle, &start));
    }
    let solved = solve_grid(puzzle, line_cache, options, &mut grid);
    proof {
        assert(solve_post(puzzle, options, &start, &grid, solved));
    }
    solved
}

/// What the lane has to offer: skimming if it changes a cell; else
/// scrubbing if it does; else nothing. Of a lane on which the mode that is
/// tried fails, the error is told.
pub open spec fn line_offer(line: Line, lane: Seq<Cell>) -> LineStatus {
    match skim_result(line, lane) {
        Err(e) => Err(e),
        Ok(skimmed) => if skimmed != lane {
            Ok(Some(SolveMode::Skim))
        } else {
            match scrubbed(line, lane) {
                Err(e) => Err(e),
                Ok(scrubbed) => if scrubbed != lane {
                    Ok(Some(SolveMode::Scrub))
                } else {
                    Ok(None)
                },
            }
        },
    }
}

/// What the status says of the lane: it is what the lane has to offer. An
/// error says besides that the lane allows no arrangement of the clues.
pub open spec fn status_holds<C: Clue>(clues: Seq<C>, lane: Seq<Cell>, status: LineStatus) -> bool {
    &&& status == line_offer(line_of(clues), lane)
    &&& status is Err ==> line_of(clues).refuted(lane)
}

/// A deduction that marks no change has left the lane as it was.
proof fn lemma_unchanged(before: Seq<Cell>, after: Seq<Cell>, affected: Seq<usize>)
    requires
        after.len() == before.len(),
        before.len() <= usize::MAX,
        marks_changes(before, after, affected),
    ensures
        affected.len() == 0 <==> after == before,
{
    if affected.len() == 0 {
        assert forall|i: int| 0 <= i < before.len() implies after[i] == before[i] by {
            if after[i] != before[i] {
                assert(affected.contains(i as usize));
            }
        }
        assert(after =~= before);
    } else {
        assert(affected.contains(affected[0]));
    }
}

/// Tells what the line has to offer as it stands, without changing it:
/// skimming is tried on a copy, and scrubbing on another if skimming changes
/// nothing.
pub fn analyze_line<C: Clue>(clues: &[C], lane: &Vec<Cell>) -> (status: LineStatus)
    requires
        clues_well_formed(clues@),
    ensures
        status_holds(clues@, lane@, status),
        (exists|p: Seq<int>| line_of(clues@).is_arrangement(lane@, p)) ==> status is Ok,
{
    // Try skimming
    let ghost line = line_of(clues@);
    let len = lane.len();
    let mut skim_lane = copy_lane(lane);
    let skimmed = match skim_line(clues, &mut skim_lane) {
        Err(e) => {
            return Err(e);
        },
        Ok(report) => report,
    };
    proof {
        let chosen = choose|result: Seq<Cell>| line.skim_gives(lane@, result);
        line.lemma_skim_unique(lane@, chosen, skim_lane@);
        assert(skim_result(line, lane@) == Ok::<Seq<Cell>, SolveError>(skim_lane@));
        lemma_unchanged(lane@, skim_lane@, skimmed.affected_cells@);
    }
    if skimmed.affected_cells.len() > 0 {
        return Ok(Some(SolveMode::Skim));
    }
    // Try scrubbing
    let mut scrub_lane = copy_lane(lane);
    let scrubbed = match scrub_line(clues, &mut scrub_lane) {
        Err(e) => {
            return Err(e);
        },
        Ok(report) => report,
    };
    proof {
        lemma_unchanged(lane@, scrub_lane@, scrubbed.affected_cells@);
    }
    if scrubbed.affected_cells.len() > 0 {
        return Ok(Some(SolveMode::Scrub));
    }
    Ok(None)
}

/// The clues of all rows and columns of the puzzle are well formed, and the
/// grid is of the puzzle's size.
pub open spec fn analyzable<C: Clue>(puzzle: &Puzzle<C>, grid: &Grid) -> bool {
    &&& grid.height() == puzzle.rows@.len()
    &&& grid.width() == puzzle.cols@.len()
    &&& forall|y: int| 0 <= y < puzzle.rows@.len() ==> clues_well_formed((#[trigger] puzzle.rows@[y])@)
    &&& forall|x: int| 0 <= x < puzzle.cols@.len() ==> clues_well_formed((#[trigger] puzzle.cols@[x])@)
}

/// For every row, and for every column, what the line has to offer on the
/// grid as it stands.
pub fn analyze_lines<C: Clue>(puzzle: &Puzzle<C>, grid: &Grid) -> (statuses: (
    Vec<LineStatus>,
    Vec<LineStatus>,
))
    requires
        analyzable(puzzle, grid),
    ensures
        statuses.0@.len() == puzzle.rows@.len(),
        statuses.1@.len() == puzzle.cols@.len(),
        forall|y: int|
            0 <= y < puzzle.rows@.len() ==> status_holds(
                puzzle.rows@[y]@,
                lane_of(grid@, true, y),
                #[trigger] statuses.0@[y],
            ),
        forall|x: int|
            0 <= x < puzzle.cols@.len() ==> status_holds(
                puzzle.cols@[x]@,
                lane_of(grid@, false, x),
                #[trigger] statuses.1@[x],
            ),
{
    let mut row_techniques: Vec<LineStatus> = Vec::new();
    let mut idx: usize = 0;
    while idx < puzzle.rows.len()
        invariant
            analyzable(puzzle, grid),
            idx <= puzzle.rows@.len(),
            row_techniques@.len() == idx,
            forall|y: int|
                0 <= y < idx ==> status_holds(
                    puzzle.rows@[y]@,
                    lane_of(grid@, true, y),
                    #[trigger] row_techniques@[y],
                ),
        decreases puzzle.rows@.len() - idx,
    {
        let lane = grid.lane(true, idx);
        row_techniques.push(analyze_line(puzzle.rows[idx].as_slice(), &lane));
        idx = idx + 1;
    }

    let mut col_techniques: Vec<LineStatus> = Vec::new();
    let mut idx: usize = 0;
    while idx < puzzle.cols.len()
        invariant
            analyzable(puzzle, grid),
            idx <= puzzle.cols@.len(),
            col_techniques@.len() == idx,
            forall|x: int|
                0 <= x < idx ==> status_holds(
                    puzzle.cols@[x]@,
                    lane_of(grid@, false, x),
                    #[trigger] col_techniques@[x],
                ),
        decreases puzzle.cols@.len() - idx,
    {
        let lane = grid.lane(false, idx);
        col_techniques.push(analyze_line(puzzle.cols[idx].as_slice(), &lane));
        idx = idx + 1;
    }

    (row_techniques, col_techniques)
}

/// What settling the puzzle on the grid `start` has returned, with the grid
/// left as `end`: as a solve, but without its report.
pub open spec fn settled<C: Clue>(
    puzzle: &Puzzle<C>,
    start: &Grid,
    end: &Grid,
    outcome: Result<(), SolveError>,
) -> bool {
    exists|solved: Result<Report, SolveError>|
        #[trigger] solve_post(puzzle, &default_options(), start, end, solved) && match outcome {
            Ok(()) => solved is Ok,
            Err(e) => solved matches Err(f) && f == e,
        }
}

/// Solves on the grid as far as the modes get, and leaves in the grid what
/// was found.
pub fn settle_solution<C: Clue>(puzzle: &Puzzle<C>, grid: &mut Grid) -> (outcome: Result<
    (),
    SolveError,
>)
    ensures
        settled(puzzle, old(grid), final(grid), outcome),
{
    let mut no_cache: Option<LineCache<C>> = None;
    let solved = solve_grid(puzzle, &mut no_cache, &SolveOptions::default(), grid);
    match solved {
        Ok(_) => Ok(()),
        Err(e) => Err(e),
    }
}

/// The cell that a color of a picture stands for: known to be that color, or,
/// for `unsolved()`, the given cell.
pub open spec fn seeded(color: Color, unknown: Cell, cell: Cell) -> bool {
    if color == unsolved() {
        cell == unknown
    } else {
        cell.known_to_be(color)
    }
}

/// The picture can be the seed of a grid: it has a column, all its columns
/// are of one length, neither they nor their number are more than 32767, and
/// every color in it can stand in a cell or is `unsolved()`.
pub open spec fn seedable(solution: &Solution) -> bool {
    &&& solution.well_formed()
    &&& solution.width() <= 0x7FFF
    &&& solution.height() <= 0x7FFF
    &&& solution.width() * solution.height() * 4 <= isize::MAX
    &&& forall|x: int, y: int|
        0 <= x < solution.width() && 0 <= y < solution.height() ==> (#[trigger] solution.color(
            x,
            y,
        )).fits_cell() || solution.color(x, y) == unsolved()
}

/// The grid that the picture stands for, column by column: its first index
/// is that of the column. A cell that is not solved can have every color of
/// the puzzle's palette.
pub fn grid_from_solution<C: Clue>(solution: &Solution, puzzle: &Puzzle<C>) -> (grid: Grid)
    requires
        seedable(solution),
    ensures
        grid.height() == solution.width(),
        grid.width() == solution.height(),
        rectangular(grid@, grid.width()),
        exists|full: Cell|
            #[trigger] full_cell(puzzle.palette@, full) && forall|x: int, y: int|
                0 <= x < solution.width() && 0 <= y < solution.height() ==> seeded(
                    solution.color(x, y),
                    full,
                    #[trigger] grid@[x][y],
                ),
{
    let x_size = solution.x_size();
    let y_size = solution.y_size();
    let full = Cell::new(puzzle);
    let mut grid = Grid::from_elem((x_size, y_size), Cell::new_impossible());
    let mut x: usize = 0;
    while x < x_size
        invariant
            seedable(solution),
            x_size == solution.width(),
            y_size == solution.height(),
            grid.height() == x_size,
            grid.width() == y_size,
            rectangular(grid@, grid.width()),
            x <= x_size,
            forall|i: int, j: int|
                0 <= i < x && 0 <= j < y_size ==> seeded(solution.color(i, j), full, #[trigger] grid@[i][j]),
        decreases x_size - x,
    {
        let mut y: usize = 0;
        while y < y_size
            invariant
                seedable(solution),
                x_size == solution.width(),
                y_size == solution.height(),
                grid.height() == x_size,
                grid.width() == y_size,
                rectangular(grid@, grid.width()),
                x < x_size,
                y <= y_size,
                forall|i: int, j: int|
                    0 <= i < x && 0 <= j < y_size ==> seeded(
                        solution.color(i, j),
                        full,
                        #[trigger] grid@[i][j],
                    ),
                forall|j: int|
                    0 <= j < y ==> seeded(solution.color(x as int, j), full, #[trigger] grid@[x as int][j]),
            decreases y_size - y,
        {
            assert(solution.grid@[x as int]@.len() == solution.grid@[0]@.len());
            let color = solution.grid[x][y];
            let ghost before = grid@;
            assert(solution.color(x as int, y as int) == color);
            if color == unsolved() {
                grid.set(x, y, full);
            } else {
                grid.set(x, y, Cell::from_color(color));
            }
            proof {
                assert forall|i: int| 0 <= i < grid@.len() implies (#[trigger] grid@[i]).len()
                    == grid.width() by {
                    assert(before[i].len() == grid.width());
                }
                assert forall|i: int, j: int| 0 <= i < x && 0 <= j < y_size implies seeded(
                    solution.color(i, j),
                    full,
                    #[trigger] grid@[i][j],
                ) by {
                    assert(grid@[i] == before[i]);
                    assert(seeded(solution.color(i, j), full, before[i][j]));
                }
                assert forall|j: int| 0 <= j < y + 1 implies seeded(
                    solution.color(x as int, j),
                    full,
                    #[trigger] grid@[x as int][j],
                ) by {
                    if j < y {
                        assert(seeded(solution.color(x as int, j), full, before[x as int][j]));
                    }
                }
            }
            y = y + 1;
        }
        x = x + 1;
    }
    proof {
        assert(full_cell(puzzle.palette@, full));
    }
    grid
}

} // verus!
