//! The solve of a whole grid as a function: what one step makes of the grid,
//! the lanes, the counts and the budget, and what a run of steps ends with.
//! The solver is proved to do exactly this, so that a solve is seen to depend
//! on nothing but the puzzle, the options and the grid that it starts with.

use crate::arrangement::{line_of, Line};
use crate::grid::{lane_of, with_lane};
use crate::grid_solve::{rescored, PerModeLaneState, SolveOptions};
use crate::line_solve::{Cell, ModeMap, SolveError, SolveMode};
use crate::measure::total_unknown;
use crate::puzzle::{Clue, Color, Puzzle};
use vstd::prelude::*;

verus! {

/// What is known of a lane: its clues, where it lies, and its state for
/// either mode.
pub struct LaneView<C> {
    pub clues: Seq<C>,
    pub row: bool,
    pub index: int,
    pub skim: PerModeLaneState,
    pub scrub: PerModeLaneState,
}

impl<C: Clue> LaneView<C> {
    pub open spec fn state(self, mode: SolveMode) -> PerModeLaneState {
        match mode {
            SolveMode::Skim => self.skim,
            SolveMode::Scrub => self.scrub,
        }
    }

    /// The lane scored for the first time, on its cells.
    pub open spec fn fresh(clues: Seq<C>, row: bool, index: int, lane: Seq<Cell>) -> LaneView<C> {
        let blank = PerModeLaneState { processed: false, score: 0, processed_score: 0 };
        LaneView {
            clues,
            row,
            index,
            skim: rescored(blank, clues, lane, false, SolveMode::Skim),
            scrub: rescored(blank, clues, lane, false, SolveMode::Scrub),
        }
    }

    /// The lane after the mode was run on it, scored anew on its cells.
    pub open spec fn ran(self, mode: SolveMode, lane: Seq<Cell>) -> LaneView<C> {
        LaneView {
            skim: rescored(
                PerModeLaneState {
                    processed: self.skim.processed || mode == SolveMode::Skim,
                    ..self.skim
                },
                self.clues,
                lane,
                true,
                SolveMode::Skim,
            ),
            scrub: rescored(
                PerModeLaneState {
                    processed: self.scrub.processed || mode == SolveMode::Scrub,
                    ..self.scrub
                },
                self.clues,
                lane,
                true,
                SolveMode::Scrub,
            ),
            ..self
        }
    }

    /// The lane after a lane that crosses it changed at their common cell:
    /// scored anew on its cells, with both modes to be run again.
    pub open spec fn woken(self, lane: Seq<Cell>) -> LaneView<C> {
        LaneView {
            skim: PerModeLaneState {
                processed: false,
                ..rescored(self.skim, self.clues, lane, false, SolveMode::Skim)
            },
            scrub: PerModeLaneState {
                processed: false,
                ..rescored(self.scrub, self.clues, lane, false, SolveMode::Scrub)
            },
            ..self
        }
    }
}

/// The lane that comes first among those that the mode was not run on, that
/// promise more than nothing, and that no other such lane promises more than.
pub open spec fn is_best<C: Clue>(lanes: Seq<LaneView<C>>, mode: SolveMode, best: int) -> bool {
    &&& 0 <= best < lanes.len()
    &&& !lanes[best].state(mode).processed
    &&& lanes[best].state(mode).effective() > i32::MIN
    &&& forall|j: int|
        0 <= j < lanes.len() && !(#[trigger] lanes[j]).state(mode).processed ==> {
            &&& lanes[j].state(mode).effective() <= lanes[best].state(mode).effective()
            &&& j < best ==> lanes[j].state(mode).effective() < lanes[best].state(mode).effective()
        }
}

/// The lane to run the mode on next, if there is one.
pub open spec fn best_lane<C: Clue>(lanes: Seq<LaneView<C>>, mode: SolveMode) -> Option<int> {
    if exists|best: int| is_best(lanes, mode, best) {
        Some(choose|best: int| is_best(lanes, mode, best))
    } else {
        None
    }
}

/// There is only one best lane.
pub proof fn lemma_best_unique<C: Clue>(lanes: Seq<LaneView<C>>, mode: SolveMode, a: int, b: int)
    requires
        is_best(lanes, mode, a),
        is_best(lanes, mode, b),
    ensures
        a == b,
{
    if a < b {
        assert(lanes[a].state(mode).effective() < lanes[b].state(mode).effective());
        assert(lanes[b].state(mode).effective() <= lanes[a].state(mode).effective());
    }
    if b < a {
        assert(lanes[b].state(mode).effective() < lanes[a].state(mode).effective());
        assert(lanes[a].state(mode).effective() <= lanes[b].state(mode).effective());
    }
}

/// What skimming makes of the lane, or the error that it fails with.
pub open spec fn skim_result(line: Line, lane: Seq<Cell>) -> Result<Seq<Cell>, SolveError> {
    if line.skim_ok(lane) {
        Ok(choose|result: Seq<Cell>| line.skim_gives(lane, result))
    } else {
        Err(line.skim_error(lane))
    }
}

/// What scrubbing makes of the lane, or the error that it fails with: a cell
/// is contradicted.
pub open spec fn scrubbed(line: Line, lane: Seq<Cell>) -> Result<Seq<Cell>, SolveError> {
    match line.scrub_result(lane) {
        Some(result) => Ok(result),
        None => Err(SolveError::Contradiction),
    }
}

/// The lane with every cell put back to what it was that a deduction did
/// not make known to be of the color.
pub open spec fn filtered(orig: Seq<Cell>, new: Seq<Cell>, color: Color) -> Seq<Cell> {
    Seq::new(
        orig.len(),
        |i: int|
            if new[i].known_to_be(color) {
                new[i]
            } else {
                orig[i]
            },
    )
}

/// What a run of the mode makes of the lane, with only the cells kept that
/// became known to be of the one color where one is asked for; or the error
/// that the mode fails with.
pub open spec fn deduced(line: Line, lane: Seq<Cell>, mode: SolveMode, only: Option<Color>) -> Result<
    Seq<Cell>,
    SolveError,
> {
    let made = match mode {
        SolveMode::Skim => skim_result(line, lane),
        SolveMode::Scrub => scrubbed(line, lane),
    };
    match (made, only) {
        (Err(e), _) => Err(e),
        (Ok(new), None) => Ok(new),
        (Ok(new), Some(color)) => Ok(filtered(lane, new, color)),
    }
}

/// All that a solve works on.
pub struct SolveState<C> {
    /// The cells of the grid, row by row.
    pub cells: Seq<Seq<Cell>>,
    /// The number of columns of the grid.
    pub width: int,
    /// The lanes: the rows first, then the columns.
    pub lanes: Seq<LaneView<C>>,
    /// How often each mode was run.
    pub counts: ModeMap<int>,
    /// How many failures skimming is still allowed.
    pub budget: int,
}

/// What a solve ends with: the cells of the grid, and the counts of the
/// runs or the error.
pub struct Finish {
    pub cells: Seq<Seq<Cell>>,
    pub counts: Result<ModeMap<int>, SolveError>,
}

/// What a step of a solve comes to.
pub enum Outcome<C> {
    /// The solve is at its end.
    Done(Finish),
    /// The solve goes on from this state.
    Next(SolveState<C>),
}

/// The mode that is due: skimming as long as it is allowed failures, then
/// the mode of the greatest effort.
pub open spec fn current_mode(options: &SolveOptions, budget: int) -> SolveMode {
    if budget > 0 {
        SolveMode::Skim
    } else {
        options.max_effort
    }
}

/// The counts with one more run of the mode.
pub open spec fn counted(counts: ModeMap<int>, mode: SolveMode) -> ModeMap<int> {
    match mode {
        SolveMode::Skim => ModeMap { skim: counts.skim + 1, ..counts },
        SolveMode::Scrub => ModeMap { scrub: counts.scrub + 1, ..counts },
    }
}

/// The budget after a run of the mode: a run of a mode other than the first
/// that changed something gives skimming all its failures back; then, unless
/// the mode is that of the greatest effort, a run that changed nothing costs
/// one failure, and one that changed something gives one back.
pub open spec fn budget_after(options: &SolveOptions, budget: int, mode: SolveMode, progress: bool) -> int {
    let reset = if mode != SolveMode::Skim && progress {
        10
    } else {
        budget
    };
    if mode != options.max_effort {
        if !progress {
            reset - 1
        } else if reset < 10 {
            reset + 1
        } else {
            reset
        }
    } else {
        reset
    }
}

/// The lanes after the mode was run on the lane `best`, which made `new` of
/// its cells `orig`: that lane is noted as processed and scored anew, and
/// every lane that crosses it at a cell that changed is woken.
pub open spec fn lanes_after<C: Clue>(
    lanes: Seq<LaneView<C>>,
    best: int,
    mode: SolveMode,
    cells: Seq<Seq<Cell>>,
    orig: Seq<Cell>,
    new: Seq<Cell>,
) -> Seq<LaneView<C>> {
    let row = lanes[best].row;
    Seq::new(
        lanes.len(),
        |j: int|
            {
                let lane = if j == best {
                    lanes[j].ran(mode, lane_of(cells, row, lanes[j].index))
                } else {
                    lanes[j]
                };
                if lane.row != row && 0 <= lane.index < orig.len() && new[lane.index]
                    != orig[lane.index] {
                    lane.woken(lane_of(cells, lane.row, lane.index))
                } else {
                    lane
                }
            },
    )
}

/// One step of a solve. The mode that is due is run on the best lane. Where
/// there is no such lane, the solve is at its end if the mode is that of the
/// greatest effort, and skimming has no failures left if it is not. Where the
/// mode fails, the solve ends with an error. Else the grid has the lane as the
/// mode made it; the solve is at its end if no cell is left, and goes on with
/// the lanes and the budget brought up to date if not.
pub open spec fn solve_step<C: Clue>(options: &SolveOptions, s: SolveState<C>) -> Outcome<C> {
    let mode = current_mode(options, s.budget);
    match best_lane(s.lanes, mode) {
        None => if mode.rank() >= options.max_effort.rank() {
            Outcome::Done(Finish { cells: s.cells, counts: Ok(s.counts) })
        } else {
            Outcome::Next(SolveState { budget: 0, ..s })
        },
        Some(best) => {
            let lane = s.lanes[best];
            let orig = lane_of(s.cells, lane.row, lane.index);
            match deduced(line_of(lane.clues), orig, mode, options.only_solve_color) {
                Err(e) => Outcome::Done(Finish { cells: s.cells, counts: Err(e) }),
                Ok(new) => {
                    let cells = with_lane(s.cells, lane.row, lane.index, new);
                    let counts = counted(s.counts, mode);
                    if total_unknown(cells, s.width) == 0 {
                        Outcome::Done(Finish { cells, counts: Ok(counts) })
                    } else {
                        Outcome::Next(
                            SolveState {
                                cells,
                                width: s.width,
                                lanes: lanes_after(s.lanes, best, mode, cells, orig, new),
                                counts,
                                budget: budget_after(options, s.budget, mode, new != orig),
                            },
                        )
                    }
                },
            }
        },
    }
}

/// What a solve that begins in the state `s` ends with, if it comes to its
/// end within `fuel` steps that go on.
pub open spec fn solve_run<C: Clue>(options: &SolveOptions, s: SolveState<C>, fuel: nat) -> Option<Finish>
    decreases fuel,
{
    match solve_step(options, s) {
        Outcome::Done(finish) => Some(finish),
        Outcome::Next(next) => if fuel == 0 {
            None
        } else {
            solve_run(options, next, (fuel - 1) as nat)
        },
    }
}

/// A solve that comes to an end comes to the same end however many steps it
/// is given.
pub proof fn lemma_run_unique<C: Clue>(options: &SolveOptions, s: SolveState<C>, a: nat, b: nat)
    requires
        solve_run(options, s, a) is Some,
        solve_run(options, s, b) is Some,
    ensures
        solve_run(options, s, a) == solve_run(options, s, b),
    decreases a,
{
    match solve_step(options, s) {
        Outcome::Done(_) => {},
        Outcome::Next(next) => {
            lemma_run_unique(options, next, (a - 1) as nat, (b - 1) as nat);
        },
    }
}

/// The state in which a solve of the puzzle begins on the cells: every lane
/// is scored for the first time, nothing is counted, and skimming is allowed
/// 10 failures.
pub open spec fn first_state<C: Clue>(puzzle: &Puzzle<C>, cells: Seq<Seq<Cell>>) -> SolveState<C> {
    let height = puzzle.rows@.len() as int;
    let width = puzzle.cols@.len() as int;
    SolveState {
        cells,
        width,
        lanes: Seq::new(
            (height + width) as nat,
            |i: int|
                if i < height {
                    LaneView::fresh(puzzle.rows@[i]@, true, i, lane_of(cells, true, i))
                } else {
                    LaneView::fresh(
                        puzzle.cols@[i - height]@,
                        false,
                        i - height,
                        lane_of(cells, false, i - height),
                    )
                },
        ),
        counts: ModeMap { skim: 0, scrub: 0 },
        budget: 10,
    }
}

/// What a solve of the puzzle that begins on the cells ends with.
pub open spec fn solve_ends<C: Clue>(
    puzzle: &Puzzle<C>,
    options: &SolveOptions,
    cells: Seq<Seq<Cell>>,
    finish: Finish,
) -> bool {
    exists|fuel: nat| #[trigger] solve_run(options, first_state(puzzle, cells), fuel) == Some(finish)
}

/// A solve of a puzzle that begins on the same cells with the same options
/// ends in the same way.
pub proof fn lemma_solve_ends_unique<C: Clue>(
    puzzle: &Puzzle<C>,
    options: &SolveOptions,
    cells: Seq<Seq<Cell>>,
    a: Finish,
    b: Finish,
)
    requires
        solve_ends(puzzle, options, cells, a),
        solve_ends(puzzle, options, cells, b),
    ensures
        a == b,
{
    let s = first_state(puzzle, cells);
    let fa = choose|fuel: nat| #[trigger] solve_run(options, s, fuel) == Some(a);
    let fb = choose|fuel: nat| #[trigger] solve_run(options, s, fuel) == Some(b);
    lemma_run_unique(options, s, fa, fb);
}

} // verus!
