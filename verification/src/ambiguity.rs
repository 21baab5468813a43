//! How near a picture is to having clues that only it solves: for each cell,
//! the color that, put in its place, leaves the solver the fewest cells open.
//!
//! The library scores one cell at a time and says what is due between two
//! cells. The program around it runs the loop, sends the progress on, and
//! asks whether to stop.

use crate::grid_solve::{default_options, Report};
use crate::import::{colors_in_palette, nono_puzzle_of, triano_puzzle_of};
use crate::line_solve::SolveError;
use crate::puzzle::{
    background, ClueStyle, Color, DynPuzzle, DynSolveCache, PuzzleDynOps, Solution,
};
use vstd::prelude::*;

verus! {

/// The puzzle is the one that is made of the picture.
pub open spec fn puzzle_of(solution: &Solution, puzzle: &DynPuzzle) -> bool {
    match puzzle {
        DynPuzzle::Nono(p) => solution.clue_style == ClueStyle::Nono && nono_puzzle_of(solution, p),
        DynPuzzle::Triano(p) => solution.clue_style == ClueStyle::Triano && triano_puzzle_of(
            solution,
            p,
        ),
    }
}

/// `altered` is `solution` with the color `color` at `(x, y)`.
pub open spec fn alters(solution: &Solution, x: int, y: int, color: Color, altered: &Solution) -> bool {
    &&& altered.clue_style == solution.clue_style
    &&& altered.palette@ == solution.palette@
    &&& altered.grid@.len() == solution.grid@.len()
    &&& forall|i: int|
        0 <= i < solution.grid@.len() ==> (#[trigger] altered.grid@[i])@ == if i == x {
            solution.grid@[i]@.update(y, color)
        } else {
            solution.grid@[i]@
        }
}

/// What solving the puzzle of the picture has returned.
pub open spec fn picture_solved(solution: &Solution, solved: Result<Report, SolveError>) -> bool {
    exists|puzzle: DynPuzzle| #[trigger]
        puzzle_of(solution, &puzzle) && puzzle.solved(&default_options(), solved)
}

/// What solving the puzzle of the picture with the color `color` at
/// `(x, y)` has returned.
pub open spec fn alternative_solved(
    solution: &Solution,
    x: int,
    y: int,
    color: Color,
    solved: Result<Report, SolveError>,
) -> bool {
    exists|altered: Solution| #[trigger]
        alters(solution, x, y, color, &altered) && picture_solved(&altered, solved)
}

/// The number of cells that the solver leaves open in the puzzle of the
/// picture as it is: what the scores of the alternatives are measured by.
pub fn baseline_unsolved(solution: &Solution, cache: &mut DynSolveCache) -> (baseline: Result<
    usize,
    SolveError,
>)
    requires
        solution.turns_puzzle(),
        old(cache).wf(),
    ensures
        final(cache).wf(),
        exists|solved: Result<Report, SolveError>| #[trigger]
            picture_solved(solution, solved) && match baseline {
                Ok(cells_left) => solved is Ok && solved->Ok_0.cells_left == cells_left,
                Err(e) => solved matches Err(f) && f == e,
            },
{
    let puzzle = solution.to_puzzle();
    let solved = cache.solve(&puzzle);
    proof {
        assert(puzzle_of(solution, &puzzle) && puzzle.solved(&default_options(), solved));
        assert(picture_solved(solution, solved));
    }
    match solved {
        Ok(report) => Ok(report.cells_left),
        Err(e) => Err(e),
    }
}

/// A copy of the picture with the color `color` at `(x, y)`.
pub fn alter(solution: &Solution, x: usize, y: usize, color: Color) -> (altered: Solution)
    requires
        x < solution.grid@.len(),
        y < solution.grid@[x as int]@.len(),
    ensures
        alters(solution, x as int, y as int, color, &altered),
{
    let mut grid: Vec<Vec<Color>> = Vec::new();
    let mut i: usize = 0;
    while i < solution.grid.len()
        invariant
            x < solution.grid@.len(),
            y < solution.grid@[x as int]@.len(),
            i <= solution.grid@.len(),
            grid@.len() == i,
            forall|k: int|
                0 <= k < i ==> (#[trigger] grid@[k])@ == if k == x {
                    solution.grid@[k]@.update(y as int, color)
                } else {
                    solution.grid@[k]@
                },
        decreases solution.grid@.len() - i,
    {
        let mut column: Vec<Color> = Vec::new();
        let mut j: usize = 0;
        while j < solution.grid[i].len()
            invariant
                i < solution.grid@.len(),
                j <= solution.grid@[i as int]@.len(),
                column@.len() == j,
                forall|k: int| 0 <= k < j ==> column@[k] == solution.grid@[i as int]@[k],
            decreases solution.grid@[i as int]@.len() - j,
        {
            column.push(solution.grid[i][j]);
            j = j + 1;
        }
        assert(column@ =~= solution.grid@[i as int]@);
        if i == x {
            column[y] = color;
        }
        grid.push(column);
        i = i + 1;
    }
    Solution { clue_style: solution.clue_style, palette: solution.palette.clone(), grid }
}

/// What came of the alternatives for one cell: of the colors tried so far
/// whose puzzle could be solved on, `color` left the fewest cells open,
/// `unsolved_after` of them, and came first among those that left as few.
/// Where no color was tried, the color is the background and the count the
/// greatest number.
pub struct Candidate {
    pub color: Color,
    pub unsolved_after: usize,
}

/// The candidate is the best of the colors below `upto`: each of them that is
/// in the palette and is not the color of the cell was tried, and none of those
/// that were solved left fewer cells open than the candidate, nor as few
/// before it; and the candidate's color, if any was solved, left as many as
/// the candidate says.
pub open spec fn best_below(
    solution: &Solution,
    x: int,
    y: int,
    upto: int,
    candidate: Candidate,
    outcomes: Map<u8, Result<Report, SolveError>>,
) -> bool {
    &&& forall|c: u8|
        c < upto && solution.palette@.contains_key(c) && Color(c) != solution.color(x, y) ==> {
            &&& #[trigger] outcomes.contains_key(c)
            &&& alternative_solved(solution, x, y, Color(c), outcomes[c])
            &&& outcomes[c] is Ok ==> {
                &&& candidate.unsolved_after <= outcomes[c]->Ok_0.cells_left
                &&& c < candidate.color.0 ==> candidate.unsolved_after < outcomes[c]->Ok_0.cells_left
            }
        }
    &&& if candidate.unsolved_after == usize::MAX {
        candidate.color == background()
    } else {
        &&& candidate.color.0 < upto
        &&& solution.palette@.contains_key(candidate.color.0)
        &&& candidate.color != solution.color(x, y)
        &&& outcomes.contains_key(candidate.color.0)
        &&& outcomes[candidate.color.0] is Ok
        &&& outcomes[candidate.color.0]->Ok_0.cells_left == candidate.unsolved_after
    }
}

/// Tries every other color of the palette in the place of the cell at
/// `(x, y)`, from the lowest on, and solves the puzzle of each picture. A
/// picture whose puzzle cannot be solved is passed over.
pub fn best_alternative(solution: &Solution, x: usize, y: usize, cache: &mut DynSolveCache) -> (best:
    Candidate)
    requires
        solution.turns_puzzle(),
        x < solution.width(),
        y < solution.height(),
        old(cache).wf(),
    ensures
        final(cache).wf(),
        exists|outcomes: Map<u8, Result<Report, SolveError>>|
            best_below(solution, x as int, y as int, 256, best, outcomes),
{
    broadcast use vstd::std_specs::hash::group_hash_axioms;

    assert(solution.grid@[x as int]@.len() == solution.grid@[0]@.len());
    let current = solution.grid[x][y];
    let mut best = Candidate { color: background(), unsolved_after: usize::MAX };
    let ghost mut outcomes: Map<u8, Result<Report, SolveError>> = Map::empty();
    let mut next: u16 = 0;
    while next < 256
        invariant
            solution.turns_puzzle(),
            x < solution.width(),
            y < solution.height(),
            current == solution.color(x as int, y as int),
            cache.wf(),
            next <= 256,
            best_below(solution, x as int, y as int, next as int, best, outcomes),
        decreases 256 - next,
    {
        let c = next as u8;
        let ghost before = outcomes;
        let ghost best_before = best;
        if solution.palette.contains_key(&c) && Color(c) != current {
            let altered = alter(solution, x, y, Color(c));
            proof {
                lemma_altered_turns(solution, x as int, y as int, Color(c), &altered);
            }
            let puzzle = altered.to_puzzle();
            let solved = cache.solve(&puzzle);
            proof {
                assert(puzzle_of(&altered, &puzzle) && puzzle.solved(&default_options(), solved));
                assert(picture_solved(&altered, solved));
                assert(alters(solution, x as int, y as int, Color(c), &altered));
                assert(alternative_solved(solution, x as int, y as int, Color(c), solved));
                outcomes = outcomes.insert(c, solved);
            }
            match solved {
                Ok(report) => {
                    if report.cells_left < best.unsolved_after {
                        best = Candidate { color: Color(c), unsolved_after: report.cells_left };
                    }
                },
                Err(_) => {},
            }
        }
        proof {
            assert forall|d: u8|
                d < next + 1 && solution.palette@.contains_key(d) && Color(d) != solution.color(
                    x as int,
                    y as int,
                ) implies {
                &&& #[trigger] outcomes.contains_key(d)
                &&& alternative_solved(solution, x as int, y as int, Color(d), outcomes[d])
                &&& outcomes[d] is Ok ==> {
                    &&& best.unsolved_after <= outcomes[d]->Ok_0.cells_left
                    &&& d < best.color.0 ==> best.unsolved_after < outcomes[d]->Ok_0.cells_left
                }
            } by {
                if d < c {
                    assert(before.contains_key(d));
                    assert(outcomes[d] == before[d]);
                    assert(before[d] is Ok ==> best_before.unsolved_after
                        <= before[d]->Ok_0.cells_left);
                }
            }
            if best.unsolved_after != usize::MAX {
                if best.color == best_before.color && best.unsolved_after
                    == best_before.unsolved_after {
                    assert(before.contains_key(best.color.0));
                    assert(outcomes[best.color.0] == before[best.color.0]);
                }
            }
            assert(best_below(solution, x as int, y as int, next + 1, best, outcomes));
        }
        next = next + 1;
    }
    best
}

/// A picture that can be turned into a puzzle can still be with one cell of
/// another color of its palette.
proof fn lemma_altered_turns(solution: &Solution, x: int, y: int, color: Color, altered: &Solution)
    requires
        solution.turns_puzzle(),
        0 <= x < solution.width(),
        0 <= y < solution.height(),
        solution.palette@.contains_key(color.0),
        alters(solution, x, y, color, altered),
    ensures
        altered.turns_puzzle(),
{
    assert forall|i: int| 0 <= i < altered.grid@.len() implies (#[trigger] altered.grid@[i])@.len()
        == altered.grid@[0]@.len() by {
        assert(solution.grid@[i]@.len() == solution.grid@[0]@.len());
        assert(altered.grid@[0]@.len() == solution.grid@[0]@.len());
    }
    if altered.clue_style == ClueStyle::Triano {
        assert forall|i: int, j: int|
            0 <= i < altered.grid@.len() && 0 <= j < altered.grid@[i]@.len() implies altered.palette@.contains_key(
            (#[trigger] altered.color(i, j)).0,
        ) by {
            if !(i == x && j == y) {
                assert(altered.color(i, j) == solution.color(i, j));
            }
        }
    }
}

/// What is due when the cell at `(x, y)` was scored.
#[derive(Clone, Copy, Debug, PartialEq, Eq)]
pub struct ScorerStep {
    /// The progress to send on before anything else: so many cells of so many.
    pub progress: Option<(usize, usize)>,
    /// The cell to score next, if the scoring goes on.
    pub next: Option<(usize, usize)>,
    /// Whether every cell was scored: then the progress is at its end.
    pub complete: bool,
}

/// The cell that comes after `(x, y)` when the cells are taken column by
/// column, each from the top down.
pub open spec fn cell_after(x: int, y: int, x_size: int, y_size: int) -> Option<(usize, usize)> {
    if y + 1 < y_size {
        Some((x as usize, (y + 1) as usize))
    } else if x + 1 < x_size {
        Some(((x + 1) as usize, 0usize))
    } else {
        None
    }
}

/// What is due when the cell at `(x, y)` of a picture of `x_size` columns
/// and `y_size` rows was scored: progress is sent on for every fifth cell of a
/// column, as the number of cells before this one; then the scoring stops if
/// it was asked to, and goes on with the next cell if there is one.
pub fn after_cell(x: usize, y: usize, x_size: usize, y_size: usize, cancelled: bool) -> (step:
    ScorerStep)
    requires
        x < x_size,
        y < y_size,
        x_size * y_size <= usize::MAX,
    ensures
        step.progress == if y % 5 == 0 {
            Some(((x * y_size + y) as usize, (x_size * y_size) as usize))
        } else {
            None
        },
        step.next == if cancelled {
            None
        } else {
            cell_after(x as int, y as int, x_size as int, y_size as int)
        },
        step.complete == (!cancelled && cell_after(x as int, y as int, x_size as int, y_size as int)
            is None),
{
    proof {
        assert(x * y_size + y < x_size * y_size) by (nonlinear_arith)
            requires
                x < x_size,
                y < y_size,
        ;
        assert(x * y_size <= x_size * y_size) by (nonlinear_arith)
            requires
                x < x_size,
                0 <= y_size,
        ;
    }
    let progress = if y % 5 == 0 {
        Some((x * y_size + y, x_size * y_size))
    } else {
        None
    };
    let next = if cancelled {
        None
    } else if y + 1 < y_size {
        Some((x, y + 1))
    } else if x + 1 < x_size {
        Some((x + 1, 0))
    } else {
        None
    };
    ScorerStep { progress, next, complete: !cancelled && next.is_none() }
}

} // verus!
