//! What holds of the solver as a whole: a solve depends on nothing but the
//! puzzle, the options and the grid that it starts with, and solving the clues
//! of a picture never contradicts the picture. And what holds of the two
//! deductions on a line when one follows the other.

use crate::arrangement::{allows, clues_well_formed, line_of, Line};
use crate::grid::{rectangular, Grid};
use crate::grid_solve::{
    colors_listed, full_cell, full_grid, grid_allows, known_color, lemma_known_color, line_ok,
    masks_grid, no_picture, picture_column, pictures_kept, puzzle_ok, reports, shown_color,
    finish_of, shows_grid, solve_post, solved_from_full, solves, fits_memory, Report,
    SolveOptions,
};
use crate::import::{nono_clues, nono_puzzle_of};
use crate::line_solve::{lemma_narrowed_on, narrowed, Cell, SolveError};
use crate::measure::lemma_known_stays;
use crate::schedule::lemma_solve_ends_unique;
use crate::puzzle::{background, unsolved, Clue, Color, ColorInfo, Nono, Puzzle, Solution};
use vstd::prelude::*;

verus! {

/// Where each run of a line of colors begins: the starts of the clues that
/// describe the line.
pub open spec fn run_starts(colors: Seq<Color>) -> Seq<int>
    decreases colors.len(),
{
    if colors.len() == 0 {
        Seq::empty()
    } else {
        let before = run_starts(colors.drop_last());
        let c = colors.last();
        if c == background() {
            before
        } else if colors.len() > 1 && colors[colors.len() - 2] == c {
            before
        } else {
            before.push(colors.len() - 1)
        }
    }
}

/// Whether the clue `k` lies over cell `i` when the clues start at `p`.
pub open spec fn run_covers(clues: Seq<Nono>, p: Seq<int>, k: int, i: int) -> bool {
    0 <= k < clues.len() && p[k] <= i < p[k] + clues[k].count
}

/// The gap that clue `k` needs before it: one cell behind a clue of the same
/// color.
pub open spec fn run_gap(clues: Seq<Nono>, k: int) -> int {
    if k > 0 && clues[k - 1].color == clues[k].color {
        1
    } else {
        0
    }
}

/// The clues, starting at `p`, are the runs of the line: each covers cells of
/// its color, which is not the background; they stand in order, with a gap
/// between clues of one color; every cell that is not background lies under a
/// clue of its color, and no background cell lies under a clue; and a line that
/// does not end with background ends with its last clue.
pub open spec fn described(colors: Seq<Color>, clues: Seq<Nono>, p: Seq<int>) -> bool {
    &&& p.len() == clues.len()
    &&& forall|k: int|
        0 <= k < clues.len() ==> {
            &&& 1 <= (#[trigger] clues[k]).count
            &&& clues[k].color != background()
            &&& 0 <= p[k]
            &&& p[k] + clues[k].count <= colors.len()
            &&& colors[p[k]] == clues[k].color
            &&& k > 0 ==> p[k] >= p[k - 1] + clues[k - 1].count + run_gap(clues, k)
        }
    &&& forall|i: int|
        0 <= i < colors.len() && colors[i] != background() ==> exists|k: int| #[trigger]
            run_covers(clues, p, k, i) && clues[k].color == colors[i]
    &&& forall|i: int, k: int|
        0 <= i < colors.len() && colors[i] == background() ==> !#[trigger] run_covers(clues, p, k, i)
    &&& colors.len() > 0 && colors.last() != background() ==> clues.len() > 0 && p.last()
        + clues.last().count == colors.len()
}

/// The runs of a line begin one behind the other.
proof fn lemma_starts_rise(colors: Seq<Color>, clues: Seq<Nono>, p: Seq<int>, j: int, k: int)
    requires
        described(colors, clues, p),
        0 <= j < k < clues.len(),
    ensures
        p[k] >= p[j] + clues[j].count,
    decreases k - j,
{
    assert(1 <= clues[k - 1].count);
    assert(1 <= clues[k].count);
    if j < k - 1 {
        lemma_starts_rise(colors, clues, p, j, k - 1);
    }
}

/// The clue over a cell has the color of the cell.
proof fn lemma_cover_color(colors: Seq<Color>, clues: Seq<Nono>, p: Seq<int>, k: int, i: int)
    requires
        described(colors, clues, p),
        0 <= i < colors.len(),
        run_covers(clues, p, k, i),
    ensures
        clues[k].color == colors[i],
{
    assert(colors[i] != background());
    let j = choose|j: int| #[trigger] run_covers(clues, p, j, i) && clues[j].color == colors[i];
    if j < k {
        lemma_starts_rise(colors, clues, p, j, k);
    }
    if k < j {
        lemma_starts_rise(colors, clues, p, k, j);
    }
}

/// A background cell at the end of a line leaves the runs as they are.
proof fn lemma_described_blank(rest: Seq<Color>, clues: Seq<Nono>, p: Seq<int>)
    requires
        described(rest, clues, p),
    ensures
        described(rest.push(background()), clues, p),
{
    let colors = rest.push(background());
    assert forall|k: int| 0 <= k < clues.len() implies {
        &&& 1 <= (#[trigger] clues[k]).count
        &&& clues[k].color != background()
        &&& 0 <= p[k]
        &&& p[k] + clues[k].count <= colors.len()
        &&& colors[p[k]] == clues[k].color
        &&& k > 0 ==> p[k] >= p[k - 1] + clues[k - 1].count + run_gap(clues, k)
    } by {
        assert(1 <= clues[k].count);
        assert(rest[p[k]] == clues[k].color);
    }
    assert forall|i: int| 0 <= i < colors.len() && colors[i] != background() implies exists|k: int|
     #[trigger]
        run_covers(clues, p, k, i) && clues[k].color == colors[i] by {
        assert(rest[i] == colors[i]);
        let k = choose|k: int| #[trigger] run_covers(clues, p, k, i) && clues[k].color == rest[i];
        assert(run_covers(clues, p, k, i) && clues[k].color == colors[i]);
    }
    assert forall|i: int, k: int|
        0 <= i < colors.len() && colors[i] == background() implies !#[trigger] run_covers(
        clues,
        p,
        k,
        i,
    ) by {
        if i < rest.len() {
            assert(rest[i] == colors[i]);
            assert(!run_covers(clues, p, k, i));
        } else if 0 <= k < clues.len() {
            assert(1 <= clues[k].count);
        }
    }
}

/// A cell of the color of the cell before it makes the last run longer.
proof fn lemma_described_longer(rest: Seq<Color>, before: Seq<Nono>, p: Seq<int>, c: Color)
    requires
        described(rest, before, p),
        rest.len() > 0,
        rest.len() < 0xFFFF,
        rest.last() == c,
        c != background(),
    ensures
        before.len() > 0,
        described(
            rest.push(c),
            before.drop_last().push(Nono { color: c, count: (before.last().count + 1) as u16 }),
            p,
        ),
{
    let colors = rest.push(c);
    let n = before.len() as int;
    let last = Nono { color: c, count: (before.last().count + 1) as u16 };
    let clues = before.drop_last().push(last);
    assert(1 <= before[n - 1].count);
    assert(run_covers(before, p, n - 1, rest.len() - 1));
    lemma_cover_color(rest, before, p, n - 1, rest.len() - 1);
    assert(before[n - 1].color == c);
    assert forall|k: int| 0 <= k < clues.len() implies {
        &&& 1 <= (#[trigger] clues[k]).count
        &&& clues[k].color != background()
        &&& 0 <= p[k]
        &&& p[k] + clues[k].count <= colors.len()
        &&& colors[p[k]] == clues[k].color
        &&& k > 0 ==> p[k] >= p[k - 1] + clues[k - 1].count + run_gap(clues, k)
    } by {
        assert(1 <= before[k].count);
        assert(rest[p[k]] == before[k].color);
        if k < n - 1 {
            assert(clues[k] == before[k]);
        }
        if k > 0 {
            assert(clues[k - 1] == before[k - 1]);
            assert(p[k] >= p[k - 1] + before[k - 1].count + run_gap(before, k));
        }
    }
    assert forall|i: int| 0 <= i < colors.len() && colors[i] != background() implies exists|k: int|
     #[trigger]
        run_covers(clues, p, k, i) && clues[k].color == colors[i] by {
        if i == rest.len() {
            assert(run_covers(clues, p, n - 1, i) && clues[n - 1].color == colors[i]);
        } else {
            assert(rest[i] == colors[i]);
            let k = choose|k: int| #[trigger]
                run_covers(before, p, k, i) && before[k].color == rest[i];
            assert(run_covers(clues, p, k, i) && clues[k].color == colors[i]);
        }
    }
    assert forall|i: int, k: int|
        0 <= i < colors.len() && colors[i] == background() implies !#[trigger] run_covers(
        clues,
        p,
        k,
        i,
    ) by {
        assert(rest[i] == colors[i]);
        if run_covers(clues, p, k, i) {
            assert(run_covers(before, p, k, i));
        }
    }
}

/// A cell of another color than the cell before it begins a run.
proof fn lemma_described_new(rest: Seq<Color>, before: Seq<Nono>, p: Seq<int>, c: Color)
    requires
        described(rest, before, p),
        rest.len() > 0 ==> rest.last() != c,
        c != background(),
    ensures
        described(rest.push(c), before.push(Nono { color: c, count: 1 }), p.push(rest.len() as int)),
{
    let colors = rest.push(c);
    let n = before.len() as int;
    let clues = before.push(Nono { color: c, count: 1 });
    let q = p.push(rest.len() as int);
    assert forall|k: int| 0 <= k < clues.len() implies {
        &&& 1 <= (#[trigger] clues[k]).count
        &&& clues[k].color != background()
        &&& 0 <= q[k]
        &&& q[k] + clues[k].count <= colors.len()
        &&& colors[q[k]] == clues[k].color
        &&& k > 0 ==> q[k] >= q[k - 1] + clues[k - 1].count + run_gap(clues, k)
    } by {
        if k < n {
            assert(clues[k] == before[k]);
            assert(1 <= before[k].count);
            assert(rest[p[k]] == before[k].color);
            if k > 0 {
                assert(clues[k - 1] == before[k - 1]);
                assert(p[k] >= p[k - 1] + before[k - 1].count + run_gap(before, k));
            }
        } else if k > 0 {
            assert(clues[k - 1] == before[k - 1]);
            assert(1 <= before[k - 1].count);
            assert(p[k - 1] + before[k - 1].count <= rest.len());
            if run_gap(clues, k) == 1 && p[k - 1] + before[k - 1].count == rest.len() {
                // Then the cell before is of the last clue's color.
                assert(run_covers(before, p, k - 1, rest.len() - 1));
                lemma_cover_color(rest, before, p, k - 1, rest.len() - 1);
                assert(false);
            }
        }
    }
    assert forall|i: int| 0 <= i < colors.len() && colors[i] != background() implies exists|k: int|
     #[trigger]
        run_covers(clues, q, k, i) && clues[k].color == colors[i] by {
        if i == rest.len() {
            assert(run_covers(clues, q, n, i) && clues[n].color == colors[i]);
        } else {
            assert(rest[i] == colors[i]);
            let k = choose|k: int| #[trigger]
                run_covers(before, p, k, i) && before[k].color == rest[i];
            assert(clues[k] == before[k]);
            assert(run_covers(clues, q, k, i) && clues[k].color == colors[i]);
        }
    }
    assert forall|i: int, k: int|
        0 <= i < colors.len() && colors[i] == background() implies !#[trigger] run_covers(
        clues,
        q,
        k,
        i,
    ) by {
        assert(rest[i] == colors[i]);
        if run_covers(clues, q, k, i) {
            assert(clues[k] == before[k]);
            assert(run_covers(before, p, k, i));
        }
    }
}

/// The clues of a line of colors, at the starts of its runs, are the runs of
/// the line.
pub proof fn lemma_runs_describe(colors: Seq<Color>)
    requires
        colors.len() <= 0xFFFF,
    ensures
        described(colors, nono_clues(colors), run_starts(colors)),
    decreases colors.len(),
{
    if colors.len() > 0 {
        let rest = colors.drop_last();
        lemma_runs_describe(rest);
        let c = colors.last();
        assert(colors =~= rest.push(c));
        if c == background() {
            lemma_described_blank(rest, nono_clues(rest), run_starts(rest));
        } else if colors.len() > 1 && colors[colors.len() - 2] == c {
            assert(rest.last() == c);
            lemma_described_longer(rest, nono_clues(rest), run_starts(rest), c);
        } else {
            if rest.len() > 0 {
                assert(rest.last() == colors[colors.len() - 2]);
            }
            lemma_described_new(rest, nono_clues(rest), run_starts(rest), c);
        }
    }
}

/// Clues that are the runs of a line of colors which can stand in a cell are
/// well formed, show only colors of the line, and paint the line.
proof fn lemma_described_paints(colors: Seq<Color>, clues: Seq<Nono>, p: Seq<int>)
    requires
        described(colors, clues, p),
        forall|i: int| 0 <= i < colors.len() ==> (#[trigger] colors[i]).fits_cell(),
    ensures
        clues_well_formed(clues),
        line_of(clues).paints(p, colors),
        forall|k: int, j: int|
            0 <= k < clues.len() && 0 <= j < clues[k].spec_len() ==> colors.contains(
                #[trigger] clues[k].spec_color_at(j),
            ),
{
    let line = line_of(clues);
    assert forall|k: int| 0 <= k < clues.len() implies (#[trigger] clues[k]).well_formed()
        && line.len(k) == clues[k].count by {
        assert(1 <= clues[k].count);
        assert(colors[p[k]] == clues[k].color);
    }
    assert forall|k: int, j: int|
        0 <= k < clues.len() && 0 <= j < clues[k].spec_len() implies colors.contains(
        #[trigger] clues[k].spec_color_at(j),
    ) by {
        assert(1 <= clues[k].count);
        assert(colors[p[k]] == clues[k].color);
    }
    assert forall|k: int| 0 <= k < line.n() implies #[trigger] line.spaced(p, k) by {
        assert(1 <= clues[k].count);
        if k > 0 {
            assert(1 <= clues[k - 1].count);
            assert(line.gap(k) == run_gap(clues, k));
        }
    }
    assert(line.in_order(p));
    assert forall|k: int, i: int| line.covers(p, k, i) == run_covers(clues, p, k, i) by {
        if 0 <= k < clues.len() {
            assert(1 <= clues[k].count);
        }
    }
    assert forall|i: int| 0 <= i < colors.len() implies line.color_of(p, i) == #[trigger] colors[i] by {
        if colors[i] != background() {
            let k = choose|k: int| #[trigger] run_covers(clues, p, k, i) && clues[k].color == colors[i];
            assert(line.covers(p, k, i));
            line.lemma_color_under(p, k, i);
        } else {
            assert forall|k: int| !line.covers(p, k, i) by {
                assert(!run_covers(clues, p, k, i));
            }
        }
    }
    assert forall|k: int| 0 <= k < line.n() implies 0 <= #[trigger] p[k] && p[k] + line.len(k)
        <= colors.len() by {
        assert(1 <= clues[k].count);
    }
}

/// The clues of a line of colors that can stand in a cell are well formed,
/// cover no more cells than the line has, show only colors of the line, and
/// lay the line out.
pub proof fn lemma_clues_lay_out(colors: Seq<Color>)
    requires
        colors.len() <= 0xFFFF,
        forall|i: int| 0 <= i < colors.len() ==> (#[trigger] colors[i]).fits_cell(),
    ensures
        clues_well_formed(nono_clues(colors)),
        line_of(nono_clues(colors)).lays_out(colors),
        line_of(nono_clues(colors)).len_sum(nono_clues(colors).len() as int) <= colors.len(),
        forall|k: int, j: int|
            0 <= k < nono_clues(colors).len() && 0 <= j < nono_clues(colors)[k].spec_len()
                ==> colors.contains(#[trigger] nono_clues(colors)[k].spec_color_at(j)),
{
    lemma_runs_describe(colors);
    let clues = nono_clues(colors);
    let p = run_starts(colors);
    let line = line_of(clues);
    lemma_described_paints(colors, clues, p);
    lemma_len_sum_fits(line, p, line.n(), colors.len() as int);
}

/// Clues that stand in order within a lane cover no more cells than the
/// lane has.
proof fn lemma_len_sum_fits(line: Line, p: Seq<int>, n: int, len: int)
    requires
        line.in_order(p),
        0 <= n <= line.n(),
        forall|k: int| 0 <= k < line.n() ==> 0 <= #[trigger] p[k] && p[k] + line.len(k) <= len,
        0 <= len,
    ensures
        line.len_sum(n) <= if n == 0 {
            0
        } else {
            p[n - 1] + line.len(n - 1)
        },
        line.len_sum(n) <= len,
    decreases n,
{
    if n > 0 {
        lemma_len_sum_fits(line, p, n - 1, len);
        assert(0 <= p[n - 1] && p[n - 1] + line.len(n - 1) <= len);
        if n > 1 {
            assert(line.spaced(p, n - 1));
        }
    }
}

/// The picture row by row.
pub open spec fn picture_of(solution: &Solution) -> Seq<Seq<Color>> {
    Seq::new(solution.height() as nat, |y: int| solution.row(y))
}

/// The picture is one that a puzzle can be made of and solved: it is well
/// formed and complete, its sizes are between 1 and 32767, and its colors can
/// stand in a cell and are listed in its palette.
pub open spec fn solvable_picture(solution: &Solution) -> bool {
    &&& solution.well_formed()
    &&& 1 <= solution.width() <= 0x7FFF
    &&& 1 <= solution.height() <= 0x7FFF
    &&& forall|x: int, y: int|
        0 <= x < solution.width() && 0 <= y < solution.height() ==> {
            &&& (#[trigger] solution.color(x, y)).fits_cell()
            &&& solution.palette@.contains_key(solution.color(x, y).0)
        }
}

/// The puzzle that is made of a picture can be solved on, and the picture
/// solves it.
pub proof fn lemma_picture_solves(solution: &Solution, puzzle: &Puzzle<Nono>)
    requires
        solvable_picture(solution),
        nono_puzzle_of(solution, puzzle),
    ensures
        puzzle_ok(puzzle),
        solves(puzzle, picture_of(solution)),
{
    let picture = picture_of(solution);
    assert forall|y: int| 0 <= y < puzzle.rows@.len() implies line_ok(
        (#[trigger] puzzle.rows@[y])@,
        puzzle.cols@.len() as int,
        puzzle.palette@,
    ) && line_of(puzzle.rows@[y]@).lays_out(picture[y]) by {
        let colors = solution.row(y);
        assert forall|i: int| 0 <= i < colors.len() implies (#[trigger] colors[i]).fits_cell()
            && solution.palette@.contains_key(colors[i].0) by {
            assert(solution.grid@[i]@.len() == solution.grid@[0]@.len());
            assert(colors[i] == solution.color(i, y));
        }
        lemma_clues_lay_out(colors);
        lemma_listed(colors, solution.palette@);
    }
    assert forall|x: int| 0 <= x < puzzle.cols@.len() implies line_ok(
        (#[trigger] puzzle.cols@[x])@,
        puzzle.rows@.len() as int,
        puzzle.palette@,
    ) && line_of(puzzle.cols@[x]@).lays_out(picture_column(picture, x)) by {
        let colors = solution.column(x);
        assert(solution.grid@[x]@.len() == solution.grid@[0]@.len());
        assert forall|i: int| 0 <= i < colors.len() implies (#[trigger] colors[i]).fits_cell()
            && solution.palette@.contains_key(colors[i].0) by {
            assert(colors[i] == solution.color(x, i));
        }
        lemma_clues_lay_out(colors);
        lemma_listed(colors, solution.palette@);
        assert(picture_column(picture, x) =~= colors);
    }
}

/// Clues that show only colors of a line show only colors of a palette that
/// lists the colors of the line.
proof fn lemma_listed(colors: Seq<Color>, palette: Map<u8, ColorInfo>)
    requires
        forall|i: int| 0 <= i < colors.len() ==> palette.contains_key((#[trigger] colors[i]).0),
        forall|k: int, j: int|
            0 <= k < nono_clues(colors).len() && 0 <= j < nono_clues(colors)[k].spec_len()
                ==> colors.contains(#[trigger] nono_clues(colors)[k].spec_color_at(j)),
    ensures
        colors_listed(nono_clues(colors), palette),
{
    let clues = nono_clues(colors);
    assert forall|k: int, j: int|
        0 <= k < clues.len() && 0 <= j < clues[k].spec_len() implies palette.contains_key(
        (#[trigger] clues[k].spec_color_at(j)).0,
    ) by {
        let c = clues[k].spec_color_at(j);
        assert(colors.contains(c));
        let i = choose|i: int| 0 <= i < colors.len() && colors[i] == c;
        assert(palette.contains_key(colors[i].0));
    }
}

/// Solving the puzzle that is made of a complete picture does not fail, and
/// gives back the picture wherever it makes a cell known: every cell that the
/// report marks as solved has the color that it has in the picture. Where the
/// report leaves no cell, its grid is the picture.
pub proof fn law_round_trip(
    solution: &Solution,
    puzzle: &Puzzle<Nono>,
    options: &SolveOptions,
    solved: Result<Report, SolveError>,
)
    requires
        solvable_picture(solution),
        fits_memory(puzzle),
        nono_puzzle_of(solution, puzzle),
        solved_from_full(puzzle, options, solved),
    ensures
        solved is Ok,
        forall|x: int, y: int|
            0 <= x < solution.width() && 0 <= y < solution.height() && (
            #[trigger] solved->Ok_0.solved_mask@[x]@[y]) ==> solved->Ok_0.solution.grid@[x]@[y]
                == solution.color(x, y),
{
    lemma_picture_solves(solution, puzzle);
    let picture = picture_of(solution);
    let (start, end) = choose|start: Grid, end: Grid|
        full_grid(puzzle, &start) && solve_post(puzzle, options, &start, &end, solved);
    assert(grid_allows(start@, picture)) by {
        assert forall|y: int| 0 <= y < start@.len() implies allows(#[trigger] start@[y], picture[y]) by {
            assert(start@[y].len() == start.width());
            assert forall|x: int| 0 <= x < start@[y].len() implies (#[trigger] start@[y][x]).can(
                picture[y][x],
            ) by {
                assert(full_cell(puzzle.palette@, start@[y][x]));
                assert(solution.grid@[x]@.len() == solution.grid@[0]@.len());
                assert(picture[y][x] == solution.color(x, y));
            }
        }
    }
    assert(solves(puzzle, picture) && grid_allows(start@, picture));
    let report = solved->Ok_0;
    assert(grid_allows(end@, picture));
    assert forall|x: int, y: int|
        0 <= x < solution.width() && 0 <= y < solution.height() && (
        #[trigger] report.solved_mask@[x]@[y]) implies report.solution.grid@[x]@[y]
        == solution.color(x, y) by {
        let cell = end@[y][x];
        assert(allows(end@[y], picture[y]));
        assert(cell.can(picture[y][x]));
        assert(picture[y][x] == solution.color(x, y));
        assert(report.solved_mask@[x]@[y] == cell.known());
        cell.lemma_known(solution.color(x, y));
        lemma_known_color(cell, solution.color(x, y));
        assert(report.solution.grid@[x]@[y] == shown_color(cell));
    }
}

/// The two reports say the same: the same counts of runs, the same number
/// of cells left, the same colors and the same marks for the cells, the same
/// palette and the same style of clues.
pub open spec fn same_report(a: &Report, b: &Report) -> bool {
    &&& a.solve_counts == b.solve_counts
    &&& a.cells_left == b.cells_left
    &&& a.solution.clue_style == b.solution.clue_style
    &&& a.solution.palette@ == b.solution.palette@
    &&& a.solution.grid@.len() == b.solution.grid@.len()
    &&& forall|x: int|
        0 <= x < a.solution.grid@.len() ==> (#[trigger] a.solution.grid@[x])@ == b.solution.grid@[x]@
    &&& a.solved_mask@.len() == b.solved_mask@.len()
    &&& forall|x: int| 0 <= x < a.solved_mask@.len() ==> (#[trigger] a.solved_mask@[x])@ == b.solved_mask@[x]@
}

/// Reports of the same grid with the same counts say the same.
proof fn lemma_same_report<C: Clue>(puzzle: &Puzzle<C>, a_end: &Grid, b_end: &Grid, a: &Report, b: &Report)
    requires
        a_end@ == b_end@,
        a_end.width() == b_end.width(),
        reports(puzzle, a_end, a),
        reports(puzzle, b_end, b),
        a.solve_counts == b.solve_counts,
    ensures
        same_report(a, b),
{
    assert forall|x: int| 0 <= x < a.solution.grid@.len() implies (#[trigger] a.solution.grid@[x])@
        == b.solution.grid@[x]@ by {
        assert(a.solution.grid@[x]@.len() == b.solution.grid@[x]@.len());
        assert forall|y: int| 0 <= y < a.solution.grid@[x]@.len() implies a.solution.grid@[x]@[y]
            == b.solution.grid@[x]@[y] by {
            assert(a.solution.grid@[x]@[y] == shown_color(a_end@[y][x]));
            assert(b.solution.grid@[x]@[y] == shown_color(b_end@[y][x]));
        }
        assert(a.solution.grid@[x]@ =~= b.solution.grid@[x]@);
    }
    assert forall|x: int| 0 <= x < a.solved_mask@.len() implies (#[trigger] a.solved_mask@[x])@
        == b.solved_mask@[x]@ by {
        assert(a.solved_mask@[x]@.len() == b.solved_mask@[x]@.len());
        assert forall|y: int| 0 <= y < a.solved_mask@[x]@.len() implies a.solved_mask@[x]@[y]
            == b.solved_mask@[x]@[y] by {
            assert(a.solved_mask@[x]@[y] == a_end@[y][x].known());
            assert(b.solved_mask@[x]@[y] == b_end@[y][x].known());
        }
        assert(a.solved_mask@[x]@ =~= b.solved_mask@[x]@);
    }
}

/// Solving a puzzle twice on grids that hold the same cells, with the same
/// options, leaves the same cells in both grids and returns the same: both
/// times the same error, or both times reports that say the same.
pub proof fn law_solve_again<C: Clue>(
    puzzle: &Puzzle<C>,
    options: &SolveOptions,
    a_start: &Grid,
    a_end: &Grid,
    a: Result<Report, SolveError>,
    b_start: &Grid,
    b_end: &Grid,
    b: Result<Report, SolveError>,
)
    requires
        a_start@ == b_start@,
        a_start.width() == b_start.width(),
        solve_post(puzzle, options, a_start, a_end, a),
        solve_post(puzzle, options, b_start, b_end, b),
    ensures
        a_end@ == b_end@,
        a is Ok <==> b is Ok,
        a is Ok ==> same_report(&a->Ok_0, &b->Ok_0),
        a is Err ==> a->Err_0 == b->Err_0,
{
    if puzzle_ok(puzzle) && a_start.height() == puzzle.rows@.len() && a_start.width()
        == puzzle.cols@.len() {
        lemma_solve_ends_unique(
            puzzle,
            options,
            a_start@,
            finish_of(a_end, a),
            finish_of(b_end, b),
        );
        if a is Ok {
            lemma_same_report(puzzle, a_end, b_end, &a->Ok_0, &b->Ok_0);
        }
    }
}

/// Two grids that are full for a puzzle hold the same cells.
proof fn lemma_full_grids<C: Clue>(puzzle: &Puzzle<C>, a: &Grid, b: &Grid)
    requires
        full_grid(puzzle, a),
        full_grid(puzzle, b),
    ensures
        a@ == b@,
{
    assert forall|y: int| 0 <= y < a@.len() implies a@[y] == b@[y] by {
        assert(a@[y].len() == a.width());
        assert(b@[y].len() == b.width());
        assert forall|x: int, c: Color| 0 <= x < a@[y].len() implies (#[trigger] a@[y][x].can(c)
            <==> b@[y][x].can(c)) by {
            assert(full_cell(puzzle.palette@, a@[y][x]));
            assert(full_cell(puzzle.palette@, b@[y][x]));
        }
        Line::lemma_same_cells(a@[y], b@[y]);
    }
    assert(a@ =~= b@);
}

/// Solving the same puzzle twice with the same options returns the same:
/// both times the same error, or both times reports that say the same.
pub proof fn law_solve_twice<C: Clue>(
    puzzle: &Puzzle<C>,
    options: &SolveOptions,
    a: Result<Report, SolveError>,
    b: Result<Report, SolveError>,
)
    requires
        solved_from_full(puzzle, options, a),
        solved_from_full(puzzle, options, b),
    ensures
        a is Ok <==> b is Ok,
        a is Ok ==> same_report(&a->Ok_0, &b->Ok_0),
        a is Err ==> a->Err_0 == b->Err_0,
{
    if puzzle_ok(puzzle) && fits_memory(puzzle) {
        let (a_start, a_end) = choose|start: Grid, end: Grid|
            full_grid(puzzle, &start) && solve_post(puzzle, options, &start, &end, a);
        let (b_start, b_end) = choose|start: Grid, end: Grid|
            full_grid(puzzle, &start) && solve_post(puzzle, options, &start, &end, b);
        lemma_full_grids(puzzle, &a_start, &b_start);
        law_solve_again(puzzle, options, &a_start, &a_end, a, &b_start, &b_end, b);
    }
}

/// A line cache changes nothing of what a solve finds. What a solve returns
/// and leaves in the grid is told without a word of the cache, so a solve with
/// a cache, whatever it holds, and a solve without one leave the same cells in
/// the grid and return reports that say the same.
pub proof fn law_cache_faithful<C: Clue>(
    puzzle: &Puzzle<C>,
    options: &SolveOptions,
    start: &Grid,
    cached_end: &Grid,
    cached: Result<Report, SolveError>,
    plain_end: &Grid,
    plain: Result<Report, SolveError>,
)
    requires
        solve_post(puzzle, options, start, cached_end, cached),
        solve_post(puzzle, options, start, plain_end, plain),
    ensures
        cached_end@ == plain_end@,
        cached is Ok <==> plain is Ok,
        cached is Ok ==> same_report(&cached->Ok_0, &plain->Ok_0),
        cached is Err ==> cached->Err_0 == plain->Err_0,
{
    law_solve_again(puzzle, options, start, cached_end, cached, start, plain_end, plain);
}

/// Skimming before scrubbing changes nothing of what the lane allows in the
/// end. Scrubbing the skimmed lane and scrubbing the lane itself both narrow
/// the lane, and the two lanes that they end in allow the same arrangements:
/// those that the lane allowed. A cell that both make known is of the same
/// color in both, where the lane allows an arrangement; and then neither
/// fails.
pub proof fn law_skim_then_scrub(line: Line, lane: Seq<Cell>, skimmed: Seq<Cell>)
    requires
        line.wf(),
        line.skim_gives(lane, skimmed),
    ensures
        match (line.scrub_result(skimmed), line.scrub_result(lane)) {
            (Some(both), Some(alone)) => {
                &&& narrowed(lane, both)
                &&& narrowed(lane, alone)
                &&& line.allow_the_same(lane, both)
                &&& line.allow_the_same(both, alone)
                &&& !line.refuted(lane) ==> forall|i: int|
                    0 <= i < lane.len() && (#[trigger] both[i]).known() && alone[i].known() ==> both[i]
                        == alone[i]
            },
            _ => line.refuted(lane),
        },
{
    line.lemma_skim_sound(lane, skimmed);
    line.lemma_scrub_sound(skimmed);
    line.lemma_scrub_sound(lane);
    match (line.scrub_result(skimmed), line.scrub_result(lane)) {
        (Some(both), Some(alone)) => {
            lemma_narrowed_on(lane, skimmed, both);
            line.lemma_same_allowed(lane, both);
            line.lemma_same_allowed(lane, alone);
            if !line.refuted(lane) {
                let q = choose|q: Seq<int>| line.is_arrangement(lane, q);
                assert(line.is_arrangement(both, q));
                assert(line.is_arrangement(alone, q));
                line.lemma_painted(both, q);
                line.lemma_painted(alone, q);
                assert forall|i: int|
                    0 <= i < lane.len() && (#[trigger] both[i]).known() && alone[i].known() implies both[i]
                    == alone[i] by {
                    let c = line.painted(q, lane.len())[i];
                    both[i].lemma_known(c);
                    alone[i].lemma_known(c);
                    both[i].lemma_by_bits(alone[i]);
                }
            }
        },
        (None, _) => {
            assert forall|q: Seq<int>| !#[trigger] line.is_arrangement(lane, q) by {
                if line.is_arrangement(lane, q) {
                    assert(line.is_arrangement(skimmed, q));
                }
            }
        },
        _ => {},
    }
}

/// Skimming a skimmed lane again narrows it and changes nothing of what it
/// allows: the lane after the second skim allows the arrangements that the
/// lane allowed at first. The cells that the first skim made known stay as
/// they are. The second skim does not fail where the lane allows an
/// arrangement.
pub proof fn law_skim_again(line: Line, lane: Seq<Cell>, once: Seq<Cell>)
    requires
        line.wf(),
        line.skim_gives(lane, once),
    ensures
        !line.refuted(lane) ==> line.skim_ok(once),
        forall|twice: Seq<Cell>| #[trigger]
            line.skim_gives(once, twice) ==> {
                &&& narrowed(once, twice)
                &&& line.allow_the_same(lane, twice)
                &&& forall|i: int| 0 <= i < lane.len() && (#[trigger] once[i]).known() ==> twice[i] == once[i]
            },
{
    line.lemma_skim_sound(lane, once);
    if !line.refuted(lane) {
        let q = choose|q: Seq<int>| line.is_arrangement(lane, q);
        assert(line.is_arrangement(once, q));
        line.lemma_skim_complete(once, q);
    }
    assert forall|twice: Seq<Cell>| #[trigger] line.skim_gives(once, twice) implies {
        &&& narrowed(once, twice)
        &&& line.allow_the_same(lane, twice)
        &&& forall|i: int| 0 <= i < lane.len() && (#[trigger] once[i]).known() ==> twice[i] == once[i]
    } by {
        line.lemma_skim_sound(once, twice);
        lemma_narrowed_on(lane, once, twice);
        line.lemma_same_allowed(lane, twice);
        assert forall|i: int| 0 <= i < lane.len() && (#[trigger] once[i]).known() implies twice[i]
            == once[i] by {
            lemma_known_stays(twice[i], once[i]);
        }
    }
}

} // verus!
