//! What may be wrong with a picture that is to be made into a puzzle, and
//! with the document that holds it.

use crate::ambiguity::puzzle_of;
use crate::document::{reported, Document};
use crate::grid_solve::{default_options, lemma_report_size, Report};
use crate::line_solve::SolveError;
use crate::puzzle::{
    background, unsolved, Color, ColorInfo, DynPuzzle, Palette, PuzzleDynOps, Solution,
};
use vstd::prelude::*;
use vstd::string::*;

verus! {

/// Something about a picture that its author should look at.
#[derive(Debug, PartialEq, Eq)]
pub enum QualityProblem {
    /// Fewer background cells than the picture has rows and columns.
    FewBackground { found: usize },
    /// Fewer cells of other colors than the picture has rows and columns.
    FewForeground { found: usize },
    /// More than 30 colors, which no puzzle can have.
    TooManyColors { colors: usize },
    /// More than 10 colors.
    ManyColors { colors: usize },
    /// Two colors that are hard to tell apart.
    SimilarColors { first: (u8, u8, u8), second: (u8, u8, u8) },
}

/// How far apart two shades are.
pub open spec fn shade_distance(a: u8, b: u8) -> int {
    if a >= b {
        a - b
    } else {
        b - a
    }
}

/// How far apart two colors are: the sum of the distances of their parts.
pub open spec fn rgb_distance(a: (u8, u8, u8), b: (u8, u8, u8)) -> int {
    shade_distance(a.0, b.0) + shade_distance(a.1, b.1) + shade_distance(a.2, b.2)
}

/// The two colors are too near to each other. Two colors of one shade are
/// allowed where they are not corners of the same kind: the triangles of a
/// color have the color's shade.
pub open spec fn too_similar(a: ColorInfo, b: ColorInfo) -> bool {
    !(a.corner != b.corner && a.rgb == b.rgb) && rgb_distance(a.rgb, b.rgb) < 30
}

/// How many of the first `n` cells of a column are of the color.
pub open spec fn color_in(column: Seq<Color>, color: Color, n: int) -> int
    decreases n,
{
    if n <= 0 {
        0
    } else {
        color_in(column, color, n - 1) + if column[n - 1] == color {
            1int
        } else {
            0
        }
    }
}

/// How many cells of the first `n` columns of a grid are of the color.
pub open spec fn color_cells(grid: Seq<Vec<Color>>, color: Color, n: int) -> int
    decreases n,
{
    if n <= 0 {
        0
    } else {
        color_cells(grid, color, n - 1) + color_in(grid[n - 1]@, color, grid[n - 1]@.len() as int)
    }
}

/// How many cells of a grid are background.
pub open spec fn background_cells(grid: Seq<Vec<Color>>) -> int {
    color_cells(grid, background(), grid.len() as int)
}

proof fn lemma_color_in(column: Seq<Color>, color: Color, n: int)
    requires
        0 <= n <= column.len(),
    ensures
        0 <= color_in(column, color, n) <= n,
    decreases n,
{
    if n > 0 {
        lemma_color_in(column, color, n - 1);
    }
}

proof fn lemma_color_cells(grid: Seq<Vec<Color>>, color: Color, height: int, n: int)
    requires
        0 <= n <= grid.len(),
        0 <= height,
        forall|x: int| 0 <= x < grid.len() ==> (#[trigger] grid[x])@.len() == height,
    ensures
        0 <= color_cells(grid, color, n) <= n * height,
    decreases n,
{
    if n > 0 {
        lemma_color_cells(grid, color, height, n - 1);
        lemma_color_in(grid[n - 1]@, color, height);
        assert(n * height == (n - 1) * height + height) by (nonlinear_arith);
    } else {
        assert(n * height == 0) by (nonlinear_arith)
            requires
                n == 0,
        ;
    }
}

/// The problem is one that the picture has.
pub open spec fn has_problem(solution: &Solution, problem: QualityProblem) -> bool {
    let width = solution.width();
    let height = solution.height();
    let found = background_cells(solution.grid@);
    let colors = solution.palette@.len();
    match problem {
        QualityProblem::FewBackground { found: n } => n == found && found < width + height,
        QualityProblem::FewForeground { found: n } => n == width * height - found && n < width
            + height,
        QualityProblem::TooManyColors { colors: n } => n == colors && colors > 30,
        QualityProblem::ManyColors { colors: n } => n == colors && 10 < colors <= 30,
        QualityProblem::SimilarColors { first, second } => exists|a: u8, b: u8|
            a < b && solution.palette@.contains_key(a) && solution.palette@.contains_key(b)
                && #[trigger] too_similar(solution.palette@[a], solution.palette@[b]) && first
                == solution.palette@[a].rgb && second == solution.palette@[b].rgb,
    }
}

/// The problems listed are those of the picture.
pub open spec fn lists_problems(solution: &Solution, found: Seq<QualityProblem>) -> bool {
    forall|problem: QualityProblem| #[trigger] found.contains(problem) <==> has_problem(solution, problem)
}

/// The picture is small enough for its cells to be counted: the number of its
/// cells and the sum of its width and its height are numbers of the machine.
pub open spec fn countable(solution: &Solution) -> bool {
    &&& solution.well_formed()
    &&& solution.width() * solution.height() <= usize::MAX
    &&& solution.width() + solution.height() <= usize::MAX
}

fn shade_apart(a: u8, b: u8) -> (d: u16)
    ensures
        d == shade_distance(a, b),
{
    if a >= b {
        (a - b) as u16
    } else {
        (b - a) as u16
    }
}

/// Whether the two colors are too near to each other.
pub fn is_too_similar(a: &ColorInfo, b: &ColorInfo) -> (similar: bool)
    ensures
        similar == too_similar(*a, *b),
{
    let same_corner = match (a.corner, b.corner) {
        (Some(x), Some(y)) => x.upper == y.upper && x.left == y.left,
        (None, None) => true,
        _ => false,
    };
    let same_rgb = a.rgb.0 == b.rgb.0 && a.rgb.1 == b.rgb.1 && a.rgb.2 == b.rgb.2;
    if !same_corner && same_rgb {
        return false;  // Corners may be the same color.
    }
    shade_apart(a.rgb.0, b.rgb.0) + shade_apart(a.rgb.1, b.rgb.1) + shade_apart(a.rgb.2, b.rgb.2)
        < 30
}

/// The number of cells of the picture that are of the color.
fn count_color(solution: &Solution, color: Color) -> (found: usize)
    requires
        countable(solution),
    ensures
        found == color_cells(solution.grid@, color, solution.width()),
        found <= solution.width() * solution.height(),
{
    let width = solution.grid.len();
    let height = solution.grid[0].len();
    let mut found: usize = 0;
    let mut x: usize = 0;
    proof {
        lemma_color_cells(solution.grid@, color, height as int, width as int);
    }
    while x < width
        invariant
            countable(solution),
            width == solution.width(),
            height == solution.height(),
            x <= width,
            found == color_cells(solution.grid@, color, x as int),
        decreases width - x,
    {
        assert(solution.grid@[x as int]@.len() == solution.grid@[0]@.len());
        let column = &solution.grid[x];
        let mut here: usize = 0;
        let mut y: usize = 0;
        while y < height
            invariant
                height == column@.len(),
                y <= height,
                here == color_in(column@, color, y as int),
                here <= y,
            decreases height - y,
        {
            if column[y] == color {
                here = here + 1;
            }
            y = y + 1;
        }
        proof {
            lemma_color_cells(solution.grid@, color, height as int, x as int);
            lemma_color_cells(solution.grid@, color, height as int, x + 1);
            lemma_color_cells(solution.grid@, color, height as int, width as int);
            assert((x + 1) * height <= width * height) by (nonlinear_arith)
                requires
                    x + 1 <= width,
                    0 <= height,
            ;
        }
        found = found + here;
        x = x + 1;
    }
    found
}

/// The problem of the two colors, if both are in the palette and too near
/// to each other.
pub open spec fn pair_problem(palette: Map<u8, ColorInfo>, a: u8, b: u8) -> Seq<QualityProblem> {
    if palette.contains_key(a) && palette.contains_key(b) && too_similar(palette[a], palette[b]) {
        seq![QualityProblem::SimilarColors { first: palette[a].rgb, second: palette[b].rgb }]
    } else {
        Seq::empty()
    }
}

/// The problems of the pairs of colors from the pair of `a` and `b` on. The
/// pairs come in the order of the number of their first color, and then of
/// their second, which is the higher of the two.
pub open spec fn pair_problems(palette: Map<u8, ColorInfo>, a: int, b: int) -> Seq<QualityProblem>
    decreases 256 - a, 256 - b,
{
    if a < 0 || a >= 256 || b <= a {
        Seq::empty()
    } else if b >= 256 {
        pair_problems(palette, a + 1, a + 2)
    } else {
        pair_problem(palette, a as u8, b as u8) + pair_problems(palette, a, b + 1)
    }
}

/// The problems that counting finds: too few cells of the background, too
/// few of the other colors, too many colors.
pub open spec fn count_problems(solution: &Solution) -> Seq<QualityProblem> {
    let width = solution.width();
    let height = solution.height();
    let found = background_cells(solution.grid@);
    let colors = solution.palette@.len();
    (if found < width + height {
        seq![QualityProblem::FewBackground { found: found as usize }]
    } else {
        Seq::empty()
    }) + (if width * height - found < width + height {
        seq![QualityProblem::FewForeground { found: (width * height - found) as usize }]
    } else {
        Seq::empty()
    }) + (if colors > 30 {
        seq![QualityProblem::TooManyColors { colors: colors as usize }]
    } else if colors > 10 {
        seq![QualityProblem::ManyColors { colors: colors as usize }]
    } else {
        Seq::empty()
    })
}

/// The problems of the picture, in the order in which they are told: those
/// that counting finds, then the pairs of colors that are too near to each
/// other.
pub open spec fn problems_of(solution: &Solution) -> Seq<QualityProblem> {
    count_problems(solution) + pair_problems(solution.palette@, 0, 1)
}

/// The pairs of colors of the palette that are too near to each other, each
/// pair once, the color with the lower number first.
fn similar_colors(palette: &Palette) -> (pairs: Vec<QualityProblem>)
    ensures
        pairs@ == pair_problems(palette@, 0, 1),
        forall|problem: QualityProblem| #[trigger]
            pairs@.contains(problem) <==> exists|a: u8, b: u8|
                a < b && palette@.contains_key(a) && palette@.contains_key(b)
                    && #[trigger] too_similar(palette@[a], palette@[b]) && problem
                    == (QualityProblem::SimilarColors {
                    first: palette@[a].rgb,
                    second: palette@[b].rgb,
                }),
{
    broadcast use vstd::std_specs::hash::group_hash_axioms;

    let mut pairs: Vec<QualityProblem> = Vec::new();
    let mut a: u16 = 0;
    while a < 256
        invariant
            a <= 256,
            pairs@ + pair_problems(palette@, a as int, a + 1) == pair_problems(palette@, 0, 1),
            forall|problem: QualityProblem| #[trigger]
                pairs@.contains(problem) <==> exists|i: u8, j: u8|
                    i < a && i < j && palette@.contains_key(i) && palette@.contains_key(j)
                        && #[trigger] too_similar(palette@[i], palette@[j]) && problem
                        == (QualityProblem::SimilarColors {
                        first: palette@[i].rgb,
                        second: palette@[j].rgb,
                    }),
        decreases 256 - a,
    {
        let first_key = a as u8;
        let ghost outer = pairs@;
        let mut b: u16 = a + 1;
        while b < 256
            invariant
                a < 256,
                first_key == a,
                a < b <= 256,
                pairs@ + pair_problems(palette@, a as int, b as int) == pair_problems(palette@, 0, 1),
                forall|problem: QualityProblem| #[trigger]
                    pairs@.contains(problem) <==> outer.contains(problem) || exists|j: u8|
                        a < j < b && palette@.contains_key(first_key) && palette@.contains_key(j)
                            && #[trigger] too_similar(palette@[first_key], palette@[j]) && problem
                            == (QualityProblem::SimilarColors {
                            first: palette@[first_key].rgb,
                            second: palette@[j].rgb,
                        }),
            decreases 256 - b,
        {
            let second_key = b as u8;
            let ghost inner = pairs@;
            let mut added = false;
            match (palette.get(&first_key), palette.get(&second_key)) {
                (Some(first), Some(second)) => {
                    if is_too_similar(first, second) {
                        pairs.push(
                            QualityProblem::SimilarColors { first: first.rgb, second: second.rgb },
                        );
                        added = true;
                    }
                },
                _ => {},
            }
            proof {
                let new = QualityProblem::SimilarColors {
                    first: palette@[first_key].rgb,
                    second: palette@[second_key].rgb,
                };
                assert(pairs@ =~= inner + pair_problem(palette@, first_key, second_key));
                assert(pairs@ + pair_problems(palette@, a as int, b + 1) =~= inner + pair_problems(
                    palette@,
                    a as int,
                    b as int,
                ));
                assert forall|problem: QualityProblem| #[trigger]
                    pairs@.contains(problem) <==> outer.contains(problem) || exists|j: u8|
                        a < j < b + 1 && palette@.contains_key(first_key) && palette@.contains_key(j)
                            && #[trigger] too_similar(palette@[first_key], palette@[j]) && problem
                            == (QualityProblem::SimilarColors {
                            first: palette@[first_key].rgb,
                            second: palette@[j].rgb,
                        }) by {
                    if added {
                        assert(pairs@ == inner.push(new));
                        if inner.contains(problem) {
                            let w = choose|w: int| 0 <= w < inner.len() && inner[w] == problem;
                            assert(pairs@[w] == problem);
                        }
                        if problem == new {
                            assert(pairs@[inner.len() as int] == problem);
                            assert(too_similar(palette@[first_key], palette@[second_key]));
                        }
                    }
                    if exists|j: u8|
                        a < j < b + 1 && palette@.contains_key(first_key) && palette@.contains_key(j)
                            && #[trigger] too_similar(palette@[first_key], palette@[j]) && problem
                            == (QualityProblem::SimilarColors {
                            first: palette@[first_key].rgb,
                            second: palette@[j].rgb,
                        }) {
                        let j = choose|j: u8|
                            a < j < b + 1 && palette@.contains_key(first_key)
                                && palette@.contains_key(j) && #[trigger] too_similar(
                                palette@[first_key],
                                palette@[j],
                            ) && problem == (QualityProblem::SimilarColors {
                                first: palette@[first_key].rgb,
                                second: palette@[j].rgb,
                            });
                        if j < b {
                            assert(too_similar(palette@[first_key], palette@[j]));
                        }
                    }
                }
            }
            b = b + 1;
        }
        proof {
            assert forall|problem: QualityProblem| #[trigger]
                pairs@.contains(problem) <==> exists|i: u8, j: u8|
                    i < a + 1 && i < j && palette@.contains_key(i) && palette@.contains_key(j)
                        && #[trigger] too_similar(palette@[i], palette@[j]) && problem
                        == (QualityProblem::SimilarColors {
                        first: palette@[i].rgb,
                        second: palette@[j].rgb,
                    }) by {
                if outer.contains(problem) {
                    let (i, j) = choose|i: u8, j: u8|
                        i < a && i < j && palette@.contains_key(i) && palette@.contains_key(j)
                            && #[trigger] too_similar(palette@[i], palette@[j]) && problem
                            == (QualityProblem::SimilarColors {
                            first: palette@[i].rgb,
                            second: palette@[j].rgb,
                        });
                    assert(too_similar(palette@[i], palette@[j]));
                }
                if exists|j: u8|
                    a < j < 256 && palette@.contains_key(first_key) && palette@.contains_key(j)
                        && #[trigger] too_similar(palette@[first_key], palette@[j]) && problem
                        == (QualityProblem::SimilarColors {
                        first: palette@[first_key].rgb,
                        second: palette@[j].rgb,
                    }) {
                    let j = choose|j: u8|
                        a < j < 256 && palette@.contains_key(first_key) && palette@.contains_key(j)
                            && #[trigger] too_similar(palette@[first_key], palette@[j]) && problem
                            == (QualityProblem::SimilarColors {
                            first: palette@[first_key].rgb,
                            second: palette@[j].rgb,
                        });
                    assert(too_similar(palette@[first_key], palette@[j]));
                }
                if exists|i: u8, j: u8|
                    i < a + 1 && i < j && palette@.contains_key(i) && palette@.contains_key(j)
                        && #[trigger] too_similar(palette@[i], palette@[j]) && problem
                        == (QualityProblem::SimilarColors {
                        first: palette@[i].rgb,
                        second: palette@[j].rgb,
                    }) {
                    let (i, j) = choose|i: u8, j: u8|
                        i < a + 1 && i < j && palette@.contains_key(i) && palette@.contains_key(j)
                            && #[trigger] too_similar(palette@[i], palette@[j]) && problem
                            == (QualityProblem::SimilarColors {
                            first: palette@[i].rgb,
                            second: palette@[j].rgb,
                        });
                    if i < a {
                        assert(too_similar(palette@[i], palette@[j]));
                        assert(outer.contains(problem));
                    } else {
                        assert(too_similar(palette@[first_key], palette@[j]));
                    }
                }
            }
        }
        a = a + 1;
    }
    pairs
}

impl Solution {
    /// The problems of the picture: too few cells of the background or of
    /// the other colors, too many colors, and colors that are too near to each
    /// other.
    pub fn quality_problems(&self) -> (problems: Vec<QualityProblem>)
        requires
            countable(self),
        ensures
            problems@ == problems_of(self),
            lists_problems(self, problems@),
    {
        broadcast use vstd::std_specs::hash::group_hash_axioms;

        let width = self.grid.len();
        let height = self.grid[0].len();
        let bg_squares_found = count_color(self, background());
        let num_colors = self.palette.len();
        let mut problems: Vec<QualityProblem> = Vec::new();
        let ghost none = problems@;
        if bg_squares_found < width + height {
            problems.push(QualityProblem::FewBackground { found: bg_squares_found });
        }
        let ghost with_bg = problems@;
        if width * height - bg_squares_found < width + height {
            problems.push(
                QualityProblem::FewForeground { found: width * height - bg_squares_found },
            );
        }
        let ghost with_fg = problems@;
        if num_colors > 30 {
            problems.push(QualityProblem::TooManyColors { colors: num_colors });
        } else if num_colors > 10 {
            problems.push(QualityProblem::ManyColors { colors: num_colors });
        }
        let ghost counted = problems@;
        // Find similar colors
        let mut pairs = similar_colors(&self.palette);
        let ghost similar = pairs@;
        problems.append(&mut pairs);
        proof {
            assert(counted =~= count_problems(self));
            assert forall|problem: QualityProblem| #[trigger]
                problems@.contains(problem) <==> has_problem(self, problem) by {
                lemma_pushed(none, with_bg, problem);
                lemma_pushed(with_bg, with_fg, problem);
                lemma_pushed(with_fg, counted, problem);
                lemma_joined(counted, similar, problem);
                match problem {
                    QualityProblem::SimilarColors { first, second } => {
                        if has_problem(self, problem) {
                            let (a, b) = choose|a: u8, b: u8|
                                a < b && self.palette@.contains_key(a) && self.palette@.contains_key(
                                    b,
                                ) && #[trigger] too_similar(self.palette@[a], self.palette@[b])
                                    && first == self.palette@[a].rgb && second
                                    == self.palette@[b].rgb;
                            assert(too_similar(self.palette@[a], self.palette@[b]));
                        }
                        if similar.contains(problem) {
                            let (a, b) = choose|a: u8, b: u8|
                                a < b && self.palette@.contains_key(a) && self.palette@.contains_key(
                                    b,
                                ) && #[trigger] too_similar(self.palette@[a], self.palette@[b])
                                    && problem == (QualityProblem::SimilarColors {
                                    first: self.palette@[a].rgb,
                                    second: self.palette@[b].rgb,
                                });
                            assert(too_similar(self.palette@[a], self.palette@[b]));
                        }
                    },
                    _ => {
                        if similar.contains(problem) {
                            let (a, b) = choose|a: u8, b: u8|
                                a < b && self.palette@.contains_key(a) && self.palette@.contains_key(
                                    b,
                                ) && #[trigger] too_similar(self.palette@[a], self.palette@[b])
                                    && problem == (QualityProblem::SimilarColors {
                                    first: self.palette@[a].rgb,
                                    second: self.palette@[b].rgb,
                                });
                        }
                    },
                }
            }
        }
        problems
    }

    /// The problems of the picture in words: a sentence for each.
    pub fn quality_check(&self) -> (problems: Vec<String>)
        requires
            countable(self),
        ensures
            tells(problems@, problems_of(self)),
    {
        let found = self.quality_problems();
        let mut problems: Vec<String> = Vec::new();
        let mut i: usize = 0;
        while i < found.len()
            invariant
                i <= found@.len(),
                problems@.len() == i,
                forall|j: int| 0 <= j < i ==> (#[trigger] problems@[j])@ == sentence(found@[j]),
            decreases found@.len() - i,
        {
            problems.push(sentence_of(&found[i]));
            i = i + 1;
        }
        proof {
            assert(tells(problems@, found@));
        }
        problems
    }
}

/// What the sentences say, one by one.
pub open spec fn texts(words: Seq<String>) -> Seq<Seq<char>> {
    Seq::new(words.len(), |i: int| words[i]@)
}

/// The sentences that tell of the problems.
pub open spec fn sentences(found: Seq<QualityProblem>) -> Seq<Seq<char>> {
    Seq::new(found.len(), |i: int| sentence(found[i]))
}

/// What is said of a document without an author.
pub open spec fn author_words(author: Seq<char>) -> Seq<Seq<char>> {
    if author.len() == 0 {
        seq!["warning: missing author"@]
    } else {
        Seq::empty()
    }
}

/// What is said of the picture of a document, if it has one.
pub open spec fn picture_words(held: Option<Solution>) -> Seq<Seq<char>> {
    match held {
        Some(solution) => sentences(problems_of(&solution)),
        None => Seq::empty(),
    }
}

/// How many cells the report leaves without a color.
pub open spec fn unsolved_cells(report: Report) -> int {
    color_cells(report.solution.grid@, unsolved(), report.solution.grid@.len() as int)
}

/// What is said of a solve of the puzzle of a document.
pub open spec fn solve_words(solved: Result<Report, SolveError>) -> Seq<Seq<char>> {
    match solved {
        Ok(report) => if unsolved_cells(report) > 0 {
            seq!["Puzzle has "@ + decimal(unsolved_cells(report) as nat) + " unsolved cells"@]
        } else {
            Seq::empty()
        },
        Err(_) => seq!["Puzzle is unsolvable"@],
    }
}

/// The report of a solve shows a picture whose cells can be counted.
proof fn lemma_report_countable(puzzle: &DynPuzzle, report: Report)
    requires
        puzzle.solved(&default_options(), Ok(report)),
    ensures
        countable(&report.solution),
        report.solution.width() * report.solution.height() <= 0x3FFF_0001,
{
    match puzzle {
        DynPuzzle::Nono(p) => lemma_report_size(p, &default_options(), report),
        DynPuzzle::Triano(p) => lemma_report_size(p, &default_options(), report),
    }
    let w = report.solution.width();
    let h = report.solution.height();
    assert(report.solution.grid@[0]@.len() == h);
    assert(w * h <= 0x7FFF * 0x7FFF) by (nonlinear_arith)
        requires
            0 <= w <= 0x7FFF,
            0 <= h <= 0x7FFF,
    ;
}

impl Document {
    /// What may be wrong with the document, in words: that it names no
    /// author; the problems of its picture, which is found by solving the
    /// puzzle where it is not at hand; and how many cells a solve of its puzzle
    /// leaves without a color, or that the puzzle cannot be solved. The puzzle
    /// is made of the picture where it is not at hand.
    pub fn quality_check(&mut self) -> (problems: Vec<String>)
        requires
            old(self).wf(),
            old(self).held_solution() is Some ==> countable(&old(self).held_solution()->0),
            old(self).held_puzzle() is None ==> old(self).held_solution()->0.turns_puzzle(),
        ensures
            final(self).words() == old(self).words(),
            final(self).held_puzzle() is Some,
            match old(self).held_puzzle() {
                Some(held) => final(self).held_puzzle()->0 == held,
                None => puzzle_of(&old(self).held_solution()->0, &final(self).held_puzzle()->0),
            },
            match old(self).held_solution() {
                Some(held) => final(self).held_solution() == Some(held),
                None => match final(self).held_solution() {
                    Some(found) => reported(&old(self).held_puzzle()->0, &found),
                    None => exists|e: SolveError| #[trigger]
                        old(self).held_puzzle()->0.solved(&default_options(), Err(e)),
                },
            },
            exists|solved: Result<Report, SolveError>| #[trigger]
                final(self).held_puzzle()->0.solved(&default_options(), solved) && texts(problems@)
                    == author_words(old(self).words().author) + picture_words(
                    final(self).held_solution(),
                ) + solve_words(solved),
    {
        let mut problems: Vec<String> = Vec::new();
        if self.author().is_empty() {
            proof {
                reveal_strlit("warning: missing author");
            }
            problems.push("warning: missing author".to_string());
        }
        let ghost said = problems@;
        assert(texts(said) =~= author_words(old(self).words().author));

        match self.solution() {
            Ok(solution) => {
                proof {
                    if old(self).held_solution() is None {
                        let report = choose|report: Report| #[trigger]
                            old(self).held_puzzle()->0.solved(&default_options(), Ok(report))
                                && report.solution == *solution;
                        lemma_report_countable(&old(self).held_puzzle()->0, report);
                    }
                }
                let mut found = solution.quality_check();
                problems.append(&mut found);
            },
            Err(_) => {},
        }
        let ghost pictured = problems@;
        assert(texts(pictured) =~= author_words(old(self).words().author) + picture_words(
            self.held_solution(),
        ));

        let solved = self.puzzle().plain_solve();
        match &solved {
            Ok(report) => {
                proof {
                    lemma_report_countable(&self.held_puzzle()->0, *report);
                }
                let unsolved_count = count_color(&report.solution, unsolved());
                if unsolved_count > 0 {
                    let mut text = String::from_str("Puzzle has ");
                    append_decimal(&mut text, unsolved_count);
                    text.append(" unsolved cells");
                    problems.push(text);
                }
            },
            Err(_) => {
                proof {
                    reveal_strlit("Puzzle is unsolvable");
                }
                problems.push("Puzzle is unsolvable".to_string());
            },
        }
        proof {
            assert(texts(problems@) =~= texts(pictured) + solve_words(solved));
        }
        problems
    }
}

/// What two sequences contain when one is put behind the other.
proof fn lemma_joined(first: Seq<QualityProblem>, second: Seq<QualityProblem>, problem: QualityProblem)
    ensures
        (first + second).contains(problem) <==> first.contains(problem) || second.contains(problem),
{
    let both = first + second;
    if first.contains(problem) {
        let w = choose|w: int| 0 <= w < first.len() && first[w] == problem;
        assert(both[w] == problem);
    }
    if second.contains(problem) {
        let w = choose|w: int| 0 <= w < second.len() && second[w] == problem;
        assert(both[first.len() + w] == problem);
    }
    if both.contains(problem) {
        let w = choose|w: int| 0 <= w < both.len() && both[w] == problem;
        if w < first.len() {
            assert(first[w] == problem);
        } else {
            assert(second[w - first.len()] == problem);
        }
    }
}

/// What one more element, if any, adds to what a sequence contains.
proof fn lemma_pushed(before: Seq<QualityProblem>, after: Seq<QualityProblem>, problem: QualityProblem)
    requires
        after == before || after == before.push(after.last()),
    ensures
        after.contains(problem) <==> before.contains(problem) || (after != before && after.last()
            == problem),
{
    if after != before {
        if before.contains(problem) {
            let w = choose|w: int| 0 <= w < before.len() && before[w] == problem;
            assert(after[w] == problem);
        }
        if after.contains(problem) {
            let w = choose|w: int| 0 <= w < after.len() && after[w] == problem;
            if w < before.len() {
                assert(before[w] == problem);
            }
        }
        if after.last() == problem {
            assert(after[after.len() - 1] == problem);
        }
    }
}

/// The character that stands for a digit.
pub open spec fn digit(d: nat) -> char {
    if d == 0 {
        '0'
    } else if d == 1 {
        '1'
    } else if d == 2 {
        '2'
    } else if d == 3 {
        '3'
    } else if d == 4 {
        '4'
    } else if d == 5 {
        '5'
    } else if d == 6 {
        '6'
    } else if d == 7 {
        '7'
    } else if d == 8 {
        '8'
    } else {
        '9'
    }
}

/// The number written in decimal.
pub open spec fn decimal(n: nat) -> Seq<char>
    decreases n,
{
    if n < 10 {
        seq![digit(n)]
    } else {
        decimal(n / 10).push(digit(n % 10))
    }
}

/// The color written as its three parts in brackets.
pub open spec fn rgb_text(rgb: (u8, u8, u8)) -> Seq<char> {
    "("@ + decimal(rgb.0 as nat) + ", "@ + decimal(rgb.1 as nat) + ", "@ + decimal(rgb.2 as nat)
        + ")"@
}

/// The sentence that tells of the problem.
pub open spec fn sentence(problem: QualityProblem) -> Seq<char> {
    match problem {
        QualityProblem::FewBackground { found } => "warning: "@ + decimal(found as nat)
            + " is a very small number of background squares"@,
        QualityProblem::FewForeground { found } => "warning: "@ + decimal(found as nat)
            + " is a very small number of foreground squares"@,
        QualityProblem::TooManyColors { colors } => decimal(colors as nat)
            + " colors detected. Nonograms with more than 30 colors are not supported."@,
        QualityProblem::ManyColors { colors } => decimal(colors as nat)
            + " colors detected. That's probably too many."@,
        QualityProblem::SimilarColors { first, second } => "warning: very similar colors found: "@
            + rgb_text(first) + " and "@ + rgb_text(second),
    }
}

/// The sentences tell of the problems, one by one.
pub open spec fn tells(words: Seq<String>, found: Seq<QualityProblem>) -> bool {
    &&& words.len() == found.len()
    &&& forall|i: int| 0 <= i < found.len() ==> (#[trigger] words[i])@ == sentence(found[i])
}

fn digit_text(d: usize) -> (text: &'static str)
    requires
        d < 10,
    ensures
        text@ == seq![digit(d as nat)],
{
    proof {
        reveal_strlit("0");
        reveal_strlit("1");
        reveal_strlit("2");
        reveal_strlit("3");
        reveal_strlit("4");
        reveal_strlit("5");
        reveal_strlit("6");
        reveal_strlit("7");
        reveal_strlit("8");
        reveal_strlit("9");
    }
    let text = if d == 0 {
        "0"
    } else if d == 1 {
        "1"
    } else if d == 2 {
        "2"
    } else if d == 3 {
        "3"
    } else if d == 4 {
        "4"
    } else if d == 5 {
        "5"
    } else if d == 6 {
        "6"
    } else if d == 7 {
        "7"
    } else if d == 8 {
        "8"
    } else {
        "9"
    };
    proof {
        assert(text@ =~= seq![digit(d as nat)]);
    }
    text
}

/// Writes the number in decimal behind the text.
fn append_decimal(text: &mut String, n: usize)
    ensures
        final(text)@ == old(text)@ + decimal(n as nat),
    decreases n,
{
    if n >= 10 {
        append_decimal(text, n / 10);
    }
    text.append(digit_text(n % 10));
    proof {
        assert(text@ =~= old(text)@ + decimal(n as nat));
    }
}

/// Writes the color behind the text, as its three parts in brackets.
fn append_rgb(text: &mut String, rgb: (u8, u8, u8))
    ensures
        final(text)@ == old(text)@ + rgb_text(rgb),
{
    text.append("(");
    append_decimal(text, rgb.0 as usize);
    text.append(", ");
    append_decimal(text, rgb.1 as usize);
    text.append(", ");
    append_decimal(text, rgb.2 as usize);
    text.append(")");
    proof {
        assert(text@ =~= old(text)@ + rgb_text(rgb));
    }
}

/// The sentence that tells of the problem.
fn sentence_of(problem: &QualityProblem) -> (text: String)
    ensures
        text@ == sentence(*problem),
{
    match problem {
        QualityProblem::FewBackground { found } => {
            let mut text = String::from_str("warning: ");
            append_decimal(&mut text, *found);
            text.append(" is a very small number of background squares");
            text
        },
        QualityProblem::FewForeground { found } => {
            let mut text = String::from_str("warning: ");
            append_decimal(&mut text, *found);
            text.append(" is a very small number of foreground squares");
            text
        },
        QualityProblem::TooManyColors { colors } => {
            let mut text = String::new();
            append_decimal(&mut text, *colors);
            text.append(" colors detected. Nonograms with more than 30 colors are not supported.");
            proof {
                assert(text@ =~= sentence(*problem));
            }
            text
        },
        QualityProblem::ManyColors { colors } => {
            let mut text = String::new();
            append_decimal(&mut text, *colors);
            text.append(" colors detected. That's probably too many.");
            proof {
                assert(text@ =~= sentence(*problem));
            }
            text
        },
        QualityProblem::SimilarColors { first, second } => {
            let mut text = String::from_str("warning: very similar colors found: ");
            append_rgb(&mut text, *first);
            text.append(" and ");
            append_rgb(&mut text, *second);
            text
        },
    }
}

} // verus!
