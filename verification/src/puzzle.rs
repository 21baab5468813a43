//! Colors, clues, puzzles and solutions.

use crate::grid::{rectangular, Grid};
use crate::grid_solve::{
    analyzable, analyze_lines, cache_ok, settle_solution, settled, solve, solve_grid, solve_post,
    solved_from_full, status_holds, default_options, LineCache, LineStatus, Report, SolveOptions,
};
use crate::import::{
    nono_puzzle_of, solution_to_puzzle, solution_to_triano_puzzle, triano_puzzle_of,
};
use crate::line_solve::{Cell, SolveError};
use std::collections::HashMap;
use vstd::prelude::*;

verus! {

/// A color of the palette. The values below 32 can stand in a cell.
#[derive(PartialEq, Eq, Structural, Clone, Copy, Hash, Debug, PartialOrd, Ord)]
pub struct Color(pub u8);

/// The color of every cell that no clue covers.
#[verifier::allow_in_spec]
pub fn background() -> Color
    returns
        Color(0),
{
    Color(0)
}

/// Stands in a finished grid where the solver could not tell the color.
#[verifier::allow_in_spec]
pub fn unsolved() -> Color
    returns
        Color(255),
{
    Color(255)
}

impl Color {
    /// Whether the color can be one of the possibilities of a cell.
    pub open spec fn fits_cell(self) -> bool {
        self.0 < 32
    }
}

/// A triangle-shaped half of a square. `true` means solid in the given direction.
#[derive(PartialEq, Eq, Structural, Clone, Copy, Debug, Hash)]
pub struct Corner {
    pub upper: bool,
    pub left: bool,
}

/// What is shown for a color. `rgb` need not be unique; `rgb` together with
/// `corner` ought to be.
#[derive(PartialEq, Eq, Debug, Hash)]
pub struct ColorInfo {
    pub ch: char,
    pub name: String,
    pub rgb: (u8, u8, u8),
    pub color: Color,
    pub corner: Option<Corner>,
}

/// The colors of a puzzle, by the number of each color.
pub type Palette = HashMap<u8, ColorInfo>;

impl ColorInfo {
    /// Two infos that show the same thing.
    pub open spec fn same(&self, other: &ColorInfo) -> bool {
        &&& self.ch == other.ch
        &&& self.name@ == other.name@
        &&& self.rgb == other.rgb
        &&& self.color == other.color
        &&& self.corner == other.corner
    }
}

impl Clone for ColorInfo {
    fn clone(&self) -> (copy: ColorInfo)
        ensures
            copy.same(self),
    {
        ColorInfo {
            ch: self.ch,
            name: self.name.clone(),
            rgb: self.rgb,
            color: self.color,
            corner: self.corner,
        }
    }
}

impl ColorInfo {
    /// The info shows the background as it is shown where nothing else is
    /// said: white.
    pub open spec fn is_default_bg(&self) -> bool {
        &&& self.ch == ' '
        &&& self.name@ == "white"@
        &&& self.rgb == (255u8, 255u8, 255u8)
        &&& self.color == background()
        &&& self.corner is None
    }

    /// The info shows the color as one is shown where nothing else is said:
    /// black.
    pub open spec fn is_default_fg(&self, color: Color) -> bool {
        &&& self.ch == '#'
        &&& self.name@ == "black"@
        &&& self.rgb == (0u8, 0u8, 0u8)
        &&& self.color == color
        &&& self.corner is None
    }

    pub fn default_bg() -> (info: ColorInfo)
        ensures
            info.is_default_bg(),
    {
        broadcast use vstd::string::to_string_from_display_ensures_for_str;

        ColorInfo {
            ch: ' ',
            name: "white".to_string(),
            rgb: (255, 255, 255),
            color: background(),
            corner: None,
        }
    }

    pub fn default_fg(color: Color) -> (info: ColorInfo)
        ensures
            info.is_default_fg(color),
    {
        broadcast use vstd::string::to_string_from_display_ensures_for_str;

        ColorInfo { ch: '#', name: "black".to_string(), rgb: (0, 0, 0), color, corner: None }
    }
}

#[derive(Clone, Copy, Debug, PartialEq, Eq, Structural)]
pub enum ClueStyle {
    Nono,
    Triano,
}

impl Default for ClueStyle {
    fn default() -> (style: ClueStyle)
        ensures
            style == ClueStyle::Nono,
    {
        ClueStyle::Nono
    }
}

/// What the line solver needs to know of a clue: how many cells it covers,
/// which color each of them has, and whether a background cell must lie
/// between it and the clue that follows.
pub trait Clue: Copy {
    /// The number of cells that the clue covers.
    spec fn spec_len(&self) -> nat;

    /// The color of the cell at offset `idx` of the clue.
    spec fn spec_color_at(&self, idx: int) -> Color;

    /// Whether `next`, standing right of this clue, must leave a gap.
    spec fn spec_separated(&self, next: &Self) -> bool;

    /// The clue covers at least one cell, and its colors can stand in a cell.
    spec fn well_formed(&self) -> bool;

    proof fn well_formed_covers(&self)
        requires
            self.well_formed(),
        ensures
            self.spec_len() >= 1,
            forall|idx: int| 0 <= idx < self.spec_len() ==> (#[trigger] self.spec_color_at(idx)).fits_cell(),
    ;

    fn style() -> (style: ClueStyle)
        ensures
            style == Self::spec_style(),
    ;

    fn must_be_separated_from(&self, next: &Self) -> (separated: bool)
        ensures
            separated == self.spec_separated(next),
    ;

    fn len(&self) -> (len: usize)
        ensures
            len == self.spec_len(),
    ;

    fn color_at(&self, idx: usize) -> (color: Color)
        ensures
            color == self.spec_color_at(idx as int),
    ;

    /// Whether the clue is one that a user can have written down.
    fn is_well_formed(&self) -> (ok: bool)
        ensures
            ok == self.well_formed(),
    ;

    /// Whether two clues are the same clue.
    fn same_as(&self, other: &Self) -> (same: bool)
        ensures
            same == (*self == *other),
    ;

    /// The puzzle as one of either style: it is held as it is, under the
    /// style of its clues.
    fn to_dyn(puzzle: Puzzle<Self>) -> (dynamic: DynPuzzle)
        ensures
            dynamic == Self::spec_to_dyn(puzzle),
            dynamic.style() == Self::spec_style(),
    ;

    /// The puzzle of either style that holds the puzzle.
    spec fn spec_to_dyn(puzzle: Puzzle<Self>) -> DynPuzzle;

    spec fn spec_style() -> ClueStyle;

    /// The parts that the clue is shown as, from its first cell on: each a
    /// color with the number of its cells, or with no number for a cap.
    spec fn spec_express(&self) -> Seq<(Color, Option<u16>)>;

    /// The parts that the clue is shown as, each with what the palette of
    /// the puzzle shows for its color.
    fn express<'a>(&self, puzzle: &'a Puzzle<Self>) -> (parts: Vec<(&'a ColorInfo, Option<u16>)>)
        requires
            forall|i: int|
                0 <= i < self.spec_express().len() ==> puzzle.palette@.contains_key(
                    (#[trigger] self.spec_express()[i]).0.0,
                ),
        ensures
            parts@.len() == self.spec_express().len(),
            forall|i: int|
                0 <= i < parts@.len() ==> *(#[trigger] parts@[i]).0
                    == puzzle.palette@[self.spec_express()[i].0.0] && parts@[i].1
                    == self.spec_express()[i].1,
    ;
}

/// What the palette shows for a color that it lists.
pub fn color_info<'a>(palette: &'a Palette, color: Color) -> (info: &'a ColorInfo)
    requires
        palette@.contains_key(color.0),
    ensures
        *info == palette@[color.0],
{
    broadcast use vstd::std_specs::hash::group_hash_axioms;

    match palette.get(&color.0) {
        Some(info) => info,
        None => vstd::pervasive::unreached(),
    }
}

/// A run of `count` cells of one color.
#[derive(PartialEq, Eq, Structural, Clone, Copy, Hash, Debug)]
pub struct Nono {
    pub color: Color,
    pub count: u16,
}

impl Clue for Nono {
    open spec fn spec_len(&self) -> nat {
        self.count as nat
    }

    open spec fn spec_color_at(&self, idx: int) -> Color {
        self.color
    }

    open spec fn spec_separated(&self, next: &Self) -> bool {
        self.color == next.color
    }

    open spec fn well_formed(&self) -> bool {
        self.count > 0 && self.color.fits_cell()
    }

    open spec fn spec_style() -> ClueStyle {
        ClueStyle::Nono
    }

    proof fn well_formed_covers(&self) {
    }

    fn style() -> (style: ClueStyle) {
        ClueStyle::Nono
    }

    fn must_be_separated_from(&self, next: &Self) -> (separated: bool) {
        self.color == next.color
    }

    fn len(&self) -> (len: usize) {
        self.count as usize
    }

    fn color_at(&self, _idx: usize) -> (color: Color) {
        self.color
    }

    fn is_well_formed(&self) -> (ok: bool) {
        self.count > 0 && self.color.0 < 32
    }

    fn same_as(&self, other: &Self) -> (same: bool) {
        self.color == other.color && self.count == other.count
    }

    fn to_dyn(puzzle: Puzzle<Self>) -> (dynamic: DynPuzzle) {
        assert(Self::spec_to_dyn(puzzle) == DynPuzzle::Nono(puzzle));
        DynPuzzle::Nono(puzzle)
    }

    open spec fn spec_to_dyn(puzzle: Puzzle<Self>) -> DynPuzzle {
        DynPuzzle::Nono(puzzle)
    }

    open spec fn spec_express(&self) -> Seq<(Color, Option<u16>)> {
        seq![(self.color, Some(self.count))]
    }

    fn express<'a>(&self, puzzle: &'a Puzzle<Self>) -> (parts: Vec<(&'a ColorInfo, Option<u16>)>) {
        assert(self.spec_express()[0] == (self.color, Some(self.count)));
        let mut parts: Vec<(&'a ColorInfo, Option<u16>)> = Vec::new();
        parts.push((color_info(&puzzle.palette, self.color), Some(self.count)));
        parts
    }
}

/// A run with an optional triangular cap at either end: the caps cover one
/// cell each, the body `body_len` cells between them.
#[derive(PartialEq, Eq, Structural, Clone, Copy, Hash, Debug)]
pub struct Triano {
    pub front_cap: Option<Color>,
    pub body_len: u16,
    pub body_color: Color,
    pub back_cap: Option<Color>,
}

impl Clue for Triano {
    open spec fn spec_len(&self) -> nat {
        (self.body_len + (if self.front_cap is Some { 1int } else { 0 })
            + (if self.back_cap is Some { 1int } else { 0 })) as nat
    }

    open spec fn spec_color_at(&self, idx: int) -> Color {
        if idx == 0 && self.front_cap is Some {
            self.front_cap->0
        } else if idx + 1 == self.spec_len() && self.back_cap is Some {
            self.back_cap->0
        } else {
            self.body_color
        }
    }

    open spec fn spec_separated(&self, next: &Self) -> bool {
        self.body_color == next.body_color && self.back_cap is None && next.front_cap is None
    }

    open spec fn well_formed(&self) -> bool {
        &&& self.spec_len() >= 1
        &&& self.body_color.fits_cell()
        &&& self.front_cap is Some ==> (self.front_cap->0).fits_cell()
        &&& self.back_cap is Some ==> (self.back_cap->0).fits_cell()
    }

    open spec fn spec_style() -> ClueStyle {
        ClueStyle::Triano
    }

    proof fn well_formed_covers(&self) {
    }

    fn style() -> (style: ClueStyle) {
        ClueStyle::Triano
    }

    fn len(&self) -> (len: usize) {
        let front: usize = if self.front_cap.is_some() { 1 } else { 0 };
        let back: usize = if self.back_cap.is_some() { 1 } else { 0 };
        self.body_len as usize + front + back
    }

    fn color_at(&self, idx: usize) -> (color: Color) {
        let len = self.len();
        match (self.front_cap, self.back_cap) {
            (Some(c), _) if idx == 0 => c,
            (_, Some(c)) if idx < len && idx + 1 == len => c,
            _ => self.body_color,
        }
    }

    fn must_be_separated_from(&self, next: &Self) -> (separated: bool) {
        self.body_color == next.body_color && self.back_cap.is_none() && next.front_cap.is_none()
    }

    fn is_well_formed(&self) -> (ok: bool) {
        let front_ok = match self.front_cap {
            Some(c) => c.0 < 32,
            None => true,
        };
        let back_ok = match self.back_cap {
            Some(c) => c.0 < 32,
            None => true,
        };
        self.len() >= 1 && self.body_color.0 < 32 && front_ok && back_ok
    }

    fn same_as(&self, other: &Self) -> (same: bool) {
        self.front_cap == other.front_cap && self.body_len == other.body_len && self.body_color
            == other.body_color && self.back_cap == other.back_cap
    }

    fn to_dyn(puzzle: Puzzle<Self>) -> (dynamic: DynPuzzle) {
        assert(Self::spec_to_dyn(puzzle) == DynPuzzle::Triano(puzzle));
        DynPuzzle::Triano(puzzle)
    }

    open spec fn spec_to_dyn(puzzle: Puzzle<Self>) -> DynPuzzle {
        DynPuzzle::Triano(puzzle)
    }

    open spec fn spec_express(&self) -> Seq<(Color, Option<u16>)> {
        let front = match self.front_cap {
            Some(c) => seq![(c, None::<u16>)],
            None => Seq::empty(),
        };
        let body = if self.body_len > 0 {
            seq![(self.body_color, Some(self.body_len))]
        } else {
            Seq::empty()
        };
        let back = match self.back_cap {
            Some(c) => seq![(c, None::<u16>)],
            None => Seq::empty(),
        };
        front + body + back
    }

    fn express<'a>(&self, puzzle: &'a Puzzle<Self>) -> (parts: Vec<(&'a ColorInfo, Option<u16>)>) {
        let ghost shown = self.spec_express();
        let mut parts: Vec<(&'a ColorInfo, Option<u16>)> = Vec::new();
        if let Some(front_cap) = self.front_cap {
            assert(shown[0] == (front_cap, None::<u16>));
            parts.push((color_info(&puzzle.palette, front_cap), None));
        }
        if self.body_len > 0 {
            assert(shown[parts@.len() as int] == (self.body_color, Some(self.body_len)));
            parts.push((color_info(&puzzle.palette, self.body_color), Some(self.body_len)));
        }
        if let Some(back_cap) = self.back_cap {
            assert(shown[parts@.len() as int] == (back_cap, None::<u16>));
            parts.push((color_info(&puzzle.palette, back_cap), None));
        }
        parts
    }
}

/// The clues of every row and of every column, with the palette that their
/// colors come from. The palette should include the background.
#[derive(Clone, Debug, PartialEq, Eq)]
pub struct Puzzle<C: Clue> {
    pub palette: Palette,
    pub rows: Vec<Vec<C>>,
    pub cols: Vec<Vec<C>>,
}

/// A grid of colors, stored column by column: `grid[x][y]`.
#[derive(Clone, Debug, PartialEq, Eq)]
pub struct Solution {
    pub clue_style: ClueStyle,
    pub palette: Palette,
    pub grid: Vec<Vec<Color>>,
}

#[derive(Clone, Debug, PartialEq, Eq)]
pub enum DynPuzzle {
    Nono(Puzzle<Nono>),
    Triano(Puzzle<Triano>),
}

impl DynPuzzle {
    pub open spec fn style(&self) -> ClueStyle {
        match self {
            DynPuzzle::Nono(_) => ClueStyle::Nono,
            DynPuzzle::Triano(_) => ClueStyle::Triano,
        }
    }
}

impl Solution {
    /// The grid has a column, and all its columns are of one length.
    pub open spec fn well_formed(&self) -> bool {
        &&& self.grid@.len() > 0
        &&& forall|x: int| 0 <= x < self.grid@.len() ==> (#[trigger] self.grid@[x])@.len() == self.grid@[0]@.len()
    }

    /// The number of columns.
    pub open spec fn width(&self) -> int {
        self.grid@.len() as int
    }

    /// The number of rows.
    pub open spec fn height(&self) -> int {
        self.grid@[0]@.len() as int
    }

    /// The color in column `x` and row `y`.
    pub open spec fn color(&self, x: int, y: int) -> Color {
        self.grid@[x]@[y]
    }

    /// The colors of row `y`, from left to right.
    pub open spec fn row(&self, y: int) -> Seq<Color> {
        Seq::new(self.grid@.len(), |x: int| self.grid@[x]@[y])
    }

    /// The colors of column `x`, from the top down.
    pub open spec fn column(&self, x: int) -> Seq<Color> {
        self.grid@[x]@
    }

    /// No cell is left unsolved.
    pub open spec fn complete(&self) -> bool {
        forall|x: int, y: int|
            0 <= x < self.grid@.len() && 0 <= y < self.grid@[x]@.len() ==> self.color(x, y)
                != unsolved()
    }

    pub fn x_size(&self) -> (width: usize)
        ensures
            width == self.width(),
    {
        self.grid.len()
    }

    pub fn y_size(&self) -> (height: usize)
        requires
            self.grid@.len() > 0,
        ensures
            height == self.height(),
    {
        self.grid[0].len()
    }
}

/// A grid of cells that holds what is known of each cell.
pub type PartialSolution = Grid;

/// How many cells in a row, from `from` on, have the color.
pub open spec fn run_forward(colors: Seq<Color>, from: int, target: Color) -> int
    decreases colors.len() - from,
{
    if 0 <= from < colors.len() && colors[from] == target {
        1 + run_forward(colors, from + 1, target)
    } else {
        0
    }
}

/// How many cells in a row, from the one before `before` backwards, have the
/// color.
pub open spec fn run_back(colors: Seq<Color>, before: int, target: Color) -> int
    decreases before,
{
    if 0 < before <= colors.len() && colors[before - 1] == target {
        1 + run_back(colors, before - 1, target)
    } else {
        0
    }
}

/// The cell that stands for a color of a picture where nothing is known of
/// the cells that are not solved.
pub open spec fn partial_cell(color: Color, cell: Cell) -> bool {
    if color == unsolved() {
        cell.bits() == u32::MAX
    } else {
        cell.known_to_be(color)
    }
}

impl Solution {
    /// The picture can be turned into a grid of cells: it is well formed,
    /// small enough to be held in memory twice, and every color in it can stand
    /// in a cell or is `unsolved()`.
    pub open spec fn turns_partial(&self) -> bool {
        &&& self.well_formed()
        &&& self.width() <= isize::MAX
        &&& self.height() <= isize::MAX
        &&& self.width() * self.height() * 4 <= isize::MAX
        &&& forall|x: int, y: int|
            0 <= x < self.width() && 0 <= y < self.height() ==> (#[trigger] self.color(
                x,
                y,
            )).fits_cell() || self.color(x, y) == unsolved()
    }

    /// The grid of cells, row by row, that holds what the picture knows: a
    /// cell that is not solved can have any color.
    pub fn to_partial(&self) -> (partial: PartialSolution)
        requires
            self.turns_partial(),
        ensures
            partial.height() == self.height(),
            partial.width() == self.width(),
            rectangular(partial@, partial.width()),
            forall|x: int, y: int|
                0 <= x < self.width() && 0 <= y < self.height() ==> partial_cell(
                    self.color(x, y),
                    #[trigger] partial@[y][x],
                ),
    {
        let x_size = self.x_size();
        let y_size = self.y_size();
        proof {
            assert(y_size * x_size * 4 == x_size * y_size * 4) by (nonlinear_arith);
        }
        let mut res = Grid::from_elem((y_size, x_size), Cell::new_impossible());
        let mut x: usize = 0;
        while x < x_size
            invariant
                self.turns_partial(),
                x_size == self.width(),
                y_size == self.height(),
                res.height() == y_size,
                res.width() == x_size,
                rectangular(res@, res.width()),
                x <= x_size,
                forall|i: int, j: int|
                    0 <= i < x && 0 <= j < y_size ==> partial_cell(self.color(i, j), #[trigger] res@[j][i]),
            decreases x_size - x,
        {
            let mut y: usize = 0;
            while y < y_size
                invariant
                    self.turns_partial(),
                    x_size == self.width(),
                    y_size == self.height(),
                    res.height() == y_size,
                    res.width() == x_size,
                    rectangular(res@, res.width()),
                    x < x_size,
                    y <= y_size,
                    forall|i: int, j: int|
                        0 <= i < x && 0 <= j < y_size ==> partial_cell(
                            self.color(i, j),
                            #[trigger] res@[j][i],
                        ),
                    forall|j: int|
                        0 <= j < y ==> partial_cell(self.color(x as int, j), #[trigger] res@[j][x as int]),
                decreases y_size - y,
            {
                assert(self.grid@[x as int]@.len() == self.grid@[0]@.len());
                let color = self.grid[x][y];
                assert(self.color(x as int, y as int) == color);
                let ghost before = res@;
                if color == unsolved() {
                    res.set(y, x, Cell::new_anything());
                } else {
                    res.set(y, x, Cell::from_color(color));
                }
                proof {
                    assert forall|i: int| 0 <= i < res@.len() implies (#[trigger] res@[i]).len()
                        == res.width() by {
                        assert(before[i].len() == res.width());
                    }
                    assert forall|i: int, j: int| 0 <= i < x && 0 <= j < y_size implies partial_cell(
                        self.color(i, j),
                        #[trigger] res@[j][i],
                    ) by {
                        assert(partial_cell(self.color(i, j), before[j][i]));
                        assert(before[j].len() == res.width());
                    }
                    assert forall|j: int| 0 <= j < y + 1 implies partial_cell(
                        self.color(x as int, j),
                        #[trigger] res@[j][x as int],
                    ) by {
                        if j < y {
                            assert(partial_cell(self.color(x as int, j), before[j][x as int]));
                        }
                    }
                }
                y = y + 1;
            }
            x = x + 1;
        }
        res
    }

    /// A picture of the given size, all background, in black and white.
    pub fn blank_bw(x_size: usize, y_size: usize) -> (blank: Solution)
        ensures
            blank.clue_style == ClueStyle::Nono,
            blank.palette@.dom() =~= set![0u8, 1u8],
            blank.palette@[0u8].is_default_bg(),
            blank.palette@[1u8].is_default_fg(Color(1)),
            blank.grid@.len() == x_size,
            forall|x: int| 0 <= x < x_size ==> (#[trigger] blank.grid@[x])@.len() == y_size,
            forall|x: int, y: int| 0 <= x < x_size && 0 <= y < y_size ==> blank.color(x, y) == background(),
    {
        let mut grid: Vec<Vec<Color>> = Vec::new();
        let mut x: usize = 0;
        while x < x_size
            invariant
                x <= x_size,
                grid@.len() == x,
                forall|i: int| 0 <= i < x ==> (#[trigger] grid@[i])@.len() == y_size,
                forall|i: int, j: int| 0 <= i < x && 0 <= j < y_size ==> grid@[i]@[j] == background(),
            decreases x_size - x,
        {
            let mut column: Vec<Color> = Vec::new();
            let mut y: usize = 0;
            while y < y_size
                invariant
                    y <= y_size,
                    column@.len() == y,
                    forall|j: int| 0 <= j < y ==> column@[j] == background(),
                decreases y_size - y,
            {
                column.push(background());
                y = y + 1;
            }
            grid.push(column);
            x = x + 1;
        }
        Solution { clue_style: ClueStyle::Nono, palette: crate::import::bw_palette(), grid }
    }

    /// The picture can be turned into a puzzle: it is well formed, neither
    /// its columns nor its rows are more than 65535, and, for clues with caps,
    /// every color in it is listed in the palette.
    pub open spec fn turns_puzzle(&self) -> bool {
        &&& self.well_formed()
        &&& self.width() <= 0xFFFF
        &&& self.height() <= 0xFFFF
        &&& self.clue_style == ClueStyle::Triano ==> crate::import::colors_in_palette(self)
    }

    /// The puzzle that the picture is a solution of, with clues of the
    /// picture's style.
    pub fn to_puzzle(&self) -> (puzzle: DynPuzzle)
        requires
            self.turns_puzzle(),
        ensures
            match puzzle {
                DynPuzzle::Nono(p) => self.clue_style == ClueStyle::Nono && nono_puzzle_of(self, &p),
                DynPuzzle::Triano(p) => self.clue_style == ClueStyle::Triano && triano_puzzle_of(
                    self,
                    &p,
                ),
            },
    {
        match self.clue_style {
            ClueStyle::Nono => DynPuzzle::Nono(solution_to_puzzle(self)),
            ClueStyle::Triano => DynPuzzle::Triano(solution_to_triano_puzzle(self)),
        }
    }

    /// How many cells of the color of the cell at `(x, y)` lie next to it in
    /// an unbroken run: above it, below it, left of it and right of it.
    pub fn count_contiguous(&self, x: usize, y: usize) -> (runs: (usize, usize, usize, usize))
        requires
            self.well_formed(),
            x < self.width(),
            y < self.height(),
        ensures
            runs.0 == run_back(self.column(x as int), y as int, self.color(x as int, y as int)),
            runs.1 == run_forward(self.column(x as int), y + 1, self.color(x as int, y as int)),
            runs.2 == run_back(self.row(y as int), x as int, self.color(x as int, y as int)),
            runs.3 == run_forward(self.row(y as int), x + 1, self.color(x as int, y as int)),
    {
        assert(self.grid@[x as int]@.len() == self.grid@[0]@.len());
        let target_color = self.grid[x][y];
        let x_size = self.x_size();
        let y_size = self.y_size();
        let ghost column = self.column(x as int);
        let ghost row = self.row(y as int);

        let mut up: usize = 0;
        while up < y && self.grid[x][y - 1 - up] == target_color
            invariant
                self.well_formed(),
                x < self.width(),
                y < self.height(),
                column == self.column(x as int),
                up <= y,
                run_back(column, y as int, target_color) == up + run_back(column, y - up, target_color),
            decreases y - up,
        {
            up = up + 1;
        }

        let mut down: usize = 0;
        while y + 1 + down < y_size && self.grid[x][y + 1 + down] == target_color
            invariant
                self.well_formed(),
                x < self.width(),
                y < self.height(),
                y_size == self.height(),
                column == self.column(x as int),
                y + 1 + down <= y_size,
                run_forward(column, y + 1, target_color) == down + run_forward(
                    column,
                    y + 1 + down,
                    target_color,
                ),
            decreases y_size - down,
        {
            down = down + 1;
        }

        let mut left: usize = 0;
        while left < x && self.cell_is(x - 1 - left, y, target_color)
            invariant
                self.well_formed(),
                x < self.width(),
                y < self.height(),
                row == self.row(y as int),
                left <= x,
                run_back(row, x as int, target_color) == left + run_back(row, x - left, target_color),
            decreases x - left,
        {
            left = left + 1;
        }

        let mut right: usize = 0;
        while x + 1 + right < x_size && self.cell_is(x + 1 + right, y, target_color)
            invariant
                self.well_formed(),
                x < self.width(),
                y < self.height(),
                x_size == self.width(),
                row == self.row(y as int),
                x + 1 + right <= x_size,
                run_forward(row, x + 1, target_color) == right + run_forward(
                    row,
                    x + 1 + right,
                    target_color,
                ),
            decreases x_size - right,
        {
            right = right + 1;
        }

        (up, down, left, right)
    }

    /// Whether the cell at `(x, y)` has the color.
    pub fn cell_is(&self, x: usize, y: usize, color: Color) -> (is: bool)
        requires
            self.well_formed(),
            x < self.width(),
            y < self.height(),
        ensures
            is == (self.color(x as int, y as int) == color),
    {
        assert(self.grid@[x as int]@.len() == self.grid@[0]@.len());
        self.grid[x][y] == color
    }
}

impl DynPuzzle {
    /// Calls the one of the two functions that is for the clues of this
    /// puzzle.
    pub fn specialize<FN, FT, T>(&self, f_n: FN, f_t: FT) -> (result: T) where
        FN: FnOnce(&Puzzle<Nono>) -> T,
        FT: FnOnce(&Puzzle<Triano>) -> T,

        requires
            match self {
                DynPuzzle::Nono(p) => f_n.requires((p,)),
                DynPuzzle::Triano(p) => f_t.requires((p,)),
            },
        ensures
            match self {
                DynPuzzle::Nono(p) => f_n.ensures((p,), result),
                DynPuzzle::Triano(p) => f_t.ensures((p,), result),
            },
    {
        match self {
            DynPuzzle::Nono(p) => f_n(p),
            DynPuzzle::Triano(p) => f_t(p),
        }
    }

    /// The puzzle, which must be one with plain clues.
    pub fn assume_nono(&self) -> (puzzle: &Puzzle<Nono>)
        requires
            self is Nono,
        ensures
            *self == DynPuzzle::Nono(*puzzle),
    {
        match self {
            DynPuzzle::Nono(p) => p,
            DynPuzzle::Triano(_) => vstd::pervasive::unreached(),
        }
    }

    /// The puzzle, which must be one with capped clues.
    pub fn assume_triano(&self) -> (puzzle: &Puzzle<Triano>)
        requires
            self is Triano,
        ensures
            *self == DynPuzzle::Triano(*puzzle),
    {
        match self {
            DynPuzzle::Nono(_) => vstd::pervasive::unreached(),
            DynPuzzle::Triano(p) => p,
        }
    }
}

/// What can be asked of a puzzle whatever the style of its clues.
pub trait PuzzleDynOps {
    /// The number of rows.
    spec fn height(&self) -> nat;

    /// The number of columns.
    spec fn width(&self) -> nat;

    spec fn spec_palette(&self) -> Map<u8, ColorInfo>;

    /// What a solve from the full grid has returned.
    spec fn solved(&self, options: &SolveOptions, solved: Result<Report, SolveError>) -> bool;

    /// What a solve from the grid `start`, which left it as `end`, has
    /// returned.
    spec fn solved_on(
        &self,
        options: &SolveOptions,
        start: &PartialSolution,
        end: &PartialSolution,
        solved: Result<Report, SolveError>,
    ) -> bool;

    /// The lines of the puzzle can be analyzed on the grid.
    spec fn can_analyze(&self, partial: &PartialSolution) -> bool;

    /// The statuses hold of the rows and of the columns of the grid.
    spec fn analyzed(&self, partial: &PartialSolution, statuses: (Vec<LineStatus>, Vec<LineStatus>)) -> bool;

    /// What settling on the grid `start`, which left it as `end`, has returned.
    spec fn settled_on(&self, start: &PartialSolution, end: &PartialSolution, outcome: Result<(), SolveError>) -> bool;

    fn palette(&self) -> (palette: &Palette)
        ensures
            palette@ == self.spec_palette(),
    ;

    fn rows(&self) -> (rows: usize)
        ensures
            rows == self.height(),
    ;

    fn cols(&self) -> (cols: usize)
        ensures
            cols == self.width(),
    ;

    fn solve(&self, options: &SolveOptions) -> (solved: Result<Report, SolveError>)
        ensures
            self.solved(options, solved),
    ;

    fn partial_solve(&self, partial: &mut PartialSolution, options: &SolveOptions) -> (solved: Result<
        Report,
        SolveError,
    >)
        ensures
            self.solved_on(options, old(partial), final(partial), solved),
    ;

    fn plain_solve(&self) -> (solved: Result<Report, SolveError>)
        ensures
            self.solved(&default_options(), solved),
    ;

    fn analyze_lines(&self, partial: &PartialSolution) -> (statuses: (Vec<LineStatus>, Vec<LineStatus>))
        requires
            self.can_analyze(partial),
        ensures
            self.analyzed(partial, statuses),
    ;

    fn settle_solution(&self, partial: &mut PartialSolution) -> (outcome: Result<(), SolveError>)
        ensures
            self.settled_on(old(partial), final(partial), outcome),
    ;
}

/// The statuses hold of the rows and of the columns of the grid.
pub open spec fn lines_analyzed<C: Clue>(
    puzzle: &Puzzle<C>,
    partial: &PartialSolution,
    statuses: (Vec<LineStatus>, Vec<LineStatus>),
) -> bool {
    &&& statuses.0@.len() == puzzle.rows@.len()
    &&& statuses.1@.len() == puzzle.cols@.len()
    &&& forall|y: int|
        0 <= y < puzzle.rows@.len() ==> status_holds(
            puzzle.rows@[y]@,
            crate::grid::lane_of(partial@, true, y),
            #[trigger] statuses.0@[y],
        )
    &&& forall|x: int|
        0 <= x < puzzle.cols@.len() ==> status_holds(
            puzzle.cols@[x]@,
            crate::grid::lane_of(partial@, false, x),
            #[trigger] statuses.1@[x],
        )
}

impl<C: Clue> PuzzleDynOps for Puzzle<C> {
    open spec fn height(&self) -> nat {
        self.rows@.len()
    }

    open spec fn width(&self) -> nat {
        self.cols@.len()
    }

    open spec fn spec_palette(&self) -> Map<u8, ColorInfo> {
        self.palette@
    }

    open spec fn solved(&self, options: &SolveOptions, solved: Result<Report, SolveError>) -> bool {
        solved_from_full(self, options, solved)
    }

    open spec fn solved_on(
        &self,
        options: &SolveOptions,
        start: &PartialSolution,
        end: &PartialSolution,
        solved: Result<Report, SolveError>,
    ) -> bool {
        solve_post(self, options, start, end, solved)
    }

    open spec fn can_analyze(&self, partial: &PartialSolution) -> bool {
        analyzable(self, partial)
    }

    open spec fn analyzed(&self, partial: &PartialSolution, statuses: (Vec<LineStatus>, Vec<LineStatus>)) -> bool {
        lines_analyzed(self, partial, statuses)
    }

    open spec fn settled_on(&self, start: &PartialSolution, end: &PartialSolution, outcome: Result<(), SolveError>) -> bool {
        settled(self, start, end, outcome)
    }

    fn palette(&self) -> (palette: &Palette) {
        &self.palette
    }

    fn rows(&self) -> (rows: usize) {
        self.rows.len()
    }

    fn cols(&self) -> (cols: usize) {
        self.cols.len()
    }

    fn partial_solve(&self, partial: &mut PartialSolution, options: &SolveOptions) -> (solved: Result<
        Report,
        SolveError,
    >) {
        let mut no_cache: Option<LineCache<C>> = None;
        solve_grid(self, &mut no_cache, options, partial)
    }

    fn solve(&self, options: &SolveOptions) -> (solved: Result<Report, SolveError>) {
        let mut no_cache: Option<LineCache<C>> = None;
        solve(self, &mut no_cache, options)
    }

    fn plain_solve(&self) -> (solved: Result<Report, SolveError>) {
        let mut no_cache: Option<LineCache<C>> = None;
        solve(self, &mut no_cache, &SolveOptions::default())
    }

    fn analyze_lines(&self, partial: &PartialSolution) -> (statuses: (Vec<LineStatus>, Vec<LineStatus>)) {
        analyze_lines(self, partial)
    }

    fn settle_solution(&self, partial: &mut PartialSolution) -> (outcome: Result<(), SolveError>) {
        settle_solution(self, partial)
    }
}

impl PuzzleDynOps for DynPuzzle {
    open spec fn height(&self) -> nat {
        match self {
            DynPuzzle::Nono(p) => p.height(),
            DynPuzzle::Triano(p) => p.height(),
        }
    }

    open spec fn width(&self) -> nat {
        match self {
            DynPuzzle::Nono(p) => p.width(),
            DynPuzzle::Triano(p) => p.width(),
        }
    }

    open spec fn spec_palette(&self) -> Map<u8, ColorInfo> {
        match self {
            DynPuzzle::Nono(p) => p.spec_palette(),
            DynPuzzle::Triano(p) => p.spec_palette(),
        }
    }

    open spec fn solved(&self, options: &SolveOptions, solved: Result<Report, SolveError>) -> bool {
        match self {
            DynPuzzle::Nono(p) => p.solved(options, solved),
            DynPuzzle::Triano(p) => p.solved(options, solved),
        }
    }

    open spec fn solved_on(
        &self,
        options: &SolveOptions,
        start: &PartialSolution,
        end: &PartialSolution,
        solved: Result<Report, SolveError>,
    ) -> bool {
        match self {
            DynPuzzle::Nono(p) => p.solved_on(options, start, end, solved),
            DynPuzzle::Triano(p) => p.solved_on(options, start, end, solved),
        }
    }

    open spec fn can_analyze(&self, partial: &PartialSolution) -> bool {
        match self {
            DynPuzzle::Nono(p) => p.can_analyze(partial),
            DynPuzzle::Triano(p) => p.can_analyze(partial),
        }
    }

    open spec fn analyzed(&self, partial: &PartialSolution, statuses: (Vec<LineStatus>, Vec<LineStatus>)) -> bool {
        match self {
            DynPuzzle::Nono(p) => p.analyzed(partial, statuses),
            DynPuzzle::Triano(p) => p.analyzed(partial, statuses),
        }
    }

    open spec fn settled_on(&self, start: &PartialSolution, end: &PartialSolution, outcome: Result<(), SolveError>) -> bool {
        match self {
            DynPuzzle::Nono(p) => p.settled_on(start, end, outcome),
            DynPuzzle::Triano(p) => p.settled_on(start, end, outcome),
        }
    }

    fn palette(&self) -> (palette: &Palette) {
        match self {
            DynPuzzle::Nono(p) => p.palette(),
            DynPuzzle::Triano(p) => p.palette(),
        }
    }

    fn rows(&self) -> (rows: usize) {
        match self {
            DynPuzzle::Nono(p) => p.rows(),
            DynPuzzle::Triano(p) => p.rows(),
        }
    }

    fn cols(&self) -> (cols: usize) {
        match self {
            DynPuzzle::Nono(p) => p.cols(),
            DynPuzzle::Triano(p) => p.cols(),
        }
    }

    fn partial_solve(&self, partial: &mut PartialSolution, options: &SolveOptions) -> (solved: Result<
        Report,
        SolveError,
    >) {
        match self {
            DynPuzzle::Nono(p) => p.partial_solve(partial, options),
            DynPuzzle::Triano(p) => p.partial_solve(partial, options),
        }
    }

    fn solve(&self, options: &SolveOptions) -> (solved: Result<Report, SolveError>) {
        match self {
            DynPuzzle::Nono(p) => p.solve(options),
            DynPuzzle::Triano(p) => p.solve(options),
        }
    }

    fn plain_solve(&self) -> (solved: Result<Report, SolveError>) {
        match self {
            DynPuzzle::Nono(p) => p.plain_solve(),
            DynPuzzle::Triano(p) => p.plain_solve(),
        }
    }

    fn analyze_lines(&self, partial: &PartialSolution) -> (statuses: (Vec<LineStatus>, Vec<LineStatus>)) {
        match self {
            DynPuzzle::Nono(p) => p.analyze_lines(partial),
            DynPuzzle::Triano(p) => p.analyze_lines(partial),
        }
    }

    fn settle_solution(&self, partial: &mut PartialSolution) -> (outcome: Result<(), SolveError>) {
        match self {
            DynPuzzle::Nono(p) => p.settle_solution(partial),
            DynPuzzle::Triano(p) => p.settle_solution(partial),
        }
    }
}

/// A cache of lines for the puzzles of either style, to be used over many
/// solves.
pub struct DynSolveCache {
    nono_cache: Option<LineCache<Nono>>,
    triano_cache: Option<LineCache<Triano>>,
}

impl DynSolveCache {
    /// Both caches hold what a scrub may give.
    pub closed spec fn wf(&self) -> bool {
        &&& self.nono_cache is Some
        &&& self.triano_cache is Some
        &&& cache_ok(self.nono_cache)
        &&& cache_ok(self.triano_cache)
    }

    pub fn new() -> (cache: DynSolveCache)
        ensures
            cache.wf(),
    {
        DynSolveCache { nono_cache: Some(LineCache::new()), triano_cache: Some(LineCache::new()) }
    }

    /// Solves the puzzle from the full grid, with the options that are the
    /// default and the cache for the style of its clues.
    pub fn solve(&mut self, p: &DynPuzzle) -> (solved: Result<Report, SolveError>)
        requires
            old(self).wf(),
        ensures
            final(self).wf(),
            p.solved(&default_options(), solved),
    {
        let options = SolveOptions::default();
        match p {
            DynPuzzle::Nono(p) => solve(p, &mut self.nono_cache, &options),
            DynPuzzle::Triano(p) => solve(p, &mut self.triano_cache, &options),
        }
    }
}

} // verus!
