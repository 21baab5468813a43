//! From a finished picture to the clues that describe it.

use crate::puzzle::{
    background, Color, ColorInfo, Corner, Nono, Palette, Puzzle, Solution, Triano,
};
use std::collections::HashMap;
use vstd::prelude::*;

verus! {

/// The clues that describe a line of colors: one for each run of cells of
/// one color other than the background, in their order.
pub open spec fn nono_clues(colors: Seq<Color>) -> Seq<Nono>
    decreases colors.len(),
{
    if colors.len() == 0 {
        Seq::empty()
    } else {
        let before = nono_clues(colors.drop_last());
        let c = colors.last();
        if c == background() {
            before
        } else if colors.len() > 1 && colors[colors.len() - 2] == c {
            before.drop_last().push(Nono { color: c, count: (before.last().count + 1) as u16 })
        } else {
            before.push(Nono { color: c, count: 1 })
        }
    }
}

/// The clues that describe the colors of a line.
pub fn line_to_clues(colors: &Vec<Color>) -> (clues: Vec<Nono>)
    requires
        colors@.len() <= 0xFFFF,
    ensures
        clues@ == nono_clues(colors@),
{
    let mut clues: Vec<Nono> = Vec::new();
    let mut prev_color: Option<Color> = None;
    let mut run: u16 = 1;
    let mut x: usize = 0;
    while x < colors.len()
        invariant
            x <= colors@.len(),
            colors@.len() <= 0xFFFF,
            1 <= run,
            run <= x || x == 0,
            x == 0 <==> prev_color is None,
            x > 0 ==> prev_color == Some(colors@[x - 1]),
            match prev_color {
                Some(c) if c != background() => nono_clues(colors@.subrange(0, x as int))
                    == clues@.push(Nono { color: c, count: run }),
                _ => nono_clues(colors@.subrange(0, x as int)) == clues@,
            },
        decreases colors@.len() - x,
    {
        let color = colors[x];
        let ghost shorter = colors@.subrange(0, x as int);
        let ghost longer = colors@.subrange(0, x + 1);
        proof {
            assert(longer.drop_last() =~= shorter);
            assert(longer.last() == color);
            if x > 0 {
                assert(longer[longer.len() - 2] == colors@[x - 1]);
            }
        }
        let same = match prev_color {
            Some(c) => c == color,
            None => false,
        };
        if same {
            proof {
                if color != background() {
                    let before = clues@.push(Nono { color, count: run });
                    assert(before.drop_last() =~= clues@);
                }
            }
            run = run + 1;
        } else {
            match prev_color {
                None => {},
                Some(c) => {
                    if c != background() {
                        clues.push(Nono { color: c, count: run });
                    }
                },
            }
            prev_color = Some(color);
            run = 1;
        }
        x = x + 1;
    }
    match prev_color {
        None => {},
        Some(c) => {
            if c != background() {
                clues.push(Nono { color: c, count: run });
            }
        },
    }
    proof {
        assert(colors@.subrange(0, x as int) =~= colors@);
    }
    clues
}

/// The colors of row `y` of the grid, from left to right.
pub fn row_colors(solution: &Solution, y: usize) -> (colors: Vec<Color>)
    requires
        solution.well_formed(),
        y < solution.height(),
    ensures
        colors@ == solution.row(y as int),
{
    let width = solution.grid.len();
    let mut colors: Vec<Color> = Vec::with_capacity(width);
    let mut x: usize = 0;
    while x < width
        invariant
            solution.well_formed(),
            y < solution.height(),
            width == solution.grid@.len(),
            x <= width,
            colors@.len() == x,
            forall|i: int| 0 <= i < x ==> #[trigger] colors@[i] == solution.grid@[i]@[y as int],
        decreases width - x,
    {
        assert(solution.grid@[x as int]@.len() == solution.grid@[0]@.len());
        colors.push(solution.grid[x][y]);
        x = x + 1;
    }
    proof {
        assert(colors@ =~= solution.row(y as int));
    }
    colors
}

/// The clues of the puzzle are those of the rows and columns of the picture,
/// and its palette is the picture's.
pub open spec fn nono_puzzle_of(solution: &Solution, puzzle: &Puzzle<Nono>) -> bool {
    &&& puzzle.palette@ == solution.palette@
    &&& puzzle.rows@.len() == solution.height()
    &&& puzzle.cols@.len() == solution.width()
    &&& forall|y: int|
        0 <= y < solution.height() ==> (#[trigger] puzzle.rows@[y])@ == nono_clues(solution.row(y))
    &&& forall|x: int|
        0 <= x < solution.width() ==> (#[trigger] puzzle.cols@[x])@ == nono_clues(
            solution.column(x),
        )
}

/// The puzzle that the picture is a solution of: a clue for each run of
/// cells of one color other than the background.
pub fn solution_to_puzzle(solution: &Solution) -> (puzzle: Puzzle<Nono>)
    requires
        solution.well_formed(),
        solution.width() <= 0xFFFF,
        solution.height() <= 0xFFFF,
    ensures
        nono_puzzle_of(solution, &puzzle),
{
    let width = solution.grid.len();
    let height = solution.grid[0].len();

    let mut rows: Vec<Vec<Nono>> = Vec::new();
    let mut cols: Vec<Vec<Nono>> = Vec::new();

    // Generate row clues
    let mut y: usize = 0;
    while y < height
        invariant
            solution.well_formed(),
            width == solution.width(),
            height == solution.height(),
            width <= 0xFFFF,
            y <= height,
            rows@.len() == y,
            forall|i: int| 0 <= i < y ==> (#[trigger] rows@[i])@ == nono_clues(solution.row(i)),
        decreases height - y,
    {
        let colors = row_colors(solution, y);
        rows.push(line_to_clues(&colors));
        y = y + 1;
    }

    // Generate column clues
    let mut x: usize = 0;
    while x < width
        invariant
            solution.well_formed(),
            width == solution.width(),
            height == solution.height(),
            height <= 0xFFFF,
            x <= width,
            cols@.len() == x,
            forall|i: int| 0 <= i < x ==> (#[trigger] cols@[i])@ == nono_clues(solution.column(i)),
        decreases width - x,
    {
        assert(solution.grid@[x as int]@.len() == solution.grid@[0]@.len());
        cols.push(line_to_clues(&solution.grid[x]));
        x = x + 1;
    }

    Puzzle { palette: solution.palette.clone(), rows, cols }
}

/// White and black.
pub fn bw_palette() -> (palette: Palette)
    ensures
        palette@.dom() =~= set![0u8, 1u8],
        palette@[0u8].is_default_bg(),
        palette@[1u8].is_default_fg(Color(1)),
{
    broadcast use vstd::std_specs::hash::group_hash_axioms;

    let mut palette: Palette = HashMap::new();
    palette.insert(0, ColorInfo::default_bg());
    palette.insert(1, ColorInfo::default_fg(Color(1)));
    palette
}

/// Every color of the picture is listed in its palette.
pub open spec fn colors_in_palette(solution: &Solution) -> bool {
    forall|x: int, y: int|
        0 <= x < solution.grid@.len() && 0 <= y < solution.grid@[x]@.len() ==> solution.palette@.contains_key(
            (#[trigger] solution.color(x, y)).0,
        )
}

/// The clue that holds nothing yet.
pub open spec fn blank_clue() -> Triano {
    Triano { front_cap: None, body_color: background(), body_len: 0, back_cap: None }
}

/// What a cell is for the clues of a line that runs in one direction: the
/// cap that begins a clue, the cap that ends one, background, or body.
pub enum CellKind {
    Front,
    Back,
    Blank,
    Body,
}

/// What the cell of the color is for the clues of a row (`along_row`) or of
/// a column. A corner that is not solid towards the start of the line begins
/// a clue, one that is ends a clue.
pub open spec fn cell_kind(info: ColorInfo, color: Color, along_row: bool) -> CellKind {
    let towards_start = match info.corner {
        Some(c) => Some(if along_row {
            c.left
        } else {
            c.upper
        }),
        None => None,
    };
    if towards_start == Some(false) {
        CellKind::Front
    } else if towards_start == Some(true) {
        CellKind::Back
    } else if color == background() {
        CellKind::Blank
    } else {
        CellKind::Body
    }
}

/// The clues that are finished, and the clue that is being built, after the
/// cell of the color was read.
pub open spec fn triano_step(done: Seq<Triano>, cur: Triano, kind: CellKind, color: Color) -> (Seq<Triano>, Triano) {
    match kind {
        CellKind::Front => {
            // Only a blank clue can accept a front cap.
            let done = if cur != blank_clue() {
                done.push(cur)
            } else {
                done
            };
            (done, Triano { front_cap: Some(color), ..blank_clue() })
        },
        CellKind::Back => (done.push(Triano { back_cap: Some(color), ..cur }), blank_clue()),
        CellKind::Blank => if cur != blank_clue() {
            (done.push(cur), blank_clue())
        } else {
            (done, cur)
        },
        CellKind::Body => {
            // The only obstacle to going on is a body of another color.
            let (done, cur) = if cur.body_color != background() && cur.body_color != color {
                (done.push(cur), blank_clue())
            } else {
                (done, cur)
            };
            (done, Triano { body_color: color, body_len: (cur.body_len + 1) as u16, ..cur })
        },
    }
}

/// The clues that are finished, and the clue that is being built, after the
/// first `n` cells of the line were read.
pub open spec fn triano_read(
    colors: Seq<Color>,
    palette: Map<u8, ColorInfo>,
    along_row: bool,
    n: int,
) -> (Seq<Triano>, Triano)
    decreases n,
{
    if n <= 0 {
        (Seq::empty(), blank_clue())
    } else {
        let (done, cur) = triano_read(colors, palette, along_row, n - 1);
        let color = colors[n - 1];
        triano_step(done, cur, cell_kind(palette[color.0], color, along_row), color)
    }
}

/// The clues with caps that describe a line of colors.
pub open spec fn triano_clues(colors: Seq<Color>, palette: Map<u8, ColorInfo>, along_row: bool) -> Seq<
    Triano,
> {
    let (done, cur) = triano_read(colors, palette, along_row, colors.len() as int);
    if cur != blank_clue() {
        done.push(cur)
    } else {
        done
    }
}

proof fn lemma_triano_body(colors: Seq<Color>, palette: Map<u8, ColorInfo>, along_row: bool, n: int)
    requires
        0 <= n <= colors.len(),
    ensures
        triano_read(colors, palette, along_row, n).1.body_len <= n,
        triano_read(colors, palette, along_row, n).1.back_cap is None,
    decreases n,
{
    if n > 0 {
        lemma_triano_body(colors, palette, along_row, n - 1);
    }
}

/// Whether two clues are the same clue.
fn same_triano(a: &Triano, b: &Triano) -> (same: bool)
    ensures
        same == (*a == *b),
{
    a.front_cap == b.front_cap && a.body_len == b.body_len && a.body_color == b.body_color
        && a.back_cap == b.back_cap
}

/// The clues with caps that describe the colors of a line.
pub fn line_to_triano_clues(colors: &Vec<Color>, palette: &Palette, along_row: bool) -> (clues: Vec<
    Triano,
>)
    requires
        colors@.len() <= 0xFFFF,
        forall|i: int| 0 <= i < colors@.len() ==> palette@.contains_key((#[trigger] colors@[i]).0),
    ensures
        clues@ == triano_clues(colors@, palette@, along_row),
{
    broadcast use vstd::std_specs::hash::group_hash_axioms;

    let blank = Triano { front_cap: None, body_color: background(), body_len: 0, back_cap: None };
    let mut clues: Vec<Triano> = Vec::new();
    let mut cur_clue = blank;
    let mut i: usize = 0;
    while i < colors.len()
        invariant
            blank == blank_clue(),
            colors@.len() <= 0xFFFF,
            forall|j: int| 0 <= j < colors@.len() ==> palette@.contains_key((#[trigger] colors@[j]).0),
            i <= colors@.len(),
            (clues@, cur_clue) == triano_read(colors@, palette@, along_row, i as int),
        decreases colors@.len() - i,
    {
        let color = colors[i];
        assert(palette@.contains_key(colors@[i as int].0));
        let color_info = match palette.get(&color.0) {
            Some(info) => info,
            None => vstd::pervasive::unreached(),
        };
        assert(*color_info == palette@[color.0]);
        proof {
            lemma_triano_body(colors@, palette@, along_row, i as int);
        }
        let towards_start = match color_info.corner {
            Some(c) => Some(if along_row {
                c.left
            } else {
                c.upper
            }),
            None => None,
        };
        let ghost done = clues@;
        let ghost cur = cur_clue;
        let ghost kind = cell_kind(*color_info, color, along_row);
        if towards_start == Some(false) {
            // Only a blank clue can accept a front cap:
            if !same_triano(&cur_clue, &blank) {
                clues.push(cur_clue);
                cur_clue = blank;
            }
            cur_clue.front_cap = Some(color);
        } else if towards_start == Some(true) {
            // The back cap is always none...
            cur_clue.back_cap = Some(color);
            // ...because we finish right after setting it
            clues.push(cur_clue);
            cur_clue = blank;
        } else if color == background() {
            if !same_triano(&cur_clue, &blank) {
                clues.push(cur_clue);
                cur_clue = blank;
            }
        } else {
            // Since the back cap is always none, the only obstacle to continuing is if the
            // body color is wrong.
            if cur_clue.body_color != background() && cur_clue.body_color != color {
                clues.push(cur_clue);
                cur_clue = blank;
            }
            cur_clue.body_color = color;
            cur_clue.body_len = cur_clue.body_len + 1;
        }
        proof {
            assert((clues@, cur_clue) == triano_step(done, cur, kind, color));
        }
        i = i + 1;
    }
    if !same_triano(&cur_clue, &blank) {
        clues.push(cur_clue);
    }
    clues
}

/// The clues of the puzzle are the clues with caps of the rows and columns
/// of the picture, and its palette is the picture's.
pub open spec fn triano_puzzle_of(solution: &Solution, puzzle: &Puzzle<Triano>) -> bool {
    &&& puzzle.palette@ == solution.palette@
    &&& puzzle.rows@.len() == solution.height()
    &&& puzzle.cols@.len() == solution.width()
    &&& forall|y: int|
        0 <= y < solution.height() ==> (#[trigger] puzzle.rows@[y])@ == triano_clues(
            solution.row(y),
            solution.palette@,
            true,
        )
    &&& forall|x: int|
        0 <= x < solution.width() ==> (#[trigger] puzzle.cols@[x])@ == triano_clues(
            solution.column(x),
            solution.palette@,
            false,
        )
}

/// The puzzle with capped clues that the picture is a solution of. A cell
/// whose color is a corner that is not solid towards the start of the line
/// begins a clue, one that is solid there ends a clue.
pub fn solution_to_triano_puzzle(solution: &Solution) -> (puzzle: Puzzle<Triano>)
    requires
        solution.well_formed(),
        solution.width() <= 0xFFFF,
        solution.height() <= 0xFFFF,
        colors_in_palette(solution),
    ensures
        triano_puzzle_of(solution, &puzzle),
{
    let width = solution.grid.len();
    let height = solution.grid[0].len();

    let mut rows: Vec<Vec<Triano>> = Vec::new();
    let mut cols: Vec<Vec<Triano>> = Vec::new();

    // Generate row clues
    let mut y: usize = 0;
    while y < height
        invariant
            solution.well_formed(),
            colors_in_palette(solution),
            width == solution.width(),
            height == solution.height(),
            width <= 0xFFFF,
            y <= height,
            rows@.len() == y,
            forall|i: int|
                0 <= i < y ==> (#[trigger] rows@[i])@ == triano_clues(
                    solution.row(i),
                    solution.palette@,
                    true,
                ),
        decreases height - y,
    {
        let colors = row_colors(solution, y);
        proof {
            assert forall|i: int| 0 <= i < colors@.len() implies solution.palette@.contains_key(
                (#[trigger] colors@[i]).0,
            ) by {
                assert(solution.grid@[i]@.len() == solution.grid@[0]@.len());
                assert(colors@[i] == solution.color(i, y as int));
            }
        }
        rows.push(line_to_triano_clues(&colors, &solution.palette, true));
        y = y + 1;
    }

    // Generate column clues
    let mut x: usize = 0;
    while x < width
        invariant
            solution.well_formed(),
            colors_in_palette(solution),
            width == solution.width(),
            height == solution.height(),
            height <= 0xFFFF,
            x <= width,
            cols@.len() == x,
            forall|i: int|
                0 <= i < x ==> (#[trigger] cols@[i])@ == triano_clues(
                    solution.column(i),
                    solution.palette@,
                    false,
                ),
        decreases width - x,
    {
        assert(solution.grid@[x as int]@.len() == solution.grid@[0]@.len());
        proof {
            assert forall|i: int| 0 <= i < solution.grid@[x as int]@.len() implies solution.palette@.contains_key(
                (#[trigger] solution.grid@[x as int]@[i]).0,
            ) by {
                assert(solution.grid@[x as int]@[i] == solution.color(x as int, i));
            }
        }
        cols.push(line_to_triano_clues(&solution.grid[x], &solution.palette, false));
        x = x + 1;
    }

    Puzzle { palette: solution.palette.clone(), rows, cols }
}

/// The color that stands for a triangle: black, shown by the corner that is
/// solid.
pub fn triangle_info(ch: char, name: String, color: Color, upper: bool, left: bool) -> (info: ColorInfo)
    ensures
        info.ch == ch,
        info.name@ == name@,
        info.rgb == (0u8, 0u8, 0u8),
        info.color == color,
        info.corner == Some(Corner { upper, left }),
{
    ColorInfo { ch, name, rgb: (0, 0, 0), color, corner: Some(Corner { upper, left }) }
}

/// White, black, and the four triangles.
pub fn triano_palette() -> (palette: Palette)
    ensures
        palette@.dom() =~= set![0u8, 1u8, 3u8, 4u8, 5u8, 6u8],
        palette@[0u8].is_default_bg(),
        palette@[1u8].is_default_fg(Color(1)),
        palette@[3u8].corner == Some(Corner { upper: true, left: true }) && palette@[3u8].ch == '◤',
        palette@[4u8].corner == Some(Corner { upper: true, left: false }) && palette@[4u8].ch == '◥',
        palette@[5u8].corner == Some(Corner { upper: false, left: true }) && palette@[5u8].ch == '◣',
        palette@[6u8].corner == Some(Corner { upper: false, left: false }) && palette@[6u8].ch == '◢',
        forall|k: u8| palette@.contains_key(k) ==> (#[trigger] palette@[k]).color == Color(k),
        forall|k: u8| k >= 3 && palette@.contains_key(k) ==> (#[trigger] palette@[k]).rgb == (0u8, 0u8, 0u8),
{
    broadcast use vstd::std_specs::hash::group_hash_axioms;

    let mut palette: Palette = HashMap::new();
    palette.insert(0, ColorInfo::default_bg());
    palette.insert(1, ColorInfo::default_fg(Color(1)));
    palette.insert(3, triangle_info('◤', "black/white".to_string(), Color(3), true, true));
    palette.insert(4, triangle_info('◥', "white\\black".to_string(), Color(4), true, false));
    palette.insert(5, triangle_info('◣', "black\\white".to_string(), Color(5), false, true));
    palette.insert(6, triangle_info('◢', "white/black".to_string(), Color(6), false, false));
    palette
}

} // verus!
