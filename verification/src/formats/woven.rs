//! Documents in the form in which they are written out to be shared: the
//! words, and the picture with its palette as a list.

use crate::document::{always_solved, reported, text_of, Document, Words};
use crate::puzzle::{ClueStyle, Color, ColorInfo, DynPuzzle, Nono, Palette, Puzzle, Solution, Triano};
use std::collections::HashMap;
use vstd::prelude::*;

verus! {

#[derive(PartialEq, Debug)]
pub struct SerializableDocument {
    pub file: String,
    pub title: String,
    pub description: String,
    pub author: String,
    pub id: Option<String>,
    pub license: Option<String>,
    pub solution: SerializableSolution,
}

#[derive(PartialEq, Debug)]
pub struct SerializableSolution {
    pub clue_style: ClueStyle,
    pub palette: Vec<ColorInfo>,
    pub grid: Vec<Vec<Color>>,
}

/// A puzzle with its palette as a list. It cannot stand for a picture that
/// is still being worked on, for that has no clues.
#[derive(PartialEq, Debug)]
pub enum SerializablePuzzle {
    Nono { palette: Vec<ColorInfo>, rows: Vec<Vec<Nono>>, cols: Vec<Vec<Nono>> },
    Triano { palette: Vec<ColorInfo>, rows: Vec<Vec<Triano>>, cols: Vec<Vec<Triano>> },
}

/// The list holds, for every number below `upto` that the palette lists, a
/// copy of what the palette shows for it, in the order of the numbers, and
/// nothing else.
pub open spec fn lists_palette(palette: Map<u8, ColorInfo>, list: Seq<ColorInfo>, upto: int) -> bool {
    &&& forall|i: int| 0 <= i < list.len() ==> (#[trigger] list[i]).color.0 < upto
    &&& forall|i: int|
        0 <= i < list.len() ==> palette.contains_key((#[trigger] list[i]).color.0) && list[i].same(
            &palette[list[i].color.0],
        )
    &&& forall|i: int, j: int| 0 <= i < j < list.len() ==> list[i].color.0 < list[j].color.0
    &&& forall|k: u8|
        k < upto && palette.contains_key(k) && palette[k].color == Color(k) ==> exists|i: int|
            0 <= i < list.len() && (#[trigger] list[i]).color == Color(k)
}

/// The palette as a list, in the order of the numbers of its colors. A
/// color that is listed under another number than its own is left out.
pub fn palette_list(palette: &Palette) -> (list: Vec<ColorInfo>)
    ensures
        lists_palette(palette@, list@, 256),
{
    broadcast use vstd::std_specs::hash::group_hash_axioms;

    let mut list: Vec<ColorInfo> = Vec::new();
    let mut next: u16 = 0;
    while next < 256
        invariant
            next <= 256,
            lists_palette(palette@, list@, next as int),
        decreases 256 - next,
    {
        let key = next as u8;
        let ghost before = list@;
        match palette.get(&key) {
            Some(info) => {
                if info.color.0 == key {
                    list.push(info.clone());
                    proof {
                        assert forall|k: u8|
                            k < next + 1 && palette@.contains_key(k) && palette@[k].color == Color(
                                k,
                            ) implies exists|i: int|
                            0 <= i < list@.len() && (#[trigger] list@[i]).color == Color(k) by {
                            if k < next {
                                let i = choose|i: int|
                                    0 <= i < before.len() && (#[trigger] before[i]).color == Color(k);
                                assert(list@[i].color == Color(k));
                            } else {
                                assert(list@[before.len() as int].color == Color(k));
                            }
                        }
                    }
                }
            },
            None => {},
        }
        proof {
            if list@ == before {
                assert forall|k: u8|
                    k < next + 1 && palette@.contains_key(k) && palette@[k].color == Color(
                        k,
                    ) implies exists|i: int|
                    0 <= i < list@.len() && (#[trigger] list@[i]).color == Color(k) by {
                    if k < next {
                        let i = choose|i: int|
                            0 <= i < before.len() && (#[trigger] before[i]).color == Color(k);
                        assert(list@[i].color == Color(k));
                    }
                }
            }
        }
        next = next + 1;
    }
    list
}

/// The palette that lists each color of the list under its number. Of two
/// colors with one number the later one stays.
pub fn palette_of_list(list: &Vec<ColorInfo>) -> (palette: Palette)
    ensures
        forall|k: u8| #[trigger]
            palette@.contains_key(k) <==> exists|i: int|
                0 <= i < list@.len() && (#[trigger] list@[i]).color == Color(k),
        forall|i: int|
            0 <= i < list@.len() && (forall|j: int| i < j < list@.len() ==> list@[j].color != list@[i].color)
                ==> (#[trigger] palette@[list@[i].color.0]).same(&list@[i]),
{
    broadcast use vstd::std_specs::hash::group_hash_axioms;

    let mut palette: Palette = HashMap::new();
    let mut at: usize = 0;
    while at < list.len()
        invariant
            at <= list@.len(),
            forall|k: u8| #[trigger]
                palette@.contains_key(k) <==> exists|i: int|
                    0 <= i < at && (#[trigger] list@[i]).color == Color(k),
            forall|i: int|
                0 <= i < at && (forall|j: int| i < j < at ==> list@[j].color != list@[i].color)
                    ==> (#[trigger] palette@[list@[i].color.0]).same(&list@[i]),
        decreases list@.len() - at,
    {
        let info = list[at].clone();
        let ghost before = palette@;
        palette.insert(info.color.0, info);
        proof {
            assert(list@[at as int].color == Color(list@[at as int].color.0));
            assert forall|k: u8| #[trigger]
                palette@.contains_key(k) <==> exists|i: int|
                    0 <= i < at + 1 && (#[trigger] list@[i]).color == Color(k) by {
                if before.contains_key(k) {
                    let i = choose|i: int| 0 <= i < at && (#[trigger] list@[i]).color == Color(k);
                    assert(list@[i].color == Color(k));
                }
                if exists|i: int| 0 <= i < at + 1 && (#[trigger] list@[i]).color == Color(k) {
                    let i = choose|i: int| 0 <= i < at + 1 && (#[trigger] list@[i]).color == Color(k);
                    if i < at {
                        assert(before.contains_key(k));
                    }
                }
            }
            assert forall|i: int|
                0 <= i < at + 1 && (forall|j: int|
                    i < j < at + 1 ==> list@[j].color != list@[i].color) implies (
            #[trigger] palette@[list@[i].color.0]).same(&list@[i]) by {
                if i < at {
                    assert(list@[at as int].color != list@[i].color);
                    assert(before[list@[i].color.0].same(&list@[i]));
                }
            }
        }
        at = at + 1;
    }
    palette
}

fn copy_colors(grid: &Vec<Vec<Color>>) -> (copy: Vec<Vec<Color>>)
    ensures
        copy@.len() == grid@.len(),
        forall|x: int| 0 <= x < grid@.len() ==> (#[trigger] copy@[x])@ == grid@[x]@,
{
    let mut copy: Vec<Vec<Color>> = Vec::new();
    let mut x: usize = 0;
    while x < grid.len()
        invariant
            x <= grid@.len(),
            copy@.len() == x,
            forall|i: int| 0 <= i < x ==> (#[trigger] copy@[i])@ == grid@[i]@,
        decreases grid@.len() - x,
    {
        let mut column: Vec<Color> = Vec::new();
        let mut y: usize = 0;
        while y < grid[x].len()
            invariant
                x < grid@.len(),
                y <= grid@[x as int]@.len(),
                column@ == grid@[x as int]@.subrange(0, y as int),
            decreases grid@[x as int]@.len() - y,
        {
            column.push(grid[x][y]);
            proof {
                assert(column@ =~= grid@[x as int]@.subrange(0, y + 1));
            }
            y = y + 1;
        }
        proof {
            assert(grid@[x as int]@.subrange(0, y as int) =~= grid@[x as int]@);
        }
        copy.push(column);
        x = x + 1;
    }
    copy
}

impl SerializableSolution {
    /// The written form holds what the picture holds.
    pub open spec fn writes(&self, solution: &Solution) -> bool {
        &&& self.clue_style == solution.clue_style
        &&& lists_palette(solution.palette@, self.palette@, 256)
        &&& self.grid@.len() == solution.grid@.len()
        &&& forall|x: int| 0 <= x < solution.grid@.len() ==> (#[trigger] self.grid@[x])@ == solution.grid@[x]@
    }

    /// The picture in its written form.
    pub fn from_solution(solution: &Solution) -> (written: SerializableSolution)
        ensures
            written.writes(solution),
    {
        SerializableSolution {
            clue_style: solution.clue_style,
            palette: palette_list(&solution.palette),
            grid: copy_colors(&solution.grid),
        }
    }

    /// The picture that the written form holds.
    pub fn to_solution(&self) -> (solution: Solution)
        ensures
            solution.clue_style == self.clue_style,
            solution.grid@.len() == self.grid@.len(),
            forall|x: int| 0 <= x < self.grid@.len() ==> (#[trigger] solution.grid@[x])@ == self.grid@[x]@,
            forall|k: u8| #[trigger]
                solution.palette@.contains_key(k) <==> exists|i: int|
                    0 <= i < self.palette@.len() && (#[trigger] self.palette@[i]).color == Color(k),
            forall|i: int|
                0 <= i < self.palette@.len() && (forall|j: int|
                    i < j < self.palette@.len() ==> self.palette@[j].color != self.palette@[i].color)
                    ==> (#[trigger] solution.palette@[self.palette@[i].color.0]).same(
                    &self.palette@[i],
                ),
    {
        Solution {
            clue_style: self.clue_style,
            palette: palette_of_list(&self.palette),
            grid: copy_colors(&self.grid),
        }
    }
}

/// The text, or nothing where the text is empty.
fn text_if_any(text: &str) -> (res: Option<String>)
    ensures
        text_of(res) == text@,
        res is None == (text@.len() == 0),
{
    if text.is_empty() {
        None
    } else {
        Some(text.to_owned())
    }
}

impl SerializableDocument {
    /// The words of the written form.
    pub open spec fn words(&self) -> Words {
        Words {
            file: self.file@,
            title: self.title@,
            description: self.description@,
            author: self.author@,
            id: text_of(self.id),
            license: text_of(self.license),
        }
    }

    /// The document in its written form, with its picture, which is found by
    /// solving its puzzle if it is not at hand.
    pub fn from_document(doc: &mut Document) -> (written: SerializableDocument)
        requires
            old(doc).wf(),
            old(doc).held_solution() is None ==> always_solved(&old(doc).held_puzzle()->0),
        ensures
            final(doc).words() == old(doc).words(),
            final(doc).held_puzzle() == old(doc).held_puzzle(),
            final(doc).held_solution() is Some,
            old(doc).held_solution() is Some ==> final(doc).held_solution() == old(doc).held_solution(),
            old(doc).held_solution() is None ==> reported(
                &old(doc).held_puzzle()->0,
                &final(doc).held_solution()->0,
            ),
            written.words() == old(doc).words(),
            written.solution.writes(&final(doc).held_solution()->0),
    {
        let file = doc.file().to_owned();
        let title = doc.title().to_owned();
        let description = doc.description().to_owned();
        let author = doc.author().to_owned();
        let id = text_if_any(doc.id());
        let license = text_if_any(doc.license());
        let solution = match doc.solution() {
            Ok(solution) => SerializableSolution::from_solution(solution),
            Err(_) => vstd::pervasive::unreached(),
        };
        SerializableDocument { file, title, description, author, id, license, solution }
    }

    /// The document that the written form holds.
    pub fn into_document(self) -> (doc: Document)
        ensures
            doc.wf(),
            doc.held_puzzle() is None,
            doc.held_solution() is Some,
            doc.words() == self.words(),
            doc.held_solution()->0.clue_style == self.solution.clue_style,
            doc.held_solution()->0.grid@.len() == self.solution.grid@.len(),
            forall|x: int|
                0 <= x < self.solution.grid@.len() ==> (#[trigger] doc.held_solution()->0.grid@[x])@
                    == self.solution.grid@[x]@,
    {
        Document::new(
            None,
            Some(self.solution.to_solution()),
            self.file,
            Some(self.title),
            Some(self.description),
            Some(self.author),
            self.id,
            self.license,
        )
    }
}

fn copy_nonos(lines: &Vec<Vec<Nono>>) -> (copy: Vec<Vec<Nono>>)
    ensures
        copy@.len() == lines@.len(),
        forall|x: int| 0 <= x < lines@.len() ==> (#[trigger] copy@[x])@ == lines@[x]@,
{
    let mut copy: Vec<Vec<Nono>> = Vec::new();
    let mut x: usize = 0;
    while x < lines.len()
        invariant
            x <= lines@.len(),
            copy@.len() == x,
            forall|i: int| 0 <= i < x ==> (#[trigger] copy@[i])@ == lines@[i]@,
        decreases lines@.len() - x,
    {
        let mut line: Vec<Nono> = Vec::new();
        let mut y: usize = 0;
        while y < lines[x].len()
            invariant
                x < lines@.len(),
                y <= lines@[x as int]@.len(),
                line@ == lines@[x as int]@.subrange(0, y as int),
            decreases lines@[x as int]@.len() - y,
        {
            line.push(lines[x][y]);
            proof {
                assert(line@ =~= lines@[x as int]@.subrange(0, y + 1));
            }
            y = y + 1;
        }
        proof {
            assert(lines@[x as int]@.subrange(0, y as int) =~= lines@[x as int]@);
        }
        copy.push(line);
        x = x + 1;
    }
    copy
}

fn copy_trianos(lines: &Vec<Vec<Triano>>) -> (copy: Vec<Vec<Triano>>)
    ensures
        copy@.len() == lines@.len(),
        forall|x: int| 0 <= x < lines@.len() ==> (#[trigger] copy@[x])@ == lines@[x]@,
{
    let mut copy: Vec<Vec<Triano>> = Vec::new();
    let mut x: usize = 0;
    while x < lines.len()
        invariant
            x <= lines@.len(),
            copy@.len() == x,
            forall|i: int| 0 <= i < x ==> (#[trigger] copy@[i])@ == lines@[i]@,
        decreases lines@.len() - x,
    {
        let mut line: Vec<Triano> = Vec::new();
        let mut y: usize = 0;
        while y < lines[x].len()
            invariant
                x < lines@.len(),
                y <= lines@[x as int]@.len(),
                line@ == lines@[x as int]@.subrange(0, y as int),
            decreases lines@[x as int]@.len() - y,
        {
            line.push(lines[x][y]);
            proof {
                assert(line@ =~= lines@[x as int]@.subrange(0, y + 1));
            }
            y = y + 1;
        }
        proof {
            assert(lines@[x as int]@.subrange(0, y as int) =~= lines@[x as int]@);
        }
        copy.push(line);
        x = x + 1;
    }
    copy
}

/// The clues of the one are those of the other.
pub open spec fn same_lines<C>(a: Seq<Vec<C>>, b: Seq<Vec<C>>) -> bool {
    &&& a.len() == b.len()
    &&& forall|x: int| 0 <= x < a.len() ==> (#[trigger] a[x])@ == b[x]@
}

impl SerializablePuzzle {
    /// The written form holds what the puzzle holds.
    pub open spec fn writes(&self, puzzle: &DynPuzzle) -> bool {
        match (self, puzzle) {
            (SerializablePuzzle::Nono { palette, rows, cols }, DynPuzzle::Nono(p)) => {
                &&& lists_palette(p.palette@, palette@, 256)
                &&& same_lines(rows@, p.rows@)
                &&& same_lines(cols@, p.cols@)
            },
            (SerializablePuzzle::Triano { palette, rows, cols }, DynPuzzle::Triano(p)) => {
                &&& lists_palette(p.palette@, palette@, 256)
                &&& same_lines(rows@, p.rows@)
                &&& same_lines(cols@, p.cols@)
            },
            _ => false,
        }
    }

    /// The puzzle in its written form.
    pub fn from_puzzle(puzzle: &DynPuzzle) -> (written: SerializablePuzzle)
        ensures
            written.writes(puzzle),
    {
        match puzzle {
            DynPuzzle::Nono(p) => SerializablePuzzle::Nono {
                palette: palette_list(&p.palette),
                rows: copy_nonos(&p.rows),
                cols: copy_nonos(&p.cols),
            },
            DynPuzzle::Triano(p) => SerializablePuzzle::Triano {
                palette: palette_list(&p.palette),
                rows: copy_trianos(&p.rows),
                cols: copy_trianos(&p.cols),
            },
        }
    }

    /// The puzzle that the written form holds.
    pub fn to_puzzle(&self) -> (puzzle: DynPuzzle)
        ensures
            match (self, puzzle) {
                (SerializablePuzzle::Nono { palette, rows, cols }, DynPuzzle::Nono(p)) => same_lines(
                    p.rows@,
                    rows@,
                ) && same_lines(p.cols@, cols@),
                (SerializablePuzzle::Triano { palette, rows, cols }, DynPuzzle::Triano(p)) => same_lines(
                    p.rows@,
                    rows@,
                ) && same_lines(p.cols@, cols@),
                _ => false,
            },
    {
        match self {
            SerializablePuzzle::Nono { palette, rows, cols } => DynPuzzle::Nono(
                Puzzle {
                    palette: palette_of_list(palette),
                    rows: copy_nonos(rows),
                    cols: copy_nonos(cols),
                },
            ),
            SerializablePuzzle::Triano { palette, rows, cols } => DynPuzzle::Triano(
                Puzzle {
                    palette: palette_of_list(palette),
                    rows: copy_trianos(rows),
                    cols: copy_trianos(cols),
                },
            ),
        }
    }
}

} // verus!
