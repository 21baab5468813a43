//! A picture or a puzzle together with what is said about it. Of the two,
//! the one that is missing is made of the other when it is asked for.

use crate::ambiguity::{picture_solved, puzzle_of};
use crate::grid_solve::{default_options, Report};
use crate::line_solve::SolveError;
use crate::puzzle::{unsolved, DynPuzzle, PuzzleDynOps, Solution};
use vstd::prelude::*;

verus! {

#[derive(Clone, Debug)]
pub struct Document {
    p: Option<DynPuzzle>,
    s: Option<Solution>,
    /// The path that the document was read from, or just the name of a file.
    pub file: String,
    pub title: String,
    pub description: String,
    pub author: String,
    pub id: String,
    pub license: String,
}

/// What a document says in words.
pub struct Words {
    pub file: Seq<char>,
    pub title: Seq<char>,
    pub description: Seq<char>,
    pub author: Seq<char>,
    pub id: Seq<char>,
    pub license: Seq<char>,
}

/// The text, or no text where there is none.
pub open spec fn text_of(text: Option<String>) -> Seq<char> {
    match text {
        Some(t) => t@,
        None => Seq::<char>::empty(),
    }
}

/// Solving the puzzle with the options that are the default does not fail.
pub open spec fn always_solved(puzzle: &DynPuzzle) -> bool {
    forall|solved: Result<Report, SolveError>| #[trigger]
        puzzle.solved(&default_options(), solved) ==> solved is Ok
}

/// The report is one of a solve of the puzzle with the options that are the
/// default.
pub open spec fn reported(puzzle: &DynPuzzle, solution: &Solution) -> bool {
    exists|report: Report| #[trigger]
        puzzle.solved(&default_options(), Ok(report)) && report.solution == *solution
}

impl Document {
    /// The puzzle, if the document has it at hand.
    pub closed spec fn held_puzzle(&self) -> Option<DynPuzzle> {
        self.p
    }

    /// The picture, if the document has it at hand.
    pub closed spec fn held_solution(&self) -> Option<Solution> {
        self.s
    }

    /// The document has a puzzle or a picture.
    pub open spec fn wf(&self) -> bool {
        self.held_puzzle() is Some || self.held_solution() is Some
    }

    /// What the document says in words.
    pub closed spec fn words(&self) -> Words {
        Words {
            file: self.file@,
            title: self.title@,
            description: self.description@,
            author: self.author@,
            id: self.id@,
            license: self.license@,
        }
    }

    pub fn new(
        puzzle: Option<DynPuzzle>,
        solution: Option<Solution>,
        file: String,
        title: Option<String>,
        description: Option<String>,
        author: Option<String>,
        id: Option<String>,
        license: Option<String>,
    ) -> (document: Document)
        requires
            puzzle is Some || solution is Some,
        ensures
            document.wf(),
            document.held_puzzle() == puzzle,
            document.held_solution() == solution,
            document.words() == (Words {
                file: file@,
                title: text_of(title),
                description: text_of(description),
                author: text_of(author),
                id: text_of(id),
                license: text_of(license),
            }),
    {
        Document {
            p: puzzle,
            s: solution,
            file,
            title: text_or_empty(title),
            description: text_or_empty(description),
            author: text_or_empty(author),
            id: text_or_empty(id),
            license: text_or_empty(license),
        }
    }

    pub fn file(&self) -> (file: &str)
        ensures
            file@ == self.words().file,
    {
        self.file.as_str()
    }

    pub fn title(&self) -> (title: &str)
        ensures
            title@ == self.words().title,
    {
        self.title.as_str()
    }

    pub fn description(&self) -> (description: &str)
        ensures
            description@ == self.words().description,
    {
        self.description.as_str()
    }

    pub fn author(&self) -> (author: &str)
        ensures
            author@ == self.words().author,
    {
        self.author.as_str()
    }

    pub fn id(&self) -> (id: &str)
        ensures
            id@ == self.words().id,
    {
        self.id.as_str()
    }

    pub fn license(&self) -> (license: &str)
        ensures
            license@ == self.words().license,
    {
        self.license.as_str()
    }

    pub fn try_puzzle(&self) -> (puzzle: Option<&DynPuzzle>)
        ensures
            puzzle is Some == self.held_puzzle() is Some,
            puzzle is Some ==> *puzzle->0 == self.held_puzzle()->0,
    {
        self.p.as_ref()
    }

    pub fn try_solution(&self) -> (solution: Option<&Solution>)
        ensures
            solution is Some == self.held_solution() is Some,
            solution is Some ==> *solution->0 == self.held_solution()->0,
    {
        self.s.as_ref()
    }

    /// Whether the picture at hand has a cell that is not solved.
    pub fn any_unsolved(&self) -> (any: bool)
        ensures
            any == (self.held_solution() is Some && exists|x: int, y: int|
                0 <= x < self.held_solution()->0.grid@.len() && 0 <= y
                    < self.held_solution()->0.grid@[x]@.len() && #[trigger] self.held_solution()->0.color(
                    x,
                    y,
                ) == unsolved()),
    {
        match &self.s {
            None => false,
            Some(solution) => {
                let mut x: usize = 0;
                while x < solution.grid.len()
                    invariant
                        self.held_solution() == Some(*solution),
                        x <= solution.grid@.len(),
                        forall|i: int, j: int|
                            0 <= i < x && 0 <= j < solution.grid@[i]@.len()
                                ==> #[trigger] solution.color(i, j) != unsolved(),
                    decreases solution.grid@.len() - x,
                {
                    let line = &solution.grid[x];
                    let mut y: usize = 0;
                    while y < line.len()
                        invariant
                            self.held_solution() == Some(*solution),
                            x < solution.grid@.len(),
                            line@ == solution.grid@[x as int]@,
                            y <= line@.len(),
                            forall|j: int| 0 <= j < y ==> #[trigger] solution.color(x as int, j) != unsolved(),
                        decreases line@.len() - y,
                    {
                        if line[y] == unsolved() {
                            assert(self.held_solution()->0.color(x as int, y as int) == unsolved());
                            return true;
                        }
                        y = y + 1;
                    }
                    x = x + 1;
                }
                false
            },
        }
    }

    /// The number of columns and the number of rows.
    pub fn dimensions(&self) -> (size: (usize, usize))
        requires
            self.wf(),
            self.held_solution() is Some ==> self.held_solution()->0.grid@.len() > 0,
        ensures
            size == (match self.held_solution() {
                Some(solution) => (solution.width() as usize, solution.height() as usize),
                None => (self.held_puzzle()->0.width() as usize, self.held_puzzle()->0.height() as usize),
            }),
    {
        match &self.s {
            Some(solution) => (solution.x_size(), solution.y_size()),
            None => match &self.p {
                Some(puzzle) => (puzzle.cols(), puzzle.rows()),
                None => vstd::pervasive::unreached(),
            },
        }
    }

    /// The puzzle, made of the picture if it is not at hand.
    pub fn puzzle(&mut self) -> (puzzle: &DynPuzzle)
        requires
            old(self).wf(),
            old(self).held_puzzle() is None ==> old(self).held_solution()->0.turns_puzzle(),
        ensures
            final(self).held_puzzle() == Some(*puzzle),
            final(self).held_solution() == old(self).held_solution(),
            final(self).words() == old(self).words(),
            match old(self).held_puzzle() {
                Some(held) => *puzzle == held,
                None => puzzle_of(&old(self).held_solution()->0, puzzle),
            },
    {
        if self.p.is_none() {
            let made = match &self.s {
                Some(solution) => solution.to_puzzle(),
                None => vstd::pervasive::unreached(),
            };
            self.p = Some(made);
        }
        match &self.p {
            Some(puzzle) => puzzle,
            None => vstd::pervasive::unreached(),
        }
    }

    /// The picture, found by solving the puzzle if it is not at hand.
    pub fn solution(&mut self) -> (solution: Result<&Solution, SolveError>)
        requires
            old(self).wf(),
        ensures
            final(self).held_puzzle() == old(self).held_puzzle(),
            final(self).words() == old(self).words(),
            match solution {
                Ok(found) => {
                    &&& final(self).held_solution() == Some(*found)
                    &&& match old(self).held_solution() {
                        Some(held) => *found == held,
                        None => reported(&old(self).held_puzzle()->0, found),
                    }
                },
                Err(e) => {
                    &&& old(self).held_solution() is None
                    &&& final(self).held_solution() is None
                    &&& old(self).held_puzzle()->0.solved(&default_options(), Err(e))
                },
            },
    {
        if self.s.is_none() {
            let solved = match &self.p {
                Some(puzzle) => puzzle.plain_solve(),
                None => vstd::pervasive::unreached(),
            };
            match solved {
                Ok(report) => {
                    self.s = Some(report.solution);
                },
                Err(e) => {
                    return Err(e);
                },
            }
        }
        match &self.s {
            Some(solution) => Ok(solution),
            None => vstd::pervasive::unreached(),
        }
    }

    /// The picture, to be changed: found by solving the puzzle if it is not at
    /// hand. The puzzle is let go of, for it is no longer that of the picture
    /// once the picture is changed.
    pub fn solution_mut(&mut self) -> (solution: &mut Solution)
        requires
            old(self).wf(),
            old(self).held_solution() is None ==> always_solved(&old(self).held_puzzle()->0),
        ensures
            final(self).held_puzzle() is None,
            final(self).held_solution() == Some(*final(solution)),
            final(self).words() == old(self).words(),
            match old(self).held_solution() {
                Some(held) => *solution == held,
                None => reported(&old(self).held_puzzle()->0, solution),
            },
    {
        if self.s.is_none() {
            let solved = match &self.p {
                Some(puzzle) => puzzle.plain_solve(),
                None => vstd::pervasive::unreached(),
            };
            match solved {
                Ok(report) => {
                    self.s = Some(report.solution);
                },
                Err(_) => {
                    vstd::pervasive::unreached::<()>();
                },
            }
        }
        self.p = None;  // Edits will invalidate the puzzle!
        match &mut self.s {
            Some(solution) => solution,
            None => vstd::pervasive::unreached(),
        }
    }

    /// The picture, found by solving the puzzle if it is not at hand.
    pub fn take_solution(self) -> (solution: Result<Solution, SolveError>)
        requires
            self.wf(),
        ensures
            match solution {
                Ok(found) => match self.held_solution() {
                    Some(held) => found == held,
                    None => reported(&self.held_puzzle()->0, &found),
                },
                Err(e) => self.held_solution() is None && self.held_puzzle()->0.solved(
                    &default_options(),
                    Err(e),
                ),
            },
    {
        match self.s {
            Some(s) => Ok(s),
            None => {
                let solved = match &self.p {
                    Some(puzzle) => puzzle.plain_solve(),
                    None => vstd::pervasive::unreached(),
                };
                match solved {
                    Ok(report) => Ok(report.solution),
                    Err(e) => Err(e),
                }
            },
        }
    }

    pub fn from_puzzle(puzzle: DynPuzzle, file: String) -> (document: Document)
        ensures
            document.wf(),
            document.held_puzzle() == Some(puzzle),
            document.held_solution() is None,
            document.words() == (Words {
                file: file@,
                title: Seq::empty(),
                description: Seq::empty(),
                author: Seq::empty(),
                id: Seq::empty(),
                license: Seq::empty(),
            }),
    {
        Document {
            p: Some(puzzle),
            s: None,
            file,
            title: String::new(),
            description: String::new(),
            author: String::new(),
            id: String::new(),
            license: String::new(),
        }
    }

    pub fn from_solution(solution: Solution, file: String) -> (document: Document)
        ensures
            document.wf(),
            document.held_puzzle() is None,
            document.held_solution() == Some(solution),
            document.words() == (Words {
                file: file@,
                title: Seq::empty(),
                description: Seq::empty(),
                author: Seq::empty(),
                id: Seq::empty(),
                license: Seq::empty(),
            }),
    {
        Document {
            p: None,
            s: Some(solution),
            file,
            title: String::new(),
            description: String::new(),
            author: String::new(),
            id: String::new(),
            license: String::new(),
        }
    }
}

/// The text, or no text where there is none.
fn text_or_empty(text: Option<String>) -> (res: String)
    ensures
        res@ == text_of(text),
{
    match text {
        Some(t) => t,
        None => String::new(),
    }
}

} // verus!
