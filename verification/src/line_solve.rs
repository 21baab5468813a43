//! Cells, and what can be deduced within a single row or column.

use crate::bits::{
    bit, has_bit, lemma_bit_and, lemma_bit_not, lemma_bit_or, lemma_bit_single, lemma_bit_zero,
    lemma_mask_ext, lemma_nonzero_has_bit, lemma_single_bit_is, lemma_single_bit_test,
    lemma_subset_bits, single_bit,
};
use crate::arrangement::{
    bounded_from_left, bounded_from_right, clue_bounds, clues_well_formed, ends_reach,
    gap_placement, gap_total, ints, left_starts_ok, lemma_clue_bounds, lemma_gap_in_total, starved,
    lemma_gap_placement, lemma_gap_total_rises, lemma_gap_total_update, lemma_line_of_wf,
    lemma_mirror_wf, line_of, mirror_lane, right_ends_ok, seen_lane, seen_line, Line,
};
use crate::puzzle::{background, Clue, Color, Puzzle};
use vstd::prelude::*;

verus! {

/// Why a deduction stopped.
#[derive(Clone, Copy, Debug, PartialEq, Eq, Structural)]
pub enum SolveError {
    /// A cell was left with no color that it could have.
    Contradiction,
    /// The clues of a line cannot be laid out in it.
    UnsatisfiableLine,
    /// The puzzle has no rows or no columns, a clue that covers no cell, or a
    /// color that is not in the palette or cannot stand in a cell.
    IllFormedPuzzle,
    /// The grid handed in is not of the puzzle's size.
    DimensionMismatch,
}

/// The two ways to deduce within a line, the cheaper one first.
#[derive(Clone, Copy, Debug, PartialEq, Eq, Structural, Hash)]
pub enum SolveMode {
    Skim,
    Scrub,
}

impl SolveMode {
    /// The place of the mode among the modes, from the cheapest on.
    pub open spec fn rank(self) -> int {
        match self {
            SolveMode::Skim => 0,
            SolveMode::Scrub => 1,
        }
    }

    /// The cheapest mode.
    pub fn first() -> (mode: SolveMode)
        ensures
            mode == SolveMode::Skim,
    {
        SolveMode::Skim
    }

    /// The modes, from the cheapest on.
    pub fn all() -> (modes: Vec<SolveMode>)
        ensures
            modes@ == seq![SolveMode::Skim, SolveMode::Scrub],
    {
        vec![SolveMode::Skim, SolveMode::Scrub]
    }

    /// Whether this mode is `other` or a dearer one.
    pub fn at_least(self, other: SolveMode) -> (is: bool)
        ensures
            is == (self.rank() >= other.rank()),
    {
        match (self, other) {
            (SolveMode::Skim, SolveMode::Scrub) => false,
            _ => true,
        }
    }

    /// The letter that stands for the mode in a trace.
    pub fn ch(self) -> (letter: char)
        ensures
            letter == match self {
                SolveMode::Skim => 's',
                SolveMode::Scrub => 'S',
            },
    {
        match self {
            SolveMode::Skim => 's',
            SolveMode::Scrub => 'S',
        }
    }
}

/// One value for each mode.
#[derive(Clone, Copy, Debug, PartialEq, Eq)]
pub struct ModeMap<T> {
    pub skim: T,
    pub scrub: T,
}

impl<T: Copy> ModeMap<T> {
    /// The value for the mode.
    pub open spec fn at(self, mode: SolveMode) -> T {
        match mode {
            SolveMode::Skim => self.skim,
            SolveMode::Scrub => self.scrub,
        }
    }

    pub fn new_uniform(value: T) -> (map: ModeMap<T>)
        ensures
            map.skim == value,
            map.scrub == value,
    {
        ModeMap { skim: value, scrub: value }
    }

    pub fn get(&self, mode: SolveMode) -> (value: T)
        ensures
            value == self.at(mode),
    {
        match mode {
            SolveMode::Skim => self.skim,
            SolveMode::Scrub => self.scrub,
        }
    }

    pub fn set(&mut self, mode: SolveMode, value: T)
        ensures
            final(self).at(mode) == value,
            forall|other: SolveMode| other != mode ==> final(self).at(other) == old(self).at(other),
    {
        match mode {
            SolveMode::Skim => {
                self.skim = value;
            },
            SolveMode::Scrub => {
                self.scrub = value;
            },
        }
    }
}

/// The set of colors that a cell of the grid may still have, one bit a color.
#[derive(Clone, Copy, Debug, PartialEq, Eq, Structural)]
pub struct Cell {
    possible_color_mask: u32,
}

impl View for Cell {
    type V = Set<Color>;

    open spec fn view(&self) -> Set<Color> {
        Set::new(|c: Color| self.can(c))
    }
}

impl Cell {
    /// The bits of the cell: bit `c` is set where color `c` is still possible.
    pub closed spec fn bits(self) -> u32 {
        self.possible_color_mask
    }

    /// Whether the color is still possible.
    pub open spec fn can(self, c: Color) -> bool {
        has_bit(self.bits(), c.0)
    }

    /// Exactly one color is possible.
    pub open spec fn known(self) -> bool {
        single_bit(self.bits())
    }

    /// `c` is the one color that is possible.
    pub open spec fn known_to_be(self, c: Color) -> bool {
        c.0 < 32 && self.bits() == bit(c.0)
    }

    /// No color is possible.
    pub open spec fn impossible(self) -> bool {
        self.bits() == 0
    }

    /// Every color that is possible here is possible in `other`.
    pub open spec fn within(self, other: Cell) -> bool {
        self.bits() & other.bits() == self.bits()
    }

    /// The cell that is known to be of the color.
    pub closed spec fn only(c: Color) -> Cell {
        Cell { possible_color_mask: bit(c.0) }
    }

    /// The cell without the color.
    pub closed spec fn without(self, c: Color) -> Cell {
        Cell {
            possible_color_mask: if c.0 < 32 {
                self.possible_color_mask & !bit(c.0)
            } else {
                self.possible_color_mask
            },
        }
    }

    /// What `only` and `without` give.
    pub proof fn lemma_only_without(self, c: Color)
        ensures
            c.fits_cell() ==> Cell::only(c).known_to_be(c),
            forall|d: Color| #[trigger] self.without(c).can(d) <==> self.can(d) && d != c,
    {
        assert forall|d: Color| #[trigger] self.without(c).can(d) <==> self.can(d) && d != c by {
            if c.0 < 32 {
                lemma_bit_and(self.possible_color_mask, !bit(c.0), d.0);
                if d.0 < 32 {
                    lemma_bit_not(bit(c.0), d.0);
                    lemma_bit_single(c.0, d.0);
                }
            }
        }
    }

    /// The cell with those of its first `n` colors ruled out that are not
    /// among `allowed`.
    pub open spec fn keeping(self, allowed: Set<Color>, n: nat) -> Cell
        decreases n,
    {
        if n == 0 {
            self
        } else {
            let rest = self.keeping(allowed, (n - 1) as nat);
            let c = Color((n - 1) as u8);
            if allowed.contains(c) {
                rest
            } else {
                rest.without(c)
            }
        }
    }

    /// What `keeping` keeps.
    pub proof fn lemma_keeping(self, allowed: Set<Color>, n: nat)
        requires
            n <= 32,
        ensures
            forall|c: Color| #[trigger]
                self.keeping(allowed, n).can(c) <==> self.can(c) && (c.0 < n ==> allowed.contains(c)),
        decreases n,
    {
        if n > 0 {
            let rest = self.keeping(allowed, (n - 1) as nat);
            self.lemma_keeping(allowed, (n - 1) as nat);
            rest.lemma_only_without(Color((n - 1) as u8));
            assert forall|c: Color| #[trigger]
                self.keeping(allowed, n).can(c) <==> self.can(c) && (c.0 < n ==> allowed.contains(
                    c,
                )) by {
                assert(rest.can(c) <==> self.can(c) && (c.0 < n - 1 ==> allowed.contains(c)));
                if c.0 == n - 1 {
                    assert(c == Color((n - 1) as u8));
                }
            }
        }
    }

    /// A cell that is not impossible can have some color.
    pub proof fn lemma_some_color(self) -> (c: Color)
        requires
            !self.impossible(),
        ensures
            self.can(c),
    {
        Color(lemma_nonzero_has_bit(self.bits()))
    }

    /// A cell is its bits.
    pub proof fn lemma_by_bits(self, other: Cell)
        ensures
            self.bits() == other.bits() <==> self == other,
    {
    }

    /// `within` is the subset order of the views, and cells with the same
    /// colors are the same cell.
    pub proof fn lemma_views(self, other: Cell)
        ensures
            self.within(other) <==> self@.subset_of(other@),
            self@ == other@ <==> self == other,
            self.impossible() <==> self@ == Set::<Color>::empty(),
    {
        lemma_subset_bits(self.bits(), other.bits());
        if self.within(other) {
            assert forall|c: Color| self@.contains(c) implies other@.contains(c) by {}
        }
        if self@.subset_of(other@) {
            assert forall|c: u8| has_bit(self.bits(), c) implies has_bit(other.bits(), c) by {
                assert(self@.contains(Color(c)));
            }
        }
        if self@ == other@ {
            assert forall|c: u8| c < 32 implies (has_bit(self.bits(), c) <==> has_bit(
                other.bits(),
                c,
            )) by {
                assert(self@.contains(Color(c)) <==> other@.contains(Color(c)));
            }
            lemma_mask_ext(self.bits(), other.bits());
        }
        if self.impossible() {
            assert forall|c: Color| !self@.contains(c) by {
                lemma_bit_zero(c.0);
            }
            assert(self@ =~= Set::<Color>::empty());
        }
        if self@ == Set::<Color>::empty() && self.bits() != 0 {
            let c = lemma_nonzero_has_bit(self.bits());
            assert(self@.contains(Color(c)));
        }
    }

    /// A known cell has its one color and no other.
    pub proof fn lemma_known(self, c: Color)
        ensures
            self.known_to_be(c) ==> self.known() && self.can(c),
            self.known() && self.can(c) ==> self.known_to_be(c),
            self.known_to_be(c) ==> forall|d: Color| self.can(d) <==> d == c,
            self.known() ==> !self.impossible(),
    {
        if self.known_to_be(c) {
            lemma_bit_single(c.0, c.0);
            assert forall|d: Color| self.can(d) <==> d == c by {
                lemma_bit_single(c.0, d.0);
            }
        }
        if self.known() && self.can(c) {
            lemma_single_bit_is(self.bits(), c.0);
        }
        if self.known() {
            let d = choose|d: u8| d < 32 && self.bits() == bit(d);
            lemma_bit_single(d, d);
        }
    }

    /// The cell in which every color of the palette that can stand in a cell
    /// is possible.
    pub fn new<C: Clue>(puzzle: &Puzzle<C>) -> (cell: Cell)
        ensures
            forall|c: Color| #[trigger] cell.can(c) <==> c.fits_cell() && puzzle.palette@.contains_key(c.0),
    {
        broadcast use vstd::std_specs::hash::group_hash_axioms;

        let mut res: u32 = 0;
        let mut i: u8 = 0;
        proof {
            assert forall|c: u8| !has_bit(0u32, c) by {
                lemma_bit_zero(c);
            }
        }
        while i < 32
            invariant
                i <= 32,
                forall|c: u8| #[trigger] has_bit(res, c) <==> c < i && puzzle.palette@.contains_key(c),
            decreases 32 - i,
        {
            if puzzle.palette.contains_key(&i) {
                let ghost before = res;
                res = res | (1u32 << (i as u32));
                proof {
                    assert forall|c: u8| #[trigger]
                        has_bit(res, c) <==> c < i + 1 && puzzle.palette@.contains_key(c) by {
                        lemma_bit_or(before, bit(i), c);
                        lemma_bit_single(i, c);
                    }
                }
            }
            i = i + 1;
        }
        Cell { possible_color_mask: res }
    }

    pub fn raw(&self) -> (bits: u32)
        ensures
            bits == self.bits(),
    {
        self.possible_color_mask
    }

    /// The cell in which every color is possible.
    pub fn new_anything() -> (cell: Cell)
        ensures
            cell.bits() == u32::MAX,
            forall|c: Color| cell.can(c) <==> c.fits_cell(),
    {
        proof {
            assert forall|c: Color| has_bit(u32::MAX, c.0) <==> c.fits_cell() by {
                lemma_bit_zero(c.0);
            }
        }
        Cell { possible_color_mask: u32::MAX }
    }

    /// The cell in which exactly the given colors are possible.
    pub fn from_colors(colors: &[Color]) -> (cell: Cell)
        requires
            forall|i: int| 0 <= i < colors@.len() ==> (#[trigger] colors@[i]).fits_cell(),
        ensures
            forall|c: Color| cell.can(c) <==> colors@.contains(c),
    {
        let mut res = Self::new_impossible();
        let mut i: usize = 0;
        while i < colors.len()
            invariant
                i <= colors@.len(),
                forall|j: int| 0 <= j < colors@.len() ==> (#[trigger] colors@[j]).fits_cell(),
                forall|c: Color| res.can(c) <==> colors@.subrange(0, i as int).contains(c),
            decreases colors@.len() - i,
        {
            let ghost before = res;
            res.actually_could_be(colors[i]);
            proof {
                assert forall|c: Color| res.can(c) <==> colors@.subrange(0, i + 1).contains(
                    c,
                ) by {
                    let shorter = colors@.subrange(0, i as int);
                    let longer = colors@.subrange(0, i + 1);
                    assert(longer =~= shorter.push(colors@[i as int]));
                    if shorter.contains(c) {
                        let j = choose|j: int| 0 <= j < shorter.len() && shorter[j] == c;
                        assert(longer[j] == c);
                    }
                    if c == colors@[i as int] {
                        assert(longer[i as int] == c);
                    }
                }
            }
            i = i + 1;
        }
        proof {
            assert(colors@.subrange(0, i as int) =~= colors@);
        }
        res
    }

    /// The cell that is known to be of the given color.
    pub fn from_color(color: Color) -> (cell: Cell)
        requires
            color.fits_cell(),
        ensures
            cell.known_to_be(color),
            cell == Cell::only(color),
    {
        Cell { possible_color_mask: 1u32 << (color.0 as u32) }
    }

    pub fn is_known(&self) -> (known: bool)
        ensures
            known == self.known(),
    {
        proof {
            lemma_single_bit_test(self.possible_color_mask);
        }
        let m = self.possible_color_mask;
        m != 0 && m & (m - 1) == 0
    }

    pub fn is_known_to_be(&self, color: Color) -> (known: bool)
        ensures
            known == self.known_to_be(color),
    {
        color.0 < 32 && self.possible_color_mask == 1u32 << (color.0 as u32)
    }

    pub fn can_be(&self, color: Color) -> (can: bool)
        ensures
            can == self.can(color),
    {
        color.0 < 32 && (self.possible_color_mask & (1u32 << (color.0 as u32))) != 0
    }

    /// The colors that are still possible, in rising order.
    pub fn can_be_iter(&self) -> (colors: Vec<Color>)
        ensures
            forall|c: Color| colors@.contains(c) <==> self.can(c),
            forall|i: int, j: int| 0 <= i < j < colors@.len() ==> colors@[i].0 < colors@[j].0,
    {
        let mut res: Vec<Color> = Vec::new();
        let mut i: u8 = 0;
        while i < 32
            invariant
                i <= 32,
                forall|c: Color| res@.contains(c) <==> self.can(c) && c.0 < i,
                forall|k: int| 0 <= k < res@.len() ==> (#[trigger] res@[k]).0 < i,
                forall|k: int, j: int| 0 <= k < j < res@.len() ==> res@[k].0 < res@[j].0,
            decreases 32 - i,
        {
            if self.possible_color_mask & (1u32 << (i as u32)) != 0 {
                let ghost before = res@;
                res.push(Color(i));
                proof {
                    assert forall|c: Color| res@.contains(c) <==> self.can(c) && c.0 < i + 1 by {
                        if before.contains(c) {
                            let k = choose|k: int| 0 <= k < before.len() && before[k] == c;
                            assert(res@[k] == c);
                        }
                        if c == Color(i) {
                            assert(res@[before.len() as int] == c);
                        }
                    }
                }
            }
            i = i + 1;
        }
        res
    }

    /// The color of a known cell.
    pub fn known_or(&self) -> (color: Option<Color>)
        ensures
            match color {
                Some(c) => self.known_to_be(c),
                None => !self.known(),
            },
    {
        if !self.is_known() {
            None
        } else {
            let mut i: u8 = 0;
            while i < 31 && self.possible_color_mask != 1u32 << (i as u32)
                invariant
                    i <= 31,
                    self.known(),
                    forall|c: u8| c < i ==> self.bits() != bit(c),
                decreases 31 - i,
            {
                i = i + 1;
            }
            Some(Color(i))
        }
    }

    /// Restricts the cell to the one color. Returns whether anything new was
    /// learned, or an error if the color was not possible.
    pub fn learn(&mut self, color: Color) -> (learned: Result<bool, SolveError>)
        ensures
            match learned {
                Ok(changed) => old(self).can(color) && final(self).known_to_be(color) && changed
                    == (*final(self) != *old(self)),
                Err(e) => !old(self).can(color) && *final(self) == *old(self) && e
                    == SolveError::Contradiction,
            },
    {
        if !self.can_be(color) {
            return Err(SolveError::Contradiction);
        }
        let already_known = self.is_known();
        proof {
            self.lemma_known(color);
            if !already_known {
                lemma_bit_single(color.0, color.0);
                let d = color.0;
                assert(single_bit(bit(d)));
            }
        }
        self.possible_color_mask = 1u32 << (color.0 as u32);
        Ok(!already_known)
    }

    /// Keeps only what `possible` allows too. Returns whether anything new was
    /// learned, or an error if nothing would be left.
    pub fn learn_intersect(&mut self, possible: Cell) -> (learned: Result<bool, SolveError>)
        ensures
            match learned {
                Ok(changed) => final(self).bits() == old(self).bits() & possible.bits()
                    && !final(self).impossible() && changed == (*final(self) != *old(self)),
                Err(e) => old(self).bits() & possible.bits() == 0 && *final(self) == *old(self)
                    && e == SolveError::Contradiction,
            },
    {
        if self.possible_color_mask & possible.possible_color_mask == 0 {
            return Err(SolveError::Contradiction);
        }
        let orig_mask = self.possible_color_mask;
        self.possible_color_mask = self.possible_color_mask & possible.possible_color_mask;
        Ok(self.possible_color_mask != orig_mask)
    }

    /// Rules the color out. Returns whether anything new was learned, or an
    /// error if it was the only color left.
    pub fn learn_that_not(&mut self, color: Color) -> (learned: Result<bool, SolveError>)
        ensures
            match learned {
                Ok(changed) => {
                    &&& !old(self).known_to_be(color)
                    &&& forall|c: Color| final(self).can(c) <==> old(self).can(c) && c != color
                    &&& changed == (*final(self) != *old(self))
                    &&& changed == old(self).can(color)
                    &&& final(self).impossible() ==> old(self).impossible()
                    &&& *final(self) == old(self).without(color)
                },
                Err(e) => old(self).known_to_be(color) && *final(self) == *old(self) && e
                    == SolveError::Contradiction,
            },
    {
        if self.is_known_to_be(color) {
            return Err(SolveError::Contradiction);
        }
        let already_known = !self.can_be(color);
        if color.0 < 32 {
            let ghost before = self.possible_color_mask;
            self.possible_color_mask = self.possible_color_mask & !(1u32 << (color.0 as u32));
            proof {
                let after = self.possible_color_mask;
                assert forall|c: u8| has_bit(after, c) <==> has_bit(before, c) && c != color.0 by {
                    lemma_bit_and(before, !bit(color.0), c);
                    if c < 32 {
                        lemma_bit_not(bit(color.0), c);
                        lemma_bit_single(color.0, c);
                    }
                }
                if already_known {
                    assert forall|c: u8| c < 32 implies (has_bit(after, c) <==> has_bit(
                        before,
                        c,
                    )) by {}
                    lemma_mask_ext(after, before);
                } else {
                    assert(has_bit(before, color.0) && !has_bit(after, color.0));
                    if after == 0 {
                        assert forall|c: u8| c < 32 implies (has_bit(before, c) <==> has_bit(
                            bit(color.0),
                            c,
                        )) by {
                            lemma_bit_zero(c);
                            lemma_bit_single(color.0, c);
                        }
                        lemma_mask_ext(before, bit(color.0));
                    }
                }
            }
        }
        Ok(!already_known)
    }

    /// The cell in which no color is possible: the start of a cell that is
    /// built up color by color.
    pub fn new_impossible() -> (cell: Cell)
        ensures
            cell.impossible(),
            forall|c: Color| !cell.can(c),
    {
        proof {
            assert forall|c: Color| !has_bit(0u32, c.0) by {
                lemma_bit_zero(c.0);
            }
        }
        Cell { possible_color_mask: 0 }
    }

    /// Makes the color possible.
    pub fn actually_could_be(&mut self, color: Color)
        requires
            color.fits_cell(),
        ensures
            final(self).bits() == old(self).bits() | bit(color.0),
            forall|c: Color| final(self).can(c) <==> old(self).can(c) || c == color,
    {
        proof {
            assert forall|c: Color|
                has_bit(self.possible_color_mask | bit(color.0), c.0) <==> self.can(c) || c
                    == color by {
                lemma_bit_or(self.possible_color_mask, bit(color.0), c.0);
                lemma_bit_single(color.0, c.0);
            }
        }
        self.possible_color_mask = self.possible_color_mask | (1u32 << (color.0 as u32));
    }

    pub fn contradictory(&self) -> (none: bool)
        ensures
            none == self.impossible(),
    {
        self.possible_color_mask == 0
    }

    /// The color of a cell that is known.
    pub fn unwrap_color(&self) -> (color: Color)
        requires
            self.known(),
        ensures
            self.known_to_be(color),
    {
        match self.known_or() {
            Some(c) => c,
            None => background(),
        }
    }
}

/// The indices of the cells of a lane that a deduction narrowed.
#[derive(Clone, Debug)]
pub struct ScrubReport {
    pub affected_cells: Vec<usize>,
}

/// `after` is `before` with no cell widened, and with no cell left without
/// a color that had one.
pub open spec fn narrowed(before: Seq<Cell>, after: Seq<Cell>) -> bool {
    &&& after.len() == before.len()
    &&& forall|i: int|
        0 <= i < before.len() ==> {
            &&& (#[trigger] after[i]).within(before[i])
            &&& after[i].impossible() ==> before[i].impossible()
        }
}

/// `affected` lists the cells in which `after` differs from `before`, and
/// no others.
pub open spec fn marks_changes(before: Seq<Cell>, after: Seq<Cell>, affected: Seq<usize>) -> bool {
    forall|i: usize|
        #[trigger] affected.contains(i) <==> i < before.len() && after[i as int] != before[i as int]
}

/// `after` is `before` with the cell at `idx` cut down to the colors in
/// `allowed`.
pub open spec fn narrowed_at(
    before: Seq<Cell>,
    after: Seq<Cell>,
    idx: int,
    allowed: Set<Color>,
) -> bool {
    &&& after.len() == before.len()
    &&& forall|j: int| 0 <= j < before.len() && j != idx ==> #[trigger] after[j] == before[j]
    &&& forall|c: Color| #[trigger] after[idx].can(c) <==> before[idx].can(c) && allowed.contains(c)
}

/// `after` is `before` with `idx` added where the cell changed.
pub open spec fn noted(before: Seq<usize>, after: Seq<usize>, idx: usize, changed: bool) -> bool {
    after == if changed {
        before.push(idx)
    } else {
        before
    }
}

/// One cell cut down keeps a lane narrowed and its changes marked.
pub proof fn lemma_step_marks(
    orig: Seq<Cell>,
    cur: Seq<Cell>,
    new: Seq<Cell>,
    idx: int,
    allowed: Set<Color>,
    affected: Seq<usize>,
    new_affected: Seq<usize>,
)
    requires
        narrowed(orig, cur),
        marks_changes(orig, cur, affected),
        0 <= idx < cur.len(),
        idx <= usize::MAX,
        narrowed_at(cur, new, idx, allowed),
        new[idx].impossible() ==> cur[idx].impossible(),
        noted(affected, new_affected, idx as usize, new[idx] != cur[idx]),
    ensures
        narrowed(orig, new),
        marks_changes(orig, new, new_affected),
{
    let c = cur[idx];
    let n = new[idx];
    let o = orig[idx];
    n.lemma_views(c);
    c.lemma_views(o);
    n.lemma_views(o);
    o.lemma_views(n);
    assert(cur[idx].within(orig[idx]));
    assert(n@.subset_of(c@));
    assert(n@.subset_of(o@));
    assert forall|i: int| 0 <= i < orig.len() implies (#[trigger] new[i]).within(orig[i]) && (
    new[i].impossible() ==> orig[i].impossible()) by {
        assert(cur[i].within(orig[i]));
        if i != idx {
            assert(new[i] == cur[i]);
        }
    }
    if n != c && n == o {
        assert(c@.subset_of(n@));
        assert(c@ =~= n@);
    }
    assert forall|i: usize| #[trigger]
        new_affected.contains(i) <==> i < orig.len() && new[i as int] != orig[i as int] by {
        assert(affected.contains(i) <==> i < orig.len() && cur[i as int] != orig[i as int]);
        if n != c {
            assert(new_affected == affected.push(idx as usize));
            if affected.contains(i) {
                let w = choose|w: int| 0 <= w < affected.len() && affected[w] == i;
                assert(new_affected[w] == i);
            }
            if i == idx {
                assert(new_affected[affected.len() as int] == i);
            }
            if i != idx && i < orig.len() {
                assert(new[i as int] == cur[i as int]);
            }
        } else {
            if i != idx && i < orig.len() {
                assert(new[i as int] == cur[i as int]);
            }
        }
    }
}

/// Cutting a cell down to colors among which every arrangement has its
/// color there loses no arrangement.
pub proof fn lemma_step_sound(
    line: Line,
    orig: Seq<Cell>,
    cur: Seq<Cell>,
    new: Seq<Cell>,
    idx: int,
    allowed: Set<Color>,
)
    requires
        line.preserved(orig, cur),
        0 <= idx < cur.len(),
        narrowed_at(cur, new, idx, allowed),
        forall|p: Seq<int>| #[trigger] line.is_arrangement(orig, p) ==> line.puts_in(p, idx, allowed),
    ensures
        line.preserved(orig, new),
{
    assert forall|p: Seq<int>| #[trigger] line.is_arrangement(orig, p) implies line.is_arrangement(
        new,
        p,
    ) by {
        assert(line.is_arrangement(cur, p));
        line.lemma_arrangement_allowed(cur, p, idx);
        assert(line.puts_in(p, idx, allowed));
        assert(line.allows_at(p, idx, new[idx]));
        line.lemma_narrow_keeps(cur, p, idx, new[idx]);
        assert(new =~= cur.update(idx, new[idx]));
    }
}

/// Where every arrangement has at a cell a color that the cell has not, there
/// is no arrangement.
pub proof fn lemma_step_refutes(
    line: Line,
    orig: Seq<Cell>,
    cur: Seq<Cell>,
    idx: int,
    allowed: Set<Color>,
)
    requires
        line.preserved(orig, cur),
        0 <= idx < cur.len(),
        forall|c: Color| !(cur[idx].can(c) && allowed.contains(c)),
        forall|p: Seq<int>| #[trigger] line.is_arrangement(orig, p) ==> line.puts_in(p, idx, allowed),
    ensures
        line.refuted(orig),
{
    assert forall|p: Seq<int>| !#[trigger] line.is_arrangement(orig, p) by {
        if line.is_arrangement(orig, p) {
            assert(line.is_arrangement(cur, p));
            line.lemma_arrangement_allowed(cur, p, idx);
            assert(line.puts_in(p, idx, allowed));
            if line.covered(p, idx) {
                let k = choose|k: int| line.covers(p, k, idx);
                assert(cur[idx].can(line.clues[k][idx - p[k]]));
                assert(allowed.contains(line.clues[k][idx - p[k]]));
            } else {
                assert(cur[idx].can(background()));
            }
        }
    }
}

/// Learns that the cell at `idx` has the color, and notes the index if that
/// was news.
pub fn learn_cell(
    color: Color,
    lane: &mut Vec<Cell>,
    idx: usize,
    affected_cells: &mut Vec<usize>,
) -> (learned: Result<(), SolveError>)
    requires
        idx < old(lane)@.len(),
    ensures
        match learned {
            Ok(()) => {
                &&& narrowed_at(old(lane)@, final(lane)@, idx as int, set![color])
                &&& final(lane)@[idx as int].known_to_be(color)
                &&& !final(lane)@[idx as int].impossible()
                &&& noted(
                    old(affected_cells)@,
                    final(affected_cells)@,
                    idx,
                    final(lane)@[idx as int] != old(lane)@[idx as int],
                )
            },
            Err(e) => {
                &&& e == SolveError::Contradiction
                &&& !old(lane)@[idx as int].can(color)
                &&& final(lane)@ == old(lane)@
                &&& final(affected_cells)@ == old(affected_cells)@
            },
        },
{
    let mut cell = lane[idx];
    let changed = cell.learn(color)?;
    proof {
        cell.lemma_known(color);
    }
    lane[idx] = cell;
    if changed {
        affected_cells.push(idx);
    }
    Ok(())
}

/// Learns that the cell at `idx` has one of the given possibilities, and
/// notes the index if that was news.
pub fn learn_cell_intersect(
    possibilities: Cell,
    lane: &mut Vec<Cell>,
    idx: usize,
    affected_cells: &mut Vec<usize>,
) -> (learned: Result<(), SolveError>)
    requires
        idx < old(lane)@.len(),
    ensures
        match learned {
            Ok(()) => {
                &&& narrowed_at(old(lane)@, final(lane)@, idx as int, possibilities@)
                &&& !final(lane)@[idx as int].impossible()
                &&& noted(
                    old(affected_cells)@,
                    final(affected_cells)@,
                    idx,
                    final(lane)@[idx as int] != old(lane)@[idx as int],
                )
            },
            Err(e) => {
                &&& e == SolveError::Contradiction
                &&& forall|c: Color| !(old(lane)@[idx as int].can(c) && possibilities.can(c))
                &&& final(lane)@ == old(lane)@
                &&& final(affected_cells)@ == old(affected_cells)@
            },
        },
{
    let mut cell = lane[idx];
    let ghost before = cell;
    proof {
        assert forall|c: Color|
            has_bit(before.bits() & possibilities.bits(), c.0) <==> before.can(c)
                && possibilities.can(c) by {
            lemma_bit_and(before.bits(), possibilities.bits(), c.0);
        }
        if before.bits() & possibilities.bits() == 0 {
            assert forall|c: Color| !(before.can(c) && possibilities.can(c)) by {
                lemma_bit_zero(c.0);
            }
        }
    }
    let changed = cell.learn_intersect(possibilities)?;
    lane[idx] = cell;
    if changed {
        affected_cells.push(idx);
    }
    Ok(())
}

/// Learns that the cell at `idx` has not the color, and notes the index if
/// that was news.
pub fn learn_cell_not(
    color: Color,
    lane: &mut Vec<Cell>,
    idx: usize,
    affected_cells: &mut Vec<usize>,
) -> (learned: Result<(), SolveError>)
    requires
        idx < old(lane)@.len(),
    ensures
        match learned {
            Ok(()) => {
                &&& narrowed_at(
                    old(lane)@,
                    final(lane)@,
                    idx as int,
                    Set::new(|c: Color| c != color),
                )
                &&& final(lane)@[idx as int].impossible() ==> old(lane)@[idx as int].impossible()
                &&& !old(lane)@[idx as int].known_to_be(color)
                &&& final(lane)@ == old(lane)@.update(
                    idx as int,
                    old(lane)@[idx as int].without(color),
                )
                &&& noted(
                    old(affected_cells)@,
                    final(affected_cells)@,
                    idx,
                    final(lane)@[idx as int] != old(lane)@[idx as int],
                )
            },
            Err(e) => {
                &&& e == SolveError::Contradiction
                &&& old(lane)@[idx as int].known_to_be(color)
                &&& final(lane)@ == old(lane)@
                &&& final(affected_cells)@ == old(affected_cells)@
            },
        },
{
    let mut cell = lane[idx];
    let changed = cell.learn_that_not(color)?;
    lane[idx] = cell;
    if changed {
        affected_cells.push(idx);
    }
    Ok(())
}

fn lane_at(lane: &Vec<Cell>, idx: usize, reversed: bool) -> (cell: Cell)
    requires
        idx < lane@.len(),
    ensures
        cell == seen_lane(lane@, reversed)[idx as int],
{
    if reversed {
        lane[lane.len() - 1 - idx]
    } else {
        lane[idx]
    }
}

fn clue_at<C: Clue>(clues: &[C], idx: usize, reversed: bool) -> (clue: C)
    requires
        idx < clues@.len(),
    ensures
        clue == if reversed {
            clues@[clues@.len() - 1 - idx]
        } else {
            clues@[idx as int]
        },
{
    if reversed {
        clues[clues.len() - 1 - idx]
    } else {
        clues[idx]
    }
}

fn clue_color_at<C: Clue>(clue: &C, idx: usize, reversed: bool) -> (color: Color)
    requires
        idx < clue.spec_len(),
    ensures
        color == if reversed {
            clue.spec_color_at(clue.spec_len() - 1 - idx)
        } else {
            clue.spec_color_at(idx as int)
        },
{
    if reversed {
        clue.color_at(clue.len() - 1 - idx)
    } else {
        clue.color_at(idx)
    }
}

/// The first place at or behind `start` where the clue fits, seen from one
/// end of the lane or the other: where each of its cells can have its color.
fn find_place<C: Clue>(
    clue: &C,
    lane: &Vec<Cell>,
    start: usize,
    reversed: bool,
    Ghost(line): Ghost<Line>,
    Ghost(k): Ghost<int>,
) -> (place: Option<usize>)
    requires
        clue.well_formed(),
        0 <= k < line.n(),
        line.len(k) == clue.spec_len(),
        forall|j: int|
            0 <= j < line.len(k) ==> #[trigger] line.clues[k][j] == (if reversed {
                clue.spec_color_at(clue.spec_len() - 1 - j)
            } else {
                clue.spec_color_at(j)
            }),
        start <= lane@.len(),
    ensures
        match place {
            Some(pos) => {
                &&& start <= pos
                &&& line.fits(seen_lane(lane@, reversed), k, pos as int)
                &&& forall|s: int| start <= s < pos ==> !line.fits(seen_lane(lane@, reversed), k, s)
            },
            None => forall|s: int| start <= s ==> !line.fits(seen_lane(lane@, reversed), k, s),
        },
{
    let ghost cells = seen_lane(lane@, reversed);
    let len = lane.len();
    let clue_len = clue.len();
    proof {
        clue.well_formed_covers();
    }
    let mut pos = start;
    loop
        invariant
            clue.well_formed(),
            0 <= k < line.n(),
            clue_len == clue.spec_len(),
            clue_len == line.len(k),
            clue_len >= 1,
            forall|j: int|
                0 <= j < line.len(k) ==> #[trigger] line.clues[k][j] == (if reversed {
                    clue.spec_color_at(clue.spec_len() - 1 - j)
                } else {
                    clue.spec_color_at(j)
                }),
            cells == seen_lane(lane@, reversed),
            len == lane@.len(),
            len == cells.len(),
            start <= pos <= len,
            forall|s: int| start <= s < pos ==> !line.fits(cells, k, s),
        decreases len - pos,
    {
        let mut j: usize = 0;
        let mut ok = true;
        while ok && j < clue_len
            invariant
                clue.well_formed(),
                0 <= k < line.n(),
                clue_len == clue.spec_len(),
                clue_len == line.len(k),
                forall|j: int|
                    0 <= j < line.len(k) ==> #[trigger] line.clues[k][j] == (if reversed {
                        clue.spec_color_at(clue.spec_len() - 1 - j)
                    } else {
                        clue.spec_color_at(j)
                    }),
                cells == seen_lane(lane@, reversed),
                len == lane@.len(),
                len == cells.len(),
                start <= pos <= len,
                forall|s: int| start <= s < pos ==> !line.fits(cells, k, s),
                j <= clue_len,
                ok ==> pos + j <= len,
                ok ==> forall|jj: int|
                    0 <= jj < j ==> (#[trigger] cells[pos + jj]).can(line.clues[k][jj]),
                !ok ==> j < clue_len && pos + j < len && !cells[pos + j].can(line.clues[k][j as int]),
            decreases
                    clue_len - j + (if ok {
                        1int
                    } else {
                        0int
                    }),
        {
            if j >= len - pos {
                // The clue reaches over the end of the lane, here and
                // anywhere behind.
                return None;
            }
            let cur = lane_at(lane, pos + j, reversed);
            let color = clue_color_at(clue, j, reversed);
            assert(color == line.clues[k][j as int]);
            if cur.can_be(color) {
                j = j + 1;
            } else {
                ok = false;
            }
        }
        if ok {
            return Some(pos);
        }
        proof {
            if line.fits(cells, k, pos as int) {
                assert(cells[pos + j].can(line.clues[k][j as int]));
            }
        }
        pos = pos + 1;
    }
}

/// The clues as `reversed` sees them show the colors of the seen line.
proof fn lemma_seen_clue<C: Clue>(clues: Seq<C>, reversed: bool, k: int)
    requires
        clues_well_formed(clues),
        0 <= k < clues.len(),
    ensures
        ({
            let line = seen_line(line_of(clues), reversed);
            let clue = if reversed {
                clues[clues.len() - 1 - k]
            } else {
                clues[k]
            };
            &&& clue.well_formed()
            &&& line.n() == clues.len()
            &&& line.len(k) == clue.spec_len()
            &&& forall|j: int|
                0 <= j < line.len(k) ==> #[trigger] line.clues[k][j] == (if reversed {
                    clue.spec_color_at(clue.spec_len() - 1 - j)
                } else {
                    clue.spec_color_at(j)
                })
            &&& k > 0 ==> line.seps[k] == (if reversed {
                clue.spec_separated(&clues[clues.len() - k])
            } else {
                clues[k - 1].spec_separated(&clue)
            })
        }),
{
    lemma_line_of_wf(clues);
    lemma_mirror_wf(line_of(clues));
}

/// The clues packed towards the start of the lane as it is seen from one end
/// or the other: the index, counted from that end, of the last cell of each
/// clue, where each clue stands at the first place behind the clue before it
/// at which all its cells can have its colors.
fn pack_greedy<C: Clue>(clues: &[C], lane: &Vec<Cell>, reversed: bool) -> (packed: Result<
    Vec<usize>,
    SolveError,
>)
    requires
        clues_well_formed(clues@),
        clues@.len() > 0,
    ensures
        match packed {
            Ok(ext) => {
                &&& right_ends_ok(seen_line(line_of(clues@), reversed), lane@.len() as int, ext@)
                &&& bounded_from_left(
                    seen_line(line_of(clues@), reversed),
                    seen_lane(lane@, reversed),
                    ext@,
                )
                &&& exists|p: Seq<int>| #[trigger]
                    seen_line(line_of(clues@), reversed).is_least_placement(
                        seen_lane(lane@, reversed),
                        p,
                    ) && ints(ext@) == seen_line(line_of(clues@), reversed).ends(p)
            },
            Err(e) => {
                &&& e == SolveError::UnsatisfiableLine
                &&& seen_line(line_of(clues@), reversed).refuted(seen_lane(lane@, reversed))
                &&& !seen_line(line_of(clues@), reversed).packable(seen_lane(lane@, reversed))
            },
        },
{
    let n = clues.len();
    let len = lane.len();
    let ghost line = seen_line(line_of(clues@), reversed);
    let ghost cells = seen_lane(lane@, reversed);
    proof {
        lemma_line_of_wf(clues@);
        lemma_mirror_wf(line_of(clues@));
    }
    let mut extents: Vec<usize> = Vec::new();
    let mut pos: usize = 0;
    let mut k: usize = 0;
    while k < n
        invariant
            clues_well_formed(clues@),
            line == seen_line(line_of(clues@), reversed),
            cells == seen_lane(lane@, reversed),
            n == clues@.len(),
            n == line.n(),
            len == lane@.len(),
            len == cells.len(),
            k <= n,
            extents@.len() == k,
            pos <= len,
            k == 0 ==> pos == 0,
            k > 0 ==> pos == extents@[k - 1] + 1,
            forall|j: int|
                0 <= j < k ==> {
                    &&& line.len(j) <= #[trigger] extents@[j] + 1
                    &&& extents@[j] < len
                    &&& j > 0 ==> extents@[j - 1] + line.len(j) <= extents@[j]
                },
            forall|j: int|
                0 <= j < k ==> {
                    &&& line.fits(cells, j, #[trigger] extents@[j] + 1 - line.len(j))
                    &&& j > 0 ==> extents@[j - 1] + line.len(j) + line.gap(j) <= extents@[j]
                },
            forall|p: Seq<int>| #[trigger]
                line.is_placement(cells, p) ==> ends_reach(line, p, extents@, k as int),
        decreases n - k,
    {
        let clue = clue_at(clues, k, reversed);
        let clue_len = clue.len();
        proof {
            lemma_seen_clue(clues@, reversed, k as int);
            clue.well_formed_covers();
        }
        let mut separated = false;
        if k > 0 {
            let last = clue_at(clues, k - 1, reversed);
            separated = if !reversed {
                last.must_be_separated_from(&clue)
            } else {
                clue.must_be_separated_from(&last)
            };
        }
        assert(k > 0 ==> separated == line.seps[k as int]);
        let ghost from = pos + if separated {
            1int
        } else {
            0int
        };
        proof {
            assert forall|p: Seq<int>| #[trigger] line.is_placement(cells, p) implies p[k as int]
                >= from by {
                assert(line.fits(cells, k as int, p[k as int]));
                if k > 0 {
                    assert(ends_reach(line, p, extents@, k as int));
                    assert(p[k - 1] + line.len(k - 1) - 1 >= extents@[k - 1]);
                    assert(line.spaced(p, k as int));
                }
            }
        }
        if separated {
            if pos >= len {
                proof {
                    assert forall|p: Seq<int>| !line.is_placement(cells, p) by {
                        if line.is_placement(cells, p) {
                            assert(line.fits(cells, k as int, p[k as int]));
                        }
                    }
                }
                return Err(SolveError::UnsatisfiableLine);
            }
            pos = pos + 1;
        }
        match find_place(&clue, lane, pos, reversed, Ghost(line), Ghost(k as int)) {
            None => {
                proof {
                    assert forall|p: Seq<int>| !line.is_placement(cells, p) by {
                        if line.is_placement(cells, p) {
                            assert(line.fits(cells, k as int, p[k as int]));
                        }
                    }
                }
                return Err(SolveError::UnsatisfiableLine);
            },
            Some(place) => {
                proof {
                    assert forall|p: Seq<int>| #[trigger]
                        line.is_placement(cells, p) implies p[k as int] >= place by {
                        assert(line.fits(cells, k as int, p[k as int]));
                    }
                }
                pos = place;
            },
        }
        let ghost before = extents@;
        extents.push(pos + clue_len - 1);
        proof {
            assert forall|p: Seq<int>| #[trigger] line.is_placement(cells, p) implies ends_reach(
                line,
                p,
                extents@,
                k + 1,
            ) by {
                assert(ends_reach(line, p, before, k as int));
                assert forall|j: int| 0 <= j < k + 1 implies p[j] + line.len(j) - 1
                    >= #[trigger] extents@[j] by {
                    if j < k {
                        assert(extents@[j] == before[j]);
                    }
                }
            }
            assert forall|j: int| 0 <= j < k + 1 implies {
                &&& line.len(j) <= #[trigger] extents@[j] + 1
                &&& extents@[j] < len
                &&& j > 0 ==> extents@[j - 1] + line.len(j) <= extents@[j]
            } by {
                if j < k {
                    assert(extents@[j] == before[j]);
                    if j > 0 {
                        assert(extents@[j - 1] == before[j - 1]);
                    }
                } else if j > 0 {
                    assert(extents@[j - 1] == before[j - 1]);
                }
            }
            assert forall|j: int| 0 <= j < k + 1 implies {
                &&& line.fits(cells, j, #[trigger] extents@[j] + 1 - line.len(j))
                &&& j > 0 ==> extents@[j - 1] + line.len(j) + line.gap(j) <= extents@[j]
            } by {
                if j < k {
                    assert(extents@[j] == before[j]);
                    assert(line.fits(cells, j, before[j] + 1 - line.len(j)));
                    if j > 0 {
                        assert(extents@[j - 1] == before[j - 1]);
                    }
                } else if j > 0 {
                    assert(extents@[j - 1] == before[j - 1]);
                }
            }
        }
        pos = pos + clue_len;
        k = k + 1;
    }
    proof {
        assert forall|p: Seq<int>| #[trigger] line.is_arrangement(cells, p) implies ends_reach(
            line,
            p,
            extents@,
            line.n(),
        ) by {
            assert(line.is_placement(cells, p));
        }
        let starts = Seq::new(n as nat, |j: int| extents@[j] + 1 - line.len(j));
        assert forall|j: int| 0 <= j < line.n() implies #[trigger] line.fits(cells, j, starts[j]) by {
            assert(line.fits(cells, j, extents@[j] + 1 - line.len(j)));
        }
        assert forall|j: int| 0 <= j < line.n() implies #[trigger] line.spaced(starts, j) by {
            if j > 0 {
                assert(extents@[j - 1] + line.len(j) + line.gap(j) <= extents@[j]);
            }
        }
        assert forall|q: Seq<int>| #[trigger] line.is_placement(cells, q) implies forall|j: int|
            0 <= j < line.n() ==> starts[j] <= #[trigger] q[j] by {
            assert(ends_reach(line, q, extents@, n as int));
            assert forall|j: int| 0 <= j < line.n() implies starts[j] <= #[trigger] q[j] by {
                assert(q[j] + line.len(j) - 1 >= extents@[j]);
            }
        }
        assert(line.is_least_placement(cells, starts));
        assert(ints(extents@) =~= line.ends(starts));
    }
    Ok(extents)
}

/// A cell that cannot be background belongs to some clue. Walking back from
/// the end of the lane, the first such cell belongs to the last clue at the
/// latest, the next one before that clue to the clue before it at the latest,
/// and so on: each pulls the end of its clue over it, where the end was before it.
fn pull_in<C: Clue>(clues: &[C], lane: &Vec<Cell>, reversed: bool, extents: &mut Vec<usize>)
    requires
        clues_well_formed(clues@),
        clues@.len() > 0,
        right_ends_ok(seen_line(line_of(clues@), reversed), lane@.len() as int, old(extents)@),
        bounded_from_left(
            seen_line(line_of(clues@), reversed),
            seen_lane(lane@, reversed),
            old(extents)@,
        ),
    ensures
        right_ends_ok(seen_line(line_of(clues@), reversed), lane@.len() as int, final(extents)@),
        bounded_from_left(
            seen_line(line_of(clues@), reversed),
            seen_lane(lane@, reversed),
            final(extents)@,
        ),
        ints(final(extents)@) == seen_line(line_of(clues@), reversed).pull(
            seen_lane(lane@, reversed),
            ints(old(extents)@),
            clues@.len() - 1,
            lane@.len() - 1,
        ),
{
    let n = clues.len();
    let len = lane.len();
    let ghost line = seen_line(line_of(clues@), reversed);
    let ghost cells = seen_lane(lane@, reversed);
    proof {
        lemma_line_of_wf(clues@);
        lemma_mirror_wf(line_of(clues@));
        assert(extents@[n - 1] < len);
    }
    let ghost target = line.pull(cells, ints(extents@), n - 1, len - 1);
    let mut cur: usize = n - 1;
    let mut i: usize = len - 1;
    loop
        invariant_except_break
            cur < n,
            i < len,
            cur + 1 < n ==> i + line.len(cur + 1) <= extents@[cur + 1],
            target == line.pull(cells, ints(extents@), cur as int, i as int),
        invariant
            clues_well_formed(clues@),
            line == seen_line(line_of(clues@), reversed),
            cells == seen_lane(lane@, reversed),
            n == clues@.len(),
            n == line.n(),
            len == lane@.len(),
            len == cells.len(),
            right_ends_ok(line, len as int, extents@),
            bounded_from_left(line, cells, extents@),
        ensures
            target == ints(extents@),
        decreases cur, i,
    {
        let ghost entry = extents@;
        let ghost entry_cur = cur;
        let ghost entry_i = i;
        if !lane_at(lane, i, reversed).can_be(background()) {
            let ghost before = extents@;
            if extents[cur] < i {
                extents[cur] = i;
                proof {
                    assert(ints(extents@) =~= ints(before).update(cur as int, i as int));
                    assert forall|p: Seq<int>| #[trigger]
                        line.is_arrangement(cells, p) implies ends_reach(
                        line,
                        p,
                        extents@,
                        line.n(),
                    ) by {
                        assert(ends_reach(line, p, before, line.n()));
                        assert(line.covered(p, i as int));
                        let c = choose|c: int| line.covers(p, c, i as int);
                        if c > cur {
                            if c > cur + 1 {
                                line.lemma_order(cells, p, cur + 1, c);
                            }
                            assert(p[cur + 1] + line.len(cur + 1) - 1 >= before[cur + 1]);
                            assert(line.fits(cells, cur + 1, p[cur + 1]));
                            assert(false);
                        }
                        if c < cur {
                            line.lemma_order(cells, p, c, cur as int);
                        }
                        assert(line.fits(cells, cur as int, p[cur as int]));
                        assert forall|j: int| 0 <= j < line.n() implies p[j] + line.len(j) - 1
                            >= #[trigger] extents@[j] by {
                            if j != cur {
                                assert(extents@[j] == before[j]);
                            }
                        }
                    }
                    assert forall|j: int| 0 <= j < line.n() implies {
                        &&& line.len(j) <= #[trigger] extents@[j] + 1
                        &&& extents@[j] < len
                        &&& j > 0 ==> extents@[j - 1] + line.len(j) <= extents@[j]
                    } by {
                        assert(line.len(j) <= before[j] + 1);
                        if j > 0 {
                            assert(before[j - 1] + line.len(j) <= before[j]);
                        }
                    }
                }
            }
            proof {
                lemma_seen_clue(clues@, reversed, cur as int);
            }
            let clue_len = clue_at(clues, cur, reversed).len();
            assert(line.len(cur as int) <= extents@[cur as int] + 1);
            proof {
                let pulled = if ints(entry)[entry_cur as int] < entry_i {
                    ints(entry).update(entry_cur as int, entry_i as int)
                } else {
                    ints(entry)
                };
                assert(ints(extents@) == pulled);
                assert(pulled[entry_cur as int] == extents@[entry_cur as int]);
            }
            i = extents[cur] + 1 - clue_len;
            if cur == 0 {
                break;
            }
            cur = cur - 1;
            if i == 0 {
                break;
            }
            i = i - 1;
        } else {
            if i == 0 {
                break;
            }
            i = i - 1;
        }
    }
}

/// The clues packed towards the start of the lane as it is seen from one end
/// or the other, with each clue pulled over the cells that only it can claim.
fn pack<C: Clue>(clues: &[C], lane: &Vec<Cell>, reversed: bool) -> (packed: Result<
    Vec<usize>,
    SolveError,
>)
    requires
        clues_well_formed(clues@),
        clues@.len() > 0,
    ensures
        match packed {
            Ok(ext) => {
                &&& right_ends_ok(seen_line(line_of(clues@), reversed), lane@.len() as int, ext@)
                &&& bounded_from_left(
                    seen_line(line_of(clues@), reversed),
                    seen_lane(lane@, reversed),
                    ext@,
                )
                &&& seen_line(line_of(clues@), reversed).left_packed(
                    seen_lane(lane@, reversed),
                    ints(ext@),
                )
            },
            Err(e) => {
                &&& e == SolveError::UnsatisfiableLine
                &&& seen_line(line_of(clues@), reversed).refuted(seen_lane(lane@, reversed))
                &&& !seen_line(line_of(clues@), reversed).packable(seen_lane(lane@, reversed))
            },
        },
{
    let mut extents = pack_greedy(clues, lane, reversed)?;
    let ghost greedy = extents@;
    pull_in(clues, lane, reversed, &mut extents);
    proof {
        let line = seen_line(line_of(clues@), reversed);
        let cells = seen_lane(lane@, reversed);
        lemma_line_of_wf(clues@);
        lemma_mirror_wf(line_of(clues@));
        let p = choose|p: Seq<int>| #[trigger]
            line.is_least_placement(cells, p) && ints(greedy) == line.ends(p);
        assert(line.is_least_placement(cells, p) && ints(extents@) == line.pull(
            cells,
            line.ends(p),
            line.n() - 1,
            cells.len() - 1,
        ));
    }
    Ok(extents)
}

/// For example, the clues (1 2 1) with nothing else known give
/// `.] .  .  .]  .  .]` from the left. From the left the result holds the
/// last cell of each clue, from the right (`reversed`) its first cell; both
/// are indices into the lane as it stands.
pub fn packed_extents<C: Clue>(clues: &[C], lane: &Vec<Cell>, reversed: bool) -> (packed: Result<
    Vec<usize>,
    SolveError,
>)
    requires
        clues_well_formed(clues@),
        clues@.len() > 0,
    ensures
        match packed {
            Ok(ext) => if reversed {
                &&& left_starts_ok(line_of(clues@), lane@.len() as int, ext@)
                &&& bounded_from_right(line_of(clues@), lane@, ext@)
                &&& line_of(clues@).right_packed(lane@, ints(ext@))
            } else {
                &&& right_ends_ok(line_of(clues@), lane@.len() as int, ext@)
                &&& bounded_from_left(line_of(clues@), lane@, ext@)
                &&& line_of(clues@).left_packed(lane@, ints(ext@))
            },
            Err(e) => {
                &&& e == SolveError::UnsatisfiableLine
                &&& line_of(clues@).refuted(lane@)
                &&& !line_of(clues@).packable(lane@)
            },
        },
{
    let ghost line = line_of(clues@);
    proof {
        lemma_line_of_wf(clues@);
        lemma_mirror_wf(line);
    }
    match pack(clues, lane, reversed) {
        Err(e) => {
            proof {
                if reversed {
                    assert forall|p: Seq<int>| !#[trigger] line.is_arrangement(lane@, p) by {
                        if line.is_arrangement(lane@, p) {
                            line.lemma_mirror(lane@, p);
                        }
                    }
                    assert forall|p: Seq<int>| !line.is_placement(lane@, p) by {
                        if line.is_placement(lane@, p) {
                            line.lemma_mirror_placement(lane@, p);
                        }
                    }
                }
            }
            Err(e)
        },
        Ok(ext) => {
            if !reversed {
                return Ok(ext);
            }
            let n = clues.len();
            let len = lane.len();
            let ghost m = line.mirror();
            let mut out: Vec<usize> = Vec::new();
            let mut k: usize = 0;
            while k < n
                invariant
                    k <= n,
                    n == line.n(),
                    n == m.n(),
                    len == lane@.len(),
                    right_ends_ok(m, len as int, ext@),
                    out@.len() == k,
                    forall|j: int| 0 <= j < k ==> #[trigger] out@[j] == len - 1 - ext@[n - 1 - j],
                decreases n - k,
            {
                assert(ext@[n - 1 - k] < len);
                out.push(len - 1 - ext[n - 1 - k]);
                k = k + 1;
            }
            proof {
                assert forall|j: int| 0 <= j < line.n() implies {
                    &&& #[trigger] out@[j] + line.len(j) <= len
                    &&& j > 0 ==> out@[j - 1] + line.len(j - 1) <= out@[j]
                } by {
                    assert(m.len(n - 1 - j) <= ext@[n - 1 - j] + 1);
                    assert(m.len(n - 1 - j) == line.len(j));
                    if j > 0 {
                        assert(ext@[n - j - 1] + m.len(n - j) <= ext@[n - j]);
                        assert(m.len(n - j) == line.len(j - 1));
                    }
                }
                assert forall|p: Seq<int>| #[trigger] line.is_arrangement(lane@, p) implies forall|
                    j: int,
                | 0 <= j < line.n() ==> p[j] <= #[trigger] out@[j] by {
                    line.lemma_mirror(lane@, p);
                    let mp = line.mirror_placement(len as int, p);
                    assert(ends_reach(m, mp, ext@, m.n()));
                    assert forall|j: int| 0 <= j < line.n() implies p[j] <= #[trigger] out@[j] by {
                        assert(mp[n - 1 - j] + m.len(n - 1 - j) - 1 >= ext@[n - 1 - j]);
                        assert(m.len(n - 1 - j) == line.len(j));
                    }
                }
                assert(ints(out@) =~= Seq::new(
                    ints(ext@).len(),
                    |k: int| lane@.len() - 1 - ints(ext@)[line.n() - 1 - k],
                ));
                assert(line.mirror().left_packed(mirror_lane(lane@), ints(ext@)));
            }
            Ok(out)
        },
    }
}

/// What holds of a lane while deductions are written into it: nothing was
/// widened, `affected` lists what changed, and no arrangement was lost.
pub open spec fn kept(line: Line, orig: Seq<Cell>, cur: Seq<Cell>, affected: Seq<usize>) -> bool {
    &&& narrowed(orig, cur)
    &&& marks_changes(orig, cur, affected)
    &&& line.preserved(orig, cur)
}

proof fn lemma_step_kept(
    line: Line,
    orig: Seq<Cell>,
    cur: Seq<Cell>,
    new: Seq<Cell>,
    idx: int,
    allowed: Set<Color>,
    affected: Seq<usize>,
    new_affected: Seq<usize>,
)
    requires
        kept(line, orig, cur, affected),
        0 <= idx < cur.len(),
        idx <= usize::MAX,
        narrowed_at(cur, new, idx, allowed),
        new[idx].impossible() ==> cur[idx].impossible(),
        noted(affected, new_affected, idx as usize, new[idx] != cur[idx]),
        forall|p: Seq<int>| #[trigger] line.is_arrangement(orig, p) ==> line.puts_in(p, idx, allowed),
    ensures
        kept(line, orig, new, new_affected),
{
    lemma_step_marks(orig, cur, new, idx, allowed, affected, new_affected);
    lemma_step_sound(line, orig, cur, new, idx, allowed);
}

/// Learns that the cells from `from` up to `to` are background, where no
/// arrangement has a clue over any of them.
fn clear_range(
    lane: &mut Vec<Cell>,
    from: usize,
    to: usize,
    affected: &mut Vec<usize>,
    Ghost(line): Ghost<Line>,
    Ghost(orig): Ghost<Seq<Cell>>,
) -> (cleared: Result<(), SolveError>)
    requires
        to <= old(lane)@.len(),
        kept(line, orig, old(lane)@, old(affected)@),
        forall|p: Seq<int>, i: int|
            from <= i < to && #[trigger] line.is_arrangement(orig, p) ==> !#[trigger] line.covered(
                p,
                i,
            ),
    ensures
        narrowed(orig, final(lane)@),
        narrowed(old(lane)@, final(lane)@),
        match cleared {
            Ok(()) => {
                &&& kept(line, orig, final(lane)@, final(affected)@)
                &&& forall|i: int| from <= i < to ==> (#[trigger] final(lane)@[i]).known_to_be(background())
                &&& forall|i: int, c: Color|
                    0 <= i < old(lane)@.len() ==> (#[trigger] final(lane)@[i].can(c) <==> old(
                        lane,
                    )@[i].can(c) && (from <= i < to ==> c == background()))
            },
            Err(e) => {
                &&& e == SolveError::Contradiction
                &&& line.refuted(orig)
                &&& exists|i: int| from <= i < to && !#[trigger] old(lane)@[i].can(background())
            },
        },
{
    let mut i = from;
    let ghost entry = lane@;
    proof {
        lemma_narrowed_self(entry);
    }
    while i < to
        invariant
            to <= lane@.len(),
            from <= i,
            i <= to || i == from,
            entry == old(lane)@,
            narrowed(entry, lane@),
            kept(line, orig, lane@, affected@),
            forall|p: Seq<int>, i: int|
                from <= i < to && #[trigger] line.is_arrangement(orig, p) ==> !#[trigger] line.covered(
                    p,
                    i,
                ),
            forall|j: int| from <= j < i ==> (#[trigger] lane@[j]).known_to_be(background()),
            forall|j: int, c: Color|
                0 <= j < entry.len() ==> (#[trigger] lane@[j].can(c) <==> entry[j].can(c) && (from
                    <= j < i ==> c == background())),
        decreases to - i,
    {
        let ghost cur = lane@;
        let ghost marks = affected@;
        proof {
            assert forall|p: Seq<int>| #[trigger] line.is_arrangement(orig, p) implies line.puts_in(
                p,
                i as int,
                set![background()],
            ) by {
                assert(!line.covered(p, i as int));
            }
        }
        match learn_cell(background(), lane, i, affected) {
            Err(e) => {
                proof {
                    lemma_step_refutes(line, orig, cur, i as int, set![background()]);
                    assert(cur[i as int].can(background()) <==> entry[i as int].can(background()));
                    assert(!entry[i as int].can(background()));
                }
                return Err(e);
            },
            Ok(()) => {
                proof {
                    lemma_narrowed_at(cur, lane@, i as int, set![background()]);
                    lemma_narrowed_on(entry, cur, lane@);
                    lemma_step_kept(
                        line,
                        orig,
                        cur,
                        lane@,
                        i as int,
                        set![background()],
                        marks,
                        affected@,
                    );
                    assert forall|j: int| from <= j < i + 1 implies (#[trigger] lane@[j]).known_to_be(
                        background(),
                    ) by {
                        if j < i {
                            assert(lane@[j] == cur[j]);
                        }
                    }
                    assert forall|j: int, c: Color| 0 <= j < entry.len() implies (
                    #[trigger] lane@[j].can(c) <==> entry[j].can(c) && (from <= j < i + 1 ==> c
                        == background())) by {
                        assert(cur[j].can(c) <==> entry[j].can(c) && (from <= j < i ==> c
                            == background()));
                        if j != i {
                            assert(lane@[j] == cur[j]);
                        }
                    }
                }
            },
        }
        i = i + 1;
    }
    Ok(())
}

/// Cutting one cell down narrows the lane.
pub proof fn lemma_narrowed_at(before: Seq<Cell>, after: Seq<Cell>, idx: int, allowed: Set<Color>)
    requires
        narrowed_at(before, after, idx, allowed),
        0 <= idx < before.len(),
        after[idx].impossible() ==> before[idx].impossible(),
    ensures
        narrowed(before, after),
{
    assert forall|i: int| 0 <= i < before.len() implies (#[trigger] after[i]).within(before[i]) && (
    after[i].impossible() ==> before[i].impossible()) by {
        after[i].lemma_views(before[i]);
        if i != idx {
            assert(after[i] == before[i]);
        }
    }
}

/// A lane is narrowed from itself.
pub proof fn lemma_narrowed_self(lane: Seq<Cell>)
    ensures
        narrowed(lane, lane),
{
    assert forall|i: int| 0 <= i < lane.len() implies (#[trigger] lane[i]).within(lane[i]) && (
    lane[i].impossible() ==> lane[i].impossible()) by {
        lane[i].lemma_views(lane[i]);
    }
}

/// `narrowed` goes on from lane to lane.
pub proof fn lemma_narrowed_on(a: Seq<Cell>, b: Seq<Cell>, c: Seq<Cell>)
    requires
        narrowed(a, b),
        narrowed(b, c),
    ensures
        narrowed(a, c),
{
    assert forall|i: int| 0 <= i < a.len() implies (#[trigger] c[i]).within(a[i]) && (
    c[i].impossible() ==> a[i].impossible()) by {
        assert(b[i].within(a[i]));
        assert(c[i].within(b[i]));
        c[i].lemma_views(b[i]);
        b[i].lemma_views(a[i]);
        c[i].lemma_views(a[i]);
    }
}

/// The cell of the colors that the clues show, and of the background.
pub fn line_colors<C: Clue>(clues: &[C]) -> (cell: Cell)
    requires
        clues_well_formed(clues@),
    ensures
        forall|c: Color| #[trigger] cell.can(c) <==> c == background() || line_of(clues@).shows(c),
{
    let ghost line = line_of(clues@);
    proof {
        lemma_line_of_wf(clues@);
    }
    let mut possible_colors = Cell::from_color(background());
    proof {
        possible_colors.lemma_known(background());
    }
    let mut k: usize = 0;
    while k < clues.len()
        invariant
            clues_well_formed(clues@),
            line == line_of(clues@),
            line.wf(),
            k <= clues@.len(),
            forall|c: Color| #[trigger]
                possible_colors.can(c) <==> c == background() || line.shows_before(k as int, 0, c),
        decreases clues@.len() - k,
    {
        let clue = clues[k];
        let clue_len = clue.len();
        let mut j: usize = 0;
        while j < clue_len
            invariant
                clues_well_formed(clues@),
                line == line_of(clues@),
                line.wf(),
                k < clues@.len(),
                clue == clues@[k as int],
                clue_len == clue.spec_len(),
                j <= clue_len,
                forall|c: Color| #[trigger]
                    possible_colors.can(c) <==> c == background() || line.shows_before(
                        k as int,
                        j as int,
                        c,
                    ),
            decreases clue_len - j,
        {
            let color = clue.color_at(j);
            let ghost before = possible_colors;
            proof {
                assert(color == line.clues[k as int][j as int]);
                assert(line.len(k as int) == clue_len);
                assert(color.fits_cell());
            }
            possible_colors.actually_could_be(color);
            proof {
                assert forall|c: Color| #[trigger]
                    possible_colors.can(c) <==> c == background() || line.shows_before(
                        k as int,
                        j + 1,
                        c,
                    ) by {
                    if line.shows_before(k as int, j as int, c) {
                        let (a, b) = choose|a: int, b: int|
                            0 <= a < line.n() && 0 <= b < line.len(a) && (a < k || (a == k && b
                                < j)) && #[trigger] line.clues[a][b] == c;
                        assert(line.clues[a][b] == c);
                    }
                    if line.shows_before(k as int, j + 1, c) {
                        let (a, b) = choose|a: int, b: int|
                            0 <= a < line.n() && 0 <= b < line.len(a) && (a < k || (a == k && b < j
                                + 1)) && #[trigger] line.clues[a][b] == c;
                        if !(a == k && b == j) {
                            assert(line.clues[a][b] == c);
                            assert(line.shows_before(k as int, j as int, c));
                        }
                    }
                }
            }
            j = j + 1;
        }
        proof {
            assert forall|c: Color| #[trigger]
                possible_colors.can(c) <==> c == background() || line.shows_before(k + 1, 0, c) by {
                if line.shows_before(k as int, j as int, c) {
                    let (a, b) = choose|a: int, b: int|
                        0 <= a < line.n() && 0 <= b < line.len(a) && (a < k || (a == k && b < j))
                            && #[trigger] line.clues[a][b] == c;
                    assert(line.clues[a][b] == c);
                }
                if line.shows_before(k + 1, 0, c) {
                    let (a, b) = choose|a: int, b: int|
                        0 <= a < line.n() && 0 <= b < line.len(a) && (a < k + 1 || (a == k + 1 && b
                            < 0)) && #[trigger] line.clues[a][b] == c;
                    assert(line.clues[a][b] == c);
                    assert(line.shows_before(k as int, j as int, c));
                }
            }
        }
        k = k + 1;
    }
    proof {
        assert forall|c: Color| #[trigger]
            possible_colors.can(c) <==> c == background() || line.shows(c) by {
            if line.shows_before(k as int, 0, c) {
                let (a, b) = choose|a: int, b: int|
                    0 <= a < line.n() && 0 <= b < line.len(a) && (a < k || (a == k && b < 0))
                        && #[trigger] line.clues[a][b] == c;
                assert(line.clues[a][b] == c);
            }
            if line.shows(c) {
                let (a, b) = choose|a: int, b: int|
                    0 <= a < line.n() && 0 <= b < line.len(a) && #[trigger] line.clues[a][b] == c;
                assert(line.clues[a][b] == c);
                assert(line.shows_before(k as int, 0, c));
            }
        }
    }
    possible_colors
}

/// Rules out, in every cell, the colors that the line does not show.
fn prune_colors(
    possible_colors: Cell,
    lane: &mut Vec<Cell>,
    affected: &mut Vec<usize>,
    Ghost(line): Ghost<Line>,
    Ghost(orig): Ghost<Seq<Cell>>,
) -> (pruned: Result<(), SolveError>)
    requires
        kept(line, orig, old(lane)@, old(affected)@),
        forall|c: Color| #[trigger] possible_colors.can(c) <==> c == background() || line.shows(c),
    ensures
        narrowed(orig, final(lane)@),
        match pruned {
            Ok(()) => {
                &&& kept(line, orig, final(lane)@, final(affected)@)
                &&& forall|i: int, c: Color|
                    0 <= i < orig.len() && #[trigger] final(lane)@[i].can(c) ==> possible_colors.can(
                        c,
                    )
                &&& forall|i: int| 0 <= i < orig.len() ==> !(#[trigger] final(lane)@[i]).impossible()
                &&& forall|i: int, c: Color|
                    0 <= i < orig.len() ==> (#[trigger] final(lane)@[i].can(c) <==> old(lane)@[i].can(
                        c,
                    ) && possible_colors.can(c))
            },
            Err(e) => {
                &&& e == SolveError::Contradiction
                &&& line.refuted(orig)
                &&& exists|i: int| #[trigger] starved(old(lane)@, i, possible_colors@)
            },
        },
{
    let mut i: usize = 0;
    let ghost entry = lane@;
    while i < lane.len()
        invariant
            i <= lane@.len(),
            lane@.len() == orig.len(),
            entry == old(lane)@,
            entry.len() == orig.len(),
            forall|j: int| i <= j < lane@.len() ==> lane@[j] == entry[j],
            forall|j: int| 0 <= j < i ==> !(#[trigger] lane@[j]).impossible(),
            forall|j: int, c: Color|
                0 <= j < i ==> (#[trigger] lane@[j].can(c) <==> entry[j].can(c) && possible_colors.can(
                    c,
                )),
            kept(line, orig, lane@, affected@),
            forall|c: Color| #[trigger]
                possible_colors.can(c) <==> c == background() || line.shows(c),
            forall|j: int, c: Color|
                0 <= j < i && #[trigger] lane@[j].can(c) ==> possible_colors.can(c),
        decreases lane@.len() - i,
    {
        let ghost cur = lane@;
        let ghost marks = affected@;
        proof {
            assert forall|p: Seq<int>| #[trigger] line.is_arrangement(orig, p) implies line.puts_in(
                p,
                i as int,
                possible_colors@,
            ) by {
                assert forall|k: int| #[trigger] line.covers(p, k, i as int) implies possible_colors@.contains(
                line.clues[k][i - p[k]]) by {
                    assert(line.clues[k][i - p[k]] == line.clues[k][i - p[k]]);
                    assert(line.shows(line.clues[k][i - p[k]]));
                }
            }
        }
        match learn_cell_intersect(possible_colors, lane, i, affected) {
            Err(e) => {
                proof {
                    lemma_step_refutes(line, orig, cur, i as int, possible_colors@);
                    assert(starved(entry, i as int, possible_colors@));
                }
                return Err(e);
            },
            Ok(()) => {
                proof {
                    assert forall|j: int| i < j < lane@.len() implies lane@[j] == entry[j] by {
                        assert(lane@[j] == cur[j]);
                    }
                    assert forall|j: int| 0 <= j < i + 1 implies !(#[trigger] lane@[j]).impossible() by {
                        if j < i {
                            assert(lane@[j] == cur[j]);
                        }
                    }
                    assert forall|j: int, c: Color| 0 <= j < i + 1 implies (#[trigger] lane@[j].can(
                        c,
                    ) <==> entry[j].can(c) && possible_colors.can(c)) by {
                        if j < i {
                            assert(lane@[j] == cur[j]);
                            assert(cur[j].can(c) <==> entry[j].can(c) && possible_colors.can(c));
                        }
                    }
                    lemma_step_kept(
                        line,
                        orig,
                        cur,
                        lane@,
                        i as int,
                        possible_colors@,
                        marks,
                        affected@,
                    );
                    assert forall|j: int, c: Color|
                        0 <= j < i + 1 && #[trigger] lane@[j].can(c) implies possible_colors.can(
                        c,
                    ) by {
                        if j < i {
                            assert(lane@[j] == cur[j]);
                        }
                    }
                }
            },
        }
        i = i + 1;
    }
    Ok(())
}

/// Writes out what follows for the cells from `left` to `right`, which
/// clue `k` covers wherever it stands: each of them has one of the colors that
/// the clue can show there.
fn write_overlap<C: Clue>(
    clues: &[C],
    k: usize,
    left: usize,
    right: usize,
    lane: &mut Vec<Cell>,
    affected: &mut Vec<usize>,
    Ghost(orig): Ghost<Seq<Cell>>,
    Ghost(lpr): Ghost<Seq<usize>>,
    Ghost(rpl): Ghost<Seq<usize>>,
) -> (written: Result<(), SolveError>)
    requires
        clues_well_formed(clues@),
        k < clues@.len(),
        lpr.len() == clues@.len(),
        rpl.len() == clues@.len(),
        left == rpl[k as int],
        right == lpr[k as int],
        left <= right,
        right < old(lane)@.len(),
        right - left + 1 <= clues@[k as int].spec_len(),
        kept(line_of(clues@), orig, old(lane)@, old(affected)@),
        clue_bounds(line_of(clues@), orig, lpr, rpl),
    ensures
        narrowed(orig, final(lane)@),
        narrowed(old(lane)@, final(lane)@),
        match written {
            Ok(()) => {
                &&& kept(line_of(clues@), orig, final(lane)@, final(affected)@)
                &&& forall|i: int, c: Color|
                    0 <= i < old(lane)@.len() ==> (#[trigger] final(lane)@[i].can(c) <==> old(
                        lane,
                    )@[i].can(c) && line_of(clues@).overlap_allows(
                        ints(lpr),
                        ints(rpl),
                        k as int,
                        i,
                        c,
                    ))
            },
            Err(e) => {
                &&& e == SolveError::Contradiction
                &&& line_of(clues@).refuted(orig)
                &&& exists|i: int| #[trigger]
                    starved(
                        old(lane)@,
                        i,
                        line_of(clues@).overlap_set(ints(lpr), ints(rpl), k as int, i),
                    )
            },
        },
{
    let ghost line = line_of(clues@);
    proof {
        lemma_line_of_wf(clues@);
    }
    let clue = clues[k];
    let clue_len = clue.len();
    let clue_wiggle_room = clue_len - 1 - (right - left);
    let mut idx = left;
    let ghost entry = lane@;
    proof {
        lemma_narrowed_self(entry);
    }
    while idx <= right
        invariant
            entry == old(lane)@,
            narrowed(entry, lane@),
            clues_well_formed(clues@),
            line == line_of(clues@),
            line.wf(),
            k < clues@.len(),
            lpr.len() == clues@.len(),
            rpl.len() == clues@.len(),
            clue == clues@[k as int],
            clue_len == clue.spec_len(),
            clue_len == line.len(k as int),
            left == rpl[k as int],
            right == lpr[k as int],
            left <= idx <= right + 1,
            right < lane@.len(),
            lane@.len() == orig.len(),
            clue_wiggle_room == clue_len - 1 - (right - left),
            kept(line, orig, lane@, affected@),
            clue_bounds(line, orig, lpr, rpl),
            forall|j: int, c: Color|
                0 <= j < entry.len() ==> (#[trigger] lane@[j].can(c) <==> entry[j].can(c) && (left
                    <= j < idx ==> line.overlap_allows(ints(lpr), ints(rpl), k as int, j, c))),
        decreases right + 1 - idx,
    {
        let mut clue_cell = Cell::new_impossible();
        let mut wiggle_idx: usize = 0;
        while wiggle_idx <= clue_wiggle_room
            invariant
                clue.well_formed(),
                clue_len == clue.spec_len(),
                left <= idx <= right,
                clue_wiggle_room == clue_len - 1 - (right - left),
                wiggle_idx <= clue_wiggle_room + 1,
                forall|c: Color| #[trigger]
                    clue_cell.can(c) <==> exists|w: int|
                        0 <= w < wiggle_idx && c == #[trigger] clue.spec_color_at(idx - left + w),
            decreases clue_wiggle_room + 1 - wiggle_idx,
        {
            let color = clue.color_at(idx - left + wiggle_idx);
            let ghost before = clue_cell;
            proof {
                clue.well_formed_covers();
                assert(color.fits_cell());
            }
            clue_cell.actually_could_be(color);
            proof {
                assert forall|c: Color| #[trigger]
                    clue_cell.can(c) <==> exists|w: int|
                        0 <= w < wiggle_idx + 1 && c == #[trigger] clue.spec_color_at(
                            idx - left + w,
                        ) by {
                    if before.can(c) {
                        let w = choose|w: int|
                            0 <= w < wiggle_idx && c == #[trigger] clue.spec_color_at(
                                idx - left + w,
                            );
                        assert(c == clue.spec_color_at(idx - left + w));
                    }
                    if c == color {
                        assert(c == clue.spec_color_at(idx - left + wiggle_idx));
                    }
                    if exists|w: int|
                        0 <= w < wiggle_idx + 1 && c == #[trigger] clue.spec_color_at(
                            idx - left + w,
                        ) {
                        let w = choose|w: int|
                            0 <= w < wiggle_idx + 1 && c == #[trigger] clue.spec_color_at(
                                idx - left + w,
                            );
                        if w < wiggle_idx {
                            assert(c == clue.spec_color_at(idx - left + w));
                        }
                    }
                }
            }
            wiggle_idx = wiggle_idx + 1;
        }
        let ghost cur = lane@;
        let ghost marks = affected@;
        proof {
            assert forall|p: Seq<int>| #[trigger] line.is_arrangement(orig, p) implies line.puts_in(
                p,
                idx as int,
                clue_cell@,
            ) by {
                assert(lpr[k as int] + 1 - line.len(k as int) <= p[k as int] <= rpl[k as int]);
                assert(line.covers(p, k as int, idx as int));
                assert(line.is_arrangement(cur, p));
                assert forall|a: int| #[trigger] line.covers(p, a, idx as int) implies clue_cell@.contains(
                line.clues[a][idx - p[a]]) by {
                    line.lemma_one_cover(cur, p, a, k as int, idx as int);
                    let w = left - p[k as int];
                    assert(line.clues[k as int][idx - p[k as int]] == clue.spec_color_at(
                        idx - left + w,
                    ));
                }
            }
        }
        proof {
            assert forall|c: Color| #[trigger]
                clue_cell.can(c) <==> line.overlap_allows(
                    ints(lpr),
                    ints(rpl),
                    k as int,
                    idx as int,
                    c,
                ) by {
                if clue_cell.can(c) {
                    let w = choose|w: int|
                        0 <= w < wiggle_idx && c == #[trigger] clue.spec_color_at(idx - left + w);
                    assert(c == line.clues[k as int][idx - ints(rpl)[k as int] + w]);
                }
                if line.overlap_allows(ints(lpr), ints(rpl), k as int, idx as int, c) {
                    let w = choose|w: int|
                        0 <= w <= line.len(k as int) - 1 - (ints(lpr)[k as int] - ints(
                            rpl,
                        )[k as int]) && c == #[trigger] line.clues[k as int][idx - ints(
                            rpl,
                        )[k as int] + w];
                    assert(c == clue.spec_color_at(idx - left + w));
                }
            }
        }
        match learn_cell_intersect(clue_cell, lane, idx, affected) {
            Err(e) => {
                proof {
                    lemma_step_refutes(line, orig, cur, idx as int, clue_cell@);
                    assert(starved(
                        entry,
                        idx as int,
                        line.overlap_set(ints(lpr), ints(rpl), k as int, idx as int),
                    )) by {
                        assert forall|c: Color|
                            !(#[trigger] entry[idx as int].can(c) && line.overlap_allows(
                                ints(lpr),
                                ints(rpl),
                                k as int,
                                idx as int,
                                c,
                            )) by {
                            assert(cur[idx as int].can(c) <==> entry[idx as int].can(c));
                            assert(clue_cell.can(c) <==> line.overlap_allows(
                                ints(lpr),
                                ints(rpl),
                                k as int,
                                idx as int,
                                c,
                            ));
                        }
                    }
                }
                return Err(e);
            },
            Ok(()) => {
                proof {
                    lemma_narrowed_at(cur, lane@, idx as int, clue_cell@);
                    lemma_narrowed_on(entry, cur, lane@);
                    lemma_step_kept(line, orig, cur, lane@, idx as int, clue_cell@, marks, affected@);
                    assert forall|j: int, c: Color| 0 <= j < entry.len() implies (
                    #[trigger] lane@[j].can(c) <==> entry[j].can(c) && (left <= j < idx + 1
                        ==> line.overlap_allows(ints(lpr), ints(rpl), k as int, j, c))) by {
                        assert(cur[j].can(c) <==> entry[j].can(c) && (left <= j < idx
                            ==> line.overlap_allows(ints(lpr), ints(rpl), k as int, j, c)));
                        if j != idx {
                            assert(lane@[j] == cur[j]);
                        } else {
                            assert(clue_cell.can(c) <==> line.overlap_allows(
                                ints(lpr),
                                ints(rpl),
                                k as int,
                                idx as int,
                                c,
                            ));
                        }
                    }
                }
            },
        }
        assert(idx < lane.len());
        idx = idx + 1;
    }
    Ok(())
}

/// The extents found from both ends are in order within a lane of length
/// `len`, and bound the start of every clue in every arrangement.
pub open spec fn extents_hold(
    line: Line,
    lane: Seq<Cell>,
    lpr: Seq<usize>,
    rpl: Seq<usize>,
) -> bool {
    &&& right_ends_ok(line, lane.len() as int, lpr)
    &&& left_starts_ok(line, lane.len() as int, rpl)
    &&& clue_bounds(line, lane, lpr, rpl)
}

/// Where the pinned clue `k` must be separated from the clue before it
/// (`before`) or from the clue behind it, learns that the cell next to it on
/// that side is background.
fn clear_beside<C: Clue>(
    clues: &[C],
    k: usize,
    before: bool,
    lane: &mut Vec<Cell>,
    affected: &mut Vec<usize>,
    left_packed_right_extents: &Vec<usize>,
    right_packed_left_extents: &Vec<usize>,
    Ghost(orig): Ghost<Seq<Cell>>,
) -> (cleared: Result<(), SolveError>)
    requires
        clues_well_formed(clues@),
        k < clues@.len(),
        extents_hold(line_of(clues@), orig, left_packed_right_extents@, right_packed_left_extents@),
        kept(line_of(clues@), orig, old(lane)@, old(affected)@),
        line_of(clues@).pinned(
            ints(left_packed_right_extents@),
            ints(right_packed_left_extents@),
            k as int,
        ),
    ensures
        narrowed(orig, final(lane)@),
        narrowed(old(lane)@, final(lane)@),
        ({
            let line = line_of(clues@);
            let gap = if before {
                line.seps[k as int]
            } else {
                k + 1 < clues@.len() && line.seps[k + 1]
            };
            let at = if before {
                ints(right_packed_left_extents@)[k as int] - 1
            } else {
                ints(left_packed_right_extents@)[k as int] + 1
            };
            match cleared {
                Ok(()) => {
                    &&& kept(line, orig, final(lane)@, final(affected)@)
                    &&& forall|i: int, c: Color|
                        0 <= i < old(lane)@.len() ==> (#[trigger] final(lane)@[i].can(c) <==> old(
                            lane,
                        )@[i].can(c) && (gap && i == at ==> c == background()))
                },
                Err(e) => {
                    &&& e == SolveError::Contradiction
                    &&& line.refuted(orig)
                    &&& gap
                    &&& 0 <= at < old(lane)@.len()
                    &&& !old(lane)@[at].can(background())
                },
            }
        }),
{
    let ghost line = line_of(clues@);
    let ghost lpr = left_packed_right_extents@;
    let ghost rpl = right_packed_left_extents@;
    let n = clues.len();
    let len = lane.len();
    proof {
        lemma_line_of_wf(clues@);
        lemma_narrowed_self(lane@);
        assert(ints(lpr)[k as int] == lpr[k as int]);
        assert(ints(rpl)[k as int] == rpl[k as int]);
    }
    let gap = if before {
        k > 0 && clues[k - 1].must_be_separated_from(&clues[k])
    } else {
        k + 1 < n && clues[k].must_be_separated_from(&clues[k + 1])
    };
    if !gap {
        return Ok(());
    }
    proof {
        lemma_beside(line, orig, lpr, rpl, k as int, before);
    }
    let at = if before {
        right_packed_left_extents[k] - 1
    } else {
        left_packed_right_extents[k] + 1
    };
    proof {
        assert forall|p: Seq<int>, i: int|
            at <= i < at + 1 && #[trigger] line.is_arrangement(orig, p) implies !#[trigger] line.covered(
            p, i) by {
            lemma_beside_uncovered(line, orig, lpr, rpl, k as int, before, p);
        }
    }
    clear_range(lane, at, at + 1, affected, Ghost(line), Ghost(orig))
}

/// The cell beside a pinned clue that must be separated from its neighbour
/// lies within the lane.
proof fn lemma_beside(
    line: Line,
    orig: Seq<Cell>,
    lpr: Seq<usize>,
    rpl: Seq<usize>,
    k: int,
    before: bool,
)
    requires
        line.wf(),
        extents_hold(line, orig, lpr, rpl),
        0 <= k < line.n(),
        before ==> line.seps[k],
        !before ==> k + 1 < line.n() && line.seps[k + 1],
    ensures
        before ==> 1 <= rpl[k] <= orig.len(),
        !before ==> lpr[k] + 1 < orig.len(),
{
    if before {
        assert(k > 0);
        assert(rpl[k - 1] + line.len(k - 1) <= rpl[k]);
        assert(line.len(k - 1) >= 1);
        assert(rpl[k] + line.len(k) <= orig.len());
        assert(line.len(k) >= 1);
    } else {
        assert(lpr[k] + line.len(k + 1) <= lpr[k + 1]);
        assert(lpr[k + 1] < orig.len());
        assert(line.len(k + 1) >= 1);
    }
}

/// No arrangement has a clue over the cell beside a pinned clue that must
/// be separated from its neighbour.
proof fn lemma_beside_uncovered(
    line: Line,
    orig: Seq<Cell>,
    lpr: Seq<usize>,
    rpl: Seq<usize>,
    k: int,
    before: bool,
    p: Seq<int>,
)
    requires
        line.wf(),
        clue_bounds(line, orig, lpr, rpl),
        line.is_arrangement(orig, p),
        0 <= k < line.n(),
        lpr[k] - rpl[k] + 1 == line.len(k),
        before ==> line.seps[k],
        !before ==> k + 1 < line.n() && line.seps[k + 1],
    ensures
        !line.covered(
            p,
            if before {
                rpl[k] - 1
            } else {
                lpr[k] + 1
            },
        ),
{
    assert(lpr[k] + 1 - line.len(k) <= p[k] <= rpl[k]);
    if before {
        assert(k > 0);
        assert(line.spaced(p, k));
        line.lemma_between(orig, p, k, rpl[k] - 1);
    } else {
        assert(line.spaced(p, k + 1));
        line.lemma_between(orig, p, k + 1, lpr[k] + 1);
    }
}

/// A cell that one of the things that clue `k` says starves is starved by
/// all that the clue says.
proof fn lemma_clue_starves(
    line: Line,
    lefts: Seq<int>,
    rights: Seq<int>,
    k: int,
    entry: Seq<Cell>,
    at: Seq<Cell>,
    i: int,
    by_overlap: bool,
)
    requires
        0 <= i < entry.len(),
        at.len() == entry.len(),
        forall|c: Color| entry[i].can(c) && line.clue_allows(lefts, rights, k, i, c) ==> at[i].can(c),
        by_overlap ==> starved(at, i, line.overlap_set(lefts, rights, k, i)),
        !by_overlap ==> !at[i].can(background()) && forall|c: Color|
            line.clue_allows(lefts, rights, k, i, c) ==> c == background(),
    ensures
        starved(entry, i, line.clue_set(lefts, rights, k, i)),
{
    assert forall|c: Color|
        !(#[trigger] entry[i].can(c) && line.clue_set(lefts, rights, k, i).contains(c)) by {
        if entry[i].can(c) && line.clue_allows(lefts, rights, k, i, c) {
            assert(at[i].can(c));
            if by_overlap {
                assert(line.overlap_set(lefts, rights, k, i).contains(c));
            }
        }
    }
}

/// Writes out what the two packed places of clue `k` say: what their
/// overlap says of the cells in it, and, where the clue is pinned, that the
/// cells next to it are background where it must be separated from its
/// neighbours.
fn write_clue<C: Clue>(
    clues: &[C],
    k: usize,
    lane: &mut Vec<Cell>,
    affected: &mut Vec<usize>,
    left_packed_right_extents: &Vec<usize>,
    right_packed_left_extents: &Vec<usize>,
    Ghost(orig): Ghost<Seq<Cell>>,
) -> (written: Result<(), SolveError>)
    requires
        clues_well_formed(clues@),
        k < clues@.len(),
        extents_hold(line_of(clues@), orig, left_packed_right_extents@, right_packed_left_extents@),
        kept(line_of(clues@), orig, old(lane)@, old(affected)@),
    ensures
        narrowed(orig, final(lane)@),
        narrowed(old(lane)@, final(lane)@),
        match written {
            Ok(()) => {
                &&& kept(line_of(clues@), orig, final(lane)@, final(affected)@)
                &&& ints(right_packed_left_extents@)[k as int] <= ints(
                    left_packed_right_extents@,
                )[k as int] ==> ints(left_packed_right_extents@)[k as int] - ints(
                    right_packed_left_extents@,
                )[k as int] + 1 <= line_of(clues@).len(k as int)
                &&& forall|i: int, c: Color|
                    0 <= i < old(lane)@.len() ==> (#[trigger] final(lane)@[i].can(c) <==> old(
                        lane,
                    )@[i].can(c) && line_of(clues@).clue_set(
                        ints(left_packed_right_extents@),
                        ints(right_packed_left_extents@),
                        k as int,
                        i,
                    ).contains(c))
            },
            Err(e) => {
                &&& line_of(clues@).refuted(orig)
                &&& if line_of(clues@).too_short(
                    ints(left_packed_right_extents@),
                    ints(right_packed_left_extents@),
                    k as int,
                ) {
                    e == SolveError::UnsatisfiableLine
                } else {
                    e == SolveError::Contradiction && exists|i: int| #[trigger]
                        starved(
                            old(lane)@,
                            i,
                            line_of(clues@).clue_set(
                                ints(left_packed_right_extents@),
                                ints(right_packed_left_extents@),
                                k as int,
                                i,
                            ),
                        )
                }
            },
        },
{
    let ghost line = line_of(clues@);
    let ghost lpr = left_packed_right_extents@;
    let ghost rpl = right_packed_left_extents@;
    let ghost lefts = ints(left_packed_right_extents@);
    let ghost rights = ints(right_packed_left_extents@);
    let ghost entry = lane@;
    let n = clues.len();
    let len = lane.len();
    proof {
        lemma_line_of_wf(clues@);
        lemma_narrowed_self(entry);
    }
    let clue_len = clues[k].len();
    let left_extent = right_packed_left_extents[k];
    let right_extent = left_packed_right_extents[k];
    proof {
        assert(line.len(k as int) == clue_len);
        assert(line.len(k as int) <= lpr[k as int] + 1);
        assert(rpl[k as int] + line.len(k as int) <= len);
        assert(lefts[k as int] == right_extent);
        assert(rights[k as int] == left_extent);
    }
    if left_extent > right_extent {
        // No overlap
        return Ok(());
    }
    if right_extent - left_extent + 1 > clue_len {
        // The clue is too short to reach from one extent to the other.
        proof {
            assert forall|p: Seq<int>| !#[trigger] line.is_arrangement(orig, p) by {
                if line.is_arrangement(orig, p) {
                    assert(lpr[k as int] + 1 - line.len(k as int) <= p[k as int] <= rpl[k as int]);
                }
            }
            assert(line.too_short(lefts, rights, k as int));
        }
        return Err(SolveError::UnsatisfiableLine);
    }
    match write_overlap(
        clues,
        k,
        left_extent,
        right_extent,
        lane,
        affected,
        Ghost(orig),
        Ghost(lpr),
        Ghost(rpl),
    ) {
        Err(e) => {
            proof {
                let i = choose|i: int| #[trigger]
                    starved(entry, i, line.overlap_set(lefts, rights, k as int, i));
                lemma_clue_starves(line, lefts, rights, k as int, entry, entry, i, true);
            }
            return Err(e);
        },
        Ok(()) => {},
    }
    let ghost overlaid = lane@;
    if right_extent - left_extent + 1 != clue_len {
        proof {
            assert(!line.pinned(lefts, rights, k as int));
        }
        return Ok(());
    }
    // The clue is pinned: the cells next to it are background where it must
    // be separated from its neighbours.
    proof {
        assert(line.pinned(lefts, rights, k as int));
    }
    let cleared = clear_beside(
        clues,
        k,
        true,
        lane,
        affected,
        left_packed_right_extents,
        right_packed_left_extents,
        Ghost(orig),
    );
    proof {
        lemma_narrowed_on(entry, overlaid, lane@);
    }
    match cleared {
        Err(e) => {
            proof {
                lemma_clue_starves(
                    line,
                    lefts,
                    rights,
                    k as int,
                    entry,
                    overlaid,
                    rights[k as int] - 1,
                    false,
                );
            }
            return Err(e);
        },
        Ok(()) => {},
    }
    let ghost gapped = lane@;
    let cleared = clear_beside(
        clues,
        k,
        false,
        lane,
        affected,
        left_packed_right_extents,
        right_packed_left_extents,
        Ghost(orig),
    );
    proof {
        lemma_narrowed_on(entry, gapped, lane@);
    }
    match cleared {
        Err(e) => {
            proof {
                let i = lefts[k as int] + 1;
                assert forall|c: Color|
                    entry[i].can(c) && line.clue_allows(
                        lefts,
                        rights,
                        k as int,
                        i,
                        c,
                    ) implies gapped[i].can(c) by {
                    assert(overlaid[i].can(c));
                }
                lemma_clue_starves(line, lefts, rights, k as int, entry, gapped, i, false);
            }
            return Err(e);
        },
        Ok(()) => {},
    }
    proof {
        assert forall|i: int, c: Color| 0 <= i < len implies (#[trigger] lane@[i].can(c)
            <==> entry[i].can(c) && line.clue_set(lefts, rights, k as int, i).contains(c)) by {
            assert(overlaid[i].can(c) <==> entry[i].can(c) && line.overlap_allows(
                lefts,
                rights,
                k as int,
                i,
                c,
            ));
            assert(gapped[i].can(c) <==> overlaid[i].can(c) && (line.seps[k as int] && i
                == rights[k as int] - 1 ==> c == background()));
            assert(lane@[i].can(c) <==> gapped[i].can(c) && (k + 1 < n && line.seps[k + 1] && i
                == lefts[k as int] + 1 ==> c == background()));
        }
    }
    Ok(())
}

/// For each clue, writes out what the overlap of its two packed places says,
/// and, where the clue is pinned, the gaps that it needs beside it.
fn write_clues<C: Clue>(
    clues: &[C],
    lane: &mut Vec<Cell>,
    affected: &mut Vec<usize>,
    left_packed_right_extents: &Vec<usize>,
    right_packed_left_extents: &Vec<usize>,
    Ghost(orig): Ghost<Seq<Cell>>,
) -> (written: Result<(), SolveError>)
    requires
        clues_well_formed(clues@),
        extents_hold(line_of(clues@), orig, left_packed_right_extents@, right_packed_left_extents@),
        kept(line_of(clues@), orig, old(lane)@, old(affected)@),
        forall|i: int| 0 <= i < old(lane)@.len() ==> !(#[trigger] old(lane)@[i]).impossible(),
    ensures
        narrowed(orig, final(lane)@),
        narrowed(old(lane)@, final(lane)@),
        match written {
            Ok(()) => {
                &&& kept(line_of(clues@), orig, final(lane)@, final(affected)@)
                &&& line_of(clues@).sufficient(
                    ints(left_packed_right_extents@),
                    ints(right_packed_left_extents@),
                    clues@.len() as int,
                )
                &&& forall|k: int|
                    0 <= k < clues@.len() ==> !#[trigger] line_of(clues@).clue_fails(
                        old(lane)@,
                        ints(left_packed_right_extents@),
                        ints(right_packed_left_extents@),
                        k,
                    )
                &&& forall|i: int, c: Color|
                    0 <= i < old(lane)@.len() ==> (#[trigger] final(lane)@[i].can(c) <==> old(
                        lane,
                    )@[i].can(c) && line_of(clues@).clues_allow(
                        ints(left_packed_right_extents@),
                        ints(right_packed_left_extents@),
                        clues@.len() as int,
                        i,
                        c,
                    ))
            },
            Err(e) => {
                &&& line_of(clues@).refuted(orig)
                &&& exists|k: int| #[trigger]
                    line_of(clues@).first_failure(
                        old(lane)@,
                        ints(left_packed_right_extents@),
                        ints(right_packed_left_extents@),
                        k,
                    ) && e == if line_of(clues@).too_short(
                        ints(left_packed_right_extents@),
                        ints(right_packed_left_extents@),
                        k,
                    ) {
                        SolveError::UnsatisfiableLine
                    } else {
                        SolveError::Contradiction
                    }
                &&& !line_of(clues@).sufficient(
                    ints(left_packed_right_extents@),
                    ints(right_packed_left_extents@),
                    clues@.len() as int,
                ) || exists|i: int| #[trigger]
                    starved(
                        old(lane)@,
                        i,
                        line_of(clues@).clues_set(
                            ints(left_packed_right_extents@),
                            ints(right_packed_left_extents@),
                            i,
                        ),
                    )
            },
        },
{
    let ghost line = line_of(clues@);
    let ghost lefts = ints(left_packed_right_extents@);
    let ghost rights = ints(right_packed_left_extents@);
    let ghost entry = lane@;
    let n = clues.len();
    let len = lane.len();
    proof {
        lemma_line_of_wf(clues@);
        lemma_narrowed_self(entry);
    }
    let mut k: usize = 0;
    while k < n
        invariant
            clues_well_formed(clues@),
            line == line_of(clues@),
            n == clues@.len(),
            n == line.n(),
            k <= n,
            len == orig.len(),
            lane@.len() == len,
            lefts == ints(left_packed_right_extents@),
            rights == ints(right_packed_left_extents@),
            extents_hold(line, orig, left_packed_right_extents@, right_packed_left_extents@),
            kept(line, orig, lane@, affected@),
            entry == old(lane)@,
            entry.len() == len,
            narrowed(entry, lane@),
            line.sufficient(lefts, rights, k as int),
            forall|i: int| 0 <= i < len ==> !(#[trigger] entry[i]).impossible(),
            forall|j: int| 0 <= j < k ==> !#[trigger] line.clue_fails(entry, lefts, rights, j),
            forall|i: int, c: Color|
                0 <= i < len ==> (#[trigger] lane@[i].can(c) <==> entry[i].can(c) && line.clues_allow(
                    lefts,
                    rights,
                    k as int,
                    i,
                    c,
                )),
        decreases n - k,
    {
        let ghost round = lane@;
        let written = write_clue(
            clues,
            k,
            lane,
            affected,
            left_packed_right_extents,
            right_packed_left_extents,
            Ghost(orig),
        );
        proof {
            lemma_narrowed_on(entry, round, lane@);
        }
        match written {
            Err(e) => {
                proof {
                    if !line.too_short(lefts, rights, k as int) {
                        let i = choose|i: int| #[trigger]
                            starved(round, i, line.clue_set(lefts, rights, k as int, i));
                        assert(starved(entry, i, line.clues_set(lefts, rights, i))) by {
                            assert forall|c: Color|
                                !(#[trigger] entry[i].can(c) && line.clues_set(
                                    lefts,
                                    rights,
                                    i,
                                ).contains(c)) by {
                                if entry[i].can(c) && line.clues_allow(lefts, rights, n as int, i, c) {
                                    line.lemma_clues_allow_fewer(lefts, rights, k as int, i, c);
                                    assert(round[i].can(c));
                                    assert(line.clue_set(lefts, rights, k as int, i).contains(c));
                                }
                            }
                        }
                        assert(starved(entry, i, line.clues_upto_set(lefts, rights, k + 1, i))) by {
                            assert forall|c: Color|
                                !(#[trigger] entry[i].can(c) && line.clues_upto_set(
                                    lefts,
                                    rights,
                                    k + 1,
                                    i,
                                ).contains(c)) by {
                                if entry[i].can(c) && line.clues_allow(lefts, rights, k + 1, i, c) {
                                    line.lemma_clues_allow_step(lefts, rights, k as int, i, c);
                                    assert(round[i].can(c));
                                    assert(line.clue_set(lefts, rights, k as int, i).contains(c));
                                }
                            }
                        }
                    } else {
                        assert(!line.sufficient(lefts, rights, n as int)) by {
                            if line.sufficient(lefts, rights, n as int) {
                                assert(lefts[k as int] - rights[k as int] + 1 <= line.len(k as int));
                            }
                        }
                    }
                    assert(line.first_failure(entry, lefts, rights, k as int));
                }
                return Err(e);
            },
            Ok(()) => {},
        }
        proof {
            assert forall|i: int, c: Color| 0 <= i < len implies (#[trigger] lane@[i].can(c)
                <==> entry[i].can(c) && line.clues_allow(lefts, rights, k + 1, i, c)) by {
                line.lemma_clues_allow_step(lefts, rights, k as int, i, c);
                assert(round[i].can(c) <==> entry[i].can(c) && line.clues_allow(
                    lefts,
                    rights,
                    k as int,
                    i,
                    c,
                ));
                assert(lane@[i].can(c) <==> round[i].can(c) && line.clue_set(
                    lefts,
                    rights,
                    k as int,
                    i,
                ).contains(c));
            }
            assert forall|j: int| 0 <= j < k + 1 && rights[j] <= lefts[j] implies lefts[j] - rights[j]
                + 1 <= #[trigger] line.len(j) by {
                if j < k {
                    assert(line.sufficient(lefts, rights, k as int));
                }
            }
            lemma_narrowed_on(entry, round, lane@);
            assert(!line.clue_fails(entry, lefts, rights, k as int)) by {
                assert forall|i: int| !#[trigger]
                    starved(entry, i, line.clues_upto_set(lefts, rights, k + 1, i)) by {
                    if 0 <= i < len {
                        assert(!entry[i].impossible());
                        assert(lane@[i].impossible() ==> entry[i].impossible());
                        let c = lane@[i].lemma_some_color();
                        assert(entry[i].can(c) && line.clues_upto_set(lefts, rights, k + 1, i).contains(
                            c,
                        ));
                    }
                }
            }
        }
        k = k + 1;
    }
    Ok(())
}

/// Learns that the cells between the rightmost place of a clue and the
/// leftmost place of the next are background, and so the cells before the
/// leftmost place of the first clue and behind the rightmost place of the last.
fn clear_gaps<C: Clue>(
    clues: &[C],
    lane: &mut Vec<Cell>,
    affected: &mut Vec<usize>,
    left_packed_right_extents: &Vec<usize>,
    right_packed_left_extents: &Vec<usize>,
    Ghost(orig): Ghost<Seq<Cell>>,
) -> (cleared: Result<(), SolveError>)
    requires
        clues_well_formed(clues@),
        clues@.len() > 0,
        extents_hold(line_of(clues@), orig, left_packed_right_extents@, right_packed_left_extents@),
        kept(line_of(clues@), orig, old(lane)@, old(affected)@),
    ensures
        narrowed(orig, final(lane)@),
        narrowed(old(lane)@, final(lane)@),
        match cleared {
            Ok(()) => {
                &&& kept(line_of(clues@), orig, final(lane)@, final(affected)@)
                &&& forall|i: int, c: Color|
                    0 <= i < old(lane)@.len() ==> (#[trigger] final(lane)@[i].can(c) <==> old(
                        lane,
                    )@[i].can(c) && line_of(clues@).gaps_set(
                        ints(left_packed_right_extents@),
                        ints(right_packed_left_extents@),
                        i,
                    ).contains(c))
            },
            Err(e) => {
                &&& line_of(clues@).refuted(orig)
                &&& e == SolveError::Contradiction
                &&& exists|i: int| #[trigger]
                    starved(
                        old(lane)@,
                        i,
                        line_of(clues@).gaps_set(
                            ints(left_packed_right_extents@),
                            ints(right_packed_left_extents@),
                            i,
                        ),
                    )
            },
        },
{
    let ghost line = line_of(clues@);
    let ghost lpr = left_packed_right_extents@;
    let ghost rpl = right_packed_left_extents@;
    let ghost lefts = ints(left_packed_right_extents@);
    let ghost rights = ints(right_packed_left_extents@);
    let ghost entry = lane@;
    let n = clues.len();
    let len = lane.len();
    proof {
        lemma_line_of_wf(clues@);
        lemma_narrowed_self(entry);
    }
    let mut k: usize = 1;
    while k < n
        invariant
            clues_well_formed(clues@),
            line == line_of(clues@),
            line.wf(),
            n == clues@.len(),
            n == line.n(),
            1 <= k <= n,
            len == orig.len(),
            lane@.len() == len,
            lpr == left_packed_right_extents@,
            rpl == right_packed_left_extents@,
            lefts == ints(lpr),
            rights == ints(rpl),
            extents_hold(line, orig, lpr, rpl),
            kept(line, orig, lane@, affected@),
            entry == old(lane)@,
            entry.len() == len,
            narrowed(entry, lane@),
            forall|i: int, c: Color|
                0 <= i < len ==> (#[trigger] lane@[i].can(c) <==> entry[i].can(c) && line.gaps_allow(
                    lefts,
                    rights,
                    k as int,
                    i,
                    c,
                )),
        decreases n - k,
    {
        let ghost round = lane@;
        proof {
            assert(line.len(k as int) == clues@[k as int].spec_len());
            assert(line.len(k - 1) == clues@[k - 1].spec_len());
            assert(line.len(k as int) <= lpr[k as int] + 1);
            assert(lpr[k as int] < len);
            assert(rpl[k - 1] + line.len(k - 1) <= len);
            assert(line.len(k - 1) >= 1);
        }
        let right_extent_prev = right_packed_left_extents[k - 1] + clues[k - 1].len() - 1;
        let left_extent = left_packed_right_extents[k] + 1 - clues[k].len();
        if left_extent != 0 {
            let ghost before = lane@;
            proof {
                assert forall|p: Seq<int>, i: int|
                    right_extent_prev + 1 <= i < left_extent && #[trigger] line.is_arrangement(
                        orig,
                        p,
                    ) implies !#[trigger] line.covered(p, i) by {
                    assert(lpr[k as int] + 1 - line.len(k as int) <= p[k as int] <= rpl[k as int]);
                    assert(lpr[k - 1] + 1 - line.len(k - 1) <= p[k - 1] <= rpl[k - 1]);
                    line.lemma_between(orig, p, k as int, i);
                }
            }
            let cleared = clear_range(
                lane,
                right_extent_prev + 1,
                left_extent,
                affected,
                Ghost(line),
                Ghost(orig),
            );
            proof {
                lemma_narrowed_on(entry, before, lane@);
            }
            match cleared {
                Err(e) => {
                    proof {
                        let i = choose|i: int|
                            right_extent_prev + 1 <= i < left_extent && !#[trigger] round[i].can(
                                background(),
                            );
                        assert(starved(entry, i, line.gaps_set(lefts, rights, i))) by {
                            assert forall|c: Color|
                                !(#[trigger] entry[i].can(c) && line.gaps_set(
                                    lefts,
                                    rights,
                                    i,
                                ).contains(c)) by {
                                if entry[i].can(c) && line.gaps_set(lefts, rights, i).contains(c) {
                                    line.lemma_gaps_allow_fewer(lefts, rights, k as int, i, c);
                                    assert(line.gap_allows(lefts, rights, k as int, i, c));
                                    assert(c == background());
                                    assert(round[i].can(c));
                                }
                            }
                        }
                    }
                    return Err(e);
                },
                Ok(()) => {},
            }
        }
        proof {
            assert forall|i: int, c: Color| 0 <= i < len implies (#[trigger] lane@[i].can(c)
                <==> entry[i].can(c) && line.gaps_allow(lefts, rights, k + 1, i, c)) by {
                line.lemma_gaps_allow_step(lefts, rights, k as int, i, c);
                assert(round[i].can(c) <==> entry[i].can(c) && line.gaps_allow(
                    lefts,
                    rights,
                    k as int,
                    i,
                    c,
                ));
                assert(lane@[i].can(c) <==> round[i].can(c) && line.gap_allows(
                    lefts,
                    rights,
                    k as int,
                    i,
                    c,
                ));
            }
        }
        k = k + 1;
    }
    let ghost gapped = lane@;
    proof {
        assert(k == n);
    }

    proof {
        assert(line.len(0) == clues@[0].spec_len());
        assert(line.len(n - 1) == clues@[n - 1].spec_len());
        assert(line.len(0) <= lpr[0] + 1);
        assert(lpr[0] < len);
        assert(rpl[n - 1] + line.len(n - 1) <= len);
    }
    let leftmost = left_packed_right_extents[0] + 1 - clues[0].len();
    let rightmost = right_packed_left_extents[n - 1] + clues[n - 1].len();
    let ghost before = lane@;
    proof {
        assert forall|p: Seq<int>, i: int|
            0 <= i < leftmost && #[trigger] line.is_arrangement(orig, p) implies !#[trigger] line.covered(
            p, i) by {
            assert(lpr[0] + 1 - line.len(0) <= p[0] <= rpl[0]);
            line.lemma_between(orig, p, 0, i);
        }
    }
    let cleared = clear_range(lane, 0, leftmost, affected, Ghost(line), Ghost(orig));
    proof {
        lemma_narrowed_on(entry, before, lane@);
    }
    match cleared {
        Err(e) => {
            proof {
                let i = choose|i: int| 0 <= i < leftmost && !#[trigger] gapped[i].can(background());
                assert(starved(entry, i, line.gaps_set(lefts, rights, i))) by {
                    assert forall|c: Color|
                        !(#[trigger] entry[i].can(c) && line.gaps_set(lefts, rights, i).contains(
                            c,
                        )) by {
                        if entry[i].can(c) && line.gaps_set(lefts, rights, i).contains(c) {
                            assert(c == background());
                            assert(gapped[i].can(c));
                        }
                    }
                }
            }
            return Err(e);
        },
        Ok(()) => {},
    }
    let ghost headed = lane@;
    let ghost before = lane@;
    proof {
        assert forall|p: Seq<int>, i: int|
            rightmost <= i < len && #[trigger] line.is_arrangement(orig, p) implies !#[trigger] line.covered(
            p, i) by {
            assert(lpr[n - 1] + 1 - line.len(n - 1) <= p[n - 1] <= rpl[n - 1]);
            line.lemma_between(orig, p, n as int, i);
        }
    }
    let cleared = clear_range(lane, rightmost, len, affected, Ghost(line), Ghost(orig));
    proof {
        lemma_narrowed_on(entry, before, lane@);
    }
    match cleared {
        Err(e) => {
            proof {
                let i = choose|i: int| rightmost <= i < len && !#[trigger] headed[i].can(background());
                assert(starved(entry, i, line.gaps_set(lefts, rights, i))) by {
                    assert forall|c: Color|
                        !(#[trigger] entry[i].can(c) && line.gaps_set(lefts, rights, i).contains(
                            c,
                        )) by {
                        if entry[i].can(c) && line.gaps_set(lefts, rights, i).contains(c) {
                            assert(c == background());
                            assert(gapped[i].can(c));
                            assert(headed[i].can(c));
                        }
                    }
                }
            }
            Err(e)
        },
        Ok(()) => {
            proof {
                assert forall|i: int, c: Color| 0 <= i < len implies (#[trigger] lane@[i].can(c)
                    <==> entry[i].can(c) && line.gaps_set(lefts, rights, i).contains(c)) by {
                    assert(gapped[i].can(c) <==> entry[i].can(c) && line.gaps_allow(
                        lefts,
                        rights,
                        n as int,
                        i,
                        c,
                    ));
                    assert(headed[i].can(c) <==> gapped[i].can(c) && (0 <= i < leftmost ==> c
                        == background()));
                    assert(lane@[i].can(c) <==> headed[i].can(c) && (rightmost <= i < len ==> c
                        == background()));
                }
            }
            Ok(())
        },
    }
}

/// Packs all clues to their leftmost and to their rightmost possible
/// places, and writes into the lane what follows: a cell that a clue covers
/// in both has one of the colors that the clue can show there, and a cell
/// that no clue can reach is background.
///
/// Whatever is returned, no cell is widened and no arrangement of the clues
/// that the lane allowed is lost. An error says that the lane allowed none.
pub fn skim_line<C: Clue>(clues: &[C], lane: &mut Vec<Cell>) -> (skimmed: Result<
    ScrubReport,
    SolveError,
>)
    requires
        clues_well_formed(clues@),
    ensures
        narrowed(old(lane)@, final(lane)@),
        line_of(clues@).preserved(old(lane)@, final(lane)@),
        (exists|p: Seq<int>| line_of(clues@).is_arrangement(old(lane)@, p)) ==> skimmed is Ok,
        match skimmed {
            Ok(report) => {
                &&& marks_changes(old(lane)@, final(lane)@, report.affected_cells@)
                &&& line_of(clues@).skim_gives(old(lane)@, final(lane)@)
            },
            Err(e) => {
                &&& line_of(clues@).refuted(old(lane)@)
                &&& !line_of(clues@).skim_ok(old(lane)@)
                &&& e == line_of(clues@).skim_error(old(lane)@)
                &&& e == SolveError::Contradiction || e == SolveError::UnsatisfiableLine
            },
        },
{
    let ghost line = line_of(clues@);
    let ghost orig = lane@;
    let n = clues.len();
    let len = lane.len();
    let mut affected: Vec<usize> = Vec::new();
    proof {
        lemma_line_of_wf(clues@);
        lemma_narrowed_self(orig);
        assert(marks_changes(orig, orig, affected@));
    }
    if n == 0 {
        // Special case, so we can safely take the first and last clue.
        proof {
            assert forall|p: Seq<int>, i: int|
                0 <= i < len && #[trigger] line.is_arrangement(orig, p) implies !#[trigger] line.covered(
                p, i) by {}
        }
        match clear_range(lane, 0, len, &mut affected, Ghost(line), Ghost(orig)) {
            Err(e) => {
                proof {
                    let i = choose|i: int| 0 <= i < len && !#[trigger] orig[i].can(background());
                    assert forall|result: Seq<Cell>| !line.skim_gives(orig, result) by {
                        if line.skim_gives(orig, result) {
                            lemma_no_color(result[i]);
                        }
                    }
                }
                return Err(e);
            },
            Ok(()) => {
                proof {
                    assert forall|i: int| 0 <= i < lane@.len() implies !(#[trigger] lane@[i]).impossible() by {
                        assert(lane@[i].known_to_be(background()));
                        lane@[i].lemma_known(background());
                    }
                }
                return Ok(ScrubReport { affected_cells: affected });
            },
        }
    }
    // Rule out colors that don't appear at all in this line.
    let possible_colors = line_colors(clues);
    match prune_colors(possible_colors, lane, &mut affected, Ghost(line), Ghost(orig)) {
        Err(e) => {
            proof {
                let i = choose|i: int| #[trigger] starved(orig, i, possible_colors@);
                assert(starved(orig, i, line.shown_set())) by {
                    assert forall|c: Color|
                        !(#[trigger] orig[i].can(c) && line.shown_set().contains(c)) by {
                        assert(possible_colors.can(c) <==> c == background() || line.shows(c));
                    }
                }
                assert forall|result: Seq<Cell>| !line.skim_gives(orig, result) by {
                    if line.skim_gives(orig, result) {
                        let (pruned, lpr, rpl) = choose|
                            pruned: Seq<Cell>,
                            lpr: Seq<int>,
                            rpl: Seq<int>,
                        | #[trigger] line.skim_by(orig, pruned, lpr, rpl, result);
                        lemma_no_color(pruned[i]);
                    }
                }
            }
            return Err(e);
        },
        Ok(()) => {},
    }
    let ghost pruned = lane@;
    proof {
        assert(line.prunes(orig, pruned));
    }

    // Now slam the clues back and forth!
    let left_packed_right_extents = match packed_extents(clues, lane, false) {
        Ok(ext) => ext,
        Err(e) => {
            proof {
                lemma_not_packable(line, orig, pruned);
            }
            return Err(e);
        },
    };
    let right_packed_left_extents = match packed_extents(clues, lane, true) {
        Ok(ext) => ext,
        Err(e) => {
            proof {
                lemma_not_packable(line, orig, pruned);
            }
            return Err(e);
        },
    };
    proof {
        line.lemma_skim_error(
            orig,
            pruned,
            ints(left_packed_right_extents@),
            ints(right_packed_left_extents@),
        );
    }
    let ghost lefts = ints(left_packed_right_extents@);
    let ghost rights = ints(right_packed_left_extents@);
    proof {
        let lpr = left_packed_right_extents@;
        let rpl = right_packed_left_extents@;
        lemma_clue_bounds(line, pruned, lpr, rpl);
        assert(clue_bounds(line, orig, lpr, rpl)) by {
            assert forall|p: Seq<int>| #[trigger] line.is_arrangement(orig, p) implies forall|
                k: int,
            | 0 <= k < line.n() ==> lpr[k] + 1 - line.len(k) <= #[trigger] p[k] <= rpl[k] by {
                assert(line.is_arrangement(pruned, p));
            }
        }
    }
    let written = write_clues(
        clues,
        lane,
        &mut affected,
        &left_packed_right_extents,
        &right_packed_left_extents,
        Ghost(orig),
    );
    let ghost overlaid = lane@;
    match written {
        Err(e) => {
            proof {
                lemma_skim_starved(line, orig, pruned, lefts, rights, pruned, true);
                let k = choose|k: int| #[trigger]
                    line.first_failure(pruned, lefts, rights, k) && e == if line.too_short(
                        lefts,
                        rights,
                        k,
                    ) {
                        SolveError::UnsatisfiableLine
                    } else {
                        SolveError::Contradiction
                    };
                line.lemma_first_failure(pruned, lefts, rights, k);
            }
            return Err(e);
        },
        Ok(()) => {},
    }
    let cleared = clear_gaps(
        clues,
        lane,
        &mut affected,
        &left_packed_right_extents,
        &right_packed_left_extents,
        Ghost(orig),
    );
    match cleared {
        Err(e) => {
            proof {
                lemma_skim_starved(line, orig, pruned, lefts, rights, overlaid, false);
                assert forall|k: int| !line.first_failure(pruned, lefts, rights, k) by {
                    if line.first_failure(pruned, lefts, rights, k) {
                        assert(!line.clue_fails(pruned, lefts, rights, k));
                    }
                }
            }
            return Err(e);
        },
        Ok(()) => {},
    }
    proof {
        lemma_narrowed_on(pruned, overlaid, lane@);
        assert forall|i: int| 0 <= i < lane@.len() implies !(#[trigger] lane@[i]).impossible() by {
            assert(!pruned[i].impossible());
        }
        assert forall|i: int, c: Color| 0 <= i < orig.len() implies (#[trigger] lane@[i].can(c)
            <==> pruned[i].can(c) && line.extents_allow(lefts, rights, i, c)) by {
            assert(overlaid[i].can(c) <==> pruned[i].can(c) && line.clues_allow(
                lefts,
                rights,
                n as int,
                i,
                c,
            ));
            assert(lane@[i].can(c) <==> overlaid[i].can(c) && line.gaps_set(lefts, rights, i).contains(
                c,
            ));
        }
        assert(line.skim_by(orig, pruned, lefts, rights, lane@));
    }
    Ok(ScrubReport { affected_cells: affected })
}

/// A cell that can have no color is impossible.
proof fn lemma_no_color(cell: Cell)
    requires
        forall|c: Color| !cell.can(c),
    ensures
        cell.impossible(),
{
    cell.lemma_views(cell);
    assert(cell@ =~= Set::<Color>::empty());
}

/// Where the clues cannot be placed in the pruned lane, skimming fails.
proof fn lemma_not_packable(line: Line, lane: Seq<Cell>, pruned: Seq<Cell>)
    requires
        line.n() > 0,
        line.prunes(lane, pruned),
        forall|i: int| 0 <= i < pruned.len() ==> !(#[trigger] pruned[i]).impossible(),
        !line.packable(pruned),
    ensures
        !line.skim_ok(lane),
        line.skim_error(lane) == SolveError::UnsatisfiableLine,
{
    line.lemma_pruned_error(lane, pruned);
    let chosen = choose|p: Seq<Cell>| line.prunes(lane, p);
    Line::lemma_same_cells(chosen, pruned);
    assert forall|result: Seq<Cell>| !line.skim_gives(lane, result) by {
        if line.skim_gives(lane, result) {
            let (p, lpr, rpl) = choose|p: Seq<Cell>, lpr: Seq<int>, rpl: Seq<int>| #[trigger]
                line.skim_by(lane, p, lpr, rpl, result);
            Line::lemma_same_cells(p, pruned);
            let q = choose|q: Seq<int>| #[trigger]
                line.is_least_placement(pruned, q) && lpr == line.pull(
                    pruned,
                    line.ends(q),
                    line.n() - 1,
                    pruned.len() - 1,
                );
            assert(line.is_placement(pruned, q));
        }
    }
}

/// Where the packed places are not sufficient, or leave a cell without a
/// color, skimming fails. The cell is starved in the pruned lane by what the
/// clues allow, or in the lane that the clues were written into by what the
/// gaps allow.
proof fn lemma_skim_starved(
    line: Line,
    lane: Seq<Cell>,
    pruned: Seq<Cell>,
    lefts: Seq<int>,
    rights: Seq<int>,
    at: Seq<Cell>,
    by_clues: bool,
)
    requires
        line.n() > 0,
        line.prunes(lane, pruned),
        line.left_packed(pruned, lefts),
        line.right_packed(pruned, rights),
        at.len() == lane.len(),
        by_clues ==> at == pruned && (!line.sufficient(lefts, rights, line.n()) || exists|i: int|
         #[trigger]
            starved(at, i, line.clues_set(lefts, rights, i))),
        !by_clues ==> (forall|i: int, c: Color|
            0 <= i < lane.len() ==> (#[trigger] at[i].can(c) <==> pruned[i].can(c) && line.clues_allow(
                lefts,
                rights,
                line.n(),
                i,
                c,
            ))) && exists|i: int| #[trigger] starved(at, i, line.gaps_set(lefts, rights, i)),
    ensures
        !line.skim_ok(lane),
{
    assert forall|result: Seq<Cell>| !line.skim_gives(lane, result) by {
        if line.skim_gives(lane, result) {
            let (p, lpr, rpl) = choose|p: Seq<Cell>, lpr: Seq<int>, rpl: Seq<int>| #[trigger]
                line.skim_by(lane, p, lpr, rpl, result);
            Line::lemma_same_cells(p, pruned);
            line.lemma_left_packed_unique(pruned, lpr, lefts);
            line.lemma_right_packed_unique(pruned, rpl, rights);
            if by_clues {
                let i = choose|i: int| #[trigger] starved(at, i, line.clues_set(lefts, rights, i));
                assert forall|c: Color| !result[i].can(c) by {
                    if result[i].can(c) {
                        assert(pruned[i].can(c) && line.extents_allow(lefts, rights, i, c));
                        assert(line.clues_set(lefts, rights, i).contains(c));
                    }
                }
                lemma_no_color(result[i]);
            } else {
                let i = choose|i: int| #[trigger] starved(at, i, line.gaps_set(lefts, rights, i));
                assert forall|c: Color| !result[i].can(c) by {
                    if result[i].can(c) {
                        assert(pruned[i].can(c) && line.extents_allow(lefts, rights, i, c));
                        assert(at[i].can(c));
                        assert(line.gaps_set(lefts, rights, i).contains(c));
                    }
                }
                lemma_no_color(result[i]);
            }
        }
    }
}

/// A copy of the lane.
pub fn copy_lane(lane: &Vec<Cell>) -> (copy: Vec<Cell>)
    ensures
        copy@ == lane@,
{
    let mut copy: Vec<Cell> = Vec::with_capacity(lane.len());
    let mut i: usize = 0;
    while i < lane.len()
        invariant
            i <= lane@.len(),
            copy@ == lane@.subrange(0, i as int),
        decreases lane@.len() - i,
    {
        copy.push(lane[i]);
        proof {
            assert(copy@ =~= lane@.subrange(0, i + 1));
        }
        i = i + 1;
    }
    proof {
        assert(lane@.subrange(0, i as int) =~= lane@);
    }
    copy
}

/// For each cell that is not known yet, and each color that it could have:
/// supposes that the cell has the color, and skims a copy of the lane. Where
/// that fails, the cell has not that color.
///
/// Whatever is returned, no cell is widened and no arrangement of the clues
/// that the lane allowed is lost. An error says that the lane allowed none.
pub fn scrub_line<C: Clue>(cs: &[C], lane: &mut Vec<Cell>) -> (scrubbed: Result<
    ScrubReport,
    SolveError,
>)
    requires
        clues_well_formed(cs@),
    ensures
        narrowed(old(lane)@, final(lane)@),
        line_of(cs@).preserved(old(lane)@, final(lane)@),
        (exists|p: Seq<int>| line_of(cs@).is_arrangement(old(lane)@, p)) ==> scrubbed is Ok,
        match scrubbed {
            Ok(report) => {
                &&& marks_changes(old(lane)@, final(lane)@, report.affected_cells@)
                &&& line_of(cs@).scrub_result(old(lane)@) == Some(final(lane)@)
            },
            Err(e) => {
                &&& line_of(cs@).refuted(old(lane)@)
                &&& line_of(cs@).scrub_result(old(lane)@) is None
                &&& e == SolveError::Contradiction
            },
        },
{
    let ghost line = line_of(cs@);
    let ghost orig = lane@;
    let len = lane.len();
    let mut affected: Vec<usize> = Vec::new();
    proof {
        lemma_narrowed_self(orig);
        assert(marks_changes(orig, orig, affected@));
    }
    let mut i: usize = 0;
    while i < len
        invariant
            clues_well_formed(cs@),
            line == line_of(cs@),
            orig == old(lane)@,
            lane@.len() == orig.len(),
            len == orig.len(),
            i <= len,
            kept(line, orig, lane@, affected@),
            line.scrub_result(orig) == line.scrub_from(lane@, i as int, len as int),
        decreases len - i,
    {
        if !lane[i].is_known() {
            let ghost start = lane@;
            let ghost tried = lane@[i as int];
            let ok = scrub_at(cs, lane, i, &mut affected, Ghost(orig));
            if !ok {
                return Err(SolveError::Contradiction);
            }
        }
        i = i + 1;
    }
    Ok(ScrubReport { affected_cells: affected })
}

/// Tries each color that the cell at `i` can have: supposes that the cell
/// has the color, and skims a copy of the lane. A color with which that fails
/// is ruled out. Returns whether a color is left to the cell.
fn scrub_at<C: Clue>(
    cs: &[C],
    lane: &mut Vec<Cell>,
    i: usize,
    affected: &mut Vec<usize>,
    Ghost(orig): Ghost<Seq<Cell>>,
) -> (ok: bool)
    requires
        clues_well_formed(cs@),
        i < old(lane)@.len(),
        kept(line_of(cs@), orig, old(lane)@, old(affected)@),
    ensures
        narrowed(orig, final(lane)@),
        final(lane)@.len() == old(lane)@.len(),
        ok ==> kept(line_of(cs@), orig, final(lane)@, final(affected)@) && line_of(cs@).scrub_cell(
            old(lane)@,
            i as int,
            old(lane)@[i as int],
            0,
        ) == Some(final(lane)@),
        !ok ==> line_of(cs@).refuted(orig) && line_of(cs@).scrub_cell(
            old(lane)@,
            i as int,
            old(lane)@[i as int],
            0,
        ) is None,
{
    let ghost line = line_of(cs@);
    let ghost start = lane@;
    let ghost tried = lane@[i as int];
    let colors = lane[i].can_be_iter();
    proof {
        assert forall|c: Color| colors@.contains(c) implies c.fits_cell() by {
            assert(tried.can(c));
        }
    }
    let ghost target = line.scrub_cell(start, i as int, tried, 0);
    proof {
        let first: int = if colors@.len() > 0 {
            colors@[0].0 as int
        } else {
            32
        };
        if colors@.len() > 0 {
            assert(colors@.contains(colors@[0]));
            assert(colors@[0].fits_cell());
        }
        assert forall|c: u8| 0 <= c < first implies !tried.can(Color(c)) by {
            if tried.can(Color(c)) {
                assert(colors@.contains(Color(c)));
                let w = choose|w: int| 0 <= w < colors@.len() && colors@[w] == Color(c);
                if w > 0 {
                    assert(colors@[0].0 < colors@[w].0);
                }
            }
        }
        line.lemma_scrub_skip(start, i as int, tried, 0, first);
    }
    let mut at: usize = 0;
    while at < colors.len()
        invariant
            clues_well_formed(cs@),
            line == line_of(cs@),
            start == old(lane)@,
            tried == start[i as int],
            target == line.scrub_cell(start, i as int, tried, 0),
            lane@.len() == start.len(),
            i < lane@.len(),
            at <= colors@.len(),
            kept(line, orig, lane@, affected@),
            forall|c: Color| #[trigger] colors@.contains(c) <==> tried.can(c),
            forall|a: int, b: int| 0 <= a < b < colors@.len() ==> colors@[a].0 < colors@[b].0,
            target == line.scrub_cell(
                lane@,
                i as int,
                tried,
                if at < colors@.len() {
                    colors@[at as int].0 as int
                } else {
                    32
                },
            ),
        decreases colors@.len() - at,
    {
        let color = colors[at];
        assert(colors@.contains(color));
        assert(tried.can(color));
        let ghost next: int = if at + 1 < colors@.len() {
            colors@[at + 1].0 as int
        } else {
            32
        };
        proof {
            if at + 1 < colors@.len() {
                assert(colors@.contains(colors@[at + 1]));
                assert(colors@[at as int].0 < colors@[at + 1].0);
            }
            assert(color.0 + 1 <= next <= 32);
            assert(Color(color.0) == color);
            assert forall|c: u8| color.0 < c < next implies !tried.can(Color(c)) by {
                if tried.can(Color(c)) {
                    assert(colors@.contains(Color(c)));
                    let w = choose|w: int| 0 <= w < colors@.len() && colors@[w] == Color(c);
                    if w < at {
                        assert(colors@[w].0 < colors@[at as int].0);
                    } else if w > at {
                        if w > at + 1 {
                            assert(colors@[at + 1].0 < colors@[w].0);
                        }
                    }
                }
            }
        }
        let mut hypothetical_lane = copy_lane(lane);
        let single = Cell::from_color(color);
        hypothetical_lane[i] = single;
        let ghost cur = lane@;
        let ghost marks = affected@;
        match skim_line(cs, &mut hypothetical_lane) {
            Ok(_) => {
                // No luck: no contradiction.
                proof {
                    assert(line.skim_ok(cur.update(i as int, Cell::only(color))));
                    assert(target == line.scrub_cell(cur, i as int, tried, color.0 as int));
                    assert(line.scrub_cell(cur, i as int, tried, color.0 as int) == line.scrub_cell(
                        cur,
                        i as int,
                        tried,
                        color.0 + 1,
                    ));
                    line.lemma_scrub_skip(cur, i as int, tried, color.0 + 1, next);
                }
            },
            Err(_) => {
                // `color` is impossible here; we've learned something!
                let ghost allowed = Set::new(|c: Color| c != color);
                proof {
                    assert(line.refuted(cur.update(i as int, single)));
                    assert forall|p: Seq<int>| #[trigger]
                        line.is_arrangement(orig, p) implies line.puts_in(p, i as int, allowed) by {
                        assert(line.is_arrangement(cur, p));
                        line.lemma_hypothesis(cur, p, i as int, color, single);
                    }
                }
                match learn_cell_not(color, lane, i, affected) {
                    Err(e) => {
                        proof {
                            cur[i as int].lemma_known(color);
                            lemma_step_refutes(line, orig, cur, i as int, allowed);
                        }
                        return false;
                    },
                    Ok(()) => {
                        proof {
                            lemma_step_kept(
                                line,
                                orig,
                                cur,
                                lane@,
                                i as int,
                                allowed,
                                marks,
                                affected@,
                            );
                            assert(target == line.scrub_cell(cur, i as int, tried, color.0 as int));
                            assert(!line.skim_ok(cur.update(i as int, Cell::only(color))));
                            assert(!cur[i as int].known_to_be(color));
                            assert(lane@ == cur.update(i as int, cur[i as int].without(color)));
                            assert(line.scrub_cell(cur, i as int, tried, color.0 as int)
                                == line.scrub_cell(lane@, i as int, tried, color.0 + 1));
                            line.lemma_scrub_skip(lane@, i as int, tried, color.0 + 1, next);
                        }
                    },
                }
            },
        }
        at = at + 1;
    }
    true
}

/// The length of the run of cells that are not known to be background which
/// ends with the cell before `i`.
pub open spec fn open_run(lane: Seq<Cell>, i: int) -> int
    decreases i,
{
    if i <= 0 {
        0
    } else if lane[i - 1].known_to_be(background()) {
        0
    } else {
        open_run(lane, i - 1) + 1
    }
}

/// The length of the longest run of cells that are not known to be
/// background among the first `i` cells.
pub open spec fn longest_open_run(lane: Seq<Cell>, i: int) -> int
    decreases i,
{
    if i <= 0 {
        0
    } else if open_run(lane, i) > longest_open_run(lane, i - 1) {
        open_run(lane, i)
    } else {
        longest_open_run(lane, i - 1)
    }
}

/// 2 for each end of the lane that is not known to be background.
pub open spec fn edge_bonus(lane: Seq<Cell>) -> int {
    (if !lane[0].known_to_be(background()) {
        2int
    } else {
        0
    }) + (if !lane[lane.len() - 1].known_to_be(background()) {
        2int
    } else {
        0
    })
}

/// How much skimming promises: the more of the longest open run the clues
/// fill, the more has to overlap. A line without clues is solved at once.
pub open spec fn skim_score(line: Line, lane: Seq<Cell>) -> int {
    if line.n() == 0 {
        1000
    } else {
        line.len_sum(line.n()) + line.longest(line.n()) - longest_open_run(
            lane,
            lane.len() as int,
        ) + edge_bonus(lane)
    }
}

/// A lane and its clues are small enough for a score to be a 32-bit number:
/// neither the cells nor the cells that the clues cover are more than 32767.
/// A lane that has clues has a cell.
pub open spec fn scorable(line: Line, lane: Seq<Cell>) -> bool {
    &&& lane.len() <= 0x7FFF
    &&& line.len_sum(line.n()) <= 0x7FFF
    &&& line.n() > 0 ==> lane.len() > 0
}

proof fn lemma_runs(lane: Seq<Cell>, i: int)
    requires
        0 <= i <= lane.len(),
    ensures
        0 <= open_run(lane, i) <= i,
        0 <= longest_open_run(lane, i) <= i,
    decreases i,
{
    if i > 0 {
        lemma_runs(lane, i - 1);
    }
}

/// The sum and the greatest of the lengths of the clues, and the cells that
/// they need between them.
fn measure_clues<C: Clue>(clues: &[C]) -> (measures: (usize, usize, usize))
    requires
        clues_well_formed(clues@),
        line_of(clues@).len_sum(clues@.len() as int) <= 0x7FFF,
    ensures
        measures.0 == line_of(clues@).len_sum(clues@.len() as int),
        measures.1 == line_of(clues@).longest(clues@.len() as int),
        measures.2 == line_of(clues@).gap_sum(clues@.len() as int),
        clues@.len() <= measures.0 <= 0x7FFF,
        measures.1 <= measures.0,
        measures.2 <= clues@.len(),
{
    let ghost line = line_of(clues@);
    proof {
        lemma_line_of_wf(clues@);
    }
    let mut total: usize = 0;
    let mut longest: usize = 0;
    let mut gaps: usize = 0;
    let mut k: usize = 0;
    while k < clues.len()
        invariant
            clues_well_formed(clues@),
            line == line_of(clues@),
            line.wf(),
            line.n() == clues@.len(),
            k <= clues@.len(),
            line.len_sum(clues@.len() as int) <= 0x7FFF,
            total == line.len_sum(k as int),
            longest == line.longest(k as int),
            gaps == line.gap_sum(k as int),
            k <= total,
        decreases clues@.len() - k,
    {
        proof {
            line.lemma_sums(k + 1, clues@.len() as int);
            line.lemma_sums(k as int, k as int);
            assert(line.len(k as int) == clues@[k as int].spec_len());
            assert(line.len(k as int) >= 1);
        }
        let clue_len = clues[k].len();
        total = total + clue_len;
        if clue_len > longest {
            longest = clue_len;
        }
        if k > 0 && clues[k - 1].must_be_separated_from(&clues[k]) {
            gaps = gaps + 1;
        }
        k = k + 1;
    }
    proof {
        line.lemma_sums(k as int, k as int);
    }
    (total, longest, gaps)
}

/// How much skimming the lane promises. Higher is better.
pub fn skim_heuristic<C: Clue>(clues: &[C], lane: &Vec<Cell>) -> (score: i32)
    requires
        clues_well_formed(clues@),
        scorable(line_of(clues@), lane@),
    ensures
        score == skim_score(line_of(clues@), lane@),
{
    if clues.len() == 0 {
        return 1000;  // Can solve it right away!
    }
    let ghost line = line_of(clues@);
    proof {
        lemma_line_of_wf(clues@);
    }
    let mut longest_foregroundable_span: usize = 0;
    let mut cur_foregroundable_span: usize = 0;
    let mut i: usize = 0;
    while i < lane.len()
        invariant
            i <= lane@.len(),
            lane@.len() <= 0x7FFF,
            cur_foregroundable_span == open_run(lane@, i as int),
            longest_foregroundable_span == longest_open_run(lane@, i as int),
        decreases lane@.len() - i,
    {
        proof {
            lemma_runs(lane@, i as int);
            lemma_runs(lane@, i + 1);
        }
        if !lane[i].is_known_to_be(background()) {
            cur_foregroundable_span = cur_foregroundable_span + 1;
            if cur_foregroundable_span > longest_foregroundable_span {
                longest_foregroundable_span = cur_foregroundable_span;
            }
        } else {
            cur_foregroundable_span = 0;
        }
        i = i + 1;
    }
    let (total_clue_length, longest_clue, _) = measure_clues(clues);
    proof {
        lemma_runs(lane@, lane@.len() as int);
        line.lemma_sums(line.n(), line.n());
    }
    let first_bonus: i32 = if !lane[0].is_known_to_be(background()) {
        2
    } else {
        0
    };
    let last_bonus: i32 = if !lane[lane.len() - 1].is_known_to_be(background()) {
        2
    } else {
        0
    };
    (total_clue_length + longest_clue) as i32 - longest_foregroundable_span as i32 + (first_bonus
        + last_bonus)
}

/// How many of the first `i` cells are known to be background.
pub open spec fn known_background(lane: Seq<Cell>, i: int) -> int
    decreases i,
{
    if i <= 0 {
        0
    } else {
        known_background(lane, i - 1) + if lane[i - 1].known_to_be(background()) {
            1int
        } else {
            0
        }
    }
}

/// How many of the first `i` cells are not known.
pub open spec fn unknown_cells(lane: Seq<Cell>, i: int) -> int
    decreases i,
{
    if i <= 0 {
        0
    } else {
        unknown_cells(lane, i - 1) + if !lane[i - 1].known() {
            1int
        } else {
            0
        }
    }
}

/// How many runs of cells that cannot be background begin among the first
/// `i` cells.
pub open spec fn foreground_chunks(lane: Seq<Cell>, i: int) -> int
    decreases i,
{
    if i <= 0 {
        0
    } else {
        foreground_chunks(lane, i - 1) + if !lane[i - 1].can(background()) && (i == 1 || lane[i
            - 2].can(background())) {
            1int
        } else {
            0
        }
    }
}

/// How much scrubbing promises. The first part is high where moving the
/// clues back and forth is likely to show colored cells, the second where
/// matching the known runs to the clues is likely to show background.
pub open spec fn scrub_score(line: Line, lane: Seq<Cell>) -> int {
    let len = lane.len() as int;
    let n = line.n();
    let foreground_cells = line.len_sum(n);
    let space_taken = foreground_cells + line.gap_sum(n);
    let known_background_cells = known_background(lane, len);
    let known_foreground_cells = len - unknown_cells(lane, len) - known_background_cells;
    let density = space_taken - known_foreground_cells + line.longest(n) - n;
    let unknown_background_cells = (len - foreground_cells) - known_background_cells;
    let excess_chunks = if known_foreground_cells > 0 {
        foreground_chunks(lane, len) - n
    } else {
        -2
    };
    let room = unknown_background_cells * (excess_chunks + 2);
    density + if room > 0 {
        room / 2
    } else {
        0
    }
}

proof fn lemma_counts(lane: Seq<Cell>, i: int)
    requires
        0 <= i <= lane.len(),
    ensures
        0 <= known_background(lane, i) <= i,
        0 <= unknown_cells(lane, i) <= i,
        0 <= known_background(lane, i) + unknown_cells(lane, i) <= i,
        0 <= foreground_chunks(lane, i) <= i,
    decreases i,
{
    if i > 0 {
        lemma_counts(lane, i - 1);
        lane[i - 1].lemma_known(background());
    }
}

proof fn lemma_room(a: int, b: int)
    requires
        -0x10000 <= a <= 0x10000,
        -0x10000 <= b <= 0x10000,
    ensures
        -0x1_0000_0000 <= a * b <= 0x1_0000_0000,
        a * b > 0 ==> (a * b) / 2 <= 0x8000_0000,
{
    assert(-0x1_0000_0000 <= a * b <= 0x1_0000_0000) by (nonlinear_arith)
        requires
            -0x10000 <= a <= 0x10000,
            -0x10000 <= b <= 0x10000,
    ;
}

/// How much scrubbing the lane promises. Higher is better.
pub fn scrub_heuristic<C: Clue>(clues: &[C], lane: &Vec<Cell>) -> (score: i32)
    requires
        clues_well_formed(clues@),
        scorable(line_of(clues@), lane@),
    ensures
        score == scrub_score(line_of(clues@), lane@),
{
    let ghost line = line_of(clues@);
    proof {
        lemma_line_of_wf(clues@);
    }
    // If `space_taken == lane.len()`, the line is immediately solvable with
    // no other knowledge.
    let (foreground_cells, longest_clue, gaps) = measure_clues(clues);
    let space_taken: i64 = (foreground_cells + gaps) as i64;

    let mut known_background_cells: i64 = 0;
    let mut unknown_cells_found: i64 = 0;
    let mut known_foreground_chunks: i64 = 0;
    let mut in_a_foreground_chunk = false;
    let mut i: usize = 0;
    while i < lane.len()
        invariant
            i <= lane@.len(),
            lane@.len() <= 0x7FFF,
            known_background_cells == known_background(lane@, i as int),
            unknown_cells_found == unknown_cells(lane@, i as int),
            known_foreground_chunks == foreground_chunks(lane@, i as int),
            in_a_foreground_chunk == (i > 0 && !lane@[i - 1].can(background())),
        decreases lane@.len() - i,
    {
        proof {
            lemma_counts(lane@, i as int);
        }
        let cell = lane[i];
        if cell.is_known_to_be(background()) {
            known_background_cells = known_background_cells + 1;
        }
        if !cell.is_known() {
            unknown_cells_found = unknown_cells_found + 1;
        }
        if !cell.can_be(background()) {
            if !in_a_foreground_chunk {
                known_foreground_chunks = known_foreground_chunks + 1;
            }
            in_a_foreground_chunk = true;
        } else {
            in_a_foreground_chunk = false;
        }
        i = i + 1;
    }
    proof {
        lemma_counts(lane@, lane@.len() as int);
    }
    let len = lane.len() as i64;
    let count = clues.len() as i64;
    let known_foreground_cells = len - unknown_cells_found - known_background_cells;

    // Scrubbing colored squares back and forth is likely to show colored
    // squares if this is high:
    let density = space_taken - known_foreground_cells + longest_clue as i64 - count;

    let unknown_background_cells = (len - foreground_cells as i64) - known_background_cells;

    // Matching contiguous foreground cells to clues is likely to show
    // background squares if this is high:
    // > 0 is very good, 0 is still good, -1 is alright, -2 is probably not
    // worth looking at.
    let excess_chunks: i64 = if known_foreground_cells > 0 {
        known_foreground_chunks - count
    } else {
        -2
    };
    proof {
        lemma_room(unknown_background_cells as int, excess_chunks + 2);
    }
    let room = unknown_background_cells * (excess_chunks + 2);
    let bonus: i64 = if room > 0 {
        room / 2
    } else {
        0
    };
    assert(-0x4_0000 <= density + bonus <= 0x7FFF_FFFF) by {
        assert(room > 0 ==> bonus <= 0x4000_0000) by {
            if room > 0 {
                let a = unknown_background_cells as int;
                let b = (excess_chunks + 2) as int;
                assert(a * b <= 0x8000_0000) by (nonlinear_arith)
                    requires
                        -0x10000 <= a <= 0x8000,
                        -0x8000 <= b <= 0x10000,
                        a * b > 0,
                ;
            }
        }
    }
    (density + bonus) as i32
}

/// The colors of a lane in which `gaps[k]` background cells lie before clue
/// `k`, and background behind the last clue. The colors are handed out one by
/// one, from the first cell on.
pub struct Arrangement<'a, C: Clue> {
    cs: &'a [C],
    gaps: &'a [u16],
    len: u16,
    block: usize,
    pos_in_block: u16,
    overall_pos: u16,
}

impl<'a, C: Clue> Arrangement<'a, C> {
    pub closed spec fn clues(&self) -> Seq<C> {
        self.cs@
    }

    pub closed spec fn gaps(&self) -> Seq<u16> {
        self.gaps@
    }

    /// The number of cells of the lane.
    pub closed spec fn len(&self) -> int {
        self.len as int
    }

    /// The number of cells whose colors were handed out.
    pub closed spec fn position(&self) -> int {
        self.overall_pos as int
    }

    /// The color of cell `i` of the lane.
    pub open spec fn color_at(&self, i: int) -> Color {
        line_of(self.clues()).color_of(gap_placement(line_of(self.clues()), self.gaps()), i)
    }

    /// The colors that are still to come.
    pub open spec fn rest(&self) -> Seq<Color> {
        Seq::new((self.len() - self.position()) as nat, |i: int| self.color_at(self.position() + i))
    }

    /// The cell that comes next lies in the block that the arrangement is in:
    /// blocks with an even number are gaps, those with an odd number clues.
    pub closed spec fn wf(&self) -> bool {
        let line = line_of(self.cs@);
        let k = (self.block / 2) as int;
        let base = gap_total(self.gaps@, k) + line.len_sum(k);
        &&& self.gaps@.len() == self.cs@.len()
        &&& 2 * self.gaps@.len() <= usize::MAX
        &&& self.block <= 2 * self.gaps@.len()
        &&& self.overall_pos <= self.len
        &&& self.pos_in_block <= self.overall_pos
        &&& self.block % 2 == 0 ==> {
            &&& self.overall_pos == base + self.pos_in_block
            &&& k < self.gaps@.len() ==> self.pos_in_block <= self.gaps@[k]
        }
        &&& self.block % 2 == 1 ==> {
            &&& self.overall_pos == base + self.gaps@[k] + self.pos_in_block
            &&& self.pos_in_block <= line.len(k)
        }
    }

    pub fn new(cs: &'a [C], gaps: &'a [u16], len: u16) -> (arrangement: Arrangement<'a, C>)
        requires
            gaps@.len() == cs@.len(),
            2 * gaps@.len() <= usize::MAX,
        ensures
            arrangement.wf(),
            arrangement.clues() == cs@,
            arrangement.gaps() == gaps@,
            arrangement.len() == len,
            arrangement.position() == 0,
    {
        Arrangement { cs, gaps, len, block: 0, pos_in_block: 0, overall_pos: 0 }
    }

    /// The color of the next cell, if the lane has one more.
    pub fn next(&mut self) -> (color: Option<Color>)
        requires
            old(self).wf(),
        ensures
            final(self).wf(),
            final(self).clues() == old(self).clues(),
            final(self).gaps() == old(self).gaps(),
            final(self).len() == old(self).len(),
            match color {
                Some(c) => {
                    &&& old(self).position() < old(self).len()
                    &&& final(self).position() == old(self).position() + 1
                    &&& c == old(self).color_at(old(self).position())
                },
                None => {
                    &&& old(self).position() >= old(self).len()
                    &&& final(self).position() == old(self).position()
                },
            },
    {
        if self.overall_pos >= self.len {
            return None;
        }
        let ghost line = line_of(self.cs@);
        let ghost p = gap_placement(line, self.gaps@);
        proof {
            lemma_gap_placement(line, self.gaps@);
            line.lemma_loose(p);
        }
        loop
            invariant
                self.wf(),
                self.cs == old(self).cs,
                self.gaps == old(self).gaps,
                self.len == old(self).len,
                self.overall_pos == old(self).overall_pos,
                self.overall_pos < self.len,
                line == line_of(self.cs@),
                p == gap_placement(line, self.gaps@),
                line.loose().in_order(p),
                forall|i: int| line.loose().color_of(p, i) == line.color_of(p, i),
            decreases 2 * self.gaps@.len() + 1 - self.block,
        {
            let k = self.block / 2;
            proof {
                if k > 0 {
                    assert(gap_total(self.gaps@, k as int) == gap_total(self.gaps@, k - 1)
                        + self.gaps@[k - 1]);
                    assert(line.len_sum(k as int) == line.len_sum(k - 1) + line.len(k - 1));
                }
                if k < self.gaps@.len() {
                    assert(gap_total(self.gaps@, k + 1) == gap_total(self.gaps@, k as int)
                        + self.gaps@[k as int]);
                    assert(line.len_sum(k + 1) == line.len_sum(k as int) + line.len(k as int));
                    assert(line.len(k as int) == self.cs@[k as int].spec_len());
                }
            }
            if self.block % 2 == 0 {
                // In a gap; the one behind the last clue has no end.
                if k == self.gaps.len() || self.pos_in_block < self.gaps[k] {
                    proof {
                        line.loose().lemma_color_between(p, k as int, self.overall_pos as int);
                    }
                    self.pos_in_block = self.pos_in_block + 1;
                    self.overall_pos = self.overall_pos + 1;
                    return Some(background());
                }
                self.block = self.block + 1;
                self.pos_in_block = 0;
            } else {
                let clue = self.cs[k];
                if (self.pos_in_block as usize) < clue.len() {
                    proof {
                        assert(line.loose().covers(p, k as int, self.overall_pos as int));
                        line.loose().lemma_color_under(p, k as int, self.overall_pos as int);
                    }
                    let color = clue.color_at(self.pos_in_block as usize);
                    self.pos_in_block = self.pos_in_block + 1;
                    self.overall_pos = self.overall_pos + 1;
                    return Some(color);
                }
                self.block = self.block + 1;
                self.pos_in_block = 0;
            }
        }
    }

    /// All the colors that are still to come.
    pub fn collect(self) -> (colors: Vec<Color>)
        requires
            self.wf(),
        ensures
            colors@ == self.rest(),
    {
        let mut rest = self;
        let mut colors: Vec<Color> = Vec::new();
        loop
            invariant
                rest.wf(),
                rest.clues() == self.clues(),
                rest.gaps() == self.gaps(),
                rest.len() == self.len(),
                self.position() <= rest.position(),
                colors@.len() == rest.position() - self.position(),
                forall|i: int|
                    0 <= i < colors@.len() ==> #[trigger] colors@[i] == self.color_at(
                        self.position() + i,
                    ),
            ensures
                colors@ == self.rest(),
            decreases 0x10000 - rest.position(),
        {
            match rest.next() {
                Some(c) => {
                    colors.push(c);
                },
                None => {
                    proof {
                        assert(colors@ =~= self.rest());
                    }
                    break;
                },
            }
        }
        colors
    }
}

/// The gaps before each of a number of clues, in all the ways in which they
/// sum up to no more than `max_sum`: first all zero, then counted up.
pub struct PossibleArrangements {
    gaps: Vec<u16>,
    max_sum: u16,
    first_step: bool,
}

/// The gaps that come after `gaps` where they sum up to `max_sum` already:
/// the first gap that is not zero is emptied into the gap behind it. If that
/// is the last gap, or none is there, the count has come to its end.
pub open spec fn carried_gaps(gaps: Seq<u16>, i: int) -> Option<Seq<u16>>
    decreases gaps.len() - i,
{
    if i < 0 || i + 1 >= gaps.len() {
        None
    } else if gaps[i] == 0 {
        carried_gaps(gaps, i + 1)
    } else {
        Some(gaps.update(i, 0).update(i + 1, (gaps[i + 1] + 1) as u16))
    }
}

/// The gaps that come after `gaps` in the count.
pub open spec fn next_gaps(gaps: Seq<u16>, max_sum: u16) -> Option<Seq<u16>> {
    if gap_total(gaps, gaps.len() as int) < max_sum {
        Some(gaps.update(0, (gaps[0] + 1) as u16))
    } else {
        carried_gaps(gaps, 0)
    }
}

impl PossibleArrangements {
    /// The gaps that were handed out last, or the zeros to begin with.
    pub closed spec fn gaps(&self) -> Seq<u16> {
        self.gaps@
    }

    pub closed spec fn max_sum(&self) -> u16 {
        self.max_sum
    }

    /// Whether nothing was handed out yet.
    pub closed spec fn fresh(&self) -> bool {
        self.first_step
    }

    pub open spec fn wf(&self) -> bool {
        &&& self.gaps().len() > 0
        &&& gap_total(self.gaps(), self.gaps().len() as int) <= self.max_sum()
    }

    pub fn new(len: u16, max_sum: u16) -> (all: PossibleArrangements)
        requires
            len > 0,
        ensures
            all.wf(),
            all.fresh(),
            all.max_sum() == max_sum,
            all.gaps() == Seq::new(len as nat, |i: int| 0u16),
    {
        let mut gaps: Vec<u16> = Vec::new();
        let mut i: u16 = 0;
        while i < len
            invariant
                i <= len,
                gaps@ == Seq::new(i as nat, |i: int| 0u16),
                gap_total(gaps@, i as int) == 0,
            decreases len - i,
        {
            let ghost before = gaps@;
            gaps.push(0);
            proof {
                assert(gaps@ =~= Seq::new((i + 1) as nat, |i: int| 0u16));
                assert(gap_total(gaps@, i + 1) == gap_total(gaps@, i as int) + gaps@[i as int]);
                lemma_zero_total(gaps@, i as int);
            }
            i = i + 1;
        }
        PossibleArrangements { gaps, max_sum, first_step: true }
    }

    /// The next gaps of the count, if it has not come to its end.
    pub fn next(&mut self) -> (gaps: Option<Vec<u16>>)
        requires
            old(self).wf(),
        ensures
            final(self).wf(),
            final(self).max_sum() == old(self).max_sum(),
            !final(self).fresh(),
            old(self).fresh() ==> gaps is Some && final(self).gaps() == old(self).gaps(),
            !old(self).fresh() ==> (gaps is Some) == (next_gaps(
                old(self).gaps(),
                old(self).max_sum(),
            ) is Some),
            !old(self).fresh() && gaps is Some ==> final(self).gaps() == next_gaps(
                old(self).gaps(),
                old(self).max_sum(),
            )->0,
            gaps is None ==> final(self).gaps() == old(self).gaps(),
            gaps is Some ==> gaps->0@ == final(self).gaps(),
    {
        if self.first_step {
            self.first_step = false;
            return Some(copy_gaps(&self.gaps));
        }
        let len = self.gaps.len();
        let ghost before = self.gaps@;
        let mut sum: u16 = 0;
        let mut k: usize = 0;
        while k < len
            invariant
                k <= len,
                len == self.gaps@.len(),
                self.gaps@ == before,
                self.max_sum == old(self).max_sum,
                !self.first_step,
                gap_total(before, len as int) <= self.max_sum,
                sum == gap_total(before, k as int),
            decreases len - k,
        {
            proof {
                lemma_gap_total_rises(before, k + 1, len as int);
            }
            sum = sum + self.gaps[k];
            k = k + 1;
        }
        if sum < self.max_sum {
            proof {
                lemma_gap_in_total(before, 0);
                lemma_gap_total_update(before, 0, (before[0] + 1) as u16, len as int);
            }
            let first = self.gaps[0];
            self.gaps[0] = first + 1;
            return Some(copy_gaps(&self.gaps));
        }
        let mut i: usize = 0;
        while i + 1 < len
            invariant
                i < len,
                len == self.gaps@.len(),
                self.gaps@ == before,
                self.max_sum == old(self).max_sum,
                !self.first_step,
                !old(self).first_step,
                before == old(self).gaps@,
                gap_total(before, len as int) == self.max_sum,
                carried_gaps(before, 0) == carried_gaps(before, i as int),
            decreases len - i,
        {
            if self.gaps[i] != 0 {
                proof {
                    let emptied = before.update(i as int, 0);
                    lemma_two_in_total(before, i as int);
                    lemma_gap_total_update(before, i as int, 0, len as int);
                    lemma_gap_total_update(emptied, i + 1, (before[i + 1] + 1) as u16, len as int);
                }
                let behind = self.gaps[i + 1];
                self.gaps[i] = 0;
                self.gaps[i + 1] = behind + 1;
                return Some(copy_gaps(&self.gaps));
            }
            i = i + 1;
        }
        None
    }
}

proof fn lemma_zero_total(gaps: Seq<u16>, k: int)
    requires
        0 <= k <= gaps.len(),
        forall|i: int| 0 <= i < k ==> gaps[i] == 0,
    ensures
        gap_total(gaps, k) == 0,
    decreases k,
{
    if k > 0 {
        lemma_zero_total(gaps, k - 1);
    }
}

/// Two gaps next to each other are together no more than the sum of the gaps.
proof fn lemma_two_in_total(gaps: Seq<u16>, i: int)
    requires
        0 <= i,
        i + 1 < gaps.len(),
    ensures
        gaps[i] + gaps[i + 1] <= gap_total(gaps, gaps.len() as int),
{
    lemma_gap_total_rises(gaps, i + 2, gaps.len() as int);
    lemma_gap_total_rises(gaps, i, i);
    assert(gap_total(gaps, i + 2) == gap_total(gaps, i + 1) + gaps[i + 1]);
    assert(gap_total(gaps, i + 1) == gap_total(gaps, i) + gaps[i]);
}

fn copy_gaps(gaps: &Vec<u16>) -> (copy: Vec<u16>)
    ensures
        copy@ == gaps@,
{
    let mut copy: Vec<u16> = Vec::with_capacity(gaps.len());
    let mut i: usize = 0;
    while i < gaps.len()
        invariant
            i <= gaps@.len(),
            copy@ == gaps@.subrange(0, i as int),
        decreases gaps@.len() - i,
    {
        copy.push(gaps[i]);
        proof {
            assert(copy@ =~= gaps@.subrange(0, i + 1));
        }
        i = i + 1;
    }
    proof {
        assert(gaps@.subrange(0, i as int) =~= gaps@);
    }
    copy
}

/// The cells of a lane of `len` cells that the clues leave to the background.
pub fn bg_squares<C: Clue>(cs: &[C], len: u16) -> (remaining: u16)
    requires
        line_of(cs@).len_sum(cs@.len() as int) <= len,
    ensures
        remaining == len - line_of(cs@).len_sum(cs@.len() as int),
{
    let ghost line = line_of(cs@);
    let mut remaining = len;
    let mut k: usize = 0;
    while k < cs.len()
        invariant
            k <= cs@.len(),
            line == line_of(cs@),
            line.len_sum(cs@.len() as int) <= len,
            remaining == len - line.len_sum(k as int),
        decreases cs@.len() - k,
    {
        proof {
            line.lemma_sums(k + 1, cs@.len() as int);
            assert(line.len(k as int) == cs@[k as int].spec_len());
        }
        remaining = remaining - cs[k].len() as u16;
        k = k + 1;
    }
    remaining
}

} // verus!
