use number_loom::ambiguity::{after_cell, alter, baseline_unsolved, best_alternative, ScorerStep};
use number_loom::document::Document;
use number_loom::grid::Grid;
use number_loom::import::{
    bw_palette, line_to_clues, line_to_triano_clues, solution_to_puzzle,
    solution_to_triano_puzzle, triano_palette,
};
use number_loom::line_solve::{Cell, ModeMap, SolveError, SolveMode};
use number_loom::puzzle::{
    background, unsolved, Clue, ClueStyle, Color, ColorInfo, Corner, DynPuzzle, DynSolveCache,
    Nono, Puzzle, Solution, Triano,
};
use number_loom::quality::{is_too_similar, QualityProblem};

fn bw(rows: &[&str]) -> Solution {
    let height = rows.len();
    let width = rows[0].chars().count();
    let mut grid = vec![vec![background(); height]; width];
    for (y, row) in rows.iter().enumerate() {
        for (x, ch) in row.chars().enumerate() {
            grid[x][y] = match ch {
                '.' => Color(0),
                '#' => Color(1),
                '?' => unsolved(),
                _ => panic!("unknown color: {}", ch),
            };
        }
    }
    Solution { clue_style: ClueStyle::Nono, palette: bw_palette(), grid }
}

fn b(count: u16) -> Nono {
    Nono { color: Color(1), count }
}

#[test]
fn colors_and_default_infos() {
    assert_eq!(background(), Color(0));
    assert_eq!(unsolved(), Color(255));
    let bg = ColorInfo::default_bg();
    assert_eq!((bg.ch, bg.name.as_str(), bg.rgb, bg.color, bg.corner), (' ', "white", (255, 255, 255), Color(0), None));
    let fg = ColorInfo::default_fg(Color(3));
    assert_eq!((fg.ch, fg.name.as_str(), fg.rgb, fg.color, fg.corner), ('#', "black", (0, 0, 0), Color(3), None));
    assert_eq!(fg.clone(), fg);
    assert_eq!(ClueStyle::default(), ClueStyle::Nono);
}

#[test]
fn nono_clues_cover_their_count() {
    let clue = Nono { color: Color(2), count: 3 };
    assert_eq!(clue.len(), 3);
    assert_eq!(clue.color_at(0), Color(2));
    assert_eq!(clue.color_at(2), Color(2));
    assert!(clue.must_be_separated_from(&Nono { color: Color(2), count: 1 }));
    assert!(!clue.must_be_separated_from(&Nono { color: Color(1), count: 1 }));
    assert!(clue.is_well_formed());
    assert!(!Nono { color: Color(2), count: 0 }.is_well_formed());
    assert!(!Nono { color: Color(32), count: 1 }.is_well_formed());
    assert!(clue.same_as(&Nono { color: Color(2), count: 3 }));
    assert!(!clue.same_as(&Nono { color: Color(2), count: 4 }));
    assert_eq!(Nono::style(), ClueStyle::Nono);
}

#[test]
fn triano_clues_count_their_caps() {
    let capped = Triano {
        front_cap: Some(Color(4)),
        body_len: 2,
        body_color: Color(1),
        back_cap: Some(Color(5)),
    };
    assert_eq!(capped.len(), 4);
    assert_eq!(
        (0..4).map(|i| capped.color_at(i)).collect::<Vec<_>>(),
        vec![Color(4), Color(1), Color(1), Color(5)]
    );
    let plain = Triano { front_cap: None, body_len: 2, body_color: Color(1), back_cap: None };
    let front = Triano { front_cap: Some(Color(4)), ..plain };
    let back = Triano { back_cap: Some(Color(5)), ..plain };
    // A gap is needed only between two bodies of one color that meet without a cap.
    assert!(plain.must_be_separated_from(&plain));
    assert!(!plain.must_be_separated_from(&front));
    assert!(!back.must_be_separated_from(&plain));
    assert!(!back.must_be_separated_from(&front));
    assert!(!plain.must_be_separated_from(&Triano { body_color: Color(2), ..plain }));
    let only_cap = Triano { front_cap: Some(Color(4)), body_len: 0, body_color: Color(0), back_cap: None };
    assert_eq!(only_cap.len(), 1);
    assert_eq!(only_cap.color_at(0), Color(4));
    assert!(only_cap.is_well_formed());
    assert!(!Triano { front_cap: None, body_len: 0, body_color: Color(1), back_cap: None }.is_well_formed());
    assert_eq!(Triano::style(), ClueStyle::Triano);
}

#[test]
fn clues_are_shown_in_parts() {
    let palette = triano_palette();
    let nonos: Puzzle<Nono> = Puzzle { palette: bw_palette(), rows: vec![], cols: vec![] };
    let parts = b(3).express(&nonos);
    assert_eq!(parts.len(), 1);
    assert_eq!((parts[0].0.ch, parts[0].1), ('#', Some(3)));
    let trianos: Puzzle<Triano> = Puzzle { palette, rows: vec![], cols: vec![] };
    let clue = Triano { front_cap: Some(Color(6)), body_len: 2, body_color: Color(1), back_cap: Some(Color(5)) };
    let parts = clue.express(&trianos);
    assert_eq!(
        parts.iter().map(|(info, count)| (info.ch, *count)).collect::<Vec<_>>(),
        vec![('◢', None), ('#', Some(2)), ('◣', None)]
    );
    let caps = Triano { front_cap: Some(Color(6)), body_len: 0, body_color: Color(0), back_cap: None };
    assert_eq!(caps.express(&trianos).len(), 1);
}

#[test]
fn lines_become_runs() {
    let w = Color(0);
    let k = Color(1);
    let r = Color(2);
    assert_eq!(line_to_clues(&vec![]), vec![]);
    assert_eq!(line_to_clues(&vec![w, w, w]), vec![]);
    assert_eq!(line_to_clues(&vec![k, k, w, k]), vec![b(2), b(1)]);
    assert_eq!(
        line_to_clues(&vec![w, k, r, r, w, w, r, k]),
        vec![b(1), Nono { color: r, count: 2 }, Nono { color: r, count: 1 }, b(1)]
    );
}

#[test]
fn pictures_become_puzzles() {
    let s = bw(&["##.", ".#.", "#.#"]);
    let puzzle = solution_to_puzzle(&s);
    assert_eq!(puzzle.rows, vec![vec![b(2)], vec![b(1)], vec![b(1), b(1)]]);
    assert_eq!(puzzle.cols, vec![vec![b(1), b(1)], vec![b(2)], vec![b(1)]]);
    assert_eq!(puzzle.palette, s.palette);
    assert_eq!(s.to_puzzle(), DynPuzzle::Nono(puzzle));
}

#[test]
fn capped_lines_become_capped_clues() {
    let palette = triano_palette();
    let w = Color(0);
    let k = Color(1);
    let upper_left = Color(3);
    let upper_right = Color(4);
    let lower_left = Color(5);
    let lower_right = Color(6);
    let plain = |body_len| Triano { front_cap: None, body_len, body_color: k, back_cap: None };
    // Along a row a triangle that is not solid on its left begins a clue.
    assert_eq!(
        line_to_triano_clues(&vec![w, lower_right, k, k, lower_left, w, k], &palette, true),
        vec![
            Triano { front_cap: Some(lower_right), body_len: 2, body_color: k, back_cap: Some(lower_left) },
            plain(1),
        ]
    );
    // Along a column a triangle that is not solid at its top begins a clue.
    assert_eq!(
        line_to_triano_clues(&vec![lower_left, k, upper_left, upper_right], &palette, false),
        vec![
            Triano { front_cap: Some(lower_left), body_len: 1, body_color: k, back_cap: Some(upper_left) },
            Triano { front_cap: None, body_len: 0, body_color: w, back_cap: Some(upper_right) },
        ]
    );
    assert_eq!(line_to_triano_clues(&vec![k, k, w, w, k], &palette, true), vec![plain(2), plain(1)]);
    assert_eq!(line_to_triano_clues(&vec![w, w], &palette, true), vec![]);

    let mut s = bw(&["#.", "##"]);
    s.clue_style = ClueStyle::Triano;
    s.palette = triano_palette();
    let puzzle = solution_to_triano_puzzle(&s);
    assert_eq!(puzzle.rows, vec![vec![plain(1)], vec![plain(2)]]);
    assert_eq!(puzzle.cols, vec![vec![plain(2)], vec![plain(1)]]);
    assert_eq!(s.to_puzzle(), DynPuzzle::Triano(puzzle));
}

#[test]
fn palettes_list_their_colors() {
    let bw = bw_palette();
    assert_eq!(bw.len(), 2);
    assert_eq!(bw[&0], ColorInfo::default_bg());
    assert_eq!(bw[&1], ColorInfo::default_fg(Color(1)));
    let tri = triano_palette();
    let mut keys: Vec<u8> = tri.keys().cloned().collect();
    keys.sort();
    assert_eq!(keys, vec![0, 1, 3, 4, 5, 6]);
    assert_eq!(tri[&3].corner, Some(Corner { upper: true, left: true }));
    assert_eq!(tri[&4].corner, Some(Corner { upper: true, left: false }));
    assert_eq!(tri[&5].corner, Some(Corner { upper: false, left: true }));
    assert_eq!(tri[&6].corner, Some(Corner { upper: false, left: false }));
    assert_eq!(tri[&4].name, "white\\black");
    assert_eq!(tri[&6].ch, '◢');
    for (key, info) in &tri {
        assert_eq!(info.color, Color(*key));
    }
}

#[test]
fn solutions_know_their_size_and_runs() {
    let s = bw(&["##.#", "#..#", "##.."]);
    assert_eq!(s.x_size(), 4);
    assert_eq!(s.y_size(), 3);
    // (up, down, left, right)
    assert_eq!(s.count_contiguous(0, 0), (0, 2, 0, 1));
    assert_eq!(s.count_contiguous(0, 1), (1, 1, 0, 0));
    assert_eq!(s.count_contiguous(2, 1), (1, 1, 1, 0));
    assert_eq!(s.count_contiguous(3, 0), (0, 1, 0, 0));
    assert!(s.cell_is(1, 0, Color(1)));
    assert!(!s.cell_is(2, 0, Color(1)));
    let blank = Solution::blank_bw(3, 2);
    assert_eq!(blank.grid, vec![vec![background(); 2]; 3]);
    assert_eq!(blank.clue_style, ClueStyle::Nono);
    assert_eq!(blank.palette, bw_palette());
}

#[test]
fn partial_grids_hold_what_the_picture_knows() {
    let s = bw(&["#?", ".#"]);
    let partial = s.to_partial();
    assert_eq!((partial.nrows(), partial.ncols()), (2, 2));
    assert!(partial.get(0, 0).is_known_to_be(Color(1)));
    assert_eq!(partial.get(0, 1), Cell::new_anything());
    assert!(partial.get(1, 0).is_known_to_be(Color(0)));
    assert!(partial.get(1, 1).is_known_to_be(Color(1)));
}

#[test]
fn grids_are_rectangles_of_cells() {
    let x = Cell::from_colors(&[Color(0), Color(1)]);
    let k = Cell::from_color(Color(1));
    let mut grid = Grid::from_elem((2, 3), x);
    assert_eq!((grid.nrows(), grid.ncols()), (2, 3));
    assert_eq!((grid.lane_len(true), grid.lane_len(false)), (3, 2));
    grid.set(1, 2, k);
    assert_eq!(grid.get(1, 2), k);
    assert_eq!(grid.get(0, 2), x);
    assert_eq!(grid.lane(true, 1), vec![x, x, k]);
    assert_eq!(grid.lane(false, 2), vec![x, k]);
    assert_eq!(grid.lane_cell(false, 2, 1), k);
    let copy = grid.clone();
    grid.set_lane(false, 0, &vec![k, k]);
    assert_eq!(grid.lane(true, 0), vec![k, x, x]);
    assert_eq!(grid.lane(true, 1), vec![k, x, k]);
    grid.set_lane(true, 0, &vec![x, k, x]);
    assert_eq!(grid.lane(false, 1), vec![k, x]);
    // The copy is a grid of its own.
    assert_eq!(copy.lane(true, 0), vec![x, x, x]);
    assert_eq!(copy.get(1, 2), k);
    assert_ne!(copy, grid);
    let none = Grid::from_elem((0, 4), x);
    assert_eq!((none.nrows(), none.ncols()), (0, 4));
}

#[test]
fn cells_learn_and_never_widen() {
    let mut cell = Cell::from_colors(&[Color(0), Color(1), Color(5)]);
    assert_eq!(cell.raw(), 0b100011);
    assert_eq!(cell.can_be_iter(), vec![Color(0), Color(1), Color(5)]);
    assert!(!cell.is_known());
    assert_eq!(cell.known_or(), None);
    assert!(!cell.contradictory());
    assert_eq!(cell.learn_that_not(Color(3)), Ok(false));
    assert_eq!(cell.learn_that_not(Color(40)), Ok(false));
    assert_eq!(cell.learn_that_not(Color(0)), Ok(true));
    assert_eq!(cell.raw(), 0b100010);
    assert_eq!(cell.learn_intersect(Cell::from_colors(&[Color(1), Color(5), Color(7)])), Ok(false));
    assert_eq!(cell.learn_intersect(Cell::from_color(Color(7))), Err(SolveError::Contradiction));
    assert_eq!(cell.raw(), 0b100010);
    assert_eq!(cell.learn(Color(0)), Err(SolveError::Contradiction));
    assert_eq!(cell.learn(Color(255)), Err(SolveError::Contradiction));
    assert_eq!(cell.learn(Color(5)), Ok(true));
    assert_eq!(cell.learn(Color(5)), Ok(false));
    assert!(cell.is_known() && cell.is_known_to_be(Color(5)) && cell.can_be(Color(5)));
    assert!(!cell.can_be(Color(1)) && !cell.is_known_to_be(Color(1)) && !cell.can_be(Color(37)));
    assert_eq!(cell.known_or(), Some(Color(5)));
    assert_eq!(cell.unwrap_color(), Color(5));
    assert_eq!(cell.learn_that_not(Color(5)), Err(SolveError::Contradiction));
    assert_eq!(cell.learn_intersect(Cell::from_colors(&[Color(5), Color(6)])), Ok(false));
    assert_eq!(Cell::from_color(Color(31)).raw(), 1 << 31);
    assert_eq!(Cell::from_color(Color(31)).known_or(), Some(Color(31)));
    assert_eq!(Cell::new_anything().raw(), u32::MAX);
    assert!(Cell::new_impossible().contradictory());
    assert!(!Cell::new_impossible().is_known());
    let mut narrowed = Cell::new_anything();
    assert_eq!(narrowed.learn_intersect(Cell::from_colors(&[Color(2), Color(3)])), Ok(true));
    assert_eq!(narrowed.raw(), 0b1100);
}

#[test]
fn a_full_cell_holds_the_palette() {
    let mut palette = bw_palette();
    palette.insert(7, ColorInfo::default_fg(Color(7)));
    palette.insert(200, ColorInfo::default_fg(Color(200)));
    let puzzle: Puzzle<Nono> = Puzzle { palette, rows: vec![], cols: vec![] };
    // A color that cannot stand in a cell is left out.
    assert_eq!(Cell::new(&puzzle).raw(), 0b10000011);
}

#[test]
fn modes_and_their_maps() {
    assert_eq!(SolveMode::first(), SolveMode::Skim);
    assert_eq!(SolveMode::all(), vec![SolveMode::Skim, SolveMode::Scrub]);
    assert!(SolveMode::Scrub.at_least(SolveMode::Skim));
    assert!(SolveMode::Skim.at_least(SolveMode::Skim));
    assert!(!SolveMode::Skim.at_least(SolveMode::Scrub));
    assert_eq!((SolveMode::Skim.ch(), SolveMode::Scrub.ch()), ('s', 'S'));
    let mut map = ModeMap::new_uniform(3);
    map.set(SolveMode::Scrub, 5);
    assert_eq!((map.get(SolveMode::Skim), map.get(SolveMode::Scrub)), (3, 5));
    assert_eq!(map, ModeMap { skim: 3, scrub: 5 });
}

#[test]
fn similar_colors_are_found() {
    let red = ColorInfo { ch: 'r', name: "red".to_string(), rgb: (250, 0, 0), color: Color(2), corner: None };
    let nearly = ColorInfo { rgb: (240, 10, 9), ..red.clone() };
    let far = ColorInfo { rgb: (240, 10, 10), ..red.clone() };
    assert!(is_too_similar(&red, &nearly));
    assert!(!is_too_similar(&red, &far));
    assert!(is_too_similar(&red, &red));
    // A triangle may have the shade of the color that it is a half of.
    let corner = ColorInfo { corner: Some(Corner { upper: true, left: false }), ..red.clone() };
    assert!(!is_too_similar(&red, &corner));
    assert!(is_too_similar(&nearly, &corner));
    assert!(is_too_similar(&corner, &corner));
}

#[test]
fn quality_problems_are_listed() {
    let blank = Solution::blank_bw(4, 3);
    assert_eq!(blank.quality_problems(), vec![QualityProblem::FewForeground { found: 0 }]);
    assert_eq!(
        blank.quality_check(),
        vec!["warning: 0 is a very small number of foreground squares".to_string()]
    );
    let mut full = Solution::blank_bw(4, 3);
    full.grid = vec![vec![Color(1); 3]; 4];
    assert_eq!(full.quality_problems(), vec![QualityProblem::FewBackground { found: 0 }]);
    let mut fine = Solution::blank_bw(4, 4);
    for x in 0..2 {
        for y in 0..4 {
            fine.grid[x][y] = Color(1);
        }
    }
    assert_eq!(fine.quality_problems(), vec![]);
    fine.palette.insert(2, ColorInfo { ch: 'g', name: "gray".to_string(), rgb: (9, 9, 9), color: Color(2), corner: None });
    assert_eq!(
        fine.quality_problems(),
        vec![QualityProblem::SimilarColors { first: (0, 0, 0), second: (9, 9, 9) }]
    );
    assert_eq!(
        fine.quality_check(),
        vec!["warning: very similar colors found: (0, 0, 0) and (9, 9, 9)".to_string()]
    );
    for c in 3..12u8 {
        fine.palette.insert(c, ColorInfo { ch: 'x', name: "x".to_string(), rgb: (0, c * 20, 255), color: Color(c), corner: None });
    }
    assert!(fine.quality_problems().contains(&QualityProblem::ManyColors { colors: 12 }));
    for c in 12..32u8 {
        fine.palette.insert(c, ColorInfo { ch: 'x', name: "x".to_string(), rgb: (255, c * 8, 0), color: Color(c), corner: None });
    }
    let problems = fine.quality_problems();
    assert!(problems.contains(&QualityProblem::TooManyColors { colors: 32 }));
    assert!(!problems.iter().any(|p| matches!(p, QualityProblem::ManyColors { .. })));
    assert!(fine
        .quality_check()
        .contains(&"32 colors detected. Nonograms with more than 30 colors are not supported.".to_string()));
}

#[test]
fn alternatives_are_scored_by_what_they_leave_open() {
    // The clues of this picture leave all four cells open.
    let s = bw(&["#.", ".#"]);
    let mut cache = DynSolveCache::new();
    assert_eq!(baseline_unsolved(&s, &mut cache), Ok(4));
    // With the corner black too, the picture is the only one.
    let best = best_alternative(&s, 1, 0, &mut cache);
    assert_eq!((best.color, best.unsolved_after), (Color(1), 0));
    let best = best_alternative(&s, 0, 0, &mut cache);
    assert_eq!((best.color, best.unsolved_after), (Color(0), 0));
    let altered = alter(&s, 1, 0, Color(1));
    assert_eq!(altered.grid, vec![vec![Color(1), Color(0)], vec![Color(1), Color(1)]]);
    assert_eq!(altered.palette, s.palette);
    // A palette of one color leaves nothing to try.
    let mut lone = bw(&["."]);
    lone.palette.remove(&1);
    let best = best_alternative(&lone, 0, 0, &mut cache);
    assert_eq!((best.color, best.unsolved_after), (background(), usize::MAX));
    assert_eq!(baseline_unsolved(&bw(&["##", "##"]), &mut cache), Ok(0));
}

#[test]
fn the_scorer_goes_through_the_cells_column_by_column() {
    assert_eq!(
        after_cell(0, 0, 2, 7, false),
        ScorerStep { progress: Some((0, 14)), next: Some((0, 1)), complete: false }
    );
    assert_eq!(
        after_cell(0, 1, 2, 7, false),
        ScorerStep { progress: None, next: Some((0, 2)), complete: false }
    );
    assert_eq!(
        after_cell(1, 5, 2, 7, false),
        ScorerStep { progress: Some((12, 14)), next: Some((1, 6)), complete: false }
    );
    assert_eq!(
        after_cell(0, 6, 2, 7, false),
        ScorerStep { progress: None, next: Some((1, 0)), complete: false }
    );
    assert_eq!(
        after_cell(1, 6, 2, 7, false),
        ScorerStep { progress: None, next: None, complete: true }
    );
    assert_eq!(
        after_cell(0, 5, 2, 7, true),
        ScorerStep { progress: Some((5, 14)), next: None, complete: false }
    );
}

#[test]
fn documents_make_what_is_missing() {
    let s = bw(&["##", "#."]);
    let mut from_picture = number_loom::document::Document::from_solution(s.clone(), "a.txt".to_string());
    assert!(from_picture.try_puzzle().is_none());
    assert_eq!(from_picture.dimensions(), (2, 2));
    assert!(!from_picture.any_unsolved());
    let puzzle = from_picture.puzzle().clone();
    assert_eq!(puzzle, s.to_puzzle());
    assert_eq!(from_picture.try_puzzle(), Some(&puzzle));
    assert_eq!(from_picture.file(), "a.txt");
    assert_eq!(from_picture.title(), "");

    let mut from_puzzle = number_loom::document::Document::from_puzzle(puzzle.clone(), "b.g".to_string());
    assert!(from_puzzle.try_solution().is_none());
    assert_eq!(from_puzzle.dimensions(), (2, 2));
    assert_eq!(from_puzzle.solution().unwrap().grid, s.grid);
    assert_eq!(from_puzzle.try_puzzle(), Some(&puzzle));
    // The picture to be changed comes without the puzzle.
    from_puzzle.solution_mut().grid[0][0] = unsolved();
    assert!(from_puzzle.try_puzzle().is_none());
    assert!(from_puzzle.any_unsolved());
    assert_eq!(from_puzzle.take_solution().unwrap().grid[0][0], unsolved());

    let unsolvable = DynPuzzle::Nono(Puzzle {
        palette: bw_palette(),
        rows: vec![vec![b(2)], vec![]],
        cols: vec![vec![b(1)], vec![]],
    });
    let mut doc = number_loom::document::Document::from_puzzle(unsolvable, "c.g".to_string());
    assert_eq!(doc.solution().err(), Some(SolveError::UnsatisfiableLine));
    assert!(doc.try_solution().is_none());
    assert_eq!(doc.take_solution().err(), Some(SolveError::UnsatisfiableLine));
}

#[test]
fn quality_problems_come_in_their_order_with_their_numbers() {
    let mut picture = Solution::blank_bw(30, 30);
    picture.grid = vec![vec![Color(1); 30]; 30];
    for i in 0..45 {
        picture.grid[i % 30][i / 30] = Color(0);
    }
    picture.palette.insert(
        5,
        ColorInfo { ch: 'a', name: "a".to_string(), rgb: (10, 200, 255), color: Color(5), corner: None },
    );
    picture.palette.insert(
        9,
        ColorInfo { ch: 'b', name: "b".to_string(), rgb: (12, 210, 250), color: Color(9), corner: None },
    );
    for c in 20..29u8 {
        picture.palette.insert(
            c,
            ColorInfo { ch: 'x', name: "x".to_string(), rgb: (100, (c - 20) * 28, 0), color: Color(c), corner: None },
        );
    }
    assert_eq!(
        picture.quality_problems(),
        vec![
            QualityProblem::FewBackground { found: 45 },
            QualityProblem::ManyColors { colors: 13 },
            QualityProblem::SimilarColors { first: (10, 200, 255), second: (12, 210, 250) },
            QualityProblem::SimilarColors { first: (100, 0, 0), second: (100, 28, 0) },
            QualityProblem::SimilarColors { first: (100, 28, 0), second: (100, 56, 0) },
            QualityProblem::SimilarColors { first: (100, 56, 0), second: (100, 84, 0) },
            QualityProblem::SimilarColors { first: (100, 84, 0), second: (100, 112, 0) },
            QualityProblem::SimilarColors { first: (100, 112, 0), second: (100, 140, 0) },
            QualityProblem::SimilarColors { first: (100, 140, 0), second: (100, 168, 0) },
            QualityProblem::SimilarColors { first: (100, 168, 0), second: (100, 196, 0) },
            QualityProblem::SimilarColors { first: (100, 196, 0), second: (100, 224, 0) },
        ]
    );
    let words = picture.quality_check();
    assert_eq!(words.len(), 11);
    assert_eq!(words[0], "warning: 45 is a very small number of background squares");
    assert_eq!(words[1], "13 colors detected. That's probably too many.");
    assert_eq!(words[2], "warning: very similar colors found: (10, 200, 255) and (12, 210, 250)");
    assert_eq!(words[10], "warning: very similar colors found: (100, 196, 0) and (100, 224, 0)");
    for (problem, text) in picture.quality_problems().iter().zip(&words) {
        let expected = match problem {
            QualityProblem::FewBackground { found } => {
                format!("warning: {} is a very small number of background squares", found)
            }
            QualityProblem::FewForeground { found } => {
                format!("warning: {} is a very small number of foreground squares", found)
            }
            QualityProblem::TooManyColors { colors } => {
                format!("{} colors detected. Nonograms with more than 30 colors are not supported.", colors)
            }
            QualityProblem::ManyColors { colors } => {
                format!("{} colors detected. That's probably too many.", colors)
            }
            QualityProblem::SimilarColors { first, second } => {
                format!("warning: very similar colors found: {:?} and {:?}", first, second)
            }
        };
        assert_eq!(text, &expected);
    }
}

#[test]
fn a_document_is_checked_for_its_author_its_picture_and_its_puzzle() {
    // Two cells on a diagonal: the clues leave all four cells open.
    let mut document = Document::from_solution(bw(&["#.", ".#"]), "diagonal.txt".to_string());
    assert_eq!(
        document.quality_check(),
        vec![
            "warning: missing author".to_string(),
            "warning: 2 is a very small number of background squares".to_string(),
            "warning: 2 is a very small number of foreground squares".to_string(),
            "Puzzle has 4 unsolved cells".to_string(),
        ]
    );
    assert!(document.try_puzzle().is_some());

    // A puzzle that has a picture, found by the check.
    let solved = bw(&["####", "#...", "#...", "#..."]);
    let mut document = Document::from_puzzle(solved.to_puzzle(), "corner.txt".to_string());
    document.author = "somebody".to_string();
    assert_eq!(
        document.quality_check(),
        vec!["warning: 7 is a very small number of foreground squares".to_string()]
    );
    assert_eq!(document.try_solution().map(|s| &s.grid), Some(&solved.grid));

    // Clues that no picture has.
    let none = Puzzle {
        palette: bw_palette(),
        rows: vec![vec![Nono { color: Color(1), count: 2 }], vec![]],
        cols: vec![vec![Nono { color: Color(1), count: 1 }], vec![]],
    };
    let mut document = Document::from_puzzle(DynPuzzle::Nono(none), "none.txt".to_string());
    document.author = "somebody".to_string();
    assert_eq!(document.quality_check(), vec!["Puzzle is unsolvable".to_string()]);
    assert!(document.try_solution().is_none());
}

#[test]
fn a_puzzle_is_held_under_the_style_of_its_clues() {
    let plain = Puzzle { palette: bw_palette(), rows: vec![vec![b(2)], vec![]], cols: vec![vec![b(1)], vec![b(1)]] };
    assert_eq!(Nono::to_dyn(plain.clone()), DynPuzzle::Nono(plain));
    let cap = Triano { front_cap: Some(Color(2)), body_len: 1, body_color: Color(1), back_cap: None };
    let capped = Puzzle { palette: triano_palette(), rows: vec![vec![cap]], cols: vec![vec![], vec![]] };
    assert_eq!(Triano::to_dyn(capped.clone()), DynPuzzle::Triano(capped));
    assert_eq!(Nono::style(), ClueStyle::Nono);
    assert_eq!(Triano::style(), ClueStyle::Triano);
}

