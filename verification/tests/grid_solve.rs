use number_loom::grid::Grid;
use number_loom::grid_solve::{
    analyze_line, analyze_lines, check_puzzle, find_best_lane, grid_from_solution,
    grid_to_solution, grid_to_solved_mask, op_or_cache, settle_solution, solve, solve_grid,
    LaneState, LineCache, SolveOptions,
};
use number_loom::import::{bw_palette, line_to_clues, solution_to_puzzle};
use number_loom::line_solve::{scrub_line, skim_line, Cell, SolveError, SolveMode};
use number_loom::puzzle::{
    background, unsolved, ClueStyle, Color, ColorInfo, DynPuzzle, DynSolveCache, Nono, Puzzle,
    PuzzleDynOps, Solution, Triano,
};
use std::collections::HashMap;

fn clue(n: u16) -> Vec<Nono> {
    vec![Nono { color: Color(1), count: n }]
}

fn picture(rows: &[&str]) -> Solution {
    let height = rows.len();
    let width = rows[0].chars().count();
    let mut grid = vec![vec![background(); height]; width];
    for (y, row) in rows.iter().enumerate() {
        for (x, ch) in row.chars().enumerate() {
            grid[x][y] = match ch {
                '.' => Color(0),
                '#' => Color(1),
                'r' => Color(2),
                _ => panic!("unknown color: {}", ch),
            };
        }
    }
    let mut palette = bw_palette();
    palette.insert(
        2,
        ColorInfo { ch: 'r', name: "red".to_string(), rgb: (255, 0, 0), color: Color(2), corner: None },
    );
    Solution { clue_style: ClueStyle::Nono, palette, grid }
}

#[test]
fn test_analyze_lines() {
    let mut palette = HashMap::new();
    palette.insert(0, ColorInfo::default_bg());
    palette.insert(1, ColorInfo::default_fg(Color(1)));

    let puzzle = Puzzle {
        palette,
        rows: vec![clue(1), clue(1)],
        cols: vec![clue(1), clue(2)], // impossible
    };

    let mut grid = Grid::from_elem((2, 2), Cell::new(&puzzle));
    grid.set(0, 0, Cell::from_color(background()));
    grid.set(1, 1, Cell::from_color(background()));

    let (row_tech, col_tech) = analyze_lines(&puzzle, &grid);

    assert_eq!(
        row_tech.into_iter().map(|r| r.ok()).collect::<Vec<_>>(),
        vec![Some(Some(SolveMode::Skim)), Some(Some(SolveMode::Skim))]
    );
    assert!(col_tech[0].as_ref().is_ok());
    assert!(col_tech[1].is_err());
}

#[test]
fn test_grid_from_solution() {
    let mut palette = HashMap::new();
    palette.insert(0, ColorInfo::default_bg());
    palette.insert(1, ColorInfo::default_fg(Color(1)));

    let puzzle: Puzzle<Nono> = Puzzle {
        palette,
        rows: vec![vec![]],
        cols: vec![vec![]],
    };

    let solution = Solution {
        clue_style: ClueStyle::Nono,
        palette: puzzle.palette.clone(),
        grid: vec![vec![background(), unsolved()]],
    };

    let grid = grid_from_solution(&solution, &puzzle);
    assert!(grid.get(0, 0).is_known_to_be(background()));
    assert!(!grid.get(0, 1).is_known());
    assert!(grid.get(0, 1).can_be(background()));
    assert!(grid.get(0, 1).can_be(Color(1)));
}

#[test]
fn analyze_line_names_the_cheapest_mode() {
    let x = Cell::from_colors(&[Color(0), Color(1)]);
    assert_eq!(analyze_line(&clue(3), &vec![x, x, x, x]), Ok(Some(SolveMode::Skim)));
    assert_eq!(analyze_line(&clue(1), &vec![x, x, x, x]), Ok(None));
    assert_eq!(analyze_line(&clue(5), &vec![x, x, x, x]), Err(SolveError::UnsatisfiableLine));
    // Skimming rules out the color that the clues do not show, though it
    // makes no cell known.
    let any = Cell::from_colors(&[Color(0), Color(1), Color(2)]);
    assert_eq!(analyze_line(&clue(1), &vec![any, any, any]), Ok(Some(SolveMode::Skim)));

    // On every small lane the status is what skimming and scrubbing make of
    // a copy of the lane.
    let clues = vec![Nono { color: Color(1), count: 1 }, Nono { color: Color(2), count: 2 }];
    let mut seen_scrub = false;
    for code in 0..7usize.pow(5) {
        let lane = lane_from_code(code, 5);
        let mut skimmed = lane.clone();
        let mut scrubbed = lane.clone();
        let expected = match skim_line(&clues, &mut skimmed) {
            Err(e) => Err(e),
            Ok(_) if skimmed != lane => Ok(Some(SolveMode::Skim)),
            Ok(_) => match scrub_line(&clues, &mut scrubbed) {
                Err(e) => Err(e),
                Ok(_) if scrubbed != lane => Ok(Some(SolveMode::Scrub)),
                Ok(_) => Ok(None),
            },
        };
        seen_scrub = seen_scrub || expected == Ok(Some(SolveMode::Scrub));
        assert_eq!(analyze_line(&clues, &lane), expected);
    }
    assert!(seen_scrub);
}

#[test]
fn solve_finds_a_unique_picture() {
    let s = picture(&[
        "#####",
        "#...#",
        "#.#.#",
        "#...#",
        "#####",
    ]);
    let puzzle = solution_to_puzzle(&s);
    let report = solve(&puzzle, &mut None, &SolveOptions::default()).unwrap();
    assert_eq!(report.cells_left, 0);
    assert_eq!(report.solution.grid, s.grid);
    assert_eq!(report.solution.clue_style, ClueStyle::Nono);
    assert_eq!(report.solution.palette, s.palette);
    assert!(report.solved_mask.iter().all(|col| col.iter().all(|known| *known)));
    assert!(report.solve_counts.skim > 0);
}

#[test]
fn solve_leaves_an_ambiguous_picture_open() {
    // Two pictures have these clues: the checks can be swapped.
    let s = picture(&["#.", ".#"]);
    let puzzle = solution_to_puzzle(&s);
    let report = solve(&puzzle, &mut None, &SolveOptions::default()).unwrap();
    assert_eq!(report.cells_left, 4);
    for x in 0..2 {
        for y in 0..2 {
            assert!(!report.solved_mask[x][y]);
            assert_eq!(report.solution.grid[x][y], unsolved());
        }
    }
    assert_eq!(report.solve_counts.skim, 4);
    assert_eq!(report.solve_counts.scrub, 4);
}

#[test]
fn round_trip_agrees_on_every_solved_cell() {
    let pictures = [
        picture(&["#.#", ".#.", "#.#"]),
        picture(&["##.", "#r.", ".rr"]),
        picture(&["....", "....", "...."]),
        picture(&["#r#r", "r#r#"]),
        picture(&[".#..#.", "######", ".#..#.", "######", ".#..#."]),
    ];
    for s in pictures {
        let report = solve(&solution_to_puzzle(&s), &mut None, &SolveOptions::default()).unwrap();
        let mut left = 0;
        for x in 0..s.x_size() {
            for y in 0..s.y_size() {
                if report.solved_mask[x][y] {
                    assert_eq!(report.solution.grid[x][y], s.grid[x][y]);
                } else {
                    assert_eq!(report.solution.grid[x][y], unsolved());
                    left += 1;
                }
            }
        }
        assert_eq!(report.cells_left, left);
    }
}

#[test]
fn solving_twice_gives_the_same_report() {
    let s = picture(&["##.#", "#..#", ".##.", "#.#."]);
    let puzzle = solution_to_puzzle(&s);
    let first = solve(&puzzle, &mut None, &SolveOptions::default()).unwrap();
    let second = solve(&puzzle, &mut None, &SolveOptions::default()).unwrap();
    assert_eq!(first.solve_counts, second.solve_counts);
    assert_eq!(first.cells_left, second.cells_left);
    assert_eq!(first.solution, second.solution);
    assert_eq!(first.solved_mask, second.solved_mask);
}

#[test]
fn a_cache_changes_nothing_of_what_is_found() {
    let pictures = [
        picture(&["##.#", "#..#", ".##.", "#.#."]),
        picture(&["#.", ".#"]),
        picture(&["#r#r.", "r#r#.", "..#..", "rr.##"]),
    ];
    let mut cache = Some(LineCache::new());
    for _ in 0..2 {
        for s in &pictures {
            let puzzle = solution_to_puzzle(s);
            let plain = solve(&puzzle, &mut None, &SolveOptions::default()).unwrap();
            let cached = solve(&puzzle, &mut cache, &SolveOptions::default()).unwrap();
            assert_eq!(plain.cells_left, cached.cells_left);
            assert_eq!(plain.solution, cached.solution);
            assert_eq!(plain.solved_mask, cached.solved_mask);
        }
    }
}

#[test]
fn op_or_cache_replays_what_scrubbing_made() {
    let x = Cell::from_colors(&[Color(0), Color(1)]);
    let clues = vec![Nono { color: Color(1), count: 1 }, Nono { color: Color(1), count: 2 }];
    let mut plain = vec![x, x, x, x];
    let plain_report = scrub_line(&clues, &mut plain).unwrap();
    let mut cache = Some(LineCache::new());
    for _ in 0..3 {
        let mut lane = vec![x, x, x, x];
        let report = op_or_cache(&clues, &mut lane, &mut cache).unwrap();
        assert_eq!(lane, plain);
        let mut affected = report.affected_cells.clone();
        affected.sort();
        affected.dedup();
        assert_eq!(affected, vec![0, 1, 2, 3]);
        assert_eq!(report.affected_cells.len(), plain_report.affected_cells.len());
    }
    // Other clues on the same lane are another entry.
    let mut lane = vec![x, x, x, x];
    op_or_cache(&clue(3), &mut lane, &mut cache).unwrap();
    assert_eq!(lane, vec![x, Cell::from_color(Color(1)), Cell::from_color(Color(1)), x]);
}

#[test]
fn ill_formed_puzzles_are_refused() {
    let options = SolveOptions::default();
    let no_rows: Puzzle<Nono> = Puzzle { palette: bw_palette(), rows: vec![], cols: vec![clue(1)] };
    assert_eq!(solve(&no_rows, &mut None, &options).err(), Some(SolveError::IllFormedPuzzle));
    let too_long = Puzzle { palette: bw_palette(), rows: vec![clue(3)], cols: vec![clue(1), clue(1)] };
    assert_eq!(solve(&too_long, &mut None, &options).err(), Some(SolveError::IllFormedPuzzle));
    let unknown_color = Puzzle {
        palette: bw_palette(),
        rows: vec![vec![Nono { color: Color(7), count: 1 }]],
        cols: vec![clue(1)],
    };
    assert_eq!(solve(&unknown_color, &mut None, &options).err(), Some(SolveError::IllFormedPuzzle));
    let empty_clue = Puzzle { palette: bw_palette(), rows: vec![clue(0)], cols: vec![clue(1)] };
    assert_eq!(solve(&empty_clue, &mut None, &options).err(), Some(SolveError::IllFormedPuzzle));
    assert!(!check_puzzle(&empty_clue));
    let fine = Puzzle { palette: bw_palette(), rows: vec![clue(1)], cols: vec![clue(1)] };
    assert!(check_puzzle(&fine));
}

#[test]
fn a_grid_of_another_size_is_refused() {
    let puzzle = Puzzle { palette: bw_palette(), rows: vec![clue(1)], cols: vec![clue(1)] };
    let mut grid = Grid::from_elem((2, 1), Cell::new(&puzzle));
    assert_eq!(
        solve_grid(&puzzle, &mut None, &SolveOptions::default(), &mut grid).err(),
        Some(SolveError::DimensionMismatch)
    );
    assert_eq!(settle_solution(&puzzle, &mut grid), Err(SolveError::DimensionMismatch));
}

#[test]
fn contradictory_clues_are_an_error() {
    // The second row and the second column are empty, so the first row has
    // no room for its two cells.
    let puzzle = Puzzle {
        palette: bw_palette(),
        rows: vec![clue(2), vec![]],
        cols: vec![clue(1), vec![]],
    };
    let solved = solve(&puzzle, &mut None, &SolveOptions::default());
    assert_eq!(solved.err(), Some(SolveError::UnsatisfiableLine));
}

#[test]
fn a_solve_ends_when_every_cell_is_known() {
    // The clues of the columns cannot be met, but every cell is known before
    // the first column is looked at again.
    let puzzle = Puzzle {
        palette: bw_palette(),
        rows: vec![clue(1), clue(1)],
        cols: vec![clue(1), clue(2)],
    };
    let report = solve(&puzzle, &mut None, &SolveOptions::default()).unwrap();
    assert_eq!(report.cells_left, 0);
}

#[test]
fn settle_solution_fills_the_grid_in_place() {
    let s = picture(&["###", "#.#", "###"]);
    let puzzle = solution_to_puzzle(&s);
    let mut grid = Grid::from_elem((3, 3), Cell::new(&puzzle));
    assert_eq!(settle_solution(&puzzle, &mut grid), Ok(()));
    for x in 0..3 {
        for y in 0..3 {
            assert!(grid.get(y, x).is_known_to_be(s.grid[x][y]));
        }
    }
}

#[test]
fn solve_from_a_seeded_grid_keeps_the_seed() {
    let s = picture(&["#.", ".#"]);
    let puzzle = solution_to_puzzle(&s);
    let mut grid = Grid::from_elem((2, 2), Cell::new(&puzzle));
    grid.set(0, 0, Cell::from_color(Color(1)));
    let report = solve_grid(&puzzle, &mut None, &SolveOptions::default(), &mut grid).unwrap();
    assert_eq!(report.cells_left, 0);
    assert_eq!(report.solution.grid, s.grid);
}

#[test]
fn skim_only_effort_stops_before_scrubbing() {
    let s = picture(&["#.", ".#"]);
    let puzzle = solution_to_puzzle(&s);
    let options = SolveOptions { max_effort: SolveMode::Skim, ..SolveOptions::default() };
    let report = solve(&puzzle, &mut None, &options).unwrap();
    assert_eq!(report.solve_counts.scrub, 0);
    assert_eq!(report.solve_counts.skim, 4);
    assert_eq!(report.cells_left, 4);
}

#[test]
fn only_one_color_is_kept_when_asked() {
    let s = picture(&["###", "#.#", "###"]);
    let puzzle = solution_to_puzzle(&s);
    let options = SolveOptions { only_solve_color: Some(Color(1)), ..SolveOptions::default() };
    let report = solve(&puzzle, &mut None, &options).unwrap();
    for x in 0..3 {
        for y in 0..3 {
            if report.solved_mask[x][y] {
                assert_eq!(report.solution.grid[x][y], Color(1));
            }
        }
    }
    assert_eq!(report.cells_left, 1);
}

#[test]
fn lanes_are_picked_by_their_effective_score() {
    let puzzle = Puzzle {
        palette: bw_palette(),
        rows: vec![clue(1), clue(3), vec![]],
        cols: vec![clue(1), clue(1), clue(2)],
    };
    let grid = Grid::from_elem((3, 3), Cell::new(&puzzle));
    let mut lanes = vec![
        LaneState::new(&puzzle.rows[0], true, 0, &grid),
        LaneState::new(&puzzle.rows[1], true, 1, &grid),
        LaneState::new(&puzzle.rows[2], true, 2, &grid),
    ];
    // The lane without clues promises 1000 to skimming.
    assert_eq!(lanes[2].effective_score(SolveMode::Skim), 1000);
    assert_eq!(lanes[1].effective_score(SolveMode::Skim), 3 + 3 - 3 + 4);
    assert_eq!(find_best_lane(&lanes, SolveMode::Skim), Some(2));
    lanes[2].set_processed(SolveMode::Skim, true);
    assert_eq!(find_best_lane(&lanes, SolveMode::Skim), Some(1));
    lanes[1].set_processed(SolveMode::Skim, true);
    lanes[0].set_processed(SolveMode::Skim, true);
    assert_eq!(find_best_lane(&lanes, SolveMode::Skim), None);
    assert!(lanes[0].is_row());
    assert_eq!(lanes[1].number(), 1);
}

#[test]
fn the_report_shows_the_grid_column_by_column() {
    let puzzle = Puzzle { palette: bw_palette(), rows: vec![clue(1), vec![]], cols: vec![clue(1)] };
    let mut grid = Grid::from_elem((2, 1), Cell::new(&puzzle));
    grid.set(0, 0, Cell::from_color(Color(1)));
    assert_eq!(grid_to_solved_mask(&grid), vec![vec![true, false]]);
    let shown = grid_to_solution(&grid, &puzzle);
    assert_eq!(shown.grid, vec![vec![Color(1), unsolved()]]);
}

#[test]
fn dyn_puzzles_solve_like_their_puzzles() {
    let s = picture(&["###", "#.#", "###"]);
    let dynamic = s.to_puzzle();
    assert_eq!(dynamic.rows(), 3);
    assert_eq!(dynamic.cols(), 3);
    assert_eq!(dynamic.palette().len(), 3);
    let report = dynamic.plain_solve().unwrap();
    assert_eq!(report.solution.grid, s.grid);
    let mut cache = DynSolveCache::new();
    assert_eq!(cache.solve(&dynamic).unwrap().solution.grid, s.grid);
    assert_eq!(cache.solve(&dynamic).unwrap().cells_left, 0);
    let mut partial = s.to_partial();
    assert_eq!(dynamic.settle_solution(&mut partial), Ok(()));
    let (rows, cols) = dynamic.analyze_lines(&partial);
    assert_eq!(rows, vec![Ok(None), Ok(None), Ok(None)]);
    assert_eq!(cols.len(), 3);
    assert_eq!(dynamic.specialize(|p| p.rows.len(), |p| p.rows.len() + 100), 3);
    assert_eq!(dynamic.assume_nono().cols.len(), 3);
    let capped: Puzzle<Triano> = Puzzle { palette: bw_palette(), rows: vec![vec![]], cols: vec![vec![]] };
    let report = DynPuzzle::Triano(capped).solve(&SolveOptions::default()).unwrap();
    assert_eq!(report.solution.clue_style, ClueStyle::Triano);
    assert_eq!(report.solution.grid, vec![vec![background()]]);
}

fn lane_from_code(mut code: usize, len: usize) -> Vec<Cell> {
    let mut lane = vec![];
    for _ in 0..len {
        let bits = code % 7 + 1;
        code /= 7;
        let mut cell = Cell::new_impossible();
        for c in 0..3u8 {
            if bits & (1 << c) != 0 {
                cell.actually_could_be(Color(c));
            }
        }
        lane.push(cell);
    }
    lane
}

fn small_clue_vectors() -> Vec<Vec<Nono>> {
    let b = |n| Nono { color: Color(1), count: n };
    let r = |n| Nono { color: Color(2), count: n };
    vec![
        vec![],
        vec![b(1)],
        vec![b(2)],
        vec![b(3)],
        vec![b(4)],
        vec![b(1), b(1)],
        vec![b(1), b(2)],
        vec![b(2), b(1)],
        vec![b(2), b(2)],
        vec![b(2), r(1)],
        vec![r(1), b(1)],
        vec![r(1), b(2)],
        vec![r(1), b(1), r(1)],
        vec![b(1), b(1), b(1)],
        vec![b(1), r(1), b(1)],
        vec![r(2), r(1)],
        vec![r(2), b(2)],
    ]
}

/// Whether the clues can be laid out in the lane.
fn satisfiable(clues: &[Nono], lane: &[Cell], from: usize) -> bool {
    match clues.split_first() {
        None => lane[from.min(lane.len())..].iter().all(|c| c.can_be(Color(0))),
        Some((first, rest)) => {
            let count = first.count as usize;
            let mut start = from;
            while start + count <= lane.len() {
                let fits = lane[start..start + count].iter().all(|c| c.can_be(first.color));
                let gap = match rest.first() {
                    Some(next) if next.color == first.color => 1,
                    _ => 0,
                };
                let gap_ok = gap == 0
                    || start + count == lane.len()
                    || lane[start + count].can_be(Color(0));
                if fits && gap_ok && satisfiable(rest, lane, start + count + gap) {
                    return true;
                }
                if !lane[start].can_be(Color(0)) {
                    break;
                }
                start += 1;
            }
            false
        }
    }
}

/// On every lane of the given length that some layout of the clues fits,
/// skimming and then scrubbing ends as scrubbing alone.
fn skim_then_scrub_as_scrub_alone(len: usize, from: usize, to: usize) {
    let mut failures = 0;
    let mut first = None;
    for clues in &small_clue_vectors()[from..to] {
        for code in 0..7usize.pow(len as u32) {
            let before = lane_from_code(code, len);
            if !satisfiable(clues, &before, 0) {
                continue;
            }
            let mut once = before.clone();
            if skim_line(clues, &mut once).is_err() {
                continue;
            }
            let mut scrubbed = before.clone();
            let alone = scrub_line(clues, &mut scrubbed);
            let mut both = once.clone();
            let after = scrub_line(clues, &mut both);
            if alone.is_err() != after.is_err() || (alone.is_ok() && scrubbed != both) {
                failures += 1;
                first.get_or_insert((clues.clone(), before.clone(), scrubbed.clone(), both.clone()));
            }
        }
    }
    assert_eq!(failures, 0, "{:?}", first);
}

#[test]
fn skim_then_scrub_ends_as_scrub_alone_with_one_clue() {
    skim_then_scrub_as_scrub_alone(6, 0, 5);
}

#[test]
fn skim_then_scrub_ends_as_scrub_alone_with_two_clues() {
    skim_then_scrub_as_scrub_alone(6, 5, 9);
}

#[test]
fn skim_then_scrub_ends_as_scrub_alone_with_two_colors() {
    skim_then_scrub_as_scrub_alone(6, 9, 12);
}

#[test]
fn skim_then_scrub_ends_as_scrub_alone_with_three_clues() {
    skim_then_scrub_as_scrub_alone(6, 12, 17);
}

#[test]
fn scrub_after_skim_can_differ_where_nothing_fits() {
    // Three lone cells cannot be three of these six with the second and the
    // fifth among them. Scrubbing finds that out; skimming does not, and
    // leaves a lane that scrubbing finds no fault with.
    let x = Cell::from_colors(&[Color(0), Color(1)]);
    let b = Cell::from_color(Color(1));
    let w = Cell::from_color(Color(0));
    let clues = vec![clue(1)[0], clue(1)[0], clue(1)[0]];
    let lane = vec![x, b, x, x, b, x];
    assert!(!satisfiable(&clues, &lane, 0));
    let mut alone = lane.clone();
    assert_eq!(scrub_line(&clues, &mut alone).err(), Some(SolveError::Contradiction));
    let mut both = lane.clone();
    skim_line(&clues, &mut both).unwrap();
    scrub_line(&clues, &mut both).unwrap();
    assert_eq!(both, vec![w, b, w, w, b, w]);
}

#[test]
fn a_second_skim_can_learn_more() {
    // The first skim finds that the clue cannot begin before the known black
    // cell; only then does the packing from the left reach the last cell.
    let x = Cell::from_colors(&[Color(0), Color(1)]);
    let w = Cell::from_color(Color(0));
    let b = Cell::from_color(Color(1));
    let clues = vec![Nono { color: Color(1), count: 2 }];
    let mut lane = vec![x, x, w, b, x];
    skim_line(&clues, &mut lane).unwrap();
    assert_eq!(lane, vec![w, w, w, b, x]);
    skim_line(&clues, &mut lane).unwrap();
    assert_eq!(lane, vec![w, w, w, b, b]);
}

#[test]
fn scrub_after_skim_can_learn_more() {
    // Scrubbing tries the cells in their order and does not come back: the
    // fourth and fifth cell are tried while the seventh and ninth are still
    // open. After a skim those are background, and the trial finds more.
    let x = Cell::from_colors(&[Color(0), Color(1)]);
    let w = Cell::from_color(Color(0));
    let b = Cell::from_color(Color(1));
    let clues = vec![clue(1)[0], clue(2)[0], clue(1)[0]];
    let lane = vec![x, w, x, x, x, b, x, b, x];
    assert!(satisfiable(&clues, &lane, 0));
    let mut alone = lane.clone();
    scrub_line(&clues, &mut alone).unwrap();
    assert_eq!(alone, vec![x, w, x, x, x, b, w, b, w]);
    let mut both = lane.clone();
    skim_line(&clues, &mut both).unwrap();
    assert_eq!(both, vec![x, w, x, x, x, b, w, b, w]);
    scrub_line(&clues, &mut both).unwrap();
    assert_eq!(both, vec![x, w, x, w, b, b, w, b, w]);
}

/// Whether the lane allows the colors, cell by cell.
fn lane_allows(lane: &[Cell], colors: &[Color]) -> bool {
    lane.iter().zip(colors).all(|(cell, &c)| cell.can_be(c))
}

#[test]
fn skimming_first_changes_nothing_of_what_is_allowed() {
    let len = 4;
    let pictures: Vec<Vec<Color>> = (0..3usize.pow(len as u32))
        .map(|code| (0..len).map(|i| Color((code / 3usize.pow(i as u32) % 3) as u8)).collect())
        .collect();
    let mut compared = 0;
    for clues in &small_clue_vectors() {
        let layouts: Vec<&Vec<Color>> =
            pictures.iter().filter(|picture| &line_to_clues(picture) == clues).collect();
        for code in 0..7usize.pow(len as u32) {
            let before = lane_from_code(code, len);
            let mut once = before.clone();
            if skim_line(clues, &mut once).is_err() {
                continue;
            }
            let mut twice = once.clone();
            let mut both = once.clone();
            let mut alone = before.clone();
            let fits = layouts.iter().any(|picture| lane_allows(&before, picture));
            assert_eq!(fits, satisfiable(clues, &before, 0));
            if fits {
                skim_line(clues, &mut twice).unwrap();
                scrub_line(clues, &mut both).unwrap();
                scrub_line(clues, &mut alone).unwrap();
            } else if skim_line(clues, &mut twice).is_err()
                || scrub_line(clues, &mut both).is_err()
                || scrub_line(clues, &mut alone).is_err()
            {
                continue;
            }
            for picture in &layouts {
                let allowed = lane_allows(&before, picture);
                assert_eq!(lane_allows(&twice, picture), allowed);
                assert_eq!(lane_allows(&both, picture), allowed);
                assert_eq!(lane_allows(&alone, picture), allowed);
            }
            for i in 0..len {
                if once[i].is_known() {
                    assert_eq!(twice[i], once[i]);
                }
                if fits && both[i].is_known() && alone[i].is_known() {
                    assert_eq!(both[i], alone[i]);
                }
            }
            compared += 1;
        }
    }
    assert!(compared > 1000);
}

