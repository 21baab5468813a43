use number_loom::line_solve::{
    bg_squares, scrub_heuristic, scrub_line, skim_heuristic, skim_line, Arrangement, Cell,
    PossibleArrangements, SolveError,
};
use number_loom::puzzle::{background, Clue, Color, Nono, Triano};

fn parse_color(c: char) -> Color {
    match c {
        '⬜' => Color(0),
        '⬛' => Color(1),
        '🟥' => Color(2),
        '🟩' => Color(3),
        '🮞' => Color(4),
        '🮟' => Color(5),
        _ => panic!("unknown color: {}", c),
    }
}

fn n(spec: &str) -> Vec<Nono> {
    let mut res = vec![];
    for chunk in spec.split_whitespace() {
        let mut chunk_chars = chunk.chars();
        let color = parse_color(chunk_chars.next().unwrap());
        let count = chunk_chars.collect::<String>().parse::<u16>().unwrap();
        res.push(Nono { color, count });
    }
    res
}

fn tri(spec: &str) -> Vec<Triano> {
    let mut res = vec![];
    for chunk in spec.split_whitespace() {
        let mut clue = Triano {
            front_cap: None,
            body_color: Color(1),
            body_len: 0,
            back_cap: None,
        };
        if chunk.starts_with('🮞') {
            clue.front_cap = Some(parse_color('🮞'));
        }
        if chunk.ends_with('🮟') {
            clue.back_cap = Some(parse_color('🮟'));
        }
        clue.body_color = parse_color('⬛');
        clue.body_len = chunk
            .trim_start_matches('🮞')
            .trim_end_matches('🮟')
            .parse()
            .unwrap();

        res.push(clue);
    }
    res
}

fn l(spec: &str) -> Vec<Cell> {
    let mut res = vec![];
    for cell_spec in spec.split_whitespace() {
        if cell_spec == "🔳" {
            let mut bw = Cell::new_impossible();
            bw.actually_could_be(Color(0));
            bw.actually_could_be(Color(1));
            res.push(bw);
            continue;
        }

        let mut cell = Cell::new_impossible();
        for c in cell_spec.chars() {
            cell.actually_could_be(parse_color(c));
        }
        res.push(cell);
    }
    res
}

fn test_scrub<C: Clue>(clues: Vec<C>, init: &str) -> Vec<Cell> {
    let mut working_line = l(init);
    scrub_line(&clues, &mut working_line).unwrap();
    working_line
}

fn test_skim<C: Clue>(clues: Vec<C>, init: &str) -> Vec<Cell> {
    let mut working_line = l(init);
    skim_line(&clues, &mut working_line).unwrap();
    working_line
}

fn sorted_set(mut indices: Vec<usize>) -> Vec<usize> {
    indices.sort();
    indices.dedup();
    indices
}

fn heur(clues: &[(Cell, u16)], lane: &[Cell]) -> i32 {
    let clues: Vec<Nono> = clues
        .iter()
        .map(|(color, count)| Nono { color: color.unwrap_color(), count: *count })
        .collect();
    scrub_heuristic(&clues, &lane.to_vec())
}

#[test]
fn arrangement_test() {
    let w = background();
    let r = Color(1);
    let g = Color(2);

    let clues = vec![Nono { color: r, count: 2 }, Nono { color: g, count: 3 }];

    let gaps_1 = vec![0, 0];
    let arr_1 = Arrangement::new(&clues, &gaps_1, 10);
    assert_eq!(arr_1.collect(), vec![r, r, g, g, g, w, w, w, w, w]);

    let gaps_1 = vec![1, 1];
    let arr_1 = Arrangement::new(&clues, &gaps_1, 10);
    assert_eq!(arr_1.collect(), vec![w, r, r, w, g, g, g, w, w, w]);
}

fn all_gaps(len: u16, max_sum: u16) -> Vec<Vec<u16>> {
    let mut count = PossibleArrangements::new(len, max_sum);
    let mut res = vec![];
    while let Some(gaps) = count.next() {
        res.push(gaps);
    }
    res
}

#[test]
fn arrange_gaps_test() {
    {
        assert_eq!(
            all_gaps(3, 1),
            vec![vec![0, 0, 0], vec![1, 0, 0], vec![0, 1, 0], vec![0, 0, 1]]
        );
    }

    {
        assert_eq!(
            all_gaps(3, 2),
            vec![
                vec![0, 0, 0],
                vec![1, 0, 0],
                vec![2, 0, 0],
                vec![0, 1, 0],
                vec![1, 1, 0],
                vec![0, 2, 0],
                vec![0, 0, 1],
                vec![1, 0, 1],
                vec![0, 1, 1],
                vec![0, 0, 2]
            ]
        );
    }
}

#[test]
fn scrub_test() {
    assert_eq!(test_scrub(n("⬛1"), "🔳 🔳 🔳 🔳"), l("🔳 🔳 🔳 🔳"));

    assert_eq!(test_scrub(n("⬛1"), "⬜ 🔳 🔳 🔳"), l("⬜ 🔳 🔳 🔳"));

    assert_eq!(test_scrub(n("⬛1 ⬛2"), "🔳 🔳 🔳 🔳"), l("⬛ ⬜ ⬛ ⬛"));

    assert_eq!(test_scrub(n("⬛1"), "🔳 🔳 ⬛ 🔳"), l("⬜ ⬜ ⬛ ⬜"));

    assert_eq!(test_scrub(n("⬛3"), "🔳 🔳 🔳 🔳"), l("🔳 ⬛ ⬛ 🔳"));

    assert_eq!(test_scrub(n("⬛3"), "🔳 ⬛ 🔳 🔳 🔳"), l("🔳 ⬛ ⬛ 🔳 ⬜"));

    assert_eq!(
        test_scrub(n("⬛2 ⬛2"), "🔳 🔳 🔳 🔳 🔳"),
        l("⬛ ⬛ ⬜ ⬛ ⬛")
    );

    // Different colors don't need separation, so we don't know as much:
    assert_eq!(
        test_scrub(n("🟥2 ⬛2"), "🟥⬛⬜ 🟥⬛⬜ 🟥⬛⬜ 🟥⬛⬜ 🟥⬛⬜"),
        l("🟥⬜ 🟥 🟥⬛⬜ ⬛ ⬛⬜")
    );
}

#[test]
fn skim_test() {
    assert_eq!(test_skim(n("⬛1"), "🔳 🔳 🔳 🔳"), l("🔳 🔳 🔳 🔳"));

    assert_eq!(test_skim(n("⬛1"), "⬜ 🔳 🔳 🔳"), l("⬜ 🔳 🔳 🔳"));

    assert_eq!(test_skim(n("⬛3"), "🔳 🔳 🔳 🔳"), l("🔳 ⬛ ⬛ 🔳"));

    assert_eq!(test_skim(n("⬛2 ⬛1"), "🔳 🔳 🔳 🔳"), l("⬛ ⬛ ⬜ ⬛"));

    assert_eq!(test_skim(n("⬛1 ⬛2"), "🔳 🔳 🔳 🔳"), l("⬛ ⬜ ⬛ ⬛"));

    assert_eq!(
        test_skim(n("⬛2"), "🔳 🔳 🔳 🔳 🔳 ⬛ ⬛ 🔳"),
        l("⬜ ⬜ ⬜ ⬜ ⬜ ⬛ ⬛ ⬜")
    );

    assert_eq!(test_skim(n("⬛1"), "🔳 🔳 ⬛ 🔳"), l("⬜ ⬜ ⬛ ⬜"));

    assert_eq!(test_skim(n("⬛3"), "🔳 ⬛ 🔳 🔳 🔳"), l("🔳 ⬛ ⬛ 🔳 ⬜"));

    assert_eq!(
        test_skim(n("⬛2 ⬛2"), "🔳 🔳 🔳 🔳 🔳"),
        l("⬛ ⬛ ⬜ ⬛ ⬛")
    );

    // Different colors don't need separation, so we don't know as much:
    assert_eq!(
        test_skim(n("🟥2 ⬛2"), "🟥⬛⬜ 🟥⬛⬜ 🟥⬛⬜ 🟥⬛⬜ 🟥⬛⬜"),
        l("🟥⬛⬜ 🟥 🟥⬛⬜ ⬛ 🟥⬛⬜")
    );

    // Test with longer clues
    assert_eq!(
        test_skim(n("⬛7"), "🔳 🔳 🔳 🔳 🔳 🔳 🔳 🔳 🔳 🔳"),
        l("🔳 🔳 🔳 ⬛ ⬛ ⬛ ⬛ 🔳 🔳 🔳")
    );

    // Test with more clues per line
    assert_eq!(
        test_skim(n("⬛1 ⬛1 ⬛1 ⬛1"), "🔳 🔳 🔳 🔳 🔳 🔳 🔳"),
        l("⬛ ⬜ ⬛ ⬜ ⬛ ⬜ ⬛")
    );

    assert_eq!(
        test_skim(n("⬛6"), "⬛ ⬛ 🔳 🔳 ⬛ ⬛"),
        l("⬛ ⬛ ⬛ ⬛ ⬛ ⬛")
    );
}

#[test]
fn skim_tri_test() {
    // Perhaps skimming should figure out things based on the known ends of clues?
    assert_eq!(
        test_skim(tri("🮞1"), "🮞⬛🮟⬜ 🮞⬛🮟⬜ 🮞⬛🮟⬜ 🮞⬛🮟⬜"),
        l("🮞⬛⬜ 🮞⬛⬜ 🮞⬛⬜ 🮞⬛⬜")
    );

    assert_eq!(
        test_skim(tri("🮞2"), "🮞⬛🮟⬜ 🮞⬛🮟⬜ 🮞⬛🮟⬜ 🮞⬛🮟⬜"),
        l("🮞⬛⬜ 🮞⬛ ⬛ 🮞⬛⬜")
    );
}

#[test]
fn heuristic_examples() {
    let x = Cell::new_anything();
    let w = Cell::from_color(Color(0));
    let b = Cell::from_color(Color(1));

    assert_eq!(heur(&[(b, 1)], &[x, x, x, x]), 1);
    assert_eq!(heur(&[(b, 1)], &[w, x, x, x]), 1);
    assert_eq!(heur(&[(b, 2)], &[w, w, x, x]), 3);
    assert_eq!(heur(&[(b, 1), (b, 2)], &[x, x, x, x]), 4);
    assert_eq!(heur(&[(b, 1)], &[x, x, b, x]), 3);
    assert_eq!(heur(&[(b, 3)], &[x, x, x, x]), 5);
    assert_eq!(heur(&[(b, 3)], &[x, b, x, x, x]), 6);

    assert_eq!(
        heur(&[(b, 10)], &[x, x, x, x, x, x, x, x, x, x, x, x, x, x, x]),
        19
    );
    assert_eq!(
        heur(&[(b, 3)], &[x, x, x, x, x, x, x, x, x, x, x, x, x, x, x]),
        5
    );
    assert_eq!(
        heur(&[(b, 3)], &[x, x, x, x, b, x, x, x, x, x, x, x, x, x, x]),
        16
    );
}

#[test]
fn skim_heuristic_examples() {
    let x = Cell::new_anything();
    let w = Cell::from_color(Color(0));
    let b = Cell::from_color(Color(1));
    let no_clues: Vec<Nono> = vec![];
    assert_eq!(skim_heuristic(&no_clues, &vec![x, x, x]), 1000);
    // 3 cells of clues, the longest 2, a longest open run of 4, both ends open.
    assert_eq!(skim_heuristic(&n("⬛1 ⬛2"), &vec![x, x, x, x]), 3 + 2 - 4 + 4);
    // The longest open run is the two cells in the middle; the ends are closed.
    assert_eq!(skim_heuristic(&n("⬛2"), &vec![w, x, b, w, x, w]), 2 + 2 - 2 + 0);
    assert_eq!(skim_heuristic(&n("⬛2"), &vec![x, w, b, x, x]), 2 + 2 - 3 + 4);
}

#[test]
fn bg_squares_counts_what_is_left() {
    assert_eq!(bg_squares(&n("⬛2 🟥3"), 10), 5);
    assert_eq!(bg_squares(&n("⬛6"), 6), 0);
    assert_eq!(bg_squares(&tri("🮞2 3🮟"), 10), 3);
}

#[test]
fn empty_clues_force_all_background() {
    let mut lane = l("🔳 🔳 🔳 🔳");
    let no_clues: Vec<Nono> = vec![];
    let report = skim_line(&no_clues, &mut lane).unwrap();
    assert_eq!(lane, l("⬜ ⬜ ⬜ ⬜"));
    assert_eq!(sorted_set(report.affected_cells), vec![0, 1, 2, 3]);
}

#[test]
fn empty_clues_against_foreground_is_a_contradiction() {
    let mut lane = l("🔳 ⬛ 🔳");
    let no_clues: Vec<Nono> = vec![];
    assert_eq!(skim_line(&no_clues, &mut lane).unwrap_err(), SolveError::Contradiction);
}

#[test]
fn single_clue_of_lane_length_is_determined() {
    let mut lane = l("🔳 🔳 🔳 🔳 🔳 🔳");
    let report = skim_line(&n("⬛6"), &mut lane).unwrap();
    assert_eq!(lane, l("⬛ ⬛ ⬛ ⬛ ⬛ ⬛"));
    assert_eq!(sorted_set(report.affected_cells), vec![0, 1, 2, 3, 4, 5]);
}

#[test]
fn maximal_overlap_deduces_middle_cells() {
    let mut lane = l("🔳 🔳 🔳 🔳");
    let report = skim_line(&n("⬛3"), &mut lane).unwrap();
    assert_eq!(lane, l("🔳 ⬛ ⬛ 🔳"));
    assert_eq!(sorted_set(report.affected_cells), vec![1, 2]);
}

#[test]
fn same_color_clues_require_separator() {
    let mut lane = l("🔳 🔳 🔳 🔳 🔳");
    let report = skim_line(&n("⬛2 ⬛2"), &mut lane).unwrap();
    assert_eq!(lane, l("⬛ ⬛ ⬜ ⬛ ⬛"));
    assert_eq!(sorted_set(report.affected_cells), vec![0, 1, 2, 3, 4]);
}

#[test]
fn different_color_clues_need_no_separator() {
    let mut lane = l("🟥⬛⬜ 🟥⬛⬜ 🟥⬛⬜ 🟥⬛⬜ 🟥⬛⬜");
    let report = skim_line(&n("🟥2 ⬛2"), &mut lane).unwrap();
    assert_eq!(lane, l("🟥⬛⬜ 🟥 🟥⬛⬜ ⬛ 🟥⬛⬜"));
    assert!(lane[3].is_known_to_be(Color(1)));
    assert!(!lane[2].is_known());
    assert_eq!(sorted_set(report.affected_cells), vec![1, 3]);
}

#[test]
fn scrub_strengthens_skim() {
    let mut lane = l("🔳 🔳 🔳 🔳");
    let report = scrub_line(&n("⬛1 ⬛2"), &mut lane).unwrap();
    assert_eq!(lane, l("⬛ ⬜ ⬛ ⬛"));
    assert_eq!(sorted_set(report.affected_cells), vec![0, 1, 2, 3]);

    // With two colors, skimming alone leaves the ends of the lane open.
    let mut skimmed = l("🟥⬛⬜ 🟥⬛⬜ 🟥⬛⬜ 🟥⬛⬜ 🟥⬛⬜");
    skim_line(&n("🟥2 ⬛2"), &mut skimmed).unwrap();
    let mut scrubbed = l("🟥⬛⬜ 🟥⬛⬜ 🟥⬛⬜ 🟥⬛⬜ 🟥⬛⬜");
    let report = scrub_line(&n("🟥2 ⬛2"), &mut scrubbed).unwrap();
    assert_eq!(scrubbed, l("🟥⬜ 🟥 🟥⬛⬜ ⬛ ⬛⬜"));
    assert_eq!(sorted_set(report.affected_cells), vec![0, 1, 3, 4]);
    for i in 0..5 {
        assert_eq!(scrubbed[i].raw() & skimmed[i].raw(), scrubbed[i].raw());
    }
}

#[test]
fn clue_longer_than_lane_is_unsatisfiable() {
    let mut lane = l("🔳 🔳 🔳");
    assert_eq!(skim_line(&n("⬛4"), &mut lane).unwrap_err(), SolveError::UnsatisfiableLine);
    let mut lane = l("🔳 🔳 🔳 🔳");
    assert_eq!(skim_line(&n("⬛2 ⬛2"), &mut lane).unwrap_err(), SolveError::UnsatisfiableLine);
}

#[test]
fn scrub_of_an_impossible_lane_is_a_contradiction() {
    // Whatever the middle cell is, the clue cannot be laid out.
    let mut lane = l("⬜ 🔳 ⬜ ⬛");
    assert_eq!(scrub_line(&n("⬛2"), &mut lane).unwrap_err(), SolveError::Contradiction);
}

/// Every way to lay out the clues in a lane of the given length, as colors.
fn layouts(clues: &[Nono], len: u16) -> Vec<Vec<Color>> {
    let mut res = vec![];
    if clues.is_empty() {
        res.push(vec![background(); len as usize]);
        return res;
    }
    let total: u16 = clues.iter().map(|c| c.count).sum();
    if total > len {
        return res;
    }
    let mut count = PossibleArrangements::new(clues.len() as u16, len - total);
    while let Some(gaps) = count.next() {
        let separated = (1..clues.len())
            .all(|k| !clues[k - 1].must_be_separated_from(&clues[k]) || gaps[k] > 0);
        if separated {
            res.push(Arrangement::new(clues, &gaps, len).collect());
        }
    }
    res
}

fn allowed(lane: &[Cell], colors: &[Color]) -> bool {
    lane.iter().zip(colors.iter()).all(|(cell, color)| cell.can_be(*color))
}

/// Every lane of the given length whose cells are any non-empty set of the
/// three colors 0, 1 and 2, counted through by `code`.
fn lane_from_code(mut code: usize, len: usize) -> Vec<Cell> {
    let mut lane = vec![];
    for _ in 0..len {
        let bits = code % 7 + 1;
        code /= 7;
        let mut cell = Cell::new_impossible();
        for c in 0..3u8 {
            if bits & (1 << c) != 0 {
                cell.actually_could_be(Color(c));
            }
        }
        lane.push(cell);
    }
    lane
}

fn small_clue_vectors() -> Vec<Vec<Nono>> {
    vec![
        vec![],
        n("⬛1"),
        n("⬛2"),
        n("⬛3"),
        n("⬛1 ⬛1"),
        n("⬛1 ⬛2"),
        n("⬛2 🟥1"),
        n("🟥1 ⬛1"),
        n("🟥1 ⬛1 🟥1"),
        n("🟥2 🟥1"),
    ]
}

#[test]
fn deductions_only_narrow_and_lose_no_layout() {
    let len = 4;
    for clues in small_clue_vectors() {
        let all = layouts(&clues, len as u16);
        for code in 0..7usize.pow(len as u32) {
            let before = lane_from_code(code, len);
            let fitting: Vec<&Vec<Color>> = all.iter().filter(|a| allowed(&before, a)).collect();
            for scrub in [false, true] {
                let mut lane = before.clone();
                let result = if scrub {
                    scrub_line(&clues, &mut lane)
                } else {
                    skim_line(&clues, &mut lane)
                };
                for i in 0..len {
                    assert_eq!(lane[i].raw() & before[i].raw(), lane[i].raw());
                }
                match result {
                    Ok(report) => {
                        for a in &fitting {
                            assert!(allowed(&lane, a), "{:?} {:?} lost {:?}", clues, before, a);
                        }
                        let changed: Vec<usize> =
                            (0..len).filter(|i| lane[*i] != before[*i]).collect();
                        assert_eq!(sorted_set(report.affected_cells), changed);
                    }
                    Err(_) => assert!(fitting.is_empty(), "{:?} {:?}", clues, before),
                }
            }
        }
    }
}
