use number_loom::document::Document;
use number_loom::formats::woven::{
    palette_list, palette_of_list, SerializableDocument, SerializablePuzzle, SerializableSolution,
};
use number_loom::puzzle::{ClueStyle, Color, ColorInfo, DynPuzzle, Nono, Puzzle, Solution};
use std::collections::HashMap;

fn bw_infos() -> HashMap<u8, ColorInfo> {
    let mut palette = HashMap::new();
    palette.insert(
        0,
        ColorInfo {
            ch: ' ',
            name: "white".to_string(),
            rgb: (255, 255, 255),
            color: Color(0),
            corner: None,
        },
    );
    palette.insert(
        1,
        ColorInfo {
            ch: '#',
            name: "black".to_string(),
            rgb: (0, 0, 0),
            color: Color(1),
            corner: None,
        },
    );
    palette
}

#[test]
fn test_round_trip_from_puzzle() {
    let palette = bw_infos();

    let puzzle = DynPuzzle::Nono(Puzzle {
        palette,
        rows: vec![vec![Nono {
            color: Color(1),
            count: 1,
        }]],
        cols: vec![vec![Nono {
            color: Color(1),
            count: 1,
        }]],
    });

    let mut doc = Document::new(
        Some(puzzle),
        None,
        "test.webpbn".to_string(),
        Some("Test Title".to_string()),
        Some("Test Description".to_string()),
        Some("Test Author".to_string()),
        Some("Test ID".to_string()),
        Some("Test License".to_string()),
    );

    let s_doc = SerializableDocument::from_document(&mut doc);
    let mut new_doc: Document = s_doc.into_document();

    assert_eq!(doc.file, new_doc.file);
    assert_eq!(doc.title, new_doc.title);
    assert_eq!(doc.description, new_doc.description);
    assert_eq!(doc.author, new_doc.author);
    assert_eq!(doc.id, new_doc.id);
    assert_eq!(doc.license, new_doc.license);
    assert_eq!(doc.puzzle(), new_doc.puzzle());
}

#[test]
fn test_round_trip_from_solution() {
    let palette = bw_infos();

    let solution = Solution {
        clue_style: ClueStyle::Nono,
        palette,
        grid: vec![vec![Color(1)]],
    };

    let mut doc = Document::new(
        None,
        Some(solution),
        "test.webpbn".to_string(),
        Some("Test Title".to_string()),
        Some("Test Description".to_string()),
        Some("Test Author".to_string()),
        Some("Test ID".to_string()),
        Some("Test License".to_string()),
    );

    let s_doc = SerializableDocument::from_document(&mut doc);
    let mut new_doc: Document = s_doc.into_document();

    assert_eq!(doc.file, new_doc.file);
    assert_eq!(doc.title, new_doc.title);
    assert_eq!(doc.description, new_doc.description);
    assert_eq!(doc.author, new_doc.author);
    assert_eq!(doc.id, new_doc.id);
    assert_eq!(doc.license, new_doc.license);
    assert_eq!(doc.puzzle(), new_doc.puzzle());
}

#[test]
fn written_documents_keep_their_words() {
    let solution = Solution { clue_style: ClueStyle::Nono, palette: bw_infos(), grid: vec![vec![Color(1), Color(0)]] };
    let mut doc = Document::new(None, Some(solution), "f".to_string(), Some("t".to_string()), None, None, Some("".to_string()), Some("l".to_string()));
    let written = SerializableDocument::from_document(&mut doc);
    assert_eq!(
        (written.file.as_str(), written.title.as_str(), written.description.as_str(), written.author.as_str()),
        ("f", "t", "", "")
    );
    // Words that are empty are not written.
    assert_eq!((written.id.clone(), written.license.clone()), (None, Some("l".to_string())));
    assert_eq!(written.solution.grid, vec![vec![Color(1), Color(0)]]);
    assert_eq!(written.solution.clue_style, ClueStyle::Nono);
    let read = written.into_document();
    assert_eq!((read.id(), read.license(), read.author(), read.description()), ("", "l", "", ""));
    assert!(read.try_puzzle().is_none());
}

#[test]
fn palettes_are_written_as_lists() {
    let mut palette = bw_infos();
    palette.insert(9, ColorInfo { ch: 'n', name: "nine".to_string(), rgb: (9, 9, 9), color: Color(9), corner: None });
    let list = palette_list(&palette);
    assert_eq!(list.iter().map(|info| info.color).collect::<Vec<_>>(), vec![Color(0), Color(1), Color(9)]);
    assert_eq!(list[2], palette[&9]);
    assert_eq!(palette_of_list(&list), palette);
    // Of two colors with one number the later one stays.
    let twice = vec![palette[&1].clone(), ColorInfo { name: "other".to_string(), ..palette[&1].clone() }];
    assert_eq!(palette_of_list(&twice)[&1].name, "other");
}

#[test]
fn written_puzzles_and_pictures_read_back() {
    let solution = Solution { clue_style: ClueStyle::Nono, palette: bw_infos(), grid: vec![vec![Color(1), Color(0)], vec![Color(0), Color(0)]] };
    let written = SerializableSolution::from_solution(&solution);
    assert_eq!(written.to_solution(), solution);
    let puzzle = solution.to_puzzle();
    let written = SerializablePuzzle::from_puzzle(&puzzle);
    assert!(matches!(written, SerializablePuzzle::Nono { .. }));
    assert_eq!(written.to_puzzle(), puzzle);
}
