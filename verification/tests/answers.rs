use kalypsi::answers::{Answers, SlotDirection};
use kalypsi::matrix::{Cell, Grid};
use kalypsi::selection::{click_cell, corners_at, get_slot, next_word, Corners, Slot};

fn grid_of(rows: &[&str]) -> Grid {
    let width = rows[0].len();
    let mut cells = Vec::new();
    for row in rows {
        for ch in row.chars() {
            cells.push(match ch {
                '#' => None,
                '.' => Some(Cell { letter: ' ' }),
                other => Some(Cell { letter: other }),
            });
        }
    }
    Grid::from_cells(width, cells).unwrap()
}

fn summary(index: &Answers) -> Vec<((usize, usize), Option<(usize, String)>, Option<(usize, String)>)> {
    index
        .heads()
        .iter()
        .map(|h| {
            (
                h.head,
                h.across.as_ref().map(|w| (w.answer.len(), w.clue.clone())),
                h.down.as_ref().map(|w| (w.answer.len(), w.clue.clone())),
            )
        })
        .collect()
}

#[test]
fn index_holds_one_head_per_run_start() {
    let grid = grid_of(&["..#..", ".#...", "....#"]);
    let index = Answers::new(None, &grid);
    let clue = "Enter a clue".to_string();
    assert_eq!(
        summary(&index),
        vec![
            ((0, 0), Some((2, clue.clone())), Some((3, clue.clone()))),
            ((3, 0), Some((2, clue.clone())), Some((3, clue.clone()))),
            ((4, 0), None, Some((2, clue.clone()))),
            ((2, 1), Some((3, clue.clone())), Some((2, clue.clone()))),
            ((0, 2), Some((4, clue.clone())), None),
        ]
    );
}

#[test]
fn slots_list_their_cells_in_order() {
    let grid = grid_of(&["..#..", ".#...", "....#"]);
    let index = Answers::new(None, &grid);
    let head = index.get((2, 1)).unwrap();
    assert_eq!(head.across.as_ref().unwrap().answer, vec![(2, 1), (3, 1), (4, 1)]);
    assert_eq!(head.down.as_ref().unwrap().answer, vec![(2, 1), (2, 2)]);
    assert_eq!(head.word(true).as_ref().unwrap().answer.len(), 3);
    assert_eq!(head.word(false).as_ref().unwrap().answer.len(), 2);
    assert!(index.get((1, 0)).is_none());
    assert!(index.get((9, 9)).is_none());
    assert_eq!(index.position_of((2, 1)), Some(3));
    assert_eq!(index.position_of((1, 1)), None);
}

#[test]
fn empty_board_has_an_empty_index() {
    let grid = grid_of(&["#"]);
    let index = Answers::new(None, &grid);
    assert!(index.heads().is_empty());
    assert!(Answers::default().heads().is_empty());
    assert!(Answers::default().get((0, 0)).is_none());
}

#[test]
fn rebuilding_from_an_unchanged_board_changes_nothing() {
    let grid = grid_of(&["..#..", ".#...", "....#"]);
    let mut first = Answers::new(None, &grid);
    assert!(first.set_clue((0, 0), true, "Two letters".to_string()));
    assert!(first.set_clue((2, 1), false, "Short".to_string()));
    let second = Answers::new(Some(&first), &grid);
    let third = Answers::new(Some(&second), &grid);
    assert_eq!(summary(&second), summary(&first));
    assert_eq!(summary(&third), summary(&second));
}

#[test]
fn annotation_survives_while_the_run_keeps_its_length() {
    let grid = grid_of(&[".....#", "......"]);
    let mut index = Answers::new(None, &grid);
    assert!(index.set_clue((0, 0), true, "Five across".to_string()));
    let mut changed = grid_of(&[".....#", "......"]);
    changed.set_cell((2, 0), 'q');
    changed.toggle_cell((5, 1));
    let rebuilt = Answers::new(Some(&index), &changed);
    let head = rebuilt.get((0, 0)).unwrap();
    let across = head.across.as_ref().unwrap();
    assert_eq!(across.answer.len(), 5);
    assert_eq!(across.clue, "Five across");
}

#[test]
fn annotation_resets_when_the_run_changes_its_length() {
    let grid = grid_of(&[".....#", "......"]);
    let mut index = Answers::new(None, &grid);
    assert!(index.set_clue((0, 0), true, "Five across".to_string()));
    let mut changed = grid_of(&[".....#", "......"]);
    changed.toggle_cell((4, 0));
    let rebuilt = Answers::new(Some(&index), &changed);
    let across = rebuilt.get((0, 0)).unwrap().across.as_ref().unwrap();
    assert_eq!(across.answer.len(), 4);
    assert_eq!(across.clue, "Enter a clue");
}

#[test]
fn annotation_is_kept_per_orientation() {
    let grid = grid_of(&["...", "...", "..."]);
    let mut index = Answers::new(None, &grid);
    assert!(index.set_clue((0, 0), false, "Down".to_string()));
    assert!(!index.set_clue((1, 0), true, "No such slot".to_string()));
    assert!(!index.set_clue((1, 1), true, "No such head".to_string()));
    let rebuilt = Answers::new(Some(&index), &grid);
    let head = rebuilt.get((0, 0)).unwrap();
    assert_eq!(head.down.as_ref().unwrap().clue, "Down");
    assert_eq!(head.across.as_ref().unwrap().clue, "Enter a clue");
}

#[test]
fn annotation_does_not_survive_the_loss_of_the_run() {
    let grid = grid_of(&["...", "###"]);
    let mut index = Answers::new(None, &grid);
    assert!(index.set_clue((0, 0), true, "Three".to_string()));
    let mut changed = grid_of(&["...", "###"]);
    changed.toggle_cell((0, 0));
    let without = Answers::new(Some(&index), &changed);
    assert!(without.get((0, 0)).is_none());
    let back = Answers::new(Some(&without), &grid);
    assert_eq!(back.get((0, 0)).unwrap().across.as_ref().unwrap().clue, "Enter a clue");
}

#[test]
fn answer_map_files_every_cell_of_a_run() {
    let grid = grid_of(&["..#..", ".#...", "....#"]);
    let index = Answers::new(None, &grid);
    let map = index.answer_map();
    assert_eq!(map.get((0, 0), true), Some(0));
    assert_eq!(map.get((1, 0), true), Some(0));
    assert_eq!(map.get((2, 0), true), None);
    assert_eq!(map.get((3, 0), true), Some(1));
    assert_eq!(map.get((4, 0), true), Some(1));
    assert_eq!(map.get((4, 0), false), Some(2));
    assert_eq!(map.get((4, 1), false), Some(2));
    assert_eq!(map.get((4, 1), true), Some(3));
    assert_eq!(map.get((3, 2), true), Some(4));
    assert_eq!(map.get((3, 2), false), Some(1));
    assert_eq!(map.get((1, 2), false), None);
    assert_eq!(map.get((0, 3), true), None);
    assert_eq!(map.get((5, 0), false), None);
    assert_eq!(map.get((usize::MAX, usize::MAX), true), None);
}

#[test]
fn slot_under_a_cell_has_the_caret_on_it() {
    let grid = grid_of(&["..#..", ".#...", "....#"]);
    let index = Answers::new(None, &grid);
    let map = index.answer_map();
    assert_eq!(
        get_slot(&index, &map, (3, 2), true),
        Some(Slot { head: (0, 2), len: 4, is_across: true, caret_position: 3 })
    );
    assert_eq!(
        get_slot(&index, &map, (3, 2), false),
        Some(Slot { head: (3, 0), len: 3, is_across: false, caret_position: 2 })
    );
    assert_eq!(get_slot(&index, &map, (1, 2), false), None);
    assert_eq!(get_slot(&index, &map, (2, 0), true), None);
    assert_eq!(get_slot(&index, &map, (7, 7), true), None);
}

#[test]
fn caret_moves_within_the_slot() {
    let mut slot = Slot { head: (1, 2), len: 3, is_across: true, caret_position: 1 };
    assert_eq!(slot.caret_cell(), (2, 2));
    slot.advance_caret();
    slot.advance_caret();
    assert_eq!(slot.caret_position, 3);
    assert!(slot.hide_caret());
    slot.advance_caret();
    assert_eq!(slot.caret_position, 3);
    slot.retreat_caret();
    assert!(!slot.hide_caret());
    slot.retreat_caret();
    slot.retreat_caret();
    slot.retreat_caret();
    assert_eq!(slot.caret_position, 0);
    let down = Slot { head: (1, 2), len: 3, is_across: false, caret_position: 2 };
    assert_eq!(down.caret_cell(), (1, 4));
}

#[test]
fn click_picks_the_orientation() {
    let across = Slot { head: (0, 0), len: 3, is_across: true, caret_position: 1 };
    let down = Slot { head: (1, 0), len: 3, is_across: false, caret_position: 0 };
    assert_eq!(click_cell(None, true, (1, 0), true, Some(across), Some(down)), Some(across));
    assert_eq!(click_cell(None, false, (1, 0), true, Some(across), Some(down)), Some(down));
    assert_eq!(click_cell(None, true, (1, 0), true, None, Some(down)), Some(down));
    assert_eq!(click_cell(None, false, (1, 0), true, Some(across), None), Some(across));
    assert_eq!(click_cell(None, true, (1, 0), true, None, None), None);
    let active = Some((across, (1, 0)));
    assert_eq!(click_cell(active, true, (1, 0), true, Some(across), Some(down)), Some(down));
    assert_eq!(click_cell(active, true, (2, 0), true, Some(across), Some(down)), Some(across));
    assert_eq!(click_cell(active, true, (9, 9), false, None, None), Some(across));
    let active_down = Some((down, (1, 0)));
    assert_eq!(click_cell(active_down, true, (1, 0), true, Some(across), Some(down)), Some(across));
    assert_eq!(click_cell(active_down, true, (1, 1), true, Some(across), Some(down)), Some(down));
}

#[test]
fn next_word_goes_round() {
    let grid = grid_of(&["..#..", ".#...", "....#"]);
    let index = Answers::new(None, &grid);
    let across = |head, len| Slot { head, len, is_across: true, caret_position: 0 };
    let down = |head, len| Slot { head, len, is_across: false, caret_position: 0 };
    let at = Slot { head: (0, 0), len: 2, is_across: true, caret_position: 1 };
    assert_eq!(next_word(&index, at), Some(across((3, 0), 2)));
    assert_eq!(next_word(&index, across((3, 0), 2)), Some(across((2, 1), 3)));
    assert_eq!(next_word(&index, across((0, 2), 4)), Some(across((0, 0), 2)));
    assert_eq!(next_word(&index, down((2, 1), 2)), Some(down((0, 0), 3)));
    assert_eq!(next_word(&index, down((3, 0), 3)), Some(down((4, 0), 2)));
    assert_eq!(next_word(&index, across((1, 1), 2)), None);
    let single = Answers::new(None, &grid_of(&["..", "##"]));
    assert_eq!(next_word(&single, across((0, 0), 2)), Some(across((0, 0), 2)));
    assert_eq!(next_word(&single, down((0, 0), 2)), None);
}

#[test]
fn corners_are_round_where_both_sides_are_walled() {
    let grid = grid_of(&["..#", "...", "#.."]);
    assert_eq!(
        corners_at(&grid, (0, 0)),
        Corners { top_left: true, top_right: false, bottom_left: false, bottom_right: false }
    );
    assert_eq!(
        corners_at(&grid, (1, 0)),
        Corners { top_left: false, top_right: true, bottom_left: false, bottom_right: false }
    );
    assert_eq!(
        corners_at(&grid, (1, 1)),
        Corners { top_left: false, top_right: false, bottom_left: false, bottom_right: false }
    );
    assert_eq!(
        corners_at(&grid, (2, 2)),
        Corners { top_left: false, top_right: false, bottom_left: false, bottom_right: true }
    );
    assert_eq!(
        corners_at(&grid, (0, 1)),
        Corners { top_left: false, top_right: false, bottom_left: true, bottom_right: false }
    );
}

#[test]
fn slot_directions_are_two() {
    assert!(matches!(SlotDirection::Down, SlotDirection::Down));
    assert!(!matches!(SlotDirection::Across, SlotDirection::Down));
}

#[test]
fn heads_are_numbered_from_one() {
    let grid = grid_of(&["..#..", ".#...", "....#"]);
    let index = Answers::new(None, &grid);
    assert_eq!(index.answer_id_at((0, 0)), Some(1));
    assert_eq!(index.answer_id_at((3, 0)), Some(2));
    assert_eq!(index.answer_id_at((0, 2)), Some(5));
    assert_eq!(index.answer_id_at((1, 0)), None);
    assert!(grid.cell_exists((0, 0)));
    assert!(!grid.cell_exists((2, 0)));
    assert!(!grid.cell_exists((5, 0)));
}
