use kalypsi::matrix::{Cell, Grid};
use kalypsi::runs::{find_runs, Run};
use kalypsi::score::{avg_gap, consider, count_gap, Score};

fn board(rows: &[&str]) -> Grid {
    let width = rows[0].len();
    let mut cells = Vec::new();
    for row in rows {
        assert_eq!(row.len(), width);
        for ch in row.chars() {
            cells.push(match ch {
                '#' => None,
                '.' => Some(Cell { letter: ' ' }),
                other => Some(Cell { letter: other }),
            });
        }
    }
    Grid::from_cells(width, cells).unwrap()
}

fn covered(run: &Run) -> Vec<(usize, usize)> {
    (0..run.2)
        .map(|k| if run.3 { (run.0 + k, run.1) } else { (run.0, run.1 + k) })
        .collect()
}

#[test]
fn open_square_has_a_run_in_every_row_and_column() {
    let grid = board(&["...", "...", "..."]);
    let runs = find_runs(&grid);
    assert_eq!(
        runs,
        vec![
            (0, 0, 3, true),
            (0, 0, 3, false),
            (1, 0, 3, false),
            (2, 0, 3, false),
            (0, 1, 3, true),
            (0, 2, 3, true),
        ]
    );
}

#[test]
fn single_cell_board_has_no_runs() {
    let grid = board(&["."]);
    assert_eq!(find_runs(&grid), Vec::<Run>::new());
}

#[test]
fn blocked_board_has_no_runs() {
    let grid = board(&["##", "##"]);
    assert!(find_runs(&grid).is_empty());
}

#[test]
fn isolated_cells_are_not_runs() {
    let grid = board(&[".#.", "#.#", ".#."]);
    assert!(find_runs(&grid).is_empty());
}

#[test]
fn runs_stop_at_blocks_and_come_in_reading_order() {
    let grid = board(&["..#..", ".#...", "....#"]);
    let runs = find_runs(&grid);
    assert_eq!(
        runs,
        vec![
            (0, 0, 2, true),
            (0, 0, 3, false),
            (3, 0, 2, true),
            (3, 0, 3, false),
            (4, 0, 2, false),
            (2, 1, 3, true),
            (2, 1, 2, false),
            (0, 2, 4, true),
        ]
    );
}

#[test]
fn every_run_has_two_cells_and_runs_of_one_orientation_are_disjoint() {
    let grid = board(&["..#....", ".#..#..", "...#...", "#......", "..#.#.."]);
    let runs = find_runs(&grid);
    assert!(!runs.is_empty());
    for run in &runs {
        assert!(run.2 >= 2);
    }
    for (i, a) in runs.iter().enumerate() {
        for b in runs.iter().skip(i + 1) {
            if a.3 == b.3 {
                for cell in covered(a) {
                    assert!(!covered(b).contains(&cell));
                }
            }
        }
    }
}

#[test]
fn runs_are_maximal() {
    let grid = board(&["..#....", ".#..#..", "...#...", "#......", "..#.#.."]);
    let open = |x: isize, y: isize| {
        x >= 0 && y >= 0 && grid.char_at((x as usize, y as usize)).is_some()
    };
    for run in find_runs(&grid) {
        let (dx, dy) = if run.3 { (1, 0) } else { (0, 1) };
        let (x, y) = (run.0 as isize, run.1 as isize);
        assert!(!open(x - dx, y - dy));
        assert!(!open(x + dx * run.2 as isize, y + dy * run.2 as isize));
        for k in 0..run.2 as isize {
            assert!(open(x + dx * k, y + dy * k));
        }
    }
}

#[test]
fn default_board_is_fifteen_by_fifteen_and_open() {
    let grid = Grid::new();
    let runs = find_runs(&grid);
    assert_eq!(runs.len(), 30);
    assert!(runs.iter().all(|r| r.2 == 15));
}

#[test]
fn board_rejects_cells_that_do_not_fill_rows() {
    assert!(Grid::from_cells(0, Vec::new()).is_none());
    assert!(Grid::from_cells(2, vec![None, None, None]).is_none());
    assert!(Grid::from_cells(2, vec![None, None, None, None]).is_some());
}

#[test]
fn toggling_and_blocking_cells() {
    let mut grid = board(&["a.", ".."]);
    grid.toggle_cell((0, 0));
    assert_eq!(grid.char_at((0, 0)), None);
    grid.toggle_cell((0, 0));
    assert_eq!(grid.char_at((0, 0)), Some(' '));
    grid.set_cell((1, 1), 'x');
    assert_eq!(grid.char_at((1, 1)), Some('x'));
    grid.black((1, 1), false);
    assert_eq!(grid.char_at((1, 1)), Some('x'));
    grid.black((1, 1), true);
    assert_eq!(grid.char_at((1, 1)), None);
    grid.set_cell((1, 1), 'y');
    assert_eq!(grid.char_at((1, 1)), None);
    grid.black((1, 1), false);
    assert_eq!(grid.char_at((1, 1)), Some(' '));
    grid.black((5, 5), true);
    grid.toggle_cell((2, 0));
    assert_eq!(grid.get((2, 0)), None);
    assert_eq!(find_runs(&grid).len(), 4);
}

#[test]
fn score_counts_words_and_averages_in_thousandths() {
    let runs: Vec<Run> = vec![(0, 0, 3, true), (0, 1, 3, true), (0, 0, 2, false)];
    let score = Score::of(&runs);
    assert_eq!(score.word_count, 3);
    assert_eq!(score.avg_len, Some(2666));
    assert!(score.within(&(2000..3000), &(3..4)));
    assert!(!score.within(&(2000..2666), &(3..4)));
    assert!(!score.within(&(2000..3000), &(4..9)));
}

#[test]
fn score_of_no_runs_has_no_average() {
    let score = Score::of(&Vec::new());
    assert_eq!(score.word_count, 0);
    assert_eq!(score.avg_len, None);
    assert!(!score.within(&(0..10), &(0..10)));
}

#[test]
fn score_of_the_open_default_board() {
    let score = Score::of(&find_runs(&Grid::new()));
    assert_eq!(score.word_count, 30);
    assert_eq!(score.avg_len, Some(15000));
}

#[test]
fn gaps_to_a_target_range() {
    assert_eq!(count_gap(&(40..73), 40), 0);
    assert_eq!(count_gap(&(40..73), 72), 0);
    assert_eq!(count_gap(&(40..73), 73), 0);
    assert_eq!(count_gap(&(40..73), 30), 10);
    assert_eq!(count_gap(&(40..73), 80), 7);
    assert_eq!(count_gap(&(40..73), 0), 40);
    assert_eq!(avg_gap(&(5200..5500), 5300), 0);
    assert_eq!(avg_gap(&(5200..5500), 15000), 9500);
    assert_eq!(avg_gap(&(5200..5500), 5000), 200);
    assert_eq!(avg_gap(&(5..5), 7), 2);
}

#[test]
fn an_outcome_inside_both_ranges_is_kept_and_ends_the_search() {
    let score = Score { word_count: 50, avg_len: Some(5300) };
    assert_eq!(consider(u128::MAX, usize::MAX, score, &(5200..5500), &(40..73)), (true, true));
    assert_eq!(consider(0, 0, score, &(5200..5500), &(40..73)), (true, true));
    assert_eq!(avg_gap(&(5200..5500), 5300), 0);
    assert_eq!(count_gap(&(40..73), 50), 0);
}

#[test]
fn an_outcome_is_kept_while_neither_distance_is_larger() {
    let avg = 5200..5500;
    let count = 40..73;
    let score = Score { word_count: 30, avg_len: Some(6000) };
    assert_eq!(avg_gap(&avg, 6000), 500);
    assert_eq!(count_gap(&count, 30), 10);
    assert_eq!(consider(u128::MAX, usize::MAX, score, &avg, &count), (true, false));
    assert_eq!(consider(500, 10, score, &avg, &count), (true, false));
    assert_eq!(consider(501, 11, score, &avg, &count), (true, false));
    assert_eq!(consider(499, 10, score, &avg, &count), (false, false));
    assert_eq!(consider(500, 9, score, &avg, &count), (false, false));
    assert_eq!(consider(0, usize::MAX, score, &avg, &count), (false, false));
}

#[test]
fn an_outcome_without_words_is_never_kept() {
    let score = Score { word_count: 0, avg_len: None };
    assert_eq!(consider(u128::MAX, usize::MAX, score, &(5200..5500), &(40..73)), (false, false));
    assert_eq!(consider(u128::MAX, usize::MAX, score, &(0..10), &(0..10)), (false, false));
}

#[test]
fn an_outcome_on_the_upper_bound_is_kept_but_does_not_end_the_search() {
    let score = Score { word_count: 73, avg_len: Some(5500) };
    assert_eq!(consider(0, 0, score, &(5200..5500), &(40..73)), (true, false));
}
