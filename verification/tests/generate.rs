use kalypsi::generate::{
    apply_layout, fill_blacks, Cell as State, Direction, GridGenerator, Symmetry, MAX_ITERS,
};
use kalypsi::matrix::{BoolMatrix, Cell, Grid, TriBoolMatrix};
use kalypsi::runs::find_runs;
use kalypsi::score::{avg_gap, count_gap, Score};

fn grid_of(rows: &[&str]) -> Grid {
    let width = rows[0].len();
    let mut cells = Vec::new();
    for row in rows {
        for ch in row.chars() {
            cells.push(match ch {
                '#' => None,
                '.' => Some(Cell { letter: ' ' }),
                other => Some(Cell { letter: other }),
            });
        }
    }
    Grid::from_cells(width, cells).unwrap()
}

fn layout_grid(width: usize, layout: &[bool]) -> Grid {
    let cells = layout
        .iter()
        .map(|black| if *black { None } else { Some(Cell { letter: ' ' }) })
        .collect();
    Grid::from_cells(width, cells).unwrap()
}

#[test]
fn directions_come_left_right_down_up() {
    let mut it = Direction::iter();
    assert!(matches!(it.next(), Some(Direction::Left)));
    assert!(matches!(it.next(), Some(Direction::Right)));
    assert!(matches!(it.next(), Some(Direction::Down)));
    assert!(matches!(it.next(), Some(Direction::Up)));
    assert!(it.next().is_none());
    assert!(matches!(Direction::Left.opposite(), Direction::Right));
    assert!(matches!(Direction::Up.opposite(), Direction::Down));
}

#[test]
fn half_turn_about_the_centre() {
    assert_eq!(Symmetry::Point.rotate((0, 0), 15, 15), Some((14, 14)));
    assert_eq!(Symmetry::Point.rotate((3, 11), 15, 15), Some((11, 3)));
    assert_eq!(Symmetry::Point.rotate((7, 7), 15, 15), Some((7, 7)));
    assert_eq!(Symmetry::Quarter.rotate((1, 0), 4, 3), Some((2, 2)));
    assert_eq!(Symmetry::Point.rotate((-1, 2), 5, 4), Some((5, 1)));
    assert_eq!(Symmetry::NoSymmetry.rotate((1, 0), 4, 3), None);
}

#[test]
fn cell_can_take_a_block_while_free_on_all_sides() {
    let mut cell = State::default();
    assert!(cell.can_place());
    cell.set(Direction::Up, false);
    assert!(!cell.can_place());
    cell.set(Direction::Up, true);
    assert!(cell.can_place());
    cell.place();
    assert!(!cell.can_place());
    cell.set(Direction::Left, true);
    assert!(matches!(cell, State::Black));
    let reserved = State::White { reserved: true, left: true, right: true, up: true, down: true };
    assert!(!reserved.can_place());
}

#[test]
fn seeding_blocks_what_the_board_does_not_hold() {
    let grid = grid_of(&["..#", "a..", "#.."]);
    let generator = GridGenerator::with_symmetry(&grid, Symmetry::NoSymmetry, 7);
    assert_eq!(
        generator.cells(),
        vec![false, false, true, false, false, false, true, false, false]
    );
}

#[test]
fn seeded_generator_reads_as_the_board() {
    let grid = grid_of(&["..#.", "a...", "#..."]);
    let generator = GridGenerator::with_symmetry(&grid, Symmetry::Point, 1);
    assert_eq!((&generator).cols(), 4);
    assert_eq!((&generator).rows(), 3);
    for y in 0..3 {
        for x in 0..4 {
            assert_eq!((&generator).at((x, y)), (&grid).at((x, y)));
        }
    }
    assert!(!(&generator).at((4, 0)));
    assert!(!(&generator).at((0, 3)));
    assert_eq!((&grid).maybe_at((0, 1)), Some(false));
    assert_eq!((&grid).maybe_at((1, 1)), Some(true));
    assert_eq!((&grid).maybe_at((0, 2)), None);
    assert_eq!(find_runs(&generator), find_runs(&grid));
}

#[test]
fn single_cell_board_stays_as_seeded() {
    let grid = grid_of(&["."]);
    let mut generator = GridGenerator::with_symmetry(&grid, Symmetry::NoSymmetry, 3);
    assert!(find_runs(&generator).is_empty());
    let report = generator.place_blacks(5200..5500, 40..73);
    assert_eq!(report.iters, MAX_ITERS);
    assert!(!report.accepted);
    assert_eq!(report.best, None);
    assert_eq!(generator.cells(), vec![false]);
}

#[test]
fn board_without_room_stays_as_seeded() {
    let grid = grid_of(&["..", ".."]);
    let mut generator = GridGenerator::with_symmetry(&grid, Symmetry::Point, 11);
    let report = generator.place_blacks(5200..5500, 40..73);
    assert_eq!(report.iters, MAX_ITERS);
    assert!(!report.accepted);
    assert_eq!(report.best, Some((3200, 36)));
    assert_eq!(generator.cells(), vec![false, false, false, false]);
}

#[test]
fn board_on_target_stays_as_seeded() {
    let grid = Grid::new();
    let mut generator = GridGenerator::with_symmetry(&grid, Symmetry::Point, 5);
    let report = generator.place_blacks(15000..15001, 30..31);
    assert_eq!(report.iters, 1);
    assert!(report.accepted);
    assert_eq!(report.best, Some((0, 0)));
    assert!(generator.cells().iter().all(|black| !black));
}

#[test]
fn fifteen_by_fifteen_with_point_symmetry() {
    let grid = Grid::new();
    let mut generator = GridGenerator::new(&grid);
    let report = generator.place_blacks(5200..5500, 40..73);
    assert!(report.iters >= 1 && report.iters <= MAX_ITERS);
    let layout = generator.cells();
    assert_eq!(layout.len(), 225);
    assert!(layout.iter().any(|black| *black));
    for i in 0..225 {
        assert_eq!(layout[i], layout[224 - i]);
    }
    let result = layout_grid(15, &layout);
    let runs = find_runs(&result);
    let score = Score::of(&runs);
    assert_eq!(score.word_count, runs.len());
    assert!(runs.iter().all(|r| r.2 >= 2));
    if let Some(avg) = score.avg_len {
        let total: usize = runs.iter().map(|r| r.2).sum();
        assert_eq!(avg as usize, total * 1000 / runs.len());
        assert_eq!(
            report.best,
            Some((avg_gap(&(5200..5500), avg), count_gap(&(40..73), score.word_count)))
        );
        assert_eq!(report.accepted, score.within(&(5200..5500), &(40..73)));
        if score.within(&(5200..5500), &(40..73)) {
            assert_eq!(report.best, Some((0, 0)));
        } else {
            assert_eq!(report.iters, MAX_ITERS);
        }
    } else {
        assert_eq!(report.best, None);
    }
}

#[test]
fn same_seed_gives_the_same_layout() {
    let grid = grid_of(&[".......", ".......", ".......", ".......", ".......", ".......", "......."]);
    let mut one = GridGenerator::with_symmetry(&grid, Symmetry::Point, 42);
    let mut two = GridGenerator::with_symmetry(&grid, Symmetry::Point, 42);
    one.place_blacks(3000..3500, 8..13);
    two.place_blacks(3000..3500, 8..13);
    assert_eq!(one.cells(), two.cells());
}

#[test]
fn placements_keep_the_point_symmetry() {
    let grid = grid_of(&[".........", ".........", ".........", ".........", ".........", ".........", "........."]);
    for seed in 0..8 {
        let mut generator = GridGenerator::with_symmetry(&grid, Symmetry::Point, seed);
        generator.place_blacks(3000..4000, 14..25);
        let layout = generator.cells();
        let n = layout.len();
        for i in 0..n {
            assert_eq!(layout[i], layout[n - 1 - i]);
        }
    }
}

#[test]
fn placements_keep_the_quarter_symmetry() {
    let grid = grid_of(&[".........", ".........", ".........", ".........", ".........", ".........", "........."]);
    for seed in 0..8 {
        let mut generator = GridGenerator::with_symmetry(&grid, Symmetry::Quarter, seed);
        generator.place_blacks(3000..4000, 14..25);
        let layout = generator.cells();
        for y in 0..7 {
            for x in 0..9 {
                let here = layout[y * 9 + x];
                assert_eq!(here, layout[y * 9 + (8 - x)]);
                assert_eq!(here, layout[(6 - y) * 9 + x]);
                assert_eq!(here, layout[(6 - y) * 9 + (8 - x)]);
            }
        }
    }
}

#[test]
fn blocks_are_never_placed_side_by_side_or_on_the_edge() {
    let grid = grid_of(&[".........", ".........", ".........", ".........", ".........", ".........", "........."]);
    for seed in 0..8 {
        let mut generator = GridGenerator::with_symmetry(&grid, Symmetry::NoSymmetry, seed);
        generator.place_blacks(2000..2500, 20..40);
        let layout = generator.cells();
        for y in 0..7 {
            for x in 0..9 {
                if layout[y * 9 + x] {
                    assert!(x > 0 && x < 8 && y > 0 && y < 6);
                    assert!(!layout[y * 9 + x + 1]);
                    assert!(!layout[(y + 1) * 9 + x]);
                }
            }
        }
    }
}

#[test]
fn a_block_two_cells_away_is_allowed() {
    let grid = grid_of(&[".......", ".......", "......."]);
    let mut seen_gap_of_one = false;
    for seed in 0..64 {
        let mut generator = GridGenerator::with_symmetry(&grid, Symmetry::NoSymmetry, seed);
        generator.place_blacks(1000..1500, 9..12);
        let layout = generator.cells();
        for x in 1..4 {
            if layout[7 + x] && layout[7 + x + 2] {
                seen_gap_of_one = true;
            }
        }
    }
    assert!(seen_gap_of_one);
}

#[test]
fn black_cells_stay_black() {
    let grid = grid_of(&["....#....", ".........", "..#......", ".........", "......#..", ".........", "....#...."]);
    for seed in 0..8 {
        let mut generator = GridGenerator::with_symmetry(&grid, Symmetry::Point, seed);
        let before = GridGenerator::with_symmetry(&grid, Symmetry::Point, seed).cells();
        generator.place_blacks(3000..4000, 14..25);
        let after = generator.cells();
        for i in 0..before.len() {
            if before[i] {
                assert!(after[i]);
            }
        }
    }
}

#[test]
fn reserved_cells_are_never_blocked() {
    let grid = grid_of(&[".........", "...word..", ".........", "....x....", ".........", "..two....", "........."]);
    let reserved = [(3, 1), (4, 1), (5, 1), (6, 1), (4, 3), (2, 5), (3, 5), (4, 5)];
    for seed in 0..6 {
        for targets in [(3000..4000, 14..25), (1000..1200, 60..90), (9000..9001, 1..2)] {
            let mut generator = GridGenerator::with_symmetry(&grid, Symmetry::Point, seed);
            generator.place_blacks(targets.0, targets.1);
            let layout = generator.cells();
            for (x, y) in reserved {
                assert!(!layout[y * 9 + x]);
            }
        }
    }
}

#[test]
fn search_budget_is_ten_thousand() {
    assert_eq!(MAX_ITERS, 10000);
}

fn open_board(width: usize, height: usize) -> Grid {
    Grid::from_cells(width, vec![Some(Cell { letter: ' ' }); width * height]).unwrap()
}

fn count_black(generator: &GridGenerator) -> usize {
    let mut n = 0;
    for y in 0..(&*generator).rows() {
        for x in 0..(&*generator).cols() {
            if !(&*generator).at((x, y)) {
                n += 1;
            }
        }
    }
    n
}

#[test]
fn seeding_clears_the_flags_along_the_edge() {
    let generator = GridGenerator::with_symmetry(&open_board(7, 7), Symmetry::NoSymmetry, 1);
    assert!(matches!(
        generator.get((0, 0)),
        Some(State::White { reserved: false, left: false, right: true, up: false, down: true })
    ));
    assert!(matches!(
        generator.get((6, 3)),
        Some(State::White { reserved: false, left: true, right: false, up: true, down: true })
    ));
    assert!(matches!(
        generator.get((3, 6)),
        Some(State::White { reserved: false, left: true, right: true, up: true, down: false })
    ));
    assert!(generator.get((1, 1)).unwrap().can_place());
    assert!(generator.get((-1, 0)).is_none());
    assert!(generator.get((0, -1)).is_none());
    assert!(generator.get((7, 0)).is_none());
    assert!(generator.get((0, 7)).is_none());
}

#[test]
fn seeding_clears_the_flags_next_to_blocked_cells_and_reserves_content() {
    let grid = grid_of(&[".....", "..#..", ".a...", "....."]);
    let generator = GridGenerator::with_symmetry(&grid, Symmetry::Point, 1);
    assert!(matches!(generator.get((2, 1)), Some(State::Black)));
    assert!(matches!(
        generator.get((1, 1)),
        Some(State::White { reserved: false, left: true, right: false, up: true, down: true })
    ));
    assert!(matches!(
        generator.get((3, 1)),
        Some(State::White { reserved: false, left: false, right: true, up: true, down: true })
    ));
    assert!(matches!(
        generator.get((2, 2)),
        Some(State::White { reserved: false, left: true, right: true, up: false, down: true })
    ));
    assert!(matches!(
        generator.get((1, 2)),
        Some(State::White { reserved: true, left: true, right: true, up: true, down: true })
    ));
    assert!(matches!(generator.get((3, 2)), Some(State::White { reserved: false, .. })));
}

#[test]
fn a_block_marks_the_cells_next_to_it_and_no_others() {
    let mut generator = GridGenerator::with_symmetry(&open_board(9, 9), Symmetry::NoSymmetry, 1);
    generator.block((4, 4), 3);
    assert!(matches!(generator.get((4, 4)), Some(State::Black)));
    assert!(matches!(
        generator.get((3, 4)),
        Some(State::White { reserved: false, left: true, right: false, up: true, down: true })
    ));
    assert!(matches!(
        generator.get((5, 4)),
        Some(State::White { reserved: false, left: false, right: true, up: true, down: true })
    ));
    assert!(matches!(
        generator.get((4, 3)),
        Some(State::White { reserved: false, left: true, right: true, up: true, down: false })
    ));
    assert!(matches!(
        generator.get((4, 5)),
        Some(State::White { reserved: false, left: true, right: true, up: false, down: true })
    ));
    for far in [(2, 4), (1, 4), (6, 4), (7, 4), (4, 2), (4, 1), (4, 6), (4, 7), (3, 3), (5, 5)] {
        assert!(generator.get(far).unwrap().can_place());
    }
    assert_eq!(count_black(&generator), 1);
}

#[test]
fn a_walk_of_no_steps_marks_nothing() {
    let mut generator = GridGenerator::with_symmetry(&open_board(5, 5), Symmetry::NoSymmetry, 1);
    generator.block((2, 2), 0);
    assert!(matches!(generator.get((2, 2)), Some(State::Black)));
    assert!(generator.get((1, 2)).unwrap().can_place());
    assert!(generator.get((2, 1)).unwrap().can_place());
    generator.block((9, 9), 3);
    assert_eq!(count_black(&generator), 1);
}

#[test]
fn reserving_a_cell_forbids_a_block_on_it() {
    let mut generator = GridGenerator::with_symmetry(&open_board(5, 5), Symmetry::NoSymmetry, 1);
    assert!(generator.get((2, 2)).unwrap().can_place());
    generator.reserve((2, 2));
    assert!(matches!(
        generator.get((2, 2)),
        Some(State::White { reserved: true, left: true, right: true, up: true, down: true })
    ));
    assert!(!generator.get((2, 2)).unwrap().can_place());
    generator.reserve((7, 7));
    assert_eq!(generator.placeables((0, 2, 5, true)), vec![(1, 2), (3, 2)]);
}

#[test]
fn orbits_under_each_symmetry() {
    let grid = open_board(5, 5);
    let point = GridGenerator::with_symmetry(&grid, Symmetry::Point, 1);
    assert_eq!(point.reflect((2, 2)), vec![(2, 2)]);
    assert_eq!(point.reflect((0, 1)), vec![(0, 1), (4, 3)]);
    assert_eq!(point.reflect((4, 4)), vec![(4, 4), (0, 0)]);
    let quarter = GridGenerator::with_symmetry(&grid, Symmetry::Quarter, 1);
    assert_eq!(quarter.reflect((0, 1)), vec![(0, 1), (4, 3), (0, 3), (4, 1)]);
    assert_eq!(quarter.reflect((2, 1)), vec![(2, 1), (2, 3)]);
    assert_eq!(quarter.reflect((1, 2)), vec![(1, 2), (3, 2)]);
    assert_eq!(quarter.reflect((2, 2)), vec![(2, 2)]);
    let plain = GridGenerator::with_symmetry(&grid, Symmetry::NoSymmetry, 1);
    assert_eq!(plain.reflect((0, 1)), vec![(0, 1)]);
    let even = GridGenerator::with_symmetry(&open_board(4, 6), Symmetry::Point, 1);
    assert_eq!(even.reflect((1, 2)), vec![(1, 2), (2, 3)]);
}

#[test]
fn candidates_of_a_run() {
    let grid = open_board(7, 7);
    let plain = GridGenerator::with_symmetry(&grid, Symmetry::NoSymmetry, 1);
    assert_eq!(
        plain.placeables((0, 3, 7, true)),
        vec![(1, 3), (2, 3), (3, 3), (4, 3), (5, 3)]
    );
    assert_eq!(plain.placeables((0, 0, 7, true)), Vec::<(isize, isize)>::new());
    assert_eq!(
        plain.placeables((2, 0, 7, false)),
        vec![(2, 1), (2, 2), (2, 3), (2, 4), (2, 5)]
    );
    let point = GridGenerator::with_symmetry(&grid, Symmetry::Point, 1);
    assert_eq!(point.placeables((0, 3, 7, true)), vec![(1, 3), (3, 3), (5, 3)]);
    assert_eq!(
        point.placeables((0, 2, 7, true)),
        vec![(1, 2), (2, 2), (4, 2), (5, 2)]
    );
    let quarter = GridGenerator::with_symmetry(&grid, Symmetry::Quarter, 1);
    assert_eq!(quarter.placeables((0, 2, 7, true)), Vec::<(isize, isize)>::new());
    assert_eq!(quarter.placeables((0, 1, 7, true)), vec![(1, 1), (3, 1), (5, 1)]);
}

#[test]
fn placing_blocks_the_whole_orbit() {
    let grid = open_board(7, 7);
    let mut point = GridGenerator::with_symmetry(&grid, Symmetry::Point, 1);
    point.place_orbit((1, 2));
    assert!(matches!(point.get((1, 2)), Some(State::Black)));
    assert!(matches!(point.get((5, 4)), Some(State::Black)));
    assert_eq!(count_black(&point), 2);
    assert!(!point.get((2, 2)).unwrap().can_place());
    assert!(!point.get((5, 3)).unwrap().can_place());
    assert!(point.get((3, 2)).unwrap().can_place());
    point.place_orbit((3, 3));
    assert!(matches!(point.get((3, 3)), Some(State::Black)));
    assert_eq!(count_black(&point), 3);
    let mut quarter = GridGenerator::with_symmetry(&grid, Symmetry::Quarter, 1);
    quarter.place_orbit((1, 1));
    for c in [(1, 1), (5, 5), (1, 5), (5, 1)] {
        assert!(matches!(quarter.get(c), Some(State::Black)));
    }
    assert_eq!(count_black(&quarter), 4);
}

#[test]
fn a_step_fails_where_nothing_can_be_placed() {
    let mut generator = GridGenerator::with_symmetry(&open_board(2, 2), Symmetry::Point, 9);
    assert!(generator.choose_next_black().is_err());
    assert_eq!(count_black(&generator), 0);
    let mut single = GridGenerator::with_symmetry(&open_board(1, 1), Symmetry::NoSymmetry, 9);
    assert!(single.choose_next_black().is_err());
}

#[test]
fn a_step_succeeds_where_a_run_has_room() {
    for seed in 0..32 {
        let mut generator = GridGenerator::with_symmetry(&open_board(7, 7), Symmetry::Point, seed);
        assert!(generator.choose_next_black().is_ok());
        let blacks = count_black(&generator);
        assert!(blacks == 1 || blacks == 2);
        let layout = generator.cells();
        for i in 0..49 {
            assert_eq!(layout[i], layout[48 - i]);
        }
    }
}

#[test]
fn a_pass_returns_the_score_of_the_layout_it_reached() {
    for seed in 0..8 {
        let mut generator = GridGenerator::with_symmetry(&open_board(9, 9), Symmetry::Point, seed);
        let score = generator.fill_once(&(3000..4000), &(20..30));
        let reached = Score::of(&find_runs(&generator));
        assert_eq!(score.word_count, reached.word_count);
        assert_eq!(score.avg_len, reached.avg_len);
    }
    let mut calm = GridGenerator::with_symmetry(&open_board(9, 9), Symmetry::Point, 1);
    let score = calm.fill_once(&(9000..9001), &(18..19));
    assert_eq!(score.word_count, 18);
    assert_eq!(score.avg_len, Some(9000));
    assert_eq!(count_black(&calm), 0);
}

#[test]
fn applying_a_layout_blocks_and_reopens_cells() {
    let mut grid = grid_of(&["a.#", "#b."]);
    apply_layout(&mut grid, &vec![false, true, false, true, false, false]);
    assert_eq!(grid.char_at((0, 0)), Some('a'));
    assert_eq!(grid.char_at((1, 0)), None);
    assert_eq!(grid.char_at((2, 0)), Some(' '));
    assert_eq!(grid.char_at((0, 1)), None);
    assert_eq!(grid.char_at((1, 1)), Some('b'));
    assert_eq!(grid.char_at((2, 1)), Some(' '));
}

#[test]
fn filling_keeps_letters_and_blocked_cells() {
    let rows = [
        ".........", "...word..", "....#....", "....x....", "....#....", "..two....", ".........",
    ];
    for _ in 0..4 {
        let before = grid_of(&rows);
        let mut grid = grid_of(&rows);
        fill_blacks(&mut grid, 3000..4000, 14..25);
        assert_eq!((&grid).cols(), 9);
        assert_eq!((&grid).rows(), 7);
        for y in 0..7 {
            for x in 0..9 {
                match before.char_at((x, y)) {
                    None => assert_eq!(grid.char_at((x, y)), None),
                    Some(' ') => assert!(matches!(grid.char_at((x, y)), None | Some(' '))),
                    Some(letter) => assert_eq!(grid.char_at((x, y)), Some(letter)),
                }
            }
        }
    }
}

#[test]
fn a_board_with_room_that_misses_the_targets_gets_blocks() {
    for seed in 0..8 {
        let mut generator = GridGenerator::with_symmetry(&open_board(9, 9), Symmetry::Point, seed);
        let report = generator.place_blacks(3000..4000, 20..30);
        let layout = generator.cells();
        assert!(layout.iter().any(|black| *black));
        let gaps = report.best.unwrap();
        let score = Score::of(&find_runs(&layout_grid(9, &layout)));
        assert_eq!(gaps.0, avg_gap(&(3000..4000), score.avg_len.unwrap()));
        assert_eq!(gaps.1, count_gap(&(20..30), score.word_count));
        assert_eq!(report.accepted, score.within(&(3000..4000), &(20..30)));
        if report.accepted {
            assert_eq!(gaps, (0, 0));
        } else {
            assert_eq!(report.iters, MAX_ITERS);
        }
    }
}

#[test]
fn filling_reports_the_search() {
    let mut grid = Grid::new();
    let report = fill_blacks(&mut grid, 5200..5500, 40..73);
    assert!(report.iters >= 1 && report.iters <= MAX_ITERS);
    let score = Score::of(&find_runs(&grid));
    assert_eq!(report.accepted, score.within(&(5200..5500), &(40..73)));
    assert_eq!(
        report.best,
        score.avg_len.map(|avg| (avg_gap(&(5200..5500), avg), count_gap(&(40..73), score.word_count)))
    );
    let mut blocked = 0;
    for y in 0..15 {
        for x in 0..15 {
            if !grid.cell_exists((x, y)) {
                blocked += 1;
                assert!(!grid.cell_exists((14 - x, 14 - y)));
            }
        }
    }
    assert!(blocked > 0);
}
