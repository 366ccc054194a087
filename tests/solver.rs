use tile_solver::combos::{find_valid_combinations, is_valid_horizontal, is_valid_vertical};
use tile_solver::solver::{
    calculate_move_score, estimate_future_score_fast, evaluate_with_lookahead, first_best,
    select_strategy, Strategy,
    solve_puzzle_beam_search, solve_puzzle_greedy_lookahead,
};
use tile_solver::subsets::find_subsets_with_sum;
use tile_solver::visited::Visited;
use tile_solver::{solve, solve_rows, Cell, FlatGrid, GridError, Step};

fn grid(rows: &[&[u8]]) -> FlatGrid {
    let v: Vec<Vec<u8>> = rows.iter().map(|r| r.to_vec()).collect();
    FlatGrid::new(&v).unwrap()
}

fn positions(m: &[(usize, usize, u8)]) -> Vec<(usize, usize)> {
    m.iter().map(|c| (c.0, c.1)).collect()
}

/// Replays `steps` from `start`, checking each one against the rules.
fn check_play(start: &[Vec<u8>], steps: &[Step]) {
    let mut g: Vec<Vec<u8>> = start.to_vec();
    for s in steps {
        assert_eq!(s.sum, 10);
        assert!(!s.cells.is_empty());
        let total: u32 = s.cells.iter().map(|c| c.value as u32).sum();
        assert_eq!(total, 10);
        for c in &s.cells {
            assert_eq!(g[c.row][c.col], c.value);
            assert!(c.value > 0);
        }
        for c in &s.cells {
            g[c.row][c.col] = 0;
        }
        assert_eq!(g, s.grid_after);
    }
}

#[test]
fn pair_that_misses_target_is_not_a_move() {
    let g = grid(&[&[5, 5], &[2, 8]]);
    let moves = find_valid_combinations(&g);
    assert_eq!(moves, vec![vec![(0, 0, 5), (0, 1, 5)], vec![(1, 0, 2), (1, 1, 8)]]);
    assert!(!moves.iter().any(|m| positions(m) == vec![(0, 0), (1, 0)]));
}

#[test]
fn single_row_pair_is_cleared() {
    let steps = solve_rows(&vec![vec![5, 5]]).unwrap();
    assert_eq!(steps.len(), 1);
    assert_eq!(
        steps[0].cells,
        vec![Cell { row: 0, col: 0, value: 5 }, Cell { row: 0, col: 1, value: 5 }]
    );
    assert_eq!(steps[0].sum, 10);
    assert_eq!(steps[0].grid_after, vec![vec![0, 0]]);
    assert_eq!(calculate_move_score(steps[0].cells.len()), 3);
}

#[test]
fn empty_grid_yields_no_steps() {
    let g = grid(&[&[0, 0], &[0, 0]]);
    assert!(solve_puzzle_beam_search(&g, 20).is_empty());
    assert!(solve_puzzle_greedy_lookahead(&g, 3).is_empty());
    assert!(solve(&g).is_empty());
}

#[test]
fn grid_without_target_sum_yields_no_steps() {
    let g = grid(&[&[1, 1], &[1, 1]]);
    assert!(find_valid_combinations(&g).is_empty());
    assert!(solve_puzzle_beam_search(&g, 12).is_empty());
    assert!(solve_puzzle_greedy_lookahead(&g, 3).is_empty());
}

#[test]
fn rectangle_move_clears_whole_block() {
    let g = grid(&[&[1, 2], &[3, 4]]);
    let moves = find_valid_combinations(&g);
    assert_eq!(moves, vec![vec![(0, 0, 1), (0, 1, 2), (1, 0, 3), (1, 1, 4)]]);
    let steps = solve(&g);
    assert_eq!(steps.len(), 1);
    assert_eq!(steps[0].grid_after, vec![vec![0, 0], vec![0, 0]]);
}

#[test]
fn horizontal_gap_must_be_empty() {
    let g = grid(&[&[5, 0, 5], &[5, 1, 5]]);
    assert!(is_valid_horizontal(&vec![(0, 0, 5), (0, 2, 5)], &g, 0));
    assert!(!is_valid_horizontal(&vec![(1, 0, 5), (1, 2, 5)], &g, 1));
    assert!(!is_valid_horizontal(&vec![], &g, 0));
    assert!(is_valid_horizontal(&vec![(0, 2, 5), (0, 0, 5)], &g, 0));
    assert!(!is_valid_horizontal(&vec![(1, 2, 5), (1, 0, 5)], &g, 1));
    let moves = find_valid_combinations(&g);
    assert!(moves.iter().any(|m| positions(m) == vec![(0, 0), (0, 2)]));
    assert!(!moves.iter().any(|m| positions(m) == vec![(1, 0), (1, 2)]));
}

#[test]
fn vertical_gap_must_be_empty() {
    let g = grid(&[&[3, 3], &[0, 4], &[7, 7]]);
    assert!(is_valid_vertical(&vec![(0, 0, 3), (2, 0, 7)], &g, 0));
    assert!(!is_valid_vertical(&vec![(0, 1, 3), (2, 1, 7)], &g, 1));
    assert!(!is_valid_vertical(&vec![(2, 1, 7), (0, 1, 3)], &g, 1));
    assert!(is_valid_vertical(&vec![(2, 0, 7), (0, 0, 3)], &g, 0));
    let moves = find_valid_combinations(&g);
    assert!(moves.iter().any(|m| positions(m) == vec![(0, 0), (2, 0)]));
    assert!(!moves.iter().any(|m| positions(m) == vec![(0, 1), (2, 1)]));
}

#[test]
fn moves_are_distinct_and_sum_to_target() {
    let g = grid(&[&[1, 9, 2, 8], &[9, 1, 8, 2], &[5, 5, 3, 7], &[4, 6, 6, 4]]);
    let moves = find_valid_combinations(&g);
    assert!(!moves.is_empty());
    for (i, m) in moves.iter().enumerate() {
        let total: u32 = m.iter().map(|c| c.2 as u32).sum();
        assert_eq!(total, 10);
        for c in m {
            assert!(c.0 < 4 && c.1 < 4);
            assert_eq!(g.get(c.0, c.1), c.2);
        }
        let mut p = positions(m);
        let n = p.len();
        p.sort();
        p.dedup();
        assert_eq!(p.len(), n);
        for other in &moves[i + 1..] {
            assert_ne!(positions(m), positions(other));
        }
    }
}

#[test]
fn subsets_enumerated_in_order() {
    let cells = vec![(0, 0, 3), (0, 1, 7), (0, 2, 3), (0, 3, 7)];
    let mut out = Vec::new();
    find_subsets_with_sum(&cells, 10, &mut out);
    assert_eq!(
        out,
        vec![
            vec![(0, 0, 3), (0, 1, 7)],
            vec![(0, 0, 3), (0, 3, 7)],
            vec![(0, 1, 7), (0, 2, 3)],
            vec![(0, 2, 3), (0, 3, 7)],
        ]
    );
}

#[test]
fn subsets_skip_empty_and_long_inputs() {
    let mut out = Vec::new();
    find_subsets_with_sum(&vec![], 10, &mut out);
    assert!(out.is_empty());
    let long: Vec<(usize, usize, u8)> = (0..21).map(|c| (0, c, 5)).collect();
    find_subsets_with_sum(&long, 10, &mut out);
    assert!(out.is_empty());
    let twenty: Vec<(usize, usize, u8)> = (0..20).map(|c| (0, c, 5)).collect();
    find_subsets_with_sum(&twenty, 10, &mut out);
    assert_eq!(out.len(), 190);
}

#[test]
fn move_score_is_triangular() {
    assert_eq!(calculate_move_score(0), 0);
    assert_eq!(calculate_move_score(1), 1);
    assert_eq!(calculate_move_score(2), 3);
    assert_eq!(calculate_move_score(4), 10);
    assert_eq!(calculate_move_score(10), 55);
    assert!(calculate_move_score(4) > 2 * calculate_move_score(2));
}

#[test]
fn estimate_uses_largest_run() {
    assert_eq!(estimate_future_score_fast(&grid(&[&[5, 5]])), 3);
    assert_eq!(estimate_future_score_fast(&grid(&[&[1, 2, 3, 4]])), 10);
    assert_eq!(estimate_future_score_fast(&grid(&[&[1, 2], &[3, 4]])), 0);
    assert_eq!(estimate_future_score_fast(&grid(&[&[0, 0]])), 0);
}

#[test]
fn lookahead_values() {
    let g = grid(&[&[5, 5]]);
    let m = vec![(0, 0, 5), (0, 1, 5)];
    assert_eq!(evaluate_with_lookahead(&g, &m, 1), 3);
    assert_eq!(evaluate_with_lookahead(&g, &m, 3), 3);
    let g2 = grid(&[&[5, 5, 1, 9]]);
    assert_eq!(evaluate_with_lookahead(&g2, &m, 1), 3 + 3 / 2);
    assert_eq!(evaluate_with_lookahead(&g2, &m, 2), 3 + 3 * 9 / 10);
    let g3 = grid(&[&[5, 5, 1, 1]]);
    assert_eq!(evaluate_with_lookahead(&g3, &m, 2), 3);
}

#[test]
fn visited_keeps_best_score() {
    let mut v = Visited::new();
    let a = vec![1u8, 0, 2];
    let b = vec![1u8, 0, 3];
    assert!(v.visit(&a, 5));
    assert!(!v.visit(&a, 5));
    assert!(!v.visit(&a, 4));
    assert!(v.visit(&b, 1));
    assert!(v.visit(&a, 6));
    assert!(!v.visit(&a, 6));
    assert!(!v.visit(&b, 1));
}

#[test]
fn solving_is_deterministic() {
    let rows = vec![vec![1, 9, 2, 8], vec![9, 1, 8, 2], vec![5, 5, 3, 7], vec![4, 6, 6, 4]];
    let a = solve_rows(&rows).unwrap();
    let b = solve_rows(&rows).unwrap();
    assert_eq!(a, b);
    let g = FlatGrid::new(&rows).unwrap();
    assert_eq!(solve_puzzle_greedy_lookahead(&g, 3), solve_puzzle_greedy_lookahead(&g, 3));
}

#[test]
fn steps_replay_to_recorded_grids() {
    let rows = vec![vec![1, 9, 2, 8], vec![9, 1, 8, 2], vec![5, 5, 3, 7], vec![4, 6, 6, 4]];
    let g = FlatGrid::new(&rows).unwrap();
    let beam = solve_puzzle_beam_search(&g, 20);
    assert!(!beam.is_empty());
    check_play(&rows, &beam);
    let greedy = solve_puzzle_greedy_lookahead(&g, 3);
    assert!(!greedy.is_empty());
    check_play(&rows, &greedy);
}

#[test]
fn beam_search_clears_paired_board() {
    let rows = vec![vec![5, 5], vec![3, 7]];
    let steps = solve_rows(&rows).unwrap();
    check_play(&rows, &steps);
    assert_eq!(steps.len(), 2);
    assert_eq!(steps[1].grid_after, vec![vec![0, 0], vec![0, 0]]);
}

#[test]
fn malformed_grids_are_refused() {
    assert_eq!(solve_rows(&vec![vec![1, 2], vec![3]]), Err(GridError::Ragged));
    assert_eq!(solve_rows(&vec![vec![10]]), Err(GridError::ValueOutOfRange));
    assert_eq!(solve_rows(&vec![vec![0u8]; 257]), Err(GridError::TooLarge));
    assert_eq!(solve_rows(&vec![vec![0u8; 257]]), Err(GridError::TooLarge));
    assert_eq!(solve_rows(&vec![]), Ok(vec![]));
}

#[test]
fn grid_round_trips_through_rows() {
    let rows = vec![vec![1, 2, 3], vec![4, 5, 6]];
    let mut g = FlatGrid::new(&rows).unwrap();
    assert_eq!(g.to_vec(), rows);
    assert_eq!(g.get(1, 2), 6);
    assert_eq!(g.count_remaining(), 6);
    g.set(1, 2, 0);
    assert_eq!(g.count_remaining(), 5);
    let h = g.apply_move(&vec![(0, 0, 1), (0, 1, 2)]);
    assert_eq!(h.to_vec(), vec![vec![0, 0, 3], vec![4, 5, 0]]);
    assert_eq!(g.to_vec(), vec![vec![1, 2, 3], vec![4, 5, 0]]);
}

#[test]
fn larger_board_uses_greedy_and_stays_valid() {
    let rows: Vec<Vec<u8>> = (0..6)
        .map(|r| (0..9).map(|c| ((r * 3 + c * 7) % 9 + 1) as u8).collect())
        .collect();
    let g = FlatGrid::new(&rows).unwrap();
    assert!(g.count_remaining() > 50);
    let steps = solve(&g);
    check_play(&rows, &steps);
}

#[test]
fn estimate_picks_largest_line_move() {
    let g = grid(&[&[2, 3, 5], &[8, 0, 0]]);
    assert_eq!(estimate_future_score_fast(&g), 6);
}

#[test]
fn greedy_stops_only_without_moves() {
    let rows: Vec<Vec<u8>> = (0..6)
        .map(|r| (0..9).map(|c| ((r * 5 + c * 3) % 9 + 1) as u8).collect())
        .collect();
    let g = FlatGrid::new(&rows).unwrap();
    let steps = solve_puzzle_greedy_lookahead(&g, 2);
    check_play(&rows, &steps);
    let last = steps.last().map(|s| s.grid_after.clone()).unwrap_or(rows.clone());
    assert!(find_valid_combinations(&FlatGrid::new(&last).unwrap()).is_empty());
}

#[test]
fn beam_result_ends_without_moves() {
    let rows = vec![vec![1, 9, 2, 8], vec![9, 1, 8, 2], vec![5, 5, 3, 7], vec![4, 6, 6, 4]];
    let g = FlatGrid::new(&rows).unwrap();
    let steps = solve_puzzle_beam_search(&g, 12);
    let last = steps.last().unwrap().grid_after.clone();
    assert!(find_valid_combinations(&FlatGrid::new(&last).unwrap()).is_empty());
}

#[test]
fn beam_search_on_single_pair() {
    let g = grid(&[&[5, 5]]);
    let steps = solve_puzzle_beam_search(&g, 20);
    assert_eq!(
        steps,
        vec![Step {
            cells: vec![Cell { row: 0, col: 0, value: 5 }, Cell { row: 0, col: 1, value: 5 }],
            sum: 10,
            grid_after: vec![vec![0, 0]],
        }]
    );
}

#[test]
fn beam_search_on_two_rows() {
    let rows = vec![vec![5, 5], vec![2, 8]];
    let g = FlatGrid::new(&rows).unwrap();
    let steps = solve_puzzle_beam_search(&g, 20);
    check_play(&rows, &steps);
    assert_eq!(steps.len(), 2);
    assert_eq!(steps[1].grid_after, vec![vec![0, 0], vec![0, 0]]);
    for s in &steps {
        let p: Vec<(usize, usize)> = s.cells.iter().map(|c| (c.row, c.col)).collect();
        assert_ne!(p, vec![(0, 0), (1, 0)]);
    }
}

#[test]
fn greedy_takes_first_of_equal_moves() {
    let g = grid(&[&[5, 5], &[2, 8]]);
    let steps = solve_puzzle_greedy_lookahead(&g, 3);
    assert_eq!(steps.len(), 2);
    assert_eq!(steps[0].grid_after, vec![vec![0, 0], vec![2, 8]]);
    assert_eq!(evaluate_with_lookahead(&g, &vec![(0, 0, 5), (0, 1, 5)], 3), 5);
}

#[test]
fn long_line_has_no_reported_move() {
    let rows = vec![vec![5u8; 21]];
    let g = FlatGrid::new(&rows).unwrap();
    assert!(find_valid_combinations(&g).is_empty());
    assert!(solve_puzzle_beam_search(&g, 20).is_empty());
    assert!(solve_puzzle_greedy_lookahead(&g, 3).is_empty());
    assert!(solve_rows(&rows).unwrap().is_empty());
}

#[test]
fn first_best_takes_least_index() {
    assert_eq!(first_best(&vec![3, 7, 7, 1]), 1);
    assert_eq!(first_best(&vec![-5]), 0);
    assert_eq!(first_best(&vec![2, 2, 2]), 0);
    assert_eq!(first_best(&vec![1, 2, 9]), 2);
}

#[test]
fn greedy_result_on_two_rows() {
    let g = grid(&[&[5, 5], &[2, 8]]);
    let steps = solve_puzzle_greedy_lookahead(&g, 3);
    assert_eq!(
        steps,
        vec![
            Step {
                cells: vec![Cell { row: 0, col: 0, value: 5 }, Cell { row: 0, col: 1, value: 5 }],
                sum: 10,
                grid_after: vec![vec![0, 0], vec![2, 8]],
            },
            Step {
                cells: vec![Cell { row: 1, col: 0, value: 2 }, Cell { row: 1, col: 1, value: 8 }],
                sum: 10,
                grid_after: vec![vec![0, 0], vec![0, 0]],
            },
        ]
    );
}

#[test]
fn strategy_by_cell_count() {
    assert_eq!(select_strategy(0), Strategy::Beam(20));
    assert_eq!(select_strategy(30), Strategy::Beam(20));
    assert_eq!(select_strategy(31), Strategy::Beam(12));
    assert_eq!(select_strategy(50), Strategy::Beam(12));
    assert_eq!(select_strategy(51), Strategy::Greedy(3));
}

#[test]
fn moves_listed_rows_then_columns_then_rectangles() {
    let g = grid(&[&[4, 6], &[6, 0]]);
    let moves = find_valid_combinations(&g);
    assert_eq!(
        moves,
        vec![vec![(0, 0, 4), (0, 1, 6)], vec![(0, 0, 4), (1, 0, 6)]]
    );
    let g2 = grid(&[&[1, 2], &[3, 4], &[5, 5]]);
    let moves2 = find_valid_combinations(&g2);
    assert_eq!(
        moves2,
        vec![vec![(2, 0, 5), (2, 1, 5)], vec![(0, 0, 1), (0, 1, 2), (1, 0, 3), (1, 1, 4)]]
    );
}
