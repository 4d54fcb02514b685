use mora_jai_solver::Color;
use mora_jai_solver::Color::{Yellow, Grey, Red, White, Orange, Black, Green, Blue};
use mora_jai_solver::Solver;
use mora_jai_solver::TileBox;

/// The inverse of the keypad remapping: external value back to the internal
/// row-major index.
fn internal_of_numpad(e: usize) -> usize {
    match e {
        7 => 0,
        8 => 1,
        9 => 2,
        4 => 3,
        5 => 4,
        6 => 5,
        1 => 6,
        2 => 7,
        3 => 8,
        other => panic!("external value out of range: {}", other),
    }
}

/// Replays an externally reported solution against a box, checking along the
/// way that no replayed click is a no-op.
fn replay(mut b: TileBox, numpad_moves: &[usize]) -> TileBox {
    for &e in numpad_moves {
        let before = b;
        b.simulate_click(internal_of_numpad(e));
        assert_ne!(b, before, "a returned move must change the grid");
    }
    b
}

#[test]
fn one_move_puzzle_returns_exactly_that_move() {
    // Only the Yellow click at cell 8 solves this in one move: it pulls the
    // Black tile from cell 5 down into the bottom-right corner.
    let grid = [Black, Grey, Black, Grey, Grey, Black, Black, Grey, Yellow];
    let goal = [Black, Black, Black, Black];
    let mut solver = Solver::new(TileBox::new(Some(grid), goal));
    let solution = solver.solve();
    assert_eq!(solution, vec![3]);
}

#[test]
fn three_move_puzzle_returns_a_shortest_solution() {
    // All Grey around a White center: no single click and no pair of clicks
    // can make all four corners White, but three clicks can.
    let grid = [Grey, Grey, Grey, Grey, White, Grey, Grey, Grey, Grey];
    let goal = [White, White, White, White];
    let start = TileBox::new(Some(grid), goal);
    let mut solver = Solver::new(start);
    let solution = solver.solve();
    assert_eq!(solution.len(), 3);
    assert!(replay(start, &solution).is_solved());
}

#[test]
fn already_solved_puzzle_returns_an_empty_sequence() {
    let grid = [Black, Grey, Black, Grey, Grey, Grey, Black, Grey, Black];
    let goal = [Black, Black, Black, Black];
    let mut solver = Solver::new(TileBox::new(Some(grid), goal));
    assert_eq!(solver.solve(), Vec::<usize>::new());
}

#[test]
fn unsolvable_puzzle_returns_an_empty_sequence() {
    // Every click on an all-Grey grid is a no-op, so the reachable space is
    // exhausted at once and the Red-corner goal is never met.
    let mut solver = Solver::new(TileBox::new(None, [Red, Red, Red, Red]));
    assert_eq!(solver.solve(), Vec::<usize>::new());
}

#[test]
fn mixed_scenario_solution_replays_to_blue_corners() {
    let grid = [Orange, Grey, Blue, Blue, Orange, Black, Yellow, Grey, Green];
    let goal = [Blue, Blue, Blue, Blue];
    let start = TileBox::new(Some(grid), goal);
    let mut solver = Solver::new(start);
    let solution = solver.solve();
    assert!(!solution.is_empty());
    // Re-simulating the returned external sequence after inverse-remapping
    // must reach the goal: all four corners Blue.
    let end = replay(start, &solution);
    assert!(end.is_solved());
    for corner in [0, 2, 6, 8] {
        assert_eq!(end.cell(corner), Blue);
    }
}

#[test]
fn mixed_grid_with_black_corner_goal_is_unsolvable() {
    // No click sequence brings all four corners of this grid to Black; the
    // search exhausts the whole reachable space and reports no solution.
    let grid = [Orange, Grey, Blue, Blue, Orange, Black, Yellow, Grey, Green];
    let goal = [Black, Black, Black, Black];
    let mut solver = Solver::new(TileBox::new(Some(grid), goal));
    assert_eq!(solver.solve(), Vec::<usize>::new());
}

#[test]
fn numpad_mapping_is_the_fixed_table() {
    let all: Vec<usize> = (0..9).collect();
    let mapped = Solver::map_sol_to_numpad_notation(all);
    assert_eq!(mapped, vec![7, 8, 9, 4, 5, 6, 1, 2, 3]);
}

#[test]
fn numpad_mapping_is_a_bijection() {
    let mapped = Solver::map_sol_to_numpad_notation((0..9).collect());
    for (i, &e) in mapped.iter().enumerate() {
        assert!((1..=9).contains(&e));
        // Unique among all images, and the inverse table undoes it.
        for (j, &f) in mapped.iter().enumerate() {
            assert!(i == j || e != f);
        }
        assert_eq!(internal_of_numpad(e), i);
    }
}

#[test]
fn bounded_search_finds_a_one_move_solution() {
    let grid = [Black, Grey, Black, Grey, Grey, Black, Black, Grey, Yellow];
    let goal = [Black, Black, Black, Black];
    let mut solver = Solver::new(TileBox::new(Some(grid), goal));
    assert_eq!(solver.solve_bounded(2), vec![3]);
}

#[test]
fn bounded_search_respects_its_depth_cap() {
    let grid = [Grey, Grey, Grey, Grey, White, Grey, Grey, Grey, Grey];
    let goal = [White, White, White, White];
    let start = TileBox::new(Some(grid), goal);

    let mut capped = Solver::new(start);
    assert_eq!(capped.solve_bounded(2), Vec::<usize>::new());

    let mut deep = Solver::new(start);
    let solution = deep.solve_bounded(3);
    assert_eq!(solution.len(), 3);
    assert!(replay(start, &solution).is_solved());
}

#[test]
fn partition_search_only_reports_its_own_first_move() {
    let grid = [Black, Grey, Black, Grey, Grey, Black, Black, Grey, Yellow];
    let goal = [Black, Black, Black, Black];
    let start = TileBox::new(Some(grid), goal);
    // The lone one-move solution clicks cell 8, so only that share finds it.
    for first in 0..8 {
        assert!(Solver::search_partition(&start, first, 1).is_none());
    }
    let found = Solver::search_partition(&start, 8, 1);
    assert_eq!(found, Some(vec![8]));
}

#[test]
fn unsolvable_grid_stays_unsolved_under_the_bounded_search() {
    let mut solver = Solver::new(TileBox::new(None, [Red, Red, Red, Red]));
    assert_eq!(solver.solve_bounded(4), Vec::<usize>::new());
}
