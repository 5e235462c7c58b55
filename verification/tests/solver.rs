use taquin::{AStarSolver, BFSSolver, Board, DFSSolver, SolutionInfo, Solver};

fn replay_reaches_goal(board: &Board, solution: &SolutionInfo) -> bool {
    let mut current = board.clone();
    for direction in &solution.moves {
        if current.make_move(*direction).is_err() {
            return false;
        }
    }
    current.is_goal()
}

#[test]
fn test_solve_simple_puzzle() {
    // Test a simple 2x2 puzzle
    let initial_state = vec![vec![1, 0], vec![3, 2]];
    let board = Board::new(initial_state).unwrap();
    let solver = AStarSolver::new(board.clone());
    let solution = solver.solve(None);

    assert!(solution.is_some(), "Should find a solution");
    let steps = &solution.unwrap().moves;
    assert!(!steps.is_empty(), "Solution should have steps");
}

#[test]
fn test_already_solved() {
    // Test an already solved 2x2 puzzle
    let initial_state = vec![vec![1, 2], vec![3, 0]];
    let board = Board::new(initial_state).unwrap();
    let solver = AStarSolver::new(board.clone());
    let solution = solver.solve(None);

    assert!(solution.is_some(), "Should find a solution");
    let steps = &solution.unwrap().moves;
    assert!(
        steps.is_empty(),
        "Already solved puzzle should have no steps"
    );
}

#[test]
fn test_3x3_puzzle() {
    // Test a 3x3 puzzle
    let initial_state = vec![vec![1, 2, 3], vec![4, 0, 6], vec![7, 5, 8]];
    let board = Board::new(initial_state).unwrap();
    let solver = AStarSolver::new(board.clone());
    let solution = solver.solve(None);

    assert!(solution.is_some(), "Should find a solution");
    let steps = &solution.unwrap().moves;
    assert!(!steps.is_empty(), "Solution should have steps");
}

#[test]
fn test_solution_validity() {
    // Test if solution reaches the goal state
    let initial_state = vec![vec![1, 0], vec![3, 2]];
    let board = Board::new(initial_state).unwrap();
    let solver = AStarSolver::new(board.clone());
    let solution = solver.solve(None).unwrap();

    // Apply moves to reach final state
    let mut test_board = board;
    for move_dir in solution.moves {
        assert!(
            test_board.make_move(move_dir).is_ok(),
            "Move should be valid"
        );
    }

    // Verify final state is correct
    let final_state = test_board.get_state();
    let expected = vec![vec![1, 2], vec![3, 0]];
    assert_eq!(final_state, expected, "Final state should match goal state");
}

#[test]
fn all_strategies_solve_simple_2x2() {
    let layout = vec![vec![1, 0], vec![3, 2]];
    let board = Board::new(layout).unwrap();

    let a_star = AStarSolver::new(board.clone()).solve(None).unwrap();
    let bfs = BFSSolver::new(board.clone()).solve(None).unwrap();
    let dfs = DFSSolver::new(board.clone()).solve(None).unwrap();

    assert!(!a_star.moves.is_empty());
    assert!(!bfs.moves.is_empty());
    assert!(!dfs.moves.is_empty());

    assert!(replay_reaches_goal(&board, &a_star));
    assert!(replay_reaches_goal(&board, &bfs));
    assert!(replay_reaches_goal(&board, &dfs));

    let mut replayed = board.clone();
    for direction in &a_star.moves {
        replayed.make_move(*direction).unwrap();
    }
    assert_eq!(replayed.get_state(), vec![vec![1, 2], vec![3, 0]]);
}

#[test]
fn all_strategies_return_empty_on_solved_board() {
    let layout = vec![vec![1, 2], vec![3, 0]];
    let board = Board::new(layout).unwrap();

    assert!(AStarSolver::new(board.clone())
        .solve(None)
        .unwrap()
        .moves
        .is_empty());
    assert!(BFSSolver::new(board.clone())
        .solve(None)
        .unwrap()
        .moves
        .is_empty());
    assert!(DFSSolver::new(board.clone())
        .solve(None)
        .unwrap()
        .moves
        .is_empty());
}

#[test]
fn strategy_lengths_are_ordered_on_3x3() {
    let layout = vec![vec![1, 2, 3], vec![4, 0, 6], vec![7, 5, 8]];
    let board = Board::new(layout).unwrap();

    let a_star = AStarSolver::new(board.clone()).solve(None).unwrap();
    let bfs = BFSSolver::new(board.clone()).solve(None).unwrap();
    let dfs = DFSSolver::new(board.clone()).solve(None).unwrap();

    // The minimal solution slides the blank down, then right.
    assert_eq!(a_star.moves.len(), 2);
    assert_eq!(bfs.moves.len(), 2);
    assert!(dfs.moves.len() >= 2);
    assert!(dfs.moves.len() <= 20);

    assert!(a_star.moves.len() <= bfs.moves.len());
    assert!(bfs.moves.len() <= dfs.moves.len());

    assert!(replay_reaches_goal(&board, &a_star));
    assert!(replay_reaches_goal(&board, &bfs));
    assert!(replay_reaches_goal(&board, &dfs));
}

#[test]
fn dfs_never_exceeds_its_depth_ceiling() {
    // A harder 3x3 arrangement: DFS may wander, but never deeper than 20.
    let layout = vec![vec![2, 8, 3], vec![1, 6, 4], vec![7, 0, 5]];
    let board = Board::new(layout).unwrap();
    if let Some(solution) = DFSSolver::new(board.clone()).solve(None) {
        assert!(solution.moves.len() <= 20);
        assert!(replay_reaches_goal(&board, &solution));
    }
}

#[test]
fn custom_goal_drives_solving_and_goal_test() {
    // The custom goal, not the default ascending one, decides `is_goal`.
    let board = Board::new_with_goal(
        vec![vec![1, 0], vec![2, 3]],
        vec![vec![1, 2], vec![3, 0]],
    )
    .unwrap();
    assert!(!board.is_goal());
    // That arrangement cannot reach this goal: the strategies report so
    // rather than inventing a sequence.
    assert!(AStarSolver::new(board.clone()).solve(None).is_none());
    assert!(BFSSolver::new(board.clone()).solve(None).is_none());
    assert!(DFSSolver::new(board).solve(None).is_none());

    // A reachable custom goal is found and replayed to.
    let solvable = Board::new_with_goal(
        vec![vec![1, 0], vec![3, 2]],
        vec![vec![1, 2], vec![3, 0]],
    )
    .unwrap();
    let solution = AStarSolver::new(solvable.clone()).solve(None).unwrap();
    assert!(!solution.moves.is_empty());
    let mut replayed = solvable.clone();
    for direction in &solution.moves {
        replayed.make_move(*direction).unwrap();
    }
    assert!(replayed.is_goal());
    assert_eq!(replayed.get_state(), vec![vec![1, 2], vec![3, 0]]);
}

#[test]
fn is_goal_reflects_the_custom_goal_not_the_default() {
    // The layout is the default ascending goal, yet the attached custom
    // goal differs, so the board does not count as solved.
    let board = Board::new_with_goal(
        vec![vec![1, 2], vec![3, 0]],
        vec![vec![3, 1], vec![0, 2]],
    )
    .unwrap();
    assert!(!board.is_goal());

    // A board whose layout equals its custom goal is solved.
    let solved = Board::new_with_goal(
        vec![vec![3, 1], vec![0, 2]],
        vec![vec![3, 1], vec![0, 2]],
    )
    .unwrap();
    assert!(solved.is_goal());
}

#[test]
fn solver_grades_against_supplied_optimal_length() {
    let layout = vec![vec![1, 2, 3], vec![4, 0, 6], vec![7, 5, 8]];
    let board = Board::new(layout).unwrap();
    let solution = BFSSolver::new(board).solve(Some(2)).unwrap();
    assert_eq!(solution.optimal_length, Some(2));
    assert!(matches!(
        solution.quality,
        taquin::SolutionQuality::Optimal
    ));
}

#[test]
fn informed_and_uninformed_agree_on_a_six_move_puzzle() {
    // This arrangement sits exactly six moves from the default goal.
    let layout = vec![vec![1, 5, 2], vec![4, 8, 3], vec![0, 7, 6]];
    let board = Board::new(layout).unwrap();

    let a_star = AStarSolver::new(board.clone()).solve(None).unwrap();
    let bfs = BFSSolver::new(board.clone()).solve(None).unwrap();

    assert_eq!(a_star.moves.len(), 6);
    assert_eq!(bfs.moves.len(), 6);
    assert!(replay_reaches_goal(&board, &a_star));
    assert!(replay_reaches_goal(&board, &bfs));

    if let Some(dfs) = DFSSolver::new(board.clone()).solve(None) {
        assert!(dfs.moves.len() >= 6);
        assert!(dfs.moves.len() <= 20);
        assert!(replay_reaches_goal(&board, &dfs));
    }
}
