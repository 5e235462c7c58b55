use taquin::{Board, Direction};

#[test]
fn construction_rejects_malformed_layouts() {
    // Empty.
    assert!(Board::new(vec![]).is_err());
    // Not square.
    assert!(Board::new(vec![vec![1, 0], vec![3]]).is_err());
    // A value out of range.
    assert!(Board::new(vec![vec![1, 0], vec![3, 9]]).is_err());
    // A negative value.
    assert!(Board::new(vec![vec![1, 0], vec![3, -2]]).is_err());
    // A repeated value.
    assert!(Board::new(vec![vec![1, 1], vec![2, 3]]).is_err());
    // Mismatched goal dimensions.
    assert!(Board::new_with_goal(
        vec![vec![1, 0], vec![3, 2]],
        vec![vec![1, 2, 3], vec![4, 5, 6], vec![7, 8, 0]]
    )
    .is_err());
    // A malformed goal.
    assert!(Board::new_with_goal(vec![vec![1, 0], vec![3, 2]], vec![vec![1, 1], vec![2, 3]])
        .is_err());
}

#[test]
fn construction_accepts_valid_layouts() {
    let board = Board::new(vec![vec![1, 0], vec![3, 2]]).unwrap();
    assert_eq!(board.get_size(), 2);
    assert_eq!(board.get_state(), vec![vec![1, 0], vec![3, 2]]);
    assert_eq!(board.get_goal_state(), vec![1, 2, 3, 0]);
    assert!(!board.is_goal());
}

#[test]
fn possible_moves_follow_the_blank_position() {
    // Blank on the bottom-right corner: only up and left are legal.
    let corner = Board::new(vec![vec![1, 2], vec![3, 0]]).unwrap();
    assert_eq!(corner.get_possible_moves(), vec![Direction::Up, Direction::Left]);

    // Blank in the middle of a 3x3 grid: every direction is legal.
    let middle = Board::new(vec![vec![1, 2, 3], vec![4, 0, 6], vec![7, 5, 8]]).unwrap();
    assert_eq!(
        middle.get_possible_moves(),
        vec![Direction::Up, Direction::Down, Direction::Left, Direction::Right]
    );
}

#[test]
fn make_move_applies_legal_moves_and_rejects_illegal_ones() {
    let mut board = Board::new(vec![vec![1, 2], vec![3, 0]]).unwrap();

    // Down is illegal from the bottom row and leaves the board untouched.
    let refused = board.make_move(Direction::Down);
    assert!(refused.is_err());
    assert_eq!(refused.unwrap_err(), "Invalid move: Down");
    assert_eq!(board.get_state(), vec![vec![1, 2], vec![3, 0]]);

    // Up slides the blank up, swapping it with the tile above.
    assert!(board.make_move(Direction::Up).is_ok());
    assert_eq!(board.get_state(), vec![vec![1, 0], vec![3, 2]]);
}

#[test]
fn manhattan_distance_is_zero_exactly_on_the_goal() {
    let solved = Board::new(vec![vec![1, 2], vec![3, 0]]).unwrap();
    assert_eq!(solved.manhattan_distance(), 0);
    assert!(solved.is_goal());

    let one_off = Board::new(vec![vec![1, 0], vec![3, 2]]).unwrap();
    assert_eq!(one_off.manhattan_distance(), 1);
    assert!(!one_off.is_goal());

    let three_by_three =
        Board::new(vec![vec![1, 2, 3], vec![4, 0, 6], vec![7, 5, 8]]).unwrap();
    assert_eq!(three_by_three.manhattan_distance(), 2);
}

#[test]
fn render_draws_the_boxed_grid() {
    let board = Board::new(vec![vec![1, 2], vec![3, 0]]).unwrap();
    let expected = "┌───┬───┐\n\
                    │ 1 │ 2 │\n\
                    ├───┼───┤\n\
                    │ 3 │ _ │\n\
                    └───┴───┘\n";
    assert_eq!(board.render(), expected);
}

#[test]
fn render_writes_multi_digit_tiles() {
    let board = Board::new(vec![
        vec![1, 2, 3, 4],
        vec![5, 6, 7, 8],
        vec![9, 10, 11, 12],
        vec![13, 14, 15, 0],
    ])
    .unwrap();
    let text = board.render();
    assert!(text.contains("│ 15 │"));
    assert!(text.contains("│ _ │"));
}
