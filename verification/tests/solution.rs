use taquin::{Direction, SolutionInfo, SolutionQuality};

#[test]
fn quality_grades_against_the_optimal_length() {
    let moves = vec![Direction::Up, Direction::Left];

    let exact = SolutionInfo::new(moves.clone(), Some(2));
    assert!(matches!(exact.quality, SolutionQuality::Optimal));

    let shorter_than_claimed = SolutionInfo::new(moves.clone(), Some(3));
    assert!(matches!(shorter_than_claimed.quality, SolutionQuality::Good));

    let within_band = SolutionInfo::new(
        vec![
            Direction::Up,
            Direction::Down,
            Direction::Up,
            Direction::Down,
            Direction::Up,
            Direction::Down,
            Direction::Up,
        ],
        Some(2),
    );
    assert!(matches!(within_band.quality, SolutionQuality::Good));

    let beyond_band = SolutionInfo::new(
        vec![
            Direction::Up,
            Direction::Down,
            Direction::Up,
            Direction::Down,
            Direction::Up,
            Direction::Down,
            Direction::Up,
            Direction::Down,
        ],
        Some(2),
    );
    assert!(matches!(beyond_band.quality, SolutionQuality::Poor));

    let unknown = SolutionInfo::new(moves, None);
    assert!(matches!(unknown.quality, SolutionQuality::Optimal));
}

#[test]
fn display_solution_names_quality_count_and_optimal() {
    let info = SolutionInfo::new(vec![Direction::Up], Some(1));
    let text = info.display_solution();
    assert!(text.starts_with("Found "));
    assert!(text.contains("Optimal"));
    assert!(text.contains(" solution in 1 moves"));
    assert!(text.contains(" (Optimal: 1)"));

    let unknown = SolutionInfo::new(vec![Direction::Up, Direction::Down], None);
    let text = unknown.display_solution();
    assert!(text.contains(" solution in 2 moves"));
    assert!(!text.contains("(Optimal:"));
}

#[test]
fn colored_labels_keep_their_words() {
    assert!(SolutionQuality::Optimal.to_colored_string().contains("Optimal"));
    assert!(SolutionQuality::Good.to_colored_string().contains("Good"));
    assert!(SolutionQuality::Poor.to_colored_string().contains("Poor"));
}

#[test]
fn display_solution_renders_multi_digit_counts() {
    let moves = vec![Direction::Left; 12];
    let info = SolutionInfo::new(moves, Some(10));
    let text = info.display_solution();
    assert!(text.contains(" solution in 12 moves"));
    assert!(text.contains(" (Optimal: 10)"));
    assert!(matches!(info.quality, SolutionQuality::Good));
}
