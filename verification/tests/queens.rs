use classic_algos::queens::{can_place, n_queens};

/// Verify solution using can_place: rebuild board row by row
fn verify_solution(positions: &[usize]) -> bool {
    let n = positions.len();
    let mut board = vec![vec![false; n]; n];

    for (row, &col) in positions.iter().enumerate() {
        if !can_place(&board, row, col) {
            return false;
        }
        board[row][col] = true;
    }
    true
}

#[test]
fn test_n_queens_1() {
    let solution = n_queens(1);
    assert_eq!(solution, Some(vec![0]));
}

#[test]
fn test_n_queens_2_no_solution() {
    assert_eq!(n_queens(2), None);
}

#[test]
fn test_n_queens_3_no_solution() {
    assert_eq!(n_queens(3), None);
}

#[test]
fn test_n_queens_4() {
    let solution = n_queens(4).expect("4-queens has solutions");
    assert_eq!(solution.len(), 4);
    assert!(verify_solution(&solution));
}

#[test]
fn test_n_queens_8() {
    let solution = n_queens(8).expect("8-queens has solutions");
    assert_eq!(solution.len(), 8);
    assert!(verify_solution(&solution));
}

#[test]
fn test_n_queens_5() {
    let solution = n_queens(5).expect("5-queens has solutions");
    assert_eq!(solution.len(), 5);
    assert!(verify_solution(&solution));
}

#[test]
fn test_verify_valid_solution() {
    // Known valid 4-queens solution
    assert!(verify_solution(&[1, 3, 0, 2]));
}

#[test]
fn test_verify_invalid_same_column() {
    assert!(!verify_solution(&[0, 0, 2, 3]));
}

#[test]
fn test_verify_invalid_diagonal() {
    assert!(!verify_solution(&[0, 1, 2, 3]));
}

#[test]
fn test_can_place() {
    let mut board = vec![vec![false; 4]; 4];

    // Empty board, can place anywhere
    assert!(can_place(&board, 0, 0));
    assert!(can_place(&board, 0, 3));

    // Place queen at (0, 1)
    board[0][1] = true;

    // Can't place in same column
    assert!(!can_place(&board, 1, 1));
    assert!(!can_place(&board, 2, 1));

    // Can't place on diagonals
    assert!(!can_place(&board, 1, 0)); // upper-left
    assert!(!can_place(&board, 1, 2)); // upper-right

    // Can place at safe positions
    assert!(can_place(&board, 1, 3));
}
