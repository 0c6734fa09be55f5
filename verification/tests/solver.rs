use sudoku_solver::board::Board;

const CLASSIC: &str =
    "530070000600195000098000060800060003400803001700020006060000280000419005000080079";
const CLASSIC_SOLVED: &str =
    "534678912672195348198342567859761423426853791713924856961537284287419635345286179";
const FIRST_GRID: &str =
    "123456789456789123789123456214365897365897214897214365531642978642978531978531642";

fn is_permutation(digits: [u8; 9]) -> bool {
    let mut seen = [false; 10];
    for d in digits {
        if d < 1 || d > 9 || seen[d as usize] {
            return false;
        }
        seen[d as usize] = true;
    }
    true
}

fn is_solved(board: &Board) -> bool {
    for u in 0..9 {
        let mut row = [0u8; 9];
        let mut col = [0u8; 9];
        let mut bx = [0u8; 9];
        for k in 0..9 {
            row[k] = board.get(u, k);
            col[k] = board.get(k, u);
            bx[k] = board.get(u / 3 * 3 + k / 3, u % 3 * 3 + k % 3);
        }
        if !is_permutation(row) || !is_permutation(col) || !is_permutation(bx) {
            return false;
        }
    }
    true
}

fn keeps_givens(before: &Board, after: &Board) -> bool {
    let b = before.cells();
    let a = after.cells();
    (0..81).all(|i| b[i] == 0 || a[i] == b[i])
}

#[test]
fn solves_the_fixture_with_three_given_rows() {
    let mut cells = [0u8; 81];
    cells[0..9].copy_from_slice(&[0, 0, 0, 7, 9, 0, 0, 5, 0]);
    cells[9..18].copy_from_slice(&[3, 5, 2, 0, 0, 8, 0, 4, 0]);
    cells[18..27].copy_from_slice(&[0, 0, 0, 0, 0, 0, 0, 8, 0]);
    let before = Board::from_cells(cells).unwrap();
    let mut board = before.clone();
    assert!(board.solve());
    assert!(is_solved(&board));
    assert!(keeps_givens(&before, &board));
    let expected = Board::from_str(
        "148792356352168749679345182213456897465879213897213465521634978736981524984527631",
    )
    .unwrap();
    assert_eq!(board, expected);
}

#[test]
fn solves_the_empty_board() {
    let mut board = Board::new();
    assert!(board.solve());
    assert!(is_solved(&board));
}

#[test]
fn empty_board_ends_as_the_first_grid() {
    let mut board = Board::new();
    assert!(board.solve());
    assert_eq!(board, Board::from_str(FIRST_GRID).unwrap());
}

#[test]
fn duplicate_in_a_row_is_not_solved() {
    let mut cells = [0u8; 81];
    cells[0..9].copy_from_slice(&[1, 1, 2, 3, 4, 5, 6, 7, 0]);
    cells[17] = 8;
    cells[26] = 9;
    let before = Board::from_cells(cells).unwrap();
    let mut board = before.clone();
    assert!(!board.solve());
    assert_eq!(board, before);
    assert_eq!(board.cells(), cells);
}

#[test]
fn solves_a_puzzle_with_one_solution() {
    let before = Board::from_str(CLASSIC).unwrap();
    let mut board = before.clone();
    assert!(board.solve());
    assert!(is_solved(&board));
    assert!(keeps_givens(&before, &board));
    assert_eq!(board, Board::from_str(CLASSIC_SOLVED).unwrap());
}

#[test]
fn a_solved_grid_stays_as_it_is() {
    let mut board = Board::from_str(CLASSIC_SOLVED).unwrap();
    assert_eq!(board.empty_slots(), vec![]);
    assert!(board.solve());
    assert_eq!(board, Board::from_str(CLASSIC_SOLVED).unwrap());
}

#[test]
fn of_two_completions_the_first_is_found() {
    // Four cells of the solved grid that can hold 6 7 / 7 6 or 7 6 / 6 7.
    let mut board = Board::from_str(CLASSIC_SOLVED).unwrap();
    board.set(0, 3, 0);
    board.set(0, 4, 0);
    board.set(3, 3, 0);
    board.set(3, 4, 0);
    let mut other = board.clone();
    other.set(0, 3, 7);
    other.set(0, 4, 6);
    other.set(3, 3, 6);
    other.set(3, 4, 7);
    assert!(is_solved(&other));
    assert!(board.solve());
    assert_eq!(board, Board::from_str(CLASSIC_SOLVED).unwrap());
    assert!(board.cells() < other.cells());
}

#[test]
fn dead_end_without_duplicates_is_not_solved() {
    // The last cell of the first row can only hold 9, which its column has.
    let mut cells = [0u8; 81];
    cells[0..9].copy_from_slice(&[1, 2, 3, 4, 5, 6, 7, 8, 0]);
    cells[17] = 9;
    let before = Board::from_cells(cells).unwrap();
    let mut board = before.clone();
    assert!(!board.solve());
    assert_eq!(board, before);
}

#[test]
fn failure_after_backtracking_restores_the_board() {
    // The two last cells of the first row need 8 and 9; the last column
    // holds both, so each choice for the first of them fails at the second.
    let mut cells = [0u8; 81];
    cells[0..9].copy_from_slice(&[1, 2, 3, 4, 5, 6, 7, 0, 0]);
    cells[3 * 9 + 8] = 8;
    cells[4 * 9 + 8] = 9;
    let before = Board::from_cells(cells).unwrap();
    let mut board = before.clone();
    assert_eq!(board.candidates(0, 7), vec![8, 9]);
    assert!(!board.solve());
    assert_eq!(board, before);
    assert_eq!(board.cells(), cells);
}

#[test]
fn a_full_grid_with_duplicates_counts_as_solved() {
    // Nothing is left to fill, and what is given is not examined.
    let mut board = Board::from_cells([1u8; 81]).unwrap();
    assert!(board.solve());
    assert_eq!(board.cells(), [1u8; 81]);
}

#[test]
fn solving_twice_gives_the_same() {
    let mut first = Board::from_str(CLASSIC).unwrap();
    let mut second = Board::from_str(CLASSIC).unwrap();
    let a = first.solve();
    let b = second.solve();
    assert_eq!(a, b);
    assert_eq!(first, second);
    assert_eq!(first.cells(), second.cells());

    let mut cells = [0u8; 81];
    cells[0..9].copy_from_slice(&[1, 2, 3, 4, 5, 6, 7, 8, 0]);
    cells[17] = 9;
    let mut third = Board::from_cells(cells).unwrap();
    let mut fourth = Board::from_cells(cells).unwrap();
    assert_eq!(third.solve(), fourth.solve());
    assert_eq!(third, fourth);
}

#[test]
fn empty_slots_of_an_empty_board() {
    let board = Board::new();
    let slots = board.empty_slots();
    assert_eq!(slots.len(), 81);
    for (i, slot) in slots.iter().enumerate() {
        assert_eq!(*slot, (i / 9, i % 9));
    }
}

#[test]
fn empty_slots_in_row_major_order() {
    let board = Board::from_str(CLASSIC).unwrap();
    let slots = board.empty_slots();
    assert_eq!(slots.len(), 51);
    assert_eq!(
        &slots[..12],
        &[
            (0, 2),
            (0, 3),
            (0, 5),
            (0, 6),
            (0, 7),
            (0, 8),
            (1, 1),
            (1, 2),
            (1, 6),
            (1, 7),
            (1, 8),
            (2, 0)
        ]
    );
    assert_eq!(slots[50], (8, 6));
    for &(r, c) in &slots {
        assert_eq!(board.get(r, c), 0);
    }
}

#[test]
fn solve_internal_with_no_slot_succeeds() {
    let before = Board::from_str(CLASSIC).unwrap();
    let mut board = before.clone();
    assert!(board.solve_internal(&[]));
    assert_eq!(board, before);
}

#[test]
fn solve_internal_fills_the_given_slots_only() {
    let mut board = Board::new();
    assert!(board.solve_internal(&[(0, 0), (0, 1), (1, 0), (8, 8)]));
    let mut expected = [0u8; 81];
    expected[0] = 1;
    expected[1] = 2;
    expected[9] = 3;
    expected[80] = 1;
    assert_eq!(board.cells(), expected);
}

#[test]
fn solve_internal_follows_the_order_of_the_slots() {
    let mut board = Board::new();
    assert!(board.solve_internal(&[(0, 1), (0, 0)]));
    assert_eq!(board.get(0, 1), 1);
    assert_eq!(board.get(0, 0), 2);
}

#[test]
fn solve_internal_over_all_empty_cells_is_solve() {
    let mut first = Board::from_str(CLASSIC).unwrap();
    let mut second = first.clone();
    let slots = first.empty_slots();
    assert_eq!(first.solve_internal(&slots), second.solve());
    assert_eq!(first, second);
}

#[test]
fn solve_internal_that_fails_restores_the_slots() {
    let mut cells = [0u8; 81];
    cells[0..9].copy_from_slice(&[1, 2, 3, 4, 5, 6, 7, 0, 0]);
    cells[3 * 9 + 8] = 8;
    cells[4 * 9 + 8] = 9;
    let before = Board::from_cells(cells).unwrap();
    let mut board = before.clone();
    assert!(!board.solve_internal(&[(0, 7), (0, 8)]));
    assert_eq!(board, before);
}
