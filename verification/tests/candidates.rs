use sudoku_solver::board::Board;

const CLASSIC: &str =
    "530070000600195000098000060800060003400803001700020006060000280000419005000080079";

#[test]
fn every_digit_is_a_candidate_on_an_empty_board() {
    let board = Board::new();
    for r in 0..9 {
        for c in 0..9 {
            assert_eq!(board.candidates(r, c), vec![1, 2, 3, 4, 5, 6, 7, 8, 9]);
            assert_eq!(
                board.valid_for_position(r, c),
                [false, true, true, true, true, true, true, true, true, true]
            );
        }
    }
}

#[test]
fn candidates_of_empty_cells() {
    let board = Board::from_str(CLASSIC).unwrap();
    assert_eq!(board.candidates(0, 2), vec![1, 2, 4]);
    assert_eq!(board.candidates(4, 4), vec![5]);
    assert_eq!(board.candidates(8, 0), vec![1, 2, 3]);
}

#[test]
fn candidates_of_a_filled_cell_leave_out_its_own_digit() {
    let board = Board::from_str(CLASSIC).unwrap();
    assert_eq!(board.get(0, 0), 5);
    assert_eq!(board.candidates(0, 0), vec![1, 2]);
}

#[test]
fn mask_and_list_agree() {
    let board = Board::from_str(CLASSIC).unwrap();
    for r in 0..9 {
        for c in 0..9 {
            let mask = board.valid_for_position(r, c);
            let list = board.candidates(r, c);
            assert!(!mask[0]);
            for d in 1..10u8 {
                assert_eq!(mask[d as usize], list.contains(&d));
            }
            assert!(list.windows(2).all(|w| w[0] < w[1]));
        }
    }
}

#[test]
fn a_digit_in_the_row_is_no_candidate() {
    let mut board = Board::new();
    board.set(4, 8, 7);
    assert_eq!(board.candidates(4, 0), vec![1, 2, 3, 4, 5, 6, 8, 9]);
    assert_eq!(board.candidates(3, 0), vec![1, 2, 3, 4, 5, 6, 7, 8, 9]);
}

#[test]
fn a_digit_in_the_column_is_no_candidate() {
    let mut board = Board::new();
    board.set(8, 4, 3);
    assert_eq!(board.candidates(0, 4), vec![1, 2, 4, 5, 6, 7, 8, 9]);
    assert_eq!(board.candidates(0, 5), vec![1, 2, 3, 4, 5, 6, 7, 8, 9]);
}

#[test]
fn a_digit_in_the_box_is_no_candidate() {
    let mut board = Board::new();
    board.set(5, 5, 9);
    assert_eq!(board.candidates(3, 3), vec![1, 2, 3, 4, 5, 6, 7, 8]);
    assert_eq!(board.candidates(4, 4), vec![1, 2, 3, 4, 5, 6, 7, 8]);
    assert_eq!(board.candidates(2, 2), vec![1, 2, 3, 4, 5, 6, 7, 8, 9]);
    assert_eq!(board.candidates(6, 6), vec![1, 2, 3, 4, 5, 6, 7, 8, 9]);
}

#[test]
fn a_cell_can_have_no_candidate() {
    let mut board = Board::new();
    for c in 0..8 {
        board.set(0, c, c as u8 + 1);
    }
    board.set(1, 8, 9);
    assert_eq!(board.candidates(0, 8), Vec::<u8>::new());
    assert_eq!(board.valid_for_position(0, 8), [false; 10]);
}

#[test]
fn candidates_twice_give_the_same() {
    let board = Board::from_str(CLASSIC).unwrap();
    for r in 0..9 {
        for c in 0..9 {
            assert_eq!(board.candidates(r, c), board.candidates(r, c));
            assert_eq!(board.valid_for_position(r, c), board.valid_for_position(r, c));
        }
    }
}

#[test]
fn candidates_do_not_change_the_board() {
    let board = Board::from_str(CLASSIC).unwrap();
    let before = board.clone();
    let _ = board.candidates(3, 3);
    let _ = board.valid_for_position(3, 3);
    assert_eq!(board, before);
}
