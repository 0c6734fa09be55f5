use sudoku_solver::board::{digit_value, Board, ParseError, BOX, CELLS, SIDE};

const CLASSIC: &str =
    "530070000600195000098000060800060003400803001700020006060000280000419005000080079";

#[test]
fn sizes_are_those_of_a_nine_by_nine_grid() {
    assert_eq!(SIDE, 9);
    assert_eq!(BOX, 3);
    assert_eq!(CELLS, 81);
}

#[test]
fn new_board_is_empty() {
    let board = Board::new();
    assert_eq!(board.cells(), [0u8; 81]);
    for r in 0..9 {
        for c in 0..9 {
            assert_eq!(board.get(r, c), 0);
        }
    }
}

#[test]
fn from_str_reads_digits_in_row_major_order() {
    let board = Board::from_str(CLASSIC).unwrap();
    assert_eq!(board.get(0, 0), 5);
    assert_eq!(board.get(0, 1), 3);
    assert_eq!(board.get(0, 4), 7);
    assert_eq!(board.get(1, 0), 6);
    assert_eq!(board.get(2, 7), 6);
    assert_eq!(board.get(8, 8), 9);
    let cells = board.cells();
    for (i, ch) in CLASSIC.chars().enumerate() {
        assert_eq!(cells[i] as u32, ch.to_digit(10).unwrap());
    }
}

#[test]
fn from_str_rejects_short_input() {
    let text = "0".repeat(80);
    assert_eq!(Board::from_str(&text), Err(ParseError::Length));
}

#[test]
fn from_str_rejects_long_input() {
    let text = "0".repeat(82);
    assert_eq!(Board::from_str(&text), Err(ParseError::Length));
}

#[test]
fn from_str_rejects_empty_input() {
    assert_eq!(Board::from_str(""), Err(ParseError::Length));
}

#[test]
fn from_str_rejects_a_letter() {
    let mut text = "0".repeat(80);
    text.push('x');
    assert_eq!(Board::from_str(&text), Err(ParseError::Digit));
}

#[test]
fn from_str_rejects_a_dot_for_an_empty_cell() {
    let text = CLASSIC.replace('0', ".");
    assert_eq!(Board::from_str(&text), Err(ParseError::Digit));
}

#[test]
fn from_str_rejects_digits_of_other_scripts() {
    // 81 characters, one of them an Arabic-Indic digit: more than 81 bytes.
    let mut text = "1".repeat(80);
    text.push('\u{0663}');
    assert_eq!(text.chars().count(), 81);
    assert_eq!(Board::from_str(&text), Err(ParseError::Digit));
}

#[test]
fn from_str_counts_characters_not_bytes() {
    // 81 bytes but only 80 characters.
    let mut text = "1".repeat(79);
    text.push('\u{00e9}');
    assert_eq!(text.len(), 81);
    assert_eq!(Board::from_str(&text), Err(ParseError::Length));
}

#[test]
fn from_str_rejects_trailing_newline() {
    let mut text = CLASSIC.to_string();
    text.push('\n');
    assert_eq!(Board::from_str(&text), Err(ParseError::Length));
}

#[test]
fn from_cells_keeps_the_cells() {
    let mut cells = [0u8; 81];
    cells[0] = 9;
    cells[40] = 5;
    cells[80] = 1;
    let board = Board::from_cells(cells).unwrap();
    assert_eq!(board.cells(), cells);
    assert_eq!(board.get(0, 0), 9);
    assert_eq!(board.get(4, 4), 5);
    assert_eq!(board.get(8, 8), 1);
}

#[test]
fn from_cells_rejects_a_value_above_nine() {
    let mut cells = [0u8; 81];
    cells[17] = 10;
    assert_eq!(Board::from_cells(cells), Err(ParseError::Digit));
    cells[17] = 255;
    assert_eq!(Board::from_cells(cells), Err(ParseError::Digit));
}

#[test]
fn from_cells_and_from_str_agree() {
    let mut cells = [0u8; 81];
    for (i, ch) in CLASSIC.chars().enumerate() {
        cells[i] = ch.to_digit(10).unwrap() as u8;
    }
    assert_eq!(Board::from_cells(cells), Board::from_str(CLASSIC));
}

#[test]
fn set_changes_one_cell() {
    let mut board = Board::from_str(CLASSIC).unwrap();
    let before = board.cells();
    board.set(0, 2, 4);
    let after = board.cells();
    for i in 0..81 {
        if i == 2 {
            assert_eq!(after[i], 4);
        } else {
            assert_eq!(after[i], before[i]);
        }
    }
    board.set(0, 2, 0);
    assert_eq!(board.cells(), before);
}

#[test]
fn index_gives_rows() {
    let board = Board::from_str(CLASSIC).unwrap();
    assert_eq!(&board[0], &[5, 3, 0, 0, 7, 0, 0, 0, 0]);
    assert_eq!(&board[4], &[4, 0, 0, 8, 0, 3, 0, 0, 1]);
    assert_eq!(&board[8], &[0, 0, 0, 0, 8, 0, 0, 7, 9]);
    assert_eq!(board[1][3], 1);
    for r in 0..9 {
        assert_eq!(board[r].len(), 9);
        for c in 0..9 {
            assert_eq!(board[r][c], board.get(r, c));
        }
    }
}

#[test]
fn digit_value_of_each_digit() {
    for (i, ch) in "0123456789".chars().enumerate() {
        assert_eq!(digit_value(ch), Some(i as u8));
    }
}

#[test]
fn digit_value_of_other_characters() {
    assert_eq!(digit_value('/'), None);
    assert_eq!(digit_value(':'), None);
    assert_eq!(digit_value('a'), None);
    assert_eq!(digit_value(' '), None);
    assert_eq!(digit_value('\u{0663}'), None);
}
