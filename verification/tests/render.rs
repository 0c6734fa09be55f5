use sudoku_solver::board::Board;

#[test]
fn renders_the_empty_board() {
    let board = Board::new();
    let expected = "0 0 0 | 0 0 0 | 0 0 0 \n\
                    0 0 0 | 0 0 0 | 0 0 0 \n\
                    0 0 0 | 0 0 0 | 0 0 0 \n\
                    ------|-------|------\n\
                    0 0 0 | 0 0 0 | 0 0 0 \n\
                    0 0 0 | 0 0 0 | 0 0 0 \n\
                    0 0 0 | 0 0 0 | 0 0 0 \n\
                    ------|-------|------\n\
                    0 0 0 | 0 0 0 | 0 0 0 \n\
                    0 0 0 | 0 0 0 | 0 0 0 \n\
                    0 0 0 | 0 0 0 | 0 0 0 ";
    assert_eq!(board.render(), expected);
}

#[test]
fn renders_a_solved_board() {
    let board = Board::from_str(
        "148792356352168749679345182213456897465879213897213465521634978736981524984527631",
    )
    .unwrap();
    let expected = "1 4 8 | 7 9 2 | 3 5 6 \n\
                    3 5 2 | 1 6 8 | 7 4 9 \n\
                    6 7 9 | 3 4 5 | 1 8 2 \n\
                    ------|-------|------\n\
                    2 1 3 | 4 5 6 | 8 9 7 \n\
                    4 6 5 | 8 7 9 | 2 1 3 \n\
                    8 9 7 | 2 1 3 | 4 6 5 \n\
                    ------|-------|------\n\
                    5 2 1 | 6 3 4 | 9 7 8 \n\
                    7 3 6 | 9 8 1 | 5 2 4 \n\
                    9 8 4 | 5 2 7 | 6 3 1 ";
    assert_eq!(board.render(), expected);
}

#[test]
fn rendered_text_has_eleven_lines() {
    let text = Board::new().render();
    let lines: Vec<&str> = text.split('\n').collect();
    assert_eq!(lines.len(), 11);
    assert_eq!(lines[3], "------|-------|------");
    assert_eq!(lines[7], "------|-------|------");
    assert!(!text.ends_with('\n'));
    for (i, line) in lines.iter().enumerate() {
        if i != 3 && i != 7 {
            assert_eq!(line.len(), 22);
        }
    }
}
