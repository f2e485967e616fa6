use sudoku_graph::{Color, SudokuBoard};

fn grid_of(rows: [&str; 9]) -> Vec<Vec<char>> {
    rows.iter().map(|row| row.chars().collect()).collect()
}

fn text_of(board: &SudokuBoard) -> Vec<String> {
    board.render().iter().map(|row| row.iter().collect()).collect()
}

fn board_of(rows: [&str; 9]) -> SudokuBoard {
    let mut board = SudokuBoard::new();
    board.initialize_board_colors(grid_of(rows));
    board
}

/// All 81 cells are filled, and each row, column and block holds each digit
/// exactly once.
fn is_valid_solution(rows: &[Vec<char>]) -> bool {
    if rows.len() != 9 || rows.iter().any(|row| row.len() != 9) {
        return false;
    }
    for unit in 0..9 {
        for digit in "123456789".chars() {
            let in_row = (0..9).filter(|&k| rows[unit][k] == digit).count();
            let in_col = (0..9).filter(|&k| rows[k][unit] == digit).count();
            let in_block = (0..9)
                .filter(|&k| rows[(unit / 3) * 3 + k / 3][(unit % 3) * 3 + k % 3] == digit)
                .count();
            if in_row != 1 || in_col != 1 || in_block != 1 {
                return false;
            }
        }
    }
    true
}

fn keeps_givens(givens: &[Vec<char>], rows: &[Vec<char>]) -> bool {
    givens.iter().enumerate().all(|(r, row)| {
        row.iter()
            .enumerate()
            .all(|(c, &given)| !('1'..='9').contains(&given) || rows[r][c] == given)
    })
}

const CLASSIC: [&str; 9] = [
    "53..7....",
    "6..195...",
    ".98....6.",
    "8...6...3",
    "4..8.3..1",
    "7...2...6",
    ".6....28.",
    "...419..5",
    "....8..79",
];

#[test]
fn empty_grid_is_solved() {
    let mut board = SudokuBoard::new();
    assert!(board.solve());
    assert!(board.is_complete());
    assert!(!board.has_contadiction());
    assert!(is_valid_solution(&board.render()));
}

#[test]
fn classic_puzzle_has_its_unique_solution() {
    let mut board = board_of(CLASSIC);
    assert!(board.solve());
    assert_eq!(
        text_of(&board),
        vec![
            "534678912",
            "672195348",
            "198342567",
            "859761423",
            "426853791",
            "713924856",
            "961537284",
            "287419635",
            "345286179",
        ]
    );
}

#[test]
fn classic_puzzle_is_solved_by_propagation_alone() {
    let mut board = board_of(CLASSIC);
    board.set_hanging_singles();
    assert!(board.is_complete());
    assert!(is_valid_solution(&board.render()));
}

#[test]
fn solution_keeps_the_givens() {
    let rows = [
        ".......7.",
        ".9.3...1.",
        "6.7.....2",
        "..2.5.9..",
        "..3..4.5.",
        ".5.6.....",
        "....4....",
        "7812..6..",
        ".3...7.8.",
    ];
    let mut board = board_of(rows);
    assert!(board.solve());
    let solved = board.render();
    assert!(is_valid_solution(&solved));
    assert!(keeps_givens(&grid_of(rows), &solved));
}

#[test]
fn hard_puzzle_needs_search() {
    let rows = [
        "8........",
        "..36.....",
        ".7..9.2..",
        ".5...7...",
        "....457..",
        "...1...3.",
        "..1....68",
        "..85...1.",
        ".9....4..",
    ];
    let mut board = board_of(rows);
    board.set_hanging_singles();
    assert!(!board.is_complete());
    assert!(board.solve());
    assert_eq!(
        text_of(&board),
        vec![
            "812753649",
            "943682175",
            "675491283",
            "154237896",
            "369845721",
            "287169534",
            "521974368",
            "438526917",
            "796318452",
        ]
    );
}

#[test]
fn two_fives_in_a_row_cannot_be_solved() {
    let mut board = board_of([
        "5...5....",
        ".........",
        ".........",
        ".........",
        ".........",
        ".........",
        ".........",
        ".........",
        ".........",
    ]);
    assert!(board.conflicted());
    assert!(!board.solve());
}

#[test]
fn repeated_given_in_a_column_or_block_cannot_be_solved() {
    let mut column = SudokuBoard::new();
    column.set_given((0, 3), Color::Two);
    column.set_given((8, 3), Color::Two);
    assert!(column.conflicted());
    assert!(!column.solve());

    let mut block = SudokuBoard::new();
    block.set_given((3, 3), Color::Nine);
    block.set_given((5, 4), Color::Nine);
    assert!(block.conflicted());
    assert!(!block.solve());
}

#[test]
fn consistent_givens_without_completion_are_reported() {
    // Row 0 leaves only 9 for its last cell, and the column of that cell
    // holds a 9 already.
    let mut board = board_of([
        "12345678.",
        "........9",
        ".........",
        ".........",
        ".........",
        ".........",
        ".........",
        ".........",
        ".........",
    ]);
    assert!(!board.conflicted());
    assert!(board.has_contadiction());
    assert!(!board.solve());
}

#[test]
fn failed_search_leaves_a_valid_board() {
    // No cell is without candidates at first, but the two rows ask for the
    // digits 1 to 3 in the same three columns and the block below offers
    // only two of them.
    let mut board = board_of([
        "...456789",
        "...789456",
        "12.......",
        ".........",
        ".........",
        ".........",
        ".........",
        ".........",
        ".........",
    ]);
    assert!(!board.conflicted());
    assert!(!board.solve());
    assert!(!board.is_complete());
}

#[test]
fn solving_a_solved_board_changes_nothing() {
    let mut board = board_of(CLASSIC);
    assert!(board.solve());
    let solved = text_of(&board);
    assert!(board.solve());
    assert_eq!(text_of(&board), solved);
}

#[test]
fn propagation_twice_is_propagation_once() {
    let rows = [
        "8........",
        "..36.....",
        ".7..9.2..",
        ".5...7...",
        "....457..",
        "...1...3.",
        "..1....68",
        "..85...1.",
        ".9....4..",
    ];
    let mut board = board_of(rows);
    board.set_hanging_singles();
    let once = text_of(&board);
    let candidates_once: Vec<Vec<Color>> = (0..81).map(|p| board.candidates_of((p / 9, p % 9))).collect();
    let counts_once: Vec<usize> = (0..10).map(|k| board.cells_with(k).len()).collect();
    assert!(board.cells_with(1).is_empty());
    board.set_hanging_singles();
    let candidates_twice: Vec<Vec<Color>> = (0..81).map(|p| board.candidates_of((p / 9, p % 9))).collect();
    let counts_twice: Vec<usize> = (0..10).map(|k| board.cells_with(k).len()).collect();
    assert_eq!(text_of(&board), once);
    assert_eq!(candidates_twice, candidates_once);
    assert_eq!(counts_twice, counts_once);
}
