use sudoku_graph::{Cell, Color, SudokuBoard, COLORS};

fn peers_of(row: usize, col: usize) -> Vec<(usize, usize)> {
    let mut peers = Vec::new();
    for r in 0..9 {
        for c in 0..9 {
            let same_block = r / 3 == row / 3 && c / 3 == col / 3;
            if (r, c) != (row, col) && (r == row || c == col || same_block) {
                peers.push((r, c));
            }
        }
    }
    peers
}

fn sorted(mut cells: Vec<(usize, usize)>) -> Vec<(usize, usize)> {
    cells.sort();
    cells
}

fn bucket_counts(board: &SudokuBoard) -> Vec<usize> {
    (0..10).map(|k| board.cells_with(k).len()).collect()
}

/// Every cell stands in the bucket of the number of its candidates, and in no other.
fn buckets_are_consistent(board: &SudokuBoard) -> bool {
    (0..10).all(|k| {
        let listed = sorted(board.cells_with(k));
        let expected: Vec<(usize, usize)> = (0..81)
            .map(|p| (p / 9, p % 9))
            .filter(|&cell| board.candidates_of(cell).len() == k)
            .collect();
        listed == expected
    })
}

/// No two cells that exclude each other hold the same symbol.
fn assignments_are_consistent(board: &SudokuBoard) -> bool {
    (0..81).map(|p| (p / 9, p % 9)).all(|cell| match board.value_at(cell) {
        None => true,
        Some(color) => peers_of(cell.0, cell.1)
            .into_iter()
            .all(|peer| board.value_at(peer) != Some(color)),
    })
}

#[test]
fn colors_are_listed_in_ascending_order() {
    let digits: Vec<u8> = COLORS.iter().map(|color| color.digit()).collect();
    assert_eq!(digits, vec![1, 2, 3, 4, 5, 6, 7, 8, 9]);
    assert_eq!(COLORS[0], Color::One);
    assert_eq!(COLORS[8], Color::Nine);
}

#[test]
fn color_numbers_read_back() {
    for color in COLORS {
        assert_eq!(Color::from_digit(color.digit()), Some(color));
    }
    assert_eq!(Color::from_digit(0), None);
    assert_eq!(Color::from_digit(10), None);
    assert_eq!(Color::from_digit(7), Some(Color::Seven));
}

#[test]
fn color_characters_read_back() {
    assert_eq!(Color::from_char('1'), Some(Color::One));
    assert_eq!(Color::from_char('9'), Some(Color::Nine));
    assert_eq!(Color::from_char('.'), None);
    assert_eq!(Color::from_char('0'), None);
    assert_eq!(Color::from_char('x'), None);
    assert_eq!(Color::to_char(None), '.');
    assert_eq!(Color::to_char(Some(Color::Four)), '4');
    for color in COLORS {
        assert_eq!(Color::from_char(Color::to_char(Some(color))), Some(color));
    }
}

#[test]
fn new_cell_is_empty() {
    let cell: Cell = Cell::new(17);
    let copy = cell.clone();
    drop(cell);
    drop(copy);
}

#[test]
fn new_board_is_empty_with_all_candidates() {
    let board = SudokuBoard::new();
    assert!(!board.conflicted());
    assert!(!board.is_complete());
    assert!(!board.has_contadiction());
    assert_eq!(bucket_counts(&board), vec![0, 0, 0, 0, 0, 0, 0, 0, 0, 81]);
    for p in 0..81 {
        assert_eq!(board.value_at((p / 9, p % 9)), None);
        assert_eq!(board.candidates_of((p / 9, p % 9)), COLORS.to_vec());
    }
    assert_eq!(board.render(), vec![vec!['.'; 9]; 9]);
}

#[test]
fn every_cell_has_its_twenty_neighbors() {
    let board = SudokuBoard::new();
    for row in 0..9 {
        for col in 0..9 {
            let neighbors = board.get_cell_constraint_neighbors((row, col));
            assert_eq!(neighbors.len(), 20);
            assert_eq!(sorted(neighbors), peers_of(row, col));
        }
    }
}

#[test]
fn neighbors_of_the_corner_cell() {
    let board = SudokuBoard::new();
    assert_eq!(
        sorted(board.get_cell_constraint_neighbors((0, 0))),
        vec![
            (0, 1), (0, 2), (0, 3), (0, 4), (0, 5), (0, 6), (0, 7), (0, 8),
            (1, 0), (1, 1), (1, 2),
            (2, 0), (2, 1), (2, 2),
            (3, 0), (4, 0), (5, 0), (6, 0), (7, 0), (8, 0),
        ]
    );
}

#[test]
fn assigning_takes_the_symbol_from_the_neighbors() {
    let mut board = SudokuBoard::new();
    board.set_cell_color((4, 4), Color::Five);
    assert_eq!(board.value_at((4, 4)), Some(Color::Five));
    assert!(board.candidates_of((4, 4)).is_empty());
    let without_five: Vec<Color> = COLORS.iter().copied().filter(|&c| c != Color::Five).collect();
    for row in 0..9 {
        for col in 0..9 {
            if (row, col) == (4, 4) {
                continue;
            }
            let expected = if peers_of(4, 4).contains(&(row, col)) { without_five.clone() } else { COLORS.to_vec() };
            assert_eq!(board.candidates_of((row, col)), expected);
        }
    }
    assert_eq!(bucket_counts(&board), vec![1, 0, 0, 0, 0, 0, 0, 0, 20, 60]);
    assert_eq!(board.cells_with(0), vec![(4, 4)]);
    assert_eq!(sorted(board.cells_with(8)), peers_of(4, 4));
    assert!(buckets_are_consistent(&board));
}

#[test]
fn broadcast_on_a_valid_board_changes_nothing() {
    let mut board = SudokuBoard::new();
    board.set_cell_color((2, 7), Color::Three);
    let counts = bucket_counts(&board);
    let shown = board.render();
    board.brodcast_cell_color_to_neighbors((2, 7));
    board.brodcast_cell_color_to_neighbors((0, 0));
    assert_eq!(bucket_counts(&board), counts);
    assert_eq!(board.render(), shown);
    assert!(buckets_are_consistent(&board));
}

#[test]
fn buckets_follow_every_assignment() {
    let mut board = SudokuBoard::new();
    let steps = [
        ((0, 0), Color::One),
        ((0, 1), Color::Two),
        ((1, 3), Color::One),
        ((4, 4), Color::Nine),
        ((8, 8), Color::One),
        ((2, 2), Color::Three),
    ];
    for (cell, color) in steps {
        board.set_cell_color(cell, color);
        assert!(buckets_are_consistent(&board));
        assert!(assignments_are_consistent(&board));
        assert_eq!(bucket_counts(&board).iter().sum::<usize>(), 81);
    }
    assert_eq!(board.candidates_of((0, 2)).len(), 6);
    assert_eq!(
        board.candidates_of((0, 2)),
        vec![Color::Four, Color::Five, Color::Six, Color::Seven, Color::Eight, Color::Nine]
    );
}

#[test]
fn a_neighbor_may_lose_its_last_candidate() {
    let mut board = SudokuBoard::new();
    let row = [Color::One, Color::Two, Color::Three, Color::Four, Color::Five, Color::Six, Color::Seven, Color::Eight];
    for (col, color) in row.into_iter().enumerate() {
        board.set_cell_color((0, col), color);
    }
    assert_eq!(board.candidates_of((0, 8)), vec![Color::Nine]);
    assert_eq!(board.cells_with(1), vec![(0, 8)]);
    assert!(!board.has_contadiction());
    board.set_cell_color((5, 8), Color::Nine);
    assert!(board.candidates_of((0, 8)).is_empty());
    assert_eq!(board.value_at((0, 8)), None);
    assert!(board.cells_with(0).contains(&(0, 8)));
    assert!(board.cells_with(1).is_empty());
    assert!(board.has_contadiction());
    assert!(buckets_are_consistent(&board));
}

#[test]
fn givens_are_placed_and_other_characters_ignored() {
    let mut board = SudokuBoard::new();
    board.initialize_board_colors(vec![
        vec!['5', '3', '.', ' ', '7', 'x', '0', '-', '?'],
        vec!['6'],
        vec![],
        vec!['.', '.', '.', '.', '.', '.', '.', '.', '4'],
    ]);
    assert!(!board.conflicted());
    assert_eq!(
        board.render(),
        vec![
            vec!['5', '3', '.', '.', '7', '.', '.', '.', '.'],
            vec!['6', '.', '.', '.', '.', '.', '.', '.', '.'],
            vec!['.'; 9],
            vec!['.', '.', '.', '.', '.', '.', '.', '.', '4'],
            vec!['.'; 9],
            vec!['.'; 9],
            vec!['.'; 9],
            vec!['.'; 9],
            vec!['.'; 9],
        ]
    );
    assert!(buckets_are_consistent(&board));
    assert!(assignments_are_consistent(&board));
}

#[test]
fn the_order_of_givens_does_not_matter() {
    let givens = [
        ((0, 0), Color::Five),
        ((0, 1), Color::Three),
        ((1, 0), Color::Six),
        ((4, 4), Color::Five),
        ((8, 8), Color::Nine),
        ((2, 1), Color::Nine),
    ];
    let mut forward = SudokuBoard::new();
    for (cell, color) in givens {
        forward.set_given(cell, color);
    }
    let mut backward = SudokuBoard::new();
    for (cell, color) in givens.into_iter().rev() {
        backward.set_given(cell, color);
    }
    assert_eq!(forward.render(), backward.render());
    for p in 0..81 {
        assert_eq!(forward.candidates_of((p / 9, p % 9)), backward.candidates_of((p / 9, p % 9)));
    }
    assert_eq!(bucket_counts(&forward), bucket_counts(&backward));
}

#[test]
fn a_contradicting_given_is_marked_and_not_placed() {
    let mut board = SudokuBoard::new();
    board.set_given((0, 0), Color::Five);
    assert!(!board.conflicted());
    board.set_given((0, 0), Color::Five);
    assert!(!board.conflicted());
    board.set_given((0, 4), Color::Five);
    assert!(board.conflicted());
    assert_eq!(board.value_at((0, 4)), None);
    assert_eq!(board.value_at((0, 0)), Some(Color::Five));
    assert!(assignments_are_consistent(&board));
    assert!(buckets_are_consistent(&board));

    let mut other = SudokuBoard::new();
    other.set_given((3, 3), Color::One);
    other.set_given((3, 3), Color::Two);
    assert!(other.conflicted());
    assert_eq!(other.value_at((3, 3)), Some(Color::One));
}

#[test]
fn selection_takes_a_cell_with_the_fewest_candidates() {
    let mut board = SudokuBoard::new();
    assert!(board.select_unassigned_cell().is_some());
    board.set_cell_color((0, 0), Color::One);
    board.set_cell_color((0, 1), Color::Two);
    board.set_cell_color((1, 3), Color::Three);
    // (0, 3) sees 1 and 2 in its row and 3 in its block.
    let (row, col) = board.select_unassigned_cell().unwrap();
    assert_eq!(board.candidates_of((row, col)).len(), 6);
    assert_eq!(board.value_at((row, col)), None);
    let fewest = (0..81)
        .map(|p| board.candidates_of((p / 9, p % 9)).len())
        .filter(|&n| n >= 2)
        .min()
        .unwrap();
    assert_eq!(fewest, 6);
}

#[test]
fn selection_finds_nothing_on_a_solved_board() {
    let mut board = SudokuBoard::new();
    assert!(board.solve());
    assert_eq!(board.select_unassigned_cell(), None);
    assert_eq!(bucket_counts(&board), vec![81, 0, 0, 0, 0, 0, 0, 0, 0, 0]);
    assert!(assignments_are_consistent(&board));
}

#[test]
fn a_copy_is_a_board_of_its_own() {
    let mut board = SudokuBoard::new();
    board.set_cell_color((0, 0), Color::One);
    let mut copy = board.clone();
    assert_eq!(copy.render(), board.render());
    assert_eq!(bucket_counts(&copy), bucket_counts(&board));
    copy.set_cell_color((8, 8), Color::Two);
    assert_eq!(board.value_at((8, 8)), None);
    assert_eq!(board.candidates_of((8, 0)).len(), 8);
    assert_eq!(copy.candidates_of((8, 0)).len(), 7);
    assert_eq!(sorted(copy.get_cell_constraint_neighbors((8, 8))), peers_of(8, 8));
    assert!(buckets_are_consistent(&board));
    assert!(buckets_are_consistent(&copy));
}
