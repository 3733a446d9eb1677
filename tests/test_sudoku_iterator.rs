use sudoku::sudoku_iterator::{unit_cells, SudokuIterator, SudokuIteratorMode};

#[test]
fn test_sudoku_iterator_square_mode() {
    let mut iterator = SudokuIterator::<9, 9>::new(4, 4, SudokuIteratorMode::Square);

    let mut results = Vec::new();
    while let Some((r, c)) = iterator.next_square() {
        results.push((r, c));
    }

    let expected = vec![
        (3, 3), (3, 4), (3, 5),
        (4, 3), (4, 4), (4, 5),
        (5, 3), (5, 4), (5, 5),
    ];

    assert_eq!(results, expected);
}

#[test]
fn test_sudoku_iterator_row_mode() {
    // the row traversal keeps the anchor's row index fixed
    let mut iterator = SudokuIterator::<9, 9>::new(2, 0, SudokuIteratorMode::Row);

    let mut results = Vec::new();
    while let Some((r, c)) = iterator.next_row() {
        results.push((r, c));
    }

    let expected = vec![
        (2, 0), (2, 1), (2, 2),
        (2, 3), (2, 4), (2, 5),
        (2, 6), (2, 7), (2, 8),
    ];

    assert_eq!(results, expected);
}

#[test]
fn test_sudoku_iterator_column_mode() {
    // the column traversal keeps the anchor's column index fixed
    let mut iterator = SudokuIterator::<9, 9>::new(0, 5, SudokuIteratorMode::Column);

    let mut results = Vec::new();
    while let Some((r, c)) = iterator.next_column() {
        results.push((r, c));
    }

    let expected = vec![
        (0, 5), (1, 5), (2, 5),
        (3, 5), (4, 5), (5, 5),
        (6, 5), (7, 5), (8, 5),
    ];

    assert_eq!(results, expected);
}

#[test]
fn test_sudoku_iterator_affected_mode() {
    let mut iterator = SudokuIterator::<9, 9>::new(0, 8, SudokuIteratorMode::Affected);

    let mut results = Vec::new();
    while let Some((r, c)) = iterator.next_affected() {
        results.push((r, c));
    }

    let expected = vec![
        // Row 0
        (0, 0), (0, 1), (0, 2), (0, 3), (0, 4), (0, 5), (0, 6), (0, 7), (0, 8),
        (1, 6), (1, 7), (1, 8),
        (2, 6), (2, 7), (2, 8),
        (3, 8), (4, 8), (5, 8), (6, 8), (7, 8), (8, 8),
    ];

    assert_eq!(results, expected);
}

#[test]
fn test_sudoku_iterator_all_mode() {
    let mut iterator = SudokuIterator::<9, 9>::new(0, 0, SudokuIteratorMode::All);

    let mut results = Vec::new();
    while let Some((r, c)) = iterator.next_all() {
        results.push((r, c));
    }

    let mut expected = Vec::new();
    for r in 0..9 {
        for c in 0..9 {
            expected.push((r, c));
        }
    }

    assert_eq!(results, expected);
}

#[test]
fn peer_span_holds_each_peer_once_and_the_anchor() {
    for (row, col) in [(0usize, 0usize), (4, 4), (8, 2), (5, 7)] {
        let cells = unit_cells::<9, 9>(row, col, SudokuIteratorMode::Affected);
        assert_eq!(cells.len(), 21);
        assert!(cells.contains(&(row, col)));
        for r in 0..9 {
            for c in 0..9 {
                let peer = r == row || c == col || (r / 3 == row / 3 && c / 3 == col / 3);
                let n = cells.iter().filter(|p| **p == (r, c)).count();
                assert_eq!(n, if peer { 1 } else { 0 });
            }
        }
    }
}

#[test]
fn generic_next_follows_the_mode() {
    let mut it = SudokuIterator::<9, 9>::new(7, 1, SudokuIteratorMode::Square);
    let mut v = Vec::new();
    while let Some(p) = it.next() {
        v.push(p);
    }
    assert_eq!(v, vec![(6, 0), (6, 1), (6, 2), (7, 0), (7, 1), (7, 2), (8, 0), (8, 1), (8, 2)]);
    assert_eq!(it.next(), None);
}

#[test]
fn blocks_of_a_wider_board() {
    // 12 columns: blocks are 3 rows by 4 columns
    let cells = unit_cells::<9, 12>(4, 5, SudokuIteratorMode::Square);
    let mut expected = Vec::new();
    for r in 3..6 {
        for c in 4..8 {
            expected.push((r, c));
        }
    }
    assert_eq!(cells, expected);
    let row = unit_cells::<9, 12>(4, 5, SudokuIteratorMode::Row);
    assert_eq!(row.len(), 12);
    let col = unit_cells::<9, 12>(4, 5, SudokuIteratorMode::Column);
    assert_eq!(col.len(), 9);
}

#[test]
fn remaining_cells_drains_the_iterator() {
    let mut it = SudokuIterator::<9, 9>::new(3, 3, SudokuIteratorMode::Row);
    assert_eq!(it.next_row(), Some((3, 0)));
    let rest = it.remaining_cells();
    assert_eq!(rest, vec![(3, 1), (3, 2), (3, 3), (3, 4), (3, 5), (3, 6), (3, 7), (3, 8)]);
    assert_eq!(it.next_row(), None);
}
