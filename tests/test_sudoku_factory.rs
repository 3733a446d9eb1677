use rand::rngs::StdRng;
use rand::SeedableRng;

use sudoku::deduction::{hidden_pair_masks, naked_pair_masks};
use sudoku::random_bit::select_bit_at;
use sudoku::sudoku::Sudoku;
use sudoku::sudoku_factory::{
    check_round, commit, dims_supported, finish_guess, propagate_pairs, propagate_singles, EntropyPolicy,
    RoundOutcome, SudokuFactory,
};
use sudoku::sudoku_pencil_notes::PencilNotes;

#[test]
fn test_sudoku_generation() {

    const N_ROWS: usize = 9;
    const N_COLS: usize = 9;

    let rng = Box::new(StdRng::seed_from_u64(42));

    let mut factory = SudokuFactory::<N_ROWS, N_COLS>::new(rng).unwrap();
    for n in 0..100 {
        // a contradiction ends an attempt; a caller wanting a grid runs again
        let mut attempts = 0;
        let sudoku = loop {
            match factory.generate() {
                Ok(sudoku) => break sudoku,
                Err(_) => {
                    attempts += 1;
                    assert!(attempts < 1000, "no grid after {} attempts", attempts);
                }
            }
        };

        println!("Generated Sudoku: {} \n{:?}", n, sudoku.board);

        // Check that all cells are filled (non-zero)
        for r in 0..N_ROWS {
            for c in 0..N_COLS {
                assert!(sudoku.board[r][c] != 0, "Cell ({}, {}) is empty!", r, c);
            }
        }

        // Check that the Sudoku is valid
        assert!(sudoku.is_valid(), "Generated Sudoku is not valid!");
    }
}

fn check_outcome<const R: usize, const C: usize>(factory: &mut SudokuFactory<R, C>) -> bool {
    match factory.generate() {
        Ok(s) => {
            assert!(s.is_complete());
            assert!(s.is_valid());
            true
        }
        Err(e) => {
            assert!(!(e.sudoku.is_complete() && e.sudoku.is_valid() && !e.pencil_notes.has_empty_cell()));
            false
        }
    }
}

#[test]
fn generation_returns_a_full_valid_grid_or_an_error() {
    for seed in 0..20 {
        let mut factory = SudokuFactory::<9, 9>::new(Box::new(StdRng::seed_from_u64(seed))).unwrap();
        check_outcome(&mut factory);
        let mut highest = SudokuFactory::<9, 9>::new(Box::new(StdRng::seed_from_u64(seed)))
            .unwrap()
            .with_policy(EntropyPolicy::Highest);
        check_outcome(&mut highest);
    }
    let mut wide = SudokuFactory::<12, 12>::new(Box::new(StdRng::seed_from_u64(3))).unwrap();
    check_outcome(&mut wide);
}

#[test]
fn unsupported_dimensions_are_refused() {
    let e = SudokuFactory::<9, 10>::new(Box::new(StdRng::seed_from_u64(1))).err().unwrap();
    assert_eq!((e.rows, e.cols), (9, 10));
    assert!(SudokuFactory::<3, 9>::new(Box::new(StdRng::seed_from_u64(1))).is_err());
    assert!(SudokuFactory::<51, 6>::new(Box::new(StdRng::seed_from_u64(1))).is_err());
    assert!(SudokuFactory::<48, 6>::new(Box::new(StdRng::seed_from_u64(1))).is_ok());
    assert!(dims_supported(9, 9));
    assert!(dims_supported(12, 9));
    assert!(!dims_supported(6, 3));
    assert!(!dims_supported(99, 6));
    assert!(!dims_supported(6, 300));
}

#[test]
fn factory_selects_set_bits() {
    let mut factory = SudokuFactory::<9, 9>::new(Box::new(StdRng::seed_from_u64(5))).unwrap();
    assert_eq!(factory.select_random_bit(0), None);
    assert_eq!(factory.select_random_bit(0b100), Some(2));
    for _ in 0..20 {
        let b = factory.select_random_bit(0b1001_0000).unwrap();
        assert!(b == 4 || b == 7);
    }
}

#[test]
fn select_bit_at_counts_set_bits() {
    assert_eq!(select_bit_at(0b1011_0100, 0), 2);
    assert_eq!(select_bit_at(0b1011_0100, 1), 4);
    assert_eq!(select_bit_at(0b1011_0100, 2), 5);
    assert_eq!(select_bit_at(0b1011_0100, 3), 7);
    assert_eq!(select_bit_at(0xffff_ffff, 31), 31);
}

#[test]
fn pair_rules_on_plain_masks() {
    let m = vec![0b11, 0b11, 0b111, 0b1000];
    assert_eq!(naked_pair_masks(&m), vec![0b11, 0b11, 0b100, 0b1000]);
    // symbols 3 and 4 only at positions 0 and 2
    let h = vec![0b1101, 0b0011, 0b1110, 0b0001];
    assert_eq!(hidden_pair_masks(&h, 4), vec![0b1100, 0b0011, 0b1100, 0b0001]);
    // three cells sharing one pair: every one loses it
    let t = vec![0b11, 0b11, 0b11];
    assert_eq!(naked_pair_masks(&t), vec![0, 0, 0]);
}

#[test]
fn grid_checks() {
    let mut board = [[0u32; 9]; 9];
    let s = Sudoku::<9, 9>::new(board);
    assert!(s.is_valid());
    assert!(!s.is_complete());
    assert_eq!(s.max_number(), 9);
    board[0][0] = 5;
    board[4][0] = 5;
    assert!(!Sudoku::<9, 9>::new(board).is_valid());
    board[4][0] = 0;
    board[1][1] = 5;
    assert!(!Sudoku::<9, 9>::new(board).is_valid());
    board[1][1] = 0;
    board[1][4] = 5;
    assert!(Sudoku::<9, 9>::new(board).is_valid());
    let mut full = [[0u32; 9]; 9];
    for r in 0..9 {
        for c in 0..9 {
            full[r][c] = ((r * 3 + r / 3 + c) % 9 + 1) as u32;
        }
    }
    let f = Sudoku::<9, 9>::new(full);
    assert!(f.is_complete());
    assert!(f.is_valid());
    assert_eq!(Sudoku::<12, 12>::empty().max_number(), 16);
}

#[test]
fn single_propagation_is_idempotent_at_a_fixpoint() {
    let mut sudoku = Sudoku::<9, 9>::empty();
    let mut notes = PencilNotes::<9, 9>::new();
    notes.set_possibility(0, 0, 0b1);
    let mut rounds = 0;
    while propagate_singles(&mut sudoku, &mut notes) {
        rounds += 1;
        assert!(rounds < 100);
    }
    assert!(rounds >= 1);
    assert_eq!(sudoku.board[0][0], 1);
    let (s1, n1) = (sudoku, notes);
    assert!(!propagate_singles(&mut sudoku, &mut notes));
    assert_eq!(sudoku, s1);
    assert_eq!(notes, n1);
}

#[test]
fn hidden_single_is_committed() {
    let mut sudoku = Sudoku::<9, 9>::empty();
    let mut notes = PencilNotes::<9, 9>::new();
    // symbol 7 only possible at (4, 4) within its block
    for r in 3..6 {
        for c in 3..6 {
            if (r, c) != (4, 4) {
                notes.remove_possibility(r, c, 7);
            }
        }
    }
    assert!(propagate_singles(&mut sudoku, &mut notes));
    assert_eq!(sudoku.board[4][4], 7);
    assert_eq!(notes.get_possibilities(4, 4), 1 << 6);
    assert!(!notes.has_possibility(4, 0, 7));
}

#[test]
fn contradiction_on_an_unfillable_board() {
    // six cells per row but only four symbols: every run must stop on a contradiction
    for seed in 0..5 {
        let mut factory = SudokuFactory::<6, 6>::new(Box::new(StdRng::seed_from_u64(seed))).unwrap();
        let e = factory.generate().err().unwrap();
        assert!(!(e.sudoku.is_complete() && e.sudoku.is_valid() && !e.pencil_notes.has_empty_cell()));
    }
}

#[test]
fn finishing_a_guess_commits_and_checks() {
    let mut sudoku = Sudoku::<9, 9>::empty();
    let mut notes = PencilNotes::<9, 9>::new();
    assert_eq!(check_round(&sudoku, &notes), RoundOutcome::Continue);
    assert_eq!(finish_guess(&mut sudoku, &mut notes, 0, 0, 5), RoundOutcome::Continue);
    assert_eq!(sudoku.board[0][0], 5);
    assert_eq!(notes.get_possibilities(0, 0), 1 << 4);
    assert!(!notes.has_possibility(0, 8, 5));
    assert!(!notes.has_possibility(8, 0, 5));
    assert!(!notes.has_possibility(2, 2, 5));
    assert!(notes.has_possibility(4, 4, 5));
    // the same symbol in the same row: the grid is no longer valid
    assert_eq!(finish_guess(&mut sudoku, &mut notes, 0, 8, 5), RoundOutcome::Contradiction);
}

#[test]
fn check_round_reports_complete_and_empty_masks() {
    let mut full = [[0u32; 9]; 9];
    for r in 0..9 {
        for c in 0..9 {
            full[r][c] = ((r * 3 + r / 3 + c) % 9 + 1) as u32;
        }
    }
    let grid = Sudoku::<9, 9>::new(full);
    let mut notes = PencilNotes::<9, 9>::new();
    assert_eq!(check_round(&grid, &notes), RoundOutcome::Complete);
    notes.clear_possibilities(3, 3);
    assert_eq!(check_round(&grid, &notes), RoundOutcome::Contradiction);
}

#[test]
fn commit_fills_the_cell_and_clears_peers() {
    let mut sudoku = Sudoku::<9, 9>::empty();
    let mut notes = PencilNotes::<9, 9>::new();
    commit(&mut sudoku, &mut notes, 4, 4, 9);
    assert_eq!(sudoku.board[4][4], 9);
    assert_eq!(notes.get_possibilities(4, 4), 1 << 8);
    assert_eq!(notes.get_possibilities(4, 0), 0b0_1111_1111);
    assert_eq!(notes.get_possibilities(0, 0), 0b1_1111_1111);
}

#[test]
fn pair_rules_run_over_every_unit() {
    let mut notes = PencilNotes::<9, 9>::new();
    // a naked pair in column 7 (rows 1 and 6), outside any shared row or block
    notes.set_possibility(1, 7, 0b11);
    notes.set_possibility(6, 7, 0b11);
    propagate_pairs(&mut notes);
    assert_eq!(notes.get_possibilities(4, 7), 0b1_1111_1100);
    assert_eq!(notes.get_possibilities(1, 7), 0b11);
    assert_eq!(notes.get_possibilities(4, 4), 0b1_1111_1111);
}
