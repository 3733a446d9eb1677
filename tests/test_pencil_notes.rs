use rand::rngs::StdRng;
use rand::SeedableRng;

use sudoku::sudoku_iterator::SudokuIteratorMode;
use sudoku::sudoku_pencil_notes::{
    get_possible_numbers, HiddenSingleIterator, PencilNotes, PossibilityIterator, RandomBit,
};

#[test]
fn test_naked_pair_removes_candidates() {

    let mut pencil_notes = PencilNotes::<9, 9>::new();

    pencil_notes.clear();

    // Set up two cells with identical candidate pairs
    pencil_notes.set_possibility(0, 0, 0b000000011); // Candidates 1 and 2
    pencil_notes.set_possibility(0, 1, 0b000000011); // Candidates 1 and 2 (this is the naked pair)

    // Set up a third cell in the same unit with additional candidates
    pencil_notes.set_possibility(0, 2, 0b000011100); // Candidates    3, 4, 5
    pencil_notes.set_possibility(0, 3, 0b111000001); // Naked pair removal would eliminate 1 here
    pencil_notes.set_possibility(0, 5, 0b000101100); // Candidates    3, 4,  , 6 (this is a hidden pair)

    // Apply naked pair logic to row 0
    pencil_notes.handle_naked_pairs(0, 0, SudokuIteratorMode::Row);

    // Verify that candidates 1 and 2 have been removed from other cells in the unit
    assert_eq!(pencil_notes.get_possibilities(0, 0), 0b000000011);
    assert_eq!(pencil_notes.get_possibilities(0, 1), 0b000000011);
    assert_eq!(pencil_notes.get_possibilities(0, 2), 0b000011100);
    assert_eq!(pencil_notes.get_possibilities(0, 3), 0b111000000); // 1 and 2 removed
    assert_eq!(pencil_notes.get_possibilities(0, 5), 0b000101100);
}

#[test]
fn test_hidden_pair_removes_candidates() {

    let mut pencil_notes = PencilNotes::<9, 9>::new();

    pencil_notes.clear();

    // Set up two cells with identical candidate pairs
    pencil_notes.set_possibility(0, 0, 0b000000011); // Candidates 1 and 2
    pencil_notes.set_possibility(0, 1, 0b000000011); // Candidates 1 and 2 (this is the naked pair)

    // Set up a third cell in the same unit with additional candidates
    pencil_notes.set_possibility(0, 2, 0b000011100); // Candidates    3, 4, 5    (3, 4 is hidden pair)
    pencil_notes.set_possibility(0, 3, 0b111000001); // naked pair removal would eliminate 1 here
    pencil_notes.set_possibility(0, 5, 0b000101100); // Candidates    3, 4,  , 6 (3, 4 is a hidden pair)

    let before: Vec<String> = (0..9).map(|i| format!("{:09b}", pencil_notes.possibilities[0][i])).collect();
    println!("Before: {}", before.join(", "));

    // Apply hidden pair logic to row 0
    pencil_notes.handle_hidden_pairs(0, 0, SudokuIteratorMode::Row);

    let after: Vec<String> = (0..9).map(|i| format!("{:09b}", pencil_notes.possibilities[0][i])).collect();
    println!("After: {}", after.join(", "));

    assert_eq!(pencil_notes.get_possibilities(0, 0), 0b000000011);
    assert_eq!(pencil_notes.get_possibilities(0, 1), 0b000000011);
    assert_eq!(pencil_notes.get_possibilities(0, 2), 0b000001100);
    assert_eq!(pencil_notes.get_possibilities(0, 3), 0b111000001);
    assert_eq!(pencil_notes.get_possibilities(0, 5), 0b000001100);
}

#[test]
fn test_returns_none_for_empty_mask() {

    let mut random_bit = RandomBit::new(Box::new(StdRng::seed_from_u64(42)));
    let mask = 0;
    assert_eq!(random_bit.select_random_bit(mask), None);
}

#[test]
fn test_returns_exact_index_for_single_bit(){
    // Mask: 000...01000 (only index 3 is set)
    let mut random_bit = RandomBit::new(Box::new(StdRng::seed_from_u64(42)));

    // Run it multiple times to ensure it's not accidentally working
    for i in 0..10 as u32 {
        let mask = 1 << i;
        assert_eq!(random_bit.select_random_bit(mask), Some(i));
    }
}

#[test]
fn test_picks_valid_options_only() {
    let mut random_bit = RandomBit::new(Box::new(StdRng::seed_from_u64(42)));

    for _ in 0..50 {
        let mask = rand::random::<u32>();
        let result = random_bit.select_random_bit(mask).unwrap();

        assert!(result < 32, "Function returned out-of-bounds index: {}", result);

        let result = (1 as u32) << result; // Convert to 0-based index

        let valid = mask & result == result;
        assert!(valid, "Function selected an invalid bit: {:08x} != {:08x}", result, mask);
    }
}

#[test]
fn test_eventually_picks_all_options() {

    let mut random_bit = RandomBit::new(Box::new(StdRng::seed_from_u64(42)));

    // Mask: 11 (Indices 0 and 1 are set)
    let mask = (1 << 0) | (1 << 1);

    let mut picked_zero = false;
    let mut picked_one = false;

    // Run enough times to statistically guarantee both are picked
    for _ in 0..100 {
        match random_bit.select_random_bit(mask) {
            Some(0) => picked_zero = true,
            Some(1) => picked_one = true,
            _ => panic!("Picked invalid bit"),
        }
        if picked_one && picked_zero {
            break;
        }
    }

    assert!(picked_zero, "Failed to pick bit 0 after 100 tries (bad RNG?)");
    assert!(picked_one, "Failed to pick bit 1 after 100 tries (bad RNG?)");
}

#[test]
fn test_select_random()
{
    let mut random_bit= RandomBit::new(Box::new(StdRng::seed_from_u64(42)));

    let mut mask:u32 = (1u32 << 9) - 1;

    for _ in 0..9
    {
        if let Some(number) = random_bit.select_random_bit(mask) {

            let old_mask = mask;
            let selected = 1u32 << number;
            mask = mask & !selected;
            println!("selected from mask: 0b{:09b} & !0b{:09b} ({}) -> 0b{:09b}", old_mask, selected, number, mask);

        } else {
            println!("Could not select from mask 0b{:09b}", mask);
        }
    }
    assert_eq!(mask, 0);
}

#[test]
fn selection_returns_a_set_bit_for_every_mask_shape() {
    let mut random_bit = RandomBit::new(Box::new(StdRng::seed_from_u64(7)));
    for mask in [1u32, 0x8000_0000, 0xffff_ffff, 0b1010_0000, 0x0001_0001] {
        for _ in 0..20 {
            let b = random_bit.select_random_bit(mask).unwrap();
            assert!(b < 32);
            assert_ne!(mask & (1 << b), 0);
        }
    }
}

#[test]
fn new_notes_list_every_symbol() {
    let notes = PencilNotes::<9, 9>::new();
    for r in 0..9 {
        for c in 0..9 {
            assert_eq!(notes.get_possibilities(r, c), 0b1_1111_1111);
            assert_eq!(notes.count_possibilities(r, c), 9);
        }
    }
    let wide = PencilNotes::<12, 12>::new();
    assert_eq!(wide.get_possibilities(11, 11), 0xffff);
    let widest = PencilNotes::<48, 6>::new();
    assert_eq!(widest.get_possibilities(0, 0), 0xffff_ffff);
}

#[test]
fn reset_and_clear() {
    let mut notes = PencilNotes::<9, 9>::new();
    notes.clear();
    assert_eq!(notes.get_possibilities(4, 4), 0);
    notes.reset();
    assert_eq!(notes.get_possibilities(4, 4), 0b1_1111_1111);
}

#[test]
fn single_cell_updates() {
    let mut notes = PencilNotes::<9, 9>::new();
    notes.clear();
    notes.add_possibility(1, 2, 3);
    notes.add_possibility(1, 2, 9);
    assert_eq!(notes.get_possibilities(1, 2), 0b1_0000_0100);
    assert!(notes.has_possibility(1, 2, 3));
    assert!(!notes.has_possibility(1, 2, 4));
    assert_eq!(notes.get_possibility(1, 2), None);
    notes.remove_possibility(1, 2, 9);
    assert_eq!(notes.get_possibilities(1, 2), 0b100);
    assert_eq!(notes.get_possibility(1, 2), Some(3));
    notes.clear_possibilities(1, 2);
    assert_eq!(notes.get_possibilities(1, 2), 0);
    assert_eq!(notes.count_possibilities(1, 2), 0);
    assert_eq!(notes.get_possibility(1, 2), None);
    assert_eq!(notes.get_possibilities(1, 3), 0);
}

#[test]
fn eliminating_a_symbol_clears_it_from_every_peer() {
    let mut notes = PencilNotes::<9, 9>::new();
    notes.eliminate_possibility(4, 4, 5);
    for r in 0..9 {
        for c in 0..9 {
            let peer = r == 4 || c == 4 || (r / 3 == 1 && c / 3 == 1);
            let expected = if peer && (r, c) != (4, 4) { 0b1_1110_1111 } else { 0b1_1111_1111 };
            assert_eq!(notes.get_possibilities(r, c), expected, "cell ({}, {})", r, c);
        }
    }
}

#[test]
fn eliminations_by_unit() {
    let mut notes = PencilNotes::<9, 9>::new();
    notes.eliminate_possibility_row(2, 2, 1);
    assert_eq!(notes.get_possibilities(2, 8), 0b1_1111_1110);
    assert_eq!(notes.get_possibilities(2, 2), 0b1_1111_1111);
    assert_eq!(notes.get_possibilities(3, 2), 0b1_1111_1111);

    let mut notes = PencilNotes::<9, 9>::new();
    notes.eliminate_possibility_col(2, 2, 1);
    assert_eq!(notes.get_possibilities(8, 2), 0b1_1111_1110);
    assert_eq!(notes.get_possibilities(2, 3), 0b1_1111_1111);

    let mut notes = PencilNotes::<9, 9>::new();
    notes.eliminate_possibility_square(2, 2, 1);
    assert_eq!(notes.get_possibilities(0, 0), 0b1_1111_1110);
    assert_eq!(notes.get_possibilities(2, 3), 0b1_1111_1111);

    let mut notes = PencilNotes::<9, 9>::new();
    notes.eliminate_possibility_affected(2, 2, 1);
    assert_eq!(notes.get_possibilities(0, 0), 0b1_1111_1110);
    assert_eq!(notes.get_possibilities(2, 8), 0b1_1111_1110);
    assert_eq!(notes.get_possibilities(8, 2), 0b1_1111_1110);
    assert_eq!(notes.get_possibilities(3, 3), 0b1_1111_1111);
    assert_eq!(notes.get_possibilities(2, 2), 0b1_1111_1111);
}

#[test]
fn lowest_entropy_prefers_first_minimum() {
    let mut notes = PencilNotes::<9, 9>::new();
    assert_eq!(notes.find_lowest_entropy_cell(), Some((0, 0)));
    notes.set_possibility(3, 3, 0b111);
    notes.set_possibility(5, 1, 0b111);
    assert_eq!(notes.find_lowest_entropy_cell(), Some((3, 3)));
    notes.set_possibility(7, 7, 0b11);
    notes.set_possibility(8, 8, 0b11);
    assert_eq!(notes.find_lowest_entropy_cell(), Some((7, 7)));
    notes.clear();
    assert_eq!(notes.find_lowest_entropy_cell(), None);
    notes.set_possibility(0, 0, 1);
    assert_eq!(notes.find_lowest_entropy_cell(), None);
}

#[test]
fn highest_entropy_prefers_first_maximum() {
    let mut notes = PencilNotes::<9, 9>::new();
    notes.clear();
    assert_eq!(notes.find_highest_entropy_cell(), None);
    notes.set_possibility(2, 2, 0b11);
    notes.set_possibility(4, 4, 0b1111);
    notes.set_possibility(6, 6, 0b1111);
    assert_eq!(notes.find_highest_entropy_cell(), Some((4, 4)));
    notes.set_possibility(1, 1, 1);
    assert_eq!(notes.find_highest_entropy_cell(), Some((4, 4)));
}

#[test]
fn empty_cell_is_detected() {
    let mut notes = PencilNotes::<9, 9>::new();
    assert!(!notes.has_empty_cell());
    notes.clear_possibilities(8, 8);
    assert!(notes.has_empty_cell());
}

#[test]
fn possibility_iterator_yields_symbols_in_order() {
    let mut it = PossibilityIterator::new(0b1010_0101);
    let mut v = Vec::new();
    while let Some(s) = it.next() {
        v.push(s);
    }
    assert_eq!(v, vec![1, 3, 6, 8]);
    assert_eq!(PossibilityIterator::new(0).next(), None);
    assert_eq!(PossibilityIterator::new(0x8000_0000).next(), Some(32));
}

#[test]
fn possible_numbers_lists_symbols() {
    assert_eq!(get_possible_numbers(0b1_0001_0010), vec![2, 5, 9]);
    assert_eq!(get_possible_numbers(0), Vec::<u8>::new());
    assert_eq!(get_possible_numbers(0x8000_0001), vec![1, 32]);
}

#[test]
fn hidden_singles_of_a_row() {
    let mut notes = PencilNotes::<9, 9>::new();
    // symbol 4 only at (0, 6); symbol 9 only at (0, 2)
    for c in 0..9 {
        notes.remove_possibility(0, c, 4);
        notes.remove_possibility(0, c, 9);
    }
    notes.add_possibility(0, 6, 4);
    notes.add_possibility(0, 2, 9);
    let mut it = HiddenSingleIterator::<9, 9>::new(&notes, 0, 0, SudokuIteratorMode::Row);
    assert_eq!(it.next(), Some((0, 6, 4)));
    assert_eq!(it.next(), Some((0, 2, 9)));
    assert_eq!(it.next(), None);
}

#[test]
fn naked_pairs_in_a_block_leave_other_units_alone() {
    let mut notes = PencilNotes::<9, 9>::new();
    notes.set_possibility(0, 0, 0b110);
    notes.set_possibility(1, 1, 0b110);
    notes.handle_naked_pairs(0, 0, SudokuIteratorMode::Square);
    assert_eq!(notes.get_possibilities(2, 2), 0b1_1111_1001);
    assert_eq!(notes.get_possibilities(0, 1), 0b1_1111_1001);
    assert_eq!(notes.get_possibilities(0, 0), 0b110);
    assert_eq!(notes.get_possibilities(1, 1), 0b110);
    // same row, other block: untouched by a block-scoped rule
    assert_eq!(notes.get_possibilities(0, 5), 0b1_1111_1111);
}
