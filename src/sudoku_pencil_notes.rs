//! The candidate-mask matrix and the deduction rules that narrow it.
use vstd::prelude::*;
pub use crate::random_bit::RandomBit;
use crate::bits::{
    count_bits, has_bit, lemma_clear_lowest, lemma_lowest, lemma_popcount, lemma_popcount_drop,
    lemma_rank_bound, lemma_remove_twice, lemma_set_bit, lemma_test_bit, low_mask, low_mask_spec,
    lowest, popcount, rank,
};
use crate::deduction::{
    hidden_pair_clears, hidden_pair_masks, lemma_single_summary, naked_pair_clears,
    naked_pair_masks, single_host, symbol_hosts,
};
use crate::sudoku_iterator::{
    as_cells, in_block, is_peer, lemma_span_members, span, unit_cells, unit_member, valid_dims,
    SudokuIteratorMode,
};

verus! {

/// The number of symbols of a board: the number of cells of a block.
pub open spec fn symbol_count(rows: int, cols: int) -> int {
    (rows / 3) * (cols / 3)
}

/// The mask of symbol `number` (1-based).
pub open spec fn symbol_bit(number: int) -> u32 {
    1u32 << ((number - 1) as u32)
}

/// Whether cell `a` comes before cell `b` in row-major order.
pub open spec fn before(a: (int, int), b: (int, int)) -> bool {
    a.0 < b.0 || (a.0 == b.0 && a.1 < b.1)
}

/// The candidate masks of a board: bit `k` of a cell's mask is set while
/// symbol `k + 1` is still possible there.
#[derive(Debug, Clone, Copy, PartialEq, Eq)]
pub struct PencilNotes<const N_ROWS: usize, const N_COLS: usize> {
    pub possibilities: [[u32; N_COLS]; N_ROWS],
}

impl<const N_ROWS: usize, const N_COLS: usize> PencilNotes<N_ROWS, N_COLS> {
    /// The candidate mask of `(r, c)`.
    pub open spec fn mask(&self, r: int, c: int) -> u32 {
        self.possibilities@[r]@[c]
    }

    /// Whether `(r, c)` is a cell of the board.
    pub open spec fn on_board(r: int, c: int) -> bool {
        0 <= r < N_ROWS && 0 <= c < N_COLS
    }

    /// `other` has the masks of `self` on every cell but `(row, col)`.
    pub open spec fn same_except(&self, other: &Self, row: int, col: int) -> bool {
        forall|r: int, c: int|
            Self::on_board(r, c) && (r, c) != (row, col) ==> #[trigger] other.mask(r, c) == self.mask(r, c)
    }

    /// Every cell of `other` lists only symbols that the same cell of `self` lists.
    pub open spec fn narrows_to(&self, other: &Self) -> bool {
        forall|r: int, c: int, k: int|
            Self::on_board(r, c) && #[trigger] has_bit(other.mask(r, c), k) ==> has_bit(self.mask(r, c), k)
    }

    /// The candidate count of `(r, c)`.
    pub open spec fn count(&self, r: int, c: int) -> nat {
        popcount(self.mask(r, c))
    }

    /// Every cell lists every symbol.
    pub fn new() -> (r: Self)
        requires
            valid_dims(N_ROWS as int, N_COLS as int),
        ensures
            forall|i: int, j: int|
                Self::on_board(i, j) ==> #[trigger] r.mask(i, j) == low_mask_spec(
                    symbol_count(N_ROWS as int, N_COLS as int),
                ),
    {
        let full = low_mask(Self::symbols());
        PencilNotes { possibilities: [[full; N_COLS]; N_ROWS] }
    }

    /// The number of symbols, as a machine word.
    fn symbols() -> (n: u32)
        requires
            valid_dims(N_ROWS as int, N_COLS as int),
        ensures
            n == symbol_count(N_ROWS as int, N_COLS as int),
            2 <= n <= 32,
    {
        assert((N_ROWS as int / 3) * (N_COLS as int / 3) >= 2) by (nonlinear_arith)
            requires
                N_ROWS as int / 3 >= 1,
                N_COLS as int / 3 >= 2,
        ;
        (N_ROWS / 3 * (N_COLS / 3)) as u32
    }

    /// Sets every cell of the matrix to `value`.
    fn fill(&mut self, value: u32)
        ensures
            forall|i: int, j: int| Self::on_board(i, j) ==> #[trigger] final(self).mask(i, j) == value,
    {
        let mut r: usize = 0;
        while r < N_ROWS
            invariant
                r <= N_ROWS,
                forall|i: int, j: int| 0 <= i < r && 0 <= j < N_COLS ==> #[trigger] self.mask(i, j) == value,
            decreases N_ROWS - r,
        {
            let mut c: usize = 0;
            while c < N_COLS
                invariant
                    r < N_ROWS,
                    c <= N_COLS,
                    forall|i: int, j: int| 0 <= i < r && 0 <= j < N_COLS ==> #[trigger] self.mask(i, j) == value,
                    forall|j: int| 0 <= j < c ==> #[trigger] self.mask(r as int, j) == value,
                decreases N_COLS - c,
            {
                let ghost prev = *self;
                self.possibilities[r][c] = value;
                assert(prev.same_except(self, r as int, c as int));
                c += 1;
            }
            r += 1;
        }
    }

    /// Every cell lists every symbol again.
    pub fn reset(&mut self)
        requires
            valid_dims(N_ROWS as int, N_COLS as int),
        ensures
            forall|i: int, j: int|
                Self::on_board(i, j) ==> #[trigger] final(self).mask(i, j) == low_mask_spec(
                    symbol_count(N_ROWS as int, N_COLS as int),
                ),
    {
        let full = low_mask(Self::symbols());
        self.fill(full);
    }

    /// Every cell lists no symbol.
    pub fn clear(&mut self)
        ensures
            forall|i: int, j: int| Self::on_board(i, j) ==> #[trigger] final(self).mask(i, j) == 0,
    {
        self.fill(0);
    }

    pub fn add_possibility(&mut self, row: usize, col: usize, number: u32)
        requires
            row < N_ROWS,
            col < N_COLS,
            1 <= number <= 32,
        ensures
            final(self).mask(row as int, col as int) == old(self).mask(row as int, col as int) | symbol_bit(
                number as int,
            ),
            old(self).same_except(final(self), row as int, col as int),
    {
        let mask: u32 = 1u32 << (number - 1);
        self.possibilities[row][col] = self.possibilities[row][col] | mask;
    }

    pub fn remove_possibility(&mut self, row: usize, col: usize, number: u32)
        requires
            row < N_ROWS,
            col < N_COLS,
            1 <= number <= 32,
        ensures
            final(self).mask(row as int, col as int) == old(self).mask(row as int, col as int) & !symbol_bit(
                number as int,
            ),
            old(self).same_except(final(self), row as int, col as int),
    {
        let mask: u32 = 1u32 << (number - 1);
        self.possibilities[row][col] = self.possibilities[row][col] & !mask;
    }

    pub fn set_possibility(&mut self, row: usize, col: usize, mask: u32)
        requires
            row < N_ROWS,
            col < N_COLS,
        ensures
            final(self).mask(row as int, col as int) == mask,
            old(self).same_except(final(self), row as int, col as int),
    {
        self.possibilities[row][col] = mask;
    }

    pub fn clear_possibilities(&mut self, row: usize, col: usize)
        requires
            row < N_ROWS,
            col < N_COLS,
        ensures
            final(self).mask(row as int, col as int) == 0,
            old(self).same_except(final(self), row as int, col as int),
    {
        self.possibilities[row][col] = 0;
    }

    pub fn get_possibilities(&self, row: usize, col: usize) -> (m: u32)
        requires
            row < N_ROWS,
            col < N_COLS,
        ensures
            m == self.mask(row as int, col as int),
    {
        self.possibilities[row][col]
    }

    pub fn count_possibilities(&self, row: usize, col: usize) -> (n: u32)
        requires
            row < N_ROWS,
            col < N_COLS,
        ensures
            n == self.count(row as int, col as int),
            n <= 32,
    {
        count_bits(self.possibilities[row][col])
    }

    pub fn has_possibility(&self, row: usize, col: usize, number: u32) -> (b: bool)
        requires
            row < N_ROWS,
            col < N_COLS,
            1 <= number <= 32,
        ensures
            b == has_bit(self.mask(row as int, col as int), number - 1),
    {
        let mask: u32 = 1u32 << (number - 1);
        proof {
            lemma_test_bit(self.mask(row as int, col as int), number - 1);
        }
        (self.possibilities[row][col] & mask) != 0
    }

    /// The forced symbol of `(row, col)`: its only candidate, when it has
    /// exactly one.
    pub fn get_possibility(&self, row: usize, col: usize) -> (r: Option<u32>)
        requires
            row < N_ROWS,
            col < N_COLS,
        ensures
            r == (if self.count(row as int, col as int) == 1 {
                Some((lowest(self.mask(row as int, col as int)) + 1) as u32)
            } else {
                None
            }),
            r matches Some(s) ==> {
                &&& 1 <= s <= 32
                &&& forall|k: int| #[trigger] has_bit(self.mask(row as int, col as int), k) <==> k == s - 1
            },
    {
        let m = self.possibilities[row][col];
        proof {
            lemma_popcount(m);
            lemma_lowest(m);
        }
        if 1 == self.count_possibilities(row, col) {
            let trailing = m.trailing_zeros();
            Some(trailing + 1)
        } else {
            None
        }
    }

    /// Removes the positions of `bits` from every cell of `cells` but `(row, col)`.
    fn remove_from_cells(&mut self, cells: &Vec<(usize, usize)>, row: usize, col: usize, bits: u32)
        requires
            forall|k: int| 0 <= k < cells@.len() ==> #[trigger] Self::on_board(cells@[k].0 as int, cells@[k].1 as int),
        ensures
            forall|r: int, c: int|
                Self::on_board(r, c) ==> #[trigger] final(self).mask(r, c) == if as_cells(cells@).contains((r, c)) && (r, c)
                    != (row as int, col as int) {
                    old(self).mask(r, c) & !bits
                } else {
                    old(self).mask(r, c)
                },
    {
        let ghost start = *self;
        let ghost all = as_cells(cells@);
        let mut k: usize = 0;
        while k < cells.len()
            invariant
                k <= cells.len(),
                all == as_cells(cells@),
                start == *old(self),
                forall|kk: int| 0 <= kk < cells@.len() ==> #[trigger] Self::on_board(cells@[kk].0 as int, cells@[kk].1 as int),
                forall|r: int, c: int|
                    Self::on_board(r, c) ==> #[trigger] self.mask(r, c) == if all.subrange(0, k as int).contains((r, c))
                        && (r, c) != (row as int, col as int) {
                        start.mask(r, c) & !bits
                    } else {
                        start.mask(r, c)
                    },
            decreases cells.len() - k,
        {
            let (r, c) = cells[k];
            let ghost prev = *self;
            let ghost cell = (r as int, c as int);
            assert(Self::on_board(cells@[k as int].0 as int, cells@[k as int].1 as int));
            assert(all[k as int] == cell);
            if !(r == row && c == col) {
                let m = self.possibilities[r][c];
                self.possibilities[r][c] = m & !bits;
                assert(prev.same_except(self, r as int, c as int));
                assert(self.mask(r as int, c as int) == prev.mask(r as int, c as int) & !bits);
            } else {
                assert(prev == *self);
            }
            proof {
                lemma_remove_twice(start.mask(r as int, c as int), bits);
                let pre = all.subrange(0, k as int);
                let post = all.subrange(0, k + 1);
                assert forall|r2: int, c2: int| #[trigger] post.contains((r2, c2)) <==> (pre.contains((r2, c2)) || (r2, c2) == cell) by {
                    if post.contains((r2, c2)) {
                        let i = choose|i: int| 0 <= i < post.len() && #[trigger] post[i] == (r2, c2);
                        if i < k {
                            assert(pre[i] == (r2, c2));
                        }
                    }
                    if pre.contains((r2, c2)) {
                        let i = choose|i: int| 0 <= i < pre.len() && #[trigger] pre[i] == (r2, c2);
                        assert(post[i] == (r2, c2));
                    }
                    if (r2, c2) == cell {
                        assert(post[k as int] == cell);
                    }
                }
                assert forall|r2: int, c2: int| Self::on_board(r2, c2) implies #[trigger] self.mask(r2, c2) == if post.contains((r2, c2))
                    && (r2, c2) != (row as int, col as int) {
                    start.mask(r2, c2) & !bits
                } else {
                    start.mask(r2, c2)
                } by {
                    if (r2, c2) != cell {
                        assert(self.mask(r2, c2) == prev.mask(r2, c2));
                    } else if cell == (row as int, col as int) {
                        assert(self.mask(r2, c2) == prev.mask(r2, c2));
                    } else if pre.contains(cell) {
                        assert(prev.mask(r2, c2) == start.mask(r2, c2) & !bits);
                    } else {
                        assert(prev.mask(r2, c2) == start.mask(r2, c2));
                    }
                }
            }
            k += 1;
        }
        assert(all.subrange(0, k as int) =~= all);
    }

    /// Removes `number` from every cell of the traversal of `mode` anchored at
    /// `(row, col)`, the anchor excepted.
    fn eliminate_in(&mut self, row: usize, col: usize, number: u32, mode: SudokuIteratorMode)
        requires
            valid_dims(N_ROWS as int, N_COLS as int),
            row < N_ROWS,
            col < N_COLS,
            1 <= number <= 32,
        ensures
            forall|r: int, c: int|
                Self::on_board(r, c) ==> #[trigger] final(self).mask(r, c) == if unit_member(
                    N_ROWS as int,
                    N_COLS as int,
                    mode,
                    row as int,
                    col as int,
                    r,
                    c,
                ) && (r, c) != (row as int, col as int) {
                    old(self).mask(r, c) & !symbol_bit(number as int)
                } else {
                    old(self).mask(r, c)
                },
    {
        let cells = Self::cells_of(row, col, mode);
        let bit: u32 = 1u32 << (number - 1);
        self.remove_from_cells(&cells, row, col, bit);
    }

    /// Removes `number` from the anchor's row, the anchor excepted.
    pub fn eliminate_possibility_row(&mut self, row: usize, col: usize, number: u32)
        requires
            valid_dims(N_ROWS as int, N_COLS as int),
            row < N_ROWS,
            col < N_COLS,
            1 <= number <= 32,
        ensures
            forall|r: int, c: int|
                Self::on_board(r, c) ==> #[trigger] final(self).mask(r, c) == if r == row && c != col {
                    old(self).mask(r, c) & !symbol_bit(number as int)
                } else {
                    old(self).mask(r, c)
                },
    {
        self.eliminate_in(row, col, number, SudokuIteratorMode::Row);
    }

    /// Removes `number` from the anchor's column, the anchor excepted.
    pub fn eliminate_possibility_col(&mut self, row: usize, col: usize, number: u32)
        requires
            valid_dims(N_ROWS as int, N_COLS as int),
            row < N_ROWS,
            col < N_COLS,
            1 <= number <= 32,
        ensures
            forall|r: int, c: int|
                Self::on_board(r, c) ==> #[trigger] final(self).mask(r, c) == if c == col && r != row {
                    old(self).mask(r, c) & !symbol_bit(number as int)
                } else {
                    old(self).mask(r, c)
                },
    {
        self.eliminate_in(row, col, number, SudokuIteratorMode::Column);
    }

    /// Removes `number` from the anchor's block, the anchor excepted.
    pub fn eliminate_possibility_square(&mut self, row: usize, col: usize, number: u32)
        requires
            valid_dims(N_ROWS as int, N_COLS as int),
            row < N_ROWS,
            col < N_COLS,
            1 <= number <= 32,
        ensures
            forall|r: int, c: int|
                Self::on_board(r, c) ==> #[trigger] final(self).mask(r, c) == if in_block(
                    N_ROWS as int,
                    N_COLS as int,
                    row as int,
                    col as int,
                    r,
                    c,
                ) && (r, c) != (row as int, col as int) {
                    old(self).mask(r, c) & !symbol_bit(number as int)
                } else {
                    old(self).mask(r, c)
                },
    {
        self.eliminate_in(row, col, number, SudokuIteratorMode::Square);
    }

    /// Removes `number` from the anchor's peer span, the anchor excepted.
    pub fn eliminate_possibility_affected(&mut self, row: usize, col: usize, number: u32)
        requires
            valid_dims(N_ROWS as int, N_COLS as int),
            row < N_ROWS,
            col < N_COLS,
            1 <= number <= 32,
        ensures
            forall|r: int, c: int|
                Self::on_board(r, c) ==> #[trigger] final(self).mask(r, c) == if is_peer(
                    N_ROWS as int,
                    N_COLS as int,
                    row as int,
                    col as int,
                    r,
                    c,
                ) && (r, c) != (row as int, col as int) {
                    old(self).mask(r, c) & !symbol_bit(number as int)
                } else {
                    old(self).mask(r, c)
                },
    {
        self.eliminate_in(row, col, number, SudokuIteratorMode::Affected);
    }

    /// Removes `number` from the anchor's row, column and block: afterwards
    /// no cell of its peer span but the anchor lists `number`.
    pub fn eliminate_possibility(&mut self, row: usize, col: usize, number: u32)
        requires
            valid_dims(N_ROWS as int, N_COLS as int),
            row < N_ROWS,
            col < N_COLS,
            1 <= number <= 32,
        ensures
            forall|r: int, c: int|
                Self::on_board(r, c) ==> #[trigger] final(self).mask(r, c) == if is_peer(
                    N_ROWS as int,
                    N_COLS as int,
                    row as int,
                    col as int,
                    r,
                    c,
                ) && (r, c) != (row as int, col as int) {
                    old(self).mask(r, c) & !symbol_bit(number as int)
                } else {
                    old(self).mask(r, c)
                },
            forall|r: int, c: int|
                Self::on_board(r, c) && is_peer(N_ROWS as int, N_COLS as int, row as int, col as int, r, c)
                    && (r, c) != (row as int, col as int) ==> !has_bit(#[trigger] final(self).mask(r, c), number - 1),
    {
        let ghost start = *self;
        self.eliminate_possibility_row(row, col, number);
        self.eliminate_possibility_col(row, col, number);
        self.eliminate_possibility_square(row, col, number);
        proof {
            assert forall|r: int, c: int| Self::on_board(r, c) implies #[trigger] self.mask(r, c) == if is_peer(
                N_ROWS as int,
                N_COLS as int,
                row as int,
                col as int,
                r,
                c,
            ) && (r, c) != (row as int, col as int) {
                start.mask(r, c) & !symbol_bit(number as int)
            } else {
                start.mask(r, c)
            } by {
                lemma_remove_twice(start.mask(r, c), symbol_bit(number as int));
                lemma_remove_twice(start.mask(r, c) & !symbol_bit(number as int), symbol_bit(number as int));
            }
            assert forall|r: int, c: int|
                Self::on_board(r, c) && is_peer(N_ROWS as int, N_COLS as int, row as int, col as int, r, c)
                    && (r, c) != (row as int, col as int) implies !has_bit(#[trigger] self.mask(r, c), number - 1) by {
                lemma_set_bit(start.mask(r, c), number - 1);
            }
        }
    }

    /// The traversal of `mode` anchored at `(row, col)` on this board.
    pub open spec fn unit_of(row: int, col: int, mode: SudokuIteratorMode) -> Seq<(int, int)> {
        span(N_ROWS as int, N_COLS as int, mode, row, col)
    }

    /// The masks of `cells`, in order.
    pub open spec fn masks_on(&self, cells: Seq<(int, int)>) -> Seq<u32> {
        cells.map_values(|p: (int, int)| self.mask(p.0, p.1))
    }

    /// The masks of the cells of the traversal of `mode` anchored at `(row, col)`.
    fn unit_masks(&self, cells: &Vec<(usize, usize)>) -> (m: Vec<u32>)
        requires
            forall|k: int| 0 <= k < cells@.len() ==> #[trigger] Self::on_board(cells@[k].0 as int, cells@[k].1 as int),
        ensures
            m@ == self.masks_on(as_cells(cells@)),
    {
        let mut m: Vec<u32> = Vec::new();
        let mut k: usize = 0;
        while k < cells.len()
            invariant
                k <= cells@.len(),
                forall|kk: int| 0 <= kk < cells@.len() ==> #[trigger] Self::on_board(cells@[kk].0 as int, cells@[kk].1 as int),
                m@.len() == k,
                forall|kk: int| 0 <= kk < k ==> #[trigger] m@[kk] == self.mask(cells@[kk].0 as int, cells@[kk].1 as int),
            decreases cells@.len() - k,
        {
            let (r, c) = cells[k];
            assert(Self::on_board(cells@[k as int].0 as int, cells@[k as int].1 as int));
            m.push(self.possibilities[r][c]);
            k += 1;
        }
        assert(m@ =~= self.masks_on(as_cells(cells@)));
        m
    }

    /// Writes `values[k]` to cell `cells[k]`, for each `k`.
    fn store_masks(&mut self, cells: &Vec<(usize, usize)>, values: &Vec<u32>)
        requires
            as_cells(cells@).no_duplicates(),
            forall|k: int| 0 <= k < cells@.len() ==> #[trigger] Self::on_board(cells@[k].0 as int, cells@[k].1 as int),
            values@.len() == cells@.len(),
        ensures
            forall|k: int| 0 <= k < cells@.len() ==> #[trigger] final(self).mask(cells@[k].0 as int, cells@[k].1 as int) == values@[k],
            forall|r: int, c: int|
                Self::on_board(r, c) && !as_cells(cells@).contains((r, c)) ==> #[trigger] final(self).mask(r, c)
                    == old(self).mask(r, c),
    {
        let ghost all = as_cells(cells@);
        let mut k: usize = 0;
        while k < cells.len()
            invariant
                k <= cells@.len(),
                all == as_cells(cells@),
                all.no_duplicates(),
                values@.len() == cells@.len(),
                forall|kk: int| 0 <= kk < cells@.len() ==> #[trigger] Self::on_board(cells@[kk].0 as int, cells@[kk].1 as int),
                forall|kk: int| 0 <= kk < k ==> #[trigger] self.mask(cells@[kk].0 as int, cells@[kk].1 as int) == values@[kk],
                forall|r: int, c: int|
                    Self::on_board(r, c) && !all.subrange(0, k as int).contains((r, c)) ==> #[trigger] self.mask(r, c)
                        == old(self).mask(r, c),
            decreases cells@.len() - k,
        {
            let (r, c) = cells[k];
            let ghost prev = *self;
            assert(Self::on_board(cells@[k as int].0 as int, cells@[k as int].1 as int));
            self.possibilities[r][c] = values[k];
            assert(prev.same_except(self, r as int, c as int));
            proof {
                let pre = all.subrange(0, k as int);
                let post = all.subrange(0, k + 1);
                assert(all[k as int] == (r as int, c as int));
                assert forall|kk: int| 0 <= kk < k + 1 implies #[trigger] self.mask(cells@[kk].0 as int, cells@[kk].1 as int) == values@[kk] by {
                    if kk < k {
                        assert(all[kk] == (cells@[kk].0 as int, cells@[kk].1 as int));
                        assert(all[kk] != all[k as int]);
                    }
                }
                assert forall|r2: int, c2: int|
                    Self::on_board(r2, c2) && !post.contains((r2, c2)) implies #[trigger] self.mask(r2, c2) == old(self).mask(r2, c2) by {
                    assert(post[k as int] == (r as int, c as int));
                    if pre.contains((r2, c2)) {
                        let i = choose|i: int| 0 <= i < pre.len() && #[trigger] pre[i] == (r2, c2);
                        assert(post[i] == (r2, c2));
                    }
                }
            }
            k += 1;
        }
        assert(all.subrange(0, k as int) =~= all);
    }

    /// The cells of a traversal, with the facts the rules need about them.
    fn cells_of(row: usize, col: usize, mode: SudokuIteratorMode) -> (cells: Vec<(usize, usize)>)
        requires
            valid_dims(N_ROWS as int, N_COLS as int),
            row < N_ROWS,
            col < N_COLS,
        ensures
            as_cells(cells@) == Self::unit_of(row as int, col as int, mode),
            as_cells(cells@).no_duplicates(),
            forall|k: int| 0 <= k < cells@.len() ==> #[trigger] Self::on_board(cells@[k].0 as int, cells@[k].1 as int),
            forall|r: int, c: int|
                #[trigger] as_cells(cells@).contains((r, c)) <==> unit_member(
                    N_ROWS as int,
                    N_COLS as int,
                    mode,
                    row as int,
                    col as int,
                    r,
                    c,
                ),
    {
        let cells = unit_cells::<N_ROWS, N_COLS>(row, col, mode);
        proof {
            lemma_span_members(N_ROWS as int, N_COLS as int, mode, row as int, col as int);
            assert forall|k: int| 0 <= k < cells@.len() implies #[trigger] Self::on_board(cells@[k].0 as int, cells@[k].1 as int) by {
                assert(as_cells(cells@)[k] == (cells@[k].0 as int, cells@[k].1 as int));
                assert(as_cells(cells@).contains((cells@[k].0 as int, cells@[k].1 as int)));
            }
        }
        cells
    }

    /// `after` is `self` with the naked-pair rule applied to the traversal of `mode`
    /// anchored at `(row, col)`.
    pub open spec fn naked_pairs_applied(&self, after: &Self, row: int, col: int, mode: SudokuIteratorMode) -> bool {
        &&& forall|i: int, k: int|
            0 <= i < Self::unit_of(row, col, mode).len() ==> #[trigger] has_bit(
                after.mask(
                    Self::unit_of(row, col, mode)[i].0,
                    Self::unit_of(row, col, mode)[i].1,
                ),
                k,
            ) == (has_bit(self.masks_on(Self::unit_of(row, col, mode))[i], k)
                && !naked_pair_clears(
                self.masks_on(Self::unit_of(row, col, mode)),
                i,
                k,
            ))
        &&& forall|r: int, c: int|
            Self::on_board(r, c) && !unit_member(N_ROWS as int, N_COLS as int, mode, row, col, r, c) ==> #[trigger] after.mask(
                r,
                c,
            ) == self.mask(r, c)
    }

    /// `after` is `self` with the hidden-pair rule applied to the traversal of `mode`
    /// anchored at `(row, col)`.
    pub open spec fn hidden_pairs_applied(&self, after: &Self, row: int, col: int, mode: SudokuIteratorMode) -> bool {
        &&& forall|i: int, k: int|
            0 <= i < Self::unit_of(row, col, mode).len() ==> #[trigger] has_bit(
                after.mask(
                    Self::unit_of(row, col, mode)[i].0,
                    Self::unit_of(row, col, mode)[i].1,
                ),
                k,
            ) == (has_bit(self.masks_on(Self::unit_of(row, col, mode))[i], k)
                && !hidden_pair_clears(
                self.masks_on(Self::unit_of(row, col, mode)),
                symbol_count(N_ROWS as int, N_COLS as int),
                i,
                k,
            ))
        &&& forall|r: int, c: int|
            Self::on_board(r, c) && !unit_member(N_ROWS as int, N_COLS as int, mode, row, col, r, c) ==> #[trigger] after.mask(
                r,
                c,
            ) == self.mask(r, c)
    }

    /// Naked pairs in the traversal of `mode` anchored at `(row, col)`: when
    /// two of its cells list the same two symbols and nothing else, every
    /// other cell of the traversal loses those two symbols. The rule reads the
    /// masks as they are when it starts; cells outside the traversal are
    /// untouched.
    pub fn handle_naked_pairs(&mut self, row: usize, col: usize, mode: SudokuIteratorMode)
        requires
            valid_dims(N_ROWS as int, N_COLS as int),
            row < N_ROWS,
            col < N_COLS,
        ensures
            old(self).naked_pairs_applied(final(self), row as int, col as int, mode),
            old(self).narrows_to(final(self)),
    {
        let cells = Self::cells_of(row, col, mode);
        let m = self.unit_masks(&cells);
        let out = naked_pair_masks(&m);
        self.store_masks(&cells, &out);
        proof {
            let u = Self::unit_of(row as int, col as int, mode);
            assert forall|i: int| 0 <= i < u.len() implies u[i] == (cells@[i].0 as int, cells@[i].1 as int) by {
                assert(as_cells(cells@)[i] == (cells@[i].0 as int, cells@[i].1 as int));
            }
            assert forall|r: int, c: int, k: int|
                Self::on_board(r, c) && #[trigger] has_bit(self.mask(r, c), k) implies has_bit(old(self).mask(r, c), k) by {
                if u.contains((r, c)) {
                    let i = choose|i: int| 0 <= i < u.len() && u[i] == (r, c);
                    assert(m@[i] == old(self).mask(r, c));
                    assert(out@[i] == self.mask(r, c));
                }
            }
        }
    }

    /// Hidden pairs in the traversal of `mode` anchored at `(row, col)`: when
    /// two symbols are each listed by exactly the same two cells of it, those
    /// two cells keep only those two symbols. The rule reads the masks as they
    /// are when it starts; other cells are untouched.
    pub fn handle_hidden_pairs(&mut self, row: usize, col: usize, mode: SudokuIteratorMode)
        requires
            valid_dims(N_ROWS as int, N_COLS as int),
            row < N_ROWS,
            col < N_COLS,
        ensures
            old(self).hidden_pairs_applied(final(self), row as int, col as int, mode),
            old(self).narrows_to(final(self)),
    {
        let cells = Self::cells_of(row, col, mode);
        let m = self.unit_masks(&cells);
        let out = hidden_pair_masks(&m, Self::symbols());
        self.store_masks(&cells, &out);
        proof {
            let u = Self::unit_of(row as int, col as int, mode);
            assert forall|i: int| 0 <= i < u.len() implies u[i] == (cells@[i].0 as int, cells@[i].1 as int) by {
                assert(as_cells(cells@)[i] == (cells@[i].0 as int, cells@[i].1 as int));
            }
            assert forall|r: int, c: int, k: int|
                Self::on_board(r, c) && #[trigger] has_bit(self.mask(r, c), k) implies has_bit(old(self).mask(r, c), k) by {
                if u.contains((r, c)) {
                    let i = choose|i: int| 0 <= i < u.len() && u[i] == (r, c);
                    assert(m@[i] == old(self).mask(r, c));
                    assert(out@[i] == self.mask(r, c));
                }
            }
        }
    }

    /// Some cell lists no symbol: a contradiction.
    pub open spec fn has_empty(&self) -> bool {
        exists|r: int, c: int| Self::on_board(r, c) && #[trigger] self.mask(r, c) == 0
    }

    /// Whether some cell lists no symbol.
    pub fn has_empty_cell(&self) -> (b: bool)
        ensures
            b == self.has_empty(),
    {
        let mut r: usize = 0;
        while r < N_ROWS
            invariant
                r <= N_ROWS,
                forall|i: int, j: int| 0 <= i < r && 0 <= j < N_COLS ==> #[trigger] self.mask(i, j) != 0,
            decreases N_ROWS - r,
        {
            let mut c: usize = 0;
            while c < N_COLS
                invariant
                    r < N_ROWS,
                    c <= N_COLS,
                    forall|i: int, j: int| 0 <= i < r && 0 <= j < N_COLS ==> #[trigger] self.mask(i, j) != 0,
                    forall|j: int| 0 <= j < c ==> #[trigger] self.mask(r as int, j) != 0,
                decreases N_COLS - c,
            {
                if self.possibilities[r][c] == 0 {
                    assert(self.mask(r as int, c as int) == 0);
                    return true;
                }
                c += 1;
            }
            r += 1;
        }
        false
    }

    /// `(r0, c0)` is the first cell, in row-major order, of those listing more
    /// than one symbol that list the fewest.
    pub open spec fn lowest_entropy_at(&self, r0: int, c0: int) -> bool {
        &&& Self::on_board(r0, c0)
        &&& self.count(r0, c0) > 1
        &&& forall|r: int, c: int|
            Self::on_board(r, c) && self.count(r, c) > 1 ==> self.count(r0, c0) <= #[trigger] self.count(r, c)
        &&& forall|r: int, c: int|
            Self::on_board(r, c) && before((r, c), (r0, c0)) && self.count(r, c) > 1 ==> self.count(r0, c0)
                < #[trigger] self.count(r, c)
    }

    /// `(r0, c0)` is the first cell, in row-major order, of those listing more
    /// than one symbol that list the most.
    pub open spec fn highest_entropy_at(&self, r0: int, c0: int) -> bool {
        &&& Self::on_board(r0, c0)
        &&& self.count(r0, c0) > 1
        &&& forall|r: int, c: int|
            Self::on_board(r, c) && self.count(r, c) > 1 ==> #[trigger] self.count(r, c) <= self.count(r0, c0)
        &&& forall|r: int, c: int|
            Self::on_board(r, c) && before((r, c), (r0, c0)) && self.count(r, c) > 1 ==> #[trigger] self.count(r, c)
                < self.count(r0, c0)
    }

    /// No cell lists more than one symbol.
    pub open spec fn all_settled(&self) -> bool {
        forall|r: int, c: int| Self::on_board(r, c) ==> #[trigger] self.count(r, c) <= 1
    }

    /// The cell to guess under the lowest-entropy policy. A count of two
    /// cannot be beaten, so the scan stops at the first such cell.
    pub fn find_lowest_entropy_cell(&self) -> (res: Option<(usize, usize)>)
        ensures
            res is None <==> self.all_settled(),
            res matches Some(p) ==> self.lowest_entropy_at(p.0 as int, p.1 as int),
    {
        let mut min_count: u32 = u32::MAX;
        let mut best: Option<(usize, usize)> = None;
        let mut r: usize = 0;
        while r < N_ROWS
            invariant
                r <= N_ROWS,
                best is None ==> min_count == u32::MAX && forall|i: int, j: int|
                    Self::on_board(i, j) && i < r ==> #[trigger] self.count(i, j) <= 1,
                best matches Some(p) ==> {
                    &&& Self::on_board(p.0 as int, p.1 as int)
                    &&& p.0 < r
                    &&& self.count(p.0 as int, p.1 as int) == min_count
                    &&& min_count > 2
                    &&& forall|i: int, j: int|
                        Self::on_board(i, j) && i < r && self.count(i, j) > 1 ==> min_count <= #[trigger] self.count(i, j)
                    &&& forall|i: int, j: int|
                        Self::on_board(i, j) && before((i, j), (p.0 as int, p.1 as int)) && self.count(i, j) > 1
                            ==> min_count < #[trigger] self.count(i, j)
                },
            decreases N_ROWS - r,
        {
            let mut c: usize = 0;
            while c < N_COLS
                invariant
                    r < N_ROWS,
                    c <= N_COLS,
                    best is None ==> min_count == u32::MAX && forall|i: int, j: int|
                        Self::on_board(i, j) && before((i, j), (r as int, c as int)) ==> #[trigger] self.count(i, j) <= 1,
                    best matches Some(p) ==> {
                        &&& Self::on_board(p.0 as int, p.1 as int)
                        &&& before((p.0 as int, p.1 as int), (r as int, c as int))
                        &&& self.count(p.0 as int, p.1 as int) == min_count
                        &&& min_count > 2
                        &&& forall|i: int, j: int|
                            Self::on_board(i, j) && before((i, j), (r as int, c as int)) && self.count(i, j) > 1 ==> min_count
                                <= #[trigger] self.count(i, j)
                        &&& forall|i: int, j: int|
                            Self::on_board(i, j) && before((i, j), (p.0 as int, p.1 as int)) && self.count(i, j) > 1
                                ==> min_count < #[trigger] self.count(i, j)
                    },
                decreases N_COLS - c,
            {
                let count = self.count_possibilities(r, c);
                if count > 1 && count < min_count {
                    min_count = count;
                    best = Some((r, c));
                    if min_count == 2 {
                        return best;
                    }
                }
                c += 1;
            }
            r += 1;
        }
        best
    }

    /// The cell to guess under the highest-entropy policy.
    pub fn find_highest_entropy_cell(&self) -> (res: Option<(usize, usize)>)
        ensures
            res is None <==> self.all_settled(),
            res matches Some(p) ==> self.highest_entropy_at(p.0 as int, p.1 as int),
    {
        let mut max_count: u32 = 1;
        let mut best: Option<(usize, usize)> = None;
        let mut r: usize = 0;
        while r < N_ROWS
            invariant
                r <= N_ROWS,
                best is None ==> max_count == 1 && forall|i: int, j: int|
                    Self::on_board(i, j) && i < r ==> #[trigger] self.count(i, j) <= 1,
                best matches Some(p) ==> {
                    &&& Self::on_board(p.0 as int, p.1 as int)
                    &&& p.0 < r
                    &&& self.count(p.0 as int, p.1 as int) == max_count
                    &&& max_count > 1
                    &&& forall|i: int, j: int|
                        Self::on_board(i, j) && i < r && self.count(i, j) > 1 ==> #[trigger] self.count(i, j) <= max_count
                    &&& forall|i: int, j: int|
                        Self::on_board(i, j) && before((i, j), (p.0 as int, p.1 as int)) && self.count(i, j) > 1
                            ==> #[trigger] self.count(i, j) < max_count
                },
            decreases N_ROWS - r,
        {
            let mut c: usize = 0;
            while c < N_COLS
                invariant
                    r < N_ROWS,
                    c <= N_COLS,
                    best is None ==> max_count == 1 && forall|i: int, j: int|
                        Self::on_board(i, j) && before((i, j), (r as int, c as int)) ==> #[trigger] self.count(i, j) <= 1,
                    best matches Some(p) ==> {
                        &&& Self::on_board(p.0 as int, p.1 as int)
                        &&& before((p.0 as int, p.1 as int), (r as int, c as int))
                        &&& self.count(p.0 as int, p.1 as int) == max_count
                        &&& max_count > 1
                        &&& forall|i: int, j: int|
                            Self::on_board(i, j) && before((i, j), (r as int, c as int)) && self.count(i, j) > 1
                                ==> #[trigger] self.count(i, j) <= max_count
                        &&& forall|i: int, j: int|
                            Self::on_board(i, j) && before((i, j), (p.0 as int, p.1 as int)) && self.count(i, j) > 1
                                ==> #[trigger] self.count(i, j) < max_count
                    },
                decreases N_COLS - c,
            {
                let count = self.count_possibilities(r, c);
                if count > 1 && count > max_count {
                    max_count = count;
                    best = Some((r, c));
                }
                c += 1;
            }
            r += 1;
        }
        best
    }
}

/// Yields the symbols (1-based) of a mask in increasing order.
pub struct PossibilityIterator {
    mask: u32,
}

impl PossibilityIterator {
    /// The symbol positions still to come.
    pub closed spec fn remaining(&self) -> u32 {
        self.mask
    }

    pub fn new(mask: u32) -> (r: Self)
        ensures
            r.remaining() == mask,
    {
        PossibilityIterator { mask }
    }

    pub fn next(&mut self) -> (r: Option<u32>)
        ensures
            old(self).remaining() == 0 ==> r is None && final(self).remaining() == 0,
            old(self).remaining() != 0 ==> {
                &&& r == Some((lowest(old(self).remaining()) + 1) as u32)
                &&& 1 <= lowest(old(self).remaining()) + 1 <= 32
                &&& forall|j: int| #[trigger] has_bit(final(self).remaining(), j) == (has_bit(old(self).remaining(), j)
                    && j != lowest(old(self).remaining()))
                &&& popcount(final(self).remaining()) + 1 == popcount(old(self).remaining())
            },
    {
        if self.mask == 0 {
            return None;
        }
        let m = self.mask;
        proof {
            lemma_lowest(m);
            lemma_clear_lowest(m);
        }
        let trailing = m.trailing_zeros();
        self.mask = m & (m - 1);
        proof {
            lemma_popcount_drop(m, self.mask, lowest(m));
        }
        Some(trailing + 1)
    }
}

/// The symbols (1-based) of `mask`, in increasing order.
pub fn get_possible_numbers(mask: u32) -> (r: Vec<u8>)
    ensures
        r@.len() == popcount(mask),
        forall|i: int|
            0 <= i < r@.len() ==> {
                &&& 1 <= #[trigger] r@[i] <= 32
                &&& has_bit(mask, r@[i] - 1)
                &&& rank(mask, r@[i] - 1) == i
            },
{
    let mut r: Vec<u8> = Vec::new();
    let mut k: u32 = 0;
    while k < 32
        invariant
            k <= 32,
            r@.len() == rank(mask, k as int),
            forall|i: int|
                0 <= i < r@.len() ==> {
                    &&& 1 <= #[trigger] r@[i] <= k
                    &&& has_bit(mask, r@[i] - 1)
                    &&& rank(mask, r@[i] - 1) == i
                },
        decreases 32 - k,
    {
        if (mask >> k) & 1 == 1 {
            proof {
                lemma_rank_bound(mask, k as int);
            }
            r.push((k + 1) as u8);
        }
        k += 1;
    }
    r
}

/// For each symbol, the cells of one traversal that list it; yields the
/// hidden singles: symbols listed by exactly one cell of it.
pub struct HiddenSingleIterator<const N_ROWS: usize, const N_COLS: usize> {
    counts: Vec<usize>,
    positions: Vec<(usize, usize)>,
    current: usize,
    unit: Ghost<Seq<(int, int)>>,
    masks: Ghost<Seq<u32>>,
}

impl<const N_ROWS: usize, const N_COLS: usize> HiddenSingleIterator<N_ROWS, N_COLS> {
    /// The traversed cells, in order.
    pub closed spec fn unit(&self) -> Seq<(int, int)> {
        self.unit@
    }

    /// Their masks when the iterator was built.
    pub closed spec fn masks(&self) -> Seq<u32> {
        self.masks@
    }

    /// The next symbol position to examine.
    pub closed spec fn cursor(&self) -> int {
        self.current as int
    }

    /// The number of symbols.
    pub closed spec fn symbols(&self) -> int {
        self.counts@.len() as int
    }

    /// The counts say which symbols have a single host, and the positions
    /// name that host.
    pub closed spec fn wf(&self) -> bool {
        &&& self.unit@.len() == self.masks@.len()
        &&& self.positions@.len() == self.counts@.len()
        &&& self.counts@.len() <= 32
        &&& self.current <= self.counts@.len()
        &&& forall|k: int|
            0 <= k < self.counts@.len() ==> (#[trigger] self.counts@[k] == 1 <==> exists|x: int|
                single_host(self.masks@, k, x))
        &&& forall|k: int, x: int|
            0 <= k < self.counts@.len() && #[trigger] single_host(self.masks@, k, x) ==> self.unit@[x] == (
            self.positions@[k].0 as int,
            self.positions@[k].1 as int,
        )
    }

    pub fn new(pencil_notes: &PencilNotes<N_ROWS, N_COLS>, row: usize, col: usize, mode: SudokuIteratorMode) -> (r: Self)
        requires
            valid_dims(N_ROWS as int, N_COLS as int),
            row < N_ROWS,
            col < N_COLS,
        ensures
            r.wf(),
            r.unit() == PencilNotes::<N_ROWS, N_COLS>::unit_of(row as int, col as int, mode),
            r.masks() == pencil_notes.masks_on(r.unit()),
            r.cursor() == 0,
            r.symbols() == symbol_count(N_ROWS as int, N_COLS as int),
    {
        let cells = PencilNotes::<N_ROWS, N_COLS>::cells_of(row, col, mode);
        let m = pencil_notes.unit_masks(&cells);
        let symbols = PencilNotes::<N_ROWS, N_COLS>::symbols();
        let (cnt, first, last) = symbol_hosts(&m, symbols);
        let mut positions: Vec<(usize, usize)> = Vec::new();
        assert forall|kk: int| 0 <= kk < symbols && #[trigger] cnt@[kk] >= 1 implies first@[kk] < cells@.len() by {
            assert(crate::deduction::hosts_upto(m@, kk, m@.len() as int, cnt@[kk], first@[kk], last@[kk]));
        }
        let mut k: usize = 0;
        while k < symbols as usize
            invariant
                symbols <= 32,
                k <= symbols,
                cnt@.len() == symbols,
                first@.len() == symbols,
                last@.len() == symbols,
                m@.len() == cells@.len(),
                positions@.len() == k,
                forall|kk: int|
                    0 <= kk < symbols ==> #[trigger] crate::deduction::hosts_upto(m@, kk, m@.len() as int, cnt@[kk], first@[kk], last@[kk]),
                forall|kk: int| 0 <= kk < symbols && #[trigger] cnt@[kk] >= 1 ==> first@[kk] < cells@.len(),
                forall|kk: int|
                    0 <= kk < k && cnt@[kk] >= 1 ==> #[trigger] positions@[kk] == cells@[first@[kk] as int],
            decreases symbols - k,
        {
            assert(crate::deduction::hosts_upto(m@, k as int, m@.len() as int, cnt@[k as int], first@[k as int], last@[k as int]));
            let ghost prev = positions@;
            if cnt[k] >= 1 {
                positions.push(cells[first[k]]);
            } else {
                positions.push((N_ROWS, N_COLS));
            }
            assert forall|kk: int| 0 <= kk < k + 1 && cnt@[kk] >= 1 implies #[trigger] positions@[kk]
                == cells@[first@[kk] as int] by {
                if kk < k {
                    assert(positions@[kk] == prev[kk]);
                }
            }
            k += 1;
        }
        let r = HiddenSingleIterator {
            counts: cnt,
            positions,
            current: 0,
            unit: Ghost(as_cells(cells@)),
            masks: Ghost(m@),
        };
        proof {
            assert forall|k: int| 0 <= k < r.counts@.len() implies (#[trigger] r.counts@[k] == 1 <==> exists|x: int|
                single_host(r.masks@, k, x)) by {
                lemma_single_summary(m@, k, cnt@[k], first@[k], last@[k]);
                assert(r.masks@ == m@);
                assert(r.counts@ == cnt@);
                if cnt@[k] == 1 {
                    assert(single_host(r.masks@, k, first@[k] as int));
                }
                if exists|x: int| single_host(r.masks@, k, x) {
                    let x = choose|x: int| single_host(r.masks@, k, x);
                    assert(single_host(m@, k, x));
                    assert(cnt@[k] == 1);
                }
            }
            assert forall|k: int, x: int|
                0 <= k < r.counts@.len() && #[trigger] single_host(r.masks@, k, x) implies r.unit@[x] == (
                r.positions@[k].0 as int,
                r.positions@[k].1 as int,
            ) by {
                lemma_single_summary(m@, k, cnt@[k], first@[k], last@[k]);
                assert(as_cells(cells@)[x] == (cells@[x].0 as int, cells@[x].1 as int));
            }
        }
        r
    }

    /// The next hidden single at or after the cursor: its cell and its symbol.
    pub fn next(&mut self) -> (r: Option<(usize, usize, u32)>)
        requires
            old(self).wf(),
        ensures
            final(self).wf(),
            final(self).unit() == old(self).unit(),
            final(self).masks() == old(self).masks(),
            final(self).symbols() == old(self).symbols(),
            r is None ==> forall|k: int, x: int|
                old(self).cursor() <= k < old(self).symbols() ==> !#[trigger] single_host(old(self).masks(), k, x),
            r matches Some(t) ==> {
                let k = t.2 - 1;
                &&& old(self).cursor() <= k < old(self).symbols()
                &&& exists|x: int| #[trigger] single_host(old(self).masks(), k, x) && old(self).unit()[x] == (t.0 as int, t.1 as int)
                &&& forall|k2: int, x: int|
                    old(self).cursor() <= k2 < k ==> !#[trigger] single_host(old(self).masks(), k2, x)
                &&& final(self).cursor() == k + 1
            },
    {
        let ghost start = self.current as int;
        let mut number: usize = self.current;
        while number < self.counts.len()
            invariant
                self.wf(),
                self.unit@ == old(self).unit@,
                self.masks@ == old(self).masks@,
                self.counts@ == old(self).counts@,
                self.positions@ == old(self).positions@,
                self.current == old(self).current,
                start == old(self).current,
                start <= number <= self.counts@.len(),
                forall|k2: int, x: int| start <= k2 < number ==> !#[trigger] single_host(self.masks@, k2, x),
            decreases self.counts@.len() - number,
        {
            if self.counts[number] == 1 {
                let (r, c) = self.positions[number];
                proof {
                    assert(self.counts@[number as int] == 1);
                    assert(exists|x: int| single_host(self.masks@, number as int, x));
                    let x = choose|x: int| single_host(self.masks@, number as int, x);
                    assert(self.unit@[x] == (r as int, c as int));
                    assert(single_host(old(self).masks(), number as int, x) && old(self).unit()[x] == (r as int, c as int));
                }
                self.current = number + 1;
                return Some((r, c, number as u32 + 1));
            }
            proof {
                assert forall|x: int| !#[trigger] single_host(self.masks@, number as int, x) by {
                    if single_host(self.masks@, number as int, x) {
                        assert(exists|x: int| single_host(self.masks@, number as int, x));
                    }
                }
            }
            number += 1;
        }
        None
    }
}

} // verus!
