//! The grid of committed symbols: 0 marks an unfilled cell.
use vstd::prelude::*;
use crate::sudoku_iterator::{
    as_cells, is_peer, lemma_peer_span_exactly_once, span, unit_cells, valid_dims,
    SudokuIteratorMode,
};

verus! {

/// An `N_ROWS` by `N_COLS` grid of symbols.
#[derive(Debug, Clone, Copy, PartialEq, Eq)]
pub struct Sudoku<const N_ROWS: usize, const N_COLS: usize> {
    pub board: [[u32; N_COLS]; N_ROWS],
}

impl<const N_ROWS: usize, const N_COLS: usize> Sudoku<N_ROWS, N_COLS> {
    /// The symbol at `(r, c)`.
    pub open spec fn cell(&self, r: int, c: int) -> u32 {
        self.board@[r]@[c]
    }

    /// Every cell holds a symbol.
    pub open spec fn spec_complete(&self) -> bool {
        forall|r: int, c: int| 0 <= r < N_ROWS && 0 <= c < N_COLS ==> #[trigger] self.cell(r, c) != 0
    }

    /// No other cell of the peer span of `(r, c)` repeats its symbol.
    pub open spec fn anchor_ok(&self, r: int, c: int) -> bool {
        self.cell(r, c) != 0 ==> forall|r2: int, c2: int|
            0 <= r2 < N_ROWS && 0 <= c2 < N_COLS && is_peer(N_ROWS as int, N_COLS as int, r, c, r2, c2)
                && (r2, c2) != (r, c) ==> #[trigger] self.cell(r2, c2) != self.cell(r, c)
    }

    /// No filled cell shares its symbol with another cell of its row, column
    /// or block.
    pub open spec fn spec_valid(&self) -> bool {
        forall|r: int, c: int| 0 <= r < N_ROWS && 0 <= c < N_COLS ==> #[trigger] self.anchor_ok(r, c)
    }

    pub fn new(board: [[u32; N_COLS]; N_ROWS]) -> (r: Self)
        requires
            valid_dims(N_ROWS as int, N_COLS as int),
        ensures
            r.board == board,
    {
        Sudoku { board }
    }

    /// The grid with every cell unfilled.
    pub fn empty() -> (r: Self)
        requires
            valid_dims(N_ROWS as int, N_COLS as int),
        ensures
            forall|i: int, j: int| 0 <= i < N_ROWS && 0 <= j < N_COLS ==> #[trigger] r.cell(i, j) == 0,
    {
        Sudoku { board: [[0u32; N_COLS]; N_ROWS] }
    }

    pub fn is_complete(&self) -> (b: bool)
        ensures
            b == self.spec_complete(),
    {
        let mut r: usize = 0;
        while r < N_ROWS
            invariant
                r <= N_ROWS,
                forall|i: int, j: int| 0 <= i < r && 0 <= j < N_COLS ==> #[trigger] self.cell(i, j) != 0,
            decreases N_ROWS - r,
        {
            let mut c: usize = 0;
            while c < N_COLS
                invariant
                    r < N_ROWS,
                    c <= N_COLS,
                    forall|i: int, j: int| 0 <= i < r && 0 <= j < N_COLS ==> #[trigger] self.cell(i, j) != 0,
                    forall|j: int| 0 <= j < c ==> #[trigger] self.cell(r as int, j) != 0,
                decreases N_COLS - c,
            {
                if self.board[r][c] == 0 {
                    assert(self.cell(r as int, c as int) == 0);
                    return false;
                }
                c += 1;
            }
            r += 1;
        }
        true
    }

    /// Whether the symbol at `(r, c)`, if any, is unique in its peer span.
    fn is_anchor_ok(&self, r: usize, c: usize) -> (b: bool)
        requires
            valid_dims(N_ROWS as int, N_COLS as int),
            r < N_ROWS,
            c < N_COLS,
        ensures
            b == self.anchor_ok(r as int, c as int),
    {
        let value = self.board[r][c];
        if value == 0 {
            return true;
        }
        let cells = unit_cells::<N_ROWS, N_COLS>(r, c, SudokuIteratorMode::Affected);
        let ghost peers = span(N_ROWS as int, N_COLS as int, SudokuIteratorMode::Affected, r as int, c as int);
        proof {
            lemma_peer_span_exactly_once(N_ROWS as int, N_COLS as int, r as int, c as int);
        }
        let mut k: usize = 0;
        while k < cells.len()
            invariant
                k <= cells.len(),
                as_cells(cells@) == peers,
                value == self.cell(r as int, c as int),
                value != 0,
                forall|r2: int, c2: int|
                    #[trigger] peers.contains((r2, c2)) <==> (0 <= r2 < N_ROWS && 0 <= c2 < N_COLS
                        && is_peer(N_ROWS as int, N_COLS as int, r as int, c as int, r2, c2)),
                forall|kk: int|
                    0 <= kk < k ==> #[trigger] peers[kk] == (r as int, c as int) || self.cell(
                        peers[kk].0,
                        peers[kk].1,
                    ) != value,
            decreases cells.len() - k,
        {
            let (cr, cc) = cells[k];
            assert(peers[k as int] == (cr as int, cc as int));
            assert(peers.contains((cr as int, cc as int)));
            if !(cr == r && cc == c) && self.board[cr][cc] == value {
                proof {
                    if self.anchor_ok(r as int, c as int) {
                        assert(self.cell(cr as int, cc as int) != self.cell(r as int, c as int));
                    }
                }
                return false;
            }
            k += 1;
        }
        proof {
            assert forall|r2: int, c2: int|
                0 <= r2 < N_ROWS && 0 <= c2 < N_COLS && is_peer(N_ROWS as int, N_COLS as int, r as int, c as int, r2, c2)
                    && (r2, c2) != (r as int, c as int) implies #[trigger] self.cell(r2, c2) != self.cell(r as int, c as int) by {
                assert(peers.contains((r2, c2)));
                let kk = choose|kk: int| 0 <= kk < peers.len() && peers[kk] == (r2, c2);
            }
        }
        true
    }

    pub fn is_valid(&self) -> (b: bool)
        requires
            valid_dims(N_ROWS as int, N_COLS as int),
        ensures
            b == self.spec_valid(),
    {
        let mut r: usize = 0;
        while r < N_ROWS
            invariant
                valid_dims(N_ROWS as int, N_COLS as int),
                r <= N_ROWS,
                forall|i: int, j: int| 0 <= i < r && 0 <= j < N_COLS ==> #[trigger] self.anchor_ok(i, j),
            decreases N_ROWS - r,
        {
            let mut c: usize = 0;
            while c < N_COLS
                invariant
                    valid_dims(N_ROWS as int, N_COLS as int),
                    r < N_ROWS,
                    c <= N_COLS,
                    forall|i: int, j: int| 0 <= i < r && 0 <= j < N_COLS ==> #[trigger] self.anchor_ok(i, j),
                    forall|j: int| 0 <= j < c ==> #[trigger] self.anchor_ok(r as int, j),
                decreases N_COLS - c,
            {
                if !self.is_anchor_ok(r, c) {
                    return false;
                }
                c += 1;
            }
            r += 1;
        }
        true
    }

    /// The number of symbols: the number of cells of a block.
    pub fn max_number(&self) -> (n: u32)
        requires
            valid_dims(N_ROWS as int, N_COLS as int),
        ensures
            n == (N_ROWS as int / 3) * (N_COLS as int / 3),
    {
        (N_ROWS / 3 * (N_COLS / 3)) as u32
    }
}

} // verus!
