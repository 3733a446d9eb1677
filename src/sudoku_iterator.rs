//! Traversal of the cells of one constraint unit, relative to an anchor cell.
//!
//! Every mode is modelled as a row-major scan of a rectangle of the board that
//! keeps the cells passing a membership test:
//! - `Row`: the cells sharing the anchor's row index;
//! - `Column`: the cells sharing the anchor's column index;
//! - `Square`: the `(rows / 3) x (cols / 3)` block holding the anchor;
//! - `Affected`: the whole board, keeping the anchor's row, column and block
//!   (the anchor included);
//! - `All`: the whole board.
use vstd::prelude::*;

verus! {

/// Board dimensions the library supports: both sides above 3 and multiples of
/// 3, with at most 32 symbols per block.
pub open spec fn valid_dims(rows: int, cols: int) -> bool {
    &&& rows > 3
    &&& cols > 3
    &&& rows % 3 == 0
    &&& cols % 3 == 0
    &&& (rows / 3) * (cols / 3) <= 32
}

/// Height of a block.
pub open spec fn block_h(rows: int) -> int {
    rows / 3
}

/// Width of a block.
pub open spec fn block_w(cols: int) -> int {
    cols / 3
}

/// First row of the block holding row `row`.
pub open spec fn box_top(rows: int, row: int) -> int {
    (row / block_h(rows)) * block_h(rows)
}

/// First column of the block holding column `col`.
pub open spec fn box_left(cols: int, col: int) -> int {
    (col / block_w(cols)) * block_w(cols)
}

/// Whether `(r, c)` lies in the block of the anchor `(row, col)`.
pub open spec fn in_block(rows: int, cols: int, row: int, col: int, r: int, c: int) -> bool {
    &&& box_top(rows, row) <= r < box_top(rows, row) + block_h(rows)
    &&& box_left(cols, col) <= c < box_left(cols, col) + block_w(cols)
}

/// Whether `(r, c)` shares the row, the column or the block of `(row, col)`.
pub open spec fn is_peer(rows: int, cols: int, row: int, col: int, r: int, c: int) -> bool {
    r == row || c == col || in_block(rows, cols, row, col, r, c)
}

/// Which cells a traversal visits.
#[derive(Clone, Copy, Debug, PartialEq, Eq, Structural)]
pub enum SudokuIteratorMode {
    Row,
    Column,
    Square,
    Affected,
    All,
}

/// The rectangle `(top, left, height, width)` that a traversal scans.
pub open spec fn span_rect(rows: int, cols: int, mode: SudokuIteratorMode, row: int, col: int) -> (
    int,
    int,
    int,
    int,
) {
    match mode {
        SudokuIteratorMode::Row => (row, 0, 1, cols),
        SudokuIteratorMode::Column => (0, col, rows, 1),
        SudokuIteratorMode::Square => (
            box_top(rows, row),
            box_left(cols, col),
            block_h(rows),
            block_w(cols),
        ),
        SudokuIteratorMode::Affected => (0, 0, rows, cols),
        SudokuIteratorMode::All => (0, 0, rows, cols),
    }
}

/// Whether the traversal keeps cell `(r, c)` of its rectangle.
pub open spec fn span_keeps(
    rows: int,
    cols: int,
    mode: SudokuIteratorMode,
    row: int,
    col: int,
    r: int,
    c: int,
) -> bool {
    match mode {
        SudokuIteratorMode::Affected => is_peer(rows, cols, row, col, r, c),
        _ => true,
    }
}

/// The cells kept by the traversal from the rectangle-relative position
/// `(i, j)` onwards, in row-major order.
pub open spec fn scan(
    rows: int,
    cols: int,
    mode: SudokuIteratorMode,
    row: int,
    col: int,
    i: int,
    j: int,
) -> Seq<(int, int)>
    decreases span_rect(rows, cols, mode, row, col).2 - i, span_rect(rows, cols, mode, row, col).3
        - j,
{
    let (top, left, h, w) = span_rect(rows, cols, mode, row, col);
    if i < 0 || j < 0 || i >= h {
        Seq::empty()
    } else if j >= w {
        scan(rows, cols, mode, row, col, i + 1, 0)
    } else {
        let rest = scan(rows, cols, mode, row, col, i, j + 1);
        if span_keeps(rows, cols, mode, row, col, top + i, left + j) {
            seq![(top + i, left + j)].add(rest)
        } else {
            rest
        }
    }
}

/// The whole traversal of `mode` anchored at `(row, col)`.
pub open spec fn span(rows: int, cols: int, mode: SudokuIteratorMode, row: int, col: int) -> Seq<
    (int, int),
> {
    scan(rows, cols, mode, row, col, 0, 0)
}

/// Whether `(r, c)` lies in the traversal's rectangle at or after the
/// relative position `(i, j)` in row-major order.
pub open spec fn at_or_after(
    rows: int,
    cols: int,
    mode: SudokuIteratorMode,
    row: int,
    col: int,
    i: int,
    j: int,
    r: int,
    c: int,
) -> bool {
    let (top, left, h, w) = span_rect(rows, cols, mode, row, col);
    let (dr, dc) = (r - top, c - left);
    &&& 0 <= dr < h
    &&& 0 <= dc < w
    &&& (dr > i || (dr == i && dc >= j))
}

/// Coordinates as mathematical integers.
pub open spec fn as_cells(v: Seq<(usize, usize)>) -> Seq<(int, int)> {
    v.map_values(|p: (usize, usize)| (p.0 as int, p.1 as int))
}

/// One step of an iterator whose remaining cells were `before` and are now
/// `after`, having returned `r`.
pub open spec fn steps(before: Seq<(int, int)>, after: Seq<(int, int)>, r: Option<(usize, usize)>) -> bool {
    if before.len() == 0 {
        r is None && after == before
    } else {
        &&& after == before.drop_first()
        &&& match r {
            Some(p) => (p.0 as int, p.1 as int) == before[0],
            None => false,
        }
    }
}

/// The block of any in-range row starts at or before it and ends inside the board.
pub proof fn lemma_block_bounds(rows: int, cols: int, row: int, col: int)
    requires
        valid_dims(rows, cols),
        0 <= row < rows,
        0 <= col < cols,
    ensures
        2 <= block_h(rows) && block_h(rows) <= 16,
        2 <= block_w(cols) && block_w(cols) <= 16,
        3 * block_h(rows) == rows,
        3 * block_w(cols) == cols,
        0 <= box_top(rows, row) <= row < box_top(rows, row) + block_h(rows) <= rows,
        0 <= box_left(cols, col) <= col < box_left(cols, col) + block_w(cols) <= cols,
        rows <= 48 && cols <= 48,
{
    let bh = block_h(rows);
    let bw = block_w(cols);
    assert(bh >= 2 && bw >= 2);
    assert(bh * bw <= 32);
    assert(bh <= 16) by (nonlinear_arith)
        requires
            bh * bw <= 32,
            bw >= 2,
    ;
    assert(bw <= 16) by (nonlinear_arith)
        requires
            bh * bw <= 32,
            bh >= 2,
    ;
    lemma_box_start(rows, row);
    lemma_box_start(cols, col);
}

proof fn lemma_box_start(n: int, x: int)
    requires
        n > 3,
        n % 3 == 0,
        0 <= x < n,
    ensures
        0 <= (x / (n / 3)) * (n / 3) <= x < (x / (n / 3)) * (n / 3) + n / 3 <= n,
{
    let b = n / 3;
    let q = x / b;
    assert(n == 3 * b);
    assert(b >= 2);
    assert(x == q * b + x % b && 0 <= x % b < b) by (nonlinear_arith)
        requires
            b > 0,
            q == x / b,
    ;
    assert(0 <= q < 3) by (nonlinear_arith)
        requires
            b > 0,
            0 <= x < 3 * b,
            x == q * b + x % b,
            0 <= x % b < b,
    ;
    assert(0 <= q * b <= 2 * b) by (nonlinear_arith)
        requires
            0 <= q < 3,
            b > 0,
    ;
}

proof fn lemma_same_box(n: int, x: int, y: int)
    requires
        n > 3,
        n % 3 == 0,
        0 <= x < n,
        0 <= y < n,
    ensures
        ((x / (n / 3)) * (n / 3) <= y < (x / (n / 3)) * (n / 3) + n / 3) == ((x / (n / 3)) * (n / 3) == (y / (
        n / 3)) * (n / 3)),
{
    let b = n / 3;
    lemma_box_start(n, x);
    lemma_box_start(n, y);
    if (x / b) * b <= y < (x / b) * b + b {
        vstd::arithmetic::div_mod::lemma_fundamental_div_mod_converse(y, b, x / b, y - (x / b) * b);
    }
}

/// Sharing a row, a column or a block is symmetric.
pub proof fn lemma_peer_symmetric(rows: int, cols: int, r1: int, c1: int, r2: int, c2: int)
    requires
        valid_dims(rows, cols),
        0 <= r1 < rows,
        0 <= c1 < cols,
        0 <= r2 < rows,
        0 <= c2 < cols,
    ensures
        is_peer(rows, cols, r1, c1, r2, c2) == is_peer(rows, cols, r2, c2, r1, c1),
{
    lemma_same_box(rows, r1, r2);
    lemma_same_box(rows, r2, r1);
    lemma_same_box(cols, c1, c2);
    lemma_same_box(cols, c2, c1);
}

/// What the scan from `(i, j)` holds: each kept cell of the rectangle at or
/// after `(i, j)`, once.
pub proof fn lemma_scan_contents(
    rows: int,
    cols: int,
    mode: SudokuIteratorMode,
    row: int,
    col: int,
    i: int,
    j: int,
)
    requires
        0 <= i,
        0 <= j,
    ensures
        scan(rows, cols, mode, row, col, i, j).no_duplicates(),
        forall|r: int, c: int|
            #[trigger] scan(rows, cols, mode, row, col, i, j).contains((r, c)) <==> (at_or_after(
                rows,
                cols,
                mode,
                row,
                col,
                i,
                j,
                r,
                c,
            ) && span_keeps(rows, cols, mode, row, col, r, c)),
    decreases span_rect(rows, cols, mode, row, col).2 - i, span_rect(rows, cols, mode, row, col).3
        - j,
{
    let (top, left, h, w) = span_rect(rows, cols, mode, row, col);
    let s = scan(rows, cols, mode, row, col, i, j);
    if i >= h {
        assert(s.len() == 0);
    } else if j >= w {
        lemma_scan_contents(rows, cols, mode, row, col, i + 1, 0);
        assert forall|r: int, c: int| #[trigger] s.contains((r, c)) <==> (at_or_after(
            rows,
            cols,
            mode,
            row,
            col,
            i,
            j,
            r,
            c,
        ) && span_keeps(rows, cols, mode, row, col, r, c)) by {
            assert(at_or_after(rows, cols, mode, row, col, i, j, r, c) == at_or_after(
                rows,
                cols,
                mode,
                row,
                col,
                i + 1,
                0,
                r,
                c,
            ));
        }
    } else {
        lemma_scan_contents(rows, cols, mode, row, col, i, j + 1);
        let rest = scan(rows, cols, mode, row, col, i, j + 1);
        let cell = (top + i, left + j);
        assert forall|r: int, c: int|
            at_or_after(rows, cols, mode, row, col, i, j, r, c) <==> (at_or_after(
                rows,
                cols,
                mode,
                row,
                col,
                i,
                j + 1,
                r,
                c,
            ) || (r, c) == cell) by {}
        if span_keeps(rows, cols, mode, row, col, top + i, left + j) {
            assert(s == seq![cell].add(rest));
            assert(!rest.contains(cell));
            assert forall|r: int, c: int| #[trigger] s.contains((r, c)) <==> (at_or_after(
                rows,
                cols,
                mode,
                row,
                col,
                i,
                j,
                r,
                c,
            ) && span_keeps(rows, cols, mode, row, col, r, c)) by {
                if s.contains((r, c)) && (r, c) != cell {
                    let k = choose|k: int| 0 <= k < s.len() && s[k] == (r, c);
                    assert(rest[k - 1] == (r, c));
                }
                if rest.contains((r, c)) {
                    let k = choose|k: int| 0 <= k < rest.len() && rest[k] == (r, c);
                    assert(s[k + 1] == (r, c));
                }
                if (r, c) == cell {
                    assert(s[0] == cell);
                }
            }
            assert forall|a: int, b: int| 0 <= a < s.len() && 0 <= b < s.len() && a != b implies s[a]
                != s[b] by {
                if a > 0 && b > 0 {
                    assert(s[a] == rest[a - 1] && s[b] == rest[b - 1]);
                } else if a == 0 {
                    assert(rest.contains(s[b]));
                } else {
                    assert(rest.contains(s[a]));
                }
            }
        } else {
            assert(s == rest);
        }
    }
}

/// The peer span of an anchor visits each cell sharing its row, column or
/// block exactly once, and includes the anchor itself.
pub proof fn lemma_peer_span_exactly_once(rows: int, cols: int, row: int, col: int)
    requires
        valid_dims(rows, cols),
        0 <= row < rows,
        0 <= col < cols,
    ensures
        span(rows, cols, SudokuIteratorMode::Affected, row, col).no_duplicates(),
        span(rows, cols, SudokuIteratorMode::Affected, row, col).contains((row, col)),
        forall|r: int, c: int|
            #[trigger] span(rows, cols, SudokuIteratorMode::Affected, row, col).contains((r, c)) <==> (0
                <= r < rows && 0 <= c < cols && is_peer(rows, cols, row, col, r, c)),
{
    lemma_scan_contents(rows, cols, SudokuIteratorMode::Affected, row, col, 0, 0);
}

/// Every cell of a traversal lies on the board, and none comes twice.
pub proof fn lemma_span_on_board(rows: int, cols: int, mode: SudokuIteratorMode, row: int, col: int)
    requires
        valid_dims(rows, cols),
        0 <= row < rows,
        0 <= col < cols,
    ensures
        span(rows, cols, mode, row, col).no_duplicates(),
        forall|k: int|
            0 <= k < span(rows, cols, mode, row, col).len() ==> {
                let p = #[trigger] span(rows, cols, mode, row, col)[k];
                0 <= p.0 < rows && 0 <= p.1 < cols
            },
{
    lemma_block_bounds(rows, cols, row, col);
    lemma_scan_contents(rows, cols, mode, row, col, 0, 0);
    let s = span(rows, cols, mode, row, col);
    assert forall|k: int| 0 <= k < s.len() implies {
        let p = #[trigger] s[k];
        0 <= p.0 < rows && 0 <= p.1 < cols
    } by {
        assert(s.contains((s[k].0, s[k].1)));
    }
}

/// Whether `(r, c)` belongs to the traversal of `mode` anchored at `(row, col)`.
pub open spec fn unit_member(
    rows: int,
    cols: int,
    mode: SudokuIteratorMode,
    row: int,
    col: int,
    r: int,
    c: int,
) -> bool {
    &&& 0 <= r < rows
    &&& 0 <= c < cols
    &&& match mode {
        SudokuIteratorMode::Row => r == row,
        SudokuIteratorMode::Column => c == col,
        SudokuIteratorMode::Square => in_block(rows, cols, row, col, r, c),
        SudokuIteratorMode::Affected => is_peer(rows, cols, row, col, r, c),
        SudokuIteratorMode::All => true,
    }
}

/// A traversal holds exactly the members of its unit, each once.
pub proof fn lemma_span_members(rows: int, cols: int, mode: SudokuIteratorMode, row: int, col: int)
    requires
        valid_dims(rows, cols),
        0 <= row < rows,
        0 <= col < cols,
    ensures
        span(rows, cols, mode, row, col).no_duplicates(),
        forall|r: int, c: int|
            #[trigger] span(rows, cols, mode, row, col).contains((r, c)) <==> unit_member(
                rows,
                cols,
                mode,
                row,
                col,
                r,
                c,
            ),
{
    lemma_block_bounds(rows, cols, row, col);
    lemma_scan_contents(rows, cols, mode, row, col, 0, 0);
}

/// A lazy, finite traversal of the cells of one unit, relative to an anchor.
#[derive(Debug)]
pub struct SudokuIterator<const N_ROWS: usize, const N_COLS: usize> {
    row: usize,
    col: usize,
    c_r: usize,
    c_c: usize,
    sq_r: usize,
    sq_c: usize,
    mode: SudokuIteratorMode,
}

impl<const N_ROWS: usize, const N_COLS: usize> SudokuIterator<N_ROWS, N_COLS> {
    /// The cell the traversal is anchored at.
    pub closed spec fn anchor(&self) -> (int, int) {
        (self.row as int, self.col as int)
    }

    /// The traversal mode.
    pub closed spec fn spec_mode(&self) -> SudokuIteratorMode {
        self.mode
    }

    /// The rectangle-relative position of the next cell to examine.
    closed spec fn cursor(&self) -> (int, int) {
        match self.mode {
            SudokuIteratorMode::Row => (0, self.c_c as int),
            SudokuIteratorMode::Column => (self.c_r as int, 0),
            _ => (self.c_r as int, self.c_c as int),
        }
    }

    /// The cells still to come, in order.
    pub closed spec fn remaining(&self) -> Seq<(int, int)> {
        scan(
            N_ROWS as int,
            N_COLS as int,
            self.mode,
            self.row as int,
            self.col as int,
            self.cursor().0,
            self.cursor().1,
        )
    }

    /// The anchor is on a supported board, the block origin is the anchor's,
    /// and the cursor is within the scanned rectangle.
    pub closed spec fn wf(&self) -> bool {
        &&& valid_dims(N_ROWS as int, N_COLS as int)
        &&& self.row < N_ROWS
        &&& self.col < N_COLS
        &&& self.sq_r == box_top(N_ROWS as int, self.row as int)
        &&& self.sq_c == box_left(N_COLS as int, self.col as int)
        &&& match self.mode {
            SudokuIteratorMode::Row => self.c_c <= N_COLS,
            SudokuIteratorMode::Column => self.c_r <= N_ROWS,
            SudokuIteratorMode::Square => self.c_r <= block_h(N_ROWS as int) && self.c_c < block_w(
                N_COLS as int,
            ),
            _ => self.c_r <= N_ROWS && self.c_c < N_COLS,
        }
    }

    pub fn new(row: usize, col: usize, mode: SudokuIteratorMode) -> (r: Self)
        requires
            valid_dims(N_ROWS as int, N_COLS as int),
            row < N_ROWS,
            col < N_COLS,
        ensures
            r.wf(),
            r.anchor() == (row as int, col as int),
            r.spec_mode() == mode,
            r.remaining() == span(N_ROWS as int, N_COLS as int, mode, row as int, col as int),
    {
        proof {
            lemma_block_bounds(N_ROWS as int, N_COLS as int, row as int, col as int);
        }
        let bh = N_ROWS / 3;
        let bw = N_COLS / 3;
        SudokuIterator { row, col, c_r: 0, c_c: 0, sq_r: (row / bh) * bh, sq_c: (col / bw) * bw, mode }
    }

    /// Next cell of the anchor's row.
    pub fn next_row(&mut self) -> (r: Option<(usize, usize)>)
        requires
            old(self).wf(),
            old(self).spec_mode() == SudokuIteratorMode::Row,
        ensures
            final(self).wf(),
            final(self).anchor() == old(self).anchor(),
            final(self).spec_mode() == old(self).spec_mode(),
            steps(old(self).remaining(), final(self).remaining(), r),
    {
        let ghost s = *self;
        if self.c_c >= N_COLS {
            assert(scan(N_ROWS as int, N_COLS as int, self.mode, self.row as int, self.col as int, 0, N_COLS as int)
                == scan(N_ROWS as int, N_COLS as int, self.mode, self.row as int, self.col as int, 1, 0));
            return None;
        }
        let result = (self.row, self.c_c);
        self.c_c += 1;
        proof {
            assert(s.remaining() == seq![(self.row as int, s.c_c as int)].add(self.remaining()));
            assert(seq![(self.row as int, s.c_c as int)].add(self.remaining()).drop_first() =~= self.remaining());
        }
        Some(result)
    }

    /// Next cell of the anchor's column.
    pub fn next_column(&mut self) -> (r: Option<(usize, usize)>)
        requires
            old(self).wf(),
            old(self).spec_mode() == SudokuIteratorMode::Column,
        ensures
            final(self).wf(),
            final(self).anchor() == old(self).anchor(),
            final(self).spec_mode() == old(self).spec_mode(),
            steps(old(self).remaining(), final(self).remaining(), r),
    {
        let ghost s = *self;
        if self.c_r >= N_ROWS {
            return None;
        }
        let result = (self.c_r, self.col);
        self.c_r += 1;
        proof {
            assert(scan(N_ROWS as int, N_COLS as int, s.mode, s.row as int, s.col as int, s.c_r as int, 1)
                == scan(N_ROWS as int, N_COLS as int, s.mode, s.row as int, s.col as int, self.c_r as int, 0));
            assert(s.remaining() == seq![(s.c_r as int, self.col as int)].add(self.remaining()));
            assert(seq![(s.c_r as int, self.col as int)].add(self.remaining()).drop_first() =~= self.remaining());
        }
        Some(result)
    }

    /// Next cell of the anchor's block.
    pub fn next_square(&mut self) -> (r: Option<(usize, usize)>)
        requires
            old(self).wf(),
            old(self).spec_mode() == SudokuIteratorMode::Square,
        ensures
            final(self).wf(),
            final(self).anchor() == old(self).anchor(),
            final(self).spec_mode() == old(self).spec_mode(),
            steps(old(self).remaining(), final(self).remaining(), r),
    {
        let ghost s = *self;
        proof {
            lemma_block_bounds(N_ROWS as int, N_COLS as int, self.row as int, self.col as int);
        }
        let bh = N_ROWS / 3;
        let bw = N_COLS / 3;
        if self.c_r >= bh {
            return None;
        }
        let result = (self.sq_r + self.c_r, self.sq_c + self.c_c);
        self.c_c += 1;
        if self.c_c >= bw {
            self.c_c = 0;
            self.c_r += 1;
        }
        proof {
            assert(scan(N_ROWS as int, N_COLS as int, s.mode, s.row as int, s.col as int, s.c_r as int, s.c_c + 1)
                == self.remaining());
            assert(s.remaining() == seq![(result.0 as int, result.1 as int)].add(self.remaining()));
            assert(seq![(result.0 as int, result.1 as int)].add(self.remaining()).drop_first() =~= self.remaining());
        }
        Some(result)
    }

    /// Next cell of the whole board.
    pub fn next_all(&mut self) -> (r: Option<(usize, usize)>)
        requires
            old(self).wf(),
            old(self).spec_mode() == SudokuIteratorMode::All,
        ensures
            final(self).wf(),
            final(self).anchor() == old(self).anchor(),
            final(self).spec_mode() == old(self).spec_mode(),
            steps(old(self).remaining(), final(self).remaining(), r),
    {
        let ghost s = *self;
        if self.c_r >= N_ROWS {
            return None;
        }
        let result = (self.c_r, self.c_c);
        self.c_c += 1;
        if self.c_c >= N_COLS {
            self.c_r += 1;
            self.c_c = 0;
        }
        proof {
            assert(scan(N_ROWS as int, N_COLS as int, s.mode, s.row as int, s.col as int, s.c_r as int, s.c_c + 1)
                == self.remaining());
            assert(s.remaining() == seq![(result.0 as int, result.1 as int)].add(self.remaining()));
            assert(seq![(result.0 as int, result.1 as int)].add(self.remaining()).drop_first() =~= self.remaining());
        }
        Some(result)
    }

    /// Next cell sharing the anchor's row, column or block, found by testing
    /// each board cell in row-major order.
    pub fn next_affected(&mut self) -> (r: Option<(usize, usize)>)
        requires
            old(self).wf(),
            old(self).spec_mode() == SudokuIteratorMode::Affected,
        ensures
            final(self).wf(),
            final(self).anchor() == old(self).anchor(),
            final(self).spec_mode() == old(self).spec_mode(),
            steps(old(self).remaining(), final(self).remaining(), r),
    {
        let ghost s = *self;
        proof {
            lemma_block_bounds(N_ROWS as int, N_COLS as int, self.row as int, self.col as int);
        }
        let bh = N_ROWS / 3;
        let bw = N_COLS / 3;
        while self.c_r < N_ROWS
            invariant
                self.wf(),
                self.row == s.row,
                self.col == s.col,
                self.mode == s.mode,
                self.sq_r == s.sq_r,
                self.sq_c == s.sq_c,
                bh == block_h(N_ROWS as int),
                bw == block_w(N_COLS as int),
                s.remaining() == self.remaining(),
                s.mode == SudokuIteratorMode::Affected,
                self.c_c < N_COLS,
                self.c_r <= N_ROWS,
                self.sq_r + bh <= N_ROWS,
                self.sq_c + bw <= N_COLS,
                s == *old(self),
            decreases N_ROWS - self.c_r, N_COLS - self.c_c,
        {
            let r = self.c_r;
            let c = self.c_c;
            if c + 1 < N_COLS {
                self.c_c = c + 1;
            } else {
                self.c_c = 0;
                self.c_r = r + 1;
            }
            let ghost here = scan(N_ROWS as int, N_COLS as int, s.mode, s.row as int, s.col as int, r as int, c as int);
            proof {
                if c + 1 >= N_COLS {
                    assert(scan(N_ROWS as int, N_COLS as int, s.mode, s.row as int, s.col as int, r as int, c + 1)
                        == scan(N_ROWS as int, N_COLS as int, s.mode, s.row as int, s.col as int, r + 1, 0));
                }
                assert(scan(N_ROWS as int, N_COLS as int, s.mode, s.row as int, s.col as int, r as int, c + 1)
                    == self.remaining());
            }
            let peer = (self.sq_r <= r && r < self.sq_r + bh && self.sq_c <= c && c < self.sq_c + bw)
                || r == self.row || c == self.col;
            if peer {
                proof {
                    assert(here == seq![(r as int, c as int)].add(self.remaining()));
                    assert(seq![(r as int, c as int)].add(self.remaining()).drop_first() =~= self.remaining());
                }
                return Some((r, c));
            }
        }
        None
    }

    /// Next cell of the traversal.
    pub fn next(&mut self) -> (r: Option<(usize, usize)>)
        requires
            old(self).wf(),
        ensures
            final(self).wf(),
            final(self).anchor() == old(self).anchor(),
            final(self).spec_mode() == old(self).spec_mode(),
            steps(old(self).remaining(), final(self).remaining(), r),
    {
        match self.mode {
            SudokuIteratorMode::Row => self.next_row(),
            SudokuIteratorMode::Column => self.next_column(),
            SudokuIteratorMode::Square => self.next_square(),
            SudokuIteratorMode::Affected => self.next_affected(),
            SudokuIteratorMode::All => self.next_all(),
        }
    }

    /// The cells still to come, in order.
    pub fn remaining_cells(&mut self) -> (v: Vec<(usize, usize)>)
        requires
            old(self).wf(),
        ensures
            as_cells(v@) == old(self).remaining(),
            final(self).wf(),
            final(self).remaining().len() == 0,
    {
        let ghost start = self.remaining();
        let mut v: Vec<(usize, usize)> = Vec::new();
        loop
            invariant
                self.wf(),
                start == as_cells(v@).add(self.remaining()),
                start == old(self).remaining(),
            decreases self.remaining().len(),
        {
            match self.next() {
                Some(p) => {
                    let ghost before = v@;
                    v.push(p);
                    proof {
                        assert(as_cells(v@) == as_cells(before).push((p.0 as int, p.1 as int)));
                    }
                },
                None => {
                    proof {
                        assert(as_cells(v@).add(self.remaining()) =~= as_cells(v@));
                    }
                    return v;
                },
            }
        }
    }
}

/// The cells of the traversal of `mode` anchored at `(row, col)`, in order.
pub fn unit_cells<const N_ROWS: usize, const N_COLS: usize>(
    row: usize,
    col: usize,
    mode: SudokuIteratorMode,
) -> (v: Vec<(usize, usize)>)
    requires
        valid_dims(N_ROWS as int, N_COLS as int),
        row < N_ROWS,
        col < N_COLS,
    ensures
        as_cells(v@) == span(N_ROWS as int, N_COLS as int, mode, row as int, col as int),
{
    let mut it = SudokuIterator::<N_ROWS, N_COLS>::new(row, col, mode);
    it.remaining_cells()
}

} // verus!
