//! The generation controller: propagate to a fixpoint, guess when stalled,
//! validate, repeat.
use vstd::prelude::*;
use rand::rngs::StdRng;
use crate::bits::{has_bit, lemma_set_bit, lowest, popcount};
use crate::deduction::single_host;
use crate::random_bit::RandomBit;
use crate::sudoku::Sudoku;
use crate::sudoku_iterator::{
    block_h, block_w, is_peer, lemma_block_bounds, lemma_peer_symmetric, valid_dims, SudokuIteratorMode,
};
use crate::sudoku_pencil_notes::{symbol_bit, symbol_count, HiddenSingleIterator, PencilNotes};

verus! {

/// The board dimensions are not supported.
#[derive(Debug, Clone, Copy, PartialEq, Eq)]
pub struct DimensionError {
    pub rows: usize,
    pub cols: usize,
}

/// Generation reached a cell without candidates, an inconsistent grid, or
/// the end of its round budget; carries the state it stopped in.
#[derive(Debug, Clone, Copy)]
pub struct ContradictionError<const N_ROWS: usize, const N_COLS: usize> {
    pub sudoku: Sudoku<N_ROWS, N_COLS>,
    pub pencil_notes: PencilNotes<N_ROWS, N_COLS>,
}

/// Which cell to guess when deduction stalls: the one with the fewest
/// candidates or the one with the most.
#[derive(Debug, Clone, Copy, PartialEq, Eq, Structural)]
pub enum EntropyPolicy {
    Lowest,
    Highest,
}

/// Every unfilled cell lists more or fewer than one symbol.
pub open spec fn naked_fixed<const N_ROWS: usize, const N_COLS: usize>(
    sudoku: Sudoku<N_ROWS, N_COLS>,
    notes: PencilNotes<N_ROWS, N_COLS>,
) -> bool {
    forall|r: int, c: int|
        PencilNotes::<N_ROWS, N_COLS>::on_board(r, c) && sudoku.cell(r, c) == 0 ==> #[trigger] notes.count(r, c) != 1
}

/// Every symbol listed by a single cell of the traversal of `mode` anchored
/// at `(row, col)` sits on a filled cell.
pub open spec fn hidden_fixed<const N_ROWS: usize, const N_COLS: usize>(
    sudoku: Sudoku<N_ROWS, N_COLS>,
    notes: PencilNotes<N_ROWS, N_COLS>,
    row: int,
    col: int,
    mode: SudokuIteratorMode,
) -> bool {
    let unit = PencilNotes::<N_ROWS, N_COLS>::unit_of(row, col, mode);
    forall|k: int, x: int|
        0 <= k < symbol_count(N_ROWS as int, N_COLS as int) && #[trigger] single_host(notes.masks_on(unit), k, x)
            ==> sudoku.cell(unit[x].0, unit[x].1) != 0
}

/// The hidden-single rule finds nothing in any row, column or block.
pub open spec fn hidden_fixed_all<const N_ROWS: usize, const N_COLS: usize>(
    sudoku: Sudoku<N_ROWS, N_COLS>,
    notes: PencilNotes<N_ROWS, N_COLS>,
) -> bool {
    &&& forall|i: int| 0 <= i < N_ROWS ==> #[trigger] hidden_fixed(sudoku, notes, i, 0, SudokuIteratorMode::Row)
    &&& forall|j: int| 0 <= j < N_COLS ==> #[trigger] hidden_fixed(sudoku, notes, 0, j, SudokuIteratorMode::Column)
    &&& forall|bi: int, bj: int|
        0 <= bi < 3 && 0 <= bj < 3 ==> #[trigger] hidden_fixed(
            sudoku,
            notes,
            bi * block_h(N_ROWS as int),
            bj * block_w(N_COLS as int),
            SudokuIteratorMode::Square,
        )
}

/// Neither the naked-single nor the hidden-single rule can fire.
pub open spec fn singles_fixpoint<const N_ROWS: usize, const N_COLS: usize>(
    sudoku: Sudoku<N_ROWS, N_COLS>,
    notes: PencilNotes<N_ROWS, N_COLS>,
) -> bool {
    naked_fixed(sudoku, notes) && hidden_fixed_all(sudoku, notes)
}

/// `(s2, n2)` is `(s, n)` with `number` committed to `(row, col)`: the grid
/// takes it, the cell's mask becomes that symbol alone, and every other cell
/// of its peer span loses it.
pub open spec fn commit_step<const N_ROWS: usize, const N_COLS: usize>(
    s: Sudoku<N_ROWS, N_COLS>,
    n: PencilNotes<N_ROWS, N_COLS>,
    s2: Sudoku<N_ROWS, N_COLS>,
    n2: PencilNotes<N_ROWS, N_COLS>,
    row: int,
    col: int,
    number: int,
) -> bool {
    &&& s2.cell(row, col) == number
    &&& forall|r: int, c: int|
        PencilNotes::<N_ROWS, N_COLS>::on_board(r, c) && (r, c) != (row, col) ==> #[trigger] s2.cell(r, c) == s.cell(r, c)
    &&& n2.mask(row, col) == symbol_bit(number)
    &&& forall|r: int, c: int|
        PencilNotes::<N_ROWS, N_COLS>::on_board(r, c) && (r, c) != (row, col) ==> #[trigger] n2.mask(r, c) == if is_peer(
            N_ROWS as int,
            N_COLS as int,
            row,
            col,
            r,
            c,
        ) {
            n.mask(r, c) & !symbol_bit(number)
        } else {
            n.mask(r, c)
        }
}

/// Cell `(r, c)`, empty in `s0`, holds in `s` a symbol that `n0` listed there;
/// in `n` its mask is that symbol alone and no other cell of its peer span
/// lists it.
pub open spec fn committed_at<const N_ROWS: usize, const N_COLS: usize>(
    s0: Sudoku<N_ROWS, N_COLS>,
    n0: PencilNotes<N_ROWS, N_COLS>,
    s: Sudoku<N_ROWS, N_COLS>,
    n: PencilNotes<N_ROWS, N_COLS>,
    r: int,
    c: int,
) -> bool {
    let v = s.cell(r, c);
    &&& s0.cell(r, c) == 0
    &&& 1 <= v <= 32
    &&& has_bit(n0.mask(r, c), v - 1)
    &&& n.mask(r, c) == symbol_bit(v as int)
    &&& forall|r2: int, c2: int|
        PencilNotes::<N_ROWS, N_COLS>::on_board(r2, c2) && is_peer(N_ROWS as int, N_COLS as int, r, c, r2, c2) && (r2, c2)
            != (r, c) ==> !has_bit(#[trigger] n.mask(r2, c2), v - 1)
}

/// `(s, n)` differs from `(s0, n0)` by commits only: masks only narrow,
/// filled cells keep their symbols, and each newly filled cell is committed.
pub open spec fn commits_from<const N_ROWS: usize, const N_COLS: usize>(
    s0: Sudoku<N_ROWS, N_COLS>,
    n0: PencilNotes<N_ROWS, N_COLS>,
    s: Sudoku<N_ROWS, N_COLS>,
    n: PencilNotes<N_ROWS, N_COLS>,
) -> bool {
    &&& n0.narrows_to(&n)
    &&& forall|r: int, c: int|
        PencilNotes::<N_ROWS, N_COLS>::on_board(r, c) && s0.cell(r, c) != 0 ==> #[trigger] s.cell(r, c) == s0.cell(r, c)
    &&& forall|r: int, c: int|
        PencilNotes::<N_ROWS, N_COLS>::on_board(r, c) && #[trigger] s.cell(r, c) != s0.cell(r, c) ==> committed_at(
            s0,
            n0,
            s,
            n,
            r,
            c,
        )
}

/// Some cell empty in `s0` is filled in `s`.
pub open spec fn filled_some<const N_ROWS: usize, const N_COLS: usize>(
    s0: Sudoku<N_ROWS, N_COLS>,
    s: Sudoku<N_ROWS, N_COLS>,
) -> bool {
    exists|r: int, c: int|
        PencilNotes::<N_ROWS, N_COLS>::on_board(r, c) && s0.cell(r, c) == 0 && #[trigger] s.cell(r, c) != 0
}

/// Filled cells of `s` keep their symbols in `s2`.
pub open spec fn keeps_filled<const N_ROWS: usize, const N_COLS: usize>(
    s: Sudoku<N_ROWS, N_COLS>,
    s2: Sudoku<N_ROWS, N_COLS>,
) -> bool {
    forall|r: int, c: int|
        PencilNotes::<N_ROWS, N_COLS>::on_board(r, c) && s.cell(r, c) != 0 ==> #[trigger] s2.cell(r, c) == s.cell(r, c)
}

proof fn bv_other_bit(a: u32, b: u32)
    by (bit_vector)
    requires
        a < 32,
        b < 32,
        a != b,
    ensures
        (1u32 << a) & !(1u32 << b) == (1u32 << a),
{
}

/// Committing a listed symbol to an empty cell keeps a state that differs
/// from `(s0, n0)` by commits only.
proof fn lemma_commit_keeps<const N_ROWS: usize, const N_COLS: usize>(
    s0: Sudoku<N_ROWS, N_COLS>,
    n0: PencilNotes<N_ROWS, N_COLS>,
    s: Sudoku<N_ROWS, N_COLS>,
    n: PencilNotes<N_ROWS, N_COLS>,
    s2: Sudoku<N_ROWS, N_COLS>,
    n2: PencilNotes<N_ROWS, N_COLS>,
    row: int,
    col: int,
    number: int,
)
    requires
        valid_dims(N_ROWS as int, N_COLS as int),
        PencilNotes::<N_ROWS, N_COLS>::on_board(row, col),
        1 <= number <= 32,
        commits_from(s0, n0, s, n),
        commit_step(s, n, s2, n2, row, col, number),
        s.cell(row, col) == 0,
        has_bit(n.mask(row, col), number - 1),
    ensures
        commits_from(s0, n0, s2, n2),
        filled_some(s0, s2),
        keeps_filled(s, s2),
{
    let k = number - 1;
    lemma_set_bit(0, k);
    assert(s0.cell(row, col) == 0);
    assert forall|r: int, c: int, j: int|
        PencilNotes::<N_ROWS, N_COLS>::on_board(r, c) && #[trigger] has_bit(n2.mask(r, c), j) implies has_bit(n0.mask(r, c), j) by {
        if (r, c) != (row, col) {
            lemma_set_bit(n.mask(r, c), k);
        }
    }
    assert forall|r: int, c: int|
        PencilNotes::<N_ROWS, N_COLS>::on_board(r, c) && #[trigger] s2.cell(r, c) != s0.cell(r, c) implies committed_at(
        s0,
        n0,
        s2,
        n2,
        r,
        c,
    ) by {
        if (r, c) == (row, col) {
            assert forall|r2: int, c2: int|
                PencilNotes::<N_ROWS, N_COLS>::on_board(r2, c2) && is_peer(N_ROWS as int, N_COLS as int, r, c, r2, c2)
                    && (r2, c2) != (r, c) implies !has_bit(#[trigger] n2.mask(r2, c2), number - 1) by {
                lemma_set_bit(n.mask(r2, c2), k);
            }
        } else {
            assert(s.cell(r, c) != s0.cell(r, c));
            assert(committed_at(s0, n0, s, n, r, c));
            let v = s.cell(r, c) as int;
            lemma_peer_symmetric(N_ROWS as int, N_COLS as int, r, c, row, col);
            if is_peer(N_ROWS as int, N_COLS as int, row, col, r, c) {
                assert(v != number);
                bv_other_bit((v - 1) as u32, k as u32);
            }
            assert(n2.mask(r, c) == symbol_bit(v));
            assert forall|r2: int, c2: int|
                PencilNotes::<N_ROWS, N_COLS>::on_board(r2, c2) && is_peer(N_ROWS as int, N_COLS as int, r, c, r2, c2)
                    && (r2, c2) != (r, c) implies !has_bit(#[trigger] n2.mask(r2, c2), v - 1) by {
                assert(!has_bit(n.mask(r2, c2), v - 1));
                if (r2, c2) == (row, col) {
                    assert(v != number);
                } else {
                    lemma_set_bit(n.mask(r2, c2), k);
                }
            }
        }
    }
    assert(s2.cell(row, col) != 0);
}

/// Commits `number` to `(row, col)`: the grid takes it, the cell's mask
/// becomes that symbol alone and its peers lose it.
pub fn commit<const N_ROWS: usize, const N_COLS: usize>(
    sudoku: &mut Sudoku<N_ROWS, N_COLS>,
    pencil_notes: &mut PencilNotes<N_ROWS, N_COLS>,
    row: usize,
    col: usize,
    number: u32,
)
    requires
        valid_dims(N_ROWS as int, N_COLS as int),
        row < N_ROWS,
        col < N_COLS,
        1 <= number <= 32,
    ensures
        commit_step(
            *old(sudoku),
            *old(pencil_notes),
            *final(sudoku),
            *final(pencil_notes),
            row as int,
            col as int,
            number as int,
        ),
        forall|r: int, c: int|
            PencilNotes::<N_ROWS, N_COLS>::on_board(r, c) && is_peer(N_ROWS as int, N_COLS as int, row as int, col as int, r, c)
                && (r, c) != (row as int, col as int) ==> !has_bit(#[trigger] final(pencil_notes).mask(r, c), number - 1),
{
    sudoku.board[row][col] = number;
    pencil_notes.set_possibility(row, col, 1u32 << (number - 1));
    pencil_notes.eliminate_possibility(row, col, number);
}

/// One naked-single pass: each unfilled cell with exactly one candidate, in
/// row-major order, takes it.
fn naked_single_pass<const N_ROWS: usize, const N_COLS: usize>(
    sudoku: &mut Sudoku<N_ROWS, N_COLS>,
    notes: &mut PencilNotes<N_ROWS, N_COLS>,
) -> (fired: bool)
    requires
        valid_dims(N_ROWS as int, N_COLS as int),
    ensures
        fired == !naked_fixed(*old(sudoku), *old(notes)),
        !fired ==> *final(sudoku) == *old(sudoku) && *final(notes) == *old(notes),
        commits_from(*old(sudoku), *old(notes), *final(sudoku), *final(notes)),
        fired ==> filled_some(*old(sudoku), *final(sudoku)),
{
    let ghost s0 = *sudoku;
    let ghost n0 = *notes;
    let mut fired = false;
    let mut r: usize = 0;
    while r < N_ROWS
        invariant
            valid_dims(N_ROWS as int, N_COLS as int),
            r <= N_ROWS,
            s0 == *old(sudoku),
            n0 == *old(notes),
            fired ==> !naked_fixed(s0, n0),
            commits_from(s0, n0, *sudoku, *notes),
            fired ==> filled_some(s0, *sudoku),
            !fired ==> *sudoku == s0 && *notes == n0 && forall|i: int, j: int|
                PencilNotes::<N_ROWS, N_COLS>::on_board(i, j) && i < r && s0.cell(i, j) == 0 ==> #[trigger] n0.count(i, j) != 1,
        decreases N_ROWS - r,
    {
        let mut c: usize = 0;
        while c < N_COLS
            invariant
                valid_dims(N_ROWS as int, N_COLS as int),
                r < N_ROWS,
                c <= N_COLS,
                s0 == *old(sudoku),
                n0 == *old(notes),
                fired ==> !naked_fixed(s0, n0),
                commits_from(s0, n0, *sudoku, *notes),
                fired ==> filled_some(s0, *sudoku),
                !fired ==> *sudoku == s0 && *notes == n0 && forall|i: int, j: int|
                    PencilNotes::<N_ROWS, N_COLS>::on_board(i, j) && (i < r || (i == r && j < c)) && s0.cell(i, j) == 0
                        ==> #[trigger] n0.count(i, j) != 1,
            decreases N_COLS - c,
        {
            if sudoku.board[r][c] == 0 {
                if let Some(number) = notes.get_possibility(r, c) {
                    proof {
                        if !fired {
                            assert(n0.count(r as int, c as int) == 1);
                        }
                    }
                    let ghost (ps, pn) = (*sudoku, *notes);
                    commit(sudoku, notes, r, c, number);
                    proof {
                        lemma_commit_keeps(s0, n0, ps, pn, *sudoku, *notes, r as int, c as int, number as int);
                    }
                    fired = true;
                }
            }
            c += 1;
        }
        r += 1;
    }
    fired
}

/// The hidden-single rule on one traversal: the first hidden single that
/// sits on an unfilled cell is committed.
fn hidden_single_unit<const N_ROWS: usize, const N_COLS: usize>(
    sudoku: &mut Sudoku<N_ROWS, N_COLS>,
    notes: &mut PencilNotes<N_ROWS, N_COLS>,
    row: usize,
    col: usize,
    mode: SudokuIteratorMode,
) -> (fired: bool)
    requires
        valid_dims(N_ROWS as int, N_COLS as int),
        row < N_ROWS,
        col < N_COLS,
    ensures
        fired == !hidden_fixed(*old(sudoku), *old(notes), row as int, col as int, mode),
        !fired ==> *final(sudoku) == *old(sudoku) && *final(notes) == *old(notes),
        fired ==> exists|r: int, c: int, number: int|
            PencilNotes::<N_ROWS, N_COLS>::on_board(r, c) && 1 <= number <= 32 && old(sudoku).cell(r, c) == 0
                && has_bit(old(notes).mask(r, c), number - 1) && #[trigger] commit_step(
                *old(sudoku),
                *old(notes),
                *final(sudoku),
                *final(notes),
                r,
                c,
                number,
            ),
{
    let ghost unit = PencilNotes::<N_ROWS, N_COLS>::unit_of(row as int, col as int, mode);
    let ghost masks = notes.masks_on(unit);
    proof {
        crate::sudoku_iterator::lemma_span_on_board(N_ROWS as int, N_COLS as int, mode, row as int, col as int);
    }
    let mut it = HiddenSingleIterator::<N_ROWS, N_COLS>::new(notes, row, col, mode);
    loop
        invariant
            valid_dims(N_ROWS as int, N_COLS as int),
            it.wf(),
            it.unit() == unit,
            unit == PencilNotes::<N_ROWS, N_COLS>::unit_of(row as int, col as int, mode),
            it.masks() == masks,
            masks == old(notes).masks_on(unit),
            it.symbols() == symbol_count(N_ROWS as int, N_COLS as int),
            0 <= it.cursor() <= it.symbols(),
            *sudoku == *old(sudoku),
            *notes == *old(notes),
            forall|k: int| 0 <= k < unit.len() ==> {
                let p = #[trigger] unit[k];
                0 <= p.0 < N_ROWS && 0 <= p.1 < N_COLS
            },
            forall|k: int, x: int|
                0 <= k < it.cursor() && #[trigger] single_host(masks, k, x) ==> sudoku.cell(unit[x].0, unit[x].1) != 0,
        decreases it.symbols() - it.cursor(),
    {
        let ghost cursor = it.cursor();
        match it.next() {
            Some((r, c, number)) => {
                let ghost x = choose|x: int| #[trigger] single_host(masks, number - 1, x) && unit[x] == (r as int, c as int);
                proof {
                    assert(single_host(masks, number - 1, x) && unit[x] == (r as int, c as int));
                    assert(0 <= x < unit.len());
                }
                if sudoku.board[r][c] == 0 {
                    proof {
                        assert(old(sudoku).cell(unit[x].0, unit[x].1) == 0);
                        assert(!hidden_fixed(*old(sudoku), *old(notes), row as int, col as int, mode));
                    }
                    assert(has_bit(old(notes).mask(r as int, c as int), number - 1)) by {
                        assert(has_bit(masks[x], number - 1));
                    }
                    commit(sudoku, notes, r, c, number);
                    assert(commit_step(*old(sudoku), *old(notes), *sudoku, *notes, r as int, c as int, number as int));
                    return true;
                }
                proof {
                    assert forall|k: int, y: int|
                        0 <= k < it.cursor() && #[trigger] single_host(masks, k, y) implies sudoku.cell(unit[y].0, unit[y].1) != 0 by {
                        if k == number - 1 {
                            assert(y == x) by {
                                assert(has_bit(masks[y], k));
                            }
                        } else if k >= cursor {
                            assert(!single_host(masks, k, y));
                        }
                    }
                }
            },
            None => {
                proof {
                    assert forall|k: int, y: int|
                        0 <= k < symbol_count(N_ROWS as int, N_COLS as int) && #[trigger] single_host(old(notes).masks_on(unit), k, y)
                            implies old(sudoku).cell(unit[y].0, unit[y].1) != 0 by {
                        if k >= cursor {
                            assert(!single_host(masks, k, y));
                        }
                    }
                }
                return false;
            },
        }
    }
}

/// One hidden-single pass over every block, then every row, then every column.
fn hidden_single_pass<const N_ROWS: usize, const N_COLS: usize>(
    sudoku: &mut Sudoku<N_ROWS, N_COLS>,
    notes: &mut PencilNotes<N_ROWS, N_COLS>,
    base_sudoku: Ghost<Sudoku<N_ROWS, N_COLS>>,
    base_notes: Ghost<PencilNotes<N_ROWS, N_COLS>>,
) -> (fired: bool)
    requires
        valid_dims(N_ROWS as int, N_COLS as int),
        commits_from(base_sudoku@, base_notes@, *old(sudoku), *old(notes)),
    ensures
        fired == !hidden_fixed_all(*old(sudoku), *old(notes)),
        !fired ==> *final(sudoku) == *old(sudoku) && *final(notes) == *old(notes),
        commits_from(base_sudoku@, base_notes@, *final(sudoku), *final(notes)),
        commits_from(*old(sudoku), *old(notes), *final(sudoku), *final(notes)),
        fired ==> filled_some(*old(sudoku), *final(sudoku)),
{
    let ghost s0 = *sudoku;
    let ghost n0 = *notes;
    proof {
        lemma_block_bounds(N_ROWS as int, N_COLS as int, 0, 0);
    }
    let bh = N_ROWS / 3;
    let bw = N_COLS / 3;
    let mut fired = false;
    let mut bi: usize = 0;
    while bi < 3
        invariant
            valid_dims(N_ROWS as int, N_COLS as int),
            bh == block_h(N_ROWS as int),
            bw == block_w(N_COLS as int),
            3 * bh == N_ROWS,
            3 * bw == N_COLS,
            bi <= 3,
            s0 == *old(sudoku),
            n0 == *old(notes),
            fired ==> !hidden_fixed_all(s0, n0),
            commits_from(base_sudoku@, base_notes@, *sudoku, *notes),
            commits_from(s0, n0, *sudoku, *notes),
            fired ==> filled_some(s0, *sudoku),
            !fired ==> *sudoku == s0 && *notes == n0 && forall|i: int, j: int|
                0 <= i < bi && 0 <= j < 3 ==> #[trigger] hidden_fixed(s0, n0, i * bh, j * bw, SudokuIteratorMode::Square),
        decreases 3 - bi,
    {
        let mut bj: usize = 0;
        while bj < 3
            invariant
                valid_dims(N_ROWS as int, N_COLS as int),
                bh == block_h(N_ROWS as int),
                bw == block_w(N_COLS as int),
                3 * bh == N_ROWS,
                3 * bw == N_COLS,
                bi < 3,
                bj <= 3,
                s0 == *old(sudoku),
                n0 == *old(notes),
                fired ==> !hidden_fixed_all(s0, n0),
                commits_from(base_sudoku@, base_notes@, *sudoku, *notes),
                commits_from(s0, n0, *sudoku, *notes),
                fired ==> filled_some(s0, *sudoku),
                !fired ==> *sudoku == s0 && *notes == n0 && forall|i: int, j: int|
                    0 <= i < 3 && 0 <= j < 3 && (i < bi || (i == bi && j < bj)) ==> #[trigger] hidden_fixed(
                        s0,
                        n0,
                        i * bh,
                        j * bw,
                        SudokuIteratorMode::Square,
                    ),
            decreases 3 - bj,
        {
            assert(bi * bh < N_ROWS && bj * bw < N_COLS) by (nonlinear_arith)
                requires
                    bi < 3,
                    bj < 3,
                    3 * bh == N_ROWS,
                    3 * bw == N_COLS,
                    bh > 0,
                    bw > 0,
            ;
            let r0 = bi * bh;
            let c0 = bj * bw;
            let ghost (ps, pn) = (*sudoku, *notes);
            if hidden_single_unit(sudoku, notes, r0, c0, SudokuIteratorMode::Square) {
                proof {
                    let (wr, wc, wn) = choose|wr: int, wc: int, wn: int|
                        PencilNotes::<N_ROWS, N_COLS>::on_board(wr, wc) && 1 <= wn <= 32 && ps.cell(wr, wc) == 0
                            && has_bit(pn.mask(wr, wc), wn - 1) && #[trigger] commit_step(ps, pn, *sudoku, *notes, wr, wc, wn);
                    lemma_commit_keeps(base_sudoku@, base_notes@, ps, pn, *sudoku, *notes, wr, wc, wn);
                    lemma_commit_keeps(s0, n0, ps, pn, *sudoku, *notes, wr, wc, wn);
                }
                proof {
                    if !fired {
                        assert(!hidden_fixed(s0, n0, bi * bh, bj * bw, SudokuIteratorMode::Square));
                    }
                }
                fired = true;
            }
            bj += 1;
        }
        bi += 1;
    }
    let mut i: usize = 0;
    while i < N_ROWS
        invariant
            valid_dims(N_ROWS as int, N_COLS as int),
            bh == block_h(N_ROWS as int),
            bw == block_w(N_COLS as int),
            i <= N_ROWS,
            s0 == *old(sudoku),
            n0 == *old(notes),
            fired ==> !hidden_fixed_all(s0, n0),
            commits_from(base_sudoku@, base_notes@, *sudoku, *notes),
            commits_from(s0, n0, *sudoku, *notes),
            fired ==> filled_some(s0, *sudoku),
            !fired ==> *sudoku == s0 && *notes == n0 && (forall|ii: int, jj: int|
                0 <= ii < 3 && 0 <= jj < 3 ==> #[trigger] hidden_fixed(s0, n0, ii * bh, jj * bw, SudokuIteratorMode::Square))
                && forall|ii: int| 0 <= ii < i ==> #[trigger] hidden_fixed(s0, n0, ii, 0, SudokuIteratorMode::Row),
        decreases N_ROWS - i,
    {
        let ghost (ps, pn) = (*sudoku, *notes);
        if hidden_single_unit(sudoku, notes, i, 0, SudokuIteratorMode::Row) {
            proof {
                let (wr, wc, wn) = choose|wr: int, wc: int, wn: int|
                    PencilNotes::<N_ROWS, N_COLS>::on_board(wr, wc) && 1 <= wn <= 32 && ps.cell(wr, wc) == 0
                        && has_bit(pn.mask(wr, wc), wn - 1) && #[trigger] commit_step(ps, pn, *sudoku, *notes, wr, wc, wn);
                lemma_commit_keeps(base_sudoku@, base_notes@, ps, pn, *sudoku, *notes, wr, wc, wn);
                lemma_commit_keeps(s0, n0, ps, pn, *sudoku, *notes, wr, wc, wn);
            }
            fired = true;
        }
        i += 1;
    }
    let mut j: usize = 0;
    while j < N_COLS
        invariant
            valid_dims(N_ROWS as int, N_COLS as int),
            bh == block_h(N_ROWS as int),
            bw == block_w(N_COLS as int),
            j <= N_COLS,
            s0 == *old(sudoku),
            n0 == *old(notes),
            fired ==> !hidden_fixed_all(s0, n0),
            commits_from(base_sudoku@, base_notes@, *sudoku, *notes),
            commits_from(s0, n0, *sudoku, *notes),
            fired ==> filled_some(s0, *sudoku),
            !fired ==> *sudoku == s0 && *notes == n0 && (forall|ii: int, jj: int|
                0 <= ii < 3 && 0 <= jj < 3 ==> #[trigger] hidden_fixed(s0, n0, ii * bh, jj * bw, SudokuIteratorMode::Square))
                && (forall|ii: int| 0 <= ii < N_ROWS ==> #[trigger] hidden_fixed(s0, n0, ii, 0, SudokuIteratorMode::Row))
                && forall|jj: int| 0 <= jj < j ==> #[trigger] hidden_fixed(s0, n0, 0, jj, SudokuIteratorMode::Column),
        decreases N_COLS - j,
    {
        let ghost (ps, pn) = (*sudoku, *notes);
        if hidden_single_unit(sudoku, notes, 0, j, SudokuIteratorMode::Column) {
            proof {
                let (wr, wc, wn) = choose|wr: int, wc: int, wn: int|
                    PencilNotes::<N_ROWS, N_COLS>::on_board(wr, wc) && 1 <= wn <= 32 && ps.cell(wr, wc) == 0
                        && has_bit(pn.mask(wr, wc), wn - 1) && #[trigger] commit_step(ps, pn, *sudoku, *notes, wr, wc, wn);
                lemma_commit_keeps(base_sudoku@, base_notes@, ps, pn, *sudoku, *notes, wr, wc, wn);
                lemma_commit_keeps(s0, n0, ps, pn, *sudoku, *notes, wr, wc, wn);
            }
            fired = true;
        }
        j += 1;
    }
    fired
}

/// One round of single propagation: the naked-single pass, then the
/// hidden-single pass. It fires exactly when the state is not a fixpoint of
/// the two rules, and a round that fires nothing changes nothing; so running
/// it again on a fixpoint changes nothing either. Whatever it changes is a
/// commit: masks only narrow, filled cells keep their symbols, and each cell
/// it fills was empty, takes a symbol its mask listed, keeps that symbol alone
/// as its mask, and no other cell of its peer span lists it. When it fires,
/// at least one cell is filled.
pub fn propagate_singles<const N_ROWS: usize, const N_COLS: usize>(
    sudoku: &mut Sudoku<N_ROWS, N_COLS>,
    pencil_notes: &mut PencilNotes<N_ROWS, N_COLS>,
) -> (fired: bool)
    requires
        valid_dims(N_ROWS as int, N_COLS as int),
    ensures
        fired == !singles_fixpoint(*old(sudoku), *old(pencil_notes)),
        !fired ==> *final(sudoku) == *old(sudoku) && *final(pencil_notes) == *old(pencil_notes),
        singles_fixpoint(*old(sudoku), *old(pencil_notes)) ==> *final(sudoku) == *old(sudoku)
            && *final(pencil_notes) == *old(pencil_notes),
        commits_from(*old(sudoku), *old(pencil_notes), *final(sudoku), *final(pencil_notes)),
        fired ==> filled_some(*old(sudoku), *final(sudoku)),
{
    let ghost (s0, n0) = (*sudoku, *pencil_notes);
    let naked = naked_single_pass(sudoku, pencil_notes);
    let ghost s1 = *sudoku;
    let hidden = hidden_single_pass(sudoku, pencil_notes, Ghost(s0), Ghost(n0));
    proof {
        if naked {
            let (r, c) = choose|r: int, c: int|
                PencilNotes::<N_ROWS, N_COLS>::on_board(r, c) && s0.cell(r, c) == 0 && #[trigger] s1.cell(r, c) != 0;
            assert(sudoku.cell(r, c) == s1.cell(r, c));
        } else if hidden {
            assert(s1 == s0);
        }
    }
    naked || hidden
}

/// The number of units the pair rules visit: every row, every column and
/// the nine blocks.
pub open spec fn pair_unit_count(rows: int, cols: int) -> int {
    rows + cols + 9
}

/// The unit visited at step `i` of the pair rules, as an anchor and a mode:
/// the rows first, then the columns, then the blocks in row-major order.
pub open spec fn pair_unit(rows: int, cols: int, i: int) -> (int, int, SudokuIteratorMode) {
    if i < rows {
        (i, 0, SudokuIteratorMode::Row)
    } else if i < rows + cols {
        (0, i - rows, SudokuIteratorMode::Column)
    } else {
        let b = i - rows - cols;
        ((b / 3) * block_h(rows), (b % 3) * block_w(cols), SudokuIteratorMode::Square)
    }
}

/// `trace` records the pair rules on the first `steps` units, in order:
/// entry `2 i + 1` is entry `2 i` after the naked-pair rule on unit `i`, and
/// entry `2 i + 2` is that after the hidden-pair rule on the same unit.
pub open spec fn pair_trace<const N_ROWS: usize, const N_COLS: usize>(
    trace: Seq<PencilNotes<N_ROWS, N_COLS>>,
    steps: int,
) -> bool {
    &&& trace.len() == 2 * steps + 1
    &&& forall|i: int|
        0 <= i < steps ==> {
            let u = #[trigger] pair_unit(N_ROWS as int, N_COLS as int, i);
            &&& trace[2 * i].naked_pairs_applied(&trace[2 * i + 1], u.0, u.1, u.2)
            &&& trace[2 * i + 1].hidden_pairs_applied(&trace[2 * i + 2], u.0, u.1, u.2)
        }
}

/// `after` is `before` with the naked-pair rule and then the hidden-pair
/// rule applied to each of the first `steps` units, in order.
pub open spec fn pairs_applied_upto<const N_ROWS: usize, const N_COLS: usize>(
    before: PencilNotes<N_ROWS, N_COLS>,
    after: PencilNotes<N_ROWS, N_COLS>,
    steps: int,
) -> bool {
    exists|trace: Seq<PencilNotes<N_ROWS, N_COLS>>|
        #[trigger] pair_trace(trace, steps) && trace[0] == before && trace[2 * steps] == after
}

/// The anchor and mode of step `i` of the pair rules.
fn pair_unit_at<const N_ROWS: usize, const N_COLS: usize>(i: usize) -> (u: (usize, usize, SudokuIteratorMode))
    requires
        valid_dims(N_ROWS as int, N_COLS as int),
        i < pair_unit_count(N_ROWS as int, N_COLS as int),
    ensures
        (u.0 as int, u.1 as int, u.2) == pair_unit(N_ROWS as int, N_COLS as int, i as int),
        u.0 < N_ROWS,
        u.1 < N_COLS,
{
    proof {
        lemma_block_bounds(N_ROWS as int, N_COLS as int, 0, 0);
    }
    if i < N_ROWS {
        (i, 0, SudokuIteratorMode::Row)
    } else if i < N_ROWS + N_COLS {
        (0, i - N_ROWS, SudokuIteratorMode::Column)
    } else {
        let b = i - N_ROWS - N_COLS;
        let bh = N_ROWS / 3;
        let bw = N_COLS / 3;
        assert((b / 3) * bh < N_ROWS && (b % 3) * bw < N_COLS) by (nonlinear_arith)
            requires
                b < 9,
                3 * bh == N_ROWS,
                3 * bw == N_COLS,
                bh > 0,
                bw > 0,
        ;
        ((b / 3) * bh, (b % 3) * bw, SudokuIteratorMode::Square)
    }
}

/// The naked-pair and then the hidden-pair rule on every row, then every
/// column, then every block; each rule reads the masks that the previous
/// ones left. Candidates are only ever removed.
pub fn propagate_pairs<const N_ROWS: usize, const N_COLS: usize>(pencil_notes: &mut PencilNotes<N_ROWS, N_COLS>)
    requires
        valid_dims(N_ROWS as int, N_COLS as int),
    ensures
        pairs_applied_upto(*old(pencil_notes), *final(pencil_notes), pair_unit_count(N_ROWS as int, N_COLS as int)),
        old(pencil_notes).narrows_to(final(pencil_notes)),
{
    let ghost start = *pencil_notes;
    let ghost mut trace = seq![start];
    proof {
        lemma_block_bounds(N_ROWS as int, N_COLS as int, 0, 0);
    }
    let steps = N_ROWS + N_COLS + 9;
    let mut i: usize = 0;
    while i < steps
        invariant
            valid_dims(N_ROWS as int, N_COLS as int),
            steps == pair_unit_count(N_ROWS as int, N_COLS as int),
            i <= steps,
            start == *old(pencil_notes),
            start.narrows_to(pencil_notes),
            pair_trace(trace, i as int),
            trace[0] == start,
            trace[2 * i] == *pencil_notes,
        decreases steps - i,
    {
        let (row, col, mode) = pair_unit_at::<N_ROWS, N_COLS>(i);
        let ghost mid = *pencil_notes;
        pencil_notes.handle_naked_pairs(row, col, mode);
        let ghost mid2 = *pencil_notes;
        pencil_notes.handle_hidden_pairs(row, col, mode);
        proof {
            let prev = trace;
            trace = trace.push(mid2).push(*pencil_notes);
            assert forall|k: int| 0 <= k < i + 1 implies {
                let u = #[trigger] pair_unit(N_ROWS as int, N_COLS as int, k);
                &&& trace[2 * k].naked_pairs_applied(&trace[2 * k + 1], u.0, u.1, u.2)
                &&& trace[2 * k + 1].hidden_pairs_applied(&trace[2 * k + 2], u.0, u.1, u.2)
            } by {
                if k < i {
                    assert(trace[2 * k] == prev[2 * k]);
                    assert(trace[2 * k + 1] == prev[2 * k + 1]);
                    assert(trace[2 * k + 2] == prev[2 * k + 2]);
                }
            }
        }
        i += 1;
    }
    assert(pair_trace(trace, steps as int) && trace[0] == start && trace[2 * steps] == *pencil_notes);
}

/// What the checks at the end of a round conclude.
#[derive(Clone, Copy, Debug, PartialEq, Eq, Structural)]
pub enum RoundOutcome {
    /// Some cell lists no symbol, or the grid repeats a symbol among peers.
    Contradiction,
    /// Consistent, and every cell is filled.
    Complete,
    /// Consistent, with cells still to fill.
    Continue,
}

/// The outcome of the end-of-round checks on `(s, n)`.
pub open spec fn outcome_of<const N_ROWS: usize, const N_COLS: usize>(
    s: Sudoku<N_ROWS, N_COLS>,
    n: PencilNotes<N_ROWS, N_COLS>,
) -> RoundOutcome {
    if n.has_empty() || !s.spec_valid() {
        RoundOutcome::Contradiction
    } else if s.spec_complete() {
        RoundOutcome::Complete
    } else {
        RoundOutcome::Continue
    }
}

/// Every mask lists only symbols of the board.
pub open spec fn notes_in_range<const N_ROWS: usize, const N_COLS: usize>(n: PencilNotes<N_ROWS, N_COLS>) -> bool {
    forall|r: int, c: int, k: int|
        PencilNotes::<N_ROWS, N_COLS>::on_board(r, c) && #[trigger] has_bit(n.mask(r, c), k) ==> k < symbol_count(
            N_ROWS as int,
            N_COLS as int,
        )
}

/// Every filled cell holds a symbol of the board.
pub open spec fn grid_in_range<const N_ROWS: usize, const N_COLS: usize>(s: Sudoku<N_ROWS, N_COLS>) -> bool {
    forall|r: int, c: int|
        PencilNotes::<N_ROWS, N_COLS>::on_board(r, c) && #[trigger] s.cell(r, c) != 0 ==> 1 <= s.cell(r, c)
            <= symbol_count(N_ROWS as int, N_COLS as int)
}

proof fn lemma_commit_in_range<const N_ROWS: usize, const N_COLS: usize>(
    s: Sudoku<N_ROWS, N_COLS>,
    n: PencilNotes<N_ROWS, N_COLS>,
    s2: Sudoku<N_ROWS, N_COLS>,
    n2: PencilNotes<N_ROWS, N_COLS>,
    row: int,
    col: int,
    number: int,
)
    requires
        notes_in_range(n),
        grid_in_range(s),
        1 <= number <= symbol_count(N_ROWS as int, N_COLS as int),
        number <= 32,
        commit_step(s, n, s2, n2, row, col, number),
    ensures
        notes_in_range(n2),
        grid_in_range(s2),
{
    lemma_set_bit(0, number - 1);
    assert forall|r: int, c: int, k: int|
        PencilNotes::<N_ROWS, N_COLS>::on_board(r, c) && #[trigger] has_bit(n2.mask(r, c), k) implies k < symbol_count(
        N_ROWS as int,
        N_COLS as int,
    ) by {
        if (r, c) != (row, col) {
            lemma_set_bit(n.mask(r, c), number - 1);
        }
    }
}

/// The end-of-round checks: a contradiction when some cell lists no symbol
/// or the grid is invalid; otherwise complete or not.
pub fn check_round<const N_ROWS: usize, const N_COLS: usize>(
    sudoku: &Sudoku<N_ROWS, N_COLS>,
    pencil_notes: &PencilNotes<N_ROWS, N_COLS>,
) -> (r: RoundOutcome)
    requires
        valid_dims(N_ROWS as int, N_COLS as int),
    ensures
        r == outcome_of(*sudoku, *pencil_notes),
{
    if pencil_notes.has_empty_cell() || !sudoku.is_valid() {
        RoundOutcome::Contradiction
    } else if sudoku.is_complete() {
        RoundOutcome::Complete
    } else {
        RoundOutcome::Continue
    }
}

/// Finishes a round with a guess: commits `symbol` to `(row, col)`, then runs
/// the end-of-round checks on the result.
pub fn finish_guess<const N_ROWS: usize, const N_COLS: usize>(
    sudoku: &mut Sudoku<N_ROWS, N_COLS>,
    pencil_notes: &mut PencilNotes<N_ROWS, N_COLS>,
    row: usize,
    col: usize,
    symbol: u32,
) -> (r: RoundOutcome)
    requires
        valid_dims(N_ROWS as int, N_COLS as int),
        row < N_ROWS,
        col < N_COLS,
        1 <= symbol <= 32,
    ensures
        commit_step(
            *old(sudoku),
            *old(pencil_notes),
            *final(sudoku),
            *final(pencil_notes),
            row as int,
            col as int,
            symbol as int,
        ),
        r == outcome_of(*final(sudoku), *final(pencil_notes)),
{
    commit(sudoku, pencil_notes, row, col, symbol);
    check_round(sudoku, pencil_notes)
}

/// Whether a board of `rows` by `cols` cells is supported.
pub fn dims_supported(rows: usize, cols: usize) -> (b: bool)
    ensures
        b == valid_dims(rows as int, cols as int),
{
    if rows <= 3 || cols <= 3 || rows % 3 != 0 || cols % 3 != 0 {
        return false;
    }
    let h = rows / 3;
    let w = cols / 3;
    if h > 32 || w > 32 {
        assert(h * w > 32) by (nonlinear_arith)
            requires
                h >= 1,
                w >= 1,
                h > 32 || w > 32,
        ;
        return false;
    }
    assert(h * w <= 32 * 32) by (nonlinear_arith)
        requires
            h <= 32,
            w <= 32,
    ;
    h * w <= 32
}

/// Generates complete grids of `N_ROWS` by `N_COLS` cells.
pub struct SudokuFactory<const N_ROWS: usize, const N_COLS: usize> {
    random_bit: RandomBit,
    policy: EntropyPolicy,
}

impl<const N_ROWS: usize, const N_COLS: usize> SudokuFactory<N_ROWS, N_COLS> {
    pub closed spec fn spec_policy(&self) -> EntropyPolicy {
        self.policy
    }

    /// A factory drawing from `rng`, guessing at the cell with the fewest
    /// candidates; refused when the board dimensions are not supported.
    pub fn new(rng: Box<StdRng>) -> (r: Result<Self, DimensionError>)
        ensures
            r is Ok <==> valid_dims(N_ROWS as int, N_COLS as int),
            r matches Ok(f) ==> f.spec_policy() == EntropyPolicy::Lowest,
            r matches Err(e) ==> e.rows == N_ROWS && e.cols == N_COLS,
    {
        if dims_supported(N_ROWS, N_COLS) {
            Ok(SudokuFactory { random_bit: RandomBit::new(rng), policy: EntropyPolicy::Lowest })
        } else {
            Err(DimensionError { rows: N_ROWS, cols: N_COLS })
        }
    }

    /// The same factory, guessing under `policy`.
    pub fn with_policy(self, policy: EntropyPolicy) -> (r: Self)
        ensures
            r.spec_policy() == policy,
    {
        SudokuFactory { random_bit: self.random_bit, policy }
    }

    /// `None` for an empty mask; the only position of a mask with one;
    /// otherwise a position drawn uniformly among the set ones.
    pub fn select_random_bit(&mut self, bitfield: u32) -> (r: Option<u32>)
        ensures
            r is None <==> bitfield == 0,
            r matches Some(b) ==> has_bit(bitfield, b as int),
            popcount(bitfield) == 1 ==> r == Some(lowest(bitfield) as u32),
            final(self).spec_policy() == old(self).spec_policy(),
    {
        self.random_bit.select_random_bit(bitfield)
    }

    /// One generation run. Each round propagates single candidates to a
    /// fixpoint, applies the pair rules, guesses a candidate of the extremal
    /// cell when no single was committed, then validates. A returned grid is
    /// complete and valid; an error carries a state that is not both, or
    /// that has a cell without candidates.
    pub fn generate(&mut self) -> (r: Result<Sudoku<N_ROWS, N_COLS>, ContradictionError<N_ROWS, N_COLS>>)
        requires
            valid_dims(N_ROWS as int, N_COLS as int),
        ensures
            r matches Ok(s) ==> s.spec_complete() && s.spec_valid() && forall|i: int, j: int|
                PencilNotes::<N_ROWS, N_COLS>::on_board(i, j) ==> 1 <= #[trigger] s.cell(i, j) <= symbol_count(
                    N_ROWS as int,
                    N_COLS as int,
                ),
            r matches Err(e) ==> !(e.sudoku.spec_complete() && e.sudoku.spec_valid() && !e.pencil_notes.has_empty()),
    {
        proof {
            lemma_block_bounds(N_ROWS as int, N_COLS as int, 0, 0);
        }
        assert(N_ROWS * N_COLS <= 48 * 48 && N_ROWS * N_COLS > 0) by (nonlinear_arith)
            requires
                0 < N_ROWS <= 48,
                0 < N_COLS <= 48,
        ;
        assert(2 <= symbol_count(N_ROWS as int, N_COLS as int) <= 32) by (nonlinear_arith)
            requires
                valid_dims(N_ROWS as int, N_COLS as int),
                N_ROWS as int / 3 >= 2,
                N_COLS as int / 3 >= 2,
        ;
        let budget = N_ROWS * N_COLS;
        let mut sudoku = Sudoku::<N_ROWS, N_COLS>::empty();
        let mut notes = PencilNotes::<N_ROWS, N_COLS>::new();
        proof {
            crate::bits::lemma_low_mask(symbol_count(N_ROWS as int, N_COLS as int));
        }
        let mut round: usize = 0;
        while round < budget
            invariant
                valid_dims(N_ROWS as int, N_COLS as int),
                2 <= symbol_count(N_ROWS as int, N_COLS as int) <= 32,
                budget > 0,
                round <= budget,
                round > 0 ==> !sudoku.spec_complete(),
                notes_in_range(notes),
                grid_in_range(sudoku),
            decreases budget - round,
        {
            let mut committed = false;
            let mut pass: usize = 0;
            while pass < budget
                invariant
                    valid_dims(N_ROWS as int, N_COLS as int),
                    notes_in_range(notes),
                    grid_in_range(sudoku),
                decreases budget - pass,
            {
                let ghost (ps, pn) = (sudoku, notes);
                let fired = propagate_singles(&mut sudoku, &mut notes);
                proof {
                    assert forall|i: int, j: int|
                        PencilNotes::<N_ROWS, N_COLS>::on_board(i, j) && #[trigger] sudoku.cell(i, j) != 0 implies 1
                            <= sudoku.cell(i, j) <= symbol_count(N_ROWS as int, N_COLS as int) by {
                        if sudoku.cell(i, j) != ps.cell(i, j) {
                            assert(committed_at(ps, pn, sudoku, notes, i, j));
                        }
                    }
                }
                if !fired {
                    break;
                }
                committed = true;
                pass += 1;
            }
            propagate_pairs(&mut notes);
            let mut guessed = false;
            let mut outcome = RoundOutcome::Continue;
            if !committed {
                let best = match self.policy {
                    EntropyPolicy::Lowest => notes.find_lowest_entropy_cell(),
                    EntropyPolicy::Highest => notes.find_highest_entropy_cell(),
                };
                if let Some((r, c)) = best {
                    if sudoku.board[r][c] == 0 {
                        let mask = notes.get_possibilities(r, c);
                        if let Some(bit) = self.random_bit.select_random_bit(mask) {
                            let ghost (ps, pn) = (sudoku, notes);
                            outcome = finish_guess(&mut sudoku, &mut notes, r, c, bit + 1);
                            guessed = true;
                            proof {
                                lemma_commit_in_range(ps, pn, sudoku, notes, r as int, c as int, bit + 1);
                            }
                        }
                    }
                }
            }
            if !guessed {
                outcome = check_round(&sudoku, &notes);
            }
            match outcome {
                RoundOutcome::Contradiction => {
                    return Err(ContradictionError { sudoku, pencil_notes: notes });
                },
                RoundOutcome::Complete => {
                    return Ok(sudoku);
                },
                RoundOutcome::Continue => {},
            }
            round += 1;
        }
        Err(ContradictionError { sudoku, pencil_notes: notes })
    }
}

} // verus!
