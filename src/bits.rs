//! The candidate-mask model: a `u32` read as a set of bit positions, where
//! bit `k` stands for symbol `k + 1`.
use vstd::prelude::*;
use vstd::std_specs::bits::{u32_trailing_zeros, axiom_u32_trailing_zeros};

verus! {

/// Bit `j` of `m`, for a position given as a machine word.
pub open spec fn bit_at(m: u32, j: u32) -> bool {
    (m >> j) & 1u32 == 1u32
}

/// Whether position `k` (0-based) is set in `m`.
pub open spec fn has_bit(m: u32, k: int) -> bool {
    0 <= k < 32 && bit_at(m, k as u32)
}

/// The number of set positions of `m` below position `n`.
pub open spec fn rank(m: u32, n: int) -> nat
    decreases n,
{
    if n <= 0 {
        0
    } else {
        rank(m, n - 1) + if has_bit(m, n - 1) {
            1nat
        } else {
            0nat
        }
    }
}

/// The number of set positions of `m`.
pub open spec fn popcount(m: u32) -> nat {
    rank(m, 32)
}

/// The lowest set position of `m` (32 when `m` is zero).
pub open spec fn lowest(m: u32) -> int {
    u32_trailing_zeros(m) as int
}

/// The mask whose set positions are exactly `0..n`.
pub open spec fn low_mask_spec(n: int) -> u32 {
    if n >= 32 {
        0xffff_ffffu32
    } else {
        ((1u32 << (n as u32)) - 1) as u32
    }
}

proof fn bv_or_single(m: u32, k: u32, j: u32)
    by (bit_vector)
    requires
        k < 32,
        j < 32,
    ensures
        bit_at(m | (1u32 << k), j) == (bit_at(m, j) || j == k),
        bit_at(m & !(1u32 << k), j) == (bit_at(m, j) && j != k),
        bit_at(1u32 << k, j) == (j == k),
{
}

proof fn bv_binary(a: u32, b: u32, j: u32)
    by (bit_vector)
    requires
        j < 32,
    ensures
        bit_at(a | b, j) == (bit_at(a, j) || bit_at(b, j)),
        bit_at(a & b, j) == (bit_at(a, j) && bit_at(b, j)),
        bit_at(a & !b, j) == (bit_at(a, j) && !bit_at(b, j)),
        !bit_at(0u32, j),
        bit_at(0xffff_ffffu32, j),
{
}

proof fn bv_idem(m: u32, b: u32)
    by (bit_vector)
    ensures
        (m & !b) & !b == m & !b,
{
}

/// Removing the same positions twice removes them once.
pub proof fn lemma_remove_twice(m: u32, b: u32)
    ensures
        (m & !b) & !b == m & !b,
{
    bv_idem(m, b);
}

proof fn bv_test(m: u32, k: u32)
    by (bit_vector)
    requires
        k < 32,
    ensures
        bit_at(m, k) == (m & (1u32 << k) != 0),
{
}

/// Testing against the single-position mask of `k` tells whether `k` is set.
pub proof fn lemma_test_bit(m: u32, k: int)
    requires
        0 <= k < 32,
    ensures
        has_bit(m, k) == (m & (1u32 << (k as u32)) != 0),
{
    bv_test(m, k as u32);
}

proof fn bv_low_mask(n: u32, j: u32)
    by (bit_vector)
    requires
        n < 32,
        j < 32,
    ensures
        bit_at(((1u32 << n) - 1) as u32, j) == (j < n),
        (1u32 << n) >= 1,
{
}

proof fn bv_clear_lowest(m: u32, t: u32, j: u32)
    by (bit_vector)
    requires
        t < 32,
        j < 32,
        bit_at(m, t),
        m << vstd::prelude::sub(32, t) == 0,
    ensures
        bit_at(m & vstd::prelude::sub(m, 1), j) == (bit_at(m, j) && j != t),
{
}

/// Setting position `k` adds exactly that position; clearing it removes exactly that position.
pub proof fn lemma_set_bit(m: u32, k: int)
    requires
        0 <= k < 32,
    ensures
        forall|j: int| #[trigger] has_bit(m | (1u32 << (k as u32)), j) == (has_bit(m, j) || j == k),
        forall|j: int| #[trigger] has_bit(m & !(1u32 << (k as u32)), j) == (has_bit(m, j) && j != k),
        forall|j: int| #[trigger] has_bit(1u32 << (k as u32), j) == (j == k),
{
    assert forall|j: int| #[trigger] has_bit(m | (1u32 << (k as u32)), j) == (has_bit(m, j) || j == k)
        by {
        if 0 <= j < 32 {
            bv_or_single(m, k as u32, j as u32);
        }
    }
    assert forall|j: int| #[trigger] has_bit(m & !(1u32 << (k as u32)), j) == (has_bit(m, j) && j
        != k) by {
        if 0 <= j < 32 {
            bv_or_single(m, k as u32, j as u32);
        }
    }
    assert forall|j: int| #[trigger] has_bit(1u32 << (k as u32), j) == (j == k) by {
        if 0 <= j < 32 {
            bv_or_single(m, k as u32, j as u32);
        }
    }
}

/// Union, intersection and difference act position by position.
pub proof fn lemma_binary(a: u32, b: u32)
    ensures
        forall|j: int| #[trigger] has_bit(a | b, j) == (has_bit(a, j) || has_bit(b, j)),
        forall|j: int| #[trigger] has_bit(a & b, j) == (has_bit(a, j) && has_bit(b, j)),
        forall|j: int| #[trigger] has_bit(a & !b, j) == (has_bit(a, j) && !has_bit(b, j)),
        forall|j: int| !#[trigger] has_bit(0u32, j),
        forall|j: int| 0 <= j < 32 ==> #[trigger] has_bit(0xffff_ffffu32, j),
{
    assert forall|j: int| #[trigger] has_bit(a | b, j) == (has_bit(a, j) || has_bit(b, j)) by {
        if 0 <= j < 32 {
            bv_binary(a, b, j as u32);
        }
    }
    assert forall|j: int| #[trigger] has_bit(a & b, j) == (has_bit(a, j) && has_bit(b, j)) by {
        if 0 <= j < 32 {
            bv_binary(a, b, j as u32);
        }
    }
    assert forall|j: int| #[trigger] has_bit(a & !b, j) == (has_bit(a, j) && !has_bit(b, j)) by {
        if 0 <= j < 32 {
            bv_binary(a, b, j as u32);
        }
    }
    assert forall|j: int| !#[trigger] has_bit(0u32, j) by {
        if 0 <= j < 32 {
            bv_binary(a, b, j as u32);
        }
    }
    assert forall|j: int| 0 <= j < 32 implies #[trigger] has_bit(0xffff_ffffu32, j) by {
        bv_binary(a, b, j as u32);
    }
}

/// The low mask of `n` holds exactly the positions below `n`.
pub proof fn lemma_low_mask(n: int)
    requires
        0 <= n <= 32,
    ensures
        forall|j: int| #[trigger] has_bit(low_mask_spec(n), j) == (0 <= j < n),
{
    assert forall|j: int| #[trigger] has_bit(low_mask_spec(n), j) == (0 <= j < n) by {
        if 0 <= j < 32 {
            if n < 32 {
                bv_low_mask(n as u32, j as u32);
            } else {
                bv_binary(0, 0, j as u32);
            }
        }
    }
}

/// The lowest set position is set, and nothing below it is.
pub proof fn lemma_lowest(m: u32)
    ensures
        0 <= lowest(m) <= 32,
        m == 0 <==> lowest(m) == 32,
        m != 0 ==> has_bit(m, lowest(m)),
        forall|j: int| 0 <= j < lowest(m) ==> !#[trigger] has_bit(m, j),
{
    axiom_u32_trailing_zeros(m);
    assert forall|j: int| 0 <= j < lowest(m) implies !#[trigger] has_bit(m, j) by {
        let ju = j as u32;
        assert((m >> ju) & 1u32 == 0u32);
    }
}

/// `m & (m - 1)` clears the lowest set position and keeps the others.
pub proof fn lemma_clear_lowest(m: u32)
    requires
        m != 0,
    ensures
        forall|j: int| #[trigger] has_bit(m & vstd::prelude::sub(m, 1), j) == (has_bit(m, j) && j != lowest(m)),
{
    lemma_lowest(m);
    axiom_u32_trailing_zeros(m);
    let t = u32_trailing_zeros(m);
    assert forall|j: int| #[trigger] has_bit(m & vstd::prelude::sub(m, 1), j) == (has_bit(m, j) && j != lowest(m))
        by {
        if 0 <= j < 32 {
            bv_clear_lowest(m, t, j as u32);
        }
    }
}

/// Counting below `n` never exceeds `n`, and grows with `n`.
pub proof fn lemma_rank_mono(m: u32, a: int, b: int)
    requires
        a <= b,
    ensures
        rank(m, a) <= rank(m, b),
    decreases b - a,
{
    if a < b {
        lemma_rank_mono(m, a, b - 1);
    }
}

/// Below a count `v` of `rank(m, n)` there is a set position of exactly that rank.
pub proof fn lemma_rank_witness(m: u32, n: int, v: int)
    requires
        0 <= v < rank(m, n),
    ensures
        exists|j: int| 0 <= j < n && has_bit(m, j) && rank(m, j) == v,
    decreases n,
{
    if n > 0 {
        if v < rank(m, n - 1) {
            lemma_rank_witness(m, n - 1, v);
            let j = choose|j: int| 0 <= j < n - 1 && has_bit(m, j) && rank(m, j) == v;
            assert(0 <= j < n && has_bit(m, j) && rank(m, j) == v);
        } else {
            assert(has_bit(m, n - 1) && rank(m, n - 1) == v);
        }
    }
}

/// A mask is empty exactly when it has no set position; a mask with one set
/// position has no other.
pub proof fn lemma_popcount(m: u32)
    ensures
        popcount(m) == 0 <==> m == 0,
        popcount(m) <= 32,
        popcount(m) == 1 ==> forall|j: int| #[trigger] has_bit(m, j) ==> j == lowest(m),
        forall|j: int| #[trigger] has_bit(m, j) ==> rank(m, j) < popcount(m),
{
    lemma_lowest(m);
    lemma_rank_bound(m, 32);
    if m == 0 {
        lemma_binary(0, 0);
        lemma_rank_zero(32);
    } else {
        let t = lowest(m);
        lemma_rank_mono(m, t + 1, 32);
        assert(rank(m, t + 1) >= 1);
    }
    assert forall|j: int| #[trigger] has_bit(m, j) implies rank(m, j) < popcount(m) by {
        lemma_rank_mono(m, j + 1, 32);
    }
    if popcount(m) == 1 {
        assert forall|j: int| #[trigger] has_bit(m, j) implies j == lowest(m) by {
            let t = lowest(m);
            if j != t {
                assert(t < j);
                lemma_rank_mono(m, t + 1, j);
                lemma_rank_mono(m, j + 1, 32);
            }
        }
    }
}

pub proof fn lemma_rank_bound(m: u32, n: int)
    requires
        n >= 0,
    ensures
        rank(m, n) <= n,
    decreases n,
{
    if n > 0 {
        lemma_rank_bound(m, n - 1);
    }
}

proof fn lemma_rank_zero(n: int)
    ensures
        rank(0, n) == 0,
    decreases n,
{
    lemma_binary(0, 0);
    if n > 0 {
        lemma_rank_zero(n - 1);
    }
}

/// Dropping one set position lowers the count by one.
pub proof fn lemma_popcount_drop(m: u32, m2: u32, t: int)
    requires
        has_bit(m, t),
        forall|j: int| #[trigger] has_bit(m2, j) == (has_bit(m, j) && j != t),
    ensures
        popcount(m2) + 1 == popcount(m),
{
    lemma_rank_drop(m, m2, t, 32);
}

proof fn lemma_rank_drop(m: u32, m2: u32, t: int, n: int)
    requires
        has_bit(m, t),
        forall|j: int| #[trigger] has_bit(m2, j) == (has_bit(m, j) && j != t),
    ensures
        rank(m2, n) + (if n > t {
            1int
        } else {
            0int
        }) == rank(m, n),
    decreases n,
{
    if n > 0 {
        lemma_rank_drop(m, m2, t, n - 1);
    }
}

/// The number of set positions of `m`.
pub fn count_bits(m: u32) -> (r: u32)
    ensures
        r == popcount(m),
        r <= 32,
{
    let mut i: u32 = 0;
    let mut n: u32 = 0;
    while i < 32
        invariant
            i <= 32,
            n == rank(m, i as int),
            n <= i,
        decreases 32 - i,
    {
        if (m >> i) & 1 == 1 {
            n = n + 1;
        }
        i = i + 1;
    }
    n
}

/// The mask whose set positions are exactly `0..n`.
pub fn low_mask(n: u32) -> (r: u32)
    requires
        n <= 32,
    ensures
        r == low_mask_spec(n as int),
        forall|j: int| #[trigger] has_bit(r, j) == (0 <= j < n),
{
    proof {
        lemma_low_mask(n as int);
    }
    if n == 32 {
        0xffff_ffffu32
    } else {
        proof {
            bv_low_mask(n, 0);
        }
        (1u32 << n) - 1
    }
}

} // verus!
