//! Uniform choice of one set position of a candidate mask.
use vstd::prelude::*;
use rand::rngs::StdRng;
use rand::Rng;
use crate::bits::{
    count_bits, has_bit, lemma_clear_lowest, lemma_lowest, lemma_popcount, lemma_rank_mono,
    lemma_rank_witness, lowest, popcount, rank,
};

verus! {

/// rand's `rngs::StdRng`, the seeded generator the selector draws from; the
/// library only hands it to `random_below`.
#[verifier::external_type_specification]
#[verifier::external_body]
pub struct ExStdRng(StdRng);

/// Relies on rand's `Rng::random_range`: for the half-open range `0..bound`
/// it returns a value below `bound`; it panics only on an empty range, which
/// the precondition rules out.
#[verifier::external_body]
fn random_below(rng: &mut StdRng, bound: u32) -> (r: u32)
    requires
        0 < bound,
    ensures
        r < bound,
{
    rng.random_range(0..bound)
}

/// The set position of `mask` with exactly `t` set positions below it: the
/// position reached by clearing the lowest set position `t` times.
pub fn select_bit_at(mask: u32, t: u32) -> (r: u32)
    requires
        t < popcount(mask),
    ensures
        has_bit(mask, r as int),
        rank(mask, r as int) == t,
{
    let mut m = mask;
    let mut i: u32 = 0;
    loop
        invariant
            i <= t,
            t < popcount(mask),
            forall|j: int| #[trigger] has_bit(m, j) == (has_bit(mask, j) && rank(mask, j) >= i),
        decreases t - i,
    {
        proof {
            lemma_rank_witness(mask, 32, i as int);
            let w = choose|w: int| 0 <= w < 32 && has_bit(mask, w) && rank(mask, w) == i;
            assert(has_bit(m, w));
            lemma_lowest(m);
            lemma_lowest(0);
            let x = lowest(m);
            assert(has_bit(m, x));
            if rank(mask, x) > i {
                lemma_rank_witness(mask, x, i as int);
                let j = choose|j: int| 0 <= j < x && has_bit(mask, j) && rank(mask, j) == i;
                assert(has_bit(m, j));
            }
            assert(rank(mask, x) == i);
            assert forall|j: int| has_bit(mask, j) && rank(mask, j) == i implies j == x by {
                if j != x {
                    assert(has_bit(m, j));
                    assert(j > x);
                    lemma_rank_mono(mask, x + 1, j);
                }
            }
        }
        if i == t {
            return m.trailing_zeros();
        }
        proof {
            lemma_clear_lowest(m);
        }
        m = m & (m - 1);
        i += 1;
    }
}

/// Picks one set position of a mask, uniformly, with a seeded generator.
pub struct RandomBit {
    rng: Box<StdRng>,
}

impl RandomBit {
    /// A selector drawing from `rng`.
    pub fn new(rng: Box<StdRng>) -> (r: Self) {
        RandomBit { rng }
    }

    /// `None` for an empty mask; the only position of a mask with one;
    /// otherwise a position drawn uniformly among the set ones.
    pub fn select_random_bit(&mut self, mask: u32) -> (r: Option<u32>)
        ensures
            r is None <==> mask == 0,
            r matches Some(b) ==> has_bit(mask, b as int),
            popcount(mask) == 1 ==> r == Some(lowest(mask) as u32),
    {
        proof {
            lemma_popcount(mask);
            lemma_lowest(mask);
        }
        let n = count_bits(mask);
        if n == 0 {
            None
        } else if n == 1 {
            Some(mask.trailing_zeros())
        } else {
            let t = random_below(&mut self.rng, n);
            Some(select_bit_at(mask, t))
        }
    }
}

} // verus!
