//! Move-choice strategies backed by a pseudorandom generator: a uniformly
//! random picker, and one that switches to the exact solver near the end
//! of the game.

use crate::bits::{bit64, lemma_bit_ops, lemma_ones_zero, ones};
use crate::board::{BitBoard, Candidate, Side};
use crate::rules::{cell_idx, col_of, in_board, lemma_idx_of_cell, row_of};
use crate::search::{search_exact_with_candidates, Search};
use rand::RngExt;
use rand::SeedableRng;
use vstd::prelude::*;

verus! {

#[verifier::external_type_specification]
#[verifier::external_body]
pub struct ExMcg128Xsl64(rand_pcg::Mcg128Xsl64);

/// Relies on `rand_pcg::Mcg128Xsl64::new`: builds a generator from the
/// given PCG state.  Nothing is promised of the values it will produce.
#[verifier::external_body]
pub fn rng_new(state: u128) -> rand_pcg::Mcg128Xsl64 {
    rand_pcg::Mcg128Xsl64::new(state)
}

/// Relies on `SeedableRng::from_rng`: seeds a fresh generator from the
/// given one (infallibly, for this generator type).  Nothing is promised
/// of the values either generator will produce.
#[verifier::external_body]
pub fn rng_split(rng: &mut rand_pcg::Mcg128Xsl64) -> rand_pcg::Mcg128Xsl64 {
    rand_pcg::Mcg128Xsl64::from_rng(rng)
}

/// Relies on `rand::RngExt::random_range`: returns a value drawn from
/// `0..n`, and panics only on an empty range, which the precondition
/// rules out.  Which value comes back is not promised.
#[verifier::external_body]
fn rng_below(rng: &mut rand_pcg::Mcg128Xsl64, n: usize) -> (r: usize)
    requires
        n >= 1,
    ensures
        r < n,
{
    rng.random_range(0..n)
}

/// Hand out candidates until the one at index `i` (in the candidate
/// order) and return it.
fn nth_candidate(candidates: &mut Candidate, i: usize) -> (p: u64)
    requires
        i < ones(old(candidates).pos),
    ensures
        exists|c: int, r: int|
            in_board(c, r) && p == 1u64 << #[trigger] cell_idx(c, r) && bit64(
                old(candidates).pos,
                cell_idx(c, r),
            ),
{
    let mut k: usize = 0;
    let mut chosen: u64 = 0;
    proof {
        crate::bits::lemma_ones_le_64(candidates.pos);
    }
    while k <= i
        invariant
            k <= i + 1,
            i < 64,
            i < ones(old(candidates).pos),
            ones(candidates.pos) == ones(old(candidates).pos) - k,
            forall|j: u64| #[trigger]
                bit64(candidates.pos, j) ==> bit64(old(candidates).pos, j),
            k > 0 ==> exists|c: int, r: int|
                in_board(c, r) && chosen == 1u64 << #[trigger] cell_idx(c, r) && bit64(
                    old(candidates).pos,
                    cell_idx(c, r),
                ),
        decreases i + 1 - k,
    {
        proof {
            lemma_ones_zero(candidates.pos);
        }
        let ghost m0 = candidates.pos;
        match candidates.next() {
            Some(p) => {
                chosen = p;
                proof {
                    crate::board::lemma_top_bit(m0);
                    let t = crate::board::top_idx(m0);
                    lemma_idx_of_cell(t);
                    assert(in_board(col_of(t), row_of(t)) && chosen == 1u64 << cell_idx(
                        col_of(t),
                        row_of(t),
                    ) && bit64(m0, cell_idx(col_of(t), row_of(t))));
                    assert forall|j: u64| #[trigger]
                        bit64(candidates.pos, j) ==> bit64(old(candidates).pos, j) by {
                        lemma_bit_ops(m0, !(1u64 << t), j);
                    }
                }
            },
            None => {
            },
        }
        k = k + 1;
    }
    chosen
}

/// A strategy that picks one of the candidates uniformly at random.
#[derive(Debug)]
pub struct RandomSearch {
    pub rng: rand_pcg::Mcg128Xsl64,
}

impl RandomSearch {
    pub fn new(rng: rand_pcg::Mcg128Xsl64) -> (s: RandomSearch)
        ensures
            s.spec_side() is None,
    {
        RandomSearch { rng }
    }
}

impl Search for RandomSearch {
    open spec fn spec_side(&self) -> Option<Side> {
        None
    }

    fn search(
        &mut self,
        board: &BitBoard,
        occupied: u8,
        candidates: &mut Candidate,
        last_passed: bool,
    ) -> (p: u64) {
        proof {
            lemma_ones_zero(candidates.pos);
        }
        let n = candidates.len();
        let i = rng_below(&mut self.rng, n);
        nth_candidate(candidates, i)
    }
}

/// A strategy that plays at random through the early game and switches to
/// the exhaustive solver once enough cells are occupied.
#[derive(Debug)]
pub struct RandomFullSearch {
    pub side: Side,
    pub rng: rand_pcg::Mcg128Xsl64,
    pub full_search_threshold: u8,
}

impl RandomFullSearch {
    pub fn new(side: Side, rng: rand_pcg::Mcg128Xsl64, full_search_threshold: u8) -> (s:
        RandomFullSearch)
        ensures
            s.spec_side() == Some(side),
    {
        RandomFullSearch { side, rng, full_search_threshold }
    }
}

impl Search for RandomFullSearch {
    open spec fn spec_side(&self) -> Option<Side> {
        Some(self.side)
    }

    fn search(
        &mut self,
        board: &BitBoard,
        occupied: u8,
        candidates: &mut Candidate,
        last_passed: bool,
    ) -> (p: u64) {
        proof {
            lemma_ones_zero(candidates.pos);
        }
        if occupied < self.full_search_threshold {
            let n = candidates.len();
            let i = rng_below(&mut self.rng, n);
            nth_candidate(candidates, i)
        } else {
            let (best, _) = search_exact_with_candidates(board, self.side, candidates, last_passed);
            best
        }
    }
}

} // verus!
