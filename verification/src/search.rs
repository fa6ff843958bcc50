//! The exact solver: negamax with alpha-beta pruning over the bitboard,
//! with the tournament score type and its deliberate tie-break order.

use crate::bits::{bit64, lemma_bit_ops, lemma_ones_le_64, lemma_ones_zero, ones};
use crate::board::{apply_move, BitBoard, Candidate, Side};
use crate::rules::legal_mask;
use crate::rules::{cell_idx, col_of, in_board, is_legal, row_of};
use vstd::prelude::*;

verus! {

/// How many pieces stand on the board.
pub open spec fn occupied_count(b: BitBoard) -> nat {
    ones(b.black | b.white)
}

/// How many cells are free.
pub open spec fn empties(b: BitBoard) -> nat {
    (64 - occupied_count(b)) as nat
}

/// A score as seen by the side to move: its own piece count, the
/// opponent's, and the ply at which the game ended.
#[derive(Debug, Copy, Clone, Eq, PartialEq, Hash, Structural)]
pub struct CountTurn {
    pub mine: u8,
    pub opp: u8,
    pub turn: u8,
}

/// The three-way comparison of scores, encoded as -1, 0 or 1.
///
/// When both outcomes wipe the opponent out, the earlier wipeout wins, then
/// the larger own count.  A wipeout beats any outcome that is not one.
/// Otherwise scores compare by the signed piece difference, and equal
/// differences prefer the shorter game.
pub open spec fn cmp_spec(a: CountTurn, b: CountTurn) -> int {
    if a.opp == 0 && b.opp == 0 {
        if a.turn != b.turn {
            if a.turn < b.turn {
                1int
            } else {
                -1int
            }
        } else if a.mine != b.mine {
            if a.mine > b.mine {
                1int
            } else {
                -1int
            }
        } else {
            0int
        }
    } else if a.opp == 0 {
        1int
    } else if b.opp == 0 {
        -1int
    } else {
        let ka = a.mine - a.opp;
        let kb = b.mine - b.opp;
        if ka != kb {
            if ka > kb {
                1int
            } else {
                -1int
            }
        } else if a.turn != b.turn {
            if a.turn < b.turn {
                1int
            } else {
                -1int
            }
        } else {
            0int
        }
    }
}

/// The same score from the other side's point of view.
pub open spec fn flip_spec(a: CountTurn) -> CountTurn {
    CountTurn { mine: a.opp, opp: a.mine, turn: a.turn }
}

/// The terminal score of a finished board, from `side`'s point of view.
pub open spec fn with_side_spec(side: Side, black: u8, white: u8, turn: u8) -> CountTurn {
    match side {
        Side::Black => CountTurn { mine: black, opp: white, turn },
        Side::White => CountTurn { mine: white, opp: black, turn },
    }
}

/// The least possible score: wiped out at once.
pub open spec fn min_spec() -> CountTurn {
    CountTurn { mine: 0, opp: 64, turn: 0 }
}

/// The greatest possible score: a full board of own pieces.
pub open spec fn max_spec() -> CountTurn {
    CountTurn { mine: 64, opp: 0, turn: 0 }
}

impl CountTurn {
    pub fn new(mine: u8, opp: u8, turn: u8) -> (s: CountTurn)
        ensures
            s == (CountTurn { mine, opp, turn }),
    {
        CountTurn { mine, opp, turn }
    }

    /// The terminal score of a finished board, from `side`'s point of view.
    pub fn with_side(side: Side, black: u8, white: u8, turn: u8) -> (s: CountTurn)
        ensures
            s == with_side_spec(side, black, white, turn),
    {
        match side {
            Side::Black => CountTurn::new(black, white, turn),
            Side::White => CountTurn::new(white, black, turn),
        }
    }
}

impl core::cmp::PartialOrd for CountTurn {
    fn partial_cmp(&self, other: &CountTurn) -> (r: Option<core::cmp::Ordering>) {
        let c: i32 = if self.opp == 0 && other.opp == 0 {
            if self.turn != other.turn {
                if self.turn < other.turn {
                    1
                } else {
                    -1
                }
            } else if self.mine != other.mine {
                if self.mine > other.mine {
                    1
                } else {
                    -1
                }
            } else {
                0
            }
        } else if self.opp == 0 {
            1
        } else if other.opp == 0 {
            -1
        } else {
            let ka = self.mine as i32 - self.opp as i32;
            let kb = other.mine as i32 - other.opp as i32;
            if ka != kb {
                if ka > kb {
                    1
                } else {
                    -1
                }
            } else if self.turn != other.turn {
                if self.turn < other.turn {
                    1
                } else {
                    -1
                }
            } else {
                0
            }
        };
        if c == 1 {
            Some(core::cmp::Ordering::Greater)
        } else if c == 0 {
            Some(core::cmp::Ordering::Equal)
        } else {
            Some(core::cmp::Ordering::Less)
        }
    }
}

impl vstd::std_specs::cmp::PartialOrdSpecImpl for CountTurn {
    open spec fn obeys_partial_cmp_spec() -> bool {
        true
    }

    open spec fn partial_cmp_spec(&self, other: &CountTurn) -> Option<core::cmp::Ordering> {
        if cmp_spec(*self, *other) == 1 {
            Some(core::cmp::Ordering::Greater)
        } else if cmp_spec(*self, *other) == 0 {
            Some(core::cmp::Ordering::Equal)
        } else {
            Some(core::cmp::Ordering::Less)
        }
    }
}

/// What a solver score must offer: a worst and a best value, and a change
/// of viewpoint.
pub trait Score: Sized + Copy {
    fn min_score() -> Self;

    fn max_score() -> Self;

    fn flip(&self) -> Self;
}

impl Score for CountTurn {
    fn min_score() -> (s: CountTurn)
        ensures
            s == min_spec(),
    {
        CountTurn::new(0, 64, 0)
    }

    fn max_score() -> (s: CountTurn)
        ensures
            s == max_spec(),
    {
        CountTurn::new(64, 0, 0)
    }

    /// The same score from the other side's point of view.
    fn flip(&self) -> (s: CountTurn)
        ensures
            s == flip_spec(*self),
    {
        CountTurn::new(self.opp, self.mine, self.turn)
    }
}

/// The game-line value that the pruning search computes: when the side to
/// move has no candidates, either the game ends (after a double pass) or
/// the turn passes; otherwise the candidates are tried from the top-left
/// cell down, narrowing the window, and the fold stops early once the
/// window closes.
///
/// The window and the cut-off are part of this definition on purpose: the
/// score order trades piece counts against game length and is not reversed
/// by [`flip_spec`], so the pruned fold itself, with its fixed candidate
/// order, is what defines the result.
pub open spec fn negamax(
    b: BitBoard,
    side: Side,
    passed: bool,
    turn: u8,
    alpha: CountTurn,
    beta: CountTurn,
) -> CountTurn
    decreases empties(b), 65nat, (if passed {
        0nat
    } else {
        1nat
    }),
    via negamax_decreases
{
    let cands = legal_mask(b.mine_of(side), b.opp_of(side));
    if !b.inv() {
        min_spec()
    } else if cands == 0 {
        if passed {
            with_side_spec(side, ones(b.black) as u8, ones(b.white) as u8, turn)
        } else {
            flip_spec(
                negamax(b, side.spec_flip(), true, turn, flip_spec(beta), flip_spec(alpha)),
            )
        }
    } else {
        negamax_fold(b, side, turn, alpha, beta, cands)
    }
}

/// One step of the candidate fold of [`negamax`].
pub open spec fn negamax_fold(
    b: BitBoard,
    side: Side,
    turn: u8,
    alpha: CountTurn,
    beta: CountTurn,
    mask: u64,
) -> CountTurn
    decreases empties(b), ones(mask), 0nat,
    via negamax_fold_decreases
{
    if mask == 0 || mask & legal_mask(b.mine_of(side), b.opp_of(side)) != mask || !b.inv() {
        alpha
    } else {
        let p = crate::board::top_idx(mask);
        let child = apply_move(b, side, col_of(p), row_of(p));
        let a = flip_spec(
            negamax(
                child,
                side.spec_flip(),
                false,
                (turn + 1) as u8,
                flip_spec(beta),
                flip_spec(alpha),
            ),
        );
        let alpha2 = if cmp_spec(a, alpha) == 1 {
            a
        } else {
            alpha
        };
        if cmp_spec(alpha2, beta) >= 0 {
            alpha2
        } else {
            negamax_fold(b, side, turn, alpha2, beta, mask & !(1u64 << p))
        }
    }
}

/// A set bit of the legal mask names a legal move, and playing it fills
/// one more cell.
proof fn lemma_mask_move(b: BitBoard, side: Side, mask: u64)
    requires
        b.inv(),
        mask != 0,
        mask & legal_mask(b.mine_of(side), b.opp_of(side)) == mask,
    ensures
        in_board(col_of(crate::board::top_idx(mask)), row_of(crate::board::top_idx(mask))),
        is_legal(
            b.mine_of(side),
            b.opp_of(side),
            col_of(crate::board::top_idx(mask)),
            row_of(crate::board::top_idx(mask)),
        ),
        empties(
            apply_move(b, side, col_of(crate::board::top_idx(mask)), row_of(
                crate::board::top_idx(mask),
            )),
        ) == empties(b) - 1,
        apply_move(b, side, col_of(crate::board::top_idx(mask)), row_of(
            crate::board::top_idx(mask),
        )).inv(),
        empties(b) >= 1,
        ones(mask & !(1u64 << crate::board::top_idx(mask))) == ones(mask) - 1,
{
    crate::board::lemma_top_facts(b, side, mask);
}

#[via_fn]
proof fn negamax_decreases(
    b: BitBoard,
    side: Side,
    passed: bool,
    turn: u8,
    alpha: CountTurn,
    beta: CountTurn,
) {
    lemma_ones_le_64(b.black | b.white);
    lemma_ones_le_64(legal_mask(b.mine_of(side), b.opp_of(side)));
    crate::bits::lemma_word_basics(
        legal_mask(b.mine_of(side), b.opp_of(side)),
        legal_mask(b.mine_of(side), b.opp_of(side)),
    );
}

#[via_fn]
proof fn negamax_fold_decreases(
    b: BitBoard,
    side: Side,
    turn: u8,
    alpha: CountTurn,
    beta: CountTurn,
    mask: u64,
) {
    if mask != 0 && mask & legal_mask(b.mine_of(side), b.opp_of(side)) == mask && b.inv() {
        lemma_mask_move(b, side, mask);
        let p = crate::board::top_idx(mask);
        assert forall|i: u64| #[trigger]
            bit64(mask & !(1u64 << p), i) ==> bit64(
                legal_mask(b.mine_of(side), b.opp_of(side)),
                i,
            ) by {
            lemma_bit_ops(mask, !(1u64 << p), i);
            lemma_bit_ops(mask, legal_mask(b.mine_of(side), b.opp_of(side)), i);
        }
        crate::board::lemma_mask_restrict(
            mask & !(1u64 << p),
            legal_mask(b.mine_of(side), b.opp_of(side)),
        );
    }
}

/// The alpha-beta search, verified to compute exactly the value of the
/// [`negamax`] recurrence.
fn exact_inner(
    board: &BitBoard,
    side: Side,
    passed: bool,
    turn: u8,
    alpha0: CountTurn,
    beta: CountTurn,
) -> (r: CountTurn)
    requires
        board.inv(),
        turn as int + empties(*board) <= 255,
    ensures
        r == negamax(*board, side, passed, turn, alpha0, beta),
    decreases empties(*board), 65nat, (if passed {
        0nat
    } else {
        1nat
    }),
{
    let mut cands = board.candidates(side);
    proof {
        lemma_ones_zero(cands.pos);
        crate::bits::lemma_word_basics(cands.pos, cands.pos);
    }
    if cands.len() == 0 {
        if passed {
            let (b, w) = board.count();
            CountTurn::with_side(side, b, w, turn)
        } else {
            let sub = exact_inner(board, side.flip(), true, turn, beta.flip(), alpha0.flip());
            sub.flip()
        }
    } else {
        let mut alpha = alpha0;
        let ghost target = negamax(*board, side, passed, turn, alpha0, beta);
        proof {
            assert(negamax_fold(*board, side, turn, alpha, beta, cands.pos) == target);
        }
        loop
            invariant_except_break
                board.inv(),
                turn as int + empties(*board) <= 255,
                cands.pos & legal_mask(board.mine_of(side), board.opp_of(side)) == cands.pos,
                negamax_fold(*board, side, turn, alpha, beta, cands.pos) == target,
            ensures
                alpha == target,
            decreases ones(cands.pos),
        {
            let ghost m0 = cands.pos;
            match cands.next() {
                None => {
                    proof {
                        assert(negamax_fold(*board, side, turn, alpha, beta, 0) == alpha);
                    }
                    break ;
                },
                Some(pos) => {
                    proof {
                        lemma_mask_move(*board, side, m0);
                        let t = crate::board::top_idx(m0);
                        assert(in_board(col_of(t), row_of(t)) && pos == 1u64 << cell_idx(
                            col_of(t),
                            row_of(t),
                        ) && is_legal(
                            board.mine_of(side),
                            board.opp_of(side),
                            col_of(t),
                            row_of(t),
                        ));
                    }
                    let mut child = *board;
                    child.put(side, pos);
                    proof {
                        let t = crate::board::top_idx(m0);
                        assert(child == apply_move(*board, side, col_of(t), row_of(t)));
                        assert(empties(child) == empties(*board) - 1);
                    }
                    let sub = exact_inner(
                        &child,
                        side.flip(),
                        false,
                        turn + 1,
                        beta.flip(),
                        alpha.flip(),
                    );
                    let a = sub.flip();
                    let ghost alpha_before = alpha;
                    let improved = a > alpha;
                    proof {
                        assert(improved == (cmp_spec(a, alpha_before) == 1));
                    }
                    if improved {
                        alpha = a;
                    }
                    proof {
                        let t = crate::board::top_idx(m0);
                        let child_s = apply_move(*board, side, col_of(t), row_of(t));
                        assert(child_s == child);
                        let a_s = flip_spec(
                            negamax(
                                child_s,
                                side.spec_flip(),
                                false,
                                (turn + 1) as u8,
                                flip_spec(beta),
                                flip_spec(alpha_before),
                            ),
                        );
                        assert(a_s == a);
                        let alpha2 = if cmp_spec(a_s, alpha_before) == 1 {
                            a_s
                        } else {
                            alpha_before
                        };
                        assert(alpha2 == alpha);
                        assert(negamax_fold(*board, side, turn, alpha_before, beta, m0) == (
                        if cmp_spec(alpha2, beta) >= 0 {
                            alpha2
                        } else {
                            negamax_fold(*board, side, turn, alpha2, beta, m0 & !(1u64 << t))
                        }));
                    }
                    if alpha >= beta {
                        break ;
                    }
                    proof {
                        assert forall|i: u64| #[trigger]
                            bit64(cands.pos, i) ==> bit64(
                                legal_mask(board.mine_of(side), board.opp_of(side)),
                                i,
                            ) by {
                            let t = crate::board::top_idx(m0);
                            lemma_bit_ops(m0, !(1u64 << t), i);
                            lemma_bit_ops(m0, legal_mask(board.mine_of(side), board.opp_of(side)), i);
                        }
                        crate::board::lemma_mask_restrict(
                            cands.pos,
                            legal_mask(board.mine_of(side), board.opp_of(side)),
                        );
                    }
                },
            }
        }
        alpha
    }
}

/// The optimal exact score of the position, from `side`'s view: the value
/// of the pruning search over the whole remaining game.
pub fn search_exact(board: &BitBoard, side: Side, last_passed: bool) -> (r: CountTurn)
    requires
        board.inv(),
    ensures
        r == negamax(*board, side, last_passed, 0, min_spec(), max_spec()),
{
    proof {
        lemma_ones_le_64(board.black | board.white);
    }
    exact_inner(board, side, last_passed, 0, CountTurn::min_score(), CountTurn::max_score())
}

/// The candidate fold of [`search_exact_with_candidates`]: try each
/// remaining candidate, keep the best score, and remember the position
/// that achieved it (the earliest candidate stands in when none improves).
pub open spec fn best_fold(
    b: BitBoard,
    side: Side,
    last_passed: bool,
    mask: u64,
    alpha: CountTurn,
    best: u64,
) -> (u64, CountTurn)
    decreases ones(mask),
    via best_fold_decreases
{
    if mask == 0 || mask & legal_mask(b.mine_of(side), b.opp_of(side)) != mask || !b.inv() {
        (best, alpha)
    } else {
        let p = crate::board::top_idx(mask);
        let child = apply_move(b, side, col_of(p), row_of(p));
        let a = flip_spec(
            negamax(child, side.spec_flip(), last_passed, 1, min_spec(), flip_spec(alpha)),
        );
        let alpha2 = if cmp_spec(a, alpha) == 1 {
            a
        } else {
            alpha
        };
        let best2 = if cmp_spec(a, alpha) == 1 || best == 0 {
            1u64 << p
        } else {
            best
        };
        best_fold(b, side, last_passed, mask & !(1u64 << p), alpha2, best2)
    }
}

#[via_fn]
proof fn best_fold_decreases(
    b: BitBoard,
    side: Side,
    last_passed: bool,
    mask: u64,
    alpha: CountTurn,
    best: u64,
) {
    if mask != 0 && mask & legal_mask(b.mine_of(side), b.opp_of(side)) == mask && b.inv() {
        lemma_mask_move(b, side, mask);
        let p = crate::board::top_idx(mask);
        assert forall|i: u64| #[trigger]
            bit64(mask & !(1u64 << p), i) ==> bit64(
                legal_mask(b.mine_of(side), b.opp_of(side)),
                i,
            ) by {
            lemma_bit_ops(mask, !(1u64 << p), i);
            lemma_bit_ops(mask, legal_mask(b.mine_of(side), b.opp_of(side)), i);
        }
        crate::board::lemma_mask_restrict(
            mask & !(1u64 << p),
            legal_mask(b.mine_of(side), b.opp_of(side)),
        );
    }
}

/// Search the given candidates exhaustively and also say which move
/// achieved the optimal score.  When no candidate improves on the worst
/// score, the earliest candidate is returned rather than no position.
pub fn search_exact_with_candidates(
    board: &BitBoard,
    side: Side,
    candidates: &mut Candidate,
    last_passed: bool,
) -> (r: (u64, CountTurn))
    requires
        board.inv(),
        old(candidates).pos & legal_mask(board.mine_of(side), board.opp_of(side)) == old(
            candidates,
        ).pos,
    ensures
        r == best_fold(*board, side, last_passed, old(candidates).pos, min_spec(), 0),
        final(candidates).pos == 0,
        old(candidates).pos != 0 ==> exists|c: int, r2: int|
            in_board(c, r2) && r.0 == 1u64 << #[trigger] cell_idx(c, r2) && bit64(
                old(candidates).pos,
                cell_idx(c, r2),
            ) && is_legal(board.mine_of(side), board.opp_of(side), c, r2),
{
    let mut alpha = CountTurn::min_score();
    let mut best: u64 = 0;
    let ghost target = best_fold(*board, side, last_passed, candidates.pos, min_spec(), 0);
    proof {
        lemma_ones_le_64(board.black | board.white);
    }
    loop
        invariant_except_break
            board.inv(),
            occupied_count(*board) <= 64,
            candidates.pos & legal_mask(board.mine_of(side), board.opp_of(side))
                == candidates.pos,
            best_fold(*board, side, last_passed, candidates.pos, alpha, best) == target,
            best == 0 ==> alpha == min_spec(),
            best == 0 ==> candidates.pos == old(candidates).pos,
            best != 0 ==> exists|c: int, r2: int|
                in_board(c, r2) && best == 1u64 << #[trigger] cell_idx(c, r2) && bit64(
                    old(candidates).pos,
                    cell_idx(c, r2),
                ) && is_legal(board.mine_of(side), board.opp_of(side), c, r2),
            forall|i: u64| #[trigger]
                bit64(candidates.pos, i) ==> bit64(old(candidates).pos, i),
        ensures
            (best, alpha) == target,
            candidates.pos == 0,
            old(candidates).pos != 0 ==> best != 0,
            best != 0 ==> exists|c: int, r2: int|
                in_board(c, r2) && best == 1u64 << #[trigger] cell_idx(c, r2) && bit64(
                    old(candidates).pos,
                    cell_idx(c, r2),
                ) && is_legal(board.mine_of(side), board.opp_of(side), c, r2),
        decreases ones(candidates.pos),
    {
        let ghost m0 = candidates.pos;
        match candidates.next() {
            None => {
                proof {
                    assert(best_fold(*board, side, last_passed, 0, alpha, best) == (best, alpha));
                }
                break ;
            },
            Some(pos) => {
                proof {
                    lemma_mask_move(*board, side, m0);
                    let t = crate::board::top_idx(m0);
                    assert(in_board(col_of(t), row_of(t)) && pos == 1u64 << cell_idx(
                        col_of(t),
                        row_of(t),
                    ) && is_legal(board.mine_of(side), board.opp_of(side), col_of(t), row_of(t)));
                }
                let mut child = *board;
                child.put(side, pos);
                proof {
                    let t = crate::board::top_idx(m0);
                    assert(child == apply_move(*board, side, col_of(t), row_of(t)));
                    assert(empties(child) == empties(*board) - 1);
                }
                let sub = exact_inner(
                    &child,
                    side.flip(),
                    last_passed,
                    1,
                    CountTurn::min_score(),
                    alpha.flip(),
                );
                let a = sub.flip();
                let ghost alpha_before = alpha;
                let ghost best_before = best;
                let improved = a > alpha;
                proof {
                    assert(improved == (cmp_spec(a, alpha_before) == 1));
                    let t = crate::board::top_idx(m0);
                    lemma_bit_ops(pos, pos, t);
                    assert(pos != 0);
                }
                if improved || best == 0 {
                    best = pos;
                }
                if improved {
                    alpha = a;
                }
                proof {
                    let t = crate::board::top_idx(m0);
                    assert(bit64(m0, t));
                    assert(best_fold(*board, side, last_passed, m0, alpha_before, best_before)
                        == best_fold(
                        *board,
                        side,
                        last_passed,
                        m0 & !(1u64 << t),
                        alpha,
                        best,
                    ));
                    assert forall|i: u64| #[trigger]
                        bit64(candidates.pos, i) ==> bit64(
                            legal_mask(board.mine_of(side), board.opp_of(side)),
                            i,
                        ) && bit64(old(candidates).pos, i) by {
                        lemma_bit_ops(m0, !(1u64 << t), i);
                        lemma_bit_ops(m0, legal_mask(board.mine_of(side), board.opp_of(side)), i);
                    }
                    crate::board::lemma_mask_restrict(
                        candidates.pos,
                        legal_mask(board.mine_of(side), board.opp_of(side)),
                    );
                }
            },
        }
    }
    (best, alpha)
}

/// A pluggable move-choice strategy: handed the board, how many cells are
/// occupied, and the candidate set for the side it serves, it picks one of
/// the candidate positions.
pub trait Search {
    /// The side whose candidate sets this strategy expects, if it cares.
    spec fn spec_side(&self) -> Option<Side>;

    /// Pick one position out of a non-empty candidate set.
    fn search(
        &mut self,
        board: &BitBoard,
        occupied: u8,
        candidates: &mut Candidate,
        last_passed: bool,
    ) -> (p: u64)
        requires
            board.inv(),
            old(candidates).pos != 0,
            (match old(self).spec_side() {
                Some(s) => old(candidates).pos & legal_mask(board.mine_of(s), board.opp_of(s))
                    == old(candidates).pos,
                None => true,
            }),
        ensures
            exists|c: int, r: int|
                in_board(c, r) && p == 1u64 << #[trigger] cell_idx(c, r) && bit64(
                    old(candidates).pos,
                    cell_idx(c, r),
                ),
            final(self).spec_side() == old(self).spec_side(),
    ;
}

} // verus!
