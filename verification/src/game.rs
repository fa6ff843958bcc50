//! The turn-sequencing driver: it alternates sides, asks each side's
//! strategy for a move, applies it, and detects the end of the game by the
//! double-pass rule or a full board.

use crate::bits::{bit64, lemma_ones_disjoint, lemma_ones_single,
    lemma_word_basics, ones};
use crate::board::{apply_move, BitBoard, Side};
use crate::rules::{cell_idx, in_board, is_legal, legal_mask};
use crate::search::{occupied_count, Search};
use vstd::prelude::*;

verus! {

/// What one turn of the game did.
#[derive(Debug, Copy, Clone, Eq, PartialEq, Hash, Structural)]
pub enum ActionResult {
    /// The game is over; the final piece counts, dark first.
    GameSet(u8, u8),
    /// The given side had no legal move and passed.
    Pass(Side),
    /// The given side placed a piece on the given column and row.
    Put(Side, usize, usize),
}

/// A game in progress: the board, whose turn it is, how many cells are
/// occupied, whether the previous ply was a pass, and one strategy per side.
#[derive(Debug)]
pub struct Game<B, W> where B: Search, W: Search {
    pub side: Side,
    pub occupied: u8,
    pub last_passed: bool,
    pub board: BitBoard,
    pub black_searcher: B,
    pub white_searcher: W,
}

/// The four opening pieces have four set bits.
proof fn lemma_start_count()
    ensures
        ones(0x0000000810000000u64 | 0x0000001008000000u64) == 4,
{
    assert(0x0000000810000000u64 == (1u64 << 35u64) | (1u64 << 28u64) && 0x0000001008000000u64 == (
        1u64 << 36u64) | (1u64 << 27u64)) by (bit_vector);
    assert(((1u64 << 35u64) | (1u64 << 28u64)) | ((1u64 << 36u64) | (1u64 << 27u64)) == ((((1u64
        << 35u64) | (1u64 << 28u64)) | (1u64 << 36u64)) | (1u64 << 27u64)) && (((1u64 << 35u64) | (
    1u64 << 28u64)) | (1u64 << 36u64)) & (1u64 << 27u64) == 0 && ((1u64 << 35u64) | (1u64
        << 28u64)) & (1u64 << 36u64) == 0 && (1u64 << 35u64) & (1u64 << 28u64) == 0)
        by (bit_vector);
    lemma_ones_single(35);
    lemma_ones_single(28);
    lemma_ones_single(36);
    lemma_ones_single(27);
    lemma_ones_disjoint(1u64 << 35u64, 1u64 << 28u64);
    lemma_ones_disjoint((1u64 << 35u64) | (1u64 << 28u64), 1u64 << 36u64);
    lemma_ones_disjoint(((1u64 << 35u64) | (1u64 << 28u64)) | (1u64 << 36u64), 1u64 << 27u64);
}

impl<B, W> Game<B, W> where B: Search, W: Search {
    /// Everything a game state must keep true: a sound board, an accurate
    /// occupancy count, and strategies serving the side they were hired for.
    pub open spec fn inv(&self) -> bool {
        &&& self.board.inv()
        &&& self.occupied == occupied_count(self.board)
        &&& (self.black_searcher.spec_side() == Option::<Side>::None
            || self.black_searcher.spec_side() == Some(Side::Black))
        &&& (self.white_searcher.spec_side() == Option::<Side>::None
            || self.white_searcher.spec_side() == Some(Side::White))
    }

    /// A fresh game on the standard starting position; the first mover is
    /// the dark side.
    pub fn new(black_searcher: B, white_searcher: W) -> (g: Game<B, W>)
        requires
            black_searcher.spec_side() == Option::<Side>::None || black_searcher.spec_side()
                == Some(Side::Black),
            white_searcher.spec_side() == Option::<Side>::None || white_searcher.spec_side()
                == Some(Side::White),
        ensures
            g.inv(),
            g.board.black == 0x0000000810000000u64,
            g.board.white == 0x0000001008000000u64,
            g.side == Side::Black,
            g.occupied == 4,
            !g.last_passed,
            g.black_searcher == black_searcher,
            g.white_searcher == white_searcher,
    {
        proof {
            lemma_start_count();
        }
        Game {
            side: Side::Black,
            occupied: 4,
            last_passed: false,
            board: BitBoard::new(),
            black_searcher,
            white_searcher,
        }
    }

    /// The game is over: report the final counts.
    fn game_set(&self) -> (r: ActionResult)
        requires
            self.inv(),
        ensures
            r == ActionResult::GameSet(
                ones(self.board.black) as u8,
                ones(self.board.white) as u8,
            ),
    {
        let (b, w) = self.board.count();
        ActionResult::GameSet(b, w)
    }

    /// Play a single ply: report the end of the game when the board is full
    /// or both sides had to pass in a row, pass when the side to move has
    /// no candidate, and otherwise let that side's strategy place a piece.
    pub fn play_one_turn(&mut self) -> (r: ActionResult)
        requires
            old(self).inv(),
        ensures
            final(self).inv(),
            final(self).black_searcher.spec_side() == old(self).black_searcher.spec_side(),
            final(self).white_searcher.spec_side() == old(self).white_searcher.spec_side(),
            (match r {
                ActionResult::GameSet(b, w) => b == ones(old(self).board.black) && w == ones(
                    old(self).board.white,
                ) && final(self).board == old(self).board && final(self).occupied
                    == old(self).occupied && (old(self).occupied == 64 || (legal_mask(
                    old(self).board.mine_of(old(self).side),
                    old(self).board.opp_of(old(self).side),
                ) == 0 && old(self).last_passed)),
                ActionResult::Pass(s) => s == old(self).side && final(self).board
                    == old(self).board && final(self).side == old(self).side.spec_flip() && final(self).last_passed && final(self).occupied == old(self).occupied && legal_mask(
                    old(self).board.mine_of(old(self).side),
                    old(self).board.opp_of(old(self).side),
                ) == 0 && !old(self).last_passed,
                ActionResult::Put(s, col, row) => s == old(self).side && in_board(
                    col as int,
                    row as int,
                ) && is_legal(
                    old(self).board.mine_of(s),
                    old(self).board.opp_of(s),
                    col as int,
                    row as int,
                ) && final(self).board == apply_move(old(self).board, s, col as int, row as int)
                    && final(self).side == old(self).side.spec_flip() && !final(self).last_passed
                    && final(self).occupied == old(self).occupied + 1,
            }),
    {
        proof {
            crate::bits::lemma_ones_le_64(self.board.black | self.board.white);
            crate::bits::lemma_ones_le_64(self.board.black);
            crate::bits::lemma_ones_le_64(self.board.white);
        }
        if self.occupied == 64 {
            return self.game_set();
        }
        let mut candidates = self.board.candidates(self.side);
        proof {
            crate::bits::lemma_ones_zero(candidates.pos);
            lemma_word_basics(candidates.pos, candidates.pos);
        }
        if candidates.len() == 0 {
            if self.last_passed {
                return self.game_set();
            } else {
                let action = ActionResult::Pass(self.side);
                self.side = self.side.flip();
                self.last_passed = true;
                return action;
            }
        }
        let position = match self.side {
            Side::Black => {
                let p = self.black_searcher.search(
                    &self.board,
                    self.occupied,
                    &mut candidates,
                    self.last_passed,
                );
                p
            },
            Side::White => {
                let p = self.white_searcher.search(
                    &self.board,
                    self.occupied,
                    &mut candidates,
                    self.last_passed,
                );
                p
            },
        };
        let ghost (gc, gr) = choose|c: int, r: int|
            in_board(c, r) && position == 1u64 << cell_idx(c, r) && bit64(
                legal_mask(
                    old(self).board.mine_of(old(self).side),
                    old(self).board.opp_of(old(self).side),
                ),
                cell_idx(c, r),
            );
        proof {
            crate::board::lemma_legal_mask_bit(
                self.board.mine_of(self.side),
                self.board.opp_of(self.side),
                gc,
                gr,
            );
        }
        let side = self.side;
        self.board.put(side, position);
        let cr = BitBoard::col_row(position);
        self.side = self.side.flip();
        self.last_passed = false;
        self.occupied = self.occupied + 1;
        ActionResult::Put(side, cr.0, cr.1)
    }

    /// Play plies until the game ends, and return the final counts.
    pub fn play_game(&mut self) -> (r: (u8, u8))
        requires
            old(self).inv(),
        ensures
            final(self).inv(),
            r.0 == ones(final(self).board.black),
            r.1 == ones(final(self).board.white),
    {
        loop
            invariant
                self.inv(),
            decreases (64 - self.occupied) as int, (if self.last_passed {
                0int
            } else {
                1int
            }),
        {
            proof {
                crate::bits::lemma_ones_le_64(self.board.black | self.board.white);
            }
            let r = self.play_one_turn();
            proof {
                crate::bits::lemma_ones_le_64(self.board.black | self.board.white);
            }
            match r {
                ActionResult::GameSet(b, w) => {
                    return (b, w);
                },
                _ => {
                },
            }
        }
    }
}

} // verus!
