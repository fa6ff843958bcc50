//! The bitboard engine: two 64-bit occupancy planes, branch-light move
//! generation and capture-flipping move application, both verified against
//! the cell-level rules in [`crate::rules`].

use crate::bits::{
    bit64, lemma_bit_ops, lemma_bits_eq, lemma_ones_disjoint, lemma_ones_le_64, lemma_ones_single,
    lemma_word_basics, ones, popcount,
};
use crate::rules::{
    captures_dir, cell_idx, chain, col_of, dc, dr, flip_mask, headroom, in_board, is_flipped,
    is_legal, legal_mask, lemma_cell_idx_injective, lemma_cell_idx_inverse, lemma_chain_bound,
    lemma_chain_mono, lemma_flips_in_run, lemma_flips_opp, lemma_flips_to_chain,
    lemma_idx_of_cell, lemma_mask_of_bit, lemma_ray_one,
    lemma_run_extend, lemma_run_flips, lemma_walk_stops, occ, ray_c, ray_r, row_of,
    run_opp,
};
use vstd::prelude::*;

verus! {

/// One of the two players; the first mover plays the dark pieces.
#[derive(Debug, Copy, Clone, Eq, PartialEq, Hash, Structural)]
pub enum Side {
    Black,
    White,
}

impl Side {
    /// The opposing side.
    pub open spec fn spec_flip(self) -> Side {
        match self {
            Side::Black => Side::White,
            Side::White => Side::Black,
        }
    }

    /// Flip the side.
    pub fn flip(self) -> (s: Side)
        ensures
            s == self.spec_flip(),
    {
        match self {
            Side::Black => Side::White,
            Side::White => Side::Black,
        }
    }
}

/// The board: one occupancy plane per side, one bit per cell.
#[derive(Debug, Copy, Clone, Eq, PartialEq, Hash, Structural)]
pub struct BitBoard {
    pub black: u64,
    pub white: u64,
}

impl BitBoard {
    /// No cell is claimed by both sides.
    pub open spec fn inv(&self) -> bool {
        self.black & self.white == 0
    }

    /// The plane of `side`.
    pub open spec fn mine_of(&self, side: Side) -> u64 {
        match side {
            Side::Black => self.black,
            Side::White => self.white,
        }
    }

    /// The plane of the side opposing `side`.
    pub open spec fn opp_of(&self, side: Side) -> u64 {
        match side {
            Side::Black => self.white,
            Side::White => self.black,
        }
    }

    /// The standard four-piece starting position.
    pub fn new() -> (b: BitBoard)
        ensures
            b.black == 0x0000000810000000u64,
            b.white == 0x0000001008000000u64,
            b.inv(),
    {
        proof {
            assert(0x0000000810000000u64 & 0x0000001008000000u64 == 0) by (bit_vector);
        }
        BitBoard { black: 0x0000000810000000, white: 0x0000001008000000 }
    }

    /// The planes of `side` and of its opponent, in that order.
    pub fn mine_opp_keys(&self, side: Side) -> (mo: (u64, u64))
        ensures
            mo.0 == self.mine_of(side),
            mo.1 == self.opp_of(side),
    {
        match side {
            Side::Black => (self.black, self.white),
            Side::White => (self.white, self.black),
        }
    }
}

/// The board after `side` places on the legal empty cell `(c, r)`: the new
/// piece and every flipped run move onto `side`'s plane and leave the
/// opponent's.
pub open spec fn apply_move(b: BitBoard, side: Side, c: int, r: int) -> BitBoard {
    match side {
        Side::Black => BitBoard {
            black: (b.black | (1u64 << cell_idx(c, r))) | flip_mask(b.black, b.white, c, r),
            white: b.white & !flip_mask(b.black, b.white, c, r),
        },
        Side::White => BitBoard {
            white: (b.white | (1u64 << cell_idx(c, r))) | flip_mask(b.white, b.black, c, r),
            black: b.black & !flip_mask(b.white, b.black, c, r),
        },
    }
}

/// How each single-bit plane moves one step along each direction, with the
/// masks that keep a step from wrapping across a board edge.
proof fn bv_walk(c: u64, r: u64)
    by (bit_vector)
    requires
        c < 8,
        r < 8,
    ensures
        ((1u64 << ((63 - (8 * r + c)) as u64)) << 1u64) & 0xfefefefefefefefeu64 == (if c >= 1 {
            1u64 << ((63 - (8 * r + (c - 1))) as u64)
        } else {
            0u64
        }),
        ((1u64 << ((63 - (8 * r + c)) as u64)) << 7u64) & 0x7f7f7f7f7f7f7f00u64 == (if c <= 6 && r
            >= 1 {
            1u64 << ((63 - (8 * (r - 1) + (c + 1))) as u64)
        } else {
            0u64
        }),
        ((1u64 << ((63 - (8 * r + c)) as u64)) << 8u64) & 0xffffffffffffff00u64 == (if r >= 1 {
            1u64 << ((63 - (8 * (r - 1) + c)) as u64)
        } else {
            0u64
        }),
        ((1u64 << ((63 - (8 * r + c)) as u64)) << 9u64) & 0xfefefefefefefe00u64 == (if c >= 1 && r
            >= 1 {
            1u64 << ((63 - (8 * (r - 1) + (c - 1))) as u64)
        } else {
            0u64
        }),
        ((1u64 << ((63 - (8 * r + c)) as u64)) >> 1u64) & 0x7f7f7f7f7f7f7f7fu64 == (if c <= 6 {
            1u64 << ((63 - (8 * r + (c + 1))) as u64)
        } else {
            0u64
        }),
        ((1u64 << ((63 - (8 * r + c)) as u64)) >> 7u64) & 0x00fefefefefefefeu64 == (if c >= 1 && r
            <= 6 {
            1u64 << ((63 - (8 * (r + 1) + (c - 1))) as u64)
        } else {
            0u64
        }),
        ((1u64 << ((63 - (8 * r + c)) as u64)) >> 8u64) & 0x00ffffffffffffffu64 == (if r <= 6 {
            1u64 << ((63 - (8 * (r + 1) + c)) as u64)
        } else {
            0u64
        }),
        ((1u64 << ((63 - (8 * r + c)) as u64)) >> 9u64) & 0x007f7f7f7f7f7f7fu64 == (if c <= 6 && r
            <= 6 {
            1u64 << ((63 - (8 * (r + 1) + (c + 1))) as u64)
        } else {
            0u64
        }),
{
}

/// Placement, flips and the two plane updates, at the level of whole words.
proof fn bv_apply(mine: u64, opp: u64, rev: u64, pos: u64)
    by (bit_vector)
    requires
        mine & opp == 0,
        rev & mine == 0,
        rev & opp == rev,
        pos & mine == 0,
        pos & opp == 0,
    ensures
        mine ^ (rev | pos) == (mine | pos) | rev,
        opp ^ rev == opp & !rev,
        ((mine | pos) | rev) & (opp & !rev) == 0,
        ((mine | pos) | rev) | (opp & !rev) == (mine | opp) | pos,
        (mine | opp) & pos == 0,
        (opp & !rev) | rev == opp,
        (opp & !rev) & rev == 0,
        (mine | pos) & rev == 0,
        mine & pos == 0,
{
}

/// Move the single-bit plane `p`, sitting on cell `(gc, gr)`, one step
/// along direction `d`; the result is zero when the step leaves the board.
fn walk_step(p: u64, d: usize, Ghost(gc): Ghost<int>, Ghost(gr): Ghost<int>) -> (q: u64)
    requires
        d < 8,
        in_board(gc, gr),
        p == 1u64 << cell_idx(gc, gr),
    ensures
        q == (if in_board(gc + dc(d as int), gr + dr(d as int)) {
            1u64 << cell_idx(gc + dc(d as int), gr + dr(d as int))
        } else {
            0u64
        }),
{
    proof {
        bv_walk(gc as u64, gr as u64);
    }
    match d {
        0 => (p << 1u64) & 0xfefefefefefefefe,
        1 => (p << 7u64) & 0x7f7f7f7f7f7f7f00,
        2 => (p << 8u64) & 0xffffffffffffff00,
        3 => (p << 9u64) & 0xfefefefefefefe00,
        4 => (p >> 1u64) & 0x7f7f7f7f7f7f7f7f,
        5 => (p >> 7u64) & 0x00fefefefefefefe,
        6 => (p >> 8u64) & 0x00ffffffffffffff,
        _ => (p >> 9u64) & 0x007f7f7f7f7f7f7f,
    }
}

/// Walk direction `d` from the placement cell `(gc, gr)`: collect opponent
/// cells until the run ends, and keep them only if it ends on a mover cell.
/// The result holds exactly the cells flipped in that direction.
fn walk_dir(
    mine: u64,
    opp: u64,
    position: u64,
    d: usize,
    Ghost(gc): Ghost<int>,
    Ghost(gr): Ghost<int>,
) -> (rev: u64)
    requires
        mine & opp == 0,
        d < 8,
        in_board(gc, gr),
        position == 1u64 << cell_idx(gc, gr),
        !occ(mine, gc, gr),
        !occ(opp, gc, gr),
    ensures
        forall|i: u64| #[trigger]
            bit64(rev, i) == (i < 64 && crate::rules::ray_flips(
                mine,
                opp,
                gc,
                gr,
                d as int,
                col_of(i),
                row_of(i),
                8,
            )),
{
    let ghost dd = d as int;
    let mut tmp: u64 = 0;
    let mut masked = walk_step(position, d, Ghost(gc), Ghost(gr));
    let ghost mut j: nat = 1;
    let ghost mut wc: int = gc + dc(dd);
    let ghost mut wr: int = gr + dr(dd);
    proof {
        lemma_ray_one(gc, gr, dd);
        assert(in_board(gc, gr) ==> headroom(gc, gr, dd) <= 7);
        assert forall|i: u64| #[trigger] bit64(0u64, i) == false by {
            lemma_bit_ops(0, 0, i);
        }
    }
    while masked != 0 && (masked & opp) != 0
        invariant
            mine & opp == 0,
            0 <= dd < 8,
            dd == d as int,
            d < 8,
            in_board(gc, gr),
            !occ(mine, gc, gr),
            !occ(opp, gc, gr),
            1 <= j <= 8,
            wc == ray_c(gc, dd, j),
            wr == ray_r(gr, dd, j),
            run_opp(opp, gc, gr, dd, (j - 1) as nat),
            masked == (if in_board(wc, wr) {
                1u64 << cell_idx(wc, wr)
            } else {
                0u64
            }),
            headroom(gc, gr, dd) <= 7,
            in_board(wc, wr) ==> headroom(wc, wr, dd) == headroom(gc, gr, dd) - j,
            forall|i: u64| #[trigger]
                bit64(tmp, i) == (i < 64 && exists|t: nat|
                    1 <= t < j && in_board(ray_c(gc, dd, t), ray_r(gr, dd, t)) && i == cell_idx(
                        ray_c(gc, dd, t),
                        ray_r(gr, dd, t),
                    )),
        decreases 8 - j,
    {
        proof {
            assert(in_board(wc, wr));
            lemma_word_basics(masked, opp);
            lemma_bit_ops(opp, masked, cell_idx(wc, wr));
            assert(occ(opp, wc, wr));
            lemma_run_extend(opp, gc, gr, dd, (j - 1) as nat);
            let old_tmp = tmp;
            let m = masked;
            assert forall|i: u64| #[trigger]
                bit64(old_tmp | m, i) == (i < 64 && exists|t: nat|
                    1 <= t < j + 1 && in_board(ray_c(gc, dd, t), ray_r(gr, dd, t)) && i
                        == cell_idx(ray_c(gc, dd, t), ray_r(gr, dd, t))) by {
                lemma_bit_ops(old_tmp, m, i);
                lemma_bit_ops(m, m, cell_idx(wc, wr));
                lemma_cell_idx_inverse(wc, wr);
                if bit64(old_tmp, i) {
                    let t = choose|t: nat|
                        1 <= t < j && in_board(ray_c(gc, dd, t), ray_r(gr, dd, t)) && i
                            == cell_idx(ray_c(gc, dd, t), ray_r(gr, dd, t));
                    assert(1 <= t < j + 1 && in_board(ray_c(gc, dd, t), ray_r(gr, dd, t)) && i
                        == cell_idx(ray_c(gc, dd, t), ray_r(gr, dd, t)));
                } else if bit64(m, i) {
                    assert(i == cell_idx(wc, wr));
                    assert(1 <= j < j + 1 && in_board(ray_c(gc, dd, j), ray_r(gr, dd, j)) && i
                        == cell_idx(ray_c(gc, dd, j), ray_r(gr, dd, j)));
                }
            }
        }
        tmp = tmp | masked;
        masked = walk_step(masked, d, Ghost(wc), Ghost(wr));
        proof {
            j = j + 1;
            wc = wc + dc(dd);
            wr = wr + dr(dd);
            assert(ray_c(gc, dd, j) == ray_c(gc, dd, (j - 1) as nat) + dc(dd));
            assert(ray_r(gr, dd, j) == ray_r(gr, dd, (j - 1) as nat) + dr(dd));
        }
    }
    let confirmed = masked & mine;
    let rev = if confirmed != 0 {
        tmp
    } else {
        0
    };
    proof {
        let n = (j - 1) as nat;
        if confirmed != 0 {
            assert(masked != 0) by {
                lemma_word_basics(mine, masked);
            }
            assert(in_board(wc, wr));
            lemma_word_basics(masked, mine);
            lemma_bit_ops(mine, masked, cell_idx(wc, wr));
            assert(occ(mine, wc, wr));
            assert forall|i: u64| #[trigger]
                bit64(rev, i) == (i < 64 && crate::rules::ray_flips(
                    mine,
                    opp,
                    gc,
                    gr,
                    dd,
                    col_of(i),
                    row_of(i),
                    8,
                )) by {
                if bit64(rev, i) {
                    let t = choose|t: nat|
                        1 <= t < j && in_board(ray_c(gc, dd, t), ray_r(gr, dd, t)) && i
                            == cell_idx(ray_c(gc, dd, t), ray_r(gr, dd, t));
                    lemma_run_flips(mine, opp, gc, gr, dd, n, t);
                    lemma_cell_idx_inverse(ray_c(gc, dd, t), ray_r(gr, dd, t));
                } else {
                    if i < 64 && crate::rules::ray_flips(
                        mine,
                        opp,
                        gc,
                        gr,
                        dd,
                        col_of(i),
                        row_of(i),
                        8,
                    ) {
                        lemma_idx_of_cell(i);
                        lemma_flips_in_run(mine, opp, gc, gr, dd, n, col_of(i), row_of(i), 8);
                        let t = choose|t: nat|
                            1 <= t <= n && col_of(i) == ray_c(gc, dd, t) && row_of(i) == ray_r(
                                gr,
                                dd,
                                t,
                            );
                        assert(i == cell_idx(ray_c(gc, dd, t), ray_r(gr, dd, t)));
                        assert(bit64(tmp, i));
                    }
                }
            }
        } else {
            assert(!occ(opp, ray_c(gc, dd, j), ray_r(gr, dd, j)) && !occ(
                mine,
                ray_c(gc, dd, j),
                ray_r(gr, dd, j),
            )) by {
                if in_board(wc, wr) {
                    lemma_word_basics(masked, opp);
                    lemma_word_basics(masked, mine);
                    lemma_bit_ops(opp, masked, cell_idx(wc, wr));
                    lemma_bit_ops(mine, masked, cell_idx(wc, wr));
                }
            }
            lemma_walk_stops(mine, opp, gc, gr, dd, n, 8);
            assert forall|i: u64| #[trigger]
                bit64(rev, i) == (i < 64 && crate::rules::ray_flips(
                    mine,
                    opp,
                    gc,
                    gr,
                    dd,
                    col_of(i),
                    row_of(i),
                    8,
                )) by {
                lemma_bit_ops(0, 0, i);
                if i < 64 && crate::rules::ray_flips(mine, opp, gc, gr, dd, col_of(i), row_of(i), 8)
                    {
                    lemma_flips_to_chain(mine, opp, gc, gr, dd, col_of(i), row_of(i), 8);
                }
            }
        }
    }
    rev
}

impl BitBoard {
    /// Place a piece of `side` on the (empty, legal) cell that `position`
    /// denotes, and flip every captured run, in place.
    pub fn put(&mut self, side: Side, position: u64)
        requires
            old(self).inv(),
            exists|c: int, r: int|
                in_board(c, r) && position == 1u64 << cell_idx(c, r) && is_legal(
                    old(self).mine_of(side),
                    old(self).opp_of(side),
                    c,
                    r,
                ),
        ensures
            final(self).inv(),
            forall|c: int, r: int|
                (in_board(c, r) && position == 1u64 << #[trigger] cell_idx(c, r))
                    ==> final(self).mine_of(side) == (old(self).mine_of(side) | position)
                    | flip_mask(
                    old(self).mine_of(side),
                    old(self).opp_of(side),
                    c,
                    r,
                ) && final(self).opp_of(side) == old(self).opp_of(side) & !flip_mask(
                    old(self).mine_of(side),
                    old(self).opp_of(side),
                    c,
                    r,
                ),
            forall|c: int, r: int|
                (in_board(c, r) && position == 1u64 << #[trigger] cell_idx(c, r)) ==> *final(self)
                    == apply_move(*old(self), side, c, r),
            final(self).black | final(self).white == (old(self).black | old(self).white)
                | position,
            ones(final(self).black | final(self).white) == ones(
                old(self).black | old(self).white,
            ) + 1,
    {
        let (mine, opp) = self.mine_opp_keys(side);
        proof {
            lemma_word_basics(old(self).black, old(self).white);
        }
        let ghost (gc, gr) = choose|c: int, r: int|
            in_board(c, r) && position == 1u64 << cell_idx(c, r) && is_legal(mine, opp, c, r);
        let mut rev: u64 = 0;
        let mut d: usize = 0;
        proof {
            assert forall|i: u64| #[trigger] bit64(0u64, i) == false by {
                lemma_bit_ops(0, 0, i);
            }
        }
        while d < 8
            invariant
                d <= 8,
                mine & opp == 0,
                mine == old(self).mine_of(side),
                opp == old(self).opp_of(side),
                *self == *old(self),
                in_board(gc, gr),
                position == 1u64 << cell_idx(gc, gr),
                is_legal(mine, opp, gc, gr),
                forall|i: u64| #[trigger]
                    bit64(rev, i) == (i < 64 && exists|e: int|
                        0 <= e < d && crate::rules::ray_flips(
                            mine,
                            opp,
                            gc,
                            gr,
                            e,
                            col_of(i),
                            row_of(i),
                            8,
                        )),
            decreases 8 - d,
        {
            let w = walk_dir(mine, opp, position, d, Ghost(gc), Ghost(gr));
            proof {
                let old_rev = rev;
                assert forall|i: u64| #[trigger]
                    bit64(old_rev | w, i) == (i < 64 && exists|e: int|
                        0 <= e < d + 1 && crate::rules::ray_flips(
                            mine,
                            opp,
                            gc,
                            gr,
                            e,
                            col_of(i),
                            row_of(i),
                            8,
                        )) by {
                    lemma_bit_ops(old_rev, w, i);
                    if bit64(old_rev, i) {
                        let e = choose|e: int|
                            0 <= e < d && crate::rules::ray_flips(
                                mine,
                                opp,
                                gc,
                                gr,
                                e,
                                col_of(i),
                                row_of(i),
                                8,
                            );
                        assert(0 <= e < d + 1 && crate::rules::ray_flips(
                            mine,
                            opp,
                            gc,
                            gr,
                            e,
                            col_of(i),
                            row_of(i),
                            8,
                        ));
                    } else if bit64(w, i) {
                        assert(0 <= (d as int) < d + 1 && crate::rules::ray_flips(
                            mine,
                            opp,
                            gc,
                            gr,
                            d as int,
                            col_of(i),
                            row_of(i),
                            8,
                        ));
                    }
                }
            }
            rev = rev | w;
            d += 1;
        }
        proof {
            let fm = flip_mask(mine, opp, gc, gr);
            assert forall|i: u64| #[trigger] bit64(rev, i) == bit64(fm, i) by {
                lemma_mask_of_bit(
                    |i: u64| is_flipped(mine, opp, gc, gr, col_of(i), row_of(i)),
                    i,
                );
            }
            lemma_bits_eq(rev, fm);
            // the flipped cells sit on the opponent plane and nowhere else
            assert forall|i: u64| #[trigger] bit64(rev & opp, i) == bit64(rev, i) by {
                lemma_bit_ops(rev, opp, i);
                if bit64(rev, i) {
                    lemma_idx_of_cell(i);
                    let e = choose|e: int|
                        0 <= e < 8 && crate::rules::ray_flips(
                            mine,
                            opp,
                            gc,
                            gr,
                            e,
                            col_of(i),
                            row_of(i),
                            8,
                        );
                    lemma_flips_opp(mine, opp, gc, gr, e, col_of(i), row_of(i), 8);
                }
            }
            lemma_bits_eq(rev & opp, rev);
            assert forall|i: u64| #[trigger] bit64(rev & mine, i) == bit64(0u64, i) by {
                lemma_bit_ops(rev, mine, i);
                lemma_bit_ops(rev, opp, i);
                lemma_bit_ops(mine, opp, i);
                lemma_bit_ops(0, 0, i);
            }
            lemma_bits_eq(rev & mine, 0);
            assert forall|i: u64| #[trigger] bit64(position & mine, i) == bit64(0u64, i) by {
                lemma_bit_ops(position, mine, i);
                lemma_bit_ops(mine, mine, cell_idx(gc, gr));
                lemma_bit_ops(0, 0, i);
                lemma_bit_ops(mine, 0, i);
                if i != cell_idx(gc, gr) {
                    lemma_bit_ops(mine, 0, cell_idx(gc, gr));
                }
            }
            lemma_bits_eq(position & mine, 0);
            assert forall|i: u64| #[trigger] bit64(position & opp, i) == bit64(0u64, i) by {
                lemma_bit_ops(position, opp, i);
                lemma_bit_ops(opp, opp, cell_idx(gc, gr));
                lemma_bit_ops(0, 0, i);
                lemma_bit_ops(opp, 0, i);
                if i != cell_idx(gc, gr) {
                    lemma_bit_ops(opp, 0, cell_idx(gc, gr));
                }
            }
            lemma_bits_eq(position & opp, 0);
            bv_apply(mine, opp, rev, position);
            lemma_cell_idx_inverse(gc, gr);
            lemma_bit_ops(mine | opp, position, cell_idx(gc, gr));
            lemma_ones_disjoint(mine | opp, position);
            lemma_ones_single(cell_idx(gc, gr));
        }
        match side {
            Side::Black => {
                self.black = self.black ^ (rev | position);
                self.white = self.white ^ rev;
            },
            Side::White => {
                self.white = self.white ^ (rev | position);
                self.black = self.black ^ rev;
            },
        }
        proof {
            lemma_word_basics(self.black, self.white);
            lemma_word_basics(self.black | self.white, position);
            lemma_word_basics(mine | opp, position);
            lemma_word_basics(mine, opp);
            assert forall|c: int, r: int|
                (in_board(c, r) && position == 1u64 << #[trigger] cell_idx(c, r)) implies c == gc
                && r == gr by {
                lemma_bit_ops(position, position, cell_idx(c, r));
                lemma_bit_ops(position, position, cell_idx(gc, gr));
                lemma_cell_idx_injective(c, r, gc, gr);
            }
        }
    }
}

/// The per-family interior masks, bit by bit.
proof fn bv_masks(c: u64, r: u64)
    by (bit_vector)
    requires
        c < 8,
        r < 8,
    ensures
        bit64(0x7e7e7e7e7e7e7e7eu64, (63 - (8 * r + c)) as u64) == (1 <= c <= 6),
        bit64(0x00ffffffffffff00u64, (63 - (8 * r + c)) as u64) == (1 <= r <= 6),
        bit64(0x007e7e7e7e7e7e00u64, (63 - (8 * r + c)) as u64) == (1 <= c <= 6 && 1 <= r <= 6),
{
}

/// How a whole-plane shift moves each cell's bit, for each direction.
/// The first clause of each pair speaks of target cells inside the family
/// mask; the second of any target cell, once the shifted plane itself is
/// confined to the family mask.
proof fn bv_plane(x: u64, c: u64, r: u64)
    by (bit_vector)
    requires
        c < 8,
        r < 8,
    ensures
        bit64(0x7e7e7e7e7e7e7e7eu64, (63 - (8 * r + c)) as u64) ==> bit64(
            x >> 1u64,
            (63 - (8 * r + c)) as u64,
        ) == (c >= 1 && bit64(x, (63 - (8 * r + (c - 1))) as u64)),
        x & 0x7e7e7e7e7e7e7e7eu64 == x ==> bit64(x >> 1u64, (63 - (8 * r + c)) as u64) == (c >= 1
            && bit64(x, (63 - (8 * r + (c - 1))) as u64)),
        bit64(0x7e7e7e7e7e7e7e7eu64, (63 - (8 * r + c)) as u64) ==> bit64(
            x << 1u64,
            (63 - (8 * r + c)) as u64,
        ) == (c <= 6 && bit64(x, (63 - (8 * r + (c + 1))) as u64)),
        x & 0x7e7e7e7e7e7e7e7eu64 == x ==> bit64(x << 1u64, (63 - (8 * r + c)) as u64) == (c <= 6
            && bit64(x, (63 - (8 * r + (c + 1))) as u64)),
        bit64(0x00ffffffffffff00u64, (63 - (8 * r + c)) as u64) ==> bit64(
            x >> 8u64,
            (63 - (8 * r + c)) as u64,
        ) == (r >= 1 && bit64(x, (63 - (8 * (r - 1) + c)) as u64)),
        x & 0x00ffffffffffff00u64 == x ==> bit64(x >> 8u64, (63 - (8 * r + c)) as u64) == (r >= 1
            && bit64(x, (63 - (8 * (r - 1) + c)) as u64)),
        bit64(0x00ffffffffffff00u64, (63 - (8 * r + c)) as u64) ==> bit64(
            x << 8u64,
            (63 - (8 * r + c)) as u64,
        ) == (r <= 6 && bit64(x, (63 - (8 * (r + 1) + c)) as u64)),
        x & 0x00ffffffffffff00u64 == x ==> bit64(x << 8u64, (63 - (8 * r + c)) as u64) == (r <= 6
            && bit64(x, (63 - (8 * (r + 1) + c)) as u64)),
        bit64(0x007e7e7e7e7e7e00u64, (63 - (8 * r + c)) as u64) ==> bit64(
            x >> 7u64,
            (63 - (8 * r + c)) as u64,
        ) == (c <= 6 && r >= 1 && bit64(x, (63 - (8 * (r - 1) + (c + 1))) as u64)),
        x & 0x007e7e7e7e7e7e00u64 == x ==> bit64(x >> 7u64, (63 - (8 * r + c)) as u64) == (c <= 6
            && r >= 1 && bit64(x, (63 - (8 * (r - 1) + (c + 1))) as u64)),
        bit64(0x007e7e7e7e7e7e00u64, (63 - (8 * r + c)) as u64) ==> bit64(
            x << 7u64,
            (63 - (8 * r + c)) as u64,
        ) == (c >= 1 && r <= 6 && bit64(x, (63 - (8 * (r + 1) + (c - 1))) as u64)),
        x & 0x007e7e7e7e7e7e00u64 == x ==> bit64(x << 7u64, (63 - (8 * r + c)) as u64) == (c >= 1
            && r <= 6 && bit64(x, (63 - (8 * (r + 1) + (c - 1))) as u64)),
        bit64(0x007e7e7e7e7e7e00u64, (63 - (8 * r + c)) as u64) ==> bit64(
            x >> 9u64,
            (63 - (8 * r + c)) as u64,
        ) == (c >= 1 && r >= 1 && bit64(x, (63 - (8 * (r - 1) + (c - 1))) as u64)),
        x & 0x007e7e7e7e7e7e00u64 == x ==> bit64(x >> 9u64, (63 - (8 * r + c)) as u64) == (c >= 1
            && r >= 1 && bit64(x, (63 - (8 * (r - 1) + (c - 1))) as u64)),
        bit64(0x007e7e7e7e7e7e00u64, (63 - (8 * r + c)) as u64) ==> bit64(
            x << 9u64,
            (63 - (8 * r + c)) as u64,
        ) == (c <= 6 && r <= 6 && bit64(x, (63 - (8 * (r + 1) + (c + 1))) as u64)),
        x & 0x007e7e7e7e7e7e00u64 == x ==> bit64(x << 9u64, (63 - (8 * r + c)) as u64) == (c <= 6
            && r <= 6 && bit64(x, (63 - (8 * (r + 1) + (c + 1))) as u64)),
{
}

/// The edge columns and rows that each direction family must not cross.
pub open spec fn watch_mask(d: int) -> u64 {
    if d == 0 || d == 4 {
        0x7e7e7e7e7e7e7e7eu64
    } else if d == 2 || d == 6 {
        0x00ffffffffffff00u64
    } else {
        0x007e7e7e7e7e7e00u64
    }
}

/// Starting at the masked-opponent cell `(c, r)` itself, a run of masked
/// opponent cells leads, within `fuel` further steps along `d`, to a cell
/// of `mine`.  This is what the doubling loop of the move generator
/// computes, step by step.
pub open spec fn reaches(mine: u64, watch: u64, d: int, c: int, r: int, fuel: nat) -> bool
    decreases fuel,
{
    occ(watch, c, r) && (occ(mine, c + dc(d), r + dr(d)) || (fuel > 0 && reaches(
        mine,
        watch,
        d,
        c + dc(d),
        r + dr(d),
        (fuel - 1) as nat,
    )))
}

proof fn lemma_reaches_mono(mine: u64, watch: u64, d: int, c: int, r: int, f1: nat, f2: nat)
    requires
        f1 <= f2,
        reaches(mine, watch, d, c, r, f1),
    ensures
        reaches(mine, watch, d, c, r, f2),
    decreases f1,
{
    if !occ(mine, c + dc(d), r + dr(d)) {
        lemma_reaches_mono(mine, watch, d, c + dc(d), r + dr(d), (f1 - 1) as nat, (f2 - 1) as nat);
    }
}

/// One doubling step extends every partial run by one cell.
proof fn lemma_reaches_step(mine: u64, watch: u64, d: int, c: int, r: int, k: nat)
    ensures
        reaches(mine, watch, d, c, r, k + 1) == (reaches(mine, watch, d, c, r, k) || (occ(
            watch,
            c,
            r,
        ) && reaches(mine, watch, d, c + dc(d), r + dr(d), k))),
{
    if reaches(mine, watch, d, c, r, k) {
        lemma_reaches_mono(mine, watch, d, c, r, k, k + 1);
    }
    if occ(watch, c, r) && reaches(mine, watch, d, c + dc(d), r + dr(d), k) {
        assert(reaches(mine, watch, d, c, r, k + 1));
    }
    if reaches(mine, watch, d, c, r, k + 1) && !occ(mine, c + dc(d), r + dr(d)) {
        assert(reaches(mine, watch, d, c + dc(d), r + dr(d), k));
    }
}

/// A masked run is in particular a plain run.
proof fn lemma_reaches_to_chain(
    mine: u64,
    opp: u64,
    watch: u64,
    d: int,
    c: int,
    r: int,
    f: nat,
)
    requires
        watch & opp == watch,
        reaches(mine, watch, d, c, r, f),
    ensures
        chain(mine, opp, c, r, d, f),
    decreases f,
{
    lemma_bit_ops(watch, opp, cell_idx(c, r));
    if !occ(mine, c + dc(d), r + dr(d)) {
        lemma_reaches_to_chain(mine, opp, watch, d, c + dc(d), r + dr(d), (f - 1) as nat);
    }
}

/// A plain run whose cells all have an in-board predecessor stays inside
/// the family mask, so the masked generator finds it.
proof fn lemma_chain_to_reaches(mine: u64, opp: u64, d: int, c: int, r: int, f: nat)
    requires
        0 <= d < 8,
        chain(mine, opp, c, r, d, f),
        in_board(c - dc(d), r - dr(d)),
    ensures
        reaches(mine, opp & watch_mask(d), d, c, r, f),
    decreases f,
{
    let nc = c + dc(d);
    let nr = r + dr(d);
    if !occ(mine, nc, nr) {
        assert(chain(mine, opp, nc, nr, d, (f - 1) as nat));
        assert(occ(opp, nc, nr));
    }
    assert(in_board(nc, nr));
    assert(in_board(c, r));
    bv_masks(c as u64, r as u64);
    assert(bit64(watch_mask(d), cell_idx(c, r)));
    lemma_bit_ops(opp, watch_mask(d), cell_idx(c, r));
    assert(occ(opp & watch_mask(d), c, r));
    if !occ(mine, nc, nr) {
        lemma_chain_to_reaches(mine, opp, d, nc, nr, (f - 1) as nat);
    }
}

/// Shift a whole plane one step against direction `d`, so that each cell of
/// the result looks at the cell one step along `d` in `x`.
fn plane_shift(x: u64, d: usize) -> (res: u64)
    requires
        d < 8,
    ensures
        forall|c: int, r: int|
            (in_board(c, r) && bit64(watch_mask(d as int), #[trigger] cell_idx(c, r))) ==> bit64(
                res,
                cell_idx(c, r),
            ) == occ(x, c + dc(d as int), r + dr(d as int)),
        x & watch_mask(d as int) == x ==> forall|c: int, r: int|
            in_board(c, r) ==> bit64(res, #[trigger] cell_idx(c, r)) == occ(
                x,
                c + dc(d as int),
                r + dr(d as int),
            ),
{
    let res = match d {
        0 => x >> 1u64,
        1 => x >> 7u64,
        2 => x >> 8u64,
        3 => x >> 9u64,
        4 => x << 1u64,
        5 => x << 7u64,
        6 => x << 8u64,
        _ => x << 9u64,
    };
    proof {
        assert forall|c: int, r: int|
            (in_board(c, r) && bit64(watch_mask(d as int), #[trigger] cell_idx(c, r))) implies
            bit64(res, cell_idx(c, r)) == occ(x, c + dc(d as int), r + dr(d as int)) by {
            bv_plane(x, c as u64, r as u64);
        }
        if x & watch_mask(d as int) == x {
            assert forall|c: int, r: int| in_board(c, r) implies bit64(
                res,
                #[trigger] cell_idx(c, r),
            ) == occ(x, c + dc(d as int), r + dr(d as int)) by {
                bv_plane(x, c as u64, r as u64);
            }
        }
    }
    res
}

/// The family mask of direction `d`, as a value.
fn watch_mask_for(d: usize) -> (m: u64)
    requires
        d < 8,
    ensures
        m == watch_mask(d as int),
{
    if d == 0 || d == 4 {
        0x7e7e7e7e7e7e7e7e
    } else if d == 2 || d == 6 {
        0x00ffffffffffff00
    } else {
        0x007e7e7e7e7e7e00
    }
}

/// The empty cells from which a run along `d` is captured, as one plane.
fn dir_candidates(mine: u64, opp: u64, d: usize) -> (res: u64)
    requires
        d < 8,
        mine & opp == 0,
    ensures
        forall|i: u64| #[trigger]
            bit64(res, i) == (i < 64 && !bit64(mine, i) && !bit64(opp, i) && captures_dir(
                mine,
                opp,
                col_of(i),
                row_of(i),
                d as int,
            )),
{
    let ghost dd = d as int;
    let watch = opp & watch_mask_for(d);
    let shifted0 = plane_shift(mine, d);
    let mut tmp = watch & shifted0;
    proof {
        assert forall|i: u64| #[trigger]
            bit64(tmp, i) == (i < 64 && reaches(mine, watch, dd, col_of(i), row_of(i), 0)) by {
            lemma_bit_ops(watch, shifted0, i);
            if i < 64 {
                lemma_idx_of_cell(i);
                lemma_bit_ops(opp, watch_mask(dd), i);
            }
        }
    }
    let mut k: usize = 0;
    while k < 5
        invariant
            k <= 5,
            d < 8,
            dd == d as int,
            mine & opp == 0,
            watch == opp & watch_mask(dd),
            forall|i: u64| #[trigger]
                bit64(tmp, i) == (i < 64 && reaches(mine, watch, dd, col_of(i), row_of(i), k as nat)),
        decreases 5 - k,
    {
        let shifted = plane_shift(tmp, d);
        let step = watch & shifted;
        proof {
            let old_tmp = tmp;
            assert forall|i: u64| #[trigger]
                bit64(old_tmp | step, i) == (i < 64 && reaches(
                    mine,
                    watch,
                    dd,
                    col_of(i),
                    row_of(i),
                    (k + 1) as nat,
                )) by {
                lemma_bit_ops(old_tmp, step, i);
                lemma_bit_ops(watch, shifted, i);
                if i < 64 {
                    lemma_idx_of_cell(i);
                    let c = col_of(i);
                    let r = row_of(i);
                    lemma_bit_ops(opp, watch_mask(dd), i);
                    if in_board(c + dc(dd), r + dr(dd)) {
                        lemma_cell_idx_inverse(c + dc(dd), r + dr(dd));
                    }
                    lemma_reaches_step(mine, watch, dd, c, r, k as nat);
                }
            }
        }
        tmp = tmp | step;
        k = k + 1;
    }
    let blank = !(mine | opp);
    let shifted5 = plane_shift(tmp, d);
    let res = blank & shifted5;
    proof {
        assert forall|i: u64| #[trigger] bit64(tmp & watch_mask(dd), i) == bit64(tmp, i) by {
            lemma_bit_ops(tmp, watch_mask(dd), i);
            if bit64(tmp, i) {
                lemma_idx_of_cell(i);
                lemma_bit_ops(opp, watch_mask(dd), i);
            }
        }
        lemma_bits_eq(tmp & watch_mask(dd), tmp);
        lemma_word_basics(opp, watch_mask(dd));
        assert(watch & opp == watch);
        assert forall|i: u64| #[trigger]
            bit64(res, i) == (i < 64 && !bit64(mine, i) && !bit64(opp, i) && captures_dir(
                mine,
                opp,
                col_of(i),
                row_of(i),
                dd,
            )) by {
            lemma_bit_ops(blank, shifted5, i);
            lemma_bit_ops(mine, opp, i);
            lemma_bit_ops(mine | opp, opp, i);
            if i < 64 {
                lemma_idx_of_cell(i);
                let c = col_of(i);
                let r = row_of(i);
                let nc = c + dc(dd);
                let nr = r + dr(dd);
                if in_board(nc, nr) {
                    lemma_cell_idx_inverse(nc, nr);
                }
                if bit64(res, i) {
                    lemma_reaches_to_chain(mine, opp, watch, dd, nc, nr, 5);
                    lemma_chain_mono(mine, opp, nc, nr, dd, 5, 8);
                } else if !bit64(mine, i) && !bit64(opp, i) && captures_dir(mine, opp, c, r, dd) {
                    assert(chain(mine, opp, nc, nr, dd, 8));
                    assert(in_board(nc, nr));
                    if !occ(mine, nc + dc(dd), nr + dr(dd)) {
                        assert(chain(mine, opp, nc + dc(dd), nr + dr(dd), dd, 7));
                    }
                    assert(in_board(nc + dc(dd), nr + dr(dd)));
                    assert(headroom(nc, nr, dd) >= 1);
                    assert(headroom(nc, nr, dd) == headroom(c, r, dd) - 1);
                    assert(headroom(c, r, dd) <= 7);
                    lemma_chain_bound(mine, opp, nc, nr, dd, 8);
                    lemma_chain_mono(mine, opp, nc, nr, dd, (headroom(nc, nr, dd) - 1) as nat, 5);
                    lemma_chain_to_reaches(mine, opp, dd, nc, nr, 5);
                }
            }
        }
    }
    res
}

/// Every empty cell from which placing `mine` captures in some direction.
/// The result is exactly the legal-move mask of the rules.
pub fn can_put(mine: u64, opp: u64) -> (pos: u64)
    requires
        mine & opp == 0,
    ensures
        pos == legal_mask(mine, opp),
{
    let mut pos: u64 = 0;
    proof {
        assert forall|i: u64| #[trigger] bit64(0u64, i) == false by {
            lemma_bit_ops(0, 0, i);
        }
    }
    let mut d: usize = 0;
    while d < 8
        invariant
            mine & opp == 0,
            d <= 8,
            forall|i: u64| #[trigger]
                bit64(pos, i) == (i < 64 && !bit64(mine, i) && !bit64(opp, i) && exists|e: int|
                    0 <= e < d && captures_dir(mine, opp, col_of(i), row_of(i), e)),
        decreases 8 - d,
    {
        let w = dir_candidates(mine, opp, d);
        proof {
            let old_pos = pos;
            assert forall|i: u64| #[trigger]
                bit64(old_pos | w, i) == (i < 64 && !bit64(mine, i) && !bit64(opp, i) && exists|
                    e: int,
                |
                    0 <= e < d + 1 && captures_dir(mine, opp, col_of(i), row_of(i), e)) by {
                lemma_bit_ops(old_pos, w, i);
                if bit64(old_pos, i) {
                    let e = choose|e: int|
                        0 <= e < d && captures_dir(mine, opp, col_of(i), row_of(i), e);
                    assert(0 <= e < d + 1 && captures_dir(mine, opp, col_of(i), row_of(i), e));
                } else if bit64(w, i) {
                    assert(0 <= (d as int) < d + 1 && captures_dir(
                        mine,
                        opp,
                        col_of(i),
                        row_of(i),
                        d as int,
                    ));
                }
            }
        }
        pos = pos | w;
        d += 1;
    }
    proof {
        assert forall|i: u64| #[trigger] bit64(pos, i) == bit64(legal_mask(mine, opp), i) by {
            lemma_mask_of_bit(|i: u64| is_legal(mine, opp, col_of(i), row_of(i)), i);
            if i < 64 {
                lemma_idx_of_cell(i);
            }
        }
        lemma_bits_eq(pos, legal_mask(mine, opp));
    }
    pos
}

/// What each bit of the legal-move mask says of its cell.
pub proof fn lemma_legal_mask_bit(mine: u64, opp: u64, c: int, r: int)
    requires
        in_board(c, r),
    ensures
        bit64(legal_mask(mine, opp), cell_idx(c, r)) == is_legal(mine, opp, c, r),
{
    lemma_cell_idx_inverse(c, r);
    lemma_mask_of_bit(|i: u64| is_legal(mine, opp, col_of(i), row_of(i)), cell_idx(c, r));
}

/// The lazy sequence of candidate positions: a mask of cells, handed out
/// one single-bit position at a time, highest bit (top-left cell) first.
#[derive(Debug, Copy, Clone)]
pub struct Candidate {
    pub pos: u64,
}

/// Bit index of the highest set bit.
pub open spec fn top_idx(x: u64) -> u64 {
    (63 - vstd::std_specs::bits::u64_leading_zeros(x)) as u64
}

proof fn bv_top(x: u64, k: u64)
    by (bit_vector)
    requires
        k < 64,
    ensures
        0x8000000000000000u64 >> k == 1u64 << ((63 - k) as u64),
        bit64(x, k) ==> 1u64 << k <= x,
        bit64(x, k) ==> x - (1u64 << k) == x & !(1u64 << k),
        bit64(x, k) ==> (x & !(1u64 << k)) & (1u64 << k) == 0,
        bit64(x, k) ==> (x & !(1u64 << k)) | (1u64 << k) == x,
        ((x >> k) & 1u64 != 0) == ((x >> k) & 1u64 == 1u64),
{
}

/// What `u64::leading_zeros` says of the highest set bit.
pub proof fn lemma_top_bit(x: u64)
    requires
        x != 0,
    ensures
        top_idx(x) < 64,
        bit64(x, top_idx(x)),
        forall|j: u64| top_idx(x) < j < 64 ==> !bit64(x, j),
{
    vstd::std_specs::bits::axiom_u64_leading_zeros(x);
    let lz = vstd::std_specs::bits::u64_leading_zeros(x);
    assert(0 <= lz < 64);
    bv_top(x, (63 - lz) as u64);
    assert((x >> ((63 - lz) as u64)) & 1u64 != 0u64);
    assert((x >> ((63 - lz) as u64)) & 1u64 == 1u64);
    assert forall|j: u64| top_idx(x) < j < 64 implies !bit64(x, j) by {
        assert((x >> j) & 1u64 == 0u64);
    }
}

impl Candidate {
    /// Hand out the highest remaining position, or nothing when the set is
    /// exhausted.
    pub fn next(&mut self) -> (r: Option<u64>)
        ensures
            old(self).pos == 0 ==> r is None && final(self).pos == 0,
            old(self).pos != 0 ==> r == Some(1u64 << top_idx(old(self).pos)) && final(self).pos
                == old(self).pos & !(1u64 << top_idx(old(self).pos)) && bit64(
                old(self).pos,
                top_idx(old(self).pos),
            ) && top_idx(old(self).pos) < 64 && ones(final(self).pos) + 1 == ones(old(self).pos),
    {
        if self.pos == 0 {
            None
        } else {
            proof {
                lemma_top_bit(self.pos);
            }
            let lz = self.pos.leading_zeros();
            let p = 0x8000000000000000u64 >> lz;
            proof {
                bv_top(self.pos, lz as u64);
                bv_top(self.pos, top_idx(self.pos));
                assert(p == 1u64 << top_idx(self.pos));
                lemma_ones_single(top_idx(self.pos));
                lemma_word_basics(self.pos & !p, p);
                lemma_ones_disjoint(self.pos & !p, p);
            }
            self.pos = self.pos - p;
            Some(p)
        }
    }

    /// How many positions remain.
    pub fn len(&self) -> (n: usize)
        ensures
            n == ones(self.pos),
    {
        popcount(self.pos) as usize
    }
}

impl BitBoard {
    /// Every legal move of `side` on this board, as a lazy sequence of
    /// positions.
    pub fn candidates(&self, side: Side) -> (cand: Candidate)
        requires
            self.inv(),
        ensures
            cand.pos == legal_mask(self.mine_of(side), self.opp_of(side)),
    {
        let (mine, opp) = self.mine_opp_keys(side);
        proof {
            lemma_word_basics(self.black, self.white);
        }
        Candidate { pos: can_put(mine, opp) }
    }

    /// How many pieces each side has, dark first.
    pub fn count(&self) -> (t: (u8, u8))
        ensures
            t.0 == ones(self.black),
            t.1 == ones(self.white),
            self.inv() ==> t.0 + t.1 <= 64,
    {
        proof {
            if self.inv() {
                lemma_ones_disjoint(self.black, self.white);
                lemma_ones_le_64(self.black | self.white);
            }
        }
        (popcount(self.black) as u8, popcount(self.white) as u8)
    }

    /// The column and row that a single-bit position denotes.
    pub fn col_row(position: u64) -> (cr: (usize, usize))
        requires
            exists|c: int, r: int| in_board(c, r) && position == 1u64 << cell_idx(c, r),
        ensures
            forall|c: int, r: int|
                (in_board(c, r) && position == 1u64 << #[trigger] cell_idx(c, r)) ==> cr == (
                    c as usize,
                    r as usize,
                ),
    {
        let ghost (gc, gr) = choose|c: int, r: int|
            in_board(c, r) && position == 1u64 << cell_idx(c, r);
        proof {
            lemma_cell_idx_inverse(gc, gr);
            lemma_bit_ops(position, position, cell_idx(gc, gr));
            assert(position != 0);
            lemma_top_bit(position);
            assert(top_idx(position) == cell_idx(gc, gr)) by {
                if top_idx(position) != cell_idx(gc, gr) {
                    assert(!bit64(1u64 << cell_idx(gc, gr), top_idx(position)));
                }
            }
            assert((63 - top_idx(position)) as int == 8 * gr + gc);
            assert((8 * gr + gc) % 8 == gc && (8 * gr + gc) / 8 == gr) by (nonlinear_arith)
                requires
                    0 <= gc < 8 && 0 <= gr < 8,
            ;
            assert forall|c: int, r: int|
                (in_board(c, r) && position == 1u64 << #[trigger] cell_idx(c, r)) implies c == gc
                && r == gr by {
                lemma_bit_ops(position, position, cell_idx(c, r));
                lemma_bit_ops(position, position, cell_idx(gc, gr));
                lemma_cell_idx_injective(c, r, gc, gr);
            }
        }
        let lz = position.leading_zeros();
        ((lz % 8) as usize, (lz / 8) as usize)
    }

    /// The single-bit position of the cell at `(col, row)`.
    pub fn position(col: usize, row: usize) -> (p: u64)
        requires
            col < 8,
            row < 8,
        ensures
            p == 1u64 << cell_idx(col as int, row as int),
    {
        let n = row * 8 + col;
        proof {
            bv_top(0, n as u64);
        }
        0x8000000000000000u64 >> (n as u64)
    }

    /// Every candidate cell is empty and a legal move; the candidate mask
    /// never overlaps either plane.
    pub proof fn lemma_candidates_legal(&self, side: Side)
        requires
            self.inv(),
        ensures
            forall|c: int, r: int|
                in_board(c, r) ==> bit64(
                    legal_mask(self.mine_of(side), self.opp_of(side)),
                    #[trigger] cell_idx(c, r),
                ) == is_legal(self.mine_of(side), self.opp_of(side), c, r),
    {
        assert forall|c: int, r: int| in_board(c, r) implies bit64(
            legal_mask(self.mine_of(side), self.opp_of(side)),
            #[trigger] cell_idx(c, r),
        ) == is_legal(self.mine_of(side), self.opp_of(side), c, r) by {
            lemma_legal_mask_bit(self.mine_of(side), self.opp_of(side), c, r);
        }
    }
}

/// A word lies under a mask that covers all its bits.
pub proof fn lemma_mask_restrict(x: u64, m: u64)
    requires
        forall|i: u64| #[trigger] bit64(x, i) ==> bit64(m, i),
    ensures
        x & m == x,
{
    assert forall|i: u64| #[trigger] bit64(x & m, i) == bit64(x, i) by {
        lemma_bit_ops(x, m, i);
    }
    lemma_bits_eq(x & m, x);
}

/// A legal move fills exactly one empty cell and keeps the planes disjoint.
pub proof fn lemma_apply_move_props(b: BitBoard, side: Side, c: int, r: int)
    requires
        b.inv(),
        in_board(c, r),
        is_legal(b.mine_of(side), b.opp_of(side), c, r),
    ensures
        apply_move(b, side, c, r).inv(),
        apply_move(b, side, c, r).black | apply_move(b, side, c, r).white == (b.black | b.white) | (
        1u64 << cell_idx(c, r)),
        ones(apply_move(b, side, c, r).black | apply_move(b, side, c, r).white) == ones(
            b.black | b.white,
        ) + 1,
        apply_move(b, side, c, r).mine_of(side) == (b.mine_of(side) | (1u64 << cell_idx(c, r)))
            | flip_mask(b.mine_of(side), b.opp_of(side), c, r),
        apply_move(b, side, c, r).opp_of(side) == b.opp_of(side) & !flip_mask(
            b.mine_of(side),
            b.opp_of(side),
            c,
            r,
        ),
{
    let mine = b.mine_of(side);
    let opp = b.opp_of(side);
    lemma_word_basics(b.black, b.white);
    let fm = flip_mask(mine, opp, c, r);
    let pos = 1u64 << cell_idx(c, r);
    lemma_cell_idx_inverse(c, r);
    assert forall|i: u64| #[trigger] bit64(fm & opp, i) == bit64(fm, i) by {
        lemma_bit_ops(fm, opp, i);
        lemma_mask_of_bit(|j: u64| is_flipped(mine, opp, c, r, col_of(j), row_of(j)), i);
        if bit64(fm, i) {
            lemma_idx_of_cell(i);
            let e = choose|e: int|
                0 <= e < 8 && crate::rules::ray_flips(mine, opp, c, r, e, col_of(i), row_of(i), 8);
            lemma_flips_opp(mine, opp, c, r, e, col_of(i), row_of(i), 8);
        }
    }
    lemma_bits_eq(fm & opp, fm);
    assert forall|i: u64| #[trigger] bit64(fm & mine, i) == bit64(0u64, i) by {
        lemma_bit_ops(fm, mine, i);
        lemma_bit_ops(fm, opp, i);
        lemma_bit_ops(mine, opp, i);
        lemma_bit_ops(0, 0, i);
    }
    lemma_bits_eq(fm & mine, 0);
    assert forall|i: u64| #[trigger] bit64(pos & mine, i) == bit64(0u64, i) by {
        lemma_bit_ops(pos, mine, i);
        lemma_bit_ops(mine, mine, cell_idx(c, r));
        lemma_bit_ops(0, 0, i);
        lemma_bit_ops(mine, 0, i);
        if i != cell_idx(c, r) {
            lemma_bit_ops(mine, 0, cell_idx(c, r));
        }
    }
    lemma_bits_eq(pos & mine, 0);
    assert forall|i: u64| #[trigger] bit64(pos & opp, i) == bit64(0u64, i) by {
        lemma_bit_ops(pos, opp, i);
        lemma_bit_ops(opp, opp, cell_idx(c, r));
        lemma_bit_ops(0, 0, i);
        lemma_bit_ops(opp, 0, i);
        if i != cell_idx(c, r) {
            lemma_bit_ops(opp, 0, cell_idx(c, r));
        }
    }
    lemma_bits_eq(pos & opp, 0);
    bv_apply(mine, opp, fm, pos);
    lemma_word_basics(apply_move(b, side, c, r).black, apply_move(b, side, c, r).white);
    lemma_word_basics((mine | pos) | fm, opp & !fm);
    lemma_word_basics(mine | opp, pos);
    lemma_word_basics(mine, opp);
    lemma_bit_ops(mine | opp, pos, cell_idx(c, r));
    lemma_ones_disjoint(mine | opp, pos);
    lemma_ones_single(cell_idx(c, r));
}

/// What the topmost candidate of a non-empty mask of legal moves gives:
/// a legal cell whose move fills one more cell of the board.
pub proof fn lemma_top_facts(b: BitBoard, side: Side, mask: u64)
    requires
        b.inv(),
        mask != 0,
        mask & legal_mask(b.mine_of(side), b.opp_of(side)) == mask,
    ensures
        top_idx(mask) < 64,
        bit64(mask, top_idx(mask)),
        in_board(col_of(top_idx(mask)), row_of(top_idx(mask))),
        1u64 << top_idx(mask) == 1u64 << cell_idx(col_of(top_idx(mask)), row_of(top_idx(mask))),
        is_legal(b.mine_of(side), b.opp_of(side), col_of(top_idx(mask)), row_of(top_idx(mask))),
        apply_move(b, side, col_of(top_idx(mask)), row_of(top_idx(mask))).inv(),
        ones(b.black | b.white) + 1 == ones(
            apply_move(b, side, col_of(top_idx(mask)), row_of(top_idx(mask))).black | apply_move(
                b,
                side,
                col_of(top_idx(mask)),
                row_of(top_idx(mask)),
            ).white,
        ),
        ones(b.black | b.white) <= 63,
        ones(mask & !(1u64 << top_idx(mask))) == ones(mask) - 1,
{
    lemma_top_bit(mask);
    let t = top_idx(mask);
    lemma_idx_of_cell(t);
    let c = col_of(t);
    let r = row_of(t);
    lemma_bit_ops(mask, legal_mask(b.mine_of(side), b.opp_of(side)), t);
    lemma_legal_mask_bit(b.mine_of(side), b.opp_of(side), c, r);
    lemma_apply_move_props(b, side, c, r);
    lemma_ones_le_64(
        apply_move(b, side, c, r).black | apply_move(b, side, c, r).white,
    );
    bv_top(mask, t);
    lemma_word_basics(mask & !(1u64 << t), 1u64 << t);
    lemma_ones_disjoint(mask & !(1u64 << t), 1u64 << t);
    lemma_ones_single(t);
}

/// A legal move flips at least one piece, every flipped piece moves from
/// the opponent's plane to the mover's, and the counts change accordingly:
/// the mover gains the placed piece plus the flips, the opponent loses
/// exactly the flips.
pub proof fn lemma_move_counts(b: BitBoard, side: Side, c: int, r: int)
    requires
        b.inv(),
        in_board(c, r),
        is_legal(b.mine_of(side), b.opp_of(side), c, r),
    ensures
        flip_mask(b.mine_of(side), b.opp_of(side), c, r) != 0,
        ones(flip_mask(b.mine_of(side), b.opp_of(side), c, r)) >= 1,
        flip_mask(b.mine_of(side), b.opp_of(side), c, r) & b.opp_of(side) == flip_mask(
            b.mine_of(side),
            b.opp_of(side),
            c,
            r,
        ),
        flip_mask(b.mine_of(side), b.opp_of(side), c, r) & b.mine_of(side) == 0,
        ones(apply_move(b, side, c, r).mine_of(side)) == ones(b.mine_of(side)) + 1 + ones(
            flip_mask(b.mine_of(side), b.opp_of(side), c, r),
        ),
        ones(apply_move(b, side, c, r).opp_of(side)) == ones(b.opp_of(side)) - ones(
            flip_mask(b.mine_of(side), b.opp_of(side), c, r),
        ),
        apply_move(b, side, c, r).inv(),
{
    let mine = b.mine_of(side);
    let opp = b.opp_of(side);
    let fm = flip_mask(mine, opp, c, r);
    let pos = 1u64 << cell_idx(c, r);
    lemma_word_basics(b.black, b.white);
    lemma_apply_move_props(b, side, c, r);
    lemma_cell_idx_inverse(c, r);
    // the first cell of some capturing run is flipped
    let d = choose|d: int| 0 <= d < 8 && captures_dir(mine, opp, c, r, d);
    let c1 = c + dc(d);
    let r1 = r + dr(d);
    assert(chain(mine, opp, c1, r1, d, 8));
    assert(crate::rules::ray_flips(mine, opp, c, r, d, c1, r1, 8));
    assert(is_flipped(mine, opp, c, r, c1, r1));
    assert(occ(opp, c1, r1));
    lemma_mask_of_bit(
        |j: u64| is_flipped(mine, opp, c, r, col_of(j), row_of(j)),
        cell_idx(c1, r1),
    );
    lemma_cell_idx_inverse(c1, r1);
    assert(bit64(fm, cell_idx(c1, r1)));
    lemma_bit_ops(0, 0, cell_idx(c1, r1));
    assert(fm != 0);
    crate::bits::lemma_ones_zero(fm);
    // re-derive the disjointness facts and split the counts
    assert forall|i: u64| #[trigger] bit64(fm & opp, i) == bit64(fm, i) by {
        lemma_bit_ops(fm, opp, i);
        lemma_mask_of_bit(|j: u64| is_flipped(mine, opp, c, r, col_of(j), row_of(j)), i);
        if bit64(fm, i) {
            lemma_idx_of_cell(i);
            let e = choose|e: int|
                0 <= e < 8 && crate::rules::ray_flips(mine, opp, c, r, e, col_of(i), row_of(i), 8);
            lemma_flips_opp(mine, opp, c, r, e, col_of(i), row_of(i), 8);
        }
    }
    lemma_bits_eq(fm & opp, fm);
    assert forall|i: u64| #[trigger] bit64(fm & mine, i) == bit64(0u64, i) by {
        lemma_bit_ops(fm, mine, i);
        lemma_bit_ops(fm, opp, i);
        lemma_bit_ops(mine, opp, i);
        lemma_bit_ops(0, 0, i);
    }
    lemma_bits_eq(fm & mine, 0);
    assert forall|i: u64| #[trigger] bit64(pos & mine, i) == bit64(0u64, i) by {
        lemma_bit_ops(pos, mine, i);
        lemma_bit_ops(mine, mine, cell_idx(c, r));
        lemma_bit_ops(0, 0, i);
        lemma_bit_ops(mine, 0, i);
        if i != cell_idx(c, r) {
            lemma_bit_ops(mine, 0, cell_idx(c, r));
        }
    }
    lemma_bits_eq(pos & mine, 0);
    assert forall|i: u64| #[trigger] bit64(pos & opp, i) == bit64(0u64, i) by {
        lemma_bit_ops(pos, opp, i);
        lemma_bit_ops(opp, opp, cell_idx(c, r));
        lemma_bit_ops(0, 0, i);
        lemma_bit_ops(opp, 0, i);
        if i != cell_idx(c, r) {
            lemma_bit_ops(opp, 0, cell_idx(c, r));
        }
    }
    lemma_bits_eq(pos & opp, 0);
    lemma_word_basics(mine, opp);
    bv_apply(mine, opp, fm, pos);
    // mover: mine, the placed piece and the flips are pairwise disjoint
    lemma_word_basics(mine, pos);
    lemma_ones_disjoint(mine, pos);
    lemma_ones_single(cell_idx(c, r));
    lemma_ones_disjoint(mine | pos, fm);
    // opponent: the flips leave, the rest stays
    lemma_word_basics(opp & !fm, fm);
    lemma_ones_disjoint(opp & !fm, fm);
}

} // verus!
