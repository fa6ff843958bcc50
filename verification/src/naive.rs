//! A straightforward cell-by-cell board, kept as a second implementation
//! of the same capability for differential testing: its move test and move
//! application are proved against the very same rules as the bitboard.

use crate::bits::{bit64, lemma_bit_ops, lemma_bits_eq};
use crate::board::{apply_move, BitBoard, Side};
use crate::rules::{captures_dir, cell_idx, chain, col_of, dc, dr, flip_mask, headroom, in_board,
    is_flipped, is_legal, lemma_cell_idx_inverse, lemma_chain_mono, lemma_flips_in_run,
    lemma_flips_to_chain, lemma_idx_of_cell, lemma_mask_of_bit, lemma_ray_one, lemma_ray_shift,
    lemma_run_chain, lemma_run_extend, lemma_run_flips, lemma_walk_stops, mask_of, occ, ray_c,
    ray_r, row_of, run_opp};
use crate::text::{glyph_ok, text_ok};
use vstd::prelude::*;

verus! {

/// One cell of the grid: empty, or holding one side's piece.
#[derive(Debug, Copy, Clone, Eq, PartialEq, Hash, Structural)]
pub enum Cell {
    Vacant,
    Occupied(Side),
}

/// The cell a glyph decodes to, for the glyphs the format accepts.
pub open spec fn cell_of_char(ch: char) -> Cell {
    if ch == '\u{25cf}' {
        Cell::Occupied(Side::Black)
    } else if ch == '\u{25cb}' {
        Cell::Occupied(Side::White)
    } else {
        Cell::Vacant
    }
}

impl Cell {
    /// Decode one glyph; unknown glyphs are rejected.
    pub fn from_char(ch: char) -> (r: Result<Cell, ()>)
        ensures
            r is Ok <==> glyph_ok(ch),
            r is Ok ==> r->Ok_0 == cell_of_char(ch),
    {
        if ch == '_' || ch == '*' {
            Ok(Cell::Vacant)
        } else if ch == '\u{25cf}' {
            Ok(Cell::Occupied(Side::Black))
        } else if ch == '\u{25cb}' {
            Ok(Cell::Occupied(Side::White))
        } else {
            Err(())
        }
    }
}

/// The dark plane that a cell grid denotes.
pub open spec fn black_cells(s: Seq<Cell>) -> u64 {
    mask_of(|i: u64| i < 64 && s[63 - i] == Cell::Occupied(Side::Black))
}

/// The light plane that a cell grid denotes.
pub open spec fn white_cells(s: Seq<Cell>) -> u64 {
    mask_of(|i: u64| i < 64 && s[63 - i] == Cell::Occupied(Side::White))
}

/// The bitboard that a cell grid denotes.
pub open spec fn planes(s: Seq<Cell>) -> BitBoard {
    BitBoard { black: black_cells(s), white: white_cells(s) }
}

/// What each plane bit says of its grid cell.
pub proof fn lemma_cells_bit(s: Seq<Cell>, c: int, r: int)
    requires
        in_board(c, r),
    ensures
        bit64(black_cells(s), cell_idx(c, r)) == (s[8 * r + c] == Cell::Occupied(Side::Black)),
        bit64(white_cells(s), cell_idx(c, r)) == (s[8 * r + c] == Cell::Occupied(Side::White)),
{
    lemma_cell_idx_inverse(c, r);
    lemma_mask_of_bit(
        |i: u64| i < 64 && s[63 - i] == Cell::Occupied(Side::Black),
        cell_idx(c, r),
    );
    lemma_mask_of_bit(
        |i: u64| i < 64 && s[63 - i] == Cell::Occupied(Side::White),
        cell_idx(c, r),
    );
}

/// A grid's two planes never overlap: a cell holds one value.
pub proof fn lemma_cells_disjoint(s: Seq<Cell>)
    ensures
        planes(s).inv(),
{
    assert forall|i: u64| #[trigger]
        bit64(black_cells(s) & white_cells(s), i) == bit64(0u64, i) by {
        lemma_bit_ops(black_cells(s), white_cells(s), i);
        lemma_bit_ops(0, 0, i);
        lemma_mask_of_bit(|j: u64| j < 64 && s[63 - j] == Cell::Occupied(Side::Black), i);
        lemma_mask_of_bit(|j: u64| j < 64 && s[63 - j] == Cell::Occupied(Side::White), i);
    }
    lemma_bits_eq(black_cells(s) & white_cells(s), 0);
}

/// One step along direction `d` from `(cc, rr)`, or nothing at the edge.
fn dir_step(cc: usize, rr: usize, d: usize) -> (res: Option<(usize, usize)>)
    requires
        cc < 8,
        rr < 8,
        d < 8,
    ensures
        res is Some <==> in_board(cc + dc(d as int), rr + dr(d as int)),
        res is Some ==> (res->0).0 == cc + dc(d as int) && (res->0).1 == rr + dr(d as int),
{
    match d {
        0 => if cc >= 1 {
            Some((cc - 1, rr))
        } else {
            None
        },
        1 => if cc <= 6 && rr >= 1 {
            Some((cc + 1, rr - 1))
        } else {
            None
        },
        2 => if rr >= 1 {
            Some((cc, rr - 1))
        } else {
            None
        },
        3 => if cc >= 1 && rr >= 1 {
            Some((cc - 1, rr - 1))
        } else {
            None
        },
        4 => if cc <= 6 {
            Some((cc + 1, rr))
        } else {
            None
        },
        5 => if cc >= 1 && rr <= 6 {
            Some((cc - 1, rr + 1))
        } else {
            None
        },
        6 => if rr <= 6 {
            Some((cc, rr + 1))
        } else {
            None
        },
        _ => if cc <= 6 && rr <= 6 {
            Some((cc + 1, rr + 1))
        } else {
            None
        },
    }
}

/// What a directional scan may report: zero when nothing is captured in
/// that direction, else the length of the captured run.
pub open spec fn dir_count_ok(b: BitBoard, side: Side, col: int, row: int, d: int, n: nat) -> bool {
    &&& (n >= 1 ==> run_opp(b.opp_of(side), col, row, d, n) && occ(
        b.mine_of(side),
        ray_c(col, d, n + 1),
        ray_r(row, d, n + 1),
    ) && n <= 7)
    &&& (n >= 1 <==> captures_dir(b.mine_of(side), b.opp_of(side), col, row, d))
}

/// The one grid that the starting position denotes.
#[derive(Debug, Clone, Eq, PartialEq, Hash)]
pub struct NaiveBoard {
    pub cells: Vec<Cell>,
}

impl NaiveBoard {
    /// A grid is well formed when it covers the whole board.
    pub open spec fn inv(&self) -> bool {
        self.cells@.len() == 64
    }

    /// The standard four-piece starting position.
    pub fn new() -> (b: NaiveBoard)
        ensures
            b.inv(),
            forall|j: int|
                0 <= j < 64 ==> b.cells@[j] == (if j == 27 || j == 36 {
                    Cell::Occupied(Side::White)
                } else if j == 28 || j == 35 {
                    Cell::Occupied(Side::Black)
                } else {
                    Cell::Vacant
                }),
    {
        let mut cells: Vec<Cell> = Vec::new();
        let mut j: usize = 0;
        while j < 64
            invariant
                cells@.len() == j,
                j <= 64,
                forall|k: int| 0 <= k < j ==> cells@[k] == Cell::Vacant,
            decreases 64 - j,
        {
            cells.push(Cell::Vacant);
            j = j + 1;
        }
        cells[27] = Cell::Occupied(Side::White);
        cells[28] = Cell::Occupied(Side::Black);
        cells[35] = Cell::Occupied(Side::Black);
        cells[36] = Cell::Occupied(Side::White);
        NaiveBoard { cells }
    }

    /// Walk direction `d` from `(col, row)`: the length of the opponent run
    /// that placing `side` there would capture, or zero if none.
    fn check_one_dir(&self, side: Side, col: usize, row: usize, d: usize) -> (n: usize)
        requires
            self.inv(),
            col < 8,
            row < 8,
            d < 8,
        ensures
            dir_count_ok(planes(self.cells@), side, col as int, row as int, d as int, n as nat),
    {
        let ghost b0 = planes(self.cells@);
        let ghost mine = b0.mine_of(side);
        let ghost opp = b0.opp_of(side);
        let ghost dd = d as int;
        let mut n: usize = 0;
        let mut cc = col;
        let mut rr = row;
        proof {
            lemma_ray_one(col as int, row as int, dd);
            lemma_cells_disjoint(self.cells@);
            crate::bits::lemma_word_basics(b0.black, b0.white);
        }
        loop
            invariant_except_break
                self.inv(),
                col < 8,
                row < 8,
                d < 8,
                dd == d as int,
                b0 == planes(self.cells@),
                mine == b0.mine_of(side),
                opp == b0.opp_of(side),
                cc < 8,
                rr < 8,
                n <= 7,
                cc == ray_c(col as int, dd, n as nat),
                rr == ray_r(row as int, dd, n as nat),
                mine & opp == 0,
                run_opp(opp, col as int, row as int, dd, n as nat),
                headroom(cc as int, rr as int, dd) == headroom(col as int, row as int, dd) - n,
                headroom(col as int, row as int, dd) <= 7,
            ensures
                dir_count_ok(b0, side, col as int, row as int, dd, n as nat),
            decreases 8 - n,
        {
            proof {
                lemma_ray_shift(col as int, row as int, dd, n as nat + 1);
            }
            match dir_step(cc, rr, d) {
                None => {
                    proof {
                        assert(!in_board(cc + dc(dd), rr + dr(dd)));
                        assert(ray_c(col as int, dd, (n + 1) as nat) == cc + dc(dd)) by {
                            assert(ray_c(col as int, dd, (n + 1) as nat) == ray_c(
                                col as int,
                                dd,
                                n as nat,
                            ) + dc(dd));
                        }
                        assert(ray_r(row as int, dd, (n + 1) as nat) == rr + dr(dd));
                        lemma_walk_stops(mine, opp, col as int, row as int, dd, n as nat, 8);
                    }
                    n = 0;
                    break ;
                },
                Some(step) => {
                    let (nc, nr) = step;
                    let cell = self.cells[nr * 8 + nc];
                    proof {
                        lemma_cells_bit(self.cells@, nc as int, nr as int);
                        assert(ray_c(col as int, dd, (n + 1) as nat) == ray_c(
                            col as int,
                            dd,
                            n as nat,
                        ) + dc(dd));
                        assert(ray_r(row as int, dd, (n + 1) as nat) == ray_r(
                            row as int,
                            dd,
                            n as nat,
                        ) + dr(dd));
                    }
                    let hit_mine = match cell {
                        Cell::Occupied(s) => if s == side {
                            1
                        } else {
                            2
                        },
                        Cell::Vacant => 0,
                    };
                    if hit_mine == 0 {
                        proof {
                            assert(!occ(opp, nc as int, nr as int) && !occ(
                                mine,
                                nc as int,
                                nr as int,
                            ));
                            lemma_walk_stops(mine, opp, col as int, row as int, dd, n as nat, 8);
                        }
                        n = 0;
                        break ;
                    } else if hit_mine == 1 {
                        proof {
                            assert(occ(mine, nc as int, nr as int));
                            if n >= 1 {
                                lemma_run_chain(mine, opp, col as int, row as int, dd, n as nat);
                                lemma_chain_mono(
                                    mine,
                                    opp,
                                    col as int + dc(dd),
                                    row as int + dr(dd),
                                    dd,
                                    (n - 1) as nat,
                                    8,
                                );
                                lemma_ray_one(col as int, row as int, dd);
                            } else {
                                lemma_ray_one(col as int, row as int, dd);
                                if chain(mine, opp, col as int + dc(dd), row as int + dr(dd), dd, 8)
                                    {
                                    crate::rules::lemma_occ_disjoint(
                                        mine,
                                        opp,
                                        nc as int,
                                        nr as int,
                                    );
                                }
                            }
                        }
                        break ;
                    } else {
                        proof {
                            assert(occ(opp, nc as int, nr as int));
                            lemma_run_extend(opp, col as int, row as int, dd, n as nat);
                        }
                        n = n + 1;
                        cc = nc;
                        rr = nr;
                    }
                },
            }
        }
        n
    }

    /// Would placing `side` at `(col, row)` capture in some direction?
    /// (The cell's own emptiness is checked by the caller, as in
    /// candidate listing.)
    pub fn can_put(&self, col: usize, row: usize, side: Side) -> (r: bool)
        requires
            self.inv(),
            col < 8,
            row < 8,
        ensures
            r == exists|d: int|
                0 <= d < 8 && captures_dir(
                    planes(self.cells@).mine_of(side),
                    planes(self.cells@).opp_of(side),
                    col as int,
                    row as int,
                    d,
                ),
    {
        let mut d: usize = 0;
        while d < 8
            invariant
                self.inv(),
                col < 8,
                row < 8,
                d <= 8,
                forall|e: int|
                    0 <= e < d ==> !captures_dir(
                        planes(self.cells@).mine_of(side),
                        planes(self.cells@).opp_of(side),
                        col as int,
                        row as int,
                        e,
                    ),
            decreases 8 - d,
        {
            if self.check_one_dir(side, col, row, d) > 0 {
                return true;
            }
            d = d + 1;
        }
        false
    }
}

/// The cells already rewritten after the placement itself and the flips of
/// the first `d` directions.
spec fn w_done(b0: BitBoard, side: Side, col: int, row: int, d: int, c2: int, r2: int) -> bool {
    (c2 == col && r2 == row) || exists|e: int|
        0 <= e < d && crate::rules::ray_flips(
            b0.mine_of(side),
            b0.opp_of(side),
            col,
            row,
            e,
            c2,
            r2,
            8,
        )
}

impl NaiveBoard {
    /// Place a piece of `side` on the (empty, legal) cell `(col, row)` and
    /// flip every captured run: the grid afterwards denotes exactly the
    /// board that the bitboard engine's move application produces.
    pub fn put(&mut self, col: usize, row: usize, side: Side)
        requires
            old(self).inv(),
            col < 8,
            row < 8,
            is_legal(
                planes(old(self).cells@).mine_of(side),
                planes(old(self).cells@).opp_of(side),
                col as int,
                row as int,
            ),
        ensures
            final(self).inv(),
            planes(final(self).cells@) == apply_move(
                planes(old(self).cells@),
                side,
                col as int,
                row as int,
            ),
    {
        let ghost s0 = self.cells@;
        let ghost b0 = planes(s0);
        let ghost mine0 = b0.mine_of(side);
        let ghost opp0 = b0.opp_of(side);
        proof {
            lemma_cells_disjoint(s0);
            crate::bits::lemma_word_basics(b0.black, b0.white);
        }
        let mut counts: Vec<usize> = Vec::new();
        let mut d: usize = 0;
        while d < 8
            invariant
                self.inv(),
                *self == *old(self),
                col < 8,
                row < 8,
                d <= 8,
                s0 == self.cells@,
                b0 == planes(s0),
                counts@.len() == d,
                forall|e: int|
                    0 <= e < d ==> dir_count_ok(
                        b0,
                        side,
                        col as int,
                        row as int,
                        e,
                        #[trigger] counts@[e] as nat,
                    ),
            decreases 8 - d,
        {
            let n = self.check_one_dir(side, col, row, d);
            counts.push(n);
            d = d + 1;
        }
        self.cells[row * 8 + col] = Cell::Occupied(side);
        proof {
            assert forall|c2: int, r2: int| in_board(c2, r2) implies #[trigger] self.cells@[8 * r2
                + c2] == (if w_done(b0, side, col as int, row as int, 0, c2, r2) {
                Cell::Occupied(side)
            } else {
                s0[8 * r2 + c2]
            }) by {
            }
        }
        let mut d: usize = 0;
        while d < 8
            invariant
                self.inv(),
                col < 8,
                row < 8,
                d <= 8,
                counts@.len() == 8,
                b0 == planes(s0),
                mine0 == b0.mine_of(side),
                opp0 == b0.opp_of(side),
                mine0 & opp0 == 0,
                s0.len() == 64,
                forall|e: int|
                    0 <= e < 8 ==> dir_count_ok(
                        b0,
                        side,
                        col as int,
                        row as int,
                        e,
                        #[trigger] counts@[e] as nat,
                    ),
                forall|c2: int, r2: int|
                    in_board(c2, r2) ==> #[trigger] self.cells@[8 * r2 + c2] == (if w_done(
                        b0,
                        side,
                        col as int,
                        row as int,
                        d as int,
                        c2,
                        r2,
                    ) {
                        Cell::Occupied(side)
                    } else {
                        s0[8 * r2 + c2]
                    }),
            decreases 8 - d,
        {
            let ghost dd = d as int;
            let n = counts[d];
            if n > 0 {
                let mut cc = col;
                let mut rr = row;
                let mut t: usize = 0;
                proof {
                    lemma_ray_one(col as int, row as int, dd);
                }
                while t < n
                    invariant
                        self.inv(),
                        col < 8,
                        row < 8,
                        d < 8,
                        dd == d as int,
                        t <= n,
                        n <= 7,
                        cc < 8,
                        rr < 8,
                        b0 == planes(s0),
                        mine0 == b0.mine_of(side),
                        opp0 == b0.opp_of(side),
                        s0.len() == 64,
                        run_opp(opp0, col as int, row as int, dd, n as nat),
                        cc == ray_c(col as int, dd, t as nat),
                        rr == ray_r(row as int, dd, t as nat),
                        forall|c2: int, r2: int|
                            in_board(c2, r2) ==> #[trigger] self.cells@[8 * r2 + c2] == (if w_done(
                                b0,
                                side,
                                col as int,
                                row as int,
                                dd,
                                c2,
                                r2,
                            ) || (exists|tt: nat|
                                1 <= tt <= t && c2 == ray_c(col as int, dd, tt) && r2 == ray_r(
                                    row as int,
                                    dd,
                                    tt,
                                )) {
                                Cell::Occupied(side)
                            } else {
                                s0[8 * r2 + c2]
                            }),
                    decreases n - t,
                {
                    proof {
                        crate::rules::lemma_run_cells(
                            opp0,
                            col as int,
                            row as int,
                            dd,
                            n as nat,
                            (t + 1) as nat,
                        );
                        assert(ray_c(col as int, dd, (t + 1) as nat) == ray_c(
                            col as int,
                            dd,
                            t as nat,
                        ) + dc(dd));
                        assert(ray_r(row as int, dd, (t + 1) as nat) == ray_r(
                            row as int,
                            dd,
                            t as nat,
                        ) + dr(dd));
                    }
                    match dir_step(cc, rr, d) {
                        Some(step) => {
                            let (nc, nr) = step;
                            let ghost before = self.cells@;
                            self.cells[nr * 8 + nc] = Cell::Occupied(side);
                            proof {
                                assert forall|c2: int, r2: int| in_board(c2, r2) implies #[trigger]
                                    self.cells@[8 * r2 + c2] == (if w_done(
                                    b0,
                                    side,
                                    col as int,
                                    row as int,
                                    dd,
                                    c2,
                                    r2,
                                ) || (exists|tt: nat|
                                    1 <= tt <= t + 1 && c2 == ray_c(col as int, dd, tt) && r2
                                        == ray_r(row as int, dd, tt)) {
                                    Cell::Occupied(side)
                                } else {
                                    s0[8 * r2 + c2]
                                }) by {
                                    if c2 == nc && r2 == nr {
                                        assert(1 <= (t + 1) as nat <= t + 1 && c2 == ray_c(
                                            col as int,
                                            dd,
                                            (t + 1) as nat,
                                        ) && r2 == ray_r(row as int, dd, (t + 1) as nat));
                                    } else {
                                        assert(8 * r2 + c2 != 8 * (nr as int) + nc);
                                        assert(self.cells@[8 * r2 + c2] == before[8 * r2 + c2]);
                                    }
                                }
                            }
                            cc = nc;
                            rr = nr;
                            t = t + 1;
                        },
                        None => {
                            proof {
                                assert(occ(
                                    opp0,
                                    ray_c(col as int, dd, (t + 1) as nat),
                                    ray_r(row as int, dd, (t + 1) as nat),
                                ));
                                assert(false);
                            }
                        },
                    }
                }
                proof {
                    assert(occ(
                        mine0,
                        ray_c(col as int, dd, n as nat + 1),
                        ray_r(row as int, dd, n as nat + 1),
                    ));
                    assert forall|c2: int, r2: int| in_board(c2, r2) implies ((w_done(
                        b0,
                        side,
                        col as int,
                        row as int,
                        dd,
                        c2,
                        r2,
                    ) || (exists|tt: nat|
                        1 <= tt <= n && c2 == ray_c(col as int, dd, tt) && r2 == ray_r(
                            row as int,
                            dd,
                            tt,
                        ))) == w_done(b0, side, col as int, row as int, dd + 1, c2, r2)) by {
                        if exists|tt: nat|
                            1 <= tt <= n && c2 == ray_c(col as int, dd, tt) && r2 == ray_r(
                                row as int,
                                dd,
                                tt,
                            ) {
                            let tt = choose|tt: nat|
                                1 <= tt <= n && c2 == ray_c(col as int, dd, tt) && r2 == ray_r(
                                    row as int,
                                    dd,
                                    tt,
                                );
                            lemma_run_flips(mine0, opp0, col as int, row as int, dd, n as nat, tt);
                            assert(crate::rules::ray_flips(
                                mine0,
                                opp0,
                                col as int,
                                row as int,
                                dd,
                                c2,
                                r2,
                                8,
                            ));
                        }
                        if w_done(b0, side, col as int, row as int, dd + 1, c2, r2) && !w_done(
                            b0,
                            side,
                            col as int,
                            row as int,
                            dd,
                            c2,
                            r2,
                        ) && !(c2 == col && r2 == row) {
                            let e = choose|e: int|
                                0 <= e < dd + 1 && crate::rules::ray_flips(
                                    mine0,
                                    opp0,
                                    col as int,
                                    row as int,
                                    e,
                                    c2,
                                    r2,
                                    8,
                                );
                            assert(e == dd);
                            lemma_flips_in_run(
                                mine0,
                                opp0,
                                col as int,
                                row as int,
                                dd,
                                n as nat,
                                c2,
                                r2,
                                8,
                            );
                        }
                    }
                }
            } else {
                proof {
                    assert forall|c2: int, r2: int| in_board(c2, r2) implies (w_done(
                        b0,
                        side,
                        col as int,
                        row as int,
                        dd,
                        c2,
                        r2,
                    ) == w_done(b0, side, col as int, row as int, dd + 1, c2, r2)) by {
                        if w_done(b0, side, col as int, row as int, dd + 1, c2, r2) && !(c2 == col
                            && r2 == row) {
                            let e = choose|e: int|
                                0 <= e < dd + 1 && crate::rules::ray_flips(
                                    mine0,
                                    opp0,
                                    col as int,
                                    row as int,
                                    e,
                                    c2,
                                    r2,
                                    8,
                                );
                            if e == dd {
                                lemma_flips_to_chain(
                                    mine0,
                                    opp0,
                                    col as int,
                                    row as int,
                                    dd,
                                    c2,
                                    r2,
                                    8,
                                );
                            }
                        }
                    }
                }
            }
            d = d + 1;
        }
        proof {
            let sf = self.cells@;
            let target = apply_move(b0, side, col as int, row as int);
            let fm = flip_mask(mine0, opp0, col as int, row as int);
            lemma_cell_idx_inverse(col as int, row as int);
            let pos = 1u64 << cell_idx(col as int, row as int);
            assert forall|i: u64| #[trigger] bit64(black_cells(sf), i) == bit64(target.black, i) by {
                lemma_final_bit(b0, side, col as int, row as int, s0, sf, i, Side::Black);
            }
            assert forall|i: u64| #[trigger] bit64(white_cells(sf), i) == bit64(target.white, i) by {
                lemma_final_bit(b0, side, col as int, row as int, s0, sf, i, Side::White);
            }
            lemma_bits_eq(black_cells(sf), target.black);
            lemma_bits_eq(white_cells(sf), target.white);
        }
    }
}

/// One bit of the rewritten grid against the same bit of the bitboard
/// move application.
proof fn lemma_final_bit(
    b0: BitBoard,
    side: Side,
    col: int,
    row: int,
    s0: Seq<Cell>,
    sf: Seq<Cell>,
    i: u64,
    plane: Side,
)
    requires
        s0.len() == 64,
        sf.len() == 64,
        b0 == planes(s0),
        b0.inv(),
        in_board(col, row),
        is_legal(b0.mine_of(side), b0.opp_of(side), col, row),
        forall|c2: int, r2: int|
            in_board(c2, r2) ==> #[trigger] sf[8 * r2 + c2] == (if w_done(
                b0,
                side,
                col,
                row,
                8,
                c2,
                r2,
            ) {
                Cell::Occupied(side)
            } else {
                s0[8 * r2 + c2]
            }),
    ensures
        plane == Side::Black ==> bit64(black_cells(sf), i) == bit64(
            apply_move(b0, side, col, row).black,
            i,
        ),
        plane == Side::White ==> bit64(white_cells(sf), i) == bit64(
            apply_move(b0, side, col, row).white,
            i,
        ),
{
    let mine0 = b0.mine_of(side);
    let opp0 = b0.opp_of(side);
    let fm = flip_mask(mine0, opp0, col, row);
    lemma_cell_idx_inverse(col, row);
    let pos = 1u64 << cell_idx(col, row);
    crate::bits::lemma_word_basics(b0.black, b0.white);
    lemma_mask_of_bit(|j: u64| j < 64 && sf[63 - j] == Cell::Occupied(Side::Black), i);
    lemma_mask_of_bit(|j: u64| j < 64 && sf[63 - j] == Cell::Occupied(Side::White), i);
    lemma_mask_of_bit(
        |j: u64| is_flipped(mine0, opp0, col, row, col_of(j), row_of(j)),
        i,
    );
    lemma_bit_ops(mine0 | pos, fm, i);
    lemma_bit_ops(mine0, pos, i);
    lemma_bit_ops(opp0, !fm, i);
    lemma_bit_ops(fm, fm, i);
    lemma_bit_ops(fm, opp0, i);
    lemma_bit_ops(0, 0, i);
    lemma_bit_ops(mine0, 0, cell_idx(col, row));
    if i < 64 {
        lemma_idx_of_cell(i);
        let c2 = col_of(i);
        let r2 = row_of(i);
        lemma_cells_bit(sf, c2, r2);
        lemma_cells_bit(s0, c2, r2);
        assert(sf[8 * r2 + c2] == (if w_done(b0, side, col, row, 8, c2, r2) {
            Cell::Occupied(side)
        } else {
            s0[8 * r2 + c2]
        }));
        assert(w_done(b0, side, col, row, 8, c2, r2) == ((c2 == col && r2 == row) || is_flipped(
            mine0,
            opp0,
            col,
            row,
            c2,
            r2,
        )));
        if i == cell_idx(col, row) {
            lemma_cell_idx_inverse(col, row);
            assert(c2 == col && r2 == row) by {
                crate::rules::lemma_cell_idx_injective(c2, r2, col, row);
            }
        } else {
            assert(!(c2 == col && r2 == row));
        }
        if is_flipped(mine0, opp0, col, row, c2, r2) {
            let e = choose|e: int|
                0 <= e < 8 && crate::rules::ray_flips(mine0, opp0, col, row, e, c2, r2, 8);
            crate::rules::lemma_flips_opp(mine0, opp0, col, row, e, c2, r2, 8);
        }
    }
}

/// How many pieces of `side` stand in the grid from index `k` on.
pub open spec fn pieces_from(s: Seq<Cell>, side: Side, k: int) -> nat
    decreases s.len() - k,
{
    if k < 0 || k >= s.len() {
        0
    } else {
        (if s[k] == Cell::Occupied(side) {
            1nat
        } else {
            0nat
        }) + pieces_from(s, side, k + 1)
    }
}

impl NaiveBoard {
    /// Every empty cell on which `side` has a capturing move, as
    /// `(column, row)` pairs in row-major order.
    pub fn list_candidates(&self, side: Side) -> (res: Vec<(usize, usize)>)
        requires
            self.inv(),
        ensures
            forall|c2: int, r2: int|
                in_board(c2, r2) ==> ((exists|k: int|
                    0 <= k < res@.len() && #[trigger] res@[k] == (c2 as usize, r2 as usize))
                    <==> is_legal(
                    planes(self.cells@).mine_of(side),
                    planes(self.cells@).opp_of(side),
                    c2,
                    r2,
                )),
    {
        let ghost b0 = planes(self.cells@);
        let mut res: Vec<(usize, usize)> = Vec::new();
        let mut row: usize = 0;
        proof {
            lemma_cells_disjoint(self.cells@);
        }
        while row < 8
            invariant
                self.inv(),
                row <= 8,
                b0 == planes(self.cells@),
                forall|c2: int, r2: int|
                    in_board(c2, r2) ==> ((exists|k: int|
                        0 <= k < res@.len() && #[trigger] res@[k] == (c2 as usize, r2 as usize))
                        <==> (r2 < row && is_legal(b0.mine_of(side), b0.opp_of(side), c2, r2))),
            decreases 8 - row,
        {
            let mut col: usize = 0;
            while col < 8
                invariant
                    self.inv(),
                    row < 8,
                    col <= 8,
                    b0 == planes(self.cells@),
                    forall|c2: int, r2: int|
                        in_board(c2, r2) ==> ((exists|k: int|
                            0 <= k < res@.len() && #[trigger] res@[k] == (
                            c2 as usize,
                            r2 as usize,
                        )) <==> ((r2 < row || (r2 == row && c2 < col)) && is_legal(
                            b0.mine_of(side),
                            b0.opp_of(side),
                            c2,
                            r2,
                        ))),
                decreases 8 - col,
            {
                let cell = self.cells[row * 8 + col];
                let vacant = match cell {
                    Cell::Vacant => true,
                    Cell::Occupied(_) => false,
                };
                proof {
                    lemma_cells_bit(self.cells@, col as int, row as int);
                }
                let ghost old_res = res@;
                if vacant && self.can_put(col, row, side) {
                    res.push((col, row));
                    proof {
                        assert(is_legal(b0.mine_of(side), b0.opp_of(side), col as int, row as int));
                        assert(res@[res@.len() - 1] == (col, row));
                    }
                } else {
                    proof {
                        assert(!is_legal(
                            b0.mine_of(side),
                            b0.opp_of(side),
                            col as int,
                            row as int,
                        ));
                    }
                }
                proof {
                    assert forall|c2: int, r2: int| in_board(c2, r2) implies ((exists|k: int|
                        0 <= k < res@.len() && #[trigger] res@[k] == (c2 as usize, r2 as usize))
                        <==> ((r2 < row || (r2 == row && c2 < col + 1)) && is_legal(
                        b0.mine_of(side),
                        b0.opp_of(side),
                        c2,
                        r2,
                    ))) by {
                        if exists|k: int|
                            0 <= k < old_res.len() && #[trigger] old_res[k] == (
                            c2 as usize,
                            r2 as usize,
                        ) {
                            let k = choose|k: int|
                                0 <= k < old_res.len() && #[trigger] old_res[k] == (
                                c2 as usize,
                                r2 as usize,
                            );
                            assert(res@[k] == (c2 as usize, r2 as usize));
                        }
                    }
                }
                col = col + 1;
            }
            row = row + 1;
        }
        res
    }

    /// Count both sides' pieces by scanning the grid, dark first.
    pub fn count(&self) -> (t: (u8, u8))
        requires
            self.inv(),
        ensures
            t.0 == pieces_from(self.cells@, Side::Black, 0),
            t.1 == pieces_from(self.cells@, Side::White, 0),
    {
        let mut black: u8 = 0;
        let mut white: u8 = 0;
        let mut j: usize = 0;
        while j < 64
            invariant
                self.inv(),
                j <= 64,
                black + pieces_from(self.cells@, Side::Black, j as int) == pieces_from(
                    self.cells@,
                    Side::Black,
                    0,
                ),
                white + pieces_from(self.cells@, Side::White, j as int) == pieces_from(
                    self.cells@,
                    Side::White,
                    0,
                ),
                black <= j,
                white <= j,
            decreases 64 - j,
        {
            match self.cells[j] {
                Cell::Occupied(Side::Black) => {
                    black = black + 1;
                },
                Cell::Occupied(Side::White) => {
                    white = white + 1;
                },
                Cell::Vacant => {
                },
            }
            j = j + 1;
        }
        (black, white)
    }

    /// Decode a grid from its textual form; fails on any unknown glyph or
    /// on text too short for eight rows.
    pub fn from_chars(v: &Vec<char>) -> (r: Result<NaiveBoard, ()>)
        ensures
            r is Ok <==> text_ok(v@),
            r is Ok ==> r->Ok_0.inv() && forall|c2: int, r2: int|
                in_board(c2, r2) ==> #[trigger] r->Ok_0.cells@[8 * r2 + c2] == cell_of_char(
                    v@[r2 * 9 + c2],
                ),
    {
        if v.len() < 71 {
            return Err(());
        }
        if v.len() >= 72 && v[71] != '\n' {
            proof {
                assert(!text_ok(v@));
            }
            return Err(());
        }
        let mut cells: Vec<Cell> = Vec::new();
        let mut row: usize = 0;
        while row < 8
            invariant
                row <= 8,
                v@.len() >= 71,
                v@.len() >= 72 ==> v@[71] == '\n',
                cells@.len() == 8 * row,
                forall|r2: int, c2: int|
                    0 <= r2 < row && 0 <= c2 < 8 ==> glyph_ok(#[trigger] v@[r2 * 9 + c2])
                        && cells@[8 * r2 + c2] == cell_of_char(v@[r2 * 9 + c2]),
                forall|r2: int| 0 <= r2 < row && r2 < 7 ==> #[trigger] v@[r2 * 9 + 8] == '\n',
            decreases 8 - row,
        {
            let mut col: usize = 0;
            while col < 8
                invariant
                    row < 8,
                    col <= 8,
                    v@.len() >= 71,
                    cells@.len() == 8 * row + col,
                    forall|r2: int, c2: int|
                        0 <= r2 < row && 0 <= c2 < 8 ==> glyph_ok(#[trigger] v@[r2 * 9 + c2])
                            && cells@[8 * r2 + c2] == cell_of_char(v@[r2 * 9 + c2]),
                    forall|c2: int|
                        0 <= c2 < col ==> glyph_ok(#[trigger] v@[row * 9 + c2]) && cells@[8 * row
                            + c2] == cell_of_char(v@[row * 9 + c2]),
                decreases 8 - col,
            {
                let g = v[row * 9 + col];
                match Cell::from_char(g) {
                    Ok(cell) => {
                        cells.push(cell);
                    },
                    Err(_) => {
                        return Err(());
                    },
                }
                col = col + 1;
            }
            if row < 7 {
                if v[row * 9 + 8] != '\n' {
                    return Err(());
                }
            }
            row = row + 1;
        }
        proof {
            assert(text_ok(v@));
        }
        Ok(NaiveBoard { cells })
    }
}

proof fn bv_start_planes(i: u64)
    by (bit_vector)
    ensures
        bit64(0x0000000810000000u64, i) == (i == 35 || i == 28),
        bit64(0x0000001008000000u64, i) == (i == 36 || i == 27),
{
}

/// The scanning board's starting grid denotes exactly the bitboard's
/// starting position: the two implementations begin in agreement.
pub proof fn lemma_new_boards_agree(s: Seq<Cell>)
    requires
        s.len() == 64,
        forall|j: int|
            0 <= j < 64 ==> s[j] == (if j == 27 || j == 36 {
                Cell::Occupied(Side::White)
            } else if j == 28 || j == 35 {
                Cell::Occupied(Side::Black)
            } else {
                Cell::Vacant
            }),
    ensures
        planes(s) == (BitBoard { black: 0x0000000810000000u64, white: 0x0000001008000000u64 }),
{
    assert forall|i: u64| #[trigger]
        bit64(black_cells(s), i) == bit64(0x0000000810000000u64, i) by {
        lemma_mask_of_bit(|j: u64| j < 64 && s[63 - j] == Cell::Occupied(Side::Black), i);
        bv_start_planes(i);
    }
    assert forall|i: u64| #[trigger]
        bit64(white_cells(s), i) == bit64(0x0000001008000000u64, i) by {
        lemma_mask_of_bit(|j: u64| j < 64 && s[63 - j] == Cell::Occupied(Side::White), i);
        bv_start_planes(i);
    }
    lemma_bits_eq(black_cells(s), 0x0000000810000000u64);
    lemma_bits_eq(white_cells(s), 0x0000001008000000u64);
}

} // verus!
