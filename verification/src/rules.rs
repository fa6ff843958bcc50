//! The rules of the game, stated cell by cell.
//!
//! A plane is a `u64` with one bit per cell; cell `(c, r)` (column `c`, row
//! `r`, both from the top-left) lives at bit `63 - (8*r + c)`.  Legality and
//! capture are defined here by walking rays of cells, independently of the
//! bit-parallel code that implements them.

use crate::bits::bit64;
use vstd::prelude::*;

verus! {

pub open spec fn in_board(c: int, r: int) -> bool {
    0 <= c < 8 && 0 <= r < 8
}

/// Bit index of cell `(c, r)`.
pub open spec fn cell_idx(c: int, r: int) -> u64 {
    (63 - (8 * r + c)) as u64
}

/// Column of bit index `i`.
pub open spec fn col_of(i: u64) -> int {
    7 - (i as int % 8)
}

/// Row of bit index `i`.
pub open spec fn row_of(i: u64) -> int {
    7 - (i as int / 8)
}

/// Cell `(c, r)` is occupied on plane `p`.
pub open spec fn occ(p: u64, c: int, r: int) -> bool {
    in_board(c, r) && bit64(p, cell_idx(c, r))
}

/// Column step of direction `d` (eight directions, `0 <= d < 8`).
pub open spec fn dc(d: int) -> int {
    if d == 0 || d == 3 || d == 5 {
        -1
    } else if d == 1 || d == 4 || d == 7 {
        1
    } else {
        0
    }
}

/// Row step of direction `d`.
pub open spec fn dr(d: int) -> int {
    if d == 1 || d == 2 || d == 3 {
        -1
    } else if d == 5 || d == 6 || d == 7 {
        1
    } else {
        0
    }
}

/// Starting at cell `(c, r)` itself, a run of `opp` cells leads, within
/// `fuel` further steps along `d`, to a cell of `mine`.
pub open spec fn chain(mine: u64, opp: u64, c: int, r: int, d: int, fuel: nat) -> bool
    decreases fuel,
{
    occ(opp, c, r) && (occ(mine, c + dc(d), r + dr(d)) || (fuel > 0 && chain(
        mine,
        opp,
        c + dc(d),
        r + dr(d),
        d,
        (fuel - 1) as nat,
    )))
}

/// Placing at `(c, r)` captures at least one piece in direction `d`.
pub open spec fn captures_dir(mine: u64, opp: u64, c: int, r: int, d: int) -> bool {
    chain(mine, opp, c + dc(d), r + dr(d), d, 8)
}

/// Placing `mine` at `(c, r)` is a legal move.
pub open spec fn is_legal(mine: u64, opp: u64, c: int, r: int) -> bool {
    &&& in_board(c, r)
    &&& !occ(mine, c, r)
    &&& !occ(opp, c, r)
    &&& exists|d: int| 0 <= d < 8 && captures_dir(mine, opp, c, r, d)
}

/// Cell `(c2, r2)` lies on the run captured in direction `d` by placing at
/// `(c, r)`: every cell from the first step up to it is an `opp` cell, and
/// from it the run still reaches a `mine` cell.
pub open spec fn ray_flips(
    mine: u64,
    opp: u64,
    c: int,
    r: int,
    d: int,
    c2: int,
    r2: int,
    fuel: nat,
) -> bool
    decreases fuel,
{
    occ(opp, c + dc(d), r + dr(d)) && ((c + dc(d) == c2 && r + dr(d) == r2 && chain(
        mine,
        opp,
        c2,
        r2,
        d,
        8,
    )) || (fuel > 0 && ray_flips(mine, opp, c + dc(d), r + dr(d), d, c2, r2, (fuel - 1) as nat)))
}

/// Cell `(c2, r2)` is flipped by placing `mine` at `(c, r)`.
pub open spec fn is_flipped(mine: u64, opp: u64, c: int, r: int, c2: int, r2: int) -> bool {
    exists|d: int| 0 <= d < 8 && ray_flips(mine, opp, c, r, d, c2, r2, 8)
}

/// The word whose bit `i` is set exactly when `p(i)` holds, for `i < width`.
pub open spec fn mask_of_rec(p: spec_fn(u64) -> bool, width: nat) -> u64
    decreases width,
{
    if width == 0 {
        0u64
    } else {
        mask_of_rec(p, (width - 1) as nat) | (if p((width - 1) as u64) {
            1u64 << ((width - 1) as u64)
        } else {
            0u64
        })
    }
}

pub open spec fn mask_of(p: spec_fn(u64) -> bool) -> u64 {
    mask_of_rec(p, 64)
}

/// All cells that placing `mine` at `(c, r)` flips, as one plane.
pub open spec fn flip_mask(mine: u64, opp: u64, c: int, r: int) -> u64 {
    mask_of(|i: u64| is_flipped(mine, opp, c, r, col_of(i), row_of(i)))
}

/// All legal moves for `mine`, as one plane.
pub open spec fn legal_mask(mine: u64, opp: u64) -> u64 {
    mask_of(|i: u64| is_legal(mine, opp, col_of(i), row_of(i)))
}

proof fn lemma_mask_of_rec_bit(p: spec_fn(u64) -> bool, width: nat, i: u64)
    requires
        width <= 64,
    ensures
        bit64(mask_of_rec(p, width), i) == (i < width && p(i)),
    decreases width,
{
    crate::bits::lemma_bit_ops(0, 0, i);
    if width > 0 {
        let prev = mask_of_rec(p, (width - 1) as nat);
        let w1 = (width - 1) as u64;
        lemma_mask_of_rec_bit(p, (width - 1) as nat, i);
        crate::bits::lemma_bit_ops(1u64 << w1, 0, w1);
        crate::bits::lemma_bit_ops(1u64 << w1, 0, i);
        if p(w1 as u64) {
            crate::bits::lemma_bit_ops(prev, 1u64 << w1, i);
        } else {
            crate::bits::lemma_bit_ops(prev, 0, i);
        }
    }
}

/// What each bit of `mask_of(p)` says.
pub proof fn lemma_mask_of_bit(p: spec_fn(u64) -> bool, i: u64)
    ensures
        bit64(mask_of(p), i) == (i < 64 && p(i)),
{
    lemma_mask_of_rec_bit(p, 64, i);
}

/// `cell_idx` and `col_of`/`row_of` invert each other on the board.
pub proof fn lemma_cell_idx_inverse(c: int, r: int)
    requires
        in_board(c, r),
    ensures
        cell_idx(c, r) < 64,
        col_of(cell_idx(c, r)) == c,
        row_of(cell_idx(c, r)) == r,
{
    let i = 63 - (8 * r + c);
    assert(i == 8 * (7 - r) + (7 - c));
    assert(i as int % 8 == 7 - c && i as int / 8 == 7 - r) by (nonlinear_arith)
        requires
            i == 8 * (7 - r) + (7 - c) && 0 <= 7 - c < 8 && 0 <= 7 - r < 8,
    ;
}

/// Every bit index below 64 is the index of a board cell.
pub proof fn lemma_idx_of_cell(i: u64)
    requires
        i < 64,
    ensures
        in_board(col_of(i), row_of(i)),
        cell_idx(col_of(i), row_of(i)) == i,
{
    assert(8 * (i as int / 8) + (i as int % 8) == i as int && 0 <= i as int % 8 < 8 && 0 <= i as int
        / 8 < 8) by (nonlinear_arith)
        requires
            i < 64,
    ;
}

/// Distinct cells have distinct bit indices.
pub proof fn lemma_cell_idx_injective(c: int, r: int, c2: int, r2: int)
    requires
        in_board(c, r),
        in_board(c2, r2),
        cell_idx(c, r) == cell_idx(c2, r2),
    ensures
        c == c2 && r == r2,
{
    lemma_cell_idx_inverse(c, r);
    lemma_cell_idx_inverse(c2, r2);
}

/// More fuel never loses a chain.
pub proof fn lemma_chain_mono(mine: u64, opp: u64, c: int, r: int, d: int, f1: nat, f2: nat)
    requires
        f1 <= f2,
        chain(mine, opp, c, r, d, f1),
    ensures
        chain(mine, opp, c, r, d, f2),
    decreases f1,
{
    if !occ(mine, c + dc(d), r + dr(d)) {
        lemma_chain_mono(mine, opp, c + dc(d), r + dr(d), d, (f1 - 1) as nat, (f2 - 1) as nat);
    }
}

/// How many in-board steps remain along `d` before leaving the board.
pub open spec fn headroom(c: int, r: int, d: int) -> int {
    let hc = if dc(d) == 1 {
        7 - c
    } else if dc(d) == -1 {
        c
    } else {
        7
    };
    let hr = if dr(d) == 1 {
        7 - r
    } else if dr(d) == -1 {
        r
    } else {
        7
    };
    if hc <= hr {
        hc
    } else {
        hr
    }
}

/// A chain never needs more fuel than the board has cells in that direction.
pub proof fn lemma_chain_bound(mine: u64, opp: u64, c: int, r: int, d: int, f: nat)
    requires
        0 <= d < 8,
        chain(mine, opp, c, r, d, f),
    ensures
        chain(mine, opp, c, r, d, (headroom(c, r, d) - 1) as nat),
        chain(mine, opp, c, r, d, 8),
    decreases f,
{
    let c1 = c + dc(d);
    let r1 = r + dr(d);
    if occ(mine, c1, r1) {
        assert(in_board(c, r) && in_board(c1, r1));
        assert(headroom(c, r, d) >= 1);
        assert(chain(mine, opp, c, r, d, (headroom(c, r, d) - 1) as nat));
        assert(chain(mine, opp, c, r, d, 8));
    } else {
        assert(chain(mine, opp, c1, r1, d, (f - 1) as nat));
        let c2 = c1 + dc(d);
        let r2 = r1 + dr(d);
        if !occ(mine, c2, r2) {
            assert(chain(mine, opp, c2, r2, d, (f - 2) as nat));
        }
        assert(occ(mine, c2, r2) || occ(opp, c2, r2));
        assert(in_board(c, r) && in_board(c1, r1) && in_board(c2, r2));
        assert(headroom(c1, r1, d) >= 1);
        lemma_chain_bound(mine, opp, c1, r1, d, (f - 1) as nat);
        assert(headroom(c1, r1, d) == headroom(c, r, d) - 1);
        lemma_chain_mono(
            mine,
            opp,
            c1,
            r1,
            d,
            (headroom(c1, r1, d) - 1) as nat,
            (headroom(c, r, d) - 2) as nat,
        );
        assert(chain(mine, opp, c, r, d, (headroom(c, r, d) - 1) as nat));
        assert(headroom(c, r, d) <= 8);
        lemma_chain_mono(mine, opp, c1, r1, d, (headroom(c1, r1, d) - 1) as nat, 7);
        assert(chain(mine, opp, c, r, d, 8));
    }
}

/// Column of the cell `n` steps along `d` from column `c`.
pub open spec fn ray_c(c: int, d: int, n: nat) -> int
    decreases n,
{
    if n == 0 {
        c
    } else {
        ray_c(c, d, (n - 1) as nat) + dc(d)
    }
}

/// Row of the cell `n` steps along `d` from row `r`.
pub open spec fn ray_r(r: int, d: int, n: nat) -> int
    decreases n,
{
    if n == 0 {
        r
    } else {
        ray_r(r, d, (n - 1) as nat) + dr(d)
    }
}

/// The `n` cells after `(c, r)` along `d` are all `opp` cells.
pub open spec fn run_opp(opp: u64, c: int, r: int, d: int, n: nat) -> bool
    decreases n,
{
    n == 0 || (occ(opp, c + dc(d), r + dr(d)) && run_opp(
        opp,
        c + dc(d),
        r + dr(d),
        d,
        (n - 1) as nat,
    ))
}

/// The first steps of a ray, written out.
pub proof fn lemma_ray_one(c: int, r: int, d: int)
    ensures
        ray_c(c, d, 0) == c,
        ray_r(r, d, 0) == r,
        ray_c(c, d, 1) == c + dc(d),
        ray_r(r, d, 1) == r + dr(d),
{
    assert(ray_c(c, d, 0) == c);
    assert(ray_r(r, d, 0) == r);
}

/// Walking one step and then `n - 1` more is walking `n` steps.
pub proof fn lemma_ray_shift(c: int, r: int, d: int, n: nat)
    requires
        n >= 1,
    ensures
        ray_c(c, d, n) == ray_c(c + dc(d), d, (n - 1) as nat),
        ray_r(r, d, n) == ray_r(r + dr(d), d, (n - 1) as nat),
    decreases n,
{
    if n == 1 {
        lemma_ray_one(c, r, d);
        lemma_ray_one(c + dc(d), r + dr(d), d);
    } else {
        lemma_ray_shift(c, r, d, (n - 1) as nat);
    }
}

/// Every cell of a run is an opponent cell.
pub proof fn lemma_run_cells(opp: u64, c: int, r: int, d: int, n: nat, t: nat)
    requires
        run_opp(opp, c, r, d, n),
        1 <= t <= n,
    ensures
        occ(opp, ray_c(c, d, t), ray_r(r, d, t)),
    decreases t,
{
    lemma_ray_shift(c, r, d, t);
    lemma_ray_one(c, r, d);
    if t > 1 {
        lemma_run_cells(opp, c + dc(d), r + dr(d), d, (n - 1) as nat, (t - 1) as nat);
    }
}

/// A run of `n` opp cells followed by one more opp cell is a run of `n + 1`.
pub proof fn lemma_run_extend(opp: u64, c: int, r: int, d: int, n: nat)
    requires
        run_opp(opp, c, r, d, n),
        occ(opp, ray_c(c, d, n + 1), ray_r(r, d, n + 1)),
    ensures
        run_opp(opp, c, r, d, n + 1),
    decreases n,
{
    lemma_ray_shift(c, r, d, n + 1);
    lemma_ray_one(c, r, d);
    lemma_ray_one(c + dc(d), r + dr(d), d);
    if n > 0 {
        lemma_run_extend(opp, c + dc(d), r + dr(d), d, (n - 1) as nat);
    } else {
        assert(run_opp(opp, c + dc(d), r + dr(d), d, 0));
        assert(occ(opp, c + dc(d), r + dr(d)));
    }
}

/// A run of opp cells that ends at a mine cell forms a chain from its first cell.
pub proof fn lemma_run_chain(mine: u64, opp: u64, c: int, r: int, d: int, n: nat)
    requires
        n >= 1,
        run_opp(opp, c, r, d, n),
        occ(mine, ray_c(c, d, n + 1), ray_r(r, d, n + 1)),
    ensures
        chain(mine, opp, c + dc(d), r + dr(d), d, (n - 1) as nat),
    decreases n,
{
    let c1 = c + dc(d);
    let r1 = r + dr(d);
    lemma_ray_shift(c, r, d, n + 1);
    if n == 1 {
        lemma_ray_one(c1, r1, d);
        assert(ray_c(c1, d, 1) == c1 + dc(d) && ray_r(r1, d, 1) == r1 + dr(d));
    } else {
        lemma_run_chain(mine, opp, c1, r1, d, (n - 1) as nat);
        lemma_chain_mono(mine, opp, c1 + dc(d), r1 + dr(d), d, (n - 2) as nat, (n - 1) as nat);
    }
}

/// Every cell of a run that ends at a mine cell is flipped.
pub proof fn lemma_run_flips(mine: u64, opp: u64, c: int, r: int, d: int, n: nat, t: nat)
    requires
        0 <= d < 8,
        1 <= t <= n,
        n <= 7,
        run_opp(opp, c, r, d, n),
        occ(mine, ray_c(c, d, n + 1), ray_r(r, d, n + 1)),
    ensures
        ray_flips(mine, opp, c, r, d, ray_c(c, d, t), ray_r(r, d, t), (t - 1) as nat),
        ray_flips(mine, opp, c, r, d, ray_c(c, d, t), ray_r(r, d, t), 8),
    decreases t,
{
    let c1 = c + dc(d);
    let r1 = r + dr(d);
    lemma_ray_shift(c, r, d, n + 1);
    if t == 1 {
        lemma_run_chain(mine, opp, c, r, d, n);
        lemma_chain_mono(mine, opp, c1, r1, d, (n - 1) as nat, 8);
        lemma_ray_one(c, r, d);
        assert(ray_c(c, d, 1) == c1 && ray_r(r, d, 1) == r1);
    } else {
        lemma_ray_shift(c, r, d, t);
        lemma_run_flips(mine, opp, c1, r1, d, (n - 1) as nat, (t - 1) as nat);
    }
    lemma_ray_flips_mono(
        mine,
        opp,
        c,
        r,
        d,
        ray_c(c, d, t),
        ray_r(r, d, t),
        (t - 1) as nat,
        8,
    );
}

/// No cell is on both planes of a disjoint pair.
pub proof fn lemma_occ_disjoint(mine: u64, opp: u64, x: int, y: int)
    requires
        mine & opp == 0,
    ensures
        !(occ(mine, x, y) && occ(opp, x, y)),
{
    crate::bits::lemma_bit_ops(mine, opp, cell_idx(x, y));
}

/// A flipped cell is an opponent cell.
pub proof fn lemma_flips_opp(
    mine: u64,
    opp: u64,
    c: int,
    r: int,
    d: int,
    c2: int,
    r2: int,
    f: nat,
)
    requires
        ray_flips(mine, opp, c, r, d, c2, r2, f),
    ensures
        occ(opp, c2, r2),
    decreases f,
{
    let c1 = c + dc(d);
    let r1 = r + dr(d);
    if !(c1 == c2 && r1 == r2 && chain(mine, opp, c2, r2, d, 8)) {
        lemma_flips_opp(mine, opp, c1, r1, d, c2, r2, (f - 1) as nat);
    }
}

/// A flipped cell witnesses a whole capture in its direction.
pub proof fn lemma_flips_to_chain(
    mine: u64,
    opp: u64,
    c: int,
    r: int,
    d: int,
    c2: int,
    r2: int,
    f: nat,
)
    requires
        0 <= d < 8,
        ray_flips(mine, opp, c, r, d, c2, r2, f),
    ensures
        captures_dir(mine, opp, c, r, d),
    decreases f,
{
    let c1 = c + dc(d);
    let r1 = r + dr(d);
    if c1 == c2 && r1 == r2 && chain(mine, opp, c2, r2, d, 8) {
    } else {
        lemma_flips_to_chain(mine, opp, c1, r1, d, c2, r2, (f - 1) as nat);
        let cn = c1 + dc(d);
        let rn = r1 + dr(d);
        assert(chain(mine, opp, cn, rn, d, 8));
        if !occ(mine, cn + dc(d), rn + dr(d)) {
            assert(chain(mine, opp, cn + dc(d), rn + dr(d), d, 7));
        }
        assert(in_board(cn + dc(d), rn + dr(d)));
        assert(headroom(cn, rn, d) >= 1);
        lemma_chain_bound(mine, opp, c1 + dc(d), r1 + dr(d), d, 8);
        lemma_chain_mono(
            mine,
            opp,
            c1 + dc(d),
            r1 + dr(d),
            d,
            (headroom(c1 + dc(d), r1 + dr(d), d) - 1) as nat,
            7,
        );
        assert(chain(mine, opp, c1, r1, d, 8));
    }
}

/// If the walk from `(c, r)` stops on a cell that is neither side's (or runs
/// off the board), there is no capture in that direction.
pub proof fn lemma_walk_stops(mine: u64, opp: u64, c: int, r: int, d: int, n: nat, f: nat)
    requires
        mine & opp == 0,
        run_opp(opp, c, r, d, n),
        !occ(opp, ray_c(c, d, n + 1), ray_r(r, d, n + 1)),
        !occ(mine, ray_c(c, d, n + 1), ray_r(r, d, n + 1)),
    ensures
        !chain(mine, opp, c + dc(d), r + dr(d), d, f),
    decreases n,
{
    let c1 = c + dc(d);
    let r1 = r + dr(d);
    lemma_ray_shift(c, r, d, n + 1);
    lemma_ray_one(c, r, d);
    lemma_ray_one(c1, r1, d);
    if chain(mine, opp, c1, r1, d, f) {
        if n == 0 {
            assert(occ(opp, c1, r1));
            assert(ray_c(c, d, 1) == c1 && ray_r(r, d, 1) == r1);
        } else {
            let c2 = c1 + dc(d);
            let r2 = r1 + dr(d);
            if occ(mine, c2, r2) {
                if n == 1 {
                    assert(ray_c(c1, d, 1) == c2 && ray_r(r1, d, 1) == r2);
                } else {
                    assert(run_opp(opp, c1, r1, d, (n - 1) as nat));
                    assert(occ(opp, c2, r2));
                    lemma_occ_disjoint(mine, opp, c2, r2);
                }
            } else {
                assert(chain(mine, opp, c2, r2, d, (f - 1) as nat));
                lemma_walk_stops(mine, opp, c1, r1, d, (n - 1) as nat, (f - 1) as nat);
            }
        }
    }
}

/// Every flipped cell of a confirmed run lies on that run.
pub proof fn lemma_flips_in_run(
    mine: u64,
    opp: u64,
    c: int,
    r: int,
    d: int,
    n: nat,
    c2: int,
    r2: int,
    f: nat,
)
    requires
        mine & opp == 0,
        run_opp(opp, c, r, d, n),
        occ(mine, ray_c(c, d, n + 1), ray_r(r, d, n + 1)),
        ray_flips(mine, opp, c, r, d, c2, r2, f),
    ensures
        exists|t: nat| 1 <= t <= n && c2 == ray_c(c, d, t) && r2 == ray_r(r, d, t),
    decreases f,
{
    let c1 = c + dc(d);
    let r1 = r + dr(d);
    lemma_ray_shift(c, r, d, n + 1);
    lemma_ray_one(c, r, d);
    lemma_ray_one(c1, r1, d);
    assert(occ(opp, c1, r1));
    if n == 0 {
        assert(ray_c(c, d, 1) == c1 && ray_r(r, d, 1) == r1);
        lemma_occ_disjoint(mine, opp, c1, r1);
    } else if c1 == c2 && r1 == r2 {
        assert(1 <= 1nat <= n && c2 == ray_c(c, d, 1) && r2 == ray_r(r, d, 1));
    } else {
        assert(ray_flips(mine, opp, c1, r1, d, c2, r2, (f - 1) as nat));
        lemma_flips_in_run(mine, opp, c1, r1, d, (n - 1) as nat, c2, r2, (f - 1) as nat);
        let t1 = choose|t: nat|
            1 <= t <= (n - 1) as nat && c2 == ray_c(c1, d, t) && r2 == ray_r(r1, d, t);
        lemma_ray_shift(c, r, d, t1 + 1);
        assert(1 <= t1 + 1 <= n && c2 == ray_c(c, d, t1 + 1) && r2 == ray_r(r, d, t1 + 1));
    }
}

/// Likewise for the flipped-cell predicate.
pub proof fn lemma_ray_flips_mono(
    mine: u64,
    opp: u64,
    c: int,
    r: int,
    d: int,
    c2: int,
    r2: int,
    f1: nat,
    f2: nat,
)
    requires
        f1 <= f2,
        ray_flips(mine, opp, c, r, d, c2, r2, f1),
    ensures
        ray_flips(mine, opp, c, r, d, c2, r2, f2),
    decreases f1,
{
    let c1 = c + dc(d);
    let r1 = r + dr(d);
    if !(c1 == c2 && r1 == r2 && chain(mine, opp, c2, r2, d, 8)) {
        lemma_ray_flips_mono(mine, opp, c1, r1, d, c2, r2, (f1 - 1) as nat, (f2 - 1) as nat);
    }
}

} // verus!
