//! The symmetry canonicalizer: the eight dihedral images of a board, and
//! the deterministic minimum among them used to deduplicate positions.

use crate::bits::{bit64, lemma_bits_eq};
use crate::board::BitBoard;
use crate::rules::{cell_idx, col_of, in_board, lemma_cell_idx_inverse, lemma_idx_of_cell,
    lemma_mask_of_bit, mask_of, row_of};
use vstd::prelude::*;

verus! {

/// The cell of the original board that cell `(c, r)` of the image reads,
/// under symmetry flag `f`: bit 0 mirrors horizontally, bit 1 vertically,
/// bit 2 transposes, composing in that order.
pub open spec fn src_c(f: int, c: int, r: int) -> int {
    let a = if f / 4 % 2 == 1 {
        r
    } else {
        c
    };
    if f % 2 == 1 {
        7 - a
    } else {
        a
    }
}

pub open spec fn src_r(f: int, c: int, r: int) -> int {
    let b = if f / 4 % 2 == 1 {
        c
    } else {
        r
    };
    if f / 2 % 2 == 1 {
        7 - b
    } else {
        b
    }
}

/// One plane, mapped through symmetry `f`.
pub open spec fn sym_plane(f: int, p: u64) -> u64 {
    mask_of(
        |i: u64| bit64(p, cell_idx(src_c(f, col_of(i), row_of(i)), src_r(f, col_of(i), row_of(i)))),
    )
}

/// The whole board, mapped through symmetry `f`.
pub open spec fn sym_spec(f: int, b: BitBoard) -> BitBoard {
    BitBoard { black: sym_plane(f, b.black), white: sym_plane(f, b.white) }
}

/// What each bit of a mapped plane reads.
pub proof fn lemma_sym_plane_bit(f: int, p: u64, c: int, r: int)
    requires
        0 <= f < 8,
        in_board(c, r),
    ensures
        bit64(sym_plane(f, p), cell_idx(c, r)) == bit64(p, cell_idx(src_c(f, c, r), src_r(f, c, r))),
{
    lemma_cell_idx_inverse(c, r);
    lemma_mask_of_bit(
        |i: u64| bit64(p, cell_idx(src_c(f, col_of(i), row_of(i)), src_r(f, col_of(i), row_of(i)))),
        cell_idx(c, r),
    );
}

proof fn bv_hmirror(b: u64, b1: u64, b2: u64, b3: u64, c: u64, r: u64)
    by (bit_vector)
    requires
        c < 8,
        r < 8,
        b1 == ((b >> 1u64) & 0x5555555555555555u64) | ((b << 1u64) & 0xAAAAAAAAAAAAAAAAu64),
        b2 == ((b1 >> 2u64) & 0x3333333333333333u64) | ((b1 << 2u64) & 0xCCCCCCCCCCCCCCCCu64),
        b3 == ((b2 >> 4u64) & 0x0F0F0F0F0F0F0F0Fu64) | ((b2 << 4u64) & 0xF0F0F0F0F0F0F0F0u64),
    ensures
        bit64(b3, (63 - (8 * r + c)) as u64) == bit64(b, (63 - (8 * r + (7 - c))) as u64),
{
}

proof fn bv_vmirror(b: u64, b1: u64, b2: u64, b3: u64, c: u64, r: u64)
    by (bit_vector)
    requires
        c < 8,
        r < 8,
        b1 == ((b >> 8u64) & 0x00FF00FF00FF00FFu64) | ((b << 8u64) & 0xFF00FF00FF00FF00u64),
        b2 == ((b1 >> 16u64) & 0x0000FFFF0000FFFFu64) | ((b1 << 16u64) & 0xFFFF0000FFFF0000u64),
        b3 == ((b2 >> 32u64) & 0x00000000FFFFFFFFu64) | ((b2 << 32u64) & 0xFFFFFFFF00000000u64),
    ensures
        bit64(b3, (63 - (8 * r + c)) as u64) == bit64(b, (63 - (8 * (7 - r) + c)) as u64),
{
}

proof fn bv_transpose(b: u64, t1: u64, b1: u64, t2: u64, b2: u64, t3: u64, b3: u64, c: u64, r: u64)
    by (bit_vector)
    requires
        c < 8,
        r < 8,
        t1 == (b ^ (b >> 7u64)) & 0x00aa00aa00aa00aau64,
        b1 == b ^ t1 ^ (t1 << 7u64),
        t2 == (b1 ^ (b1 >> 14u64)) & 0x0000cccc0000ccccu64,
        b2 == b1 ^ t2 ^ (t2 << 14u64),
        t3 == (b2 ^ (b2 >> 28u64)) & 0x00000000f0f0f0f0u64,
        b3 == b2 ^ t3 ^ (t3 << 28u64),
    ensures
        bit64(b3, (63 - (8 * r + c)) as u64) == bit64(b, (63 - (8 * c + r)) as u64),
{
}

/// Mirror a plane left-to-right by the swap ladder.
fn horizontal_mirror(b: u64) -> (m: u64)
    ensures
        forall|c: int, r: int|
            in_board(c, r) ==> bit64(m, #[trigger] cell_idx(c, r)) == bit64(b, cell_idx(7 - c, r)),
{
    let b1 = ((b >> 1u64) & 0x5555555555555555) | ((b << 1u64) & 0xAAAAAAAAAAAAAAAA);
    let b2 = ((b1 >> 2u64) & 0x3333333333333333) | ((b1 << 2u64) & 0xCCCCCCCCCCCCCCCC);
    let b3 = ((b2 >> 4u64) & 0x0F0F0F0F0F0F0F0F) | ((b2 << 4u64) & 0xF0F0F0F0F0F0F0F0);
    proof {
        assert forall|c: int, r: int| in_board(c, r) implies bit64(b3, #[trigger] cell_idx(c, r))
            == bit64(b, cell_idx(7 - c, r)) by {
            bv_hmirror(b, b1, b2, b3, c as u64, r as u64);
        }
    }
    b3
}

/// Mirror a plane top-to-bottom by the swap ladder.
fn vertical_mirror(b: u64) -> (m: u64)
    ensures
        forall|c: int, r: int|
            in_board(c, r) ==> bit64(m, #[trigger] cell_idx(c, r)) == bit64(b, cell_idx(c, 7 - r)),
{
    let b1 = ((b >> 8u64) & 0x00FF00FF00FF00FF) | ((b << 8u64) & 0xFF00FF00FF00FF00);
    let b2 = ((b1 >> 16u64) & 0x0000FFFF0000FFFF) | ((b1 << 16u64) & 0xFFFF0000FFFF0000);
    let b3 = ((b2 >> 32u64) & 0x00000000FFFFFFFF) | ((b2 << 32u64) & 0xFFFFFFFF00000000);
    proof {
        assert forall|c: int, r: int| in_board(c, r) implies bit64(b3, #[trigger] cell_idx(c, r))
            == bit64(b, cell_idx(c, 7 - r)) by {
            bv_vmirror(b, b1, b2, b3, c as u64, r as u64);
        }
    }
    b3
}

/// Reflect a plane across the main diagonal by the masked swap ladder.
fn transpose(b: u64) -> (m: u64)
    ensures
        forall|c: int, r: int|
            in_board(c, r) ==> bit64(m, #[trigger] cell_idx(c, r)) == bit64(b, cell_idx(r, c)),
{
    let t1 = (b ^ (b >> 7u64)) & 0x00aa00aa00aa00aa;
    let b1 = b ^ t1 ^ (t1 << 7u64);
    let t2 = (b1 ^ (b1 >> 14u64)) & 0x0000cccc0000cccc;
    let b2 = b1 ^ t2 ^ (t2 << 14u64);
    let t3 = (b2 ^ (b2 >> 28u64)) & 0x00000000f0f0f0f0;
    let b3 = b2 ^ t3 ^ (t3 << 28u64);
    proof {
        assert forall|c: int, r: int| in_board(c, r) implies bit64(b3, #[trigger] cell_idx(c, r))
            == bit64(b, cell_idx(r, c)) by {
            bv_transpose(b, t1, b1, t2, b2, t3, b3, c as u64, r as u64);
        }
    }
    b3
}

/// `a` comes no later than `b` in the `(black, white)` tuple order.
pub open spec fn tuple_le(a: BitBoard, b: BitBoard) -> bool {
    a.black < b.black || (a.black == b.black && a.white <= b.white)
}

/// `u` is the canonical form of `b`: an image of `b` that comes first,
/// in the tuple order, among all eight images.
pub open spec fn is_canon(b: BitBoard, u: BitBoard) -> bool {
    &&& exists|g: int| 0 <= g < 8 && u == sym_spec(g, b)
    &&& forall|f: int| 0 <= f < 8 ==> tuple_le(u, #[trigger] sym_spec(f, b))
}

impl BitBoard {
    /// The image of this board under symmetry flag `flag`.
    pub fn symmetry(&self, flag: u32) -> (s: BitBoard)
        requires
            flag < 8,
        ensures
            s == sym_spec(flag as int, *self),
    {
        let mut black = self.black;
        let mut white = self.white;
        let ghost f = flag as int;
        if flag & 1 != 0 {
            black = horizontal_mirror(black);
            white = horizontal_mirror(white);
        }
        if flag & 2 != 0 {
            black = vertical_mirror(black);
            white = vertical_mirror(white);
        }
        if flag & 4 != 0 {
            black = transpose(black);
            white = transpose(white);
        }
        proof {
            assert((flag & 1 != 0) == (flag % 2 == 1) && (flag & 2 != 0) == (flag / 2 % 2 == 1) && (
            flag & 4 != 0) == (flag / 4 % 2 == 1)) by (bit_vector);
            assert(f % 2 == flag % 2 && f / 2 % 2 == flag / 2 % 2 && f / 4 % 2 == flag / 4 % 2);
            assert forall|i: u64| i < 64 implies #[trigger] bit64(black, i) == bit64(
                sym_plane(f, self.black),
                i,
            ) by {
                lemma_idx_of_cell(i);
                lemma_sym_plane_bit(f, self.black, col_of(i), row_of(i));
            }
            assert forall|i: u64| i < 64 implies #[trigger] bit64(white, i) == bit64(
                sym_plane(f, self.white),
                i,
            ) by {
                lemma_idx_of_cell(i);
                lemma_sym_plane_bit(f, self.white, col_of(i), row_of(i));
            }
            lemma_bits_eq(black, sym_plane(f, self.black));
            lemma_bits_eq(white, sym_plane(f, self.white));
        }
        BitBoard { black, white }
    }

    /// The canonical form: the tuple-least of the eight symmetry images.
    pub fn unique(&self) -> (u: BitBoard)
        ensures
            is_canon(*self, u),
    {
        let mut u = BitBoard { black: self.black, white: self.white };
        proof {
            lemma_sym_identity(*self);
            assert(u == sym_spec(0, *self));
        }
        let mut f: u32 = 1;
        while f < 8
            invariant
                1 <= f <= 8,
                exists|g: int| 0 <= g < f && u == sym_spec(g, *self),
                forall|g: int| 0 <= g < f ==> tuple_le(u, #[trigger] sym_spec(g, *self)),
            decreases 8 - f,
        {
            let s = self.symmetry(f);
            if s.black < u.black || (s.black == u.black && s.white < u.white) {
                u = s;
            }
            f += 1;
        }
        u
    }
}

/// Symmetry flag zero maps every board to itself.
pub proof fn lemma_sym_identity(b: BitBoard)
    ensures
        sym_spec(0, b) == b,
{
    assert forall|i: u64| i < 64 implies #[trigger] bit64(sym_plane(0, b.black), i) == bit64(
        b.black,
        i,
    ) by {
        lemma_idx_of_cell(i);
        lemma_sym_plane_bit(0, b.black, col_of(i), row_of(i));
    }
    assert forall|i: u64| i < 64 implies #[trigger] bit64(sym_plane(0, b.white), i) == bit64(
        b.white,
        i,
    ) by {
        lemma_idx_of_cell(i);
        lemma_sym_plane_bit(0, b.white, col_of(i), row_of(i));
    }
    lemma_bits_eq(sym_plane(0, b.black), b.black);
    lemma_bits_eq(sym_plane(0, b.white), b.white);
}

/// The flag whose symmetry is `f` composed after `g` (first `f`, then `g`).
pub open spec fn comp(f: int, g: int) -> int {
    let fh = f % 2;
    let fv = f / 2 % 2;
    let ft = f / 4 % 2;
    let gh = g % 2;
    let gv = g / 2 % 2;
    let gt = g / 4 % 2;
    let hh = if ft == 1 {
        if fh + gv == 1 {
            1int
        } else {
            0int
        }
    } else {
        if fh + gh == 1 {
            1int
        } else {
            0int
        }
    };
    let hv = if ft == 1 {
        if fv + gh == 1 {
            1int
        } else {
            0int
        }
    } else {
        if fv + gv == 1 {
            1int
        } else {
            0int
        }
    };
    let ht = if ft + gt == 1 {
        1int
    } else {
        0int
    };
    hh + 2 * hv + 4 * ht
}

/// Reading a cell through two symmetries is reading it through their
/// composition.
proof fn lemma_src_comp(f: int, g: int, c: int, r: int)
    requires
        0 <= f < 8,
        0 <= g < 8,
        in_board(c, r),
    ensures
        0 <= comp(f, g) < 8,
        src_c(f, src_c(g, c, r), src_r(g, c, r)) == src_c(comp(f, g), c, r),
        src_r(f, src_c(g, c, r), src_r(g, c, r)) == src_r(comp(f, g), c, r),
{
}

/// Applying symmetry `g` to the image under `f` gives the image under the
/// composed flag.
pub proof fn lemma_sym_comp(f: int, g: int, b: BitBoard)
    requires
        0 <= f < 8,
        0 <= g < 8,
    ensures
        0 <= comp(f, g) < 8,
        sym_spec(g, sym_spec(f, b)) == sym_spec(comp(f, g), b),
{
    lemma_src_comp(f, g, 0, 0);
    let lhs = sym_spec(g, sym_spec(f, b));
    let rhs = sym_spec(comp(f, g), b);
    assert forall|i: u64| i < 64 implies #[trigger] bit64(lhs.black, i) == bit64(
        rhs.black,
        i,
    ) by {
        lemma_idx_of_cell(i);
        let c = col_of(i);
        let r = row_of(i);
        lemma_src_comp(f, g, c, r);
        lemma_sym_plane_bit(g, sym_plane(f, b.black), c, r);
        lemma_sym_plane_bit(f, b.black, src_c(g, c, r), src_r(g, c, r));
        lemma_sym_plane_bit(comp(f, g), b.black, c, r);
    }
    assert forall|i: u64| i < 64 implies #[trigger] bit64(lhs.white, i) == bit64(
        rhs.white,
        i,
    ) by {
        lemma_idx_of_cell(i);
        let c = col_of(i);
        let r = row_of(i);
        lemma_src_comp(f, g, c, r);
        lemma_sym_plane_bit(g, sym_plane(f, b.white), c, r);
        lemma_sym_plane_bit(f, b.white, src_c(g, c, r), src_r(g, c, r));
        lemma_sym_plane_bit(comp(f, g), b.white, c, r);
    }
    lemma_bits_eq(lhs.black, rhs.black);
    lemma_bits_eq(lhs.white, rhs.white);
}

/// Every symmetry other than the two rotations undoes itself: applying the
/// same flag twice gives the original board back.
pub proof fn lemma_symmetry_involution(b: BitBoard, f: int)
    requires
        0 <= f < 8,
        f != 5,
        f != 6,
    ensures
        sym_spec(f, sym_spec(f, b)) == b,
{
    lemma_sym_comp(f, f, b);
    assert(comp(f, f) == 0);
    lemma_sym_identity(b);
}

/// The canonical form is idempotent: the canonical form of a canonical
/// form is itself, and canonical forms are unique.
pub proof fn lemma_canon_idempotent(b: BitBoard, u: BitBoard)
    requires
        is_canon(b, u),
    ensures
        is_canon(u, u),
        forall|u2: BitBoard| is_canon(u, u2) ==> u2 == u,
{
    let g = choose|g: int| 0 <= g < 8 && u == sym_spec(g, b);
    lemma_sym_identity(u);
    assert(0 <= 0 < 8 && u == sym_spec(0, u));
    assert forall|f: int| 0 <= f < 8 implies tuple_le(u, #[trigger] sym_spec(f, u)) by {
        lemma_sym_comp(g, f, b);
        assert(sym_spec(f, u) == sym_spec(comp(g, f), b));
    }
    assert forall|u2: BitBoard| is_canon(u, u2) implies u2 == u by {
        let f2 = choose|f2: int| 0 <= f2 < 8 && u2 == sym_spec(f2, u);
        lemma_sym_comp(g, f2, b);
        assert(u2 == sym_spec(comp(g, f2), b));
        assert(tuple_le(u, u2));
        assert(tuple_le(u2, sym_spec(0, u)));
        assert(tuple_le(u2, u));
    }
}

} // verus!
