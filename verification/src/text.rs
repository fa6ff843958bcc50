//! Textual board serialization: eight rows of eight glyphs, newline
//! terminated, used for fixtures and display.

use crate::bits::{bit64, lemma_bit_ops, lemma_bits_eq};
use crate::board::BitBoard;
use crate::rules::{cell_idx, col_of, lemma_cell_idx_inverse, lemma_idx_of_cell,
    lemma_mask_of_bit, mask_of, occ, row_of};
use vstd::prelude::*;

verus! {

/// The glyph shown for cell `(c, r)` of a board.
pub open spec fn glyph_at(b: BitBoard, c: int, r: int) -> char {
    if occ(b.black, c, r) {
        '\u{25cf}'
    } else if occ(b.white, c, r) {
        '\u{25cb}'
    } else {
        '_'
    }
}

/// A glyph an encoded board may hold: vacant (`_`, or `*` marking a legal
/// move in fixtures), dark, or light.
pub open spec fn glyph_ok(g: char) -> bool {
    g == '_' || g == '*' || g == '\u{25cf}' || g == '\u{25cb}'
}

/// The text is a well-formed board: eight newline-terminated rows of eight
/// known glyphs (the final newline may be missing at the very end).
pub open spec fn text_ok(s: Seq<char>) -> bool {
    &&& s.len() >= 71
    &&& forall|r: int, c: int|
        0 <= r < 8 && 0 <= c < 8 ==> glyph_ok(#[trigger] s[r * 9 + c])
    &&& forall|r: int| 0 <= r < 7 ==> #[trigger] s[r * 9 + 8] == '\n'
    &&& s.len() >= 72 ==> s[71] == '\n'
}

/// The dark plane a well-formed text encodes.
pub open spec fn black_of_text(s: Seq<char>) -> u64 {
    mask_of(|i: u64| i < 64 && s[row_of(i) * 9 + col_of(i)] == '\u{25cf}')
}

/// The light plane a well-formed text encodes.
pub open spec fn white_of_text(s: Seq<char>) -> u64 {
    mask_of(|i: u64| i < 64 && s[row_of(i) * 9 + col_of(i)] == '\u{25cb}')
}

impl BitBoard {
    /// Encode the board as eight newline-terminated rows of glyphs.
    pub fn format(&self) -> (s: Vec<char>)
        ensures
            s@.len() == 72,
            forall|r: int, c: int|
                0 <= r < 8 && 0 <= c < 8 ==> #[trigger] s@[r * 9 + c] == glyph_at(*self, c, r),
            forall|r: int| 0 <= r < 8 ==> #[trigger] s@[r * 9 + 8] == '\n',
    {
        let mut s: Vec<char> = Vec::new();
        let mut row: usize = 0;
        while row < 8
            invariant
                row <= 8,
                s@.len() == row * 9,
                forall|r: int, c: int|
                    0 <= r < row && 0 <= c < 8 ==> #[trigger] s@[r * 9 + c] == glyph_at(
                        *self,
                        c,
                        r,
                    ),
                forall|r: int| 0 <= r < row ==> #[trigger] s@[r * 9 + 8] == '\n',
            decreases 8 - row,
        {
            let mut col: usize = 0;
            while col < 8
                invariant
                    row < 8,
                    col <= 8,
                    s@.len() == row * 9 + col,
                    forall|r: int, c: int|
                        0 <= r < row && 0 <= c < 8 ==> #[trigger] s@[r * 9 + c] == glyph_at(
                            *self,
                            c,
                            r,
                        ),
                    forall|r: int| 0 <= r < row ==> #[trigger] s@[r * 9 + 8] == '\n',
                    forall|c: int|
                        0 <= c < col ==> #[trigger] s@[row * 9 + c] == glyph_at(
                            *self,
                            c,
                            row as int,
                        ),
                decreases 8 - col,
            {
                let p = BitBoard::position(col, row);
                proof {
                    lemma_cell_idx_inverse(col as int, row as int);
                    lemma_bit_ops(self.black, p, cell_idx(col as int, row as int));
                    lemma_bit_ops(self.white, p, cell_idx(col as int, row as int));
                }
                if self.black & p != 0 {
                    s.push('\u{25cf}');
                } else if self.white & p != 0 {
                    s.push('\u{25cb}');
                } else {
                    s.push('_');
                }
                col = col + 1;
            }
            s.push('\n');
            row = row + 1;
        }
        s
    }

    /// Decode a board from its textual form; fails on any unknown glyph or
    /// on text too short for eight rows.
    pub fn from_chars(v: &Vec<char>) -> (r: Result<BitBoard, ()>)
        ensures
            r is Ok <==> text_ok(v@),
            r is Ok ==> r->Ok_0.black == black_of_text(v@) && r->Ok_0.white == white_of_text(
                v@,
            ),
    {
        if v.len() < 71 {
            return Err(());
        }
        if v.len() >= 72 && v[71] != '\n' {
            proof {
                assert(!text_ok(v@));
            }
            return Err(());
        }
        let mut black: u64 = 0;
        let mut white: u64 = 0;
        let mut row: usize = 0;
        proof {
            assert forall|i: u64| #[trigger] bit64(0u64, i) == false by {
                lemma_bit_ops(0, 0, i);
            }
        }
        while row < 8
            invariant
                row <= 8,
                v@.len() >= 71,
                v@.len() >= 72 ==> v@[71] == '\n',
                forall|r: int, c: int|
                    0 <= r < row && 0 <= c < 8 ==> glyph_ok(#[trigger] v@[r * 9 + c]),
                forall|r: int| 0 <= r < row && r < 7 ==> #[trigger] v@[r * 9 + 8] == '\n',
                forall|i: u64| #[trigger]
                    bit64(black, i) == (i < 64 && row_of(i) < row && v@[row_of(i) * 9 + col_of(i)]
                        == '\u{25cf}'),
                forall|i: u64| #[trigger]
                    bit64(white, i) == (i < 64 && row_of(i) < row && v@[row_of(i) * 9 + col_of(i)]
                        == '\u{25cb}'),
            decreases 8 - row,
        {
            let mut col: usize = 0;
            while col < 8
                invariant
                    row < 8,
                    col <= 8,
                    v@.len() >= 71,
                    forall|c: int| 0 <= c < col ==> glyph_ok(#[trigger] v@[row * 9 + c]),
                    forall|i: u64| #[trigger]
                        bit64(black, i) == (i < 64 && (row_of(i) < row || (row_of(i) == row
                            && col_of(i) < col)) && v@[row_of(i) * 9 + col_of(i)] == '\u{25cf}'),
                    forall|i: u64| #[trigger]
                        bit64(white, i) == (i < 64 && (row_of(i) < row || (row_of(i) == row
                            && col_of(i) < col)) && v@[row_of(i) * 9 + col_of(i)] == '\u{25cb}'),
                decreases 8 - col,
            {
                let g = v[row * 9 + col];
                if !(g == '_' || g == '*' || g == '\u{25cf}' || g == '\u{25cb}') {
                    return Err(());
                }
                let p = BitBoard::position(col, row);
                proof {
                    lemma_cell_idx_inverse(col as int, row as int);
                }
                let ghost old_black = black;
                let ghost old_white = white;
                if g == '\u{25cf}' {
                    black = black | p;
                } else if g == '\u{25cb}' {
                    white = white | p;
                }
                proof {
                    let t = cell_idx(col as int, row as int);
                    assert forall|i: u64| #[trigger]
                        bit64(black, i) == (i < 64 && (row_of(i) < row || (row_of(i) == row
                            && col_of(i) < col + 1)) && v@[row_of(i) * 9 + col_of(i)]
                            == '\u{25cf}') by {
                        lemma_bit_ops(old_black, p, i);
                        lemma_bit_ops(old_black, old_black, t);
                        if i < 64 {
                            lemma_idx_of_cell(i);
                            if row_of(i) == row && col_of(i) == col {
                                assert(i == t);
                            }
                        }
                    }
                    assert forall|i: u64| #[trigger]
                        bit64(white, i) == (i < 64 && (row_of(i) < row || (row_of(i) == row
                            && col_of(i) < col + 1)) && v@[row_of(i) * 9 + col_of(i)]
                            == '\u{25cb}') by {
                        lemma_bit_ops(old_white, p, i);
                        lemma_bit_ops(old_white, old_white, t);
                        if i < 64 {
                            lemma_idx_of_cell(i);
                            if row_of(i) == row && col_of(i) == col {
                                assert(i == t);
                            }
                        }
                    }
                }
                col = col + 1;
            }
            if row < 7 {
                let nl = v[row * 9 + 8];
                if nl != '\n' {
                    return Err(());
                }
            }
            proof {
                assert forall|i: u64| #[trigger]
                    bit64(black, i) == (i < 64 && row_of(i) < row + 1 && v@[row_of(i) * 9 + col_of(
                        i,
                    )] == '\u{25cf}') by {
                    if i < 64 {
                        lemma_idx_of_cell(i);
                    }
                }
                assert forall|i: u64| #[trigger]
                    bit64(white, i) == (i < 64 && row_of(i) < row + 1 && v@[row_of(i) * 9 + col_of(
                        i,
                    )] == '\u{25cb}') by {
                    if i < 64 {
                        lemma_idx_of_cell(i);
                    }
                }
            }
            row = row + 1;
        }
        proof {
            assert(text_ok(v@));
            assert forall|i: u64| #[trigger] bit64(black, i) == bit64(
                black_of_text(v@),
                i,
            ) by {
                lemma_mask_of_bit(
                    |j: u64| j < 64 && v@[row_of(j) * 9 + col_of(j)] == '\u{25cf}',
                    i,
                );
                if i < 64 {
                    lemma_idx_of_cell(i);
                }
            }
            assert forall|i: u64| #[trigger] bit64(white, i) == bit64(
                white_of_text(v@),
                i,
            ) by {
                lemma_mask_of_bit(
                    |j: u64| j < 64 && v@[row_of(j) * 9 + col_of(j)] == '\u{25cb}',
                    i,
                );
                if i < 64 {
                    lemma_idx_of_cell(i);
                }
            }
            lemma_bits_eq(black, black_of_text(v@));
            lemma_bits_eq(white, white_of_text(v@));
        }
        Ok(BitBoard { black, white })
    }
}

} // verus!
