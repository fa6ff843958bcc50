use reversi::{BitBoard, NaiveBoard, Side};

fn chars(s: &str) -> Vec<char> {
    s.chars().collect()
}

#[test]
fn naive_from_str() {
    let mut expect = NaiveBoard::new();
    expect.put(2, 3, Side::Black);
    let s = "________
________
__*_*___
__\u{25cf}\u{25cf}\u{25cf}___
__*\u{25cf}\u{25cb}___
________
________
________";
    assert_eq!(expect, NaiveBoard::from_chars(&chars(s)).unwrap());
}

#[test]
fn start_counts() {
    let b = BitBoard::new();
    let (black, white) = b.count();
    assert_eq!((black, white), (2, 2));
    assert_eq!(b.black & b.white, 0);
}

#[test]
fn start_candidates() {
    let b = BitBoard::new();
    let mut cand = b.candidates(Side::Black);
    assert_eq!(cand.len(), 4);
    let expected = [
        BitBoard::position(3, 2),
        BitBoard::position(2, 3),
        BitBoard::position(5, 4),
        BitBoard::position(4, 5),
    ];
    let mut got = Vec::new();
    while let Some(p) = cand.next() {
        got.push(p);
    }
    let mut expected = expected.to_vec();
    expected.sort();
    got.sort();
    assert_eq!(got, expected);
}

#[test]
fn put_flips_one() {
    let mut b = BitBoard::new();
    b.put(Side::Black, BitBoard::position(2, 3));
    // the placed piece plus the flipped one
    assert_eq!(b.count(), (4, 1));
    assert_eq!(b.black & b.white, 0);
}

#[test]
fn conservation_over_puts() {
    // the total count never decreases over a run of legal moves
    let mut b = BitBoard::new();
    let mut side = Side::Black;
    let mut total = {
        let (x, y) = b.count();
        x as u32 + y as u32
    };
    for _ in 0..16 {
        let mut cand = b.candidates(side);
        match cand.next() {
            Some(p) => {
                b.put(side, p);
                let (x, y) = b.count();
                let t = x as u32 + y as u32;
                assert!(t >= total);
                assert!(t <= 64);
                assert_eq!(b.black & b.white, 0);
                total = t;
            }
            None => {}
        }
        side = side.flip();
    }
}

#[test]
fn col_row_round_trip() {
    for row in 0..8 {
        for col in 0..8 {
            let p = BitBoard::position(col, row);
            assert_eq!(BitBoard::col_row(p), (col, row));
        }
    }
}

#[test]
fn candidates_match_naive() {
    // the bit-parallel generator and the scanning board agree on the
    // starting position, for both sides
    let b = BitBoard::new();
    let n = NaiveBoard::new();
    for side in [Side::Black, Side::White] {
        let mut cand = b.candidates(side);
        let mut from_bits = Vec::new();
        while let Some(p) = cand.next() {
            from_bits.push(BitBoard::col_row(p));
        }
        let mut from_scan = n.list_candidates(side);
        from_bits.sort();
        from_scan.sort();
        assert_eq!(from_bits, from_scan);
    }
}

#[test]
fn naive_put_matches_bitboard() {
    let mut b = BitBoard::new();
    b.put(Side::Black, BitBoard::position(2, 3));
    let mut n = NaiveBoard::new();
    n.put(2, 3, Side::Black);
    let (nb, nw) = n.count();
    assert_eq!(b.count(), (nb, nw));
    // the bitboard's own text decodes to exactly the scanned grid
    assert_eq!(NaiveBoard::from_chars(&b.format()).unwrap(), n);
}

#[test]
fn symmetry_round_trip() {
    let mut b = BitBoard::new();
    b.put(Side::Black, BitBoard::position(2, 3));
    for f in [0u32, 1, 2, 3, 4, 7] {
        assert_eq!(b.symmetry(f).symmetry(f), b);
    }
    // the two remaining flags are quarter rotations: four of them undo
    let r = b.symmetry(5).symmetry(5).symmetry(5).symmetry(5);
    assert_eq!(r, b);
}

#[test]
fn unique_idempotent() {
    let mut b = BitBoard::new();
    b.put(Side::Black, BitBoard::position(2, 3));
    let u = b.unique();
    assert_eq!(u.unique(), u);
    assert_eq!(u.count(), b.count());
}

#[test]
fn format_start() {
    let b = BitBoard::new();
    let expect = "________
________
________
___\u{25cb}\u{25cf}___
___\u{25cf}\u{25cb}___
________
________
________
";
    assert_eq!(b.format(), chars(expect));
}

#[test]
fn decode_round_trip() {
    let mut b = BitBoard::new();
    b.put(Side::Black, BitBoard::position(2, 3));
    let text = b.format();
    assert_eq!(BitBoard::from_chars(&text).unwrap(), b);
}

#[test]
fn decode_rejects_bad_glyph() {
    let mut text = BitBoard::new().format();
    text[3] = 'x';
    assert!(BitBoard::from_chars(&text).is_err());
    assert!(NaiveBoard::from_chars(&text).is_err());
}

#[test]
fn decode_rejects_short_input() {
    let text = chars("________\n________\n");
    assert!(BitBoard::from_chars(&text).is_err());
    assert!(NaiveBoard::from_chars(&text).is_err());
}

#[test]
fn decode_rejects_bad_newline() {
    let mut text = BitBoard::new().format();
    text[8] = '_';
    assert!(BitBoard::from_chars(&text).is_err());
}

#[test]
fn multi_direction_capture() {
    // placing in the middle of a cross captures four runs at once
    let text = "________
___\u{25cf}____
___\u{25cb}____
_\u{25cf}\u{25cb}_\u{25cb}\u{25cf}__
___\u{25cb}____
___\u{25cf}____
________
________
";
    let mut b = BitBoard::from_chars(&chars(text)).unwrap();
    assert_eq!(b.count(), (4, 4));
    b.put(Side::Black, BitBoard::position(3, 3));
    assert_eq!(b.count(), (9, 0));
    assert_eq!(b.black & b.white, 0);

    let mut n = NaiveBoard::from_chars(&chars(text)).unwrap();
    n.put(3, 3, Side::Black);
    assert_eq!(n.count(), (9, 0));
    assert_eq!(NaiveBoard::from_chars(&b.format()).unwrap(), n);
}
