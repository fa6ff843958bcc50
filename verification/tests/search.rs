use reversi::{search_exact, search_exact_with_candidates, BitBoard, CountTurn, Score, Side};

fn chars(s: &str) -> Vec<char> {
    s.chars().collect()
}

#[test]
fn count_with_turn_less_or_greater() {
    // a < b
    let cases = &[
        (CountTurn::new(39, 24, 10), CountTurn::new(40, 24, 10)),
        (CountTurn::new(40, 24, 10), CountTurn::new(40, 23, 10)),
        (CountTurn::new(60, 4, 3), CountTurn::new(10, 0, 3)),
        (CountTurn::new(11, 0, 11), CountTurn::new(10, 0, 10)),
        (CountTurn::new(10, 0, 10), CountTurn::new(11, 0, 10)),
    ];
    for (a, b) in cases {
        assert!(a < b);
        assert!(b > a);
    }
}

#[test]
fn score_flip_swaps_counts() {
    let s = CountTurn::new(40, 24, 10);
    let f = s.flip();
    assert_eq!((f.mine, f.opp, f.turn), (24, 40, 10));
    assert_eq!(f.flip(), s);
}

#[test]
fn with_side_picks_the_right_count() {
    let b = CountTurn::with_side(Side::Black, 33, 31, 60);
    assert_eq!((b.mine, b.opp), (33, 31));
    let w = CountTurn::with_side(Side::White, 33, 31, 60);
    assert_eq!((w.mine, w.opp), (31, 33));
}

#[test]
fn min_max_scores() {
    let lo = CountTurn::min_score();
    let hi = CountTurn::max_score();
    assert!(lo < hi);
    assert_eq!((lo.mine, lo.opp), (0, 64));
    assert_eq!((hi.mine, hi.opp), (64, 0));
}

/// A board with a single empty cell at the top-right, where the dark side
/// captures the one light piece next to it.
fn one_move_left() -> BitBoard {
    let text = "\u{25cf}\u{25cf}\u{25cf}\u{25cf}\u{25cf}\u{25cf}\u{25cb}_
\u{25cf}\u{25cf}\u{25cf}\u{25cf}\u{25cf}\u{25cf}\u{25cf}\u{25cf}
\u{25cf}\u{25cf}\u{25cf}\u{25cf}\u{25cf}\u{25cf}\u{25cf}\u{25cf}
\u{25cf}\u{25cf}\u{25cf}\u{25cf}\u{25cf}\u{25cf}\u{25cf}\u{25cf}
\u{25cf}\u{25cf}\u{25cf}\u{25cf}\u{25cf}\u{25cf}\u{25cf}\u{25cf}
\u{25cf}\u{25cf}\u{25cf}\u{25cf}\u{25cf}\u{25cf}\u{25cf}\u{25cf}
\u{25cf}\u{25cf}\u{25cf}\u{25cf}\u{25cf}\u{25cf}\u{25cf}\u{25cf}
\u{25cf}\u{25cf}\u{25cf}\u{25cf}\u{25cf}\u{25cf}\u{25cf}\u{25cf}
";
    BitBoard::from_chars(&chars(text)).unwrap()
}

#[test]
fn search_exact_finishes_the_game() {
    let b = one_move_left();
    let score = search_exact(&b, Side::Black, false);
    // the one move fills the board and flips the last light piece
    assert_eq!((score.mine, score.opp, score.turn), (64, 0, 1));
    assert_eq!(score.mine as u32 + score.opp as u32, 64);
}

#[test]
fn search_exact_with_candidates_names_the_move() {
    let b = one_move_left();
    let mut cand = b.candidates(Side::Black);
    assert_eq!(cand.len(), 1);
    let (best, score) = search_exact_with_candidates(&b, Side::Black, &mut cand, false);
    assert_eq!(best, BitBoard::position(7, 0));
    assert_eq!((score.mine, score.opp), (64, 0));
}

#[test]
fn search_exact_handles_a_forced_pass() {
    // the light side, to move, has nothing; the dark side then finishes
    let b = one_move_left();
    let score = search_exact(&b, Side::White, false);
    // scored from the light side: it ends wiped out
    assert_eq!((score.mine, score.opp), (0, 64));
}

#[test]
fn search_exact_on_endgame_position() {
    // a few empty cells: the solver must still terminate and fill what can
    // be filled
    let text = "________
\u{25cf}\u{25cf}\u{25cf}\u{25cf}\u{25cf}\u{25cf}\u{25cf}\u{25cf}
\u{25cf}\u{25cb}\u{25cb}\u{25cb}\u{25cb}\u{25cb}\u{25cb}\u{25cf}
\u{25cf}\u{25cb}\u{25cb}\u{25cb}\u{25cb}\u{25cb}\u{25cb}\u{25cf}
\u{25cf}\u{25cb}\u{25cb}\u{25cb}\u{25cb}\u{25cb}\u{25cb}\u{25cf}
\u{25cf}\u{25cb}\u{25cb}\u{25cb}\u{25cb}\u{25cb}\u{25cb}\u{25cf}
\u{25cf}\u{25cf}\u{25cf}\u{25cf}\u{25cf}\u{25cf}\u{25cf}\u{25cf}
\u{25cf}\u{25cf}\u{25cf}\u{25cf}\u{25cf}\u{25cf}\u{25cf}\u{25cf}
";
    let b = BitBoard::from_chars(&chars(text)).unwrap();
    let score = search_exact(&b, Side::Black, false);
    assert!(score.mine as u32 + score.opp as u32 <= 64);
    assert!(score.turn <= 8);
}

#[test]
fn search_with_no_candidates_returns_no_move() {
    // the light side has no move here: no position, and the worst score
    let b = one_move_left();
    let mut cand = b.candidates(Side::White);
    assert_eq!(cand.len(), 0);
    let (best, score) = search_exact_with_candidates(&b, Side::White, &mut cand, false);
    assert_eq!(best, 0);
    assert_eq!((score.mine, score.opp), (CountTurn::min_score().mine, CountTurn::min_score().opp));
}
