use reversi::random::{rng_new, rng_split};
use reversi::{ActionResult, Game, RandomFullSearch, RandomSearch, Side};

#[test]
fn smoke_enum2d_bit() {
    let mut rng = rng_new(1);
    for _ in 0..100 {
        let mut game = Game::new(
            RandomSearch::new(rng_split(&mut rng)),
            RandomSearch::new(rng_split(&mut rng)),
        );
        let (b, w) = game.play_game();
        assert!(b + w <= 64);
        let mut game = Game::new(
            RandomSearch::new(rng_split(&mut rng)),
            RandomSearch::new(rng_split(&mut rng)),
        );
        let (b, w) = game.play_game();
        assert!(b + w <= 64);
    }
}

#[test]
fn first_turn_is_a_put() {
    let mut rng = rng_new(7);
    let mut game = Game::new(
        RandomSearch::new(rng_split(&mut rng)),
        RandomSearch::new(rng_split(&mut rng)),
    );
    match game.play_one_turn() {
        ActionResult::Put(side, col, row) => {
            assert_eq!(side, Side::Black);
            assert!(col < 8 && row < 8);
        }
        other => panic!("expected a placement, got {:?}", other),
    }
    assert_eq!(game.side, Side::White);
    assert_eq!(game.occupied, 5);
}

#[test]
fn full_search_endgame() {
    // random play until 54 pieces stand, then both sides play exactly
    let mut rng = rng_new(42);
    let mut game = Game::new(
        RandomFullSearch::new(Side::Black, rng_split(&mut rng), 54),
        RandomFullSearch::new(Side::White, rng_split(&mut rng), 54),
    );
    let (b, w) = game.play_game();
    assert!(b + w <= 64);
    assert_eq!(game.board.black & game.board.white, 0);
}

#[test]
fn side_flip_toggles() {
    assert_eq!(Side::Black.flip(), Side::White);
    assert_eq!(Side::White.flip(), Side::Black);
}
