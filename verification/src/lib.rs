pub mod bits;
pub mod board;
pub mod game;
pub mod naive;
pub mod random;
pub mod rules;
pub mod search;
pub mod sym;
pub mod text;

pub use board::{BitBoard, Candidate, Side};
pub use game::{ActionResult, Game};
pub use naive::{Cell, NaiveBoard};
pub use random::{RandomFullSearch, RandomSearch};
pub use search::{search_exact, search_exact_with_candidates, CountTurn, Score, Search};
