//! A pairwise judging scheduler: hands out head-to-head match pairs to judges,
//! records their verdicts and keeps the matches ordered by how often each has
//! been served.
//!
//! - `types`: items, judges, match pairs, phases and errors.
//! - `queue`: the match queue, a double-ended priority queue keyed by match id.
//! - `store`: the concurrent maps that hold items and matches by id.
//! - `random`: fresh ids and random choices.
//! - `seeder`: the pairing of one seed round.
//! - `scheduler`: the scheduling state and its operations.
//!
//! Ratings are carried as the bit patterns of double-precision numbers; the
//! rating arithmetic itself happens outside this crate.
pub mod queue;
pub mod random;
pub mod scheduler;
pub mod seeder;
pub mod store;
pub mod types;
