//! An in-memory score board for concurrently ongoing two-party contests.
//!
//! The board keeps one record per active game (a home team and an away
//! team, each with a name and a current score) and always holds its records
//! sorted: first by combined score, descending, and among equal combined
//! scores by recency of start, the most recently started game first. A team
//! can take part in at most one active game at a time.
//!
//! The four operations are `start_game`, `update_score`, `finish_game` and
//! `get_summary`; each mutation re-establishes the board's invariants, and
//! every operation's behaviour is stated in its contract and verified. The
//! board's general laws stand in `laws` as proved facts.

pub mod board;
pub mod errors;
pub mod game;
pub mod laws;
pub mod ordering;

pub use board::ScoreBoard;
pub use errors::{Action, BoardError};
pub use game::{Game, Team};
