//! A tile-matching puzzle board with a verified freedom rule, pair
//! enumeration, and an exhaustive alternating-turn search.
//!
//! The board is a fixed 12-by-10 grid of tile identities. A tile is *free*
//! when at least one straight line from it to the board edge is clear of
//! other tiles; two free tiles with the same identity form a removable pair.
//! The search engine explores all removal sequences under alternating
//! maximizing and minimizing turns and returns the optimal score.

pub mod board;
pub mod pairs;
pub mod search;
