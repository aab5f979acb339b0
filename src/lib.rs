//! Counting knight paths through every cell of a rectangular board.
//!
//! A path starts on a fixed first cell, continues on a fixed second cell,
//! visits every cell of the board exactly once and ends on a fixed last cell.
//! The board is padded with a margin of sentinel cells, two wide, so that
//! knight moves never need bounds checks. Two searches count the paths: one
//! with a single dead-end check ([`naive`]) and one that keeps live degree
//! counters and forces or cuts branches with them ([`enhanced`]). Both are
//! proved to return the same number, [`tour::tour_count`], the count of the
//! unpruned enumeration.
pub mod enhanced;
pub mod grid;
pub mod knight;
pub mod naive;
pub mod tour;
