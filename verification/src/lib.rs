//! An interactive Sudoku assistant.
//!
//! The board keeps, for every empty cell, the set of digits still legal under
//! the row, column and box constraints, rejects placements that break them,
//! reconstructs candidate sets on undo, and can pick a legal placement at
//! random with a minimum-remaining-values heuristic.

mod board;
mod number;
mod rng;
mod shell;
mod square;
mod superposition;

pub use board::Board;
pub use board::is_peer;
pub use board::valid_loc;
pub use number::Number;
pub use shell::Args;
pub use shell::Choice;
pub use shell::GameChoice;
pub use shell::SetupChoice;
pub use shell::StartChoice;
pub use shell::location_to_string;
pub use shell::parse_coordinate;
pub use shell::parse_location;
pub use shell::parse_number;
pub use square::Square;
pub use superposition::Superposition;
