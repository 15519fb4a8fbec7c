//! Folding of iCalendar content lines.
//!
//! A content line longer than [`LIMIT`] bytes is written as several physical
//! lines, each continuation introduced by a carriage return, a line feed and
//! one space. A break is never placed inside a multi-byte character.
pub mod boundary;
pub mod fold;
pub mod laws;
pub mod size;

pub use boundary::{find_cut, next_boundary, Cut, LIMIT};
pub use fold::{fold, SinkError, LINE_BREAK};
pub use size::size;
