//! A configuration-driven decode-and-project pipeline over in-memory tables.
//!
//! The library ingests a column-oriented table of optional string cells,
//! rewrites selected columns through first-match-wins substitution tables,
//! derives a summary column by concatenation, projects a fixed ordered set
//! of columns, and offers a CSV codec with a proved round-trip.

pub mod compose;
pub mod csv;
pub mod decode;
pub mod error;
pub mod pipeline;
pub mod table;
