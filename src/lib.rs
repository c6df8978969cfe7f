//! Low-level primitives of a proof-database verifier: a bit set of small
//! indices, an offset to line/column index, and the scanner that finds
//! chapter headers in a database's text.
pub mod bit_set;
pub mod util;
pub mod line_cache;
