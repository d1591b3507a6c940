//! Substring search over bytes with a bad-character skip table in the
//! manner of Boyer-Moore-Horspool.
pub mod table;
pub mod pattern;
pub mod laws;
