//! A verified line-oriented literal-substring search library.
//!
//! Given a search term and the decoded lines of a text source, the library
//! classifies each line as a match (the term occurs in it as a substring) or a
//! non-match, keeps a bounded window of "before" context, emits trailing
//! "after" context, and decorates matched lines with paired highlight markers.
//! A recursive entry point runs the same scan over a directory tree handed in
//! as plain values.

pub mod highlight;
pub mod line;
pub mod matching;
pub mod records;
pub mod scan;
pub mod search;
