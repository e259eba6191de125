//! A small line-oriented pattern matcher: a compiler from pattern text to an
//! expression tree, a backtracking matcher over that tree, and a scanner that
//! finds the leftmost match in a line.
pub mod expression;
pub mod matcher;
pub mod compiler;
pub mod scanner;
pub mod language;
pub mod laws;
