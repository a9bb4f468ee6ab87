//! The text buffer: lines of text and a cursor.
pub mod line;
pub mod model;
pub mod lines;
