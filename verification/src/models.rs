//! The terminal editor's buffer: lines with a screen cursor, whose editing
//! steps also say what to draw.
pub mod line;
pub mod lines;
