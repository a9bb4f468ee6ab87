//! typstty: the editing core of a small Typst text editor.
pub mod editor;
pub mod models;
pub mod strings;
pub mod text_buffer;
