//! The editor around the buffer: undo history, keyboard commands and
//! syntax-highlighted segments.
pub mod app;
pub mod app_snapshot;
pub mod highlight_span;
