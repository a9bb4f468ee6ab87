//! A saved copy of the buffer, for undo and redo.
use vstd::prelude::*;
use crate::text_buffer::lines::Lines;

verus! {

/// The buffer as it was at one point of the editing history.
#[derive(Clone)]
pub struct AppSnapshot {
    pub buffer: Lines,
}

} // verus!
