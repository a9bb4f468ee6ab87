//! One line of the terminal editor.
use vstd::prelude::*;
use crate::strings::{string_pop, string_push};

verus! {

/// A line of the terminal editor's document.
pub struct Line {
    pub line: String,
    pub is_active: bool,
}

impl Line {
    /// An empty, inactive line.
    pub fn new() -> (r: Self)
        ensures
            r.line@ == Seq::<char>::empty(),
            r.is_active == false,
    {
        Self { line: String::new(), is_active: false }
    }

    /// Appends `c` at the end of the line.
    pub fn push_ch(&mut self, c: char)
        ensures
            final(self).line@ == old(self).line@.push(c),
            final(self).is_active == old(self).is_active,
    {
        string_push(&mut self.line, c);
    }

    /// Removes the last character of the line, if there is one.
    pub fn pop_ch(&mut self)
        ensures
            final(self).line@ == (if old(self).line@.len() == 0 {
                old(self).line@
            } else {
                old(self).line@.drop_last()
            }),
            final(self).is_active == old(self).is_active,
    {
        string_pop(&mut self.line);
    }
}

} // verus!
