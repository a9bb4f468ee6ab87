//! One line of text.
use vstd::prelude::*;
use crate::strings::{string_pop, string_push};

verus! {

/// A single line of the document.
pub struct Line {
    pub line: String,
}

impl Line {
    /// An empty line.
    pub fn new() -> (r: Self)
        ensures
            r.line@ == Seq::<char>::empty(),
    {
        Self { line: String::new() }
    }

    /// Appends `c` at the end of the line.
    pub fn push_ch(&mut self, c: char)
        ensures
            final(self).line@ == old(self).line@.push(c),
    {
        string_push(&mut self.line, c);
    }

    /// Removes the last character of the line, if there is one.
    pub fn pop_ch(&mut self)
        ensures
            old(self).line@.len() == 0 ==> final(self).line@ == old(self).line@,
            old(self).line@.len() > 0 ==> final(self).line@ == old(self).line@.drop_last(),
    {
        string_pop(&mut self.line);
    }
}

} // verus!
