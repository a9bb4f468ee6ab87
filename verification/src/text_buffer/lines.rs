//! The document: a list of lines and a cursor, with the editing primitives.
//!
//! The cursor is kept in character space: `cursor.0` is the column (a
//! character index into the current line) and `cursor.1` is the row, which is
//! always the index of the current line `actual_line`.
use vstd::prelude::*;
use vstd::string::StrSliceExecFns;
use vstd::std_specs::iter::IteratorSpec;
use vstd::utf8::encode_utf8;
use crate::text_buffer::model::{
    joined_text, line_start_byte, lemma_joined_len, lemma_line_start_grows,
    loaded, loaded_lines, lemma_word_boundaries_in_line, next_word_boundary, prev_word_boundary,
    lemma_saved_text_push, saved_text_of, skip_spaces_left, skip_spaces_right, skip_word_left, skip_word_right,
    split_lines, split_lines_from, strip_cr, LinesView,
};
use crate::strings::{
    byte_offset, char_is_whitespace, string_pop, string_push, char_len_utf8, lemma_byte_offset_bounds,
    lemma_byte_offset_step, str_chars, string_insert, string_push_str, string_remove,
    string_split_off,
};

verus! {

// ---------------------------------------------------------------------------
// The buffer
// ---------------------------------------------------------------------------

/// Pure text buffer: the document's lines and the cursor.
#[derive(Debug)]
pub struct Lines {
    lines: Vec<String>,
    /// Index into `lines` of the row the cursor sits on.
    actual_line: usize,
    /// `(col, row)` in character space (0-based).
    cursor: (usize, usize),
}

impl View for Lines {
    type V = LinesView;

    closed spec fn view(&self) -> LinesView {
        LinesView {
            lines: self.lines@.map_values(|l: String| l@),
            actual_line: self.actual_line,
            cursor: self.cursor,
        }
    }
}

impl Clone for Lines {
    fn clone(&self) -> (r: Self)
        ensures
            r@ == self@,
    {
        let r = Lines { lines: self.lines.clone(), actual_line: self.actual_line, cursor: self.cursor };
        assert(r.lines@ =~= self.lines@);
        r
    }
}

impl Lines {
    /// The buffer is consistent (see [`LinesView::wf`]), and its sizes fit
    /// in a `usize` (see [`LinesView::fits_machine`]).
    pub open spec fn wf(&self) -> bool {
        self@.wf() && self@.fits_machine()
    }

    /// The line the cursor is on.
    pub open spec fn current(&self) -> Seq<char> {
        self@.current()
    }

    proof fn lemma_view_len(&self)
        ensures
            self@.lines.len() == self.lines@.len(),
            forall|i: int| 0 <= i < self.lines@.len() ==> #[trigger] self@.lines[i] == self.lines@[i]@,
    {
    }

    /// A buffer with one empty line and the cursor at its start.
    pub fn new() -> (r: Self)
        ensures
            r.wf(),
            r@.lines == seq![Seq::<char>::empty()],
            r@.actual_line == 0,
            r@.cursor == (0usize, 0usize),
    {
        let r = Self { lines: vec![String::new()], actual_line: 0, cursor: (0, 0) };
        assert(r@.lines =~= seq![Seq::<char>::empty()]);
        r
    }

    // -----------------------------------------------------------------------
    // Read-only accessors
    // -----------------------------------------------------------------------

    /// The lines of the document.
    pub fn lines(&self) -> (r: &[String])
        ensures
            r@.map_values(|l: String| l@) == self@.lines,
    {
        self.lines.as_slice()
    }

    /// The cursor column.
    pub fn col(&self) -> (r: usize)
        ensures
            r == self@.cursor.0,
    {
        self.cursor.0
    }

    /// The cursor row.
    pub fn row(&self) -> (r: usize)
        ensures
            r == self@.cursor.1,
    {
        self.cursor.1
    }

    // -----------------------------------------------------------------------
    // Editing primitives
    // -----------------------------------------------------------------------

    /// Insert `c` at the current cursor position and advance the cursor.
    pub fn push_char(&mut self, c: char)
        requires
            old(self).wf(),
        ensures
            final(self).wf(),
            final(self)@ == old(self)@.after_push_char(c),
    {
        proof {
            self.lemma_view_len();
        }
        let col = self.col();
        let al = self.actual_line;
        let byte_idx = Self::char_to_byte_offset(self.lines[al].as_str(), col);
        assert(byte_idx == byte_offset(self.lines@[al as int]@, col as int));
        string_insert(&mut self.lines[al], byte_idx, c);
        // A line holds no more characters than bytes, so the column fits.
        let _line_bytes = self.lines[al].as_str().as_bytes().len();
        proof {
            let line = self.lines@[al as int]@;
            lemma_byte_offset_bounds(line, line.len() as int);
            lemma_byte_offset_bounds(line, 0);
        }
        self.cursor.0 = self.cursor.0 + 1;
        assert(self@ =~= old(self)@.after_push_char(c));
    }

    /// Backspace: delete the character left of the cursor, or, at the start
    /// of a line, join the line to the previous one.
    pub fn pop_char(&mut self)
        requires
            old(self).wf(),
        ensures
            final(self).wf(),
            final(self)@ == old(self)@.after_pop_char(),
    {
        if self.col() == 0 {
            self.merge_with_previous_line();
            return;
        }
        self.remove_before_cursor();
    }

    /// Deletes the character just left of the cursor, which is not at the
    /// start of its line.
    fn remove_before_cursor(&mut self)
        requires
            old(self).wf(),
            old(self)@.cursor.0 > 0,
        ensures
            final(self).wf(),
            final(self)@ == old(self)@.after_pop_char(),
    {
        proof {
            self.lemma_view_len();
        }
        let col = self.col();
        let al = self.actual_line;
        let byte_idx = Self::char_to_byte_offset(self.lines[al].as_str(), col - 1);
        assert(byte_idx == byte_offset(self.lines@[al as int]@, col - 1));
        string_remove(&mut self.lines[al], byte_idx);
        self.cursor.0 = self.cursor.0 - 1;
        assert(self@.lines =~= old(self)@.lines.update(al as int, old(self).current().remove(col - 1)));
    }

    /// Ctrl+Backspace: delete back to the previous word boundary, or, at the
    /// start of a line, join the line to the previous one.
    pub fn pop_word(&mut self)
        requires
            old(self).wf(),
        ensures
            final(self).wf(),
            final(self)@ == old(self)@.after_pop_word(),
    {
        if self.col() == 0 {
            self.merge_with_previous_line();
            return;
        }
        let ghost orig = self@.lines;
        let ghost cur = self.current();
        let ghost al = self.actual_line as int;
        let col0 = self.col();
        let target = self.prev_word_boundary(col0);
        proof {
            lemma_word_boundaries_in_line(cur, col0 as int);
        }
        let chars_to_remove = col0 - target;
        let mut n: usize = 0;
        let ghost c0: int = col0 as int;
        assert(cur.take(c0) + cur.skip(c0) =~= cur);
        assert(orig.update(al, cur) =~= orig);
        while n < chars_to_remove
            invariant
                self.wf(),
                c0 == col0,
                0 <= target <= c0 <= cur.len(),
                chars_to_remove == c0 - target,
                n <= chars_to_remove,
                self.actual_line == al,
                self@.actual_line == al,
                0 <= al < orig.len(),
                self@.cursor == ((c0 - n) as usize, al as usize),
                c0 - n > target || n == chars_to_remove,
                self@.lines == orig.update(al, cur.take(c0 - n) + cur.skip(c0)),
            decreases chars_to_remove - n,
        {
            let ghost x = cur.take(c0 - n) + cur.skip(c0);
            assert(self.current() == x);
            self.remove_before_cursor();
            n = n + 1;
            assert(x.remove(c0 - n) =~= cur.take(c0 - n) + cur.skip(c0));
            assert(self@.lines == orig.update(al, x).update(al, x.remove(c0 - n)));
            assert(self@.lines =~= orig.update(al, cur.take(c0 - n) + cur.skip(c0)));
        }
    }

    /// Enter: split the current line at the cursor, push the tail onto a new line.
    pub fn newline(&mut self)
        requires
            old(self).wf(),
        ensures
            final(self).wf(),
            final(self)@ == old(self)@.after_newline(),
    {
        proof {
            self.lemma_view_len();
        }
        let col = self.col();
        let al = self.actual_line;
        let byte_idx = Self::char_to_byte_offset(self.lines[al].as_str(), col);
        assert(byte_idx == byte_offset(self.lines@[al as int]@, col as int));
        let n = self.lines.len();
        let tail = string_split_off(&mut self.lines[al], byte_idx);
        if self.is_eof() {
            self.lines.push(tail);
        } else {
            self.lines.insert(al + 1, tail);
        }
        let _n_lines = self.lines.len();
        self.actual_line = self.actual_line + 1;
        self.cursor = (0, self.actual_line);
        assert(self@.lines =~= old(self)@.lines.update(al as int, old(self).current().take(col as int)).insert(
            al + 1,
            old(self).current().skip(col as int),
        ));
        assert forall|i: int| 0 <= i < self@.lines.len() implies #[trigger] self@.lines[i].len()
            <= usize::MAX by {
            if i < al {
                assert(self@.lines[i] == old(self)@.lines[i]);
            } else if i > al + 1 {
                assert(self@.lines[i] == old(self)@.lines[i - 1]);
            }
        }
    }

    /// Move the cursor one character to the left, wrapping to the previous line.
    pub fn move_left(&mut self)
        requires
            old(self).wf(),
        ensures
            final(self).wf(),
            final(self)@ == old(self)@.after_move_left(),
    {
        if self.col() > 0 {
            self.cursor.0 = self.cursor.0 - 1;
        } else if self.actual_line > 0 {
            self.actual_line = self.actual_line - 1;
            self.cursor.1 = self.cursor.1 - 1;
            self.cursor.0 = self.current_line_len();
        }
    }

    /// Move the cursor one character to the right, wrapping to the next line.
    pub fn move_right(&mut self)
        requires
            old(self).wf(),
        ensures
            final(self).wf(),
            final(self)@ == old(self)@.after_move_right(),
    {
        if self.col() < self.current_line_len() {
            self.cursor.0 = self.cursor.0 + 1;
        } else if !self.is_eof() {
            self.actual_line = self.actual_line + 1;
            self.cursor.1 = self.cursor.1 + 1;
            self.cursor.0 = 0;
        }
    }

    /// Ctrl+Right: jump to the end of the next word, wrapping to the next line.
    pub fn move_ctrl_right(&mut self)
        requires
            old(self).wf(),
        ensures
            final(self).wf(),
            final(self)@ == old(self)@.after_move_ctrl_right(),
    {
        let line_char_len = self.current_line_len();
        if self.col() < line_char_len {
            let current_col = self.col();
            let new_col = self.next_word_boundary(current_col, line_char_len);
            proof {
                lemma_word_boundaries_in_line(self.current(), current_col as int);
            }
            self.cursor.0 = new_col;
        } else if !self.is_eof() {
            self.actual_line = self.actual_line + 1;
            self.cursor.1 = self.cursor.1 + 1;
            self.cursor.0 = 0;
        }
    }

    /// Ctrl+Left: jump to the start of the previous word, wrapping to the
    /// previous line.
    pub fn move_ctrl_left(&mut self)
        requires
            old(self).wf(),
        ensures
            final(self).wf(),
            final(self)@ == old(self)@.after_move_ctrl_left(),
    {
        if self.col() > 0 {
            let current_col = self.col();
            proof {
                lemma_word_boundaries_in_line(self.current(), current_col as int);
            }
            self.cursor.0 = self.prev_word_boundary(current_col);
        } else if self.actual_line > 0 {
            self.actual_line = self.actual_line - 1;
            self.cursor.1 = self.cursor.1 - 1;
            self.cursor.0 = self.current_line_len();
        }
    }

    /// Move the cursor one row up, clamping the column to the new line length.
    pub fn move_up(&mut self)
        requires
            old(self).wf(),
        ensures
            final(self).wf(),
            final(self)@ == old(self)@.after_move_up(),
    {
        if self.actual_line > 0 {
            self.actual_line = self.actual_line - 1;
            self.cursor.1 = self.cursor.1 - 1;
            self.cursor.0 = self.cursor.0.min(self.current_line_len());
        }
    }

    /// Move the cursor one row down, clamping the column to the new line length.
    pub fn move_down(&mut self)
        requires
            old(self).wf(),
        ensures
            final(self).wf(),
            final(self)@ == old(self)@.after_move_down(),
    {
        if !self.is_eof() {
            self.actual_line = self.actual_line + 1;
            self.cursor.1 = self.cursor.1 + 1;
            self.cursor.0 = self.cursor.0.min(self.current_line_len());
        }
    }

    /// Jump the cursor to the beginning of the current line (Home key).
    pub fn move_home(&mut self)
        requires
            old(self).wf(),
        ensures
            final(self).wf(),
            final(self)@ == old(self)@.after_move_home(),
    {
        self.cursor.0 = 0;
    }

    /// Jump the cursor to the end of the current line (End key).
    pub fn move_end(&mut self)
        requires
            old(self).wf(),
        ensures
            final(self).wf(),
            final(self)@ == old(self)@.after_move_end(),
    {
        self.cursor.0 = self.current_line_len();
    }

    /// Replace the entire buffer with `text` (used when opening an existing file).
    pub fn load_from_str(&mut self, text: &str)
        ensures
            final(self).wf(),
            final(self)@ == loaded(text@),
    {
        self.lines = text_lines(text);
        if self.lines.is_empty() {
            self.lines.push(String::new());
        }
        let _n_lines = self.lines.len();
        self.actual_line = 0;
        self.cursor = (0, 0);
        proof {
            self.lemma_view_len();
        }
        assert(self@.lines =~= loaded_lines(text@));
    }

    /// The text that saving the buffer writes: every line followed by `\n`.
    pub fn saved_text(&self) -> (r: String)
        ensures
            r@ == saved_text_of(self@.lines),
    {
        proof {
            self.lemma_view_len();
        }
        let ghost lines = self@.lines;
        let mut r = String::new();
        let n = self.lines.len();
        let mut i: usize = 0;
        assert(lines.take(0) =~= Seq::<Seq<char>>::empty());
        while i < n
            invariant
                lines == self@.lines,
                n == lines.len(),
                n == self.lines@.len(),
                i <= n,
                forall|k: int| 0 <= k < self.lines@.len() ==> #[trigger] lines[k] == self.lines@[k]@,
                r@ == saved_text_of(lines.take(i as int)),
            decreases n - i,
        {
            string_push_str(&mut r, self.lines[i].as_str());
            string_push(&mut r, '\n');
            proof {
                assert(lines.take(i + 1) =~= lines.take(i as int).push(lines[i as int]));
                lemma_saved_text_push(lines.take(i as int), lines[i as int]);
            }
            i = i + 1;
        }
        assert(lines.take(n as int) =~= lines);
        r
    }

    /// The whole document as one text: the lines joined by `\n`.
    pub fn full_text(&self) -> (r: String)
        ensures
            r@ == joined_text(self@.lines),
    {
        proof {
            self.lemma_view_len();
        }
        let ghost lines = self@.lines;
        let mut r = String::new();
        let n = self.lines.len();
        let mut i: usize = 0;
        assert(lines.take(0) =~= Seq::<Seq<char>>::empty());
        while i < n
            invariant
                lines == self@.lines,
                n == lines.len(),
                n == self.lines@.len(),
                i <= n,
                forall|k: int| 0 <= k < self.lines@.len() ==> #[trigger] lines[k] == self.lines@[k]@,
                r@ == joined_text(lines.take(i as int)),
            decreases n - i,
        {
            if i > 0 {
                string_push(&mut r, '\n');
            }
            string_push_str(&mut r, self.lines[i].as_str());
            proof {
                let next = lines.take(i + 1);
                assert(next.drop_last() =~= lines.take(i as int));
                assert(next.last() == lines[i as int]);
                if i == 0 {
                    assert(r@ =~= lines[0]);
                } else {
                    assert(r@ =~= joined_text(lines.take(i as int)) + seq!['\n'] + lines[i as int]);
                }
            }
            i = i + 1;
        }
        assert(lines.take(n as int) =~= lines);
        r
    }

    /// The byte at which each line starts in the UTF-8 text of
    /// [`Lines::full_text`].
    pub fn line_byte_offsets(&self) -> (r: Vec<usize>)
        requires
            encode_utf8(joined_text(self@.lines)).len() <= usize::MAX,
        ensures
            r@.len() == self@.lines.len(),
            forall|i: int| 0 <= i < r@.len() ==> #[trigger] r@[i] == line_start_byte(self@.lines, i),
    {
        proof {
            self.lemma_view_len();
        }
        let ghost lines = self@.lines;
        let n = self.lines.len();
        let mut offsets: Vec<usize> = Vec::new();
        let mut off: usize = 0;
        let mut i: usize = 0;
        proof {
            if n > 0 {
                lemma_joined_len(lines);
                lemma_line_start_grows(lines, n - 1, n - 1);
            }
        }
        while i < n
            invariant
                lines == self@.lines,
                n == lines.len(),
                n == self.lines@.len(),
                i <= n,
                forall|k: int| 0 <= k < self.lines@.len() ==> #[trigger] lines[k] == self.lines@[k]@,
                n > 0 ==> line_start_byte(lines, n - 1) <= usize::MAX,
                i < n ==> off == line_start_byte(lines, i as int),
                offsets@.len() == i,
                forall|k: int| 0 <= k < i ==> #[trigger] offsets@[k] == line_start_byte(lines, k),
            decreases n - i,
        {
            offsets.push(off);
            if i + 1 < n {
                let w = self.lines[i].as_str().as_bytes().len();
                proof {
                    lemma_line_start_grows(lines, i + 1, n - 1);
                }
                off = off + w + 1;
            }
            i = i + 1;
        }
        offsets
    }

    // -----------------------------------------------------------------------
    // Private helpers
    // -----------------------------------------------------------------------

    /// Number of characters in the current line.
    fn current_line_len(&self) -> (r: usize)
        requires
            self.actual_line < self@.lines.len(),
        ensures
            r == self.current().len(),
    {
        proof {
            self.lemma_view_len();
        }
        self.lines[self.actual_line].as_str().unicode_len()
    }

    /// The cursor is on the last line.
    fn is_eof(&self) -> (r: bool)
        requires
            self@.actual_line < self@.lines.len(),
        ensures
            r == self@.at_last_line(),
            self@.lines.len() <= usize::MAX,
    {
        proof {
            self.lemma_view_len();
        }
        let n = self.lines.len();
        self.actual_line + 1 == n
    }

    /// Join the current line onto the previous one; nothing happens on the
    /// first line.
    fn merge_with_previous_line(&mut self)
        requires
            old(self).wf(),
        ensures
            final(self).wf(),
            final(self)@ == old(self)@.after_merge(),
    {
        if self.actual_line == 0 {
            return;
        }
        proof {
            self.lemma_view_len();
        }
        let ghost before = *self;
        let current = self.lines.remove(self.actual_line);
        self.actual_line = self.actual_line - 1;
        self.cursor.1 = self.cursor.1 - 1;
        let al = self.actual_line;
        let prev_char_count = self.lines[al].as_str().unicode_len();
        self.cursor.0 = prev_char_count;
        string_push_str(&mut self.lines[al], current.as_str());
        // The joined line holds no more characters than bytes.
        let _joined_bytes = self.lines[al].as_str().as_bytes().len();
        proof {
            self.lemma_view_len();
            let joined = self.lines@[al as int]@;
            lemma_byte_offset_bounds(joined, joined.len() as int);
            lemma_byte_offset_bounds(joined, 0);
        }
        assert(self@.lines =~= before@.lines.remove(before.actual_line as int).update(
            before.actual_line - 1,
            before@.lines[before.actual_line - 1] + before.current(),
        ));
        assert forall|i: int| 0 <= i < self@.lines.len() implies #[trigger] self@.lines[i].len()
            <= usize::MAX by {
            if i < al {
                assert(self@.lines[i] == before@.lines[i]);
            } else if i > al {
                assert(self@.lines[i] == before@.lines[i + 1]);
            }
        }
    }

    /// The byte offset at which character `char_offset` of `s` starts, or the
    /// byte length of `s` when it has no such character.
    pub fn char_to_byte_offset(s: &str, char_offset: usize) -> (r: usize)
        ensures
            char_offset <= s@.len() ==> r == byte_offset(s@, char_offset as int),
            char_offset > s@.len() ==> r == byte_offset(s@, s@.len() as int),
    {
        let total = s.as_bytes().len();
        let ghost v = s@;
        proof {
            lemma_byte_offset_bounds(v, v.len() as int);
        }
        let mut it = s.chars();
        let mut i: usize = 0;
        let mut b: usize = 0;
        assert(v.take(0) =~= Seq::<char>::empty());
        assert(v.skip(0) =~= v);
        while i < char_offset
            invariant
                it.obeys_prophetic_iter_laws(),
                v == s@,
                i <= v.len(),
                i <= char_offset,
                it.remaining() == v.skip(i as int),
                b == byte_offset(v, i as int),
                total == byte_offset(v, v.len() as int),
            decreases char_offset - i,
        {
            match it.next() {
                Some(c) => {
                    assert(c == v[i as int]);
                    proof {
                        lemma_byte_offset_step(v, i as int);
                        lemma_byte_offset_bounds(v, i + 1);
                    }
                    let w = char_len_utf8(c);
                    b = b + w;
                    i = i + 1;
                    assert(it.remaining() =~= v.skip(i as int));
                },
                None => {
                    assert(i == v.len());
                    return b;
                },
            }
        }
        b
    }

    /// The end of the word that starts after the whitespace at `from_char`
    /// (see [`next_word_boundary`]), clamped to `line_char_len`.
    fn next_word_boundary(&self, from_char: usize, line_char_len: usize) -> (r: usize)
        requires
            self.actual_line < self@.lines.len(),
            line_char_len == self.current().len(),
            from_char <= line_char_len,
        ensures
            r == next_word_boundary(self.current(), from_char as int),
    {
        proof {
            self.lemma_view_len();
        }
        let chars = str_chars(self.lines[self.actual_line].as_str());
        let ghost s = chars@;
        let n = chars.len();
        // Skip the spaces at the current position.
        let mut j = from_char;
        while j < n && char_is_whitespace(chars[j])
            invariant
                s == chars@,
                n == s.len(),
                from_char <= j <= n,
                skip_spaces_right(s, j as int) == skip_spaces_right(s, from_char as int),
            decreases n - j,
        {
            j = j + 1;
        }
        let after_spaces = if j < n {
            j - from_char
        } else {
            0
        };
        let start = from_char + after_spaces;
        // Then skip the word.
        let mut k = start;
        while k < n && !char_is_whitespace(chars[k])
            invariant
                s == chars@,
                n == s.len(),
                start <= k <= n,
                skip_word_right(s, k as int) == skip_word_right(s, start as int),
            decreases n - k,
        {
            k = k + 1;
        }
        let word_len = k - start;
        (start + word_len).min(line_char_len)
    }

    /// The start of the word before `from_char` (see [`prev_word_boundary`]).
    fn prev_word_boundary(&self, from_char: usize) -> (r: usize)
        requires
            self.actual_line < self@.lines.len(),
            from_char <= self.current().len(),
        ensures
            r == prev_word_boundary(self.current(), from_char as int),
    {
        proof {
            self.lemma_view_len();
        }
        let chars = str_chars(self.lines[self.actual_line].as_str());
        let ghost s = chars@;
        let mut col = from_char;
        // Skip the spaces immediately to the left.
        while col > 0 && char_is_whitespace(chars[col - 1])
            invariant
                s == chars@,
                col <= from_char <= s.len(),
                skip_spaces_left(s, col as int) == skip_spaces_left(s, from_char as int),
            decreases col,
        {
            col = col - 1;
        }
        let ghost mid = col as int;
        // Skip the word characters.
        while col > 0 && !char_is_whitespace(chars[col - 1])
            invariant
                s == chars@,
                col <= mid <= s.len(),
                mid == skip_spaces_left(s, from_char as int),
                skip_word_left(s, col as int) == skip_word_left(s, mid),
            decreases col,
        {
            col = col - 1;
        }
        col
    }
}

/// The lines of `text` (as `str::lines` splits them), each as an owned string.
fn text_lines(text: &str) -> (r: Vec<String>)
    ensures
        r@.map_values(|l: String| l@) == split_lines(text@),
        forall|k: int| 0 <= k < r@.len() ==> #[trigger] r@[k]@.len() <= usize::MAX,
{
    let chars = str_chars(text);
    let ghost t = chars@;
    let _n_chars = chars.len();
    let mut out: Vec<String> = Vec::new();
    let mut cur = String::new();
    let mut last_cr = false;
    let mut i: usize = 0;
    assert(t.skip(0) =~= t);
    assert(out@.map_values(|l: String| l@) =~= Seq::<Seq<char>>::empty());
    while i < chars.len()
        invariant
            t == chars@,
            t == text@,
            i <= t.len(),
            last_cr == (cur@.len() > 0 && cur@.last() == '\r'),
            out@.map_values(|l: String| l@) + split_lines_from(t.skip(i as int), cur@)
                == split_lines(t),
            t.len() <= usize::MAX,
            cur@.len() <= i,
            forall|k: int| 0 <= k < out@.len() ==> #[trigger] out@[k]@.len() <= i,
        decreases t.len() - i,
    {
        let c = chars[i];
        let ghost rest = t.skip(i as int);
        assert(rest[0] == c);
        assert(rest.drop_first() =~= t.skip(i + 1));
        let ghost before = out@.map_values(|l: String| l@);
        let ghost oc = cur@;
        if c == '\n' {
            let mut line = cur;
            cur = String::new();
            if last_cr {
                string_pop(&mut line);
            }
            assert(line@ == strip_cr(oc));
            out.push(line);
            last_cr = false;
            assert(out@.map_values(|l: String| l@) =~= before.push(line@));
        } else {
            string_push(&mut cur, c);
            last_cr = c == '\r';
        }
        i = i + 1;
    }
    if !cur.as_str().is_empty() {
        out.push(cur);
    }
    out
}

} // verus!
