//! The terminal editor's document. The screen cursor sits two columns right
//! of the text (column 0 holds a marker or the line number, column 1 a
//! space), so `x - 2` is the byte position in the current line. Every editing
//! step updates the document and returns the terminal commands that redraw
//! what changed, in the order they are to be sent.
use vstd::prelude::*;
use vstd::utf8::encode_utf8;
use crate::models::line::Line;
use crate::strings::{
    byte_offset, lemma_encode_concat, lemma_encode_single, string_insert, string_push_str, utf8_width,
};

verus! {

/// One thing to send to the terminal.
#[derive(Debug, Clone, Copy, PartialEq, Eq)]
pub enum TermCommand {
    /// Move the cursor to `(column, row)`.
    MoveTo(u16, u16),
    /// Print a number in decimal.
    PrintNumber(u16),
    /// Print one character.
    PrintChar(char),
    /// Flush what was printed.
    Flush,
    /// Hide the cursor.
    HideCursor,
    /// Show the cursor.
    ShowCursor,
    /// Clear from the cursor to the end of the row.
    ClearUntilNewLine,
}

/// What the terminal document holds, as mathematical values.
#[verifier::ext_equal]
pub struct TermLinesView {
    /// The text of each line.
    pub texts: Seq<Seq<char>>,
    /// The `is_active` flag of each line.
    pub active: Seq<bool>,
    /// Index of the line the cursor is on.
    pub actual_line: u16,
    /// `(x, y)` of the screen cursor.
    pub cursor: (u16, u16),
}

/// The byte length of `s` as the terminal editor keeps it: truncated to 16 bits.
pub open spec fn end_of(s: Seq<char>) -> u16 {
    encode_utf8(s).len() as u16
}

/// Redrawing row `y` holding `text`: hide the cursor, clear the row, print the
/// row number, a space and the text, show the cursor.
pub open spec fn rerender_commands(y: u16, text: Seq<char>) -> Seq<TermCommand> {
    seq![
        TermCommand::HideCursor,
        TermCommand::MoveTo(0, y),
        TermCommand::ClearUntilNewLine,
        TermCommand::PrintNumber(y),
        TermCommand::PrintChar(' '),
    ] + print_chars(text) + seq![TermCommand::ShowCursor]
}

/// Printing the character `c`.
pub open spec fn print_char(c: char) -> TermCommand {
    TermCommand::PrintChar(c)
}

/// Printing each character of `text` in turn.
pub open spec fn print_chars(text: Seq<char>) -> Seq<TermCommand>
    decreases text.len(),
{
    if text.len() == 0 {
        Seq::empty()
    } else {
        print_chars(text.drop_last()).push(print_char(text.last()))
    }
}

/// Writing the number of row `y` in the gutter of an empty row, then coming
/// back to the cursor at `(x, y)`.
pub open spec fn number_commands(x: u16, y: u16) -> Seq<TermCommand> {
    seq![
        TermCommand::MoveTo(0, y),
        TermCommand::PrintNumber(y),
        TermCommand::Flush,
        TermCommand::MoveTo(x, y),
    ]
}

impl TermLinesView {
    /// Consistent state: one flag per line, at least one line and at most
    /// 65536, and the cursor row is the current line.
    pub open spec fn wf(self) -> bool {
        &&& self.texts.len() >= 1
        &&& self.texts.len() <= 65536
        &&& self.active.len() == self.texts.len()
        &&& self.actual_line < self.texts.len()
        &&& self.cursor.1 == self.actual_line
    }

    pub open spec fn x(self) -> u16 {
        self.cursor.0
    }

    pub open spec fn y(self) -> u16 {
        self.cursor.1
    }

    /// The text of the line the cursor is on.
    pub open spec fn current(self) -> Seq<char> {
        self.texts[self.actual_line as int]
    }

    /// The cursor is at the end of the current line.
    pub open spec fn is_eol(self) -> bool {
        (self.x() - 2) as u16 == end_of(self.current())
    }

    /// The current line is empty (its 16-bit byte length is 0).
    pub open spec fn is_current_line_empty(self) -> bool {
        end_of(self.current()) == 0
    }

    /// The cursor is on the last line.
    pub open spec fn is_eof(self) -> bool {
        self.actual_line + 1 == self.texts.len() % 65536
    }

    /// The character index that starts at byte `x - 2` of the current line.
    pub open spec fn insert_index(self) -> int {
        choose|k: int| 0 <= k <= self.current().len() && byte_offset(self.current(), k) == self.x() - 2
    }

    /// Typing is possible: the cursor is at the end of the line or on a
    /// character boundary of it, and can move one column right.
    pub open spec fn can_push_char(self) -> bool {
        &&& 2 <= self.x() < u16::MAX
        &&& self.is_eol() || exists|k: int|
            0 <= k <= self.current().len() && byte_offset(self.current(), k) == self.x() - 2
    }

    /// The state after typing `c`.
    pub open spec fn after_push_char(self, c: char) -> TermLinesView {
        let text = if self.is_eol() {
            self.current().push(c)
        } else {
            self.current().insert(self.insert_index(), c)
        };
        TermLinesView {
            texts: self.texts.update(self.actual_line as int, text),
            cursor: ((self.x() + 1) as u16, self.y()),
            ..self
        }
    }

    /// What typing `c` draws.
    pub open spec fn push_char_commands(self, c: char) -> Seq<TermCommand> {
        let after = self.after_push_char(c);
        (if self.is_eol() {
            (if self.is_current_line_empty() {
                number_commands(self.x(), self.y())
            } else {
                Seq::empty()
            }) + seq![TermCommand::PrintChar(c), TermCommand::Flush]
        } else {
            rerender_commands(self.y(), after.current())
        }) + seq![TermCommand::MoveTo(after.x(), after.y())]
    }

    /// The line the cursor goes back to when Backspace at the start of the
    /// last line joins it to the previous one.
    pub open spec fn joins_lines(self) -> bool {
        self.x() == 2 && self.is_eof() && self.texts.len() > 1
    }

    /// The state after Backspace: at the end of a line (not at its start) the
    /// last character goes; at the start of the last line, that line is
    /// joined onto the previous one; anything else is left as it is.
    pub open spec fn after_pop_char(self) -> TermLinesView {
        if self.x() != 2 {
            if self.is_eol() {
                let text = if self.current().len() == 0 {
                    self.current()
                } else {
                    self.current().drop_last()
                };
                TermLinesView {
                    texts: self.texts.update(self.actual_line as int, text),
                    cursor: ((self.x() - 1) as u16, self.y()),
                    ..self
                }
            } else {
                self
            }
        } else if self.joins_lines() {
            let prev = self.texts[self.actual_line - 1];
            TermLinesView {
                texts: self.texts.drop_last().update(self.actual_line - 1, prev + self.current()),
                active: self.active.drop_last(),
                actual_line: (self.actual_line - 1) as u16,
                cursor: (
                    (encode_utf8(prev).len() + 2) as u16,
                    (self.y() - 1) as u16,
                ),
            }
        } else {
            self
        }
    }

    /// Backspace can be computed: the cursor is right of the gutter, at the start of a row the row below it
    /// exists in 16 bits, and the joined line's byte length plus the gutter
    /// fits in a `usize`.
    pub open spec fn can_pop_char(self) -> bool {
        &&& self.x() >= 2
        &&& self.x() == 2 ==> self.actual_line < u16::MAX
        &&& self.joins_lines() ==> encode_utf8(self.texts[self.actual_line - 1]).len() + 2
            <= usize::MAX
    }

    /// What Backspace draws.
    pub open spec fn pop_char_commands(self) -> Seq<TermCommand> {
        let after = self.after_pop_char();
        if self.x() != 2 {
            if self.is_eol() {
                seq![
                    TermCommand::MoveTo(after.x(), after.y()),
                    TermCommand::PrintChar(' '),
                    TermCommand::Flush,
                    TermCommand::MoveTo(after.x(), after.y()),
                ]
            } else {
                Seq::empty()
            }
        } else if self.joins_lines() {
            seq![
                TermCommand::MoveTo(0, self.y()),
                TermCommand::PrintChar('~'),
                TermCommand::MoveTo(2, self.y()),
                TermCommand::ClearUntilNewLine,
            ] + rerender_commands(after.y(), after.current()) + seq![
                TermCommand::MoveTo(after.x(), after.y()),
            ]
        } else {
            Seq::empty()
        }
    }

    /// The state after Enter: the cursor goes to the start of the next row,
    /// which is created as an empty line when the cursor was on the last one.
    pub open spec fn after_newline(self) -> TermLinesView {
        let grow = self.y() + 1 == self.texts.len();
        TermLinesView {
            texts: if grow {
                self.texts.push(Seq::empty())
            } else {
                self.texts
            },
            active: if grow {
                self.active.push(false)
            } else {
                self.active
            },
            actual_line: (self.actual_line + 1) as u16,
            cursor: (2, (self.y() + 1) as u16),
        }
    }

    /// What Enter draws.
    pub open spec fn newline_commands(self) -> Seq<TermCommand> {
        (if self.is_current_line_empty() {
            number_commands(self.x(), self.y())
        } else {
            Seq::empty()
        }) + seq![TermCommand::MoveTo(2, (self.y() + 1) as u16)]
    }

    /// The state after Left: at the start of a row below the first, to the
    /// end of the previous row; otherwise one column left if not at the start.
    pub open spec fn after_left(self) -> TermLinesView {
        if self.x() == 2 && self.y() > 0 {
            let line = (self.actual_line - 1) as u16;
            TermLinesView {
                actual_line: line,
                cursor: ((end_of(self.texts[line as int]) + 2) as u16, (self.y() - 1) as u16),
                ..self
            }
        } else if self.x() > 2 {
            TermLinesView { cursor: ((self.x() - 1) as u16, self.y()), ..self }
        } else {
            self
        }
    }

    /// Left can be computed: the previous row's end fits the screen columns.
    pub open spec fn can_left(self) -> bool {
        self.x() == 2 && self.y() > 0 ==> end_of(self.texts[self.actual_line - 1]) + 2 <= u16::MAX
    }

    /// What Left draws.
    pub open spec fn left_commands(self) -> Seq<TermCommand> {
        let after = self.after_left();
        if (self.x() == 2 && self.y() > 0) || self.x() > 2 {
            seq![TermCommand::MoveTo(after.x(), after.y())]
        } else {
            Seq::empty()
        }
    }

    /// Right moves to the next row: at the end of a non-empty line that has a
    /// line after it.
    pub open spec fn right_wraps(self) -> bool {
        &&& self.is_eol()
        &&& end_of(self.current()) != 0
        &&& self.actual_line + 1 < self.texts.len() % 65536
    }

    /// Right can be computed without overflow.
    pub open spec fn can_right(self) -> bool {
        &&& end_of(self.current()) + 2 <= u16::MAX
        &&& self.x() >= end_of(self.current()) + 2 && self.is_eol() && end_of(self.current()) != 0
            ==> self.actual_line + 1 <= u16::MAX
    }

    /// The state after Right: one column right within the line, or to the
    /// start of the next row at the end of a non-empty line.
    pub open spec fn after_right(self) -> TermLinesView {
        if self.x() < end_of(self.current()) + 2 {
            TermLinesView { cursor: ((self.x() + 1) as u16, self.y()), ..self }
        } else if self.right_wraps() {
            TermLinesView {
                actual_line: (self.actual_line + 1) as u16,
                cursor: (2, (self.y() + 1) as u16),
                ..self
            }
        } else {
            self
        }
    }

    /// What Right draws.
    pub open spec fn right_commands(self) -> Seq<TermCommand> {
        let after = self.after_right();
        if self.x() < end_of(self.current()) + 2 || self.right_wraps() {
            seq![TermCommand::MoveTo(after.x(), after.y())]
        } else {
            Seq::empty()
        }
    }
}

/// The cursor never enters the gutter (columns 0 and 1): from column 2 or
/// right of it, every operation leaves it at column 2 or right of it, as long
/// as a line joined by Backspace is shorter than the screen is wide.
pub proof fn lemma_cursor_right_of_gutter(v: TermLinesView, c: char)
    requires
        v.wf(),
        v.x() >= 2,
    ensures
        v.can_push_char() ==> v.after_push_char(c).x() >= 2,
        v.can_pop_char() && (v.joins_lines() ==> encode_utf8(v.texts[v.actual_line - 1]).len()
            + 2 <= u16::MAX) ==> v.after_pop_char().x() >= 2,
        v.after_newline().x() >= 2,
        v.can_left() ==> v.after_left().x() >= 2,
        v.can_right() ==> v.after_right().x() >= 2,
{
}

/// At the end of a line, Backspace takes back a typed one-byte character:
/// the text and the cursor are as they were.
pub proof fn lemma_pop_char_undoes_push_char_at_eol(v: TermLinesView, c: char)
    requires
        v.wf(),
        v.can_push_char(),
        v.is_eol(),
        utf8_width(c) == 1,
        encode_utf8(v.current()).len() + 1 < 65536,
    ensures
        v.after_push_char(c).after_pop_char() == v,
{
    let cur = v.current();
    let after = v.after_push_char(c);
    lemma_encode_concat(cur, seq![c]);
    lemma_encode_single(c);
    assert(cur.push(c) =~= cur + seq![c]);
    assert(after.current() == cur.push(c));
    assert(after.is_eol());
    assert(after.current().drop_last() =~= cur);
    assert(after.after_pop_char().texts =~= v.texts);
}

proof fn lemma_print_chars_take(s: Seq<char>, i: int)
    requires
        0 < i <= s.len(),
    ensures
        print_chars(s.take(i)) == print_chars(s.take(i - 1)).push(print_char(s[i - 1])),
{
    let t = s.take(i);
    assert(t.drop_last() =~= s.take(i - 1));
    assert(t.last() == s[i - 1]);
}

/// Casting to `u16` keeps the value modulo 2^16.
proof fn lemma_u16_truncation(n: usize)
    ensures
        n as u16 == n % 65536,
{
    assert(n as u16 == n % 65536) by (bit_vector);
}

/// The terminal editor's document and screen cursor.
pub struct Lines {
    lines: Vec<Line>,
    actual_line: u16,
    pub cursor_position: (u16, u16),
}

impl View for Lines {
    type V = TermLinesView;

    closed spec fn view(&self) -> TermLinesView {
        TermLinesView {
            texts: self.lines@.map_values(|l: Line| l.line@),
            active: self.lines@.map_values(|l: Line| l.is_active),
            actual_line: self.actual_line,
            cursor: self.cursor_position,
        }
    }
}

impl Lines {
    /// The document is consistent (see [`TermLinesView::wf`]).
    pub open spec fn wf(&self) -> bool {
        self@.wf()
    }

    proof fn lemma_view(&self)
        ensures
            self@.texts.len() == self.lines@.len(),
            self@.active.len() == self.lines@.len(),
            forall|i: int|
                0 <= i < self.lines@.len() ==> #[trigger] self@.texts[i] == self.lines@[i].line@
                    && self@.active[i] == self.lines@[i].is_active,
    {
    }

    /// One empty line, the cursor right of the gutter on row 0.
    pub fn new() -> (r: Self)
        ensures
            r.wf(),
            r@.texts == seq![Seq::<char>::empty()],
            r@.active == seq![false],
            r@.actual_line == 0,
            r@.cursor == (2u16, 0u16),
    {
        let mut ob = Self { lines: Vec::new(), actual_line: 0, cursor_position: (2, 0) };
        ob.lines.push(Line::new());
        assert(ob@.texts =~= seq![Seq::<char>::empty()]);
        assert(ob@.active =~= seq![false]);
        ob
    }

    /// The cursor column.
    pub fn x(&self) -> (r: u16)
        ensures
            r == self@.x(),
    {
        self.cursor_position.0
    }

    /// The cursor row.
    pub fn y(&self) -> (r: u16)
        ensures
            r == self@.y(),
    {
        self.cursor_position.1
    }

    /// Types `c` at the cursor.
    pub fn push_char(&mut self, c: char) -> (cmds: Vec<TermCommand>)
        requires
            old(self).wf(),
            old(self)@.can_push_char(),
        ensures
            final(self).wf(),
            final(self)@ == old(self)@.after_push_char(c),
            cmds@ == old(self)@.push_char_commands(c),
    {
        proof {
            self.lemma_view();
        }
        let ghost v = self@;
        let mut cmds: Vec<TermCommand> = Vec::new();
        let al = self.actual_line as usize;
        if self.is_eol() {
            // Set the line number.
            if self.is_current_line_empty() {
                cmds.push(TermCommand::MoveTo(0, self.y()));
                let n_line = self.y();
                cmds.push(TermCommand::PrintNumber(n_line));
                cmds.push(TermCommand::Flush);
                cmds.push(TermCommand::MoveTo(self.cursor_position.0, self.cursor_position.1));
            }
            // Write the character.
            self.lines[al].push_ch(c);
            cmds.push(TermCommand::PrintChar(c));
            cmds.push(TermCommand::Flush);
        } else {
            let ghost k = v.insert_index();
            let idx = (self.cursor_position.0 - 2) as usize;
            assert(byte_offset(self.lines@[al as int].line@, k) == idx);
            string_insert(&mut self.lines[al].line, idx, c);
            proof {
                self.lemma_view();
                assert(self@.texts =~= v.texts.update(al as int, v.current().insert(k, c)));
            }
            self.rerender_current_line(&mut cmds);
        }
        self.cursor_position.0 = self.cursor_position.0 + 1;
        cmds.push(TermCommand::MoveTo(self.cursor_position.0, self.cursor_position.1));
        proof {
            self.lemma_view();
        }
        assert(self@ =~= v.after_push_char(c));
        assert(cmds@ =~= v.push_char_commands(c));
        cmds
    }

    /// Backspace at the cursor.
    pub fn pop_char(&mut self) -> (cmds: Vec<TermCommand>)
        requires
            old(self).wf(),
            old(self)@.can_pop_char(),
        ensures
            final(self).wf(),
            final(self)@ == old(self)@.after_pop_char(),
            cmds@ == old(self)@.pop_char_commands(),
    {
        proof {
            self.lemma_view();
        }
        let ghost v = self@;
        let mut cmds: Vec<TermCommand> = Vec::new();
        if self.x() != 2 {
            if self.is_eol() {
                let al = self.actual_line as usize;
                self.lines[al].pop_ch();
                self.cursor_position.0 = self.cursor_position.0 - 1;
                cmds.push(TermCommand::MoveTo(self.cursor_position.0, self.cursor_position.1));
                cmds.push(TermCommand::PrintChar(' '));
                cmds.push(TermCommand::Flush);
                cmds.push(TermCommand::MoveTo(self.cursor_position.0, self.cursor_position.1));
            }
        } else {
            if self.is_eof() && self.lines.len() > 1 {
                cmds.push(TermCommand::MoveTo(0, self.y()));
                cmds.push(TermCommand::PrintChar('~'));
                // When returning to the previous line, the cursor goes to the
                // end of what was written there before.
                let prev = (self.actual_line - 1) as usize;
                let x_coordinate = (self.lines[prev].line.as_str().as_bytes().len() + 2) as u16;
                cmds.push(TermCommand::MoveTo(2, self.cursor_position.1));
                cmds.push(TermCommand::ClearUntilNewLine);
                let popped = match self.lines.pop() {
                    Some(l) => l.line,
                    None => String::new(),
                };
                string_push_str(&mut self.lines[prev].line, popped.as_str());
                self.cursor_position.1 = self.cursor_position.1 - 1;
                self.cursor_position.0 = x_coordinate;
                self.actual_line = self.actual_line - 1;
                proof {
                    self.lemma_view();
                    assert(self@.texts =~= v.after_pop_char().texts);
                    assert(self@.active =~= v.after_pop_char().active);
                }
                self.rerender_current_line(&mut cmds);
                cmds.push(TermCommand::MoveTo(self.cursor_position.0, self.cursor_position.1));
            }
        }
        proof {
            self.lemma_view();
        }
        assert(self@ =~= v.after_pop_char());
        assert(cmds@ =~= v.pop_char_commands());
        cmds
    }

    /// Enter: moves to the start of the next row, creating it when the cursor
    /// was on the last line.
    pub fn newline(&mut self) -> (cmds: Vec<TermCommand>)
        requires
            old(self).wf(),
            old(self)@.actual_line < u16::MAX,
        ensures
            final(self).wf(),
            final(self)@ == old(self)@.after_newline(),
            cmds@ == old(self)@.newline_commands(),
    {
        proof {
            self.lemma_view();
        }
        let ghost v = self@;
        let mut cmds: Vec<TermCommand> = Vec::new();
        // Set the line number.
        if self.is_current_line_empty() {
            cmds.push(TermCommand::MoveTo(0, self.y()));
            let n_line = self.y();
            cmds.push(TermCommand::PrintNumber(n_line));
            cmds.push(TermCommand::Flush);
            cmds.push(TermCommand::MoveTo(self.cursor_position.0, self.cursor_position.1));
        }
        // Create the new line.
        if (self.y() + 1) as usize == self.lines.len() {
            self.lines.push(Line::new());
        }
        self.cursor_position.1 = self.cursor_position.1 + 1;
        self.cursor_position.0 = 2;
        self.actual_line = self.actual_line + 1;
        cmds.push(TermCommand::MoveTo(self.cursor_position.0, self.cursor_position.1));
        proof {
            self.lemma_view();
        }
        assert(self@.texts =~= v.after_newline().texts);
        assert(self@.active =~= v.after_newline().active);
        assert(self@ =~= v.after_newline());
        assert(cmds@ =~= v.newline_commands());
        cmds
    }

    /// Left arrow.
    pub fn left(&mut self) -> (cmds: Vec<TermCommand>)
        requires
            old(self).wf(),
            old(self)@.can_left(),
        ensures
            final(self).wf(),
            final(self)@ == old(self)@.after_left(),
            cmds@ == old(self)@.left_commands(),
    {
        let ghost v = self@;
        let mut cmds: Vec<TermCommand> = Vec::new();
        if self.x() == 2 && self.y() > 0 {
            self.actual_line = self.actual_line - 1;
            self.cursor_position.1 = self.cursor_position.1 - 1;
            self.cursor_position.0 = self.end_current_line() + 2;
            cmds.push(TermCommand::MoveTo(self.cursor_position.0, self.cursor_position.1));
        } else if self.x() > 2 {
            self.cursor_position.0 = self.cursor_position.0 - 1;
            cmds.push(TermCommand::MoveTo(self.cursor_position.0, self.cursor_position.1));
        }
        assert(self@ =~= v.after_left());
        assert(cmds@ =~= v.left_commands());
        cmds
    }

    /// Right arrow.
    pub fn right(&mut self) -> (cmds: Vec<TermCommand>)
        requires
            old(self).wf(),
            old(self)@.can_right(),
        ensures
            final(self).wf(),
            final(self)@ == old(self)@.after_right(),
            cmds@ == old(self)@.right_commands(),
    {
        let ghost v = self@;
        let mut cmds: Vec<TermCommand> = Vec::new();
        if self.x() < self.end_current_line() + 2 {
            self.cursor_position.0 = self.cursor_position.0 + 1;
            cmds.push(TermCommand::MoveTo(self.cursor_position.0, self.cursor_position.1));
        } else if self.is_eol() && self.end_current_line() != 0 && self.actual_line + 1
            < self.len_u16() {
            self.cursor_position.0 = 2;
            self.cursor_position.1 = self.cursor_position.1 + 1;
            self.actual_line = self.actual_line + 1;
            cmds.push(TermCommand::MoveTo(self.cursor_position.0, self.cursor_position.1));
        }
        assert(self@ =~= v.after_right());
        assert(cmds@ =~= v.right_commands());
        cmds
    }

    /// Redraws the current row into `cmds`.
    fn rerender_current_line(&self, cmds: &mut Vec<TermCommand>)
        requires
            self.wf(),
        ensures
            final(cmds)@ == old(cmds)@ + rerender_commands(self@.y(), self@.current()),
    {
        proof {
            self.lemma_view();
        }
        let c_line = self.cursor_position.1;
        cmds.push(TermCommand::HideCursor);
        cmds.push(TermCommand::MoveTo(0, c_line));
        cmds.push(TermCommand::ClearUntilNewLine);
        cmds.push(TermCommand::PrintNumber(c_line));
        cmds.push(TermCommand::PrintChar(' '));
        let chars = crate::strings::str_chars(self.lines[self.actual_line as usize].line.as_str());
        let ghost start = cmds@;
        let mut i: usize = 0;
        assert(print_chars(chars@.take(0)) =~= Seq::<TermCommand>::empty());
        assert(cmds@ =~= start + print_chars(chars@.take(0)));
        while i < chars.len()
            invariant
                i <= chars@.len(),
                cmds@ == start + print_chars(chars@.take(i as int)),
            decreases chars@.len() - i,
        {
            let ghost prev = cmds@;
            let c = chars[i];
            cmds.push(TermCommand::PrintChar(c));
            assert(cmds@ == prev.push(print_char(c)));
            i = i + 1;
            assert(c == chars@[i - 1]);
            assert(chars@.take(i as int) =~= chars@.take(i - 1).push(chars@[i - 1]));
            proof {
                lemma_print_chars_take(chars@, i as int);
            }
            assert(prev == start + print_chars(chars@.take(i - 1)));
            assert(cmds@ =~= start + print_chars(chars@.take(i as int)));
        }
        cmds.push(TermCommand::ShowCursor);
        assert(chars@.take(chars@.len() as int) =~= chars@);
        assert(cmds@ =~= old(cmds)@ + rerender_commands(self@.y(), self@.current()));
    }

    /// The 16-bit byte length of the current line.
    fn end_current_line(&self) -> (r: u16)
        requires
            self.wf(),
        ensures
            r == end_of(self@.current()),
    {
        proof {
            self.lemma_view();
        }
        self.lines[self.actual_line as usize].line.as_str().as_bytes().len() as u16
    }

    /// Whether the cursor is at the end of the current line.
    fn is_eol(&self) -> (r: bool)
        requires
            self.wf(),
            self@.x() >= 2,
        ensures
            r == self@.is_eol(),
    {
        self.x() - 2 == self.end_current_line()
    }

    /// Whether the current line is empty.
    fn is_current_line_empty(&self) -> (r: bool)
        requires
            self.wf(),
        ensures
            r == self@.is_current_line_empty(),
    {
        self.end_current_line() == 0
    }

    /// The number of lines, truncated to 16 bits.
    fn len_u16(&self) -> (r: u16)
        ensures
            r == self@.texts.len() % 65536,
    {
        proof {
            self.lemma_view();
        }
        let n = self.lines.len();
        proof {
            lemma_u16_truncation(n);
        }
        n as u16
    }

    /// Whether the cursor is on the last line.
    fn is_eof(&self) -> (r: bool)
        requires
            self.wf(),
            self@.actual_line < u16::MAX,
        ensures
            r == self@.is_eof(),
    {
        proof {
            self.lemma_view();
        }
        let n = self.lines.len();
        proof {
            lemma_u16_truncation(n);
        }
        self.actual_line + 1 == n as u16
    }
}

} // verus!
