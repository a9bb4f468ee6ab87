//! The mathematical model of the buffer: what it holds, how each editing
//! primitive changes it, and the laws those changes obey.
use vstd::prelude::*;
use vstd::utf8::{encode_scalar, encode_utf8};
use crate::strings::{is_white_space, lemma_encode_concat, lemma_encode_single};

verus! {

// ---------------------------------------------------------------------------
// Word boundaries
// ---------------------------------------------------------------------------

/// The first index at or after `i` that is not whitespace (or `i` itself when
/// `i` is past the end).
pub open spec fn skip_spaces_right(s: Seq<char>, i: int) -> int
    decreases s.len() - i,
{
    if 0 <= i < s.len() && is_white_space(s[i]) {
        skip_spaces_right(s, i + 1)
    } else {
        i
    }
}

/// The first index at or after `i` that is whitespace (or the end).
pub open spec fn skip_word_right(s: Seq<char>, i: int) -> int
    decreases s.len() - i,
{
    if 0 <= i < s.len() && !is_white_space(s[i]) {
        skip_word_right(s, i + 1)
    } else {
        i
    }
}

/// Moving left from `i`, the first position whose left neighbour is not
/// whitespace (or 0).
pub open spec fn skip_spaces_left(s: Seq<char>, i: int) -> int
    decreases i,
{
    if 0 < i <= s.len() && is_white_space(s[i - 1]) {
        skip_spaces_left(s, i - 1)
    } else {
        i
    }
}

/// Moving left from `i`, the first position whose left neighbour is
/// whitespace (or 0).
pub open spec fn skip_word_left(s: Seq<char>, i: int) -> int
    decreases i,
{
    if 0 < i <= s.len() && !is_white_space(s[i - 1]) {
        skip_word_left(s, i - 1)
    } else {
        i
    }
}

/// Where Ctrl+Right lands from column `from`: past the whitespace ahead, if a
/// word follows it, and then past that word. On trailing whitespace it stays.
pub open spec fn next_word_boundary(s: Seq<char>, from: int) -> int {
    let start = if skip_spaces_right(s, from) < s.len() {
        skip_spaces_right(s, from)
    } else {
        from
    };
    skip_word_right(s, start)
}

/// Where Ctrl+Left (and Ctrl+Backspace) lands from column `from`: back over
/// the whitespace just left of it and then over the word before that.
pub open spec fn prev_word_boundary(s: Seq<char>, from: int) -> int {
    skip_word_left(s, skip_spaces_left(s, from))
}

proof fn lemma_skip_right_bounds(s: Seq<char>, i: int)
    requires
        0 <= i <= s.len(),
    ensures
        i <= skip_spaces_right(s, i) <= s.len(),
        i <= skip_word_right(s, i) <= s.len(),
    decreases s.len() - i,
{
    if i < s.len() {
        lemma_skip_right_bounds(s, i + 1);
    }
}

proof fn lemma_skip_left_bounds(s: Seq<char>, i: int)
    requires
        0 <= i <= s.len(),
    ensures
        0 <= skip_spaces_left(s, i) <= i,
        0 <= skip_word_left(s, i) <= i,
    decreases i,
{
    if i > 0 {
        lemma_skip_left_bounds(s, i - 1);
    }
}

/// Both word boundaries stay inside the line, on their own side of `from`.
pub proof fn lemma_word_boundaries_in_line(s: Seq<char>, from: int)
    requires
        0 <= from <= s.len(),
    ensures
        from <= next_word_boundary(s, from) <= s.len(),
        0 <= prev_word_boundary(s, from) <= from,
{
    lemma_skip_right_bounds(s, from);
    let a = skip_spaces_right(s, from);
    if a < s.len() {
        lemma_skip_right_bounds(s, a);
    }
    lemma_skip_left_bounds(s, from);
    lemma_skip_left_bounds(s, skip_spaces_left(s, from));
}

/// From inside a line that has a character left of the cursor, Ctrl+Left
/// always moves.
pub proof fn lemma_prev_word_boundary_moves(s: Seq<char>, from: int)
    requires
        0 < from <= s.len(),
    ensures
        prev_word_boundary(s, from) < from,
{
    lemma_skip_left_bounds(s, from);
    let a = skip_spaces_left(s, from);
    lemma_skip_left_bounds(s, a);
    lemma_skip_left_bounds(s, from - 1);
    if a == from {
        assert(!is_white_space(s[from - 1]));
        assert(skip_word_left(s, from) == skip_word_left(s, from - 1));
        lemma_skip_left_bounds(s, from - 1);
    }
}

/// Every character of `s` in `[i, j)` is whitespace.
pub open spec fn all_space(s: Seq<char>, i: int, j: int) -> bool {
    forall|k: int| i <= k < j ==> is_white_space(#[trigger] s[k])
}

/// No character of `s` in `[i, j)` is whitespace.
pub open spec fn no_space(s: Seq<char>, i: int, j: int) -> bool {
    forall|k: int| i <= k < j ==> !is_white_space(#[trigger] s[k])
}

proof fn lemma_skip_spaces_right_stops(s: Seq<char>, i: int)
    requires
        0 <= i <= s.len(),
    ensures
        i <= skip_spaces_right(s, i) <= s.len(),
        all_space(s, i, skip_spaces_right(s, i)),
        skip_spaces_right(s, i) < s.len() ==> !is_white_space(s[skip_spaces_right(s, i)]),
    decreases s.len() - i,
{
    if i < s.len() && is_white_space(s[i]) {
        lemma_skip_spaces_right_stops(s, i + 1);
    }
}

proof fn lemma_skip_word_right_stops(s: Seq<char>, i: int)
    requires
        0 <= i <= s.len(),
    ensures
        i <= skip_word_right(s, i) <= s.len(),
        no_space(s, i, skip_word_right(s, i)),
        skip_word_right(s, i) < s.len() ==> is_white_space(s[skip_word_right(s, i)]),
    decreases s.len() - i,
{
    if i < s.len() && !is_white_space(s[i]) {
        lemma_skip_word_right_stops(s, i + 1);
    }
}

proof fn lemma_skip_spaces_left_stops(s: Seq<char>, i: int)
    requires
        0 <= i <= s.len(),
    ensures
        0 <= skip_spaces_left(s, i) <= i,
        all_space(s, skip_spaces_left(s, i), i),
        skip_spaces_left(s, i) > 0 ==> !is_white_space(s[skip_spaces_left(s, i) - 1]),
    decreases i,
{
    if i > 0 && is_white_space(s[i - 1]) {
        lemma_skip_spaces_left_stops(s, i - 1);
    }
}

proof fn lemma_skip_word_left_stops(s: Seq<char>, i: int)
    requires
        0 <= i <= s.len(),
    ensures
        0 <= skip_word_left(s, i) <= i,
        no_space(s, skip_word_left(s, i), i),
        skip_word_left(s, i) > 0 ==> is_white_space(s[skip_word_left(s, i) - 1]),
    decreases i,
{
    if i > 0 && !is_white_space(s[i - 1]) {
        lemma_skip_word_left_stops(s, i - 1);
    }
}

/// Going back from column `c` to column `t` passes the whitespace just left
/// of `c` and then one whole word: some `k` splits `[t, c)` into a word
/// `[t, k)` and whitespace `[k, c)`, with no word character right before `k`
/// left out and whitespace (or the line start) right before `t`.
pub open spec fn back_over_word(s: Seq<char>, c: int, t: int) -> bool {
    exists|k: int|
        #![trigger all_space(s, k, c)]
        0 <= t <= k <= c <= s.len() && all_space(s, k, c) && no_space(s, t, k) && (k == 0
            || !is_white_space(s[k - 1])) && (t == 0 || is_white_space(s[t - 1]))
}

proof fn lemma_prev_word_boundary_back_over_word(s: Seq<char>, c: int)
    requires
        0 <= c <= s.len(),
    ensures
        back_over_word(s, c, prev_word_boundary(s, c)),
{
    lemma_skip_spaces_left_stops(s, c);
    let k = skip_spaces_left(s, c);
    lemma_skip_word_left_stops(s, k);
    assert(all_space(s, k, c));
}

// ---------------------------------------------------------------------------
// Splitting text into lines
// ---------------------------------------------------------------------------

/// `l` without one trailing carriage return.
pub open spec fn strip_cr(l: Seq<char>) -> Seq<char> {
    if l.len() > 0 && l.last() == '\r' {
        l.drop_last()
    } else {
        l
    }
}

/// The lines of `t` when the characters `cur` have already been read into the
/// line under construction: lines end at `\n` (a `\r` just before it is
/// dropped too), and the last line needs no `\n`.
pub open spec fn split_lines_from(t: Seq<char>, cur: Seq<char>) -> Seq<Seq<char>>
    decreases t.len(),
{
    if t.len() == 0 {
        if cur.len() == 0 {
            Seq::empty()
        } else {
            seq![cur]
        }
    } else if t[0] == '\n' {
        seq![strip_cr(cur)] + split_lines_from(t.drop_first(), Seq::empty())
    } else {
        split_lines_from(t.drop_first(), cur.push(t[0]))
    }
}

/// The lines of `t`, as `str::lines` gives them.
pub open spec fn split_lines(t: Seq<char>) -> Seq<Seq<char>> {
    split_lines_from(t, Seq::empty())
}

/// The lines a buffer holds after loading `t`: its lines, or one empty line
/// when `t` has none.
pub open spec fn loaded_lines(t: Seq<char>) -> Seq<Seq<char>> {
    if split_lines(t).len() == 0 {
        seq![Seq::<char>::empty()]
    } else {
        split_lines(t)
    }
}

/// The text that saving writes: every line followed by `\n`.
pub open spec fn saved_text_of(lines: Seq<Seq<char>>) -> Seq<char>
    decreases lines.len(),
{
    if lines.len() == 0 {
        Seq::empty()
    } else {
        lines[0].push('\n') + saved_text_of(lines.drop_first())
    }
}

/// A line that saving and loading give back unchanged: it holds no `\n` and
/// does not end with `\r`.
pub open spec fn survives_reload(l: Seq<char>) -> bool {
    &&& forall|i: int| 0 <= i < l.len() ==> l[i] != '\n'
    &&& !(l.len() > 0 && l.last() == '\r')
}

pub(crate) proof fn lemma_saved_text_push(lines: Seq<Seq<char>>, l: Seq<char>)
    ensures
        saved_text_of(lines.push(l)) == saved_text_of(lines) + l.push('\n'),
    decreases lines.len(),
{
    if lines.len() == 0 {
        assert(lines.push(l).drop_first() =~= Seq::<Seq<char>>::empty());
        assert(lines.push(l)[0] == l);
        assert(saved_text_of(Seq::<Seq<char>>::empty()) =~= Seq::<char>::empty());
        assert(saved_text_of(lines.push(l)) =~= l.push('\n') + Seq::<char>::empty());
        assert(saved_text_of(lines) + l.push('\n') =~= l.push('\n'));
    } else {
        assert(lines.push(l).drop_first() =~= lines.drop_first().push(l));
        lemma_saved_text_push(lines.drop_first(), l);
        assert(saved_text_of(lines.push(l)) =~= saved_text_of(lines) + l.push('\n'));
    }
}

/// Reading characters that hold no line break just extends the current line.
proof fn lemma_split_no_newline(a: Seq<char>, b: Seq<char>, cur: Seq<char>)
    requires
        forall|i: int| 0 <= i < a.len() ==> a[i] != '\n',
    ensures
        split_lines_from(a + b, cur) == split_lines_from(b, cur + a),
    decreases a.len(),
{
    if a.len() == 0 {
        assert(a + b =~= b);
        assert(cur + a =~= cur);
    } else {
        assert((a + b)[0] == a[0]);
        assert((a + b).drop_first() =~= a.drop_first() + b);
        assert(cur.push(a[0]) + a.drop_first() =~= cur + a);
        lemma_split_no_newline(a.drop_first(), b, cur.push(a[0]));
    }
}

/// Splitting saved text gives back the lines, less a trailing `\r` each.
proof fn lemma_split_saved(lines: Seq<Seq<char>>)
    requires
        forall|i: int, j: int|
            0 <= i < lines.len() && 0 <= j < lines[i].len() ==> #[trigger] lines[i][j] != '\n',
    ensures
        split_lines(saved_text_of(lines)) == lines.map_values(|l: Seq<char>| strip_cr(l)),
    decreases lines.len(),
{
    if lines.len() == 0 {
        assert(lines.map_values(|l: Seq<char>| strip_cr(l)) =~= Seq::<Seq<char>>::empty());
    } else {
        let l = lines[0];
        let rest = saved_text_of(lines.drop_first());
        assert(l.push('\n') + rest =~= l + (seq!['\n'] + rest));
        assert forall|i: int| 0 <= i < l.len() implies l[i] != '\n' by {
            assert(lines[0][i] != '\n');
        }
        lemma_split_no_newline(l, seq!['\n'] + rest, Seq::empty());
        assert(Seq::<char>::empty() + l =~= l);
        assert((seq!['\n'] + rest).drop_first() =~= rest);
        lemma_split_saved(lines.drop_first());
        assert(lines.map_values(|l: Seq<char>| strip_cr(l)) =~= seq![strip_cr(l)]
            + lines.drop_first().map_values(|l: Seq<char>| strip_cr(l)));
    }
}

/// Loading the text that saving writes gives back the same lines, for lines
/// that hold no `\n` and do not end with `\r`.
pub proof fn lemma_load_saved_roundtrip(lines: Seq<Seq<char>>)
    requires
        lines.len() >= 1,
        forall|i: int| 0 <= i < lines.len() ==> survives_reload(#[trigger] lines[i]),
    ensures
        loaded_lines(saved_text_of(lines)) == lines,
{
    assert forall|i: int, j: int|
        0 <= i < lines.len() && 0 <= j < lines[i].len() implies #[trigger] lines[i][j]
        != '\n' by {
        assert(survives_reload(lines[i]));
    }
    lemma_split_saved(lines);
    assert(lines.map_values(|l: Seq<char>| strip_cr(l)) =~= lines) by {
        assert forall|i: int| 0 <= i < lines.len() implies strip_cr(lines[i]) == lines[i] by {
            assert(survives_reload(lines[i]));
        }
    }
}

// ---------------------------------------------------------------------------
// The document as one text
// ---------------------------------------------------------------------------

/// The lines joined by `\n`: the whole document as one text.
pub open spec fn joined_text(lines: Seq<Seq<char>>) -> Seq<char>
    decreases lines.len(),
{
    if lines.len() == 0 {
        Seq::empty()
    } else if lines.len() == 1 {
        lines[0]
    } else {
        joined_text(lines.drop_last()) + seq!['\n'] + lines.last()
    }
}

/// The byte at which line `i` starts in the UTF-8 encoding of the joined
/// text: the encoded lengths of the lines before it, each with its `\n`.
pub open spec fn line_start_byte(lines: Seq<Seq<char>>, i: int) -> int
    decreases i,
{
    if i <= 0 {
        0
    } else {
        line_start_byte(lines, i - 1) + encode_utf8(lines[i - 1]).len() + 1
    }
}

pub(crate) proof fn lemma_line_start_grows(lines: Seq<Seq<char>>, i: int, j: int)
    requires
        0 <= i <= j,
    ensures
        0 <= line_start_byte(lines, i) <= line_start_byte(lines, j),
    decreases j,
{
    if j > i {
        lemma_line_start_grows(lines, i, j - 1);
    } else if i > 0 {
        lemma_line_start_grows(lines, i - 1, i - 1);
    }
}

proof fn lemma_line_start_prefix(lines: Seq<Seq<char>>, i: int, n: int)
    requires
        0 <= i <= n <= lines.len(),
    ensures
        line_start_byte(lines.take(n), i) == line_start_byte(lines, i),
    decreases i,
{
    if i > 0 {
        lemma_line_start_prefix(lines, i - 1, n);
    }
}

/// The joined text of non-empty lines ends one byte before where a next line
/// would start.
pub(crate) proof fn lemma_joined_len(lines: Seq<Seq<char>>)
    requires
        lines.len() >= 1,
    ensures
        encode_utf8(joined_text(lines)).len() + 1 == line_start_byte(lines, lines.len() as int),
    decreases lines.len(),
{
    let n = lines.len() as int;
    if n == 1 {
        assert(line_start_byte(lines, 0) == 0);
    } else {
        let init = lines.drop_last();
        lemma_joined_len(init);
        lemma_line_start_prefix(lines, n - 1, n - 1);
        assert(lines.take(n - 1) =~= init);
        lemma_encode_concat(joined_text(init), seq!['\n']);
        lemma_encode_concat(joined_text(init) + seq!['\n'], lines.last());
        lemma_encode_single('\n');
        assert(encode_scalar('\n' as u32).len() == 1);
    }
}

/// Line `i` of the document is found, encoded, in the encoded joined text at
/// byte `line_start_byte(lines, i)`.
pub proof fn lemma_line_in_joined_text(lines: Seq<Seq<char>>, i: int)
    requires
        0 <= i < lines.len(),
    ensures
        line_start_byte(lines, i) + encode_utf8(lines[i]).len() <= encode_utf8(
            joined_text(lines),
        ).len(),
        encode_utf8(joined_text(lines)).subrange(
            line_start_byte(lines, i),
            line_start_byte(lines, i) + encode_utf8(lines[i]).len(),
        ) == encode_utf8(lines[i]),
    decreases lines.len(),
{
    let n = lines.len() as int;
    if n == 1 {
        assert(encode_utf8(joined_text(lines)).subrange(0, encode_utf8(lines[0]).len() as int)
            =~= encode_utf8(lines[0]));
    } else {
        let init = lines.drop_last();
        let head = joined_text(init) + seq!['\n'];
        assert(joined_text(lines) == head + lines.last());
        lemma_encode_concat(joined_text(init), seq!['\n']);
        lemma_encode_concat(head, lines.last());
        lemma_encode_single('\n');
        assert(encode_scalar('\n' as u32).len() == 1);
        lemma_joined_len(init);
        assert(lines.take(n - 1) =~= init);
        lemma_line_start_prefix(lines, n - 1, n - 1);
        if i < n - 1 {
            lemma_line_in_joined_text(init, i);
            lemma_line_start_prefix(lines, i, n - 1);
            assert(init[i] == lines[i]);
            let a = encode_utf8(joined_text(init));
            let st = line_start_byte(lines, i);
            let w = encode_utf8(lines[i]).len() as int;
            lemma_line_start_grows(lines, 0, i);
            assert(st == line_start_byte(init, i));
            let full = a + encode_utf8(seq!['\n']) + encode_utf8(lines.last());
            assert(encode_utf8(joined_text(lines)) == full);
            assert forall|k: int| 0 <= k < w implies #[trigger] full[st + k] == a[st + k] by {
                assert((a + encode_utf8(seq!['\n']))[st + k] == a[st + k]);
            }
            assert(full.subrange(st, st + w) =~= a.subrange(st, st + w));
        } else {
            assert(encode_utf8(joined_text(lines)).subrange(
                line_start_byte(lines, i),
                line_start_byte(lines, i) + encode_utf8(lines[i]).len(),
            ) =~= encode_utf8(lines[i]));
        }
    }
}

// ---------------------------------------------------------------------------
// The buffer's state
// ---------------------------------------------------------------------------

/// What a buffer holds, as mathematical values.
#[verifier::ext_equal]
pub struct LinesView {
    /// The lines of the document, each as its characters.
    pub lines: Seq<Seq<char>>,
    /// Index of the line the cursor is on.
    pub actual_line: usize,
    /// `(col, row)` of the cursor.
    pub cursor: (usize, usize),
}

impl LinesView {
    /// The state is consistent: there is a line, the cursor row is the
    /// current line, and the cursor column lies within that line.
    pub open spec fn wf(self) -> bool {
        &&& self.lines.len() >= 1
        &&& self.actual_line < self.lines.len()
        &&& self.cursor.1 == self.actual_line
        &&& self.cursor.0 <= self.lines[self.actual_line as int].len()
    }

    /// The numbers of lines and of characters in each line fit in a `usize`,
    /// as they do in any buffer held in memory.
    pub open spec fn fits_machine(self) -> bool {
        &&& self.lines.len() <= usize::MAX
        &&& forall|i: int| 0 <= i < self.lines.len() ==> #[trigger] self.lines[i].len() <= usize::MAX
    }

    /// The line the cursor is on.
    pub open spec fn current(self) -> Seq<char> {
        self.lines[self.actual_line as int]
    }

    /// The cursor column.
    pub open spec fn col(self) -> int {
        self.cursor.0 as int
    }

    /// The cursor is on the last line.
    pub open spec fn at_last_line(self) -> bool {
        self.actual_line + 1 == self.lines.len()
    }

    /// The same lines with the cursor on line `line` at column `col`.
    pub open spec fn with_cursor(self, line: int, col: int) -> LinesView {
        LinesView { lines: self.lines, actual_line: line as usize, cursor: (col as usize, line as usize) }
    }

    /// The same lines with the cursor moved to column `col` of its line.
    pub open spec fn with_col(self, col: int) -> LinesView {
        LinesView { cursor: (col as usize, self.cursor.1), ..self }
    }

    /// After typing `c`: it is inserted at the cursor, which moves past it.
    pub open spec fn after_push_char(self, c: char) -> LinesView {
        LinesView {
            lines: self.lines.update(self.actual_line as int, self.current().insert(self.col(), c)),
            ..self.with_col(self.col() + 1)
        }
    }

    /// After joining the current line onto the previous one (nothing
    /// changes on the first line): the cursor lands at the join.
    pub open spec fn after_merge(self) -> LinesView {
        if self.actual_line == 0 {
            self
        } else {
            let prev = self.lines[self.actual_line - 1];
            LinesView {
                lines: self.lines.remove(self.actual_line as int).update(
                    self.actual_line - 1,
                    prev + self.current(),
                ),
                actual_line: (self.actual_line - 1) as usize,
                cursor: (prev.len() as usize, (self.actual_line - 1) as usize),
            }
        }
    }

    /// After Backspace: the character left of the cursor is deleted, or, at
    /// the start of a line, the line is joined onto the previous one.
    pub open spec fn after_pop_char(self) -> LinesView {
        if self.col() == 0 {
            self.after_merge()
        } else {
            LinesView {
                lines: self.lines.update(self.actual_line as int, self.current().remove(self.col() - 1)),
                ..self.with_col(self.col() - 1)
            }
        }
    }

    /// After Ctrl+Backspace: the text back to the previous word boundary is
    /// deleted, or, at the start of a line, the line is joined onto the
    /// previous one.
    pub open spec fn after_pop_word(self) -> LinesView {
        if self.col() == 0 {
            self.after_merge()
        } else {
            let target = prev_word_boundary(self.current(), self.col());
            LinesView {
                lines: self.lines.update(
                    self.actual_line as int,
                    self.current().take(target) + self.current().skip(self.col()),
                ),
                ..self.with_col(target)
            }
        }
    }

    /// After Enter: the current line is split at the cursor, the tail goes to
    /// a new next line and the cursor to its start.
    pub open spec fn after_newline(self) -> LinesView {
        LinesView {
            lines: self.lines.update(self.actual_line as int, self.current().take(self.col())).insert(
                self.actual_line + 1,
                self.current().skip(self.col()),
            ),
            ..self.with_cursor(self.actual_line + 1, 0)
        }
    }

    /// After Left: one character left, or to the end of the previous line.
    pub open spec fn after_move_left(self) -> LinesView {
        if self.col() > 0 {
            self.with_col(self.col() - 1)
        } else if self.actual_line > 0 {
            self.with_cursor(self.actual_line - 1, self.lines[self.actual_line - 1].len() as int)
        } else {
            self
        }
    }

    /// After Right: one character right, or to the start of the next line.
    pub open spec fn after_move_right(self) -> LinesView {
        if self.col() < self.current().len() {
            self.with_col(self.col() + 1)
        } else if !self.at_last_line() {
            self.with_cursor(self.actual_line + 1, 0)
        } else {
            self
        }
    }

    /// After Ctrl+Right: to the end of the next word, or to the start of the
    /// next line.
    pub open spec fn after_move_ctrl_right(self) -> LinesView {
        if self.col() < self.current().len() {
            self.with_col(next_word_boundary(self.current(), self.col()))
        } else if !self.at_last_line() {
            self.with_cursor(self.actual_line + 1, 0)
        } else {
            self
        }
    }

    /// After Ctrl+Left: to the start of the previous word, or to the end of
    /// the previous line.
    pub open spec fn after_move_ctrl_left(self) -> LinesView {
        if self.col() > 0 {
            self.with_col(prev_word_boundary(self.current(), self.col()))
        } else if self.actual_line > 0 {
            self.with_cursor(self.actual_line - 1, self.lines[self.actual_line - 1].len() as int)
        } else {
            self
        }
    }

    /// After Up: one row up, the column clamped to that line's length.
    pub open spec fn after_move_up(self) -> LinesView {
        if self.actual_line > 0 {
            let len = self.lines[self.actual_line - 1].len() as int;
            self.with_cursor(
                self.actual_line - 1,
                if self.col() <= len {
                    self.col()
                } else {
                    len
                },
            )
        } else {
            self
        }
    }

    /// After Down: one row down, the column clamped to that line's length.
    pub open spec fn after_move_down(self) -> LinesView {
        if !self.at_last_line() {
            let len = self.lines[self.actual_line + 1].len() as int;
            self.with_cursor(
                self.actual_line + 1,
                if self.col() <= len {
                    self.col()
                } else {
                    len
                },
            )
        } else {
            self
        }
    }

    /// After Home: the start of the current line.
    pub open spec fn after_move_home(self) -> LinesView {
        self.with_col(0)
    }

    /// After End: the end of the current line.
    pub open spec fn after_move_end(self) -> LinesView {
        self.with_col(self.current().len() as int)
    }
}

// ---------------------------------------------------------------------------
// Laws
// ---------------------------------------------------------------------------

/// Backspace right after typing a character gives back the state from
/// before the character was typed (the longer line fitting in memory, as
/// it does in any buffer that typing produced).
pub proof fn lemma_pop_char_undoes_push_char(v: LinesView, c: char)
    requires
        v.wf(),
        v.after_push_char(c).fits_machine(),
    ensures
        v.after_push_char(c).after_pop_char() == v,
{
    let cur = v.current();
    assert(v.after_push_char(c).lines[v.actual_line as int].len() <= usize::MAX);
    assert(cur.insert(v.col(), c).remove(v.col()) =~= cur);
    assert(v.lines.update(v.actual_line as int, cur) =~= v.lines);
    assert(v.after_push_char(c).after_pop_char() =~= v);
}

/// Backspace at the start of the line that Enter just created joins the two
/// halves again and puts the cursor back where Enter was pressed.
pub proof fn lemma_pop_char_undoes_newline(v: LinesView)
    requires
        v.wf(),
        v.fits_machine(),
    ensures
        v.after_newline().after_pop_char() == v,
{
    let cur = v.current();
    let al = v.actual_line as int;
    let w = v.after_newline();
    assert(w.lines[al] == cur.take(v.col()));
    assert(w.lines[al + 1] == cur.skip(v.col()));
    assert(cur.take(v.col()) + cur.skip(v.col()) =~= cur);
    assert(w.lines.remove(al + 1) =~= v.lines.update(al, cur.take(v.col())));
    assert(w.lines.remove(al + 1).update(al, cur) =~= v.lines);
    assert(w.actual_line == v.actual_line + 1);
    assert(w.after_pop_char().lines =~= v.lines);
    assert(w.after_pop_char() =~= v);
}

/// Left undoes Right, except at the very end of the document where Right
/// does not move.
pub proof fn lemma_move_left_undoes_move_right(v: LinesView)
    requires
        v.wf(),
        v.fits_machine(),
        !(v.at_last_line() && v.col() == v.current().len()),
    ensures
        v.after_move_right().after_move_left() == v,
{
    assert(v.current().len() <= usize::MAX);
    if v.col() == v.current().len() {
        assert(v.lines[v.actual_line + 1].len() <= usize::MAX);
    }
    assert(v.after_move_right().after_move_left() =~= v);
}

/// Right undoes Left, except at the very start of the document where Left
/// does not move.
pub proof fn lemma_move_right_undoes_move_left(v: LinesView)
    requires
        v.wf(),
        v.fits_machine(),
        !(v.actual_line == 0 && v.col() == 0),
    ensures
        v.after_move_left().after_move_right() == v,
{
    if v.col() == 0 {
        assert(v.lines[v.actual_line - 1].len() <= usize::MAX);
    }
    assert(v.after_move_left().after_move_right() =~= v);
}

/// Cursor movements never change the text, and keep the state consistent.
pub proof fn lemma_moves_keep_text(v: LinesView)
    requires
        v.wf(),
        v.fits_machine(),
    ensures
        v.after_move_left().lines == v.lines && v.after_move_left().wf(),
        v.after_move_right().lines == v.lines && v.after_move_right().wf(),
        v.after_move_ctrl_left().lines == v.lines && v.after_move_ctrl_left().wf(),
        v.after_move_ctrl_right().lines == v.lines && v.after_move_ctrl_right().wf(),
        v.after_move_up().lines == v.lines && v.after_move_up().wf(),
        v.after_move_down().lines == v.lines && v.after_move_down().wf(),
        v.after_move_home().lines == v.lines && v.after_move_home().wf(),
        v.after_move_end().lines == v.lines && v.after_move_end().wf(),
{
    lemma_word_boundaries_in_line(v.current(), v.col());
    if !v.at_last_line() {
        assert(v.lines[v.actual_line + 1].len() <= usize::MAX);
    }
}

/// Ctrl+Backspace with a character left of the cursor deletes at least one
/// character, and only from the current line.
pub proof fn lemma_pop_word_deletes(v: LinesView)
    requires
        v.wf(),
        v.col() > 0,
    ensures
        v.after_pop_word().current().len() < v.current().len(),
        v.after_pop_word().lines.len() == v.lines.len(),
        forall|i: int|
            0 <= i < v.lines.len() && i != v.actual_line ==> #[trigger] v.after_pop_word().lines[i]
                == v.lines[i],
{
    lemma_prev_word_boundary_moves(v.current(), v.col());
    lemma_word_boundaries_in_line(v.current(), v.col());
}

/// Typing a character and every editing step keep the state consistent.
pub proof fn lemma_edits_keep_wf(v: LinesView, c: char)
    requires
        v.wf(),
    ensures
        v.after_push_char(c).wf(),
        v.after_pop_char().wf(),
        v.after_pop_word().wf(),
        v.after_newline().wf(),
{
    lemma_word_boundaries_in_line(v.current(), v.col());
}

/// Ctrl+Right inside a line leaves the text alone and stays on the line.
/// When only whitespace is left of the line it does not move; otherwise it
/// passes the whitespace ahead of the cursor and then exactly one word (at
/// least one character), stopping on the first whitespace after the word or
/// at the end of the line.
pub proof fn lemma_ctrl_right_passes_one_word(v: LinesView)
    requires
        v.wf(),
        v.fits_machine(),
        v.col() < v.current().len(),
    ensures
        v.after_move_ctrl_right().lines == v.lines,
        v.after_move_ctrl_right().actual_line == v.actual_line,
        all_space(v.current(), v.col(), v.current().len() as int) ==> v.after_move_ctrl_right().col()
            == v.col(),
        !all_space(v.current(), v.col(), v.current().len() as int) ==> exists|a: int|
            #![trigger all_space(v.current(), v.col(), a)]
            v.col() <= a < v.after_move_ctrl_right().col() <= v.current().len() && all_space(
                v.current(),
                v.col(),
                a,
            ) && no_space(v.current(), a, v.after_move_ctrl_right().col()) && (
            v.after_move_ctrl_right().col() == v.current().len() || is_white_space(
                v.current()[v.after_move_ctrl_right().col()],
            )),
{
    let s = v.current();
    let c = v.col();
    assert(s.len() <= usize::MAX);
    lemma_skip_spaces_right_stops(s, c);
    let a = skip_spaces_right(s, c);
    if a < s.len() {
        lemma_skip_word_right_stops(s, a);
        lemma_skip_word_right_stops(s, a + 1);
        let n = skip_word_right(s, a);
        assert(n == skip_word_right(s, a + 1));
        assert(v.after_move_ctrl_right().col() == n);
        assert(all_space(s, c, a));
        if all_space(s, c, s.len() as int) {
            assert(is_white_space(s[a]));
        }
    } else {
        assert(all_space(s, c, s.len() as int));
        assert(is_white_space(s[c]));
        assert(v.after_move_ctrl_right().col() == c);
    }
}

/// Ctrl+Left inside a line leaves the text alone, stays on the line and goes
/// back over the whitespace just left of the cursor and then one word.
pub proof fn lemma_ctrl_left_back_over_word(v: LinesView)
    requires
        v.wf(),
        v.col() > 0,
    ensures
        v.after_move_ctrl_left().lines == v.lines,
        v.after_move_ctrl_left().actual_line == v.actual_line,
        v.after_move_ctrl_left().col() < v.col(),
        back_over_word(v.current(), v.col(), v.after_move_ctrl_left().col()),
{
    lemma_prev_word_boundary_back_over_word(v.current(), v.col());
    lemma_prev_word_boundary_moves(v.current(), v.col());
    lemma_word_boundaries_in_line(v.current(), v.col());
}

/// Ctrl+Backspace with a character left of the cursor deletes exactly the
/// characters Ctrl+Left passes: the cursor goes back over the whitespace just
/// left of it and one word, the text before the new cursor and all the text
/// right of the old cursor are kept, and no other line changes.
pub proof fn lemma_pop_word_removes_word_before_cursor(v: LinesView)
    requires
        v.wf(),
        v.col() > 0,
    ensures
        v.after_pop_word().actual_line == v.actual_line,
        v.after_pop_word().lines.len() == v.lines.len(),
        v.after_pop_word().col() < v.col(),
        back_over_word(v.current(), v.col(), v.after_pop_word().col()),
        v.after_pop_word().current() == v.current().take(v.after_pop_word().col())
            + v.current().skip(v.col()),
        forall|i: int|
            0 <= i < v.lines.len() && i != v.actual_line ==> #[trigger] v.after_pop_word().lines[i]
                == v.lines[i],
{
    lemma_prev_word_boundary_back_over_word(v.current(), v.col());
    lemma_prev_word_boundary_moves(v.current(), v.col());
    lemma_word_boundaries_in_line(v.current(), v.col());
}

/// The state after loading `t`: its lines, the cursor at the very start.
pub open spec fn loaded(t: Seq<char>) -> LinesView {
    LinesView { lines: loaded_lines(t), actual_line: 0, cursor: (0, 0) }
}

} // verus!
