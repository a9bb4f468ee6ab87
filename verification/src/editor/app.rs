//! The editor's state besides what is drawn: the buffer with its undo and
//! redo history, and what each keyboard command does to it.
use vstd::prelude::*;
use vstd::string::StringSliceAdditionalSpecFns;
use vstd::utf8::{encode_utf8_valid_utf8, is_char_boundary, is_char_boundary_start_end_of_seq};
use core::ops::Range;
use crate::editor::app_snapshot::AppSnapshot;
use crate::editor::highlight_span::{Color, HighlightSpan};
use crate::strings::{
    lemma_byte_offset_bounds, lemma_byte_offset_step, lemma_width_bounds, str_chars, str_slice,
};
use crate::text_buffer::lines::Lines;
use crate::text_buffer::model::LinesView;

verus! {

/// The most snapshots kept for undo.
pub const MAX_SNAPSHOTS: usize = 20;

// ---------------------------------------------------------------------------
// Keyboard commands
// ---------------------------------------------------------------------------

/// The navigation shortcut pressed in a frame (at most one is acted on).
#[derive(Debug, Clone, Copy, PartialEq, Eq)]
pub enum Navigation {
    CtrlRight,
    CtrlLeft,
    Left,
    Right,
    Up,
    Down,
    Home,
    End,
    CtrlBackspace,
    Quit,
    Compile,
}

/// What the editor asks of the application after a navigation shortcut.
#[derive(Debug, Clone, Copy, PartialEq, Eq)]
pub enum AppRequest {
    /// Leave the program.
    Quit,
    /// Save and compile the document.
    Compile,
}

/// The editing keys of one frame: Enter, Backspace, Delete, Tab and the
/// text typed.
pub struct EditKeys {
    pub enter: bool,
    pub backspace: bool,
    pub delete: bool,
    pub tab: bool,
    pub texts: Vec<String>,
}

impl EditKeys {
    /// The typed texts, each as its characters.
    pub open spec fn texts_view(&self) -> Seq<Seq<char>> {
        self.texts@.map_values(|t: String| t@)
    }
}

/// What the editing keys of a frame did.
#[derive(Debug, Clone, Copy, PartialEq, Eq)]
pub struct EditOutcome {
    /// The keys modified the buffer: Enter, Tab, a Backspace or Delete that
    /// had something to delete, or typed text that was not empty.
    pub modified: bool,
}

/// The state after typing the characters of `s` one after the other.
pub open spec fn after_chars(v: LinesView, s: Seq<char>) -> LinesView
    decreases s.len(),
{
    if s.len() == 0 {
        v
    } else {
        after_chars(v, s.drop_last()).after_push_char(s.last())
    }
}

proof fn lemma_after_chars_push(v: LinesView, s: Seq<char>, c: char)
    ensures
        after_chars(v, s.push(c)) == after_chars(v, s).after_push_char(c),
{
    assert(s.push(c).drop_last() =~= s);
    assert(s.push(c).last() == c);
}

/// The state after typing each of the texts `t` in turn.
pub open spec fn after_texts(v: LinesView, t: Seq<Seq<char>>) -> LinesView
    decreases t.len(),
{
    if t.len() == 0 {
        v
    } else {
        after_chars(after_texts(v, t.drop_last()), t.last())
    }
}

/// Delete moves the cursor one step right, unless it is at the very end.
pub open spec fn delete_moves(v: LinesView) -> bool {
    v.after_move_right().cursor != v.cursor
}

/// The state after Delete: Right and then Backspace, when Right moved.
pub open spec fn after_delete(v: LinesView) -> LinesView {
    if delete_moves(v) {
        v.after_move_right().after_pop_char()
    } else {
        v
    }
}

/// Delete removes the character under the cursor, or at the end of a line
/// joins the next line onto it, and leaves the cursor where it was; at the
/// end of the document it does nothing.
pub proof fn lemma_delete_removes_under_cursor(v: LinesView)
    requires
        v.wf(),
        v.fits_machine(),
    ensures
        v.col() < v.current().len() ==> after_delete(v) == (LinesView {
            lines: v.lines.update(v.actual_line as int, v.current().remove(v.col())),
            ..v
        }),
        v.col() == v.current().len() && !v.at_last_line() ==> after_delete(v) == (LinesView {
            lines: v.lines.remove(v.actual_line + 1).update(
                v.actual_line as int,
                v.current() + v.lines[v.actual_line + 1],
            ),
            ..v
        }),
        v.col() == v.current().len() && v.at_last_line() ==> after_delete(v) == v,
{
    let cur = v.current();
    let al = v.actual_line as int;
    assert(cur.len() <= usize::MAX);
    if v.col() < cur.len() {
        let r = v.after_move_right();
        assert(r.cursor.0 == v.cursor.0 + 1);
        assert(r.lines.update(al, cur.remove(v.col())) =~= v.lines.update(al, cur.remove(v.col())));
        assert(after_delete(v) =~= (LinesView {
            lines: v.lines.update(al, cur.remove(v.col())),
            ..v
        }));
    } else if !v.at_last_line() {
        let r = v.after_move_right();
        assert(r.actual_line == al + 1);
        assert(after_delete(v).lines =~= v.lines.remove(al + 1).update(al, cur + v.lines[al + 1]));
        assert(after_delete(v) =~= (LinesView {
            lines: v.lines.remove(al + 1).update(al, cur + v.lines[al + 1]),
            ..v
        }));
    }
}

/// Four spaces, typed for Tab.
pub open spec fn tab_text() -> Seq<char> {
    seq![' ', ' ', ' ', ' ']
}

/// The state after the editing keys of a frame: nothing while Ctrl is held;
/// otherwise Enter, Backspace, Delete, the typed texts and Tab, in that order.
pub open spec fn after_edit_keys(
    v: LinesView,
    enter: bool,
    backspace: bool,
    delete: bool,
    tab: bool,
    texts: Seq<Seq<char>>,
    ctrl: bool,
) -> LinesView {
    if ctrl {
        v
    } else {
        let v1 = if enter {
            v.after_newline()
        } else {
            v
        };
        let v2 = if backspace {
            v1.after_pop_char()
        } else {
            v1
        };
        let v3 = if delete {
            after_delete(v2)
        } else {
            v2
        };
        let v4 = after_texts(v3, texts);
        if tab {
            after_chars(v4, tab_text())
        } else {
            v4
        }
    }
}

/// Backspace changes the buffer anywhere but at the very start of the
/// document.
pub open spec fn backspace_changes(v: LinesView) -> bool {
    v.col() > 0 || v.actual_line > 0
}

/// Some text in `t` is not empty.
pub open spec fn has_text(t: Seq<Seq<char>>) -> bool {
    exists|i: int| 0 <= i < t.len() && #[trigger] t[i].len() > 0
}

/// Whether the editing keys of a frame count as a modification.
pub open spec fn edit_keys_modify(
    v: LinesView,
    enter: bool,
    backspace: bool,
    delete: bool,
    tab: bool,
    texts: Seq<Seq<char>>,
    ctrl: bool,
) -> bool {
    let v1 = if enter {
        v.after_newline()
    } else {
        v
    };
    let v2 = if backspace {
        v1.after_pop_char()
    } else {
        v1
    };
    !ctrl && (enter || (backspace && backspace_changes(v1)) || (delete && delete_moves(v2))
        || has_text(texts) || tab)
}

proof fn lemma_empty_texts_keep_buffer(v: LinesView, t: Seq<Seq<char>>)
    requires
        !has_text(t),
    ensures
        after_texts(v, t) == v,
    decreases t.len(),
{
    if t.len() > 0 {
        assert(!has_text(t.drop_last())) by {
            if has_text(t.drop_last()) {
                let i = choose|i: int|
                    0 <= i < t.drop_last().len() && #[trigger] t.drop_last()[i].len() > 0;
                assert(t[i].len() > 0);
            }
        }
        lemma_empty_texts_keep_buffer(v, t.drop_last());
        assert(t[t.len() - 1].len() == 0);
        assert(t.last() =~= Seq::<char>::empty());
    }
}

/// The editing keys of a frame change the buffer only when they report a
/// modification: keys that are not reported as modifying leave the buffer
/// exactly as it was.
pub proof fn lemma_unreported_keys_keep_buffer(
    v: LinesView,
    enter: bool,
    backspace: bool,
    delete: bool,
    tab: bool,
    texts: Seq<Seq<char>>,
    ctrl: bool,
)
    requires
        v.wf(),
        v.fits_machine(),
    ensures
        after_edit_keys(v, enter, backspace, delete, tab, texts, ctrl) != v ==> edit_keys_modify(
            v,
            enter,
            backspace,
            delete,
            tab,
            texts,
            ctrl,
        ),
{
    if !ctrl && !edit_keys_modify(v, enter, backspace, delete, tab, texts, ctrl) {
        if backspace {
            assert(v.col() == 0 && v.actual_line == 0);
            assert(v.after_pop_char() == v);
        }
        lemma_empty_texts_keep_buffer(v, texts);
    }
}

/// The state after a navigation shortcut; Quit and Compile leave it as it is.
pub open spec fn after_navigation(v: LinesView, nav: Navigation) -> LinesView {
    match nav {
        Navigation::CtrlRight => v.after_move_ctrl_right(),
        Navigation::CtrlLeft => v.after_move_ctrl_left(),
        Navigation::Left => v.after_move_left(),
        Navigation::Right => v.after_move_right(),
        Navigation::Up => v.after_move_up(),
        Navigation::Down => v.after_move_down(),
        Navigation::Home => v.after_move_home(),
        Navigation::End => v.after_move_end(),
        Navigation::CtrlBackspace => v.after_pop_word(),
        Navigation::Quit => v,
        Navigation::Compile => v,
    }
}

/// What a navigation shortcut asks of the application.
pub open spec fn request_of(nav: Navigation) -> Option<AppRequest> {
    match nav {
        Navigation::Quit => Some(AppRequest::Quit),
        Navigation::Compile => Some(AppRequest::Compile),
        _ => None,
    }
}

/// Carries out a navigation shortcut on the buffer; Quit and Compile are
/// handed back to the application.
pub fn apply_navigation(buffer: &mut Lines, nav: Navigation) -> (r: Option<AppRequest>)
    requires
        old(buffer).wf(),
    ensures
        final(buffer).wf(),
        final(buffer)@ == after_navigation(old(buffer)@, nav),
        r == request_of(nav),
{
    match nav {
        Navigation::CtrlRight => {
            buffer.move_ctrl_right();
            None
        },
        Navigation::CtrlLeft => {
            buffer.move_ctrl_left();
            None
        },
        Navigation::Left => {
            buffer.move_left();
            None
        },
        Navigation::Right => {
            buffer.move_right();
            None
        },
        Navigation::Up => {
            buffer.move_up();
            None
        },
        Navigation::Down => {
            buffer.move_down();
            None
        },
        Navigation::Home => {
            buffer.move_home();
            None
        },
        Navigation::End => {
            buffer.move_end();
            None
        },
        Navigation::CtrlBackspace => {
            buffer.pop_word();
            None
        },
        Navigation::Quit => Some(AppRequest::Quit),
        Navigation::Compile => Some(AppRequest::Compile),
    }
}

/// Types the characters of `text` at the cursor.
fn push_text(buffer: &mut Lines, text: &str)
    requires
        old(buffer).wf(),
    ensures
        final(buffer).wf(),
        final(buffer)@ == after_chars(old(buffer)@, text@),
{
    let chars = str_chars(text);
    let ghost start = buffer@;
    let mut i: usize = 0;
    assert(chars@.take(0) =~= Seq::<char>::empty());
    while i < chars.len()
        invariant
            chars@ == text@,
            i <= chars@.len(),
            buffer.wf(),
            buffer@ == after_chars(start, chars@.take(i as int)),
        decreases chars@.len() - i,
    {
        let c = chars[i];
        buffer.push_char(c);
        i = i + 1;
        assert(chars@.take(i as int).drop_last() =~= chars@.take(i - 1));
        assert(chars@.take(i as int).last() == c);
    }
    assert(chars@.take(chars@.len() as int) =~= chars@);
}

/// Carries out the editing keys of a frame (none while Ctrl is held):
/// Enter splits the line, Backspace deletes left, Delete deletes under the
/// cursor, the typed texts are inserted, and Tab inserts four spaces.
pub fn apply_edit_keys(buffer: &mut Lines, keys: &EditKeys, ctrl: bool) -> (r: EditOutcome)
    requires
        old(buffer).wf(),
    ensures
        final(buffer).wf(),
        final(buffer)@ == after_edit_keys(
            old(buffer)@,
            keys.enter,
            keys.backspace,
            keys.delete,
            keys.tab,
            keys.texts_view(),
            ctrl,
        ),
        r.modified == edit_keys_modify(
            old(buffer)@,
            keys.enter,
            keys.backspace,
            keys.delete,
            keys.tab,
            keys.texts_view(),
            ctrl,
        ),
{
    let ghost v = buffer@;
    let ghost texts = keys.texts_view();
    let mut modified = false;
    if !ctrl {
        if keys.enter {
            buffer.newline();
            modified = true;
        }
        if keys.backspace {
            // At the very start of the document there is nothing to delete.
            let changes = buffer.col() > 0 || buffer.row() > 0;
            buffer.pop_char();
            if changes {
                modified = true;
            }
        }
        let ghost v2 = buffer@;
        if keys.delete {
            // Delete = move right then backspace (delete the character under the cursor).
            let old_col = buffer.col();
            let old_row = buffer.row();
            buffer.move_right();
            if buffer.col() != old_col || buffer.row() != old_row {
                buffer.pop_char();
                modified = true;
            }
        }
        let ghost v3 = buffer@;
        let mut k: usize = 0;
        let mut typed = false;
        assert(texts.take(0) =~= Seq::<Seq<char>>::empty());
        while k < keys.texts.len()
            invariant
                texts == keys.texts_view(),
                k <= texts.len(),
                texts.len() == keys.texts@.len(),
                buffer.wf(),
                buffer@ == after_texts(v3, texts.take(k as int)),
                typed == exists|i: int| 0 <= i < k && #[trigger] texts[i].len() > 0,
            decreases keys.texts@.len() - k,
        {
            let text = keys.texts[k].as_str();
            let empty = text.is_empty();
            proof {
                lemma_byte_offset_bounds(text@, text@.len() as int);
                if text@.len() > 0 {
                    lemma_byte_offset_bounds(text@, 1);
                    lemma_byte_offset_step(text@, 0);
                    lemma_width_bounds(text@[0]);
                    assert(text@.take(0) =~= Seq::<char>::empty());
                } else {
                    assert(text@ =~= Seq::<char>::empty());
                }
            }
            push_text(buffer, text);
            assert(texts[k as int] == keys.texts@[k as int]@);
            if !empty {
                typed = true;
            }
            k = k + 1;
            assert(texts.take(k as int).drop_last() =~= texts.take(k - 1));
            assert(texts.take(k as int).last() == texts[k - 1]);
        }
        assert(texts.take(texts.len() as int) =~= texts);
        // Typed text that is not empty changes the buffer.
        if typed {
            modified = true;
        }
        // Tab inserts four spaces (common for .typ files).
        if keys.tab {
            let ghost v4 = buffer@;
            buffer.push_char(' ');
            buffer.push_char(' ');
            buffer.push_char(' ');
            buffer.push_char(' ');
            proof {
                let e = Seq::<char>::empty();
                assert(tab_text() =~= e.push(' ').push(' ').push(' ').push(' '));
                lemma_after_chars_push(v4, e, ' ');
                lemma_after_chars_push(v4, e.push(' '), ' ');
                lemma_after_chars_push(v4, e.push(' ').push(' '), ' ');
                lemma_after_chars_push(v4, e.push(' ').push(' ').push(' '), ' ');
            }
            modified = true;
        }
    }
    EditOutcome { modified }
}

/// Whether the editing keys of a frame will change the buffer, so that a
/// snapshot is taken first.
pub fn will_modify(keys: &EditKeys) -> (r: bool)
    ensures
        r == (keys.enter || keys.backspace || keys.delete || keys.tab || keys.texts@.len() > 0),
{
    keys.enter || keys.backspace || keys.delete || keys.tab || keys.texts.len() > 0
}


// ---------------------------------------------------------------------------
// One frame of keyboard input
// ---------------------------------------------------------------------------

/// What a frame of keyboard input did.
#[derive(Debug, Clone, Copy, PartialEq, Eq)]
pub struct FrameOutcome {
    /// What the frame asks of the application (to quit or to compile).
    pub request: Option<AppRequest>,
    /// The frame modified the buffer.
    pub modified: bool,
}

/// The keyboard input of one frame of the editor with history.
pub struct FrameInput {
    /// Ctrl+Z was pressed.
    pub undo: bool,
    /// Ctrl+Shift+Z was pressed.
    pub redo: bool,
    /// The navigation shortcut of the frame, if any.
    pub navigation: Option<Navigation>,
    /// The editing keys and the typed text.
    pub keys: EditKeys,
    /// Ctrl is held.
    pub ctrl: bool,
}

/// The state after an optional navigation shortcut.
pub open spec fn after_navigation_opt(v: LinesView, nav: Option<Navigation>) -> LinesView {
    match nav {
        Some(n) => after_navigation(v, n),
        None => v,
    }
}

/// What an optional navigation shortcut asks of the application.
pub open spec fn request_of_opt(nav: Option<Navigation>) -> Option<AppRequest> {
    match nav {
        Some(n) => request_of(n),
        None => None,
    }
}

/// The navigation shortcut modifies the buffer: Ctrl+Backspace anywhere but
/// at the very start of the document.
pub open spec fn navigation_modifies(v: LinesView, nav: Option<Navigation>) -> bool {
    nav == Some(Navigation::CtrlBackspace) && (v.col() > 0 || v.actual_line > 0)
}

/// The buffer after a frame: the navigation shortcut, then the editing keys.
pub open spec fn after_buffer_frame(
    v: LinesView,
    nav: Option<Navigation>,
    keys: EditKeys,
    ctrl: bool,
) -> LinesView {
    after_edit_keys(
        after_navigation_opt(v, nav),
        keys.enter,
        keys.backspace,
        keys.delete,
        keys.tab,
        keys.texts_view(),
        ctrl,
    )
}

/// What a frame on the buffer does: its request, and whether the shortcut or
/// the editing keys modified the buffer.
pub open spec fn buffer_frame_outcome(
    v: LinesView,
    nav: Option<Navigation>,
    keys: EditKeys,
    ctrl: bool,
) -> FrameOutcome {
    FrameOutcome {
        request: request_of_opt(nav),
        modified: navigation_modifies(v, nav) || edit_keys_modify(
            after_navigation_opt(v, nav),
            keys.enter,
            keys.backspace,
            keys.delete,
            keys.tab,
            keys.texts_view(),
            ctrl,
        ),
    }
}

/// Carries out one frame of keyboard input on the buffer: the navigation
/// shortcut (at most one), then the editing keys. Quit and Compile are
/// handed back; the outcome says whether the buffer was modified.
pub fn apply_frame(
    buffer: &mut Lines,
    nav: Option<Navigation>,
    keys: &EditKeys,
    ctrl: bool,
) -> (r: FrameOutcome)
    requires
        old(buffer).wf(),
    ensures
        final(buffer).wf(),
        final(buffer)@ == after_buffer_frame(old(buffer)@, nav, *keys, ctrl),
        r == buffer_frame_outcome(old(buffer)@, nav, *keys, ctrl),
{
    let mut request = None;
    let mut nav_modified = false;
    if let Some(n) = nav {
        nav_modified = match n {
            Navigation::CtrlBackspace => buffer.col() > 0 || buffer.row() > 0,
            _ => false,
        };
        request = apply_navigation(buffer, n);
    }
    let out = apply_edit_keys(buffer, keys, ctrl);
    FrameOutcome { request, modified: nav_modified || out.modified }
}

// ---------------------------------------------------------------------------
// Coloured segments of a line
// ---------------------------------------------------------------------------

/// The colour of text that no span colours.
pub open spec fn text_color_spec() -> Color {
    Color { r: 205, g: 214, b: 244, a: 255 }
}

/// The colour of text that no span colours.
pub fn text_color() -> (c: Color)
    ensures
        c == text_color_spec(),
{
    Color::from_rgb(205, 214, 244)
}

/// The span overlaps the bytes `[line_start, line_end)` of the document.
pub open spec fn overlaps(s: HighlightSpan, line_start: int, line_end: int) -> bool {
    s.byte_range.start < line_end && s.byte_range.end > line_start
}

/// The spans that overlap the line, in the order they were given.
pub open spec fn spans_in_line(spans: Seq<HighlightSpan>, line_start: int, line_end: int) -> Seq<
    HighlightSpan,
>
    decreases spans.len(),
{
    if spans.len() == 0 {
        Seq::empty()
    } else {
        let rest = spans_in_line(spans.drop_last(), line_start, line_end);
        if overlaps(spans.last(), line_start, line_end) {
            rest.push(spans.last())
        } else {
            rest
        }
    }
}

/// `x` inserted into `sorted` after every span that does not start after it.
pub open spec fn insert_by_start(sorted: Seq<HighlightSpan>, x: HighlightSpan) -> Seq<HighlightSpan>
    decreases sorted.len(),
{
    if sorted.len() == 0 {
        seq![x]
    } else if sorted.last().byte_range.start <= x.byte_range.start {
        sorted.push(x)
    } else {
        insert_by_start(sorted.drop_last(), x).push(sorted.last())
    }
}

/// The spans ordered by their start, spans with equal starts keeping their
/// order (a stable sort).
pub open spec fn sort_by_start(spans: Seq<HighlightSpan>) -> Seq<HighlightSpan>
    decreases spans.len(),
{
    if spans.len() == 0 {
        Seq::empty()
    } else {
        insert_by_start(sort_by_start(spans.drop_last()), spans.last())
    }
}

/// A document byte offset moved into the line starting at `line_start` and
/// clamped to `[0, len]`.
pub open spec fn clamp_local(x: usize, line_start: usize, len: int) -> int {
    let d = if x >= line_start {
        x - line_start
    } else {
        0
    };
    if d <= len {
        d
    } else {
        len
    }
}

/// The segments `(start, end, colour)` of a line of `len` bytes, given the
/// sorted spans still to place and the position reached so far: uncoloured
/// text up to each span, the span's own text, and uncoloured text after the
/// last one.
pub open spec fn segments_from(
    spans: Seq<HighlightSpan>,
    cursor: int,
    line_start: usize,
    len: int,
) -> Seq<(int, int, Color)>
    decreases spans.len(),
{
    if spans.len() == 0 {
        if cursor < len {
            seq![(cursor, len, text_color_spec())]
        } else {
            Seq::empty()
        }
    } else {
        let s = spans[0];
        let ls = clamp_local(s.byte_range.start, line_start, len);
        let le = clamp_local(s.byte_range.end, line_start, len);
        (if cursor < ls {
            seq![(cursor, ls, text_color_spec())]
        } else {
            Seq::empty()
        }) + (if ls < le {
            seq![(ls, le, s.color)]
        } else {
            Seq::empty()
        }) + segments_from(
            spans.drop_first(),
            if cursor >= le {
                cursor
            } else {
                le
            },
            line_start,
            len,
        )
    }
}

/// The segments of line `row_idx` (of `len` bytes): its overlapping spans
/// sorted by start and cut into segments, or the whole line in the text
/// colour when that leaves none.
pub open spec fn line_segments(
    spans: Seq<HighlightSpan>,
    line_start: usize,
    len: int,
) -> Seq<(int, int, Color)> {
    let segs = segments_from(
        sort_by_start(spans_in_line(spans, line_start as int, line_start + len)),
        0,
        line_start,
        len,
    );
    if segs.len() == 0 {
        seq![(0, len, text_color_spec())]
    } else {
        segs
    }
}

/// Every span overlapping the line starts and ends, once clamped to the
/// line, on a character boundary of it.
pub open spec fn spans_cut_on_chars(
    spans: Seq<HighlightSpan>,
    line_start: usize,
    bytes: Seq<u8>,
) -> bool {
    forall|i: int|
        0 <= i < spans.len() && overlaps(spans[i], line_start as int, line_start + bytes.len())
            ==> is_char_boundary(
            bytes,
            clamp_local(spans[i].byte_range.start, line_start, bytes.len() as int),
        ) && is_char_boundary(
            bytes,
            clamp_local(spans[i].byte_range.end, line_start, bytes.len() as int),
        )
}

/// The in-row spans, taken in order of their starts, do not overlap: each
/// one, moved into the row, starts no later than it ends and ends no later
/// than the next one starts.
pub open spec fn row_spans_disjoint(spans: Seq<HighlightSpan>, line_start: usize, len: int) -> bool {
    let s = sort_by_start(spans_in_line(spans, line_start as int, line_start + len));
    forall|i: int|
        0 <= i < s.len() ==> clamp_local((#[trigger] s[i]).byte_range.start, line_start, len)
            <= clamp_local(s[i].byte_range.end, line_start, len) && (i + 1 < s.len()
            ==> clamp_local(s[i].byte_range.end, line_start, len) <= clamp_local(
            s[i + 1].byte_range.start,
            line_start,
            len,
        ))
}

/// The bytes that the segments cover, one segment after the other.
pub open spec fn segments_text(bytes: Seq<u8>, segs: Seq<(int, int, Color)>) -> Seq<u8>
    decreases segs.len(),
{
    if segs.len() == 0 {
        Seq::empty()
    } else {
        bytes.subrange(segs[0].0, segs[0].1) + segments_text(bytes, segs.drop_first())
    }
}

/// Every segment is a non-empty piece of the `len` bytes of the row.
pub open spec fn segments_non_empty(segs: Seq<(int, int, Color)>, len: int) -> bool {
    forall|i: int| 0 <= i < segs.len() ==> 0 <= (#[trigger] segs[i]).0 < segs[i].1 <= len
}

proof fn lemma_segments_text_concat(bytes: Seq<u8>, a: Seq<(int, int, Color)>, b: Seq<(int, int, Color)>)
    ensures
        segments_text(bytes, a + b) == segments_text(bytes, a) + segments_text(bytes, b),
    decreases a.len(),
{
    if a.len() == 0 {
        assert(a + b =~= b);
        assert(segments_text(bytes, a) + segments_text(bytes, b) =~= segments_text(bytes, b));
    } else {
        assert((a + b).drop_first() =~= a.drop_first() + b);
        assert((a + b)[0] == a[0]);
        lemma_segments_text_concat(bytes, a.drop_first(), b);
        assert(segments_text(bytes, a + b) =~= segments_text(bytes, a) + segments_text(bytes, b));
    }
}

proof fn lemma_non_empty_concat(a: Seq<(int, int, Color)>, b: Seq<(int, int, Color)>, len: int)
    requires
        segments_non_empty(a, len),
        segments_non_empty(b, len),
    ensures
        segments_non_empty(a + b, len),
{
    assert forall|i: int| 0 <= i < (a + b).len() implies 0 <= (#[trigger] (a + b)[i]).0 < (a
        + b)[i].1 <= len by {
        if i < a.len() {
            assert((a + b)[i] == a[i]);
        } else {
            assert((a + b)[i] == b[i - a.len()]);
        }
    }
}

/// From position `cursor`, no later than where the first span starts, the
/// segments of non-overlapping spans cover the rest of the row exactly, each
/// with at least one byte.
proof fn lemma_segments_from_tile(
    bytes: Seq<u8>,
    s: Seq<HighlightSpan>,
    cursor: int,
    line_start: usize,
)
    requires
        0 <= cursor <= bytes.len(),
        s.len() > 0 ==> cursor <= clamp_local(s[0].byte_range.start, line_start, bytes.len() as int),
        forall|i: int|
            0 <= i < s.len() ==> clamp_local(
                (#[trigger] s[i]).byte_range.start,
                line_start,
                bytes.len() as int,
            ) <= clamp_local(s[i].byte_range.end, line_start, bytes.len() as int) && (i + 1
                < s.len() ==> clamp_local(s[i].byte_range.end, line_start, bytes.len() as int)
                <= clamp_local(s[i + 1].byte_range.start, line_start, bytes.len() as int)),
    ensures
        segments_text(bytes, segments_from(s, cursor, line_start, bytes.len() as int))
            == bytes.subrange(cursor, bytes.len() as int),
        segments_non_empty(segments_from(s, cursor, line_start, bytes.len() as int), bytes.len() as int),
    decreases s.len(),
{
    let len = bytes.len() as int;
    let segs = segments_from(s, cursor, line_start, len);
    if s.len() == 0 {
        if cursor < len {
            assert(segs.drop_first() =~= Seq::<(int, int, Color)>::empty());
            assert(segments_text(bytes, segs.drop_first()) =~= Seq::<u8>::empty());
            assert(segments_text(bytes, segs) =~= bytes.subrange(cursor, len));
        } else {
            assert(bytes.subrange(cursor, len) =~= Seq::<u8>::empty());
        }
    } else {
        let sp = s[0];
        let ls = clamp_local(sp.byte_range.start, line_start, len);
        let le = clamp_local(sp.byte_range.end, line_start, len);
        assert(s[0] == sp);
        let pre = if cursor < ls {
            seq![(cursor, ls, text_color_spec())]
        } else {
            Seq::<(int, int, Color)>::empty()
        };
        let mid = if ls < le {
            seq![(ls, le, sp.color)]
        } else {
            Seq::<(int, int, Color)>::empty()
        };
        let rest = s.drop_first();
        assert forall|i: int| 0 <= i < rest.len() implies clamp_local(
            (#[trigger] rest[i]).byte_range.start,
            line_start,
            len,
        ) <= clamp_local(rest[i].byte_range.end, line_start, len) && (i + 1 < rest.len()
            ==> clamp_local(rest[i].byte_range.end, line_start, len) <= clamp_local(
            rest[i + 1].byte_range.start,
            line_start,
            len,
        )) by {
            assert(rest[i] == s[i + 1]);
            if i + 1 < rest.len() {
                assert(rest[i + 1] == s[i + 2]);
            }
        }
        if rest.len() > 0 {
            assert(rest[0] == s[1]);
        }
        lemma_segments_from_tile(bytes, rest, le, line_start);
        let tail = segments_from(rest, le, line_start, len);
        assert(segs == pre + mid + tail);
        lemma_segments_text_concat(bytes, pre + mid, tail);
        lemma_segments_text_concat(bytes, pre, mid);
        let none = Seq::<(int, int, Color)>::empty();
        assert(segments_text(bytes, none) =~= Seq::<u8>::empty());
        if cursor < ls {
            assert(pre.drop_first() =~= none);
        } else {
            assert(pre =~= none);
        }
        if ls < le {
            assert(mid.drop_first() =~= none);
        } else {
            assert(mid =~= none);
        }
        assert(segments_text(bytes, pre) =~= bytes.subrange(cursor, ls));
        assert(segments_text(bytes, mid) =~= bytes.subrange(ls, le));
        assert(bytes.subrange(cursor, ls) + bytes.subrange(ls, le) + bytes.subrange(le, len)
            =~= bytes.subrange(cursor, len));
        lemma_non_empty_concat(pre, mid, len);
        lemma_non_empty_concat(pre + mid, tail, len);
    }
}

/// When the spans in a row do not overlap, the segments of the row, taken
/// one after the other, give back the row's bytes exactly, and when the row
/// is not empty none of them is empty.
pub proof fn lemma_segments_tile_row(spans: Seq<HighlightSpan>, line_start: usize, bytes: Seq<u8>)
    requires
        row_spans_disjoint(spans, line_start, bytes.len() as int),
    ensures
        segments_text(bytes, line_segments(spans, line_start, bytes.len() as int)) == bytes,
        bytes.len() > 0 ==> segments_non_empty(
            line_segments(spans, line_start, bytes.len() as int),
            bytes.len() as int,
        ),
{
    let len = bytes.len() as int;
    let sorted = sort_by_start(spans_in_line(spans, line_start as int, line_start + len));
    lemma_segments_from_tile(bytes, sorted, 0, line_start);
    let segs = segments_from(sorted, 0, line_start, len);
    assert(bytes.subrange(0, len) =~= bytes);
    if segs.len() == 0 {
        let one = seq![(0int, len, text_color_spec())];
        let none = Seq::<(int, int, Color)>::empty();
        assert(one.drop_first() =~= none);
        assert(segments_text(bytes, none) =~= Seq::<u8>::empty());
        assert(segments_text(bytes, one) =~= bytes.subrange(0, len));
    }
}

proof fn lemma_insert_by_start(sorted: Seq<HighlightSpan>, x: HighlightSpan, j: int)
    requires
        0 <= j <= sorted.len(),
        forall|k: int| j <= k < sorted.len() ==> sorted[k].byte_range.start > x.byte_range.start,
        j == 0 || sorted[j - 1].byte_range.start <= x.byte_range.start,
    ensures
        insert_by_start(sorted, x) == sorted.insert(j, x),
    decreases sorted.len(),
{
    if sorted.len() == 0 {
        assert(sorted.insert(j, x) =~= seq![x]);
    } else if sorted.last().byte_range.start <= x.byte_range.start {
        assert(sorted.insert(j, x) =~= sorted.push(x));
    } else {
        lemma_insert_by_start(sorted.drop_last(), x, j);
        assert(sorted.drop_last().insert(j, x).push(sorted.last()) =~= sorted.insert(j, x));
    }
}

proof fn lemma_insert_from(sorted: Seq<HighlightSpan>, x: HighlightSpan)
    ensures
        forall|y: HighlightSpan| #[trigger]
            insert_by_start(sorted, x).contains(y) ==> y == x || sorted.contains(y),
    decreases sorted.len(),
{
    if sorted.len() > 0 && sorted.last().byte_range.start > x.byte_range.start {
        let rest = sorted.drop_last();
        lemma_insert_from(rest, x);
        assert forall|y: HighlightSpan| #[trigger]
            insert_by_start(sorted, x).contains(y) implies y == x || sorted.contains(y) by {
            let k = choose|k: int|
                0 <= k < insert_by_start(sorted, x).len() && insert_by_start(sorted, x)[k] == y;
            if k < insert_by_start(rest, x).len() {
                assert(insert_by_start(rest, x).contains(y));
                if rest.contains(y) {
                    let m = choose|m: int| 0 <= m < rest.len() && rest[m] == y;
                    assert(sorted[m] == y);
                }
            } else {
                assert(sorted[sorted.len() - 1] == y);
            }
        }
    } else if sorted.len() > 0 {
        assert forall|y: HighlightSpan| #[trigger]
            insert_by_start(sorted, x).contains(y) implies y == x || sorted.contains(y) by {
            let k = choose|k: int|
                0 <= k < insert_by_start(sorted, x).len() && insert_by_start(sorted, x)[k] == y;
            if k < sorted.len() {
                assert(sorted[k] == y);
            }
        }
    }
}

proof fn lemma_sort_from(spans: Seq<HighlightSpan>)
    ensures
        forall|y: HighlightSpan| #[trigger] sort_by_start(spans).contains(y) ==> spans.contains(y),
    decreases spans.len(),
{
    if spans.len() > 0 {
        let rest = spans.drop_last();
        lemma_sort_from(rest);
        lemma_insert_from(sort_by_start(rest), spans.last());
        assert forall|y: HighlightSpan| #[trigger]
            sort_by_start(spans).contains(y) implies spans.contains(y) by {
            if y == spans.last() {
                assert(spans[spans.len() - 1] == y);
            } else {
                assert(sort_by_start(rest).contains(y));
                let m = choose|m: int| 0 <= m < rest.len() && rest[m] == y;
                assert(spans[m] == y);
            }
        }
    }
}

proof fn lemma_in_line_from(spans: Seq<HighlightSpan>, line_start: int, line_end: int)
    ensures
        forall|y: HighlightSpan| #[trigger]
            spans_in_line(spans, line_start, line_end).contains(y) ==> exists|j: int|
                0 <= j < spans.len() && spans[j] == y && overlaps(y, line_start, line_end),
    decreases spans.len(),
{
    if spans.len() > 0 {
        let rest = spans.drop_last();
        lemma_in_line_from(rest, line_start, line_end);
        assert forall|y: HighlightSpan| #[trigger]
            spans_in_line(spans, line_start, line_end).contains(y) implies exists|j: int|
                0 <= j < spans.len() && spans[j] == y && overlaps(y, line_start, line_end) by {
            let r = spans_in_line(rest, line_start, line_end);
            let k = choose|k: int|
                0 <= k < spans_in_line(spans, line_start, line_end).len()
                    && spans_in_line(spans, line_start, line_end)[k] == y;
            if k < r.len() {
                assert(r[k] == y);
                assert(r.contains(y));
                let j = choose|j: int|
                    0 <= j < rest.len() && rest[j] == y && overlaps(y, line_start, line_end);
                assert(spans[j] == y);
            } else {
                assert(spans[spans.len() - 1] == y);
            }
        }
    }
}

/// A copy of a span.
fn copy_span(s: &HighlightSpan) -> (r: HighlightSpan)
    ensures
        r == *s,
{
    HighlightSpan { byte_range: Range { start: s.byte_range.start, end: s.byte_range.end }, color: s.color }
}

/// The spans overlapping a line, sorted stably by start.
fn sorted_line_spans(spans: &[HighlightSpan], line_start: usize, line_end: usize) -> (r: Vec<
    HighlightSpan,
>)
    ensures
        r@ == sort_by_start(spans_in_line(spans@, line_start as int, line_end as int)),
{
    let mut row_spans: Vec<HighlightSpan> = Vec::new();
    let mut i: usize = 0;
    assert(spans@.take(0) =~= Seq::<HighlightSpan>::empty());
    while i < spans.len()
        invariant
            i <= spans@.len(),
            row_spans@ == sort_by_start(
                spans_in_line(spans@.take(i as int), line_start as int, line_end as int),
            ),
        decreases spans@.len() - i,
    {
        let ghost pre = spans@.take(i as int);
        assert(spans@.take(i + 1).drop_last() =~= pre);
        assert(spans@.take(i + 1).last() == spans@[i as int]);
        let s = &spans[i];
        if s.byte_range.start < line_end && s.byte_range.end > line_start {
            let x = copy_span(s);
            // Find where `x` goes: after the last span not starting after it.
            let mut j = row_spans.len();
            while j > 0 && row_spans[j - 1].byte_range.start > x.byte_range.start
                invariant
                    j <= row_spans@.len(),
                    forall|k: int|
                        j <= k < row_spans@.len() ==> row_spans@[k].byte_range.start
                            > x.byte_range.start,
                decreases j,
            {
                j = j - 1;
            }
            proof {
                lemma_insert_by_start(row_spans@, x, j as int);
            }
            row_spans.insert(j, x);
            let ghost q = spans_in_line(pre, line_start as int, line_end as int);
            assert(spans_in_line(spans@.take(i + 1), line_start as int, line_end as int)
                =~= q.push(x));
            assert(q.push(x).drop_last() =~= q);
        } else {
            assert(spans_in_line(spans@.take(i + 1), line_start as int, line_end as int)
                =~= spans_in_line(pre, line_start as int, line_end as int));
        }
        i = i + 1;
    }
    assert(spans@.take(spans@.len() as int) =~= spans@);
    row_spans
}

/// The coloured pieces of line `row_idx` (whose text is `line_text`): the
/// text before, inside and after each highlighting span that overlaps the
/// line, in order of the spans' starts; the whole line in the text colour
/// when no piece remains.
pub fn build_segments<'a>(
    line_text: &'a str,
    row_idx: usize,
    line_offsets: &[usize],
    spans: &'a [HighlightSpan],
) -> (r: Vec<(&'a str, Color)>)
    requires
        row_idx < line_offsets@.len(),
        line_offsets@[row_idx as int] + line_text.spec_bytes().len() <= usize::MAX,
        spans_cut_on_chars(spans@, line_offsets@[row_idx as int], line_text.spec_bytes()),
    ensures
        ({
            let segs = line_segments(
                spans@,
                line_offsets@[row_idx as int],
                line_text.spec_bytes().len() as int,
            );
            &&& r@.len() == segs.len()
            &&& forall|i: int|
                0 <= i < r@.len() ==> (#[trigger] r@[i]).0.spec_bytes()
                    == line_text.spec_bytes().subrange(segs[i].0, segs[i].1) && r@[i].1
                    == segs[i].2
        }),
{
    let ghost bytes = line_text.spec_bytes();
    proof {
        encode_utf8_valid_utf8(line_text@);
        is_char_boundary_start_end_of_seq(bytes);
    }
    let line_start = line_offsets[row_idx];
    let len = line_text.len();
    let line_end = line_start + len;
    let row_spans = sorted_line_spans(spans, line_start, line_end);
    let ghost sorted = row_spans@;
    let ghost all = segments_from(sorted, 0, line_start, len as int);
    proof {
        let in_line = spans_in_line(spans@, line_start as int, line_end as int);
        lemma_sort_from(in_line);
        lemma_in_line_from(spans@, line_start as int, line_end as int);
        assert forall|k: int| 0 <= k < sorted.len() implies is_char_boundary(
            bytes,
            clamp_local(#[trigger] sorted[k].byte_range.start, line_start, len as int),
        ) && is_char_boundary(bytes, clamp_local(sorted[k].byte_range.end, line_start, len as int))
            by {
            assert(sorted.contains(sorted[k]));
            assert(in_line.contains(sorted[k]));
            let j = choose|j: int|
                0 <= j < spans@.len() && spans@[j] == sorted[k] && overlaps(
                    sorted[k],
                    line_start as int,
                    line_end as int,
                );
            assert(overlaps(spans@[j], line_start as int, line_start + bytes.len()));
        }
    }
    let mut segments: Vec<(&'a str, Color)> = Vec::new();
    let mut cursor_in_line: usize = 0;
    let mut i: usize = 0;
    let ghost mut out: Seq<(int, int, Color)> = Seq::empty();
    assert(sorted.skip(0) =~= sorted);
    while i < row_spans.len()
        invariant
            i <= sorted.len(),
            sorted == row_spans@,
            len == bytes.len(),
            bytes == line_text.spec_bytes(),
            forall|k: int|
                0 <= k < sorted.len() ==> is_char_boundary(
                    bytes,
                    clamp_local(#[trigger] sorted[k].byte_range.start, line_start, len as int),
                ) && is_char_boundary(
                    bytes,
                    clamp_local(sorted[k].byte_range.end, line_start, len as int),
                ),
            cursor_in_line <= len,
            is_char_boundary(bytes, cursor_in_line as int),
            out + segments_from(sorted.skip(i as int), cursor_in_line as int, line_start, len as int)
                == all,
            segments@.len() == out.len(),
            forall|k: int| 0 <= k < out.len() ==> 0 <= (#[trigger] out[k]).0 <= out[k].1 <= len,
            forall|k: int|
                0 <= k < segments@.len() ==> (#[trigger] segments@[k]).0.spec_bytes()
                    == bytes.subrange(out[k].0, out[k].1) && segments@[k].1 == out[k].2,
        decreases sorted.len() - i,
    {
        let span = &row_spans[i];
        let local_start = span.byte_range.start.saturating_sub(line_start).min(len);
        let local_end = span.byte_range.end.saturating_sub(line_start).min(len);
        let ghost ls = clamp_local(span.byte_range.start, line_start, len as int);
        let ghost le = clamp_local(span.byte_range.end, line_start, len as int);
        assert(local_start == ls);
        assert(local_end == le);
        let ghost rest = sorted.skip(i as int);
        let ghost pre_seg = if cursor_in_line < ls {
            seq![(cursor_in_line as int, ls, text_color_spec())]
        } else {
            Seq::<(int, int, Color)>::empty()
        };
        let ghost mid_seg = if ls < le {
            seq![(ls, le, span.color)]
        } else {
            Seq::<(int, int, Color)>::empty()
        };
        let ghost next = if cursor_in_line >= le {
            cursor_in_line as int
        } else {
            le
        };
        assert(rest[0] == sorted[i as int]);
        assert(rest.drop_first() =~= sorted.skip(i + 1));
        assert(segments_from(rest, cursor_in_line as int, line_start, len as int) == pre_seg
            + mid_seg + segments_from(sorted.skip(i + 1), next, line_start, len as int));
        if cursor_in_line < local_start {
            segments.push((str_slice(line_text, cursor_in_line, local_start), text_color()));
        }
        if local_start < local_end {
            segments.push((str_slice(line_text, local_start, local_end), span.color));
        }
        proof {
            assert(out + (pre_seg + mid_seg + segments_from(
                sorted.skip(i + 1),
                next,
                line_start,
                len as int,
            )) =~= (out + pre_seg + mid_seg) + segments_from(
                sorted.skip(i + 1),
                next,
                line_start,
                len as int,
            ));
            out = out + pre_seg + mid_seg;
        }
        cursor_in_line = cursor_in_line.max(local_end);
        i = i + 1;
    }
    let ghost tail = if cursor_in_line < len {
        seq![(cursor_in_line as int, len as int, text_color_spec())]
    } else {
        Seq::<(int, int, Color)>::empty()
    };
    assert(sorted.skip(i as int) =~= Seq::<HighlightSpan>::empty());
    assert(out + tail == all);
    if cursor_in_line < len {
        segments.push((str_slice(line_text, cursor_in_line, len), text_color()));
    }
    proof {
        out = out + tail;
    }
    if segments.len() == 0 {
        assert(bytes.subrange(0, len as int) =~= bytes);
        segments.push((line_text, text_color()));
    }
    segments
}

// ---------------------------------------------------------------------------
// Undo history
// ---------------------------------------------------------------------------

/// The buffer with its history, as mathematical values.
#[verifier::ext_equal]
pub struct EditorView {
    /// The buffer being edited.
    pub buffer: LinesView,
    /// The buffers that undo goes back to, the most recent last.
    pub snapshots: Seq<LinesView>,
    /// The buffers that redo goes forward to, the most recent last.
    pub redo: Seq<LinesView>,
}

impl EditorView {
    /// Every buffer in the state, current or saved, is consistent and its
    /// sizes fit in a `usize`.
    pub open spec fn wf(self) -> bool {
        &&& self.buffer.wf() && self.buffer.fits_machine()
        &&& all_valid(self.snapshots)
        &&& all_valid(self.redo)
    }

    /// After taking a snapshot: the current buffer goes on top of the undo
    /// history, the oldest snapshot dropping out when there are already
    /// `MAX_SNAPSHOTS`.
    pub open spec fn after_push_snapshot(self) -> EditorView {
        EditorView {
            snapshots: (if self.snapshots.len() >= MAX_SNAPSHOTS {
                self.snapshots.drop_first()
            } else {
                self.snapshots
            }).push(self.buffer),
            ..self
        }
    }

    /// After undo: the buffer goes back to the last snapshot and the
    /// current one is kept for redo; nothing happens without a snapshot.
    pub open spec fn after_undo(self) -> EditorView {
        if self.snapshots.len() == 0 {
            self
        } else {
            EditorView {
                buffer: self.snapshots.last(),
                snapshots: self.snapshots.drop_last(),
                redo: self.redo.push(self.buffer),
            }
        }
    }

    /// After redo: the buffer goes forward to the last undone one and the
    /// current one becomes a snapshot; nothing happens with nothing undone.
    pub open spec fn after_redo(self) -> EditorView {
        if self.redo.len() == 0 {
            self
        } else {
            EditorView {
                buffer: self.redo.last(),
                snapshots: self.snapshots.push(self.buffer),
                redo: self.redo.drop_last(),
            }
        }
    }

    /// The same history with `b` as the current buffer.
    pub open spec fn with_buffer(self, b: LinesView) -> EditorView {
        EditorView { buffer: b, ..self }
    }
}

/// Undo followed by redo comes back to the same state.
pub proof fn lemma_redo_undoes_undo(v: EditorView)
    requires
        v.snapshots.len() > 0,
    ensures
        v.after_undo().after_redo() == v,
{
    assert(v.after_undo().after_redo().snapshots =~= v.snapshots);
    assert(v.after_undo().after_redo().redo =~= v.redo);
}

/// Redo followed by undo comes back to the same state.
pub proof fn lemma_undo_undoes_redo(v: EditorView)
    requires
        v.redo.len() > 0,
    ensures
        v.after_redo().after_undo() == v,
{
    assert(v.after_redo().after_undo().snapshots =~= v.snapshots);
    assert(v.after_redo().after_undo().redo =~= v.redo);
}

/// Whatever is done to the buffer after a snapshot, undo brings back the
/// buffer as it was when the snapshot was taken.
pub proof fn lemma_undo_restores_snapshot(v: EditorView, edited: LinesView)
    ensures
        v.after_push_snapshot().with_buffer(edited).after_undo().buffer == v.buffer,
        v.after_push_snapshot().with_buffer(edited).after_undo().redo == v.redo.push(edited),
{
}

/// Taking a snapshot keeps at most `MAX_SNAPSHOTS` of them.
pub proof fn lemma_snapshots_bounded(v: EditorView)
    requires
        v.snapshots.len() <= MAX_SNAPSHOTS,
    ensures
        v.after_push_snapshot().snapshots.len() <= MAX_SNAPSHOTS,
        v.after_push_snapshot().snapshots.last() == v.buffer,
{
}

/// Every buffer in `s` is consistent and fits in memory.
pub open spec fn all_valid(s: Seq<LinesView>) -> bool {
    forall|i: int| 0 <= i < s.len() ==> #[trigger] s[i].wf() && s[i].fits_machine()
}

proof fn lemma_all_valid_push(s: Seq<LinesView>, b: LinesView)
    requires
        all_valid(s),
        b.wf(),
        b.fits_machine(),
    ensures
        all_valid(s.push(b)),
{
    assert forall|i: int| 0 <= i < s.push(b).len() implies #[trigger] s.push(b)[i].wf()
        && s.push(b)[i].fits_machine() by {
        if i < s.len() {
            assert(s.push(b)[i] == s[i]);
        }
    }
}

proof fn lemma_all_valid_drop(s: Seq<LinesView>)
    requires
        all_valid(s),
        s.len() > 0,
    ensures
        all_valid(s.drop_first()),
        all_valid(s.drop_last()),
        s.last().wf() && s.last().fits_machine(),
{
    assert(s[s.len() - 1].wf());
    assert forall|i: int| 0 <= i < s.drop_first().len() implies #[trigger] s.drop_first()[i].wf()
        && s.drop_first()[i].fits_machine() by {
        assert(s.drop_first()[i] == s[i + 1]);
    }
    assert forall|i: int| 0 <= i < s.drop_last().len() implies #[trigger] s.drop_last()[i].wf()
        && s.drop_last()[i].fits_machine() by {
        assert(s.drop_last()[i] == s[i]);
    }
}

/// Snapshots, undo and redo keep every buffer in the state consistent.
pub proof fn lemma_history_keeps_wf(v: EditorView)
    requires
        v.wf(),
    ensures
        v.after_push_snapshot().wf(),
        v.after_undo().wf(),
        v.after_redo().wf(),
{
    assert(all_valid(v.snapshots));
    assert(all_valid(v.redo));
    if v.snapshots.len() > 0 {
        lemma_all_valid_drop(v.snapshots);
    }
    if v.snapshots.len() >= MAX_SNAPSHOTS {
        lemma_all_valid_push(v.snapshots.drop_first(), v.buffer);
    } else {
        lemma_all_valid_push(v.snapshots, v.buffer);
    }
    lemma_all_valid_push(v.redo, v.buffer);
    if v.redo.len() > 0 {
        lemma_all_valid_drop(v.redo);
    }
    assert(all_valid(v.after_push_snapshot().snapshots));
}

impl EditorView {
    /// The state after a frame: undo, or else redo, ends the frame; otherwise
    /// a snapshot is taken (and what was undone forgotten) when the editing
    /// keys will change the buffer, then the navigation shortcut and the
    /// editing keys are carried out.
    pub open spec fn after_frame(self, input: FrameInput) -> EditorView {
        if input.undo {
            self.after_undo()
        } else if input.redo {
            self.after_redo()
        } else {
            let prepared = if will_modify_spec(&input.keys) {
                EditorView { redo: Seq::empty(), ..self.after_push_snapshot() }
            } else {
                self
            };
            prepared.with_buffer(
                after_buffer_frame(prepared.buffer, input.navigation, input.keys, input.ctrl),
            )
        }
    }

    /// What a frame does: undo and redo modify the buffer when there was a
    /// buffer to go back or forward to; otherwise as on the buffer alone.
    pub open spec fn frame_outcome(self, input: FrameInput) -> FrameOutcome {
        if input.undo {
            FrameOutcome { request: None, modified: self.snapshots.len() > 0 }
        } else if input.redo {
            FrameOutcome { request: None, modified: self.redo.len() > 0 }
        } else {
            buffer_frame_outcome(self.buffer, input.navigation, input.keys, input.ctrl)
        }
    }
}

/// One undo after a frame that edited the buffer brings back the buffer as
/// it was before the frame, navigation included.
pub proof fn lemma_undo_reverts_frame(v: EditorView, input: FrameInput)
    requires
        !input.undo,
        !input.redo,
        input.keys.enter || input.keys.backspace || input.keys.delete || input.keys.tab
            || input.keys.texts@.len() > 0,
    ensures
        v.after_frame(input).after_undo().buffer == v.buffer,
        v.after_frame(input).after_undo().redo == seq![v.after_frame(input).buffer],
{
}

/// The buffer being edited together with its undo and redo history.
pub struct EditorState {
    buffer: Lines,
    snapshot: Vec<AppSnapshot>,
    undo_snapshot: Vec<AppSnapshot>,
}

impl View for EditorState {
    type V = EditorView;

    closed spec fn view(&self) -> EditorView {
        EditorView {
            buffer: self.buffer@,
            snapshots: self.snapshot@.map_values(|s: AppSnapshot| s.buffer@),
            redo: self.undo_snapshot@.map_values(|s: AppSnapshot| s.buffer@),
        }
    }
}

impl EditorState {
    /// The state is consistent (see [`EditorView::wf`]).
    pub open spec fn wf(&self) -> bool {
        self@.wf()
    }

    /// Starts editing `buffer` with an empty history.
    pub fn new(buffer: Lines) -> (r: Self)
        requires
            buffer.wf(),
        ensures
            r.wf(),
            r@.buffer == buffer@,
            r@.snapshots == Seq::<LinesView>::empty(),
            r@.redo == Seq::<LinesView>::empty(),
    {
        let r = EditorState { buffer, snapshot: Vec::new(), undo_snapshot: Vec::new() };
        assert(r@.snapshots =~= Seq::<LinesView>::empty());
        assert(r@.redo =~= Seq::<LinesView>::empty());
        r
    }

    /// The buffer being edited.
    pub fn buffer(&self) -> (r: &Lines)
        ensures
            r@ == self@.buffer,
    {
        &self.buffer
    }

    /// The number of snapshots undo can go back through.
    pub fn undo_depth(&self) -> (r: usize)
        ensures
            r == self@.snapshots.len(),
    {
        self.snapshot.len()
    }

    /// The number of undone steps redo can go forward through.
    pub fn redo_depth(&self) -> (r: usize)
        ensures
            r == self@.redo.len(),
    {
        self.undo_snapshot.len()
    }

    /// Saves the current buffer for undo.
    pub fn push_snapshot(&mut self)
        requires
            old(self).wf(),
        ensures
            final(self).wf(),
            final(self)@ == old(self)@.after_push_snapshot(),
    {
        let ghost v = self@;
        if self.snapshot.len() >= MAX_SNAPSHOTS {
            self.snapshot.remove(0);
        }
        self.snapshot.push(AppSnapshot { buffer: self.buffer.clone() });
        assert(self@.snapshots =~= v.after_push_snapshot().snapshots);
        assert(self@ =~= v.after_push_snapshot());
    }

    /// Goes back to the last snapshot, keeping the current buffer for redo.
    pub fn undo(&mut self)
        requires
            old(self).wf(),
        ensures
            final(self).wf(),
            final(self)@ == old(self)@.after_undo(),
    {
        let ghost v = self@;
        proof {
            lemma_history_keeps_wf(v);
        }
        if let Some(snap) = self.snapshot.pop() {
            self.undo_snapshot.push(AppSnapshot { buffer: self.buffer.clone() });
            self.buffer = snap.buffer;
            assert(self@.snapshots =~= v.after_undo().snapshots);
            assert(self@.redo =~= v.after_undo().redo);
        }
        assert(self@ =~= v.after_undo());
    }

    /// Goes forward to the last undone buffer, keeping the current one as a
    /// snapshot.
    pub fn redo(&mut self)
        requires
            old(self).wf(),
        ensures
            final(self).wf(),
            final(self)@ == old(self)@.after_redo(),
    {
        let ghost v = self@;
        proof {
            lemma_history_keeps_wf(v);
        }
        if let Some(snap) = self.undo_snapshot.pop() {
            self.snapshot.push(AppSnapshot { buffer: self.buffer.clone() });
            self.buffer = snap.buffer;
            assert(self@.snapshots =~= v.after_redo().snapshots);
            assert(self@.redo =~= v.after_redo().redo);
        }
        assert(self@ =~= v.after_redo());
    }

    /// Before the editing keys of a frame change the buffer: take a snapshot
    /// and forget what was undone.
    pub fn prepare_edit(&mut self, keys: &EditKeys)
        requires
            old(self).wf(),
        ensures
            final(self).wf(),
            will_modify_spec(keys) ==> final(self)@ == (EditorView {
                redo: Seq::empty(),
                ..old(self)@.after_push_snapshot()
            }),
            !will_modify_spec(keys) ==> final(self)@ == old(self)@,
    {
        if will_modify(keys) {
            self.push_snapshot();
            // Typing again forgets what was undone.
            self.undo_snapshot.clear();
            assert(self@.redo =~= Seq::<LinesView>::empty());
        }
    }

    /// Carries out a navigation shortcut on the buffer.
    pub fn navigate(&mut self, nav: Navigation) -> (r: Option<AppRequest>)
        requires
            old(self).wf(),
        ensures
            final(self).wf(),
            final(self)@ == old(self)@.with_buffer(after_navigation(old(self)@.buffer, nav)),
            r == request_of(nav),
    {
        let ghost v = self@;
        let r = apply_navigation(&mut self.buffer, nav);
        assert(self@.snapshots == v.snapshots);
        assert(self@.redo == v.redo);
        r
    }

    /// Carries out the editing keys of a frame on the buffer.
    pub fn edit(&mut self, keys: &EditKeys, ctrl: bool) -> (r: EditOutcome)
        requires
            old(self).wf(),
        ensures
            final(self).wf(),
            final(self)@ == old(self)@.with_buffer(
                after_edit_keys(
                    old(self)@.buffer,
                    keys.enter,
                    keys.backspace,
                    keys.delete,
                    keys.tab,
                    keys.texts_view(),
                    ctrl,
                ),
            ),
            r.modified == edit_keys_modify(
                old(self)@.buffer,
                keys.enter,
                keys.backspace,
                keys.delete,
                keys.tab,
                keys.texts_view(),
                ctrl,
            ),
    {
        let ghost v = self@;
        let r = apply_edit_keys(&mut self.buffer, keys, ctrl);
        assert(self@.snapshots == v.snapshots);
        assert(self@.redo == v.redo);
        r
    }

    /// Carries out one frame of keyboard input: undo, or else redo, ends the
    /// frame; otherwise a snapshot is taken when the editing keys will change
    /// the buffer, then the navigation shortcut and the editing keys follow.
    pub fn frame(&mut self, input: &FrameInput) -> (r: FrameOutcome)
        requires
            old(self).wf(),
        ensures
            final(self).wf(),
            final(self)@ == old(self)@.after_frame(*input),
            r == old(self)@.frame_outcome(*input),
    {
        if input.undo {
            let modified = self.snapshot.len() > 0;
            self.undo();
            return FrameOutcome { request: None, modified };
        }
        if input.redo {
            let modified = self.undo_snapshot.len() > 0;
            self.redo();
            return FrameOutcome { request: None, modified };
        }
        self.prepare_edit(&input.keys);
        let ghost v = self@;
        let r = apply_frame(&mut self.buffer, input.navigation, &input.keys, input.ctrl);
        assert(self@.snapshots == v.snapshots);
        assert(self@.redo == v.redo);
        r
    }
}

/// The editing keys of a frame will change the buffer.
pub open spec fn will_modify_spec(keys: &EditKeys) -> bool {
    keys.enter || keys.backspace || keys.delete || keys.tab || keys.texts@.len() > 0
}

} // verus!
