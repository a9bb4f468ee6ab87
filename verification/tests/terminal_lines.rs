use typstty::models::line::Line as TermLine;
use typstty::models::lines::{Lines as TermLines, TermCommand};
use TermCommand::{ClearUntilNewLine, Flush, HideCursor, MoveTo, PrintChar, PrintNumber, ShowCursor};

#[test]
fn terminal_new_starts_right_of_gutter() {
    let l = TermLines::new();
    assert_eq!((l.x(), l.y()), (2, 0));
    assert_eq!(l.cursor_position, (2, 0));
}

#[test]
fn terminal_push_char_on_empty_line_prints_row_number_first() {
    let mut l = TermLines::new();
    let cmds = l.push_char('a');
    assert_eq!(
        cmds,
        vec![
            MoveTo(0, 0),
            PrintNumber(0),
            Flush,
            MoveTo(2, 0),
            PrintChar('a'),
            Flush,
            MoveTo(3, 0)
        ]
    );
    let cmds = l.push_char('b');
    assert_eq!(cmds, vec![PrintChar('b'), Flush, MoveTo(4, 0)]);
    assert_eq!((l.x(), l.y()), (4, 0));
}

#[test]
fn terminal_push_char_inside_line_redraws_it() {
    let mut l = TermLines::new();
    l.push_char('a');
    l.push_char('b');
    assert_eq!(l.left(), vec![MoveTo(3, 0)]);
    let cmds = l.push_char('X');
    assert_eq!(
        cmds,
        vec![
            HideCursor,
            MoveTo(0, 0),
            ClearUntilNewLine,
            PrintNumber(0),
            PrintChar(' '),
            PrintChar('a'),
            PrintChar('X'),
            PrintChar('b'),
            ShowCursor,
            MoveTo(4, 0)
        ]
    );
}

#[test]
fn terminal_pop_char_at_line_end_blanks_the_last_cell() {
    let mut l = TermLines::new();
    l.push_char('a');
    l.push_char('b');
    let cmds = l.pop_char();
    assert_eq!(cmds, vec![MoveTo(3, 0), PrintChar(' '), Flush, MoveTo(3, 0)]);
    assert_eq!((l.x(), l.y()), (3, 0));
}

#[test]
fn terminal_pop_char_inside_line_does_nothing() {
    let mut l = TermLines::new();
    l.push_char('a');
    l.push_char('b');
    l.left();
    let cmds = l.pop_char();
    assert!(cmds.is_empty());
    assert_eq!((l.x(), l.y()), (3, 0));
}

#[test]
fn terminal_newline_then_backspace_joins_rows() {
    let mut l = TermLines::new();
    l.push_char('a');
    let cmds = l.newline();
    assert_eq!(cmds, vec![MoveTo(2, 1)]);
    assert_eq!((l.x(), l.y()), (2, 1));
    l.push_char('b');
    l.left();
    let cmds = l.pop_char();
    assert_eq!(
        cmds,
        vec![
            MoveTo(0, 1),
            PrintChar('~'),
            MoveTo(2, 1),
            ClearUntilNewLine,
            HideCursor,
            MoveTo(0, 0),
            ClearUntilNewLine,
            PrintNumber(0),
            PrintChar(' '),
            PrintChar('a'),
            PrintChar('b'),
            ShowCursor,
            MoveTo(3, 0)
        ]
    );
    assert_eq!((l.x(), l.y()), (3, 0));
}

#[test]
fn terminal_newline_on_empty_row_prints_its_number() {
    let mut l = TermLines::new();
    let cmds = l.newline();
    assert_eq!(
        cmds,
        vec![MoveTo(0, 0), PrintNumber(0), Flush, MoveTo(2, 0), MoveTo(2, 1)]
    );
}

#[test]
fn terminal_backspace_at_first_row_start_does_nothing() {
    let mut l = TermLines::new();
    assert!(l.pop_char().is_empty());
    assert_eq!((l.x(), l.y()), (2, 0));
}

#[test]
fn terminal_left_and_right_move_across_rows() {
    let mut l = TermLines::new();
    l.push_char('a');
    l.push_char('b');
    l.newline();
    assert_eq!(l.left(), vec![MoveTo(4, 0)]);
    assert_eq!((l.x(), l.y()), (4, 0));
    assert_eq!(l.right(), vec![MoveTo(2, 1)]);
    assert_eq!((l.x(), l.y()), (2, 1));
    assert!(l.right().is_empty());
    assert_eq!(l.left(), vec![MoveTo(4, 0)]);
    assert_eq!(l.left(), vec![MoveTo(3, 0)]);
    assert_eq!(l.right(), vec![MoveTo(4, 0)]);
}

#[test]
fn terminal_left_at_origin_stays() {
    let mut l = TermLines::new();
    assert!(l.left().is_empty());
    assert_eq!((l.x(), l.y()), (2, 0));
}

#[test]
fn terminal_line_push_and_pop() {
    let mut t = TermLine::new();
    assert!(!t.is_active);
    t.push_ch('x');
    t.push_ch('y');
    assert_eq!(t.line, "xy");
    t.pop_ch();
    assert_eq!(t.line, "x");
}

#[test]
fn terminal_backspace_takes_back_a_typed_character() {
    let mut l = TermLines::new();
    l.push_char('a');
    let before = (l.x(), l.y());
    l.push_char('b');
    let cmds = l.pop_char();
    assert_eq!((l.x(), l.y()), before);
    assert_eq!(cmds, vec![MoveTo(3, 0), PrintChar(' '), Flush, MoveTo(3, 0)]);
    // The line holds "a" again: typing goes on right after it.
    assert_eq!(l.push_char('c'), vec![PrintChar('c'), Flush, MoveTo(4, 0)]);
}

#[test]
fn terminal_cursor_stays_right_of_gutter() {
    let mut l = TermLines::new();
    l.push_char('a');
    l.newline();
    l.push_char('b');
    for _ in 0..5 {
        l.left();
        assert!(l.x() >= 2);
    }
    l.pop_char();
    assert!(l.x() >= 2);
    for _ in 0..5 {
        l.right();
        assert!(l.x() >= 2);
    }
    l.pop_char();
    l.pop_char();
    assert!(l.x() >= 2);
}
