use typstty::text_buffer::line::Line;
use typstty::text_buffer::lines::Lines;

fn type_str(b: &mut Lines, s: &str) {
    for c in s.chars() {
        b.push_char(c);
    }
}

fn texts(b: &Lines) -> Vec<String> {
    b.lines().to_vec()
}

fn loaded(text: &str) -> Lines {
    let mut b = Lines::new();
    b.load_from_str(text);
    b
}

#[test]
fn new_buffer_has_one_empty_line() {
    let b = Lines::new();
    assert_eq!(texts(&b), vec![String::new()]);
    assert_eq!((b.col(), b.row()), (0, 0));
}

#[test]
fn push_char_inserts_at_cursor() {
    let mut b = Lines::new();
    type_str(&mut b, "ac");
    b.move_left();
    b.push_char('b');
    assert_eq!(texts(&b), vec!["abc".to_string()]);
    assert_eq!(b.col(), 2);
}

#[test]
fn push_char_counts_characters_not_bytes() {
    let mut b = Lines::new();
    type_str(&mut b, "éx");
    b.move_left();
    b.push_char('ü');
    assert_eq!(texts(&b), vec!["éüx".to_string()]);
    assert_eq!(b.col(), 2);
}

#[test]
fn char_to_byte_offset_walks_characters() {
    assert_eq!(Lines::char_to_byte_offset("aéb", 0), 0);
    assert_eq!(Lines::char_to_byte_offset("aéb", 1), 1);
    assert_eq!(Lines::char_to_byte_offset("aéb", 2), 3);
    assert_eq!(Lines::char_to_byte_offset("aéb", 3), 4);
    assert_eq!(Lines::char_to_byte_offset("aéb", 10), 4);
    assert_eq!(Lines::char_to_byte_offset("", 0), 0);
}

#[test]
fn pop_char_undoes_push_char() {
    let mut b = loaded("hello\nworld");
    b.move_down();
    b.move_right();
    b.move_right();
    let before = texts(&b);
    let cursor = (b.col(), b.row());
    b.push_char('Z');
    assert_eq!(texts(&b)[1], "woZrld");
    b.pop_char();
    assert_eq!(texts(&b), before);
    assert_eq!((b.col(), b.row()), cursor);
}

#[test]
fn pop_char_at_line_start_joins_lines() {
    let mut b = loaded("ab\ncd\nef");
    b.move_down();
    b.pop_char();
    assert_eq!(texts(&b), vec!["abcd".to_string(), "ef".to_string()]);
    assert_eq!((b.col(), b.row()), (2, 0));
}

#[test]
fn pop_char_at_buffer_start_does_nothing() {
    let mut b = loaded("ab");
    b.pop_char();
    assert_eq!(texts(&b), vec!["ab".to_string()]);
    assert_eq!((b.col(), b.row()), (0, 0));
}

#[test]
fn newline_splits_line_at_cursor() {
    let mut b = Lines::new();
    type_str(&mut b, "abcd");
    b.move_left();
    b.move_left();
    b.newline();
    assert_eq!(texts(&b), vec!["ab".to_string(), "cd".to_string()]);
    assert_eq!((b.col(), b.row()), (0, 1));
}

#[test]
fn newline_inside_buffer_inserts_after_current_line() {
    let mut b = loaded("one\ntwo");
    b.move_end();
    b.newline();
    type_str(&mut b, "mid");
    assert_eq!(
        texts(&b),
        vec!["one".to_string(), "mid".to_string(), "two".to_string()]
    );
    assert_eq!((b.col(), b.row()), (3, 1));
}

#[test]
fn pop_char_undoes_newline() {
    let mut b = loaded("héllo\nx");
    b.move_right();
    b.move_right();
    let before = texts(&b);
    b.newline();
    b.pop_char();
    assert_eq!(texts(&b), before);
    assert_eq!((b.col(), b.row()), (2, 0));
}

#[test]
fn move_left_wraps_to_end_of_previous_line() {
    let mut b = loaded("abc\nde");
    b.move_down();
    b.move_left();
    assert_eq!((b.col(), b.row()), (3, 0));
    b.move_left();
    assert_eq!((b.col(), b.row()), (2, 0));
}

#[test]
fn move_left_at_buffer_start_stays() {
    let mut b = loaded("abc");
    b.move_left();
    assert_eq!((b.col(), b.row()), (0, 0));
}

#[test]
fn move_right_wraps_to_start_of_next_line() {
    let mut b = loaded("ab\ncd");
    b.move_end();
    b.move_right();
    assert_eq!((b.col(), b.row()), (0, 1));
    b.move_end();
    b.move_right();
    assert_eq!((b.col(), b.row()), (2, 1));
}

#[test]
fn move_right_then_left_returns() {
    let mut b = loaded("ab\ncd");
    for _ in 0..3 {
        b.move_right();
    }
    let c = (b.col(), b.row());
    b.move_right();
    b.move_left();
    assert_eq!((b.col(), b.row()), c);
    b.move_left();
    b.move_right();
    assert_eq!((b.col(), b.row()), c);
}

#[test]
fn move_up_and_down_clamp_the_column() {
    let mut b = loaded("a\nlonger line\nab");
    b.move_down();
    b.move_end();
    assert_eq!((b.col(), b.row()), (11, 1));
    b.move_up();
    assert_eq!((b.col(), b.row()), (1, 0));
    b.move_up();
    assert_eq!((b.col(), b.row()), (1, 0));
    b.move_down();
    b.move_end();
    b.move_down();
    assert_eq!((b.col(), b.row()), (2, 2));
    b.move_down();
    assert_eq!((b.col(), b.row()), (2, 2));
}

#[test]
fn move_home_and_end() {
    let mut b = loaded("grüße");
    b.move_end();
    assert_eq!(b.col(), 5);
    b.move_home();
    assert_eq!(b.col(), 0);
}

#[test]
fn ctrl_right_skips_spaces_then_word() {
    let mut b = loaded("foo  bar baz");
    b.move_ctrl_right();
    assert_eq!(b.col(), 3);
    b.move_ctrl_right();
    assert_eq!(b.col(), 8);
    b.move_ctrl_right();
    assert_eq!(b.col(), 12);
}

#[test]
fn ctrl_right_on_trailing_spaces_stays() {
    let mut b = loaded("foo   \nnext");
    b.move_ctrl_right();
    assert_eq!(b.col(), 3);
    b.move_ctrl_right();
    assert_eq!((b.col(), b.row()), (3, 0));
}

#[test]
fn ctrl_right_at_line_end_goes_to_next_line() {
    let mut b = loaded("foo\nbar");
    b.move_end();
    b.move_ctrl_right();
    assert_eq!((b.col(), b.row()), (0, 1));
}

#[test]
fn ctrl_left_skips_spaces_then_word() {
    let mut b = loaded("foo  bar");
    b.move_end();
    b.move_ctrl_left();
    assert_eq!(b.col(), 5);
    b.move_ctrl_left();
    assert_eq!(b.col(), 0);
}

#[test]
fn ctrl_left_at_line_start_goes_to_previous_line_end() {
    let mut b = loaded("foo\nbar");
    b.move_down();
    b.move_ctrl_left();
    assert_eq!((b.col(), b.row()), (3, 0));
}

#[test]
fn pop_word_deletes_word_and_trailing_spaces() {
    let mut b = loaded("hello world  ");
    b.move_end();
    b.pop_word();
    assert_eq!(texts(&b), vec!["hello ".to_string()]);
    assert_eq!(b.col(), 6);
    b.pop_word();
    assert_eq!(texts(&b), vec![String::new()]);
    assert_eq!(b.col(), 0);
}

#[test]
fn pop_word_at_line_start_joins_lines() {
    let mut b = loaded("ab\ncd");
    b.move_down();
    b.pop_word();
    assert_eq!(texts(&b), vec!["abcd".to_string()]);
    assert_eq!((b.col(), b.row()), (2, 0));
}

#[test]
fn load_from_str_splits_on_line_breaks() {
    let b = loaded("a\r\nb\n\nc");
    assert_eq!(
        texts(&b),
        vec!["a".to_string(), "b".to_string(), String::new(), "c".to_string()]
    );
    assert_eq!((b.col(), b.row()), (0, 0));
    let e = loaded("");
    assert_eq!(texts(&e), vec![String::new()]);
    let t = loaded("x\n");
    assert_eq!(texts(&t), vec!["x".to_string()]);
}

#[test]
fn load_from_str_resets_the_cursor() {
    let mut b = loaded("abc\ndef");
    b.move_down();
    b.move_end();
    b.load_from_str("z");
    assert_eq!((b.col(), b.row()), (0, 0));
}

#[test]
fn saved_text_ends_every_line_with_newline() {
    let b = loaded("a\r\nb\n\nc");
    assert_eq!(b.saved_text(), "a\nb\n\nc\n");
}

#[test]
fn loading_saved_text_gives_back_the_lines() {
    let mut b = Lines::new();
    type_str(&mut b, "first é");
    b.newline();
    b.newline();
    type_str(&mut b, "third");
    let saved = b.saved_text();
    let again = loaded(&saved);
    assert_eq!(texts(&again), texts(&b));
}

#[test]
fn full_text_joins_lines_and_offsets_point_at_them() {
    let b = loaded("aé\n\nxyz");
    let full = b.full_text();
    assert_eq!(full, "aé\n\nxyz");
    let offsets = b.line_byte_offsets();
    assert_eq!(offsets, vec![0, 4, 5]);
    for (i, line) in b.lines().iter().enumerate() {
        assert_eq!(&full[offsets[i]..offsets[i] + line.len()], line.as_str());
    }
}

#[test]
fn line_push_and_pop() {
    let mut l = Line::new();
    assert_eq!(l.line, "");
    l.push_ch('a');
    l.push_ch('ß');
    assert_eq!(l.line, "aß");
    l.pop_ch();
    assert_eq!(l.line, "a");
    l.pop_ch();
    l.pop_ch();
    assert_eq!(l.line, "");
}

#[test]
fn ctrl_moves_treat_unicode_spaces_as_whitespace() {
    let mut b = loaded("ab\u{3000}cd\u{a0}ef");
    b.move_ctrl_right();
    assert_eq!(b.col(), 2);
    b.move_ctrl_right();
    assert_eq!(b.col(), 5);
    b.move_end();
    b.move_ctrl_left();
    assert_eq!(b.col(), 6);
}
