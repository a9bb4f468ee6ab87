use typstty::editor::app::{
    apply_edit_keys, apply_frame, apply_navigation, will_modify, AppRequest, EditKeys,
    EditorState, FrameInput, FrameOutcome, Navigation, MAX_SNAPSHOTS,
};
use typstty::editor::app_snapshot::AppSnapshot;
use typstty::text_buffer::lines::Lines;

fn keys(enter: bool, backspace: bool, delete: bool, tab: bool, texts: &[&str]) -> EditKeys {
    EditKeys {
        enter,
        backspace,
        delete,
        tab,
        texts: texts.iter().map(|t| t.to_string()).collect(),
    }
}

fn typing(t: &str) -> EditKeys {
    keys(false, false, false, false, &[t])
}

fn loaded(text: &str) -> Lines {
    let mut b = Lines::new();
    b.load_from_str(text);
    b
}

fn texts(b: &Lines) -> Vec<String> {
    b.lines().to_vec()
}

#[test]
fn navigation_moves_the_cursor() {
    let mut b = loaded("foo bar\nbaz");
    assert_eq!(apply_navigation(&mut b, Navigation::CtrlRight), None);
    assert_eq!(b.col(), 3);
    assert_eq!(apply_navigation(&mut b, Navigation::End), None);
    assert_eq!(b.col(), 7);
    assert_eq!(apply_navigation(&mut b, Navigation::Right), None);
    assert_eq!((b.col(), b.row()), (0, 1));
    assert_eq!(apply_navigation(&mut b, Navigation::Up), None);
    assert_eq!((b.col(), b.row()), (0, 0));
    apply_navigation(&mut b, Navigation::Down);
    apply_navigation(&mut b, Navigation::End);
    apply_navigation(&mut b, Navigation::Home);
    assert_eq!((b.col(), b.row()), (0, 1));
    apply_navigation(&mut b, Navigation::Left);
    assert_eq!((b.col(), b.row()), (7, 0));
    apply_navigation(&mut b, Navigation::CtrlLeft);
    assert_eq!(b.col(), 4);
}

#[test]
fn navigation_ctrl_backspace_deletes_a_word() {
    let mut b = loaded("foo bar");
    b.move_end();
    assert_eq!(apply_navigation(&mut b, Navigation::CtrlBackspace), None);
    assert_eq!(texts(&b), vec!["foo ".to_string()]);
}

#[test]
fn navigation_quit_and_compile_are_handed_back() {
    let mut b = loaded("x");
    assert_eq!(apply_navigation(&mut b, Navigation::Quit), Some(AppRequest::Quit));
    assert_eq!(
        apply_navigation(&mut b, Navigation::Compile),
        Some(AppRequest::Compile)
    );
    assert_eq!(texts(&b), vec!["x".to_string()]);
    assert_eq!((b.col(), b.row()), (0, 0));
}

#[test]
fn edit_keys_apply_in_order() {
    let mut b = loaded("ab");
    b.move_end();
    let out = apply_edit_keys(&mut b, &keys(true, false, false, true, &["x y"]), false);
    assert_eq!(texts(&b), vec!["ab".to_string(), "x y    ".to_string()]);
    assert!(out.modified);
}

#[test]
fn typing_any_text_is_a_modification() {
    let mut b = Lines::new();
    let out = apply_edit_keys(&mut b, &typing("abc"), false);
    assert_eq!(texts(&b), vec!["abc".to_string()]);
    assert!(out.modified);
    let out = apply_edit_keys(&mut b, &typing("d e"), false);
    assert_eq!(texts(&b), vec!["abcd e".to_string()]);
    assert!(out.modified);
    let out = apply_edit_keys(&mut b, &keys(false, false, false, false, &[]), false);
    assert!(!out.modified);
}

#[test]
fn backspace_deletes_left_of_cursor() {
    let mut b = loaded("abc");
    b.move_end();
    let out = apply_edit_keys(&mut b, &keys(false, true, false, false, &[]), false);
    assert_eq!(texts(&b), vec!["ab".to_string()]);
    assert!(out.modified);
}

#[test]
fn delete_removes_character_under_cursor() {
    let mut b = loaded("abc\nd");
    b.move_right();
    let out = apply_edit_keys(&mut b, &keys(false, false, true, false, &[]), false);
    assert_eq!(texts(&b), vec!["ac".to_string(), "d".to_string()]);
    assert_eq!(b.col(), 1);
    assert!(out.modified);
}

#[test]
fn delete_at_line_end_joins_next_line() {
    let mut b = loaded("ab\ncd");
    b.move_end();
    let out = apply_edit_keys(&mut b, &keys(false, false, true, false, &[]), false);
    assert_eq!(texts(&b), vec!["abcd".to_string()]);
    assert_eq!((b.col(), b.row()), (2, 0));
    assert!(out.modified);
}

#[test]
fn delete_at_buffer_end_does_nothing() {
    let mut b = loaded("ab");
    b.move_end();
    let out = apply_edit_keys(&mut b, &keys(false, false, true, false, &[]), false);
    assert_eq!(texts(&b), vec!["ab".to_string()]);
    assert!(!out.modified);
}

#[test]
fn edit_keys_are_ignored_while_ctrl_is_held() {
    let mut b = loaded("ab");
    let out = apply_edit_keys(&mut b, &keys(true, true, true, true, &["x"]), true);
    assert_eq!(texts(&b), vec!["ab".to_string()]);
    assert!(!out.modified);
}

#[test]
fn will_modify_reports_any_editing_key() {
    assert!(!will_modify(&keys(false, false, false, false, &[])));
    assert!(will_modify(&keys(true, false, false, false, &[])));
    assert!(will_modify(&keys(false, true, false, false, &[])));
    assert!(will_modify(&keys(false, false, true, false, &[])));
    assert!(will_modify(&keys(false, false, false, true, &[])));
    assert!(will_modify(&typing("a")));
}

#[test]
fn undo_restores_the_buffer_before_an_edit() {
    let mut ed = EditorState::new(Lines::new());
    let k = typing("hello");
    ed.prepare_edit(&k);
    ed.edit(&k, false);
    assert_eq!(texts(ed.buffer()), vec!["hello".to_string()]);
    assert_eq!(ed.undo_depth(), 1);
    ed.undo();
    assert_eq!(texts(ed.buffer()), vec![String::new()]);
    assert_eq!((ed.undo_depth(), ed.redo_depth()), (0, 1));
    ed.redo();
    assert_eq!(texts(ed.buffer()), vec!["hello".to_string()]);
    assert_eq!((ed.undo_depth(), ed.redo_depth()), (1, 0));
}

#[test]
fn undo_with_empty_history_does_nothing() {
    let mut ed = EditorState::new(loaded("x"));
    ed.undo();
    assert_eq!(texts(ed.buffer()), vec!["x".to_string()]);
    ed.redo();
    assert_eq!(texts(ed.buffer()), vec!["x".to_string()]);
    assert_eq!((ed.undo_depth(), ed.redo_depth()), (0, 0));
}

#[test]
fn editing_after_undo_forgets_redo() {
    let mut ed = EditorState::new(Lines::new());
    let k = typing("a");
    ed.prepare_edit(&k);
    ed.edit(&k, false);
    ed.undo();
    assert_eq!(ed.redo_depth(), 1);
    let k2 = typing("b");
    ed.prepare_edit(&k2);
    ed.edit(&k2, false);
    assert_eq!(ed.redo_depth(), 0);
    assert_eq!(texts(ed.buffer()), vec!["b".to_string()]);
}

#[test]
fn prepare_edit_without_keys_keeps_history() {
    let mut ed = EditorState::new(Lines::new());
    ed.prepare_edit(&keys(false, false, false, false, &[]));
    assert_eq!(ed.undo_depth(), 0);
}

#[test]
fn history_keeps_at_most_max_snapshots() {
    let mut ed = EditorState::new(Lines::new());
    for _ in 0..(MAX_SNAPSHOTS + 5) {
        let k = typing("x");
        ed.prepare_edit(&k);
        ed.edit(&k, false);
    }
    assert_eq!(ed.undo_depth(), MAX_SNAPSHOTS);
    for _ in 0..(MAX_SNAPSHOTS + 5) {
        ed.undo();
    }
    assert_eq!(texts(ed.buffer()), vec!["xxxxx".to_string()]);
}

#[test]
fn navigate_keeps_history_and_hands_back_requests() {
    let mut ed = EditorState::new(loaded("ab"));
    let k = typing("z");
    ed.prepare_edit(&k);
    ed.edit(&k, false);
    assert_eq!(ed.navigate(Navigation::Right), None);
    assert_eq!(ed.buffer().col(), 2);
    assert_eq!(ed.navigate(Navigation::Quit), Some(AppRequest::Quit));
    assert_eq!(ed.undo_depth(), 1);
}

#[test]
fn push_snapshot_then_undo_returns_same_buffer() {
    let mut ed = EditorState::new(loaded("keep"));
    ed.push_snapshot();
    ed.undo();
    assert_eq!(texts(ed.buffer()), vec!["keep".to_string()]);
    assert_eq!(ed.redo_depth(), 1);
}

#[test]
fn snapshot_holds_a_buffer() {
    let s = AppSnapshot { buffer: loaded("a\nb") };
    let c = s.clone();
    assert_eq!(texts(&c.buffer), vec!["a".to_string(), "b".to_string()]);
}

fn no_keys() -> EditKeys {
    keys(false, false, false, false, &[])
}

fn frame_input(undo: bool, redo: bool, navigation: Option<Navigation>, k: EditKeys, ctrl: bool) -> FrameInput {
    FrameInput { undo, redo, navigation, keys: k, ctrl }
}

#[test]
fn frame_typing_a_letter_is_a_modification() {
    let mut b = Lines::new();
    let out = apply_frame(&mut b, None, &typing("a"), false);
    assert_eq!(texts(&b), vec!["a".to_string()]);
    assert_eq!(out, FrameOutcome { request: None, modified: true });
}

#[test]
fn frame_ctrl_backspace_is_a_modification() {
    let mut b = loaded("foo bar");
    b.move_end();
    let out = apply_frame(&mut b, Some(Navigation::CtrlBackspace), &no_keys(), true);
    assert_eq!(texts(&b), vec!["foo ".to_string()]);
    assert!(out.modified);
    let mut c = loaded("foo");
    let out = apply_frame(&mut c, Some(Navigation::CtrlBackspace), &no_keys(), true);
    assert_eq!(texts(&c), vec!["foo".to_string()]);
    assert!(!out.modified);
}

#[test]
fn frame_navigation_alone_is_not_a_modification() {
    let mut b = loaded("foo");
    let out = apply_frame(&mut b, Some(Navigation::End), &no_keys(), false);
    assert_eq!(b.col(), 3);
    assert_eq!(out, FrameOutcome { request: None, modified: false });
}

#[test]
fn frame_hands_back_quit_and_skips_keys_under_ctrl() {
    let mut b = loaded("foo");
    let out = apply_frame(&mut b, Some(Navigation::Quit), &typing("x"), true);
    assert_eq!(texts(&b), vec!["foo".to_string()]);
    assert_eq!(out, FrameOutcome { request: Some(AppRequest::Quit), modified: false });
}

#[test]
fn frame_navigation_comes_before_editing() {
    let mut b = loaded("ab");
    let out = apply_frame(&mut b, Some(Navigation::End), &typing("x"), false);
    assert_eq!(texts(&b), vec!["abx".to_string()]);
    assert!(out.modified);
}

#[test]
fn one_undo_reverts_a_whole_frame() {
    let mut ed = EditorState::new(loaded("ab"));
    let out = ed.frame(&frame_input(false, false, Some(Navigation::End), typing("xy"), false));
    assert!(out.modified);
    assert_eq!(texts(ed.buffer()), vec!["abxy".to_string()]);
    let out = ed.frame(&frame_input(true, false, None, no_keys(), true));
    assert_eq!(out, FrameOutcome { request: None, modified: true });
    assert_eq!(texts(ed.buffer()), vec!["ab".to_string()]);
    assert_eq!((ed.buffer().col(), ed.buffer().row()), (0, 0));
    let out = ed.frame(&frame_input(false, true, None, no_keys(), true));
    assert!(out.modified);
    assert_eq!(texts(ed.buffer()), vec!["abxy".to_string()]);
}

#[test]
fn frame_undo_with_empty_history_changes_nothing() {
    let mut ed = EditorState::new(loaded("ab"));
    let out = ed.frame(&frame_input(true, false, None, typing("z"), true));
    assert_eq!(out, FrameOutcome { request: None, modified: false });
    assert_eq!(texts(ed.buffer()), vec!["ab".to_string()]);
}

#[test]
fn frame_without_edit_keys_takes_no_snapshot() {
    let mut ed = EditorState::new(loaded("ab"));
    let out = ed.frame(&frame_input(false, false, Some(Navigation::Compile), no_keys(), true));
    assert_eq!(out.request, Some(AppRequest::Compile));
    assert_eq!(ed.undo_depth(), 0);
}

#[test]
fn backspace_at_document_start_is_not_a_modification() {
    let mut b = loaded("ab\ncd");
    let out = apply_edit_keys(&mut b, &keys(false, true, false, false, &[]), false);
    assert_eq!(texts(&b), vec!["ab".to_string(), "cd".to_string()]);
    assert!(!out.modified);
    b.move_down();
    let out = apply_edit_keys(&mut b, &keys(false, true, false, false, &[]), false);
    assert_eq!(texts(&b), vec!["abcd".to_string()]);
    assert!(out.modified);
}

#[test]
fn enter_then_backspace_at_document_start_is_a_modification() {
    let mut b = loaded("ab");
    let out = apply_edit_keys(&mut b, &keys(true, true, false, false, &[]), false);
    assert_eq!(texts(&b), vec!["ab".to_string()]);
    assert!(out.modified);
}

#[test]
fn empty_typed_text_is_not_a_modification() {
    let mut b = loaded("ab");
    let out = apply_edit_keys(&mut b, &typing(""), false);
    assert_eq!(texts(&b), vec!["ab".to_string()]);
    assert!(!out.modified);
    let out = apply_edit_keys(&mut b, &keys(false, false, false, false, &["", "q"]), false);
    assert_eq!(texts(&b), vec!["qab".to_string()]);
    assert!(out.modified);
}
