use ropey::Rope;
use zee_edit::movement;
use zee_edit::{Cursor, Direction};

fn text_with_cursor(text: impl Into<Rope>) -> (Rope, Cursor) {
    let text = text.into();
    let mut cursor = Cursor::new();
    movement::move_horizontally(&text, &mut cursor, Direction::Backward, 1);
    (text, cursor)
}

const TEXT: &str = r#"
Basic Latin
    ! " # $ % & ' ( ) *+,-./012ABCDEFGHI` a m  t u v z { | } ~
CJK
    豈 更 車 Ⅷ
"#;

#[test]
fn sync_with_empty() {
    let current_text = Rope::from("Buy a milk goat\nAt the market\n");
    let new_text = Rope::from("");
    let mut cursor = Cursor::new();
    movement::move_horizontally(&current_text, &mut cursor, Direction::Forward, 4);
    cursor.sync(&current_text, &new_text);
    assert_eq!(Cursor::new(), cursor);
}

#[test]
fn delete_forward_at_the_end() {
    let (mut text, mut cursor) = text_with_cursor(TEXT);
    let expected = text.clone();
    movement::move_to_end_of_buffer(&text, &mut cursor);
    cursor.delete_forward(&mut text);
    assert_eq!(expected, text);
}

#[test]
fn delete_forward_empty_text() {
    let (mut text, mut cursor) = text_with_cursor("");
    cursor.delete_forward(&mut text);
    assert_eq!(cursor, Cursor::new());
}

#[test]
fn delete_forward_at_the_begining() {
    let (mut text, mut cursor) = text_with_cursor("// Hello world!\n\n");
    let expected = Rope::from("Hello world!\n\n");
    cursor.delete_forward(&mut text);
    cursor.delete_forward(&mut text);
    cursor.delete_forward(&mut text);
    assert_eq!(expected, text);
}

#[test]
fn delete_backward_at_the_end() {
    let (mut text, mut cursor) = text_with_cursor("// Hello world!\n");
    movement::move_to_end_of_buffer(&text, &mut cursor);
    cursor.delete_backward(&mut text);
    assert_eq!(Rope::from("// Hello world!"), text);
    cursor.delete_backward(&mut text);
    assert_eq!(Rope::from("// Hello world"), text);
}

#[test]
fn delete_backward_empty_text() {
    let (mut text, mut cursor) = text_with_cursor("");
    cursor.delete_backward(&mut text);
    assert_eq!(cursor, Cursor::new());
}

#[test]
fn delete_backward_at_the_begining() {
    let (mut text, mut cursor) = text_with_cursor("// Hello world!\n");
    let expected = text.clone();
    cursor.delete_backward(&mut text);
    assert_eq!(expected, text);
}

#[test]
fn begin_selection_sets_anchor() {
    let text = Rope::from("Hello world");
    let mut cursor = Cursor::new();
    movement::move_horizontally(&text, &mut cursor, Direction::Forward, 3);
    cursor.begin_selection();
    assert_eq!(cursor.selection, Some(3));
}

#[test]
fn clear_selection_removes_anchor() {
    let text = Rope::from("Hello world");
    let mut cursor = Cursor::new();
    movement::move_horizontally(&text, &mut cursor, Direction::Forward, 3);
    cursor.begin_selection();
    assert!(cursor.selection.is_some());
    cursor.clear_selection();
    assert!(cursor.selection.is_none());
}

#[test]
fn selection_normalized_forward() {
    let text = Rope::from("Hello world");
    let mut cursor = Cursor::new();
    movement::move_horizontally(&text, &mut cursor, Direction::Forward, 3);
    cursor.begin_selection();
    movement::move_horizontally(&text, &mut cursor, Direction::Forward, 4);
    let sel = cursor.selection();
    assert_eq!(sel, 3..7);
}

#[test]
fn selection_normalized_backward() {
    let text = Rope::from("Hello world");
    let mut cursor = Cursor::new();
    movement::move_horizontally(&text, &mut cursor, Direction::Forward, 7);
    cursor.begin_selection();
    movement::move_horizontally(&text, &mut cursor, Direction::Backward, 4);
    let sel = cursor.selection();
    assert_eq!(sel, 3..7);
}

#[test]
fn selection_no_anchor_returns_cursor_range() {
    let text = Rope::from("Hello world");
    let mut cursor = Cursor::new();
    movement::move_horizontally(&text, &mut cursor, Direction::Forward, 5);
    assert!(cursor.selection.is_none());
    let sel = cursor.selection();
    assert_eq!(sel, cursor.range);
}

#[test]
fn select_all_selects_entire_buffer() {
    let text = Rope::from("Hello\nWorld");
    let mut cursor = Cursor::new();
    cursor.select_all(&text);
    let sel = cursor.selection();
    assert_eq!(sel.start, 0);
    assert_eq!(sel.end, text.len_chars());
}

#[test]
fn delete_selection_removes_selected_range() {
    let mut text = Rope::from("Hello world");
    let mut cursor = Cursor::new();
    movement::move_horizontally(&text, &mut cursor, Direction::Forward, 3);
    cursor.begin_selection();
    movement::move_horizontally(&text, &mut cursor, Direction::Forward, 4);
    let operation = cursor.delete_selection(&mut text);
    assert_eq!(&text.to_string(), "Helorld");
    assert_eq!(operation.diff.char_index, 3);
    assert_eq!(operation.diff.old_char_length, 4);
}

#[test]
fn delete_selection_resets_cursor() {
    let mut text = Rope::from("Hello world");
    let mut cursor = Cursor::new();
    movement::move_horizontally(&text, &mut cursor, Direction::Forward, 3);
    cursor.begin_selection();
    movement::move_horizontally(&text, &mut cursor, Direction::Forward, 4);
    cursor.delete_selection(&mut text);
    assert_eq!(cursor.range.start, 6);
    assert!(cursor.selection.is_none());
}

#[test]
fn delete_selection_backward_direction() {
    let mut text = Rope::from("Hello world");
    let mut cursor = Cursor::new();
    movement::move_horizontally(&text, &mut cursor, Direction::Forward, 7);
    cursor.begin_selection();
    movement::move_horizontally(&text, &mut cursor, Direction::Backward, 4);
    let _operation = cursor.delete_selection(&mut text);
    assert_eq!(&text.to_string(), "Helorld");
    assert_eq!(cursor.range.start, 3);
    assert!(cursor.selection.is_none());
}

#[test]
fn delete_selection_on_empty_text() {
    let mut text = Rope::from("");
    let mut cursor = Cursor::new();
    let operation = cursor.delete_selection(&mut text);
    assert!(operation.diff.is_empty());
}

#[test]
fn rectangle_enter_anchor_fixed() {
    let text = Rope::from("Hello\nWorld\n");
    let mut cursor = Cursor::new();
    movement::move_horizontally(&text, &mut cursor, Direction::Forward, 3);
    cursor.begin_rectangle_selection(&text, 4);
    let rect = cursor.rectangle_selection().unwrap();
    assert_eq!(rect.anchor_line, 0);
    assert_eq!(rect.anchor_column, 3);
    assert_eq!(rect.line_start, 0);
    assert_eq!(rect.line_end, 0);
    assert_eq!(rect.column_left, 3);
    assert_eq!(rect.column_right, 3);
    assert!(rect.is_zero_width());
}

#[test]
fn rectangle_diagonal_updates_normalized() {
    let text = Rope::from("Hello\nWorld\nFooBar\n");
    let mut cursor = Cursor::new();
    movement::move_horizontally(&text, &mut cursor, Direction::Forward, 2);
    cursor.begin_rectangle_selection(&text, 4);
    movement::move_horizontally(&text, &mut cursor, Direction::Forward, 3);
    cursor.update_rectangle_diagonal(&text, 4);
    let rect = cursor.rectangle_selection().unwrap();
    assert_eq!(rect.line_start, 0);
    assert_eq!(rect.line_end, 0);
    assert_eq!(rect.column_left, 2);
    assert_eq!(rect.column_right, 5);
}

#[test]
fn rectangle_backward_direction_normalized() {
    let text = Rope::from("Hello\nWorld\nFooBar\n");
    let mut cursor = Cursor::new();
    movement::move_horizontally(&text, &mut cursor, Direction::Forward, 5);
    cursor.begin_rectangle_selection(&text, 4);
    movement::move_horizontally(&text, &mut cursor, Direction::Backward, 3);
    cursor.update_rectangle_diagonal(&text, 4);
    let rect = cursor.rectangle_selection().unwrap();
    assert_eq!(rect.column_left, 2);
    assert_eq!(rect.column_right, 5);
}

#[test]
fn rectangle_cancel_nondestructive() {
    let text = Rope::from("Hello world");
    let mut cursor = Cursor::new();
    movement::move_horizontally(&text, &mut cursor, Direction::Forward, 3);
    let cursor_before = cursor.clone();
    cursor.begin_rectangle_selection(&text, 4);
    assert!(cursor.is_rectangle_mode());
    cursor.clear_rectangle_selection();
    assert!(!cursor.is_rectangle_mode());
    assert_eq!(cursor.range, cursor_before.range);
}

#[test]
fn rectangle_exclusive_with_normal_selection() {
    let text = Rope::from("Hello world");
    let mut cursor = Cursor::new();
    cursor.begin_selection();
    assert!(cursor.selection.is_some());
    assert!(!cursor.is_rectangle_mode());
    cursor.begin_rectangle_selection(&text, 4);
    assert!(cursor.selection.is_none());
    assert!(cursor.is_rectangle_mode());
    cursor.begin_selection();
    assert!(cursor.selection.is_some());
    assert!(!cursor.is_rectangle_mode());
}

#[test]
fn rectangle_mode_buffer_unchanged() {
    let text = Rope::from("Hello\nWorld\n");
    let mut cursor = Cursor::new();
    movement::move_horizontally(&text, &mut cursor, Direction::Forward, 3);
    cursor.begin_rectangle_selection(&text, 4);
    movement::move_vertically(&text, &mut cursor, 4, Direction::Forward, 1);
    cursor.update_rectangle_diagonal(&text, 4);
    assert_eq!(&text.to_string(), "Hello\nWorld\n");
}

#[test]
fn insert_chars_inserts_at_cursor_and_reports_bytes() {
    let mut text = Rope::from("ad");
    let mut cursor = Cursor::with_range(1..2);
    let diff = cursor.insert_chars(&mut text, vec!['b', '漢']);
    assert_eq!(text.to_string(), "ab漢d");
    assert_eq!((diff.char_index, diff.new_char_length), (1, 2));
    assert_eq!((diff.byte_index, diff.new_byte_length), (1, 4));
    assert_eq!(cursor.range, 1..2);
}

#[test]
fn reconcile_moves_a_cursor_after_an_insertion() {
    let text = Rope::from("XXabcdef");
    let mut cursor = Cursor::with_range(4..5);
    let diff = zee_edit::OpaqueDiff::new(0, 0, 2, 0, 0, 2);
    cursor.reconcile(&text, &diff);
    assert_eq!(cursor.range, 6..7);
}

#[test]
fn delete_line_goes_to_the_next_line() {
    let mut text = Rope::from("one\ntwo\nthree\n");
    let mut cursor = Cursor::with_range(5..6);
    let operation = cursor.delete_line(&mut text);
    assert_eq!(text.to_string(), "one\nthree\n");
    assert_eq!(operation.deleted.to_string(), "two\n");
    assert_eq!(cursor.range, 4..5);
}

#[test]
fn delete_line_before_a_last_line_without_break_goes_up() {
    // The cursor goes to the line at most two from the end: here the first.
    let mut text = Rope::from("one\ntwo\nthree");
    let mut cursor = Cursor::with_range(5..6);
    cursor.delete_line(&mut text);
    assert_eq!(text.to_string(), "one\nthree");
    assert_eq!(cursor.range, 0..1);
}

#[test]
fn move_vertically_keeps_the_visual_column() {
    let text = Rope::from("abcdef\nab\nabcdef\n");
    let mut cursor = Cursor::with_range(4..5);
    movement::move_vertically(&text, &mut cursor, 4, Direction::Forward, 1);
    assert_eq!(cursor.range, 9..10);
    movement::move_vertically(&text, &mut cursor, 4, Direction::Forward, 1);
    assert_eq!(cursor.range, 14..15);
}

#[test]
fn move_to_line_edges() {
    let text = Rope::from("ab\ncd\n");
    let mut cursor = Cursor::with_range(4..5);
    movement::move_to_start_of_line(&text, &mut cursor);
    assert_eq!(cursor.range, 3..4);
    movement::move_to_end_of_line(&text, &mut cursor);
    assert_eq!(cursor.range, 5..6);
}

#[test]
fn reconcile_moves_a_cursor_just_after_an_insertion() {
    let text = Rope::from("XYZabcd");
    let mut cursor = Cursor::with_range(1..2);
    let diff = zee_edit::OpaqueDiff::new(0, 0, 3, 0, 0, 3);
    cursor.reconcile(&text, &diff);
    assert_eq!(cursor.range, 4..5);
}

#[test]
fn reconcile_moves_a_cursor_back_after_a_deletion() {
    let text = Rope::from("cdef");
    let mut cursor = Cursor::with_range(3..4);
    let diff = zee_edit::OpaqueDiff::new(0, 2, 0, 0, 2, 0);
    cursor.reconcile(&text, &diff);
    assert_eq!(cursor.range, 1..2);
}

#[test]
fn reconcile_leaves_a_cursor_before_the_edit() {
    let text = Rope::from("abcXYZ");
    let mut cursor = Cursor::with_range(1..2);
    let diff = zee_edit::OpaqueDiff::new(3, 0, 3, 3, 0, 3);
    cursor.reconcile(&text, &diff);
    assert_eq!(cursor.range, 1..2);
}

#[test]
fn default_cursor_is_a_new_cursor() {
    assert_eq!(Cursor::default(), Cursor::new());
}
