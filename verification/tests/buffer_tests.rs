use ropey::Rope;
use zee_edit::buffer::{
    Buffer, BufferCursor, BufferEffect, BufferId, BufferMessage, Buffers, BuffersMessage, CursorId,
    CursorMessage, FilePath, Indentation, ModifiedStatus,
};
use zee_edit::rectangle_kill::RectangleKillStore;
use zee_edit::Cursor;

fn indentation() -> Indentation {
    Indentation { tab_width: 4, unit: ' ', count: 4 }
}

fn path(parts: &[&str]) -> FilePath {
    FilePath { components: parts.iter().map(|part| part.to_string()).collect() }
}

struct Editor {
    buffers: Buffers,
    kills: RectangleKillStore,
    id: BufferId,
}

impl Editor {
    fn new(text: &str) -> Self {
        let mut buffers = Buffers::new();
        let id = buffers.add(Rope::from(text), Some(path(&["/", "tmp", "a.txt"])), indentation(), false);
        Editor { buffers, kills: RectangleKillStore::new(), id }
    }

    fn send(&mut self, cursor: usize, message: CursorMessage, clipboard: &str) -> Vec<BufferEffect> {
        assert_eq!(cursor, 0);
        let cursor_id = CursorId::default();
        let message =
            BuffersMessage::new(self.id, BufferMessage::CursorMessage { cursor_id, message });
        assert!(self.buffers.accepts_message(&message, clipboard));
        self.buffers.handle_message(message, clipboard, &mut self.kills)
    }

    fn text(&self) -> String {
        self.buffers.get(self.id).unwrap().edit_tree().to_string()
    }

    fn cursor(&self) -> Cursor {
        self.buffers.get(self.id).unwrap().cursor(CursorId::default()).clone()
    }
}

fn clipboard_of(effects: &[BufferEffect]) -> Option<String> {
    effects.iter().find_map(|effect| match effect {
        BufferEffect::SetClipboard(text) => Some(text.clone()),
        _ => None,
    })
}

/// Selects columns 1..4 of lines 0..=2.
fn select_rectangle(editor: &mut Editor) {
    editor.send(0, CursorMessage::Right, "");
    editor.send(0, CursorMessage::BeginRectangleSelection, "");
    editor.send(0, CursorMessage::Down(2), "");
    for _ in 0..3 {
        editor.send(0, CursorMessage::Right, "");
    }
    let rect = editor.cursor().rectangle_selection.unwrap();
    assert_eq!((rect.line_start, rect.line_end), (0, 2));
    assert_eq!((rect.column_left, rect.column_right), (1, 4));
}

#[test]
fn rectangle_cut_then_one_undo_restores_all_lines() {
    let mut editor = Editor::new("ABCDE\nFGHIJ\nKLMNO\n");
    select_rectangle(&mut editor);
    let effects = editor.send(0, CursorMessage::RectangleCut, "");
    assert_eq!(clipboard_of(&effects), Some("BCD\nGHI\nLMN".to_string()));
    assert_eq!(editor.text(), "AE\nFJ\nKO\n");
    assert_eq!(editor.cursor(), Cursor::with_range(1..2));
    assert_eq!(
        editor.kills.peek("BCD\nGHI\nLMN"),
        Some(vec!["BCD".to_string(), "GHI".to_string(), "LMN".to_string()])
    );
    editor.send(0, CursorMessage::Undo, "");
    assert_eq!(editor.text(), "ABCDE\nFGHIJ\nKLMNO\n");
    editor.send(0, CursorMessage::Redo, "");
    assert_eq!(editor.text(), "AE\nFJ\nKO\n");
}

#[test]
fn rectangle_copy_keeps_the_text() {
    let mut editor = Editor::new("ABCDE\nFGHIJ\nKLMNO\n");
    select_rectangle(&mut editor);
    let effects = editor.send(0, CursorMessage::RectangleCopy, "");
    assert_eq!(clipboard_of(&effects), Some("BCD\nGHI\nLMN".to_string()));
    assert_eq!(editor.text(), "ABCDE\nFGHIJ\nKLMNO\n");
    assert!(!editor.cursor().is_rectangle_mode());
    let buffer = editor.buffers.get(editor.id).unwrap();
    assert_eq!(buffer.modified_status(), ModifiedStatus::Unchanged);
}

#[test]
fn rectangle_delete_keeps_clipboard_and_kill() {
    let mut editor = Editor::new("ABCDE\nFGHIJ\nKLMNO\n");
    select_rectangle(&mut editor);
    let effects = editor.send(0, CursorMessage::RectangleDelete, "");
    assert_eq!(clipboard_of(&effects), None);
    assert_eq!(editor.kills.peek(""), None);
    assert_eq!(editor.text(), "AE\nFJ\nKO\n");
    let buffer = editor.buffers.get(editor.id).unwrap();
    assert_eq!(buffer.modified_status(), ModifiedStatus::Changed);
}

#[test]
fn rectangle_short_line_gives_an_empty_part() {
    let mut editor = Editor::new("ABCDE\nF\nKLMNO\n");
    editor.send(0, CursorMessage::Right, "");
    editor.send(0, CursorMessage::Right, "");
    editor.send(0, CursorMessage::BeginRectangleSelection, "");
    editor.send(0, CursorMessage::Down(2), "");
    editor.send(0, CursorMessage::Right, "");
    editor.send(0, CursorMessage::Right, "");
    let effects = editor.send(0, CursorMessage::RectangleCut, "");
    assert_eq!(clipboard_of(&effects), Some("CD\n\nMN".to_string()));
    assert_eq!(editor.text(), "ABE\nF\nKLO\n");
}

#[test]
fn zero_width_rectangle_is_a_no_op() {
    let mut editor = Editor::new("ABCDE\nFGHIJ\n");
    editor.send(0, CursorMessage::Right, "");
    editor.send(0, CursorMessage::BeginRectangleSelection, "");
    editor.send(0, CursorMessage::Down(1), "");
    let effects = editor.send(0, CursorMessage::RectangleCut, "");
    assert!(effects.is_empty());
    assert_eq!(editor.text(), "ABCDE\nFGHIJ\n");
    assert!(!editor.cursor().is_rectangle_mode());
    assert_eq!(editor.kills.peek(""), None);
}

#[test]
fn other_cursors_follow_an_insertion() {
    let mut buffers = Buffers::new();
    let id = buffers.add(Rope::new(), None, indentation(), false);
    let mut buffer = Buffer::new(id, Rope::from("abc"), None, indentation(), false);
    let mut kills = RectangleKillStore::new();
    let first = CursorId::default();
    let second = buffer.new_cursor();
    assert!(buffer.accepts_message(second, &CursorMessage::Right, ""));
    buffer.handle_cursor_message(second, CursorMessage::Right, "", &mut kills);
    let insert = CursorMessage::InsertChar { character: 'x', move_forward: true };
    assert!(buffer.accepts_message(first, &insert, ""));
    buffer.handle_cursor_message(first, insert, "", &mut kills);
    assert_eq!(buffer.edit_tree().to_string(), "xabc");
    assert_eq!(buffer.cursor(first).range, 1..2);
    assert_eq!(buffer.cursor(second).range, 2..3);
    let third = buffer.duplicate_cursor(second);
    assert_eq!(buffer.cursor(third).range, 2..3);
}

#[test]
fn delete_forward_at_the_end_says_so() {
    let mut editor = Editor::new("ab");
    editor.send(0, CursorMessage::EndOfBuffer, "");
    let effects = editor.send(0, CursorMessage::DeleteForward, "");
    assert!(matches!(&effects[0], BufferEffect::Log(message) if message == "End of buffer"));
    assert_eq!(editor.text(), "ab");
}

#[test]
fn delete_backward_at_the_start_says_so() {
    let mut editor = Editor::new("ab");
    let effects = editor.send(0, CursorMessage::DeleteBackward, "");
    assert!(matches!(&effects[0], BufferEffect::Log(message) if message == "Beginning of buffer"));
}

#[test]
fn yank_inserts_the_clipboard_and_undo_takes_it_out() {
    let mut editor = Editor::new("ad");
    editor.send(0, CursorMessage::Right, "");
    editor.send(0, CursorMessage::Yank, "bc");
    assert_eq!(editor.text(), "abcd");
    editor.send(0, CursorMessage::Undo, "");
    assert_eq!(editor.text(), "ad");
}

#[test]
fn copy_and_cut_selection() {
    let mut editor = Editor::new("Hello world");
    editor.send(0, CursorMessage::BeginSelection, "");
    for _ in 0..5 {
        editor.send(0, CursorMessage::Right, "");
    }
    let effects = editor.send(0, CursorMessage::CopySelection, "");
    assert_eq!(clipboard_of(&effects), Some("Hello".to_string()));
    assert_eq!(editor.cursor().selection, None);
    editor.send(0, CursorMessage::StartOfBuffer, "");
    editor.send(0, CursorMessage::BeginSelection, "");
    editor.send(0, CursorMessage::EndOfLine, "");
    let effects = editor.send(0, CursorMessage::CutSelection, "");
    assert_eq!(clipboard_of(&effects), Some("Hello world".to_string()));
    assert_eq!(editor.text(), "");
}

#[test]
fn insert_tab_and_new_line() {
    let mut editor = Editor::new("ab\ncd");
    editor.send(0, CursorMessage::InsertTab, "");
    assert_eq!(editor.text(), "    ab\ncd");
    assert_eq!(editor.cursor().range, 4..5);
    editor.send(0, CursorMessage::InsertNewLine, "");
    assert_eq!(editor.text(), "    \nab\ncd");
    assert_eq!(editor.cursor().range, 5..6);
}

#[test]
fn save_start_and_end() {
    let mut editor = Editor::new("a  \nbc");
    let start = BuffersMessage::new(editor.id, BufferMessage::SaveBufferStart);
    let effects = editor.buffers.handle_message(start, "", &mut editor.kills);
    match &effects[0] {
        BufferEffect::Save { text } => assert_eq!(text.to_string(), "a  \nbc"),
        _ => panic!("expected a save"),
    }
    let buffer = editor.buffers.get(editor.id).unwrap();
    assert_eq!(buffer.modified_status(), ModifiedStatus::Saving);
    let saved = zee_edit::graphemes::strip_trailing_whitespace(Rope::from("a  \nbc"));
    let end = BuffersMessage::new(editor.id, BufferMessage::SaveBufferEnd(Ok(saved)));
    assert!(editor.buffers.accepts_message(&end, ""));
    editor.buffers.handle_message(end, "", &mut editor.kills);
    assert_eq!(editor.text(), "a\nbc\n");
    let buffer = editor.buffers.get(editor.id).unwrap();
    assert_eq!(buffer.modified_status(), ModifiedStatus::Unchanged);
}

#[test]
fn save_failure_is_shown() {
    let mut editor = Editor::new("a");
    let end = BuffersMessage::new(editor.id, BufferMessage::SaveBufferEnd(Err("disk full".into())));
    let effects = editor.buffers.handle_message(end, "", &mut editor.kills);
    assert!(matches!(&effects[0], BufferEffect::Log(message) if message == "disk full"));
}

#[test]
fn buffers_add_find_and_remove() {
    let mut buffers = Buffers::new();
    assert!(buffers.is_empty());
    let first = buffers.add(Rope::from("1"), Some(path(&["/", "a"])), indentation(), false);
    let second = buffers.add(Rope::from("2"), Some(path(&["/", "b"])), indentation(), true);
    let third = buffers.add(Rope::from("3"), None, indentation(), false);
    assert_ne!(first, second);
    assert_eq!(buffers.find_by_path(&path(&["/", "b"])), Some(second));
    assert_eq!(buffers.find_by_path(&path(&["/", "c"])), None);
    let removed = buffers.remove(first).unwrap();
    assert_eq!(removed.id(), first);
    assert!(buffers.get(first).is_none());
    assert_eq!(buffers.iter().len(), 2);
    // The last buffer takes the place of the removed one.
    assert_eq!(buffers.iter()[0].id(), third);
    assert!(buffers.remove(first).is_none());
}

#[test]
fn message_to_a_closed_buffer_is_dropped() {
    let mut buffers = Buffers::new();
    let id = buffers.add(Rope::from("x"), None, indentation(), false);
    buffers.remove(id);
    let mut kills = RectangleKillStore::new();
    let message = BuffersMessage::new(id, BufferMessage::SaveBufferStart);
    assert!(buffers.handle_message(message, "", &mut kills).is_empty());
}

#[test]
fn parser_asks_for_reparse() {
    let mut buffers = Buffers::new();
    let id = buffers.add(Rope::from("ab"), None, indentation(), true);
    let mut kills = RectangleKillStore::new();
    let message = BuffersMessage::new(
        id,
        BufferMessage::CursorMessage {
            cursor_id: CursorId::default(),
            message: CursorMessage::InsertChar { character: 'x', move_forward: false },
        },
    );
    let effects = buffers.handle_message(message, "", &mut kills);
    match &effects[0] {
        BufferEffect::Reparse { fresh, edit } => {
            assert!(!*fresh);
            assert_eq!(edit.unwrap().char_index, 0);
        }
        _ => panic!("expected a reparse"),
    }
}

#[test]
fn buffer_cursor_builds_messages() {
    let mut buffers = Buffers::new();
    let id = buffers.add(Rope::from("x"), None, indentation(), false);
    let cursor = BufferCursor::new(id, CursorId::default(), Cursor::new());
    let message = cursor.move_down_n(3);
    match message.inner() {
        BufferMessage::CursorMessage { cursor_id, message } => {
            assert_eq!(*cursor_id, CursorId::default());
            assert_eq!(*message, CursorMessage::Down(3));
        }
        _ => panic!("expected a cursor message"),
    }
    assert_eq!(message.buffer_id(), id);
    assert!(matches!(cursor.save().inner(), BufferMessage::SaveBufferStart));
    assert_eq!(*cursor.inner(), Cursor::new());
}

#[test]
fn cursors_stay_in_the_text_after_a_cut() {
    let mut buffers = Buffers::new();
    let id = buffers.add(Rope::new(), None, indentation(), false);
    let mut buffer = Buffer::new(id, Rope::from("abcdef"), None, indentation(), false);
    let mut kills = RectangleKillStore::new();
    let first = CursorId::default();
    let second = buffer.new_cursor();
    buffer.handle_cursor_message(second, CursorMessage::EndOfBuffer, "", &mut kills);
    // The first cursor deletes the whole text; the second is left past it.
    buffer.handle_cursor_message(first, CursorMessage::SelectAll, "", &mut kills);
    assert!(buffer.accepts_message(first, &CursorMessage::CutSelection, ""));
    buffer.handle_cursor_message(first, CursorMessage::CutSelection, "", &mut kills);
    assert_eq!(buffer.edit_tree().to_string(), "");
    assert_eq!(buffer.cursor(second).range, 0..0);
    assert!(buffer.accepts_message(second, &CursorMessage::Left, ""));
}

#[test]
fn get_mut_changes_the_buffer_in_the_list() {
    let mut buffers = Buffers::new();
    let first = buffers.add(Rope::from("one"), None, indentation(), false);
    let second = buffers.add(Rope::from("two"), None, indentation(), false);
    let buffer = buffers.get_mut(second).unwrap();
    let cursor_id = buffer.new_cursor();
    assert_eq!(buffer.cursor(cursor_id), &Cursor::new());
    assert!(buffers.get(second).unwrap().cursor(cursor_id) == &Cursor::new());
    assert_eq!(buffers.get(first).unwrap().edit_tree().to_string(), "one");
    let gone = buffers.add(Rope::from("three"), None, indentation(), false);
    assert!(buffers.remove(gone).is_some());
    assert!(buffers.get_mut(gone).is_none());
}

#[test]
fn iter_mut_hands_out_every_buffer_in_order() {
    let mut buffers = Buffers::new();
    buffers.add(Rope::from("one"), None, indentation(), false);
    buffers.add(Rope::from("two"), None, indentation(), false);
    let all = buffers.iter_mut();
    assert_eq!(all.len(), 2);
    for buffer in all.iter_mut() {
        buffer.new_cursor();
    }
    let texts: Vec<String> = buffers.iter().iter().map(|b| b.edit_tree().to_string()).collect();
    assert_eq!(texts, vec!["one".to_string(), "two".to_string()]);
}

#[test]
fn ids_are_shown_with_their_numbers() {
    let mut buffers = Buffers::new();
    let mut last = buffers.add(Rope::from(""), None, indentation(), false);
    assert_eq!(last.to_string(), "BufferId(0)");
    for _ in 0..12 {
        last = buffers.add(Rope::from(""), None, indentation(), false);
    }
    assert_eq!(last.to_string(), "BufferId(12)");
    assert_eq!(CursorId::default().to_string(), "CursorId(0)");
    let buffer = buffers.get_mut(last).unwrap();
    let mut cursor_id = buffer.new_cursor();
    for _ in 0..9 {
        cursor_id = buffer.new_cursor();
    }
    assert_eq!(cursor_id.to_string(), "CursorId(10)");
}

#[test]
fn rectangle_cut_and_delete_edit_alike() {
    let text = "ABCDE\nFG\nKLMNO\n";
    let mut cut = Editor::new(text);
    select_rectangle_on_ragged(&mut cut);
    cut.send(0, CursorMessage::RectangleCut, "");
    let mut deleted = Editor::new(text);
    select_rectangle_on_ragged(&mut deleted);
    deleted.send(0, CursorMessage::RectangleDelete, "");
    assert_eq!(cut.text(), "AE\nF\nKO\n");
    assert_eq!(cut.text(), deleted.text());
    assert_eq!(cut.cursor(), deleted.cursor());
    assert_eq!(cut.kills.peek("BCD\nG\nLMN"), Some(vec!["BCD".to_string(), "G".to_string(), "LMN".to_string()]));
    assert_eq!(deleted.kills.peek("BCD\nG\nLMN"), None);
}

/// Selects columns 1..4 of lines 0..=2, moving along the last line.
fn select_rectangle_on_ragged(editor: &mut Editor) {
    editor.send(0, CursorMessage::Right, "");
    editor.send(0, CursorMessage::BeginRectangleSelection, "");
    editor.send(0, CursorMessage::Down(2), "");
    for _ in 0..3 {
        editor.send(0, CursorMessage::Right, "");
    }
    let rect = editor.cursor().rectangle_selection.unwrap();
    assert_eq!((rect.line_start, rect.line_end), (0, 2));
    assert_eq!((rect.column_left, rect.column_right), (1, 4));
}

#[test]
fn rectangle_cut_is_copy_then_delete() {
    let text = "ABCDE\nFGHIJ\nKLMNO\n";
    let mut copied = Editor::new(text);
    select_rectangle(&mut copied);
    let copy_effects = copied.send(0, CursorMessage::RectangleCopy, "");
    let mut cut = Editor::new(text);
    select_rectangle(&mut cut);
    let cut_effects = cut.send(0, CursorMessage::RectangleCut, "");
    let mut deleted = Editor::new(text);
    select_rectangle(&mut deleted);
    let delete_effects = deleted.send(0, CursorMessage::RectangleDelete, "");
    assert_eq!(clipboard_of(&cut_effects), clipboard_of(&copy_effects));
    assert_eq!(cut_effects.len(), copy_effects.len() + delete_effects.len());
    assert_eq!(cut.kills.peek("BCD\nGHI\nLMN"), copied.kills.peek("BCD\nGHI\nLMN"));
    assert_eq!(cut.text(), deleted.text());
    assert_eq!(cut.cursor(), deleted.cursor());
}

#[test]
fn a_wide_tab_is_accepted_on_text_without_tabs() {
    let mut buffers = Buffers::new();
    let wide = Indentation { tab_width: usize::MAX / 2, unit: ' ', count: 4 };
    let id = buffers.add(Rope::from("abc\ndef\n"), None, wide, false);
    let mut kills = RectangleKillStore::new();
    let cursor_id = CursorId::default();
    let down = BuffersMessage::new(id, BufferMessage::CursorMessage { cursor_id, message: CursorMessage::Down(1) });
    assert!(buffers.accepts_message(&down, ""));
    buffers.handle_message(down, "", &mut kills);
    assert_eq!(buffers.get(id).unwrap().cursor(cursor_id).range, 4..5);
    let mut tabbed = Buffers::new();
    let tab_id = tabbed.add(Rope::from("a\t\tb\n"), None, wide, false);
    let down = BuffersMessage::new(tab_id, BufferMessage::CursorMessage { cursor_id, message: CursorMessage::Down(1) });
    assert!(!tabbed.accepts_message(&down, ""));
}
