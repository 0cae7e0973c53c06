use zee_edit::rectangle_kill::RectangleKillStore;

#[test]
fn spec_5_1_copy_then_peek_returns_lines_with_empties() {
    let mut store = RectangleKillStore::new();
    store.record(vec!["ab".into(), String::new(), "cd".into()], "ab\n\ncd".into());
    let result = store.peek("ab\n\ncd");
    assert_eq!(result, Some(vec!["ab".into(), String::new(), "cd".into()]));
}

#[test]
fn spec_5_2_cut_records_but_delete_does_not() {
    let mut store = RectangleKillStore::new();
    store.record(vec!["xy".into()], "xy".into());
    assert_eq!(store.peek("xy"), Some(vec!["xy".into()]));
}

#[test]
fn spec_5_3_width_zero_no_record() {
    let store = RectangleKillStore::new();
    assert_eq!(store.peek(""), None);
}

#[test]
fn spec_5_4_normal_copy_overwrites_invalidates() {
    let mut store = RectangleKillStore::new();
    store.record(vec!["ab".into()], "ab".into());
    assert_eq!(store.peek("different content"), None);
}

#[test]
fn spec_5_5_external_clipboard_overwrite_invalidates() {
    let mut store = RectangleKillStore::new();
    store.record(vec!["ab".into(), "cd".into()], "ab\ncd".into());
    assert_eq!(store.peek("pasted from browser"), None);
}

#[test]
fn spec_5_6_peek_non_consuming() {
    let mut store = RectangleKillStore::new();
    store.record(vec!["ab".into()], "ab".into());
    let first = store.peek("ab");
    let second = store.peek("ab");
    assert_eq!(first, Some(vec!["ab".into()]));
    assert_eq!(second, Some(vec!["ab".into()]));
}

#[test]
fn spec_5_7_store_does_not_alter_clipboard_text() {
    let mut store = RectangleKillStore::new();
    let lines = vec!["hello".into(), "world".into()];
    let clipboard_text = "hello\nworld".to_string();
    store.record(lines, clipboard_text.clone());
    let kill = store.kill().unwrap();
    assert_eq!(kill.clipboard_text, "hello\nworld");
    assert_eq!(kill.clipboard_text, clipboard_text);
}

#[test]
fn newline_normalization_crlf_vs_lf() {
    let mut store = RectangleKillStore::new();
    store.record(vec!["ab".into(), "cd".into()], "ab\ncd".into());
    let result = store.peek("ab\r\ncd");
    assert_eq!(result, Some(vec!["ab".into(), "cd".into()]));
}

#[test]
fn record_overwrites_previous() {
    let mut store = RectangleKillStore::new();
    store.record(vec!["old".into()], "old".into());
    store.record(vec!["new".into()], "new".into());
    assert_eq!(store.peek("new"), Some(vec!["new".into()]));
    assert_eq!(store.peek("old"), None);
}

#[test]
fn peek_returns_none_when_empty() {
    let store = RectangleKillStore::new();
    assert_eq!(store.peek("anything"), None);
}

#[test]
fn clear_empties_store() {
    let mut store = RectangleKillStore::new();
    store.record(vec!["ab".into()], "ab".into());
    store.clear();
    assert_eq!(store.peek("ab"), None);
}

#[test]
fn lone_carriage_return_still_counts() {
    // Only a `\r` before a `\n` is dropped when comparing.
    let mut store = RectangleKillStore::new();
    store.record(vec!["a".into()], "a\r".into());
    assert_eq!(store.peek("a"), None);
    assert_eq!(store.peek("a\r"), Some(vec!["a".into()]));
}
