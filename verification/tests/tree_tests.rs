use ropey::Rope;
use zee_edit::tree::{format_revision, format_tree, EditTree, FormattedRevision, Vector2D};
use zee_edit::{CompoundDiff, Cursor, OpaqueDiff};

#[test]
fn insert_with_revisions_and_no_undo() {
    let mut tree = EditTree::new(Rope::new());
    tree.staged_mut().insert(0, "The flowers are...");
    tree.create_revision(OpaqueDiff::empty(), Cursor::end_of_buffer(&tree));

    let position = tree.len_chars();
    tree.staged_mut().insert(position, " so...\n");
    tree.create_revision(OpaqueDiff::empty(), Cursor::end_of_buffer(&tree));

    let position = tree.len_chars();
    tree.staged_mut().insert(position, "dunno.");

    assert_eq!("The flowers are... so...\ndunno.", &tree.to_string());
}

#[test]
fn undo_at_root_has_no_effect() {
    let mut tree = EditTree::new("The flowers are violet.\n".into());
    assert_eq!("The flowers are violet.\n", &tree.to_string());
    assert_eq!(None, tree.undo());
    assert_eq!("The flowers are violet.\n", &tree.to_string());
}

#[test]
fn insert_and_undo() {
    let mut tree = EditTree::new(Rope::new());
    tree.staged_mut().insert(0, "The flowers are...");
    tree.create_revision(OpaqueDiff::empty(), Cursor::end_of_buffer(&tree));

    let position = tree.len_chars();
    tree.staged_mut().insert(position, " so...\n");
    let position = tree.len_chars();
    tree.staged_mut().insert(position, "dunno.");
    tree.create_revision(OpaqueDiff::empty(), Cursor::end_of_buffer(&tree));

    assert_eq!("The flowers are... so...\ndunno.", &tree.to_string());
    tree.undo();
    assert_eq!("The flowers are...", &tree.to_string());

    let position = tree.len_chars();
    tree.staged_mut().insert(position, " violet.");
    assert_eq!("The flowers are... violet.", &tree.to_string());
}

#[test]
fn undo_redo_idempotent() {
    let mut tree = EditTree::new(Rope::new());
    tree.staged_mut().insert(0, "The flowers are...");
    tree.create_revision(OpaqueDiff::empty(), Cursor::end_of_buffer(&tree));

    let position = tree.len_chars();
    tree.staged_mut().insert(position, " so...\n");
    let position = tree.len_chars();
    tree.staged_mut().insert(position, "dunno.");
    tree.create_revision(OpaqueDiff::empty(), Cursor::end_of_buffer(&tree));

    assert_eq!("The flowers are... so...\ndunno.", &tree.to_string());
    tree.undo();
    assert_eq!("The flowers are...", &tree.to_string());
    tree.redo();
    assert_eq!("The flowers are... so...\ndunno.", &tree.to_string());
    tree.undo();
    assert_eq!("The flowers are...", &tree.to_string());
    tree.undo();
    assert_eq!("", &tree.to_string());
}

#[test]
fn render_undo_tree() {}

#[test]
fn single_edit_undo_restores_exact_text() {
    let mut tree = EditTree::new(Rope::from("abc"));
    tree.staged_mut().insert(3, "def");
    tree.create_revision(OpaqueDiff::new(3, 0, 3, 3, 0, 3), Cursor::end_of_buffer(&tree));
    assert_eq!("abcdef", &tree.to_string());
    let (compound, _cursor) = tree.undo().unwrap();
    assert_eq!("abc", &tree.to_string());
    let diff = &compound.0[0];
    assert_eq!(diff.char_index, 3);
    assert_eq!(diff.old_char_length, 3);
}

#[test]
fn single_edit_redo_restores_exact_text() {
    let mut tree = EditTree::new(Rope::from("abc"));
    tree.staged_mut().insert(3, "def");
    tree.create_revision(OpaqueDiff::new(3, 0, 3, 3, 0, 3), Cursor::end_of_buffer(&tree));
    tree.undo();
    let (compound, _) = tree.redo().unwrap();
    assert_eq!("abcdef", &tree.to_string());
    let diff = &compound.0[0];
    assert_eq!(diff.char_index, 3);
    assert_eq!(diff.new_char_length, 3);
}

#[test]
fn undo_returns_correct_cursor() {
    let mut tree = EditTree::new(Rope::new());
    tree.staged_mut().insert(0, "Hello");
    let cursor_before = Cursor::end_of_buffer(&tree);
    tree.create_revision(OpaqueDiff::empty(), cursor_before.clone());
    tree.staged_mut().insert(5, " world");
    tree.create_revision(OpaqueDiff::empty(), Cursor::end_of_buffer(&tree));
    let (_, undo_cursor) = tree.undo().unwrap();
    assert_eq!(undo_cursor, cursor_before);
}

#[test]
fn redo_at_leaf_returns_none() {
    let mut tree = EditTree::new(Rope::new());
    tree.staged_mut().insert(0, "Hello");
    tree.create_revision(OpaqueDiff::empty(), Cursor::end_of_buffer(&tree));
    assert_eq!(None, tree.redo());
}

/// Removes the old char ranges of a compound diff from the text, in the
/// order of its diffs (the last range first).
fn apply_compound_deletion(text: &mut Rope, compound: &CompoundDiff) {
    for diff in &compound.0 {
        if !diff.is_empty() && diff.old_char_length > 0 {
            text.remove(diff.char_index..diff.char_index + diff.old_char_length);
        }
    }
}

#[test]
fn compound_diff_single_is_degenerate_case() {
    let mut tree = EditTree::new(Rope::from("Hello world"));
    tree.staged_mut().insert(0, "X");
    let diff = OpaqueDiff::new(0, 0, 1, 0, 0, 1);
    tree.create_compound_revision(CompoundDiff::single(diff), Cursor::end_of_buffer(&tree));
    assert_eq!("XHello world", &tree.to_string());
    let (compound, _) = tree.undo().unwrap();
    assert_eq!("Hello world", &tree.to_string());
    assert_eq!(compound.0.len(), 1);
}

#[test]
fn compound_diff_multi_line_undo_is_atomic() {
    let text = Rope::from("ABCDE\nFGHIJ\nKLMNO\n");
    let mut tree = EditTree::new(text);
    let diff2 = OpaqueDiff::new(13, 3, 0, 13, 3, 0);
    let diff1 = OpaqueDiff::new(7, 3, 0, 7, 3, 0);
    let diff0 = OpaqueDiff::new(1, 3, 0, 1, 3, 0);
    let compound = CompoundDiff(vec![diff2, diff1, diff0]);
    apply_compound_deletion(tree.staged_mut(), &compound);
    tree.create_compound_revision(compound, Cursor::with_range(1..2));
    assert_eq!("AE\nFJ\nKO\n", &tree.to_string());
    let (_undo_compound, _) = tree.undo().unwrap();
    assert_eq!("ABCDE\nFGHIJ\nKLMNO\n", &tree.to_string());
    let (_redo_compound, _) = tree.redo().unwrap();
    assert_eq!("AE\nFJ\nKO\n", &tree.to_string());
}

#[test]
fn compound_diff_outside_ranges_unchanged() {
    let text = Rope::from("ABCDE\nFGHIJ\nKLMNO\nPQRST\n");
    let mut tree = EditTree::new(text);
    let diff1 = OpaqueDiff::new(13, 3, 0, 13, 3, 0);
    let diff0 = OpaqueDiff::new(7, 3, 0, 7, 3, 0);
    let compound = CompoundDiff(vec![diff1, diff0]);
    apply_compound_deletion(tree.staged_mut(), &compound);
    tree.create_compound_revision(compound, Cursor::with_range(7..8));
    assert_eq!("ABCDE\nFJ\nKO\nPQRST\n", &tree.to_string());
    assert_eq!("ABCDE\n", &tree.line(0).to_string());
    assert_eq!("PQRST\n", &tree.line(3).to_string());
}

#[test]
fn normal_edit_undo_granularity_unchanged_after_compound() {
    let mut tree = EditTree::new(Rope::from("Hello"));
    tree.staged_mut().insert(0, "X");
    tree.create_revision(OpaqueDiff::new(0, 0, 1, 0, 0, 1), Cursor::with_range(1..2));
    assert_eq!("XHello", &tree.to_string());
    let compound = CompoundDiff(vec![OpaqueDiff::new(2, 2, 0, 2, 2, 0)]);
    apply_compound_deletion(tree.staged_mut(), &compound);
    tree.create_compound_revision(compound, Cursor::with_range(2..3));
    assert_eq!("XHlo", &tree.to_string());
    tree.undo();
    assert_eq!("XHello", &tree.to_string());
    tree.undo();
    assert_eq!("Hello", &tree.to_string());
}

#[test]
fn undo_then_redo_comes_back_to_the_same_revision() {
    let mut tree = EditTree::new(Rope::from("a"));
    tree.staged_mut().insert(1, "b");
    tree.create_revision(OpaqueDiff::new(1, 0, 1, 1, 0, 1), Cursor::with_range(2..2));
    let head = tree.head_index;
    tree.undo();
    assert_eq!(tree.head_index, 0);
    let (compound, cursor) = tree.redo().unwrap();
    assert_eq!(tree.head_index, head);
    assert_eq!(tree.to_string(), "ab");
    assert_eq!(compound.0, vec![OpaqueDiff::new(1, 0, 1, 1, 0, 1)]);
    assert_eq!(cursor, Cursor::with_range(2..2));
}

#[test]
fn undo_gives_the_reversed_diffs() {
    let mut tree = EditTree::new(Rope::from("abcdef"));
    let forward = vec![OpaqueDiff::new(4, 1, 0, 4, 1, 0), OpaqueDiff::new(1, 1, 0, 1, 1, 0)];
    apply_compound_deletion(tree.staged_mut(), &CompoundDiff(forward.clone()));
    tree.create_compound_revision(CompoundDiff(forward), Cursor::new());
    assert_eq!(tree.to_string(), "acdf");
    let (compound, _) = tree.undo().unwrap();
    assert_eq!(
        compound.0,
        vec![OpaqueDiff::new(1, 0, 1, 1, 0, 1), OpaqueDiff::new(4, 0, 1, 4, 0, 1)]
    );
}

#[test]
fn redo_follows_the_chosen_child() {
    let mut tree = EditTree::new(Rope::from(""));
    tree.staged_mut().insert(0, "a");
    tree.create_revision(OpaqueDiff::new(0, 0, 1, 0, 0, 1), Cursor::new());
    tree.undo();
    tree.staged_mut().insert(0, "b");
    tree.create_revision(OpaqueDiff::new(0, 0, 1, 0, 0, 1), Cursor::new());
    tree.undo();
    // Redo goes to the newest child; previous_child picks the older one.
    tree.previous_child();
    tree.redo();
    assert_eq!(tree.to_string(), "a");
    tree.undo();
    tree.next_child();
    tree.redo();
    assert_eq!(tree.to_string(), "b");
}

fn branching_tree() -> EditTree {
    let mut tree = EditTree::new(Rope::from("a"));
    tree.staged_mut().insert(1, "b");
    tree.create_revision(OpaqueDiff::new(1, 1, 1, 1, 1, 1), Cursor::end_of_buffer(&tree));
    tree.undo();
    tree.staged_mut().insert(1, "c");
    tree.create_revision(OpaqueDiff::new(1, 1, 1, 1, 1, 1), Cursor::end_of_buffer(&tree));
    tree.staged_mut().insert(2, "d");
    tree.create_revision(OpaqueDiff::new(2, 2, 2, 2, 1, 1), Cursor::end_of_buffer(&tree));
    tree
}

#[test]
fn format_tree_places_children_side_by_side() {
    let tree = branching_tree();
    let formatted = format_tree(&tree);
    assert_eq!(formatted.len(), 4);
    assert_eq!(formatted[0].transform, Vector2D { x: 0, y: 0 });
    assert!(formatted[0].current_branch);
    assert_eq!(formatted[1].transform, Vector2D { x: 0, y: 2 });
    assert!(!formatted[1].current_branch);
    assert_eq!(formatted[2].transform, Vector2D { x: 8, y: 2 });
    assert!(formatted[2].current_branch);
    assert_eq!(formatted[3].transform, Vector2D { x: 8, y: 4 });
    assert!(formatted[3].current_branch);
}

#[test]
fn format_tree_follows_the_redo_choice() {
    let mut tree = branching_tree();
    tree.undo();
    tree.undo();
    tree.previous_child();
    let formatted = format_tree(&tree);
    assert!(formatted[0].current_branch);
    assert!(formatted[1].current_branch);
    assert!(!formatted[2].current_branch);
    assert!(!formatted[3].current_branch);
}

#[test]
fn format_revision_returns_the_subtree_width() {
    let tree = branching_tree();
    let blank = FormattedRevision { transform: Vector2D { x: 0, y: 0 }, current_branch: false };
    let mut formatted = vec![blank; 4];
    let width = format_revision(&tree.revisions, &mut formatted, 0, Vector2D { x: 3, y: 5 }, true);
    assert_eq!(width, 8);
    assert_eq!(formatted[2].transform, Vector2D { x: 11, y: 7 });
    assert_eq!(formatted[3].transform, Vector2D { x: 11, y: 9 });
    let leaf_width = format_revision(&tree.revisions, &mut formatted, 3, Vector2D { x: 0, y: 0 }, false);
    assert_eq!(leaf_width, 0);
    assert!(!formatted[3].current_branch);
}

#[test]
fn format_tree_of_a_single_revision() {
    let tree = EditTree::new(Rope::from("text"));
    let formatted = format_tree(&tree);
    assert_eq!(formatted.len(), 1);
    assert_eq!(formatted[0], FormattedRevision { transform: Vector2D { x: 0, y: 0 }, current_branch: true });
}

#[test]
fn undo_after_a_branching_history_reverses_the_head_diff() {
    let mut tree = EditTree::new(Rope::from("a"));
    tree.staged_mut().insert(1, "b");
    tree.create_revision(OpaqueDiff::new(1, 0, 1, 1, 0, 1), Cursor::with_range(1..2));
    tree.undo();
    tree.staged_mut().insert(1, "cd");
    tree.create_revision(OpaqueDiff::new(1, 0, 2, 1, 0, 2), Cursor::with_range(2..3));
    tree.undo();
    tree.redo();
    let (diff, cursor) = tree.undo().unwrap();
    assert_eq!(diff.0, vec![OpaqueDiff::new(1, 2, 0, 1, 2, 0)]);
    assert_eq!(cursor.range, 0..1);
    assert_eq!(tree.to_string(), "a");
    assert_eq!(tree.undo(), None);
    assert_eq!(tree.to_string(), "a");
}
