//! The edit tree: every revision of a text, linked to its parent and its
//! children by the diffs between them, with a head that undo and redo move.
use vstd::prelude::*;
use ropey::Rope;
use smallvec::SmallVec;

use crate::cursor::Cursor;
use crate::diff::{reversed_diffs, CompoundDiff, OpaqueDiff};
use crate::movement;
use crate::text::rope_text;

verus! {

/// The references that a revision holds to its children, in a `SmallVec`
/// that keeps one of them inline.
#[verifier::external_body]
#[derive(Debug)]
pub struct Children {
    list: SmallVec<[Reference; 1]>,
}

impl Clone for Children {
    /// `SmallVec::clone`: a list that holds a clone of each reference, in
    /// order; nothing is claimed of it here.
    #[verifier::external_body]
    fn clone(&self) -> Self {
        Children { list: self.list.clone() }
    }
}

/// The references that a list of children holds, in order.
pub uninterp spec fn references(children: Children) -> Seq<Reference>;

/// `SmallVec::new`: an empty list.
#[verifier::external_body]
fn references_new() -> (children: Children)
    ensures
        references(children) == Seq::<Reference>::empty(),
{
    Children { list: SmallVec::new() }
}

/// `SmallVec::push`: appends a reference at the end of the list.
#[verifier::external_body]
fn references_push(children: &mut Children, reference: Reference)
    ensures
        references(*final(children)) == references(*old(children)).push(reference),
{
    children.list.push(reference)
}

/// `SmallVec::len`: the number of references in the list.
#[verifier::external_body]
fn references_len(children: &Children) -> (n: usize)
    ensures
        n == references(*children).len(),
{
    children.list.len()
}

/// `SmallVec::get` (through its slice): the reference at `index`, if any.
#[verifier::external_body]
fn references_get(children: &Children, index: usize) -> (reference: Option<&Reference>)
    ensures
        reference is Some <==> index < references(*children).len(),
        reference is Some ==> *reference->0 == references(*children)[index as int],
{
    children.list.get(index)
}

#[derive(Debug, Clone)]
pub struct Revision {
    text: Rope,
    cursor: Cursor,
    pub parent: Option<Reference>,
    pub children: Children,
    pub redo_index: usize,
}

impl Revision {
    /// The text of the revision.
    pub closed spec fn text_chars(&self) -> Seq<char> {
        rope_text(self.text)
    }

    /// The cursor saved with the revision.
    pub closed spec fn saved_cursor(&self) -> Cursor {
        self.cursor
    }

    /// The reference to the revision's parent (the root has none).
    pub closed spec fn parent_ref(&self) -> Option<Reference> {
        self.parent
    }

    /// The references to the revision's children, in the order they were made.
    pub closed spec fn child_refs(&self) -> Seq<Reference> {
        references(self.children)
    }

    /// The index, among the children, of the child that redo goes to.
    pub closed spec fn redo(&self) -> nat {
        self.redo_index as nat
    }

    fn root(text: Rope) -> (revision: Self)
        ensures
            revision.text_chars() == rope_text(text),
            revision.parent_ref() is None,
            revision.child_refs() == Seq::<Reference>::empty(),
            revision.redo() == 0,
            revision.saved_cursor().range.start == 0,
            revision.saved_cursor().range.end <= rope_text(text).len(),
    {
        let mut cursor = Cursor::new();
        movement::move_to_start_of_buffer(&text, &mut cursor);
        Self { text, cursor, parent: None, children: references_new(), redo_index: 0 }
    }
}

#[derive(Debug, Clone)]
pub struct Reference {
    pub index: usize,
    diff: CompoundDiff,
}

impl Reference {
    /// The index of the revision referred to.
    pub closed spec fn target(&self) -> nat {
        self.index as nat
    }

    /// The diffs that lead from the revision that holds the reference to the
    /// revision it refers to.
    pub closed spec fn diffs(&self) -> Seq<OpaqueDiff> {
        self.diff.diffs()
    }
}

/// `child`, held by revision `i`, refers to a later revision of the tree
/// whose parent is `i`, by diffs that the parent reference reverses.
pub closed spec fn links_back(revisions: Seq<Revision>, i: int, child: Reference) -> bool {
    &&& i < child.index < revisions.len()
    &&& revisions[child.index as int].parent matches Some(p) && p.index == i && p.diffs()
        == reversed_diffs(child.diffs())
}

/// From the root down to revision `i`, each revision is the child that redo
/// goes to from its parent.
pub closed spec fn on_redo_path(revisions: Seq<Revision>, i: int) -> bool
    decreases i,
{
    if 0 <= i < revisions.len() {
        match revisions[i].parent {
            None => true,
            Some(p) => {
                let pi = p.index as int;
                if pi < i {
                    &&& revisions[pi].redo_index < references(revisions[pi].children).len()
                    &&& references(revisions[pi].children)[revisions[pi].redo_index as int].index
                        == i
                    &&& on_redo_path(revisions, pi)
                } else {
                    false
                }
            },
        }
    } else {
        false
    }
}

/// The links between `revisions` form a tree: a parent comes before its
/// child; every child comes after the revision that holds it, within the
/// list, and refers back to it; and each revision holds its children in the
/// order of their indices.
pub closed spec fn linked(revisions: Seq<Revision>) -> bool {
    &&& forall|i: int|
        0 <= i < revisions.len() && (#[trigger] revisions[i]).parent is Some
            ==> revisions[i].parent->0.index < i
    &&& forall|i: int, k: int|
        0 <= i < revisions.len() && 0 <= k < revisions[i].child_refs().len()
            ==> links_back(revisions, i, #[trigger] revisions[i].child_refs()[k])
    &&& forall|i: int, k1: int, k2: int|
        0 <= i < revisions.len() && 0 <= k1 < k2 < revisions[i].child_refs().len()
            ==> #[trigger] revisions[i].child_refs()[k1].index
            < #[trigger] revisions[i].child_refs()[k2].index
}

/// Revision `j` has a parent, which holds a reference to it among its
/// children.
pub closed spec fn listed(revisions: Seq<Revision>, j: int) -> bool {
    &&& revisions[j].parent is Some
    &&& exists|k: int|
        0 <= k < revisions[revisions[j].parent->0.index as int].child_refs().len()
            && #[trigger] revisions[revisions[j].parent->0.index as int].child_refs()[k].index
            == j
}

/// Whether a revision is on the redo path depends only on it, its parent
/// link and the revisions before it.
proof fn lemma_redo_path_frame(a: Seq<Revision>, b: Seq<Revision>, i: int)
    requires
        0 <= i < a.len(),
        i < b.len(),
        forall|j: int| 0 <= j < i ==> a[j] == b[j],
        a[i].parent == b[i].parent,
    ensures
        on_redo_path(a, i) == on_redo_path(b, i),
    decreases i,
{
    if let Some(p) = a[i].parent {
        let pi = p.index as int;
        if pi < i {
            lemma_redo_path_frame(a, b, pi);
        }
    }
}

#[derive(Debug, Clone)]
pub struct EditTree {
    pub revisions: Vec<Revision>,
    pub head_index: usize,
    staged: Rope,
    has_staged_changes: bool,
}

impl EditTree {
    /// The text being edited: the head's text with the staged changes.
    pub closed spec fn staged_text(&self) -> Seq<char> {
        rope_text(self.staged)
    }

    /// Whether the staged text was handed out for changes since the last
    /// revision was made or reached.
    pub closed spec fn has_changes(&self) -> bool {
        self.has_staged_changes
    }

    /// The number of revisions.
    pub closed spec fn revision_count(&self) -> nat {
        self.revisions@.len()
    }

    /// The index of the head revision.
    pub closed spec fn head(&self) -> nat {
        self.head_index as nat
    }

    /// The revisions, in the order they were made.
    pub closed spec fn revision_list(&self) -> Seq<Revision> {
        self.revisions@
    }

    /// The revision at `i`.
    pub closed spec fn revision(&self, i: int) -> Revision {
        self.revisions@[i]
    }

    /// The head revision.
    pub open spec fn head_revision(&self) -> Revision {
        self.revision(self.head() as int)
    }

    /// The tree's links are consistent: the head is a revision; the
    /// revisions are `linked`; every revision but the root is `listed` by
    /// its parent; and from the root down to the head each revision is the
    /// child that redo goes to from its parent.
    pub closed spec fn wf(&self) -> bool {
        &&& self.head_index < self.revisions@.len()
        &&& linked(self.revisions@)
        &&& forall|j: int| 0 < j < self.revisions@.len() ==> #[trigger] listed(self.revisions@, j)
        &&& on_redo_path(self.revisions@, self.head_index as int)
    }

    /// Every revision other than the head's is the same in both trees.
    pub open spec fn same_revisions_except_head(&self, other: EditTree) -> bool {
        &&& self.revision_count() == other.revision_count()
        &&& forall|i: int|
            0 <= i < self.revision_count() && i != self.head() ==> #[trigger] self.revision(i)
                == other.revision(i)
    }

    /// Changing which child redo goes to from the head keeps the tree well
    /// formed.
    proof fn lemma_redo_index_frame(&self, before: EditTree)
        requires
            before.wf(),
            self.head_index == before.head_index,
            self.revisions@.len() == before.revisions@.len(),
            forall|i: int|
                0 <= i < self.revisions@.len() && i != self.head_index ==> self.revisions@[i]
                    == before.revisions@[i],
            self.revisions@[self.head_index as int].parent
                == before.revisions@[self.head_index as int].parent,
            self.revisions@[self.head_index as int].children
                == before.revisions@[self.head_index as int].children,
        ensures
            self.wf(),
    {
        let h = self.head_index as int;
        lemma_redo_path_frame(before.revisions@, self.revisions@, h);
        assert forall|i: int, k: int|
            0 <= i < self.revisions@.len() && 0 <= k
                < self.revisions@[i].child_refs().len() implies links_back(
            self.revisions@,
            i,
            #[trigger] self.revisions@[i].child_refs()[k],
        ) by {
            assert(self.revisions@[i].child_refs() == before.revisions@[i].child_refs());
            assert(links_back(before.revisions@, i, before.revisions@[i].child_refs()[k]));
            let t = self.revisions@[i].child_refs()[k].index as int;
            assert(self.revisions@[t].parent == before.revisions@[t].parent);
        }
        assert forall|i: int|
            0 <= i < self.revisions@.len() && (#[trigger] self.revisions@[i]).parent is Some
            implies self.revisions@[i].parent->0.index < i by {
            assert(self.revisions@[i].parent == before.revisions@[i].parent);
            assert(before.revisions@[i].parent is Some);
        }
        assert forall|i: int, k1: int, k2: int|
            0 <= i < self.revisions@.len() && 0 <= k1 < k2
                < self.revisions@[i].child_refs().len() implies #[trigger] self.revisions@[i].child_refs()[k1].index
            < #[trigger] self.revisions@[i].child_refs()[k2].index by {
            assert(self.revisions@[i].child_refs() == before.revisions@[i].child_refs());
        }
        assert forall|j: int| 0 < j < self.revisions@.len() implies #[trigger] listed(
            self.revisions@,
            j,
        ) by {
            assert(listed(before.revisions@, j));
            assert(self.revisions@[j].parent == before.revisions@[j].parent);
            let p = before.revisions@[j].parent->0.index as int;
            assert(self.revisions@[p].child_refs() == before.revisions@[p].child_refs());
            let k = choose|k: int|
                0 <= k < before.revisions@[p].child_refs().len()
                    && #[trigger] before.revisions@[p].child_refs()[k].index == j;
            assert(self.revisions@[p].child_refs()[k].index == j);
        }
    }

    /// The number of revisions.
    pub fn len_revisions(&self) -> (n: usize)
        ensures
            n == self.revision_count(),
    {
        self.revisions.len()
    }

    pub fn new(text: Rope) -> (tree: Self)
        ensures
            tree.wf(),
            tree.revision_count() == 1,
            tree.head() == 0,
            tree.staged_text() == rope_text(text),
            tree.revision(0).text_chars() == rope_text(text),
            tree.revision(0).parent_ref() is None,
            tree.revision(0).child_refs() == Seq::<Reference>::empty(),
            tree.revision(0).redo() == 0,
            !tree.has_changes(),
    {
        let root = Revision::root(text.clone());
        let mut revisions = Vec::new();
        revisions.push(root);
        Self { revisions, head_index: 0, staged: text, has_staged_changes: false }
    }

    /// `self` is `before` with the head's choice of child for redo moved
    /// to the next child (`forward`) or the previous one, where there is one.
    pub open spec fn redo_moved(&self, before: EditTree, forward: bool) -> bool {
        let b = before.head_revision();
        let a = self.head_revision();
        &&& self.head() == before.head()
        &&& self.staged_text() == before.staged_text()
        &&& self.has_changes() == before.has_changes()
        &&& self.same_revisions_except_head(before)
        &&& a.text_chars() == b.text_chars()
        &&& a.saved_cursor() == b.saved_cursor()
        &&& a.parent_ref() == b.parent_ref()
        &&& a.child_refs() == b.child_refs()
        &&& a.redo() == if forward {
            if b.redo() + 1 < b.child_refs().len() {
                b.redo() + 1
            } else {
                b.redo()
            }
        } else if b.redo() > 0 {
            (b.redo() - 1) as nat
        } else {
            0
        }
    }

    pub fn next_child(&mut self)
        requires
            old(self).wf(),
        ensures
            final(self).wf(),
            final(self).redo_moved(*old(self), true),
            final(self).head() == old(self).head(),
            final(self).staged_text() == old(self).staged_text(),
            final(self).has_changes() == old(self).has_changes(),
            final(self).same_revisions_except_head(*old(self)),
            ({
                let before = old(self).head_revision();
                let after = final(self).head_revision();
                &&& after.text_chars() == before.text_chars()
                &&& after.saved_cursor() == before.saved_cursor()
                &&& after.parent_ref() == before.parent_ref()
                &&& after.child_refs() == before.child_refs()
                &&& after.redo() == if before.redo() + 1 < before.child_refs().len() {
                    before.redo() + 1
                } else {
                    before.redo()
                }
            }),
    {
        let head = self.head_index;
        let current_revision = &mut self.revisions[head];
        let count = references_len(&current_revision.children);
        if current_revision.redo_index < count.saturating_sub(1) {
            current_revision.redo_index = current_revision.redo_index + 1;
        }
        proof {
            self.lemma_redo_index_frame(*old(self));
        }
    }

    pub fn previous_child(&mut self)
        requires
            old(self).wf(),
        ensures
            final(self).wf(),
            final(self).redo_moved(*old(self), false),
            final(self).head() == old(self).head(),
            final(self).staged_text() == old(self).staged_text(),
            final(self).has_changes() == old(self).has_changes(),
            final(self).same_revisions_except_head(*old(self)),
            ({
                let before = old(self).head_revision();
                let after = final(self).head_revision();
                &&& after.text_chars() == before.text_chars()
                &&& after.saved_cursor() == before.saved_cursor()
                &&& after.parent_ref() == before.parent_ref()
                &&& after.child_refs() == before.child_refs()
                &&& after.redo() == if before.redo() > 0 {
                    (before.redo() - 1) as nat
                } else {
                    0
                }
            }),
    {
        let head = self.head_index;
        let current_revision = &mut self.revisions[head];
        if current_revision.redo_index > 0 {
            current_revision.redo_index = current_revision.redo_index - 1;
        }
        proof {
            self.lemma_redo_index_frame(*old(self));
        }
    }

    /// Create a revision from a single OpaqueDiff (backward compat convenience).
    pub fn create_revision(&mut self, diff: OpaqueDiff, cursor: Cursor)
        requires
            old(self).wf(),
            old(self).revision_count() < usize::MAX,
        ensures
            final(self).wf(),
            final(self).made_revision(*old(self), seq![diff], cursor),
    {
        self.create_compound_revision(CompoundDiff::single(diff), cursor)
    }

    /// `self` is `before` with a new revision made from its staged text: the
    /// new revision is appended as the last child of the old head, refers back
    /// to it with the reversed diffs, and becomes the head.
    pub open spec fn made_revision(&self, before: EditTree, diffs: Seq<OpaqueDiff>, cursor: Cursor) -> bool {
        self.made_revision_from(before, before.staged_text(), diffs, cursor)
    }

    /// `self` is `before`, with `staged` as its staged text, after a revision
    /// was made: see `made_revision`.
    pub open spec fn made_revision_from(
        &self,
        before: EditTree,
        staged: Seq<char>,
        diffs: Seq<OpaqueDiff>,
        cursor: Cursor,
    ) -> bool {
        let new_index = before.revision_count();
        let old_head = before.head() as int;
        let new_revision = self.revision(new_index as int);
        let head_before = before.revision(old_head);
        let head_after = self.revision(old_head);
        &&& self.revision_added(before, staged, diffs, cursor)
        &&& self.staged_text() == staged
        &&& !self.has_changes()
    }

    /// `self` has the revisions of `before` and one more, made from `text`
    /// with `diffs` and `cursor`: it is appended as the last child of the
    /// old head, refers back to it with the reversed diffs, and is the head.
    pub open spec fn revision_added(
        &self,
        before: EditTree,
        text: Seq<char>,
        diffs: Seq<OpaqueDiff>,
        cursor: Cursor,
    ) -> bool {
        let new_index = before.revision_count();
        let old_head = before.head() as int;
        let new_revision = self.revision(new_index as int);
        let head_before = before.revision(old_head);
        let head_after = self.revision(old_head);
        &&& self.revision_count() == new_index + 1
        &&& self.head() == new_index
        &&& new_revision.text_chars() == text
        &&& new_revision.saved_cursor() == cursor
        &&& new_revision.parent_ref() matches Some(p) && p.target() == old_head
            && p.diffs() == reversed_diffs(diffs)
        &&& new_revision.child_refs() == Seq::<Reference>::empty()
        &&& new_revision.redo() == 0
        &&& head_after.child_refs().len() == head_before.child_refs().len() + 1
        &&& head_after.child_refs().drop_last() == head_before.child_refs()
        &&& head_after.child_refs().last().target() == new_index
        &&& head_after.child_refs().last().diffs() == diffs
        &&& head_after.redo() == head_before.child_refs().len()
        &&& head_after.text_chars() == head_before.text_chars()
        &&& head_after.saved_cursor() == head_before.saved_cursor()
        &&& head_after.parent_ref() == head_before.parent_ref()
        &&& forall|i: int|
            0 <= i < new_index && i != old_head ==> #[trigger] self.revision(i) == before.revision(i)
    }

    /// Create a revision from a compound diff (multiple sub-diffs).
    pub fn create_compound_revision(&mut self, diff: CompoundDiff, cursor: Cursor)
        requires
            old(self).wf(),
            old(self).revision_count() < usize::MAX,
        ensures
            final(self).wf(),
            final(self).made_revision(*old(self), diff.diffs(), cursor),
    {
        let ghost before = *self;
        let parent_to_child_diff = diff;
        let child_to_parent_diff = parent_to_child_diff.reverse();
        let new_revision_index = self.revisions.len();
        let head = self.head_index;

        self.revisions.push(
            Revision {
                text: self.staged.clone(),
                cursor,
                parent: Some(Reference { index: head, diff: child_to_parent_diff }),
                children: references_new(),
                redo_index: 0,
            },
        );
        {
            let head_revision = &mut self.revisions[head];
            let ghost children_before = head_revision.child_refs();
            references_push(
                &mut head_revision.children,
                Reference { index: new_revision_index, diff: parent_to_child_diff },
            );
            head_revision.redo_index = references_len(&head_revision.children) - 1;
            proof {
                assert(head_revision.child_refs().drop_last() =~= children_before);
            }
        }
        self.head_index = new_revision_index;
        self.has_staged_changes = false;
        proof {
            let n = new_revision_index as int;
            let h = head as int;
            assert forall|i: int, k: int|
                0 <= i < self.revisions@.len() && 0 <= k
                    < self.revisions@[i].child_refs().len() implies links_back(
                self.revisions@,
                i,
                #[trigger] self.revisions@[i].child_refs()[k],
            ) by {
                if i != h && i != n {
                    assert(self.revisions@[i] == before.revisions@[i]);
                    assert(links_back(before.revisions@, i, before.revisions@[i].child_refs()[k]));
                }
                if i == h && k < before.revisions@[i].child_refs().len() {
                    assert(self.revisions@[i].child_refs()[k]
                        == before.revisions@[i].child_refs()[k]);
                    assert(links_back(before.revisions@, i, before.revisions@[i].child_refs()[k]));
                }
                let t = self.revisions@[i].child_refs()[k].index as int;
                if t != n && t != h {
                    assert(self.revisions@[t] == before.revisions@[t]);
                }
            }
            assert forall|i: int|
                0 <= i < self.revisions@.len() && (#[trigger] self.revisions@[i]).parent is Some
                implies self.revisions@[i].parent->0.index < i by {
                if i != h && i != n {
                    assert(self.revisions@[i] == before.revisions@[i]);
                }
            }
            assert forall|i: int, k1: int, k2: int|
                0 <= i < self.revisions@.len() && 0 <= k1 < k2
                    < self.revisions@[i].child_refs().len() implies #[trigger] self.revisions@[i].child_refs()[k1].index
                < #[trigger] self.revisions@[i].child_refs()[k2].index by {
                if i != h && i != n {
                    assert(self.revisions@[i] == before.revisions@[i]);
                }
                if i == h {
                    let old_children = before.revisions@[i].child_refs();
                    assert(self.revisions@[i].child_refs()[k1] == old_children[k1]);
                    assert(links_back(before.revisions@, i, old_children[k1]));
                    if k2 < old_children.len() {
                        assert(self.revisions@[i].child_refs()[k2] == old_children[k2]);
                    }
                }
            }
            assert forall|j: int| 0 < j < self.revisions@.len() implies #[trigger] listed(
                self.revisions@,
                j,
            ) by {
                if j == n {
                    assert(self.revisions@[h].child_refs()[before.revisions@[h].child_refs().len() as int].index == j);
                } else {
                    assert(listed(before.revisions@, j));
                    assert(self.revisions@[j].parent == before.revisions@[j].parent);
                    let p = before.revisions@[j].parent->0.index as int;
                    let k = choose|k: int|
                        0 <= k < before.revisions@[p].child_refs().len()
                            && #[trigger] before.revisions@[p].child_refs()[k].index == j;
                    if p != h {
                        assert(self.revisions@[p] == before.revisions@[p]);
                    }
                    assert(self.revisions@[p].child_refs()[k] == before.revisions@[p].child_refs()[k]);
                    assert(self.revisions@[p].child_refs()[k].index == j);
                }
            }
            lemma_redo_path_frame(before.revisions@, self.revisions@, h);
            assert(on_redo_path(self.revisions@, h));
            assert(on_redo_path(self.revisions@, n));
        }
    }

    /// `self` is `before` after an undo: from a revision with a parent the
    /// head moves to the parent, whose text is staged; at the root nothing
    /// changes. No revision changes.
    pub open spec fn undone(&self, before: EditTree) -> bool {
        &&& self.revision_count() == before.revision_count()
        &&& forall|i: int| #[trigger] self.revision(i) == before.revision(i)
        &&& match before.head_revision().parent_ref() {
            Some(p) => {
                &&& self.head() == p.target()
                &&& p.target() < before.head()
                &&& self.staged_text() == before.revision(p.target() as int).text_chars()
                &&& !self.has_changes()
            },
            None => {
                &&& self.head() == before.head()
                &&& self.staged_text() == before.staged_text()
                &&& self.has_changes() == before.has_changes()
            },
        }
    }

    /// `self` is `before` after an undo that returned `result`: the diffs
    /// back to the parent and the parent's cursor, or nothing at the root.
    pub open spec fn undid(&self, before: EditTree, result: Option<(CompoundDiff, Cursor)>) -> bool {
        &&& self.undone(before)
        &&& match before.head_revision().parent_ref() {
            Some(p) => result matches Some((diff, cursor)) && diff.diffs() == p.diffs() && cursor
                == before.revision(p.target() as int).saved_cursor(),
            None => result is None,
        }
    }

    pub fn undo(&mut self) -> (result: Option<(CompoundDiff, Cursor)>)
        requires
            old(self).wf(),
        ensures
            final(self).wf(),
            final(self).undid(*old(self), result),
    {
        let head = self.head_index;
        match &self.revisions[head].parent {
            Some(reference) => {
                let previous_index = reference.index;
                let diff = reference.diff.duplicate();
                let previous_revision = &self.revisions[previous_index];
                let text = previous_revision.text.clone();
                let cursor = previous_revision.cursor.copied();
                self.staged = text;
                self.head_index = previous_index;
                self.has_staged_changes = false;
                Some((diff, cursor))
            },
            None => None,
        }
    }

    /// Whether the head has a child for redo to go to.
    pub open spec fn can_redo(&self) -> bool {
        self.head_revision().redo() < self.head_revision().child_refs().len()
    }

    /// The reference to the child that redo goes to.
    pub open spec fn redo_child(&self) -> Reference {
        self.head_revision().child_refs()[self.head_revision().redo() as int]
    }

    /// `self` is `before` after a redo: where the head has the child that
    /// redo goes to, the head moves to it and its text is staged; otherwise
    /// nothing changes. No revision changes.
    pub open spec fn redone(&self, before: EditTree) -> bool {
        &&& self.revision_count() == before.revision_count()
        &&& forall|i: int| #[trigger] self.revision(i) == before.revision(i)
        &&& if before.can_redo() {
            let child = before.redo_child();
            &&& self.head() == child.target()
            &&& self.staged_text() == before.revision(child.target() as int).text_chars()
            &&& !self.has_changes()
        } else {
            &&& self.head() == before.head()
            &&& self.staged_text() == before.staged_text()
            &&& self.has_changes() == before.has_changes()
        }
    }

    /// `self` is `before` after a redo that returned `result`: the diffs to
    /// the child and its cursor, or nothing where there is no child.
    pub open spec fn redid(&self, before: EditTree, result: Option<(CompoundDiff, Cursor)>) -> bool {
        &&& self.redone(before)
        &&& if before.can_redo() {
            let child = before.redo_child();
            result matches Some((diff, cursor)) && diff.diffs() == child.diffs() && cursor
                == before.revision(child.target() as int).saved_cursor()
        } else {
            result is None
        }
    }

    /// The text and the diffs that undo leads to, if the head has a parent.
    pub fn undo_target(&self) -> (target: Option<(&Rope, &CompoundDiff)>)
        requires
            self.wf(),
        ensures
            match self.head_revision().parent_ref() {
                Some(p) => target matches Some((text, diff)) && rope_text(*text) == self.revision(
                    p.target() as int,
                ).text_chars() && diff.diffs() == p.diffs(),
                None => target is None,
            },
    {
        match &self.revisions[self.head_index].parent {
            Some(reference) => Some((&self.revisions[reference.index].text, &reference.diff)),
            None => None,
        }
    }

    /// The text and the diffs that redo leads to, if the head has a child to
    /// go to.
    pub fn redo_target(&self) -> (target: Option<(&Rope, &CompoundDiff)>)
        requires
            self.wf(),
        ensures
            if self.can_redo() {
                let child = self.redo_child();
                target matches Some((text, diff)) && rope_text(*text) == self.revision(
                    child.target() as int,
                ).text_chars() && diff.diffs() == child.diffs()
            } else {
                target is None
            },
    {
        let revision = &self.revisions[self.head_index];
        match references_get(&revision.children, revision.redo_index) {
            Some(reference) => {
                proof {
                    let h = self.head_index as int;
                    let k = self.revisions@[h].redo_index as int;
                    assert(links_back(self.revisions@, h, self.revisions@[h].child_refs()[k]));
                }
                Some((&self.revisions[reference.index].text, &reference.diff))
            },
            None => None,
        }
    }

    pub fn redo(&mut self) -> (result: Option<(CompoundDiff, Cursor)>)
        requires
            old(self).wf(),
        ensures
            final(self).wf(),
            final(self).redid(*old(self), result),
    {
        let head = self.head_index;
        let revision = &self.revisions[head];
        match references_get(&revision.children, revision.redo_index) {
            Some(reference) => {
                proof {
                    let h = head as int;
                    let k = self.revisions@[h].redo_index as int;
                    assert(links_back(self.revisions@, h, self.revisions@[h].child_refs()[k]));
                }
                let index = reference.index;
                let diff = reference.diff.duplicate();
                let child = &self.revisions[index];
                let text = child.text.clone();
                let cursor = child.cursor.copied();
                self.staged = text;
                self.has_staged_changes = false;
                self.head_index = index;
                Some((diff, cursor))
            },
            None => None,
        }
    }

    pub fn staged(&self) -> (text: &Rope)
        ensures
            rope_text(*text) == self.staged_text(),
    {
        &self.staged
    }

    pub fn staged_mut(&mut self) -> (text: &mut Rope)
        ensures
            rope_text(*text) == old(self).staged_text(),
            final(self).revision_count() == old(self).revision_count(),
            forall|i: int| #[trigger] final(self).revision(i) == old(self).revision(i),
            final(self).head() == old(self).head(),
            final(self).wf() == old(self).wf(),
            final(self).staged_text() == rope_text(*final(text)),
            final(self).has_changes(),
    {
        self.has_staged_changes = true;
        &mut self.staged
    }
}

impl std::ops::Deref for EditTree {
    type Target = Rope;

    fn deref(&self) -> (text: &Rope)
        ensures
            rope_text(*text) == self.staged_text(),
    {
        &self.staged
    }
}

/// A position in the drawing of an edit tree: a column and a row.
#[derive(Clone, Copy, Debug, PartialEq, Eq, Structural)]
pub struct Vector2D {
    pub x: isize,
    pub y: isize,
}

/// Where a revision is drawn, and whether it lies on the branch that redo
/// follows from the root.
#[derive(Clone, Copy, Debug, PartialEq, Eq, Structural)]
pub struct FormattedRevision {
    pub transform: Vector2D,
    pub current_branch: bool,
}

/// The number of children of revision `i`.
pub open spec fn child_count(revisions: Seq<Revision>, i: int) -> int {
    revisions[i].child_refs().len() as int
}

/// The index of the `k`-th child of revision `i`.
pub open spec fn child_at(revisions: Seq<Revision>, i: int, k: int) -> int {
    revisions[i].child_refs()[k].target() as int
}

/// The width of the drawing of the subtrees of the first `k` children of
/// revision `i`, side by side with eight columns between two of them. A
/// revision without children takes no width.
pub open spec fn children_width(revisions: Seq<Revision>, i: int, k: int) -> int
    decreases revisions.len() - i, k,
{
    if k <= 0 || k > child_count(revisions, i) {
        0
    } else {
        let c = child_at(revisions, i, k - 1);
        children_width(revisions, i, k - 1) + (if k > 1 { 8int } else { 0int }) + if i < c
            < revisions.len() {
            children_width(revisions, c, child_count(revisions, c))
        } else {
            0
        }
    }
}

/// The width of the drawing of the subtree of revision `i`.
pub open spec fn subtree_width(revisions: Seq<Revision>, i: int) -> int {
    children_width(revisions, i, child_count(revisions, i))
}

/// The number of levels below revision `i` in the subtrees of its first `k`
/// children.
pub open spec fn children_height(revisions: Seq<Revision>, i: int, k: int) -> int
    decreases revisions.len() - i, k,
{
    if k <= 0 || k > child_count(revisions, i) {
        0
    } else {
        let c = child_at(revisions, i, k - 1);
        let below = if i < c < revisions.len() {
            1 + children_height(revisions, c, child_count(revisions, c))
        } else {
            0
        };
        let before = children_height(revisions, i, k - 1);
        if before < below {
            below
        } else {
            before
        }
    }
}

/// The number of levels below revision `i` in its subtree.
pub open spec fn subtree_height(revisions: Seq<Revision>, i: int) -> int {
    children_height(revisions, i, child_count(revisions, i))
}

/// `formatted` after the subtree of revision `i` is drawn at `transform`:
/// revision `i` is placed there, then its children's subtrees two rows
/// below, from left to right (see `children_laid_out`).
pub open spec fn laid_out(
    formatted: Seq<FormattedRevision>,
    revisions: Seq<Revision>,
    i: int,
    transform: Vector2D,
    current_branch: bool,
) -> Seq<FormattedRevision>
    decreases revisions.len() - i, child_count(revisions, i) + 1,
{
    children_laid_out(
        formatted.update(i, FormattedRevision { transform, current_branch }),
        revisions,
        i,
        child_count(revisions, i),
        transform,
        current_branch,
    )
}

/// `formatted` after the subtrees of the first `k` children of revision `i`,
/// which is drawn at `transform`, are drawn: each child two rows below `i`,
/// in the column where the width of the subtrees to its left, and eight
/// columns after each of them, ends. A child is on the current branch where
/// `i` is and it is the child that redo goes to.
pub open spec fn children_laid_out(
    formatted: Seq<FormattedRevision>,
    revisions: Seq<Revision>,
    i: int,
    k: int,
    transform: Vector2D,
    current_branch: bool,
) -> Seq<FormattedRevision>
    decreases revisions.len() - i, k,
{
    if k <= 0 || k > child_count(revisions, i) {
        formatted
    } else {
        let before = children_laid_out(formatted, revisions, i, k - 1, transform, current_branch);
        let c = child_at(revisions, i, k - 1);
        if i < c < revisions.len() {
            let offset = children_width(revisions, i, k - 1) + if k > 1 {
                8int
            } else {
                0int
            };
            laid_out(
                before,
                revisions,
                c,
                Vector2D { x: (transform.x + offset) as isize, y: (transform.y + 2) as isize },
                current_branch && k - 1 == revisions[i].redo(),
            )
        } else {
            before
        }
    }
}

/// Widths are never negative, and grow with the number of children drawn.
proof fn lemma_children_width_grows(revisions: Seq<Revision>, i: int, k1: int, k2: int)
    requires
        0 <= k1 <= k2 <= child_count(revisions, i),
    ensures
        0 <= children_width(revisions, i, k1) <= children_width(revisions, i, k2),
    decreases revisions.len() - i, k2,
{
    if k1 < k2 {
        lemma_children_width_grows(revisions, i, k1, k2 - 1);
        let c = child_at(revisions, i, k2 - 1);
        if i < c < revisions.len() {
            lemma_children_width_grows(revisions, c, 0, child_count(revisions, c));
        }
    } else if k1 > 0 {
        lemma_children_width_grows(revisions, i, k1 - 1, k1 - 1);
        let c = child_at(revisions, i, k1 - 1);
        if i < c < revisions.len() {
            lemma_children_width_grows(revisions, c, 0, child_count(revisions, c));
        }
    }
}

/// Heights are never negative, grow with the number of children drawn, and
/// reach one level below the height of each child drawn.
proof fn lemma_children_height_grows(revisions: Seq<Revision>, i: int, k1: int, k2: int)
    requires
        0 <= k1 <= k2 <= child_count(revisions, i),
    ensures
        0 <= children_height(revisions, i, k1) <= children_height(revisions, i, k2),
        k1 < k2 && i < child_at(revisions, i, k1) < revisions.len() ==> 1 + subtree_height(
            revisions,
            child_at(revisions, i, k1),
        ) <= children_height(revisions, i, k2),
    decreases revisions.len() - i, k2,
{
    if k2 > 0 {
        if k1 < k2 {
            lemma_children_height_grows(revisions, i, k1, k2 - 1);
        } else {
            lemma_children_height_grows(revisions, i, k1 - 1, k1 - 1);
        }
        let c = child_at(revisions, i, k2 - 1);
        if i < c < revisions.len() {
            lemma_children_height_grows(revisions, c, 0, child_count(revisions, c));
        }
    }
}

/// Draws the subtree of revision `index` at `transform` into `formatted`,
/// and returns its width.
pub fn format_revision(
    revisions: &[Revision],
    formatted: &mut [FormattedRevision],
    index: usize,
    transform: Vector2D,
    current_branch: bool,
) -> (width: isize)
    requires
        linked(revisions@),
        index < revisions@.len(),
        revisions@.len() <= old(formatted)@.len(),
        subtree_width(revisions@, index as int) <= isize::MAX,
        transform.x + subtree_width(revisions@, index as int) <= isize::MAX,
        transform.y + 2 * subtree_height(revisions@, index as int) <= isize::MAX,
    ensures
        width == subtree_width(revisions@, index as int),
        final(formatted)@.len() == old(formatted)@.len(),
        final(formatted)@ == laid_out(
            old(formatted)@,
            revisions@,
            index as int,
            transform,
            current_branch,
        ),
    decreases revisions@.len() - index,
{
    let ghost revs = revisions@;
    let ghost i = index as int;
    formatted[index] = FormattedRevision { transform, current_branch };
    let ghost placed = formatted@;
    let revision = &revisions[index];
    let count = references_len(&revision.children);
    let mut drawn_width: isize = 0;
    let mut child_index: usize = 0;
    proof {
        lemma_children_width_grows(revs, i, 0, child_count(revs, i));
        lemma_children_height_grows(revs, i, 0, child_count(revs, i));
    }
    while child_index < count
        invariant
            revs == revisions@,
            revision == revs[i],
            i == index,
            linked(revs),
            0 <= i < revs.len(),
            revs.len() <= formatted@.len(),
            formatted@.len() == old(formatted)@.len(),
            count == child_count(revs, i),
            0 <= child_index <= count,
            placed == old(formatted)@.update(
                i,
                FormattedRevision { transform, current_branch },
            ),
            drawn_width == children_width(revs, i, child_index as int),
            formatted@ == children_laid_out(
                placed,
                revs,
                i,
                child_index as int,
                transform,
                current_branch,
            ),
            subtree_width(revs, i) <= isize::MAX,
            transform.x + subtree_width(revs, i) <= isize::MAX,
            transform.y + 2 * subtree_height(revs, i) <= isize::MAX,
        decreases count - child_index,
    {
        let ghost k = child_index as int;
        let child = match references_get(&revision.children, child_index) {
            Some(child) => child,
            None => { proof { assert(false); } return 0; },
        };
        let ghost c = child.index as int;
        proof {
            assert(links_back(revs, i, revs[i].child_refs()[k]));
            assert(c == child_at(revs, i, k));
            lemma_children_width_grows(revs, i, k, k + 1);
            lemma_children_width_grows(revs, i, k + 1, child_count(revs, i));
            lemma_children_width_grows(revs, c, 0, child_count(revs, c));
            lemma_children_height_grows(revs, i, k, child_count(revs, i));
            lemma_children_height_grows(revs, c, 0, child_count(revs, c));
        }
        if child_index > 0 {
            drawn_width = drawn_width + 8;
        }
        let child_transform = Vector2D { x: transform.x + drawn_width, y: transform.y + 2 };
        let width = format_revision(
            revisions,
            formatted,
            child.index,
            child_transform,
            current_branch && child_index == revision.redo_index,
        );
        drawn_width = drawn_width + width;
        child_index = child_index + 1;
    }
    drawn_width
}

/// Below revision `i` there are no more levels than revisions after it.
proof fn lemma_children_height_bound(revisions: Seq<Revision>, i: int, k: int)
    requires
        0 <= i < revisions.len(),
    ensures
        children_height(revisions, i, k) <= revisions.len() - 1 - i,
    decreases revisions.len() - i, k,
{
    if 0 < k <= child_count(revisions, i) {
        lemma_children_height_bound(revisions, i, k - 1);
        let c = child_at(revisions, i, k - 1);
        if i < c < revisions.len() {
            lemma_children_height_bound(revisions, c, child_count(revisions, c));
        }
    }
}

/// Revision `i` with the revisions in the subtrees of its first `k`
/// children.
spec fn subtree_nodes(revisions: Seq<Revision>, i: int, k: int) -> Set<int>
    decreases revisions.len() - i, k,
{
    if k <= 0 || k > child_count(revisions, i) {
        set![i]
    } else {
        let c = child_at(revisions, i, k - 1);
        subtree_nodes(revisions, i, k - 1) + if i < c < revisions.len() {
            subtree_nodes(revisions, c, child_count(revisions, c))
        } else {
            Set::empty()
        }
    }
}

/// The parent of revision `j`, or `j` itself where it has none.
spec fn parent_of(revisions: Seq<Revision>, j: int) -> int {
    if 0 <= j < revisions.len() && revisions[j].parent is Some {
        revisions[j].parent->0.index as int
    } else {
        j
    }
}

/// The revision `d` steps up the parent links from revision `j`.
spec fn ancestor(revisions: Seq<Revision>, j: int, d: nat) -> int
    decreases d,
{
    if d == 0 {
        j
    } else {
        parent_of(revisions, ancestor(revisions, j, (d - 1) as nat))
    }
}

proof fn lemma_ancestor_compose(revisions: Seq<Revision>, j: int, a: nat, b: nat)
    ensures
        ancestor(revisions, j, a + b) == ancestor(revisions, ancestor(revisions, j, a), b),
    decreases b,
{
    if b > 0 {
        lemma_ancestor_compose(revisions, j, a, (b - 1) as nat);
        assert((a + b - 1) as nat == a + (b - 1) as nat);
    }
}

proof fn lemma_ancestor_below(revisions: Seq<Revision>, j: int, d: nat)
    requires
        linked(revisions),
    ensures
        ancestor(revisions, j, d) <= j,
    decreases d,
{
    if d > 0 {
        lemma_ancestor_below(revisions, j, (d - 1) as nat);
        let a = ancestor(revisions, j, (d - 1) as nat);
        if 0 <= a < revisions.len() && revisions[a].parent is Some {
            assert(revisions[a].parent->0.index < a);
        }
    }
}

/// The subtree of revision `i` lies within the revisions from `i` on.
proof fn lemma_subtree_nodes_range(revisions: Seq<Revision>, i: int, k: int)
    requires
        0 <= i < revisions.len(),
    ensures
        subtree_nodes(revisions, i, k).finite(),
        subtree_nodes(revisions, i, k).contains(i),
        forall|j: int| #[trigger]
            subtree_nodes(revisions, i, k).contains(j) ==> i <= j < revisions.len(),
    decreases revisions.len() - i, k,
{
    if 0 < k <= child_count(revisions, i) {
        lemma_subtree_nodes_range(revisions, i, k - 1);
        let c = child_at(revisions, i, k - 1);
        if i < c < revisions.len() {
            lemma_subtree_nodes_range(revisions, c, child_count(revisions, c));
        }
    }
}

/// A revision in the subtree of revision `x` reaches `x` up the parent links.
proof fn lemma_climb(revisions: Seq<Revision>, x: int, k: int, j: int) -> (d: nat)
    requires
        linked(revisions),
        0 <= x < revisions.len(),
        subtree_nodes(revisions, x, k).contains(j),
    ensures
        ancestor(revisions, j, d) == x,
    decreases revisions.len() - x, k,
{
    if k <= 0 || k > child_count(revisions, x) {
        0
    } else if subtree_nodes(revisions, x, k - 1).contains(j) {
        lemma_climb(revisions, x, k - 1, j)
    } else {
        let c = child_at(revisions, x, k - 1);
        assert(links_back(revisions, x, revisions[x].child_refs()[k - 1]));
        let d = lemma_climb(revisions, c, child_count(revisions, c), j);
        assert(ancestor(revisions, j, d + 1) == parent_of(revisions, c));
        d + 1
    }
}

/// A revision in the subtree of revision `i` other than `i` lies in the
/// subtree of one of the children drawn.
proof fn lemma_subtree_member(revisions: Seq<Revision>, i: int, k: int, j: int) -> (m: int)
    requires
        subtree_nodes(revisions, i, k).contains(j),
        j != i,
    ensures
        0 <= m < k,
        m < child_count(revisions, i),
        i < child_at(revisions, i, m) < revisions.len(),
        subtree_nodes(
            revisions,
            child_at(revisions, i, m),
            child_count(revisions, child_at(revisions, i, m)),
        ).contains(j),
    decreases k,
{
    if k <= 0 || k > child_count(revisions, i) {
        assert(false);
        0
    } else if subtree_nodes(revisions, i, k - 1).contains(j) {
        lemma_subtree_member(revisions, i, k - 1, j)
    } else {
        k - 1
    }
}

/// The subtree of a child is apart from its parent and from the subtrees of
/// the children before it.
proof fn lemma_subtrees_apart(revisions: Seq<Revision>, i: int, k: int)
    requires
        linked(revisions),
        0 <= i < revisions.len(),
        0 < k <= child_count(revisions, i),
    ensures
        ({
            let c = child_at(revisions, i, k - 1);
            subtree_nodes(revisions, i, k - 1).disjoint(
                subtree_nodes(revisions, c, child_count(revisions, c)),
            )
        }),
{
    let c = child_at(revisions, i, k - 1);
    assert(links_back(revisions, i, revisions[i].child_refs()[k - 1]));
    let later = subtree_nodes(revisions, c, child_count(revisions, c));
    let earlier = subtree_nodes(revisions, i, k - 1);
    lemma_subtree_nodes_range(revisions, c, child_count(revisions, c));
    assert forall|j: int| earlier.contains(j) implies !later.contains(j) by {
        if later.contains(j) {
            assert(c <= j);
            let m = lemma_subtree_member(revisions, i, k - 1, j);
            let cm = child_at(revisions, i, m);
            assert(revisions[i].child_refs()[m].index < revisions[i].child_refs()[k - 1].index);
            assert(links_back(revisions, i, revisions[i].child_refs()[m]));
            let d1 = lemma_climb(revisions, cm, child_count(revisions, cm), j);
            let d2 = lemma_climb(revisions, c, child_count(revisions, c), j);
            assert(ancestor(revisions, cm, 0) == cm);
            assert(ancestor(revisions, c, 0) == c);
            assert(ancestor(revisions, cm, 1) == i);
            assert(ancestor(revisions, c, 1) == i);
            if d1 < d2 {
                let e = (d2 - d1) as nat;
                lemma_ancestor_compose(revisions, j, d1, e);
                lemma_ancestor_compose(revisions, cm, 1, (e - 1) as nat);
                lemma_ancestor_below(revisions, i, (e - 1) as nat);
            } else if d2 < d1 {
                let e = (d1 - d2) as nat;
                lemma_ancestor_compose(revisions, j, d2, e);
                lemma_ancestor_compose(revisions, c, 1, (e - 1) as nat);
                lemma_ancestor_below(revisions, i, (e - 1) as nat);
            }
        }
    }
}

/// The drawing of a subtree is at most eight columns wide per revision in it
/// beyond the first.
proof fn lemma_children_width_bound(revisions: Seq<Revision>, i: int, k: int)
    requires
        linked(revisions),
        0 <= i < revisions.len(),
        0 <= k <= child_count(revisions, i),
    ensures
        children_width(revisions, i, k) <= 8 * (subtree_nodes(revisions, i, k).len() - 1),
    decreases revisions.len() - i, k,
{
    lemma_subtree_nodes_range(revisions, i, k);
    if k > 0 {
        let c = child_at(revisions, i, k - 1);
        assert(links_back(revisions, i, revisions[i].child_refs()[k - 1]));
        lemma_children_width_bound(revisions, i, k - 1);
        lemma_children_width_bound(revisions, c, child_count(revisions, c));
        lemma_subtree_nodes_range(revisions, i, k - 1);
        lemma_subtree_nodes_range(revisions, c, child_count(revisions, c));
        lemma_subtrees_apart(revisions, i, k);
        let earlier = subtree_nodes(revisions, i, k - 1);
        let later = subtree_nodes(revisions, c, child_count(revisions, c));
        vstd::set_lib::lemma_set_disjoint_lens(earlier, later);
        vstd::set_lib::lemma_len_subset(set![i], earlier);
    } else {
        assert(subtree_nodes(revisions, i, k).len() == 1);
    }
}

/// A drawing of `n` revisions before any is placed: all at the origin, on
/// the current branch.
pub open spec fn blank_drawing(n: nat) -> Seq<FormattedRevision> {
    Seq::new(
        n,
        |j: int| FormattedRevision { transform: Vector2D { x: 0, y: 0 }, current_branch: true },
    )
}

impl EditTree {
    /// The drawing of the tree, its root at the origin.
    pub open spec fn drawing(&self) -> Seq<FormattedRevision> {
        laid_out(
            blank_drawing(self.revision_count()),
            self.revision_list(),
            0,
            Vector2D { x: 0, y: 0 },
            true,
        )
    }
}

/// Draws every revision of the tree, the root at the origin.
pub fn format_tree(tree: &EditTree) -> (formatted: Vec<FormattedRevision>)
    requires
        tree.wf(),
        8 * tree.revision_count() <= isize::MAX,
    ensures
        formatted@ == tree.drawing(),
{
    let count = tree.revisions.len();
    let blank = FormattedRevision { transform: Vector2D { x: 0, y: 0 }, current_branch: true };
    let mut formatted: Vec<FormattedRevision> = Vec::with_capacity(count);
    let mut filled: usize = 0;
    while filled < count
        invariant
            filled <= count,
            formatted@ == Seq::new(filled as nat, |j: int| blank),
        decreases count - filled,
    {
        formatted.push(blank);
        filled = filled + 1;
        proof {
            assert(formatted@ =~= Seq::new(filled as nat, |j: int| blank));
        }
    }
    let ghost revs = tree.revisions@;
    proof {
        assert(formatted@ =~= blank_drawing(count as nat));
        lemma_children_width_bound(revs, 0, child_count(revs, 0));
        lemma_subtree_nodes_range(revs, 0, child_count(revs, 0));
        vstd::set_lib::lemma_int_range(0, revs.len() as int);
        vstd::set_lib::lemma_len_subset(
            subtree_nodes(revs, 0, child_count(revs, 0)),
            vstd::set_lib::set_int_range(0, revs.len() as int),
        );
        lemma_children_height_bound(revs, 0, child_count(revs, 0));
        lemma_children_width_grows(revs, 0, 0, child_count(revs, 0));
        lemma_children_height_grows(revs, 0, 0, child_count(revs, 0));
    }
    format_revision(
        tree.revisions.as_slice(),
        formatted.as_mut_slice(),
        0,
        Vector2D { x: 0, y: 0 },
        true,
    );
    formatted
}

/// Revision `j` is the child that redo goes to from revision `p`.
spec fn is_redo_child(revisions: Seq<Revision>, p: int, j: int) -> bool {
    &&& revisions[p].redo_index < references(revisions[p].children).len()
    &&& references(revisions[p].children)[revisions[p].redo_index as int].index == j
}

/// From revision `i` down to revision `j`, each revision is the child that
/// redo goes to from its parent.
spec fn branch_from(revisions: Seq<Revision>, i: int, j: int) -> bool
    decreases j,
{
    if j == i {
        true
    } else if 0 <= j < revisions.len() && revisions[j].parent is Some {
        let p = revisions[j].parent->0.index as int;
        if p < j {
            is_redo_child(revisions, p, j) && branch_from(revisions, i, p)
        } else {
            false
        }
    } else {
        false
    }
}

/// Drawing more children's subtrees covers more revisions.
proof fn lemma_subtree_nodes_grow(revisions: Seq<Revision>, i: int, k1: int, k2: int)
    requires
        0 <= k1 <= k2 <= child_count(revisions, i),
    ensures
        subtree_nodes(revisions, i, k1).subset_of(subtree_nodes(revisions, i, k2)),
    decreases k2,
{
    if k1 < k2 {
        lemma_subtree_nodes_grow(revisions, i, k1, k2 - 1);
    }
}

/// The subtree of a revision in the subtree of `y` lies within it.
proof fn lemma_subtree_nodes_within(revisions: Seq<Revision>, y: int, x: int)
    requires
        0 <= y < revisions.len(),
        subtree_nodes(revisions, y, child_count(revisions, y)).contains(x),
    ensures
        subtree_nodes(revisions, x, child_count(revisions, x)).subset_of(
            subtree_nodes(revisions, y, child_count(revisions, y)),
        ),
    decreases revisions.len() - y,
{
    if x != y {
        let m = lemma_subtree_member(revisions, y, child_count(revisions, y), x);
        let c = child_at(revisions, y, m);
        lemma_subtree_nodes_within(revisions, c, x);
        lemma_subtree_nodes_grow(revisions, y, m + 1, child_count(revisions, y));
    }
}

/// A revision in the subtree of `x` other than `x` has its parent in that
/// subtree too.
proof fn lemma_parent_in_subtree(revisions: Seq<Revision>, x: int, k: int, j: int)
    requires
        linked(revisions),
        0 <= x < revisions.len(),
        subtree_nodes(revisions, x, k).contains(j),
        j != x,
    ensures
        revisions[j].parent is Some,
        revisions[j].parent->0.index < j,
        subtree_nodes(revisions, x, child_count(revisions, x)).contains(
            revisions[j].parent->0.index as int,
        ),
    decreases revisions.len() - x,
{
    let m = lemma_subtree_member(revisions, x, k, j);
    let c = child_at(revisions, x, m);
    assert(links_back(revisions, x, revisions[x].child_refs()[m]));
    lemma_subtree_nodes_range(revisions, x, child_count(revisions, x));
    lemma_subtree_nodes_range(revisions, c, child_count(revisions, c));
    if j != c {
        lemma_parent_in_subtree(revisions, c, child_count(revisions, c), j);
        lemma_subtree_nodes_grow(revisions, x, m + 1, child_count(revisions, x));
    }
}

/// Down from a revision through its child `c` to a revision in the subtree
/// of `c`, redo goes to each of them when it goes to `c` and on from `c`.
proof fn lemma_branch_through(revisions: Seq<Revision>, i: int, k: int, j: int)
    requires
        linked(revisions),
        0 <= i < revisions.len(),
        0 <= k < child_count(revisions, i),
        subtree_nodes(
            revisions,
            child_at(revisions, i, k),
            child_count(revisions, child_at(revisions, i, k)),
        ).contains(j),
    ensures
        branch_from(revisions, i, j) == (is_redo_child(revisions, i, child_at(revisions, i, k))
            && branch_from(revisions, child_at(revisions, i, k), j)),
    decreases j,
{
    let c = child_at(revisions, i, k);
    assert(links_back(revisions, i, revisions[i].child_refs()[k]));
    lemma_subtree_nodes_range(revisions, c, child_count(revisions, c));
    assert(branch_from(revisions, i, i));
    assert(branch_from(revisions, c, c));
    if j != c {
        lemma_parent_in_subtree(revisions, c, child_count(revisions, c), j);
        let p = revisions[j].parent->0.index as int;
        lemma_branch_through(revisions, i, k, p);
    }
}

/// Placing a subtree's revisions leaves every revision outside it as it was.
proof fn lemma_children_laid_out_frame(
    formatted: Seq<FormattedRevision>,
    revisions: Seq<Revision>,
    i: int,
    k: int,
    transform: Vector2D,
    current_branch: bool,
    j: int,
)
    requires
        linked(revisions),
        0 <= i < revisions.len(),
        0 <= k <= child_count(revisions, i),
        revisions.len() <= formatted.len(),
        0 <= j < formatted.len(),
        j == i || !subtree_nodes(revisions, i, k).contains(j),
    ensures
        children_laid_out(formatted, revisions, i, k, transform, current_branch).len()
            == formatted.len(),
        children_laid_out(formatted, revisions, i, k, transform, current_branch)[j]
            == formatted[j],
    decreases revisions.len() - i, k,
{
    if k > 0 {
        lemma_subtree_nodes_grow(revisions, i, k - 1, k);
        lemma_children_laid_out_frame(formatted, revisions, i, k - 1, transform, current_branch, j);
        let before = children_laid_out(formatted, revisions, i, k - 1, transform, current_branch);
        let c = child_at(revisions, i, k - 1);
        assert(links_back(revisions, i, revisions[i].child_refs()[k - 1]));
        lemma_subtree_nodes_range(revisions, c, child_count(revisions, c));
        let offset = children_width(revisions, i, k - 1) + if k > 1 {
            8int
        } else {
            0int
        };
        let t = Vector2D { x: (transform.x + offset) as isize, y: (transform.y + 2) as isize };
        let cb = current_branch && k - 1 == revisions[i].redo();
        let placed = before.update(c, FormattedRevision { transform: t, current_branch: cb });
        assert(children_laid_out(formatted, revisions, i, k, transform, current_branch) == laid_out(
            before,
            revisions,
            c,
            t,
            cb,
        ));
        assert(laid_out(before, revisions, c, t, cb) == children_laid_out(
            placed,
            revisions,
            c,
            child_count(revisions, c),
            t,
            cb,
        ));
        lemma_children_laid_out_frame(
            placed,
            revisions,
            c,
            child_count(revisions, c),
            t,
            cb,
            j,
        );
    }
}

/// In the drawing of the subtrees of the first `k` children of revision
/// `i`, a revision in them is on the current branch where `i` is and redo
/// goes down from `i` to it.
proof fn lemma_children_laid_out_branch(
    formatted: Seq<FormattedRevision>,
    revisions: Seq<Revision>,
    i: int,
    k: int,
    transform: Vector2D,
    current_branch: bool,
    j: int,
)
    requires
        linked(revisions),
        0 <= i < revisions.len(),
        0 <= k <= child_count(revisions, i),
        revisions.len() <= formatted.len(),
        subtree_nodes(revisions, i, k).contains(j),
        j != i,
    ensures
        children_laid_out(formatted, revisions, i, k, transform, current_branch)[j].current_branch
            == (current_branch && branch_from(revisions, i, j)),
    decreases revisions.len() - i, k,
{
    if k > 0 {
        let before = children_laid_out(formatted, revisions, i, k - 1, transform, current_branch);
        let c = child_at(revisions, i, k - 1);
        assert(links_back(revisions, i, revisions[i].child_refs()[k - 1]));
        lemma_subtree_nodes_range(revisions, i, k);
        lemma_subtree_nodes_range(revisions, c, child_count(revisions, c));
        let offset = children_width(revisions, i, k - 1) + if k > 1 {
            8int
        } else {
            0int
        };
        let t = Vector2D { x: (transform.x + offset) as isize, y: (transform.y + 2) as isize };
        let cb = current_branch && k - 1 == revisions[i].redo();
        let placed = before.update(c, FormattedRevision { transform: t, current_branch: cb });
        assert(children_laid_out(formatted, revisions, i, k, transform, current_branch) == laid_out(
            before,
            revisions,
            c,
            t,
            cb,
        ));
        assert(laid_out(before, revisions, c, t, cb) == children_laid_out(
            placed,
            revisions,
            c,
            child_count(revisions, c),
            t,
            cb,
        ));
        lemma_children_laid_out_frame(formatted, revisions, i, k - 1, transform, current_branch, i);
        if subtree_nodes(revisions, i, k - 1).contains(j) {
            lemma_children_laid_out_branch(formatted, revisions, i, k - 1, transform, current_branch, j);
            lemma_subtrees_apart(revisions, i, k);
            lemma_children_laid_out_frame(placed, revisions, c, child_count(revisions, c), t, cb, j);
        } else {
            lemma_children_laid_out_frame(formatted, revisions, i, k - 1, transform, current_branch, j);
            lemma_branch_through(revisions, i, k - 1, j);
            assert(is_redo_child(revisions, i, c) == (k - 1 == revisions[i].redo())) by {
                if is_redo_child(revisions, i, c) && k - 1 != revisions[i].redo() {
                    let r = revisions[i].redo() as int;
                    if r < k - 1 {
                        assert(revisions[i].child_refs()[r].index < revisions[i].child_refs()[k
                            - 1].index);
                    } else {
                        assert(revisions[i].child_refs()[k - 1].index < revisions[i].child_refs()[r].index);
                    }
                }
            }
            if j == c {
                lemma_children_laid_out_frame(placed, revisions, c, child_count(revisions, c), t, cb, j);
            } else {
                lemma_children_laid_out_branch(placed, revisions, c, child_count(revisions, c), t, cb, j);
            }
        }
    }
}

/// On a well-formed tree, redo goes down from the root to a revision exactly
/// where the revision is on the redo path.
proof fn lemma_branch_from_root(revisions: Seq<Revision>, j: int)
    requires
        linked(revisions),
        0 < revisions.len(),
        subtree_nodes(revisions, 0, child_count(revisions, 0)).contains(j),
    ensures
        branch_from(revisions, 0, j) == on_redo_path(revisions, j),
    decreases j,
{
    lemma_subtree_nodes_range(revisions, 0, child_count(revisions, 0));
    if j == 0 {
        if revisions[0].parent is Some {
            assert(revisions[0].parent->0.index < 0);
        }
    } else {
        lemma_parent_in_subtree(revisions, 0, child_count(revisions, 0), j);
        lemma_branch_from_root(revisions, revisions[j].parent->0.index as int);
    }
}

/// Every revision of a well-formed tree is in the subtree of the root.
proof fn lemma_all_below_root(tree: EditTree, j: int)
    requires
        tree.wf(),
        0 <= j < tree.revision_count(),
    ensures
        subtree_nodes(tree.revisions@, 0, child_count(tree.revisions@, 0)).contains(j),
    decreases j,
{
    let revs = tree.revisions@;
    lemma_subtree_nodes_range(revs, 0, child_count(revs, 0));
    if j > 0 {
        assert(listed(revs, j));
        let p = revs[j].parent->0.index as int;
        let k = choose|k: int|
            0 <= k < revs[p].child_refs().len() && #[trigger] revs[p].child_refs()[k].index == j;
        lemma_all_below_root(tree, p);
        lemma_subtree_nodes_within(revs, 0, p);
        lemma_subtree_nodes_range(revs, j, child_count(revs, j));
        assert(child_at(revs, p, k) == j);
        assert(subtree_nodes(revs, p, k + 1).contains(j));
        lemma_subtree_nodes_grow(revs, p, k + 1, child_count(revs, p));
    }
}

/// In the drawing of the subtrees of the first `k` children of revision `i`
/// at `transform`, the `m`-th child of a revision in them is drawn two rows
/// below that revision (below `transform` for `i` itself).
proof fn lemma_children_laid_out_rows(
    formatted: Seq<FormattedRevision>,
    revisions: Seq<Revision>,
    i: int,
    k: int,
    transform: Vector2D,
    current_branch: bool,
    x: int,
    m: int,
)
    requires
        linked(revisions),
        0 <= i < revisions.len(),
        0 <= k <= child_count(revisions, i),
        revisions.len() <= formatted.len(),
        transform.y + 2 * children_height(revisions, i, k) <= isize::MAX,
        subtree_nodes(revisions, i, k).contains(x),
        0 <= m < child_count(revisions, x),
        x == i ==> m < k,
    ensures
        ({
            let drawn = children_laid_out(formatted, revisions, i, k, transform, current_branch);
            let c = child_at(revisions, x, m);
            drawn[c].transform.y == (if x == i {
                transform.y as int
            } else {
                drawn[x].transform.y as int
            }) + 2
        }),
    decreases revisions.len() - i, k,
{
    let c = child_at(revisions, x, m);
    lemma_subtree_nodes_range(revisions, i, k);
    assert(0 <= x < revisions.len());
    assert(links_back(revisions, x, revisions[x].child_refs()[m]));
    if k > 0 {
        let before = children_laid_out(formatted, revisions, i, k - 1, transform, current_branch);
        let last = child_at(revisions, i, k - 1);
        assert(links_back(revisions, i, revisions[i].child_refs()[k - 1]));
        lemma_subtree_nodes_range(revisions, i, k - 1);
        lemma_subtree_nodes_range(revisions, last, child_count(revisions, last));
        lemma_children_height_grows(revisions, i, k - 1, k);
        lemma_children_laid_out_frame(formatted, revisions, i, k - 1, transform, current_branch, i);
        let offset = children_width(revisions, i, k - 1) + if k > 1 {
            8int
        } else {
            0int
        };
        let t = Vector2D { x: (transform.x + offset) as isize, y: (transform.y + 2) as isize };
        let cb = current_branch && k - 1 == revisions[i].redo();
        let placed = before.update(last, FormattedRevision { transform: t, current_branch: cb });
        assert(children_laid_out(formatted, revisions, i, k, transform, current_branch) == laid_out(
            before,
            revisions,
            last,
            t,
            cb,
        ));
        assert(laid_out(before, revisions, last, t, cb) == children_laid_out(
            placed,
            revisions,
            last,
            child_count(revisions, last),
            t,
            cb,
        ));
        let n_last = child_count(revisions, last);
        lemma_subtrees_apart(revisions, i, k);
        lemma_children_height_grows(revisions, last, 0, n_last);
        if x == i && m == k - 1 {
            lemma_children_laid_out_frame(placed, revisions, last, n_last, t, cb, last);
        } else if (x == i && m < k - 1) || (x != i && subtree_nodes(revisions, i, k - 1).contains(x)) {
            lemma_children_laid_out_rows(formatted, revisions, i, k - 1, transform, current_branch, x, m);
            if x == i {
                assert(revisions[i].child_refs()[m].index < revisions[i].child_refs()[k - 1].index);
                assert(c == child_at(revisions, i, m));
                lemma_subtree_nodes_range(revisions, c, child_count(revisions, c));
                assert(subtree_nodes(revisions, i, m + 1).contains(c));
                lemma_subtree_nodes_grow(revisions, i, m + 1, k - 1);
            } else {
                let mm = lemma_subtree_member(revisions, i, k - 1, x);
                let cm = child_at(revisions, i, mm);
                lemma_subtree_nodes_within(revisions, cm, x);
                lemma_subtree_nodes_range(revisions, x, child_count(revisions, x));
                lemma_subtree_nodes_range(revisions, c, child_count(revisions, c));
                assert(subtree_nodes(revisions, x, m + 1).contains(c));
                lemma_subtree_nodes_grow(revisions, x, m + 1, child_count(revisions, x));
                lemma_subtree_nodes_grow(revisions, i, mm + 1, k - 1);
                lemma_children_laid_out_frame(placed, revisions, last, n_last, t, cb, x);
            }
            lemma_children_laid_out_frame(placed, revisions, last, n_last, t, cb, c);
        } else {
            assert(subtree_nodes(revisions, last, n_last).contains(x));
            lemma_children_laid_out_rows(placed, revisions, last, n_last, t, cb, x, m);
            if x == last {
                lemma_children_laid_out_frame(placed, revisions, last, n_last, t, cb, last);
            }
        }
    } else {
        assert(x == i);
    }
}

/// In the drawing of the subtrees of the first `k` children of revision `i`
/// at `transform`, the `m`-th child of a revision in them is drawn right of
/// that revision (of `transform` for `i` itself) by the width of the
/// subtrees of its earlier siblings and eight columns after each of them.
proof fn lemma_children_laid_out_columns(
    formatted: Seq<FormattedRevision>,
    revisions: Seq<Revision>,
    i: int,
    k: int,
    transform: Vector2D,
    current_branch: bool,
    x: int,
    m: int,
)
    requires
        linked(revisions),
        0 <= i < revisions.len(),
        0 <= k <= child_count(revisions, i),
        revisions.len() <= formatted.len(),
        transform.x + children_width(revisions, i, k) <= isize::MAX,
        subtree_nodes(revisions, i, k).contains(x),
        0 <= m < child_count(revisions, x),
        x == i ==> m < k,
    ensures
        ({
            let drawn = children_laid_out(formatted, revisions, i, k, transform, current_branch);
            let c = child_at(revisions, x, m);
            drawn[c].transform.x == (if x == i {
                transform.x as int
            } else {
                drawn[x].transform.x as int
            }) + children_width(revisions, x, m) + if m > 0 {
                8int
            } else {
                0int
            }
        }),
    decreases revisions.len() - i, k,
{
    let c = child_at(revisions, x, m);
    lemma_subtree_nodes_range(revisions, i, k);
    assert(0 <= x < revisions.len());
    assert(links_back(revisions, x, revisions[x].child_refs()[m]));
    if k > 0 {
        let before = children_laid_out(formatted, revisions, i, k - 1, transform, current_branch);
        let last = child_at(revisions, i, k - 1);
        assert(links_back(revisions, i, revisions[i].child_refs()[k - 1]));
        lemma_subtree_nodes_range(revisions, i, k - 1);
        lemma_subtree_nodes_range(revisions, last, child_count(revisions, last));
        lemma_children_width_grows(revisions, i, k - 1, k);
        lemma_children_width_grows(revisions, last, 0, child_count(revisions, last));
        lemma_children_laid_out_frame(formatted, revisions, i, k - 1, transform, current_branch, i);
        let offset = children_width(revisions, i, k - 1) + if k > 1 {
            8int
        } else {
            0int
        };
        let t = Vector2D { x: (transform.x + offset) as isize, y: (transform.y + 2) as isize };
        let cb = current_branch && k - 1 == revisions[i].redo();
        let placed = before.update(last, FormattedRevision { transform: t, current_branch: cb });
        assert(children_laid_out(formatted, revisions, i, k, transform, current_branch) == laid_out(
            before,
            revisions,
            last,
            t,
            cb,
        ));
        assert(laid_out(before, revisions, last, t, cb) == children_laid_out(
            placed,
            revisions,
            last,
            child_count(revisions, last),
            t,
            cb,
        ));
        let n_last = child_count(revisions, last);
        lemma_subtrees_apart(revisions, i, k);
        if x == i && m == k - 1 {
            lemma_children_laid_out_frame(placed, revisions, last, n_last, t, cb, last);
        } else if (x == i && m < k - 1) || (x != i && subtree_nodes(revisions, i, k - 1).contains(x)) {
            lemma_children_laid_out_columns(formatted, revisions, i, k - 1, transform, current_branch, x, m);
            if x == i {
                assert(revisions[i].child_refs()[m].index < revisions[i].child_refs()[k - 1].index);
                assert(c == child_at(revisions, i, m));
                lemma_subtree_nodes_range(revisions, c, child_count(revisions, c));
                assert(subtree_nodes(revisions, i, m + 1).contains(c));
                lemma_subtree_nodes_grow(revisions, i, m + 1, k - 1);
            } else {
                let mm = lemma_subtree_member(revisions, i, k - 1, x);
                let cm = child_at(revisions, i, mm);
                lemma_subtree_nodes_within(revisions, cm, x);
                lemma_subtree_nodes_range(revisions, x, child_count(revisions, x));
                lemma_subtree_nodes_range(revisions, c, child_count(revisions, c));
                assert(subtree_nodes(revisions, x, m + 1).contains(c));
                lemma_subtree_nodes_grow(revisions, x, m + 1, child_count(revisions, x));
                lemma_subtree_nodes_grow(revisions, i, mm + 1, k - 1);
                lemma_children_laid_out_frame(placed, revisions, last, n_last, t, cb, x);
            }
            lemma_children_laid_out_frame(placed, revisions, last, n_last, t, cb, c);
        } else {
            assert(subtree_nodes(revisions, last, n_last).contains(x));
            lemma_children_laid_out_columns(placed, revisions, last, n_last, t, cb, x, m);
            if x == last {
                lemma_children_laid_out_frame(placed, revisions, last, n_last, t, cb, last);
            }
        }
    } else {
        assert(x == i);
    }
}

/// In the drawing of the subtrees of the first `k` children of revision `i`
/// at `transform`, the revisions below a revision `y` in them are drawn
/// within the width of `y`'s subtree from `y`'s column (within the width of
/// those `k` subtrees from `transform` for `i` itself).
proof fn lemma_children_laid_out_span(
    formatted: Seq<FormattedRevision>,
    revisions: Seq<Revision>,
    i: int,
    k: int,
    transform: Vector2D,
    current_branch: bool,
    y: int,
    j: int,
)
    requires
        linked(revisions),
        0 <= i < revisions.len(),
        0 <= k <= child_count(revisions, i),
        revisions.len() <= formatted.len(),
        transform.x + children_width(revisions, i, k) <= isize::MAX,
        subtree_nodes(revisions, i, k).contains(y),
        y == i ==> subtree_nodes(revisions, i, k).contains(j) && j != i,
        y != i ==> subtree_nodes(revisions, y, child_count(revisions, y)).contains(j),
    ensures
        ({
            let drawn = children_laid_out(formatted, revisions, i, k, transform, current_branch);
            let base = if y == i {
                transform.x as int
            } else {
                drawn[y].transform.x as int
            };
            let span = if y == i {
                children_width(revisions, i, k)
            } else {
                subtree_width(revisions, y)
            };
            base <= drawn[j].transform.x <= base + span
        }),
    decreases revisions.len() - i, k,
{
    lemma_subtree_nodes_range(revisions, i, k);
    assert(0 <= y < revisions.len());
    lemma_subtree_nodes_range(revisions, y, child_count(revisions, y));
    lemma_children_width_grows(revisions, y, 0, child_count(revisions, y));
    if k == 0 {
        assert(y == i);
        assert(j == i);
    } else {
        let before = children_laid_out(formatted, revisions, i, k - 1, transform, current_branch);
        let last = child_at(revisions, i, k - 1);
        assert(links_back(revisions, i, revisions[i].child_refs()[k - 1]));
        lemma_subtree_nodes_range(revisions, i, k - 1);
        lemma_subtree_nodes_range(revisions, last, child_count(revisions, last));
        lemma_children_width_grows(revisions, i, k - 1, k);
        lemma_children_width_grows(revisions, last, 0, child_count(revisions, last));
        lemma_children_laid_out_frame(formatted, revisions, i, k - 1, transform, current_branch, i);
        let offset = children_width(revisions, i, k - 1) + if k > 1 {
            8int
        } else {
            0int
        };
        let t = Vector2D { x: (transform.x + offset) as isize, y: (transform.y + 2) as isize };
        let cb = current_branch && k - 1 == revisions[i].redo();
        let placed = before.update(last, FormattedRevision { transform: t, current_branch: cb });
        assert(children_laid_out(formatted, revisions, i, k, transform, current_branch) == laid_out(
            before,
            revisions,
            last,
            t,
            cb,
        ));
        assert(laid_out(before, revisions, last, t, cb) == children_laid_out(
            placed,
            revisions,
            last,
            child_count(revisions, last),
            t,
            cb,
        ));
        let n_last = child_count(revisions, last);
        lemma_subtrees_apart(revisions, i, k);
        if y == i {
            if subtree_nodes(revisions, i, k - 1).contains(j) {
                lemma_children_laid_out_span(formatted, revisions, i, k - 1, transform, current_branch, i, j);
                lemma_children_laid_out_frame(placed, revisions, last, n_last, t, cb, j);
            } else if j == last {
                lemma_children_laid_out_frame(placed, revisions, last, n_last, t, cb, last);
            } else {
                lemma_children_laid_out_span(placed, revisions, last, n_last, t, cb, last, j);
            }
        } else if subtree_nodes(revisions, i, k - 1).contains(y) {
            let mm = lemma_subtree_member(revisions, i, k - 1, y);
            let cm = child_at(revisions, i, mm);
            lemma_subtree_nodes_within(revisions, cm, y);
            lemma_subtree_nodes_grow(revisions, i, mm + 1, k - 1);
            lemma_subtree_nodes_range(revisions, cm, child_count(revisions, cm));
            assert(subtree_nodes(revisions, i, mm + 1).contains(j));
            lemma_children_laid_out_span(formatted, revisions, i, k - 1, transform, current_branch, y, j);
            lemma_children_laid_out_frame(placed, revisions, last, n_last, t, cb, y);
            lemma_children_laid_out_frame(placed, revisions, last, n_last, t, cb, j);
        } else {
            assert(subtree_nodes(revisions, last, n_last).contains(y));
            lemma_subtree_nodes_within(revisions, last, y);
            if y == last {
                lemma_children_laid_out_frame(placed, revisions, last, n_last, t, cb, last);
                if j != last {
                    lemma_children_laid_out_span(placed, revisions, last, n_last, t, cb, last, j);
                }
            } else {
                lemma_children_laid_out_span(placed, revisions, last, n_last, t, cb, y, j);
            }
        }
    }
}

/// Revision `j` is `c` or lies below it: going up the parent links from
/// `j` reaches `c`.
pub closed spec fn descends(revisions: Seq<Revision>, j: int, c: int) -> bool {
    exists|d: nat| ancestor(revisions, j, d) == c
}

proof fn lemma_ancestor_in_range(revisions: Seq<Revision>, j: int, d: nat)
    requires
        linked(revisions),
        0 <= j < revisions.len(),
    ensures
        0 <= ancestor(revisions, j, d) <= j,
    decreases d,
{
    lemma_ancestor_below(revisions, j, d);
    if d > 0 {
        lemma_ancestor_in_range(revisions, j, (d - 1) as nat);
    }
}

/// A revision reached from `j` up the parent links has `j` in its subtree.
proof fn lemma_ancestor_subtree(tree: EditTree, j: int, d: nat)
    requires
        tree.wf(),
        0 <= j < tree.revisions@.len(),
    ensures
        subtree_nodes(
            tree.revisions@,
            ancestor(tree.revisions@, j, d),
            child_count(tree.revisions@, ancestor(tree.revisions@, j, d)),
        ).contains(j),
    decreases d,
{
    let revs = tree.revisions@;
    lemma_ancestor_in_range(revs, j, d);
    let c = ancestor(revs, j, d);
    if d == 0 {
        lemma_subtree_nodes_range(revs, j, child_count(revs, j));
    } else {
        let y = ancestor(revs, j, (d - 1) as nat);
        lemma_ancestor_subtree(tree, j, (d - 1) as nat);
        lemma_ancestor_in_range(revs, j, (d - 1) as nat);
        if y != c {
            assert(revs[y].parent is Some);
            if y == 0 {
                assert(revs[0].parent->0.index < 0);
            }
            assert(listed(revs, y));
            let k = choose|k: int|
                0 <= k < revs[c].child_refs().len() && #[trigger] revs[c].child_refs()[k].index == y;
            lemma_subtree_nodes_range(revs, y, child_count(revs, y));
            assert(child_at(revs, c, k) == y);
            assert(subtree_nodes(revs, c, k + 1).contains(y));
            lemma_subtree_nodes_grow(revs, c, k + 1, child_count(revs, c));
            lemma_subtree_nodes_within(revs, c, y);
        }
    }
}

/// In the drawing of a tree, the subtrees of two children of a revision lie
/// apart, left to right: every revision at or below an earlier child is
/// drawn at least eight columns left of a later child, and no revision below
/// a child is drawn left of it.
pub proof fn lemma_drawn_siblings_apart(tree: EditTree, x: int, m1: int, m2: int, j: int)
    requires
        tree.wf(),
        8 * tree.revision_count() <= isize::MAX,
        0 <= x < tree.revision_count(),
        0 <= m1 < m2 < tree.revision(x).child_refs().len(),
        0 <= j < tree.revision_count(),
        descends(tree.revision_list(), j, tree.revision(x).child_refs()[m1].target() as int),
    ensures
        tree.drawing()[j].transform.x + 8 <= tree.drawing()[tree.revision(x).child_refs()[m2].target() as int].transform.x,
        tree.drawing()[tree.revision(x).child_refs()[m1].target() as int].transform.x <= tree.drawing()[j].transform.x,
{
    let revs = tree.revisions@;
    let n = revs.len();
    let origin = Vector2D { x: 0, y: 0 };
    let placed = blank_drawing(n).update(0, FormattedRevision { transform: origin, current_branch: true });
    let n0 = child_count(revs, 0);
    let c1 = child_at(revs, x, m1);
    let c2 = child_at(revs, x, m2);
    assert(links_back(revs, x, revs[x].child_refs()[m1]));
    assert(links_back(revs, x, revs[x].child_refs()[m2]));
    let d = choose|d: nat| ancestor(revs, j, d) == c1;
    lemma_ancestor_subtree(tree, j, d);
    lemma_children_width_bound(revs, 0, n0);
    lemma_subtree_nodes_range(revs, 0, n0);
    vstd::set_lib::lemma_int_range(0, n as int);
    vstd::set_lib::lemma_len_subset(
        subtree_nodes(revs, 0, n0),
        vstd::set_lib::set_int_range(0, n as int),
    );
    lemma_children_laid_out_frame(placed, revs, 0, n0, origin, true, 0);
    lemma_all_below_root(tree, x);
    lemma_all_below_root(tree, c1);
    lemma_children_laid_out_columns(placed, revs, 0, n0, origin, true, x, m1);
    lemma_children_laid_out_columns(placed, revs, 0, n0, origin, true, x, m2);
    lemma_children_laid_out_span(placed, revs, 0, n0, origin, true, c1, j);
    lemma_children_width_grows(revs, x, m1, m1 + 1);
    lemma_children_width_grows(revs, x, m1 + 1, m2);
}

/// In the drawing of a tree, the root is at the origin and every other
/// revision is two rows below its parent.
pub proof fn lemma_drawn_below_parent(tree: EditTree, j: int)
    requires
        tree.wf(),
        8 * tree.revision_count() <= isize::MAX,
        0 < j < tree.revision_count(),
    ensures
        tree.drawing()[0].transform == (Vector2D { x: 0, y: 0 }),
        tree.revision(j).parent_ref() matches Some(p) && tree.drawing()[j].transform.y
            == tree.drawing()[p.target() as int].transform.y + 2,
{
    let revs = tree.revisions@;
    let n = revs.len();
    let origin = Vector2D { x: 0, y: 0 };
    let placed = blank_drawing(n).update(0, FormattedRevision { transform: origin, current_branch: true });
    lemma_children_laid_out_frame(placed, revs, 0, child_count(revs, 0), origin, true, 0);
    assert(listed(revs, j));
    let p = revs[j].parent->0.index as int;
    let m = choose|k: int|
        0 <= k < revs[p].child_refs().len() && #[trigger] revs[p].child_refs()[k].index == j;
    lemma_all_below_root(tree, p);
    lemma_children_height_bound(revs, 0, child_count(revs, 0));
    lemma_children_laid_out_rows(placed, revs, 0, child_count(revs, 0), origin, true, p, m);
}

/// In the drawing of a tree, the revisions on the current branch are those
/// on the redo path: from the root down to each of them, every revision is
/// the child that redo goes to from its parent. The head is among them.
pub proof fn lemma_drawn_branch_is_redo_path(tree: EditTree, j: int)
    requires
        tree.wf(),
        0 <= j < tree.revision_count(),
    ensures
        tree.drawing()[j].current_branch == on_redo_path(tree.revision_list(), j),
        tree.drawing()[tree.head() as int].current_branch,
{
    let revs = tree.revisions@;
    let n = revs.len();
    let origin = Vector2D { x: 0, y: 0 };
    let placed = blank_drawing(n).update(0, FormattedRevision { transform: origin, current_branch: true });
    assert forall|x: int| 0 <= x < n implies #[trigger] tree.drawing()[x].current_branch
        == on_redo_path(revs, x) by {
        lemma_all_below_root(tree, x);
        if x == 0 {
            lemma_children_laid_out_frame(placed, revs, 0, child_count(revs, 0), origin, true, 0);
            lemma_branch_from_root(revs, 0);
        } else {
            lemma_children_laid_out_branch(placed, revs, 0, child_count(revs, 0), origin, true, x);
            lemma_branch_from_root(revs, x);
        }
    }
}

/// Undoing right after a revision was made goes back to the revision that was
/// the head before: its text is staged again, and the diffs that come out are
/// the new revision's diffs reversed, with the cursor saved there.
pub proof fn lemma_undo_reverts_revision(
    before: EditTree,
    made: EditTree,
    diffs: Seq<OpaqueDiff>,
    cursor: Cursor,
    undone: EditTree,
    result: Option<(CompoundDiff, Cursor)>,
)
    requires
        before.wf(),
        made.made_revision(before, diffs, cursor),
        undone.undid(made, result),
    ensures
        undone.head() == before.head(),
        undone.staged_text() == before.head_revision().text_chars(),
        !undone.has_changes(),
        result matches Some((diff, saved)) && diff.diffs() == reversed_diffs(diffs) && saved
            == before.head_revision().saved_cursor(),
{
}

/// An undo after any history leaves the root as it is and gives nothing
/// there; from any other head it goes to the head's parent, stages the
/// parent's text, and gives the reverse of the diffs that made the head from
/// the parent, with the cursor saved with the parent.
pub proof fn lemma_undo_reverses_head_diffs(
    tree: EditTree,
    undone: EditTree,
    result: Option<(CompoundDiff, Cursor)>,
)
    requires
        tree.wf(),
        undone.undid(tree, result),
    ensures
        tree.head() == 0 ==> result is None && undone.head() == 0 && undone.staged_text()
            == tree.staged_text(),
        tree.head() > 0 ==> (tree.head_revision().parent_ref() matches Some(parent) && ({
            let p = parent.target() as int;
            &&& exists|k: int|
                0 <= k < tree.revision(p).child_refs().len()
                    && #[trigger] tree.revision(p).child_refs()[k].target() == tree.head()
                    && (result matches Some((diff, cursor)) && diff.diffs() == reversed_diffs(
                    tree.revision(p).child_refs()[k].diffs(),
                ) && cursor == tree.revision(p).saved_cursor())
            &&& undone.head() == p
            &&& undone.staged_text() == tree.revision(p).text_chars()
        })),
{
    let revs = tree.revisions@;
    let h = tree.head_index as int;
    if h == 0 {
        if revs[0].parent is Some {
            assert(revs[0].parent->0.index < 0);
        }
    } else {
        assert(listed(revs, h));
        let p = revs[h].parent->0.index as int;
        let k = choose|k: int|
            0 <= k < revs[p].child_refs().len() && #[trigger] revs[p].child_refs()[k].index == h;
        assert(links_back(revs, p, revs[p].child_refs()[k]));
        assert(tree.revision(p).child_refs()[k].target() == tree.head());
    }
}

/// Redo right after a successful undo comes back to the revision that was
/// the head: its text is staged, and the cursor saved there comes out with
/// the diffs from its parent to it.
pub proof fn lemma_redo_after_undo(
    tree: EditTree,
    undone: EditTree,
    undo_result: Option<(CompoundDiff, Cursor)>,
    redone: EditTree,
    redo_result: Option<(CompoundDiff, Cursor)>,
)
    requires
        tree.wf(),
        undone.undid(tree, undo_result),
        undo_result is Some,
        redone.redid(undone, redo_result),
    ensures
        redone.head() == tree.head(),
        redone.staged_text() == tree.head_revision().text_chars(),
        forall|i: int| #[trigger] redone.revision(i) == tree.revision(i),
        redo_result matches Some((_, saved)) && saved == tree.head_revision().saved_cursor(),
{
    let h = tree.head_index as int;
    let p = tree.revisions@[h].parent->0.index as int;
    assert(on_redo_path(tree.revisions@, h));
    assert(undone.head_revision() == tree.revisions@[p]);
}

/// Undo right after a successful redo comes back to the revision that was
/// the head, whose text is staged again.
pub proof fn lemma_undo_after_redo(
    tree: EditTree,
    redone: EditTree,
    redo_result: Option<(CompoundDiff, Cursor)>,
    undone: EditTree,
    undo_result: Option<(CompoundDiff, Cursor)>,
)
    requires
        tree.wf(),
        redone.redid(tree, redo_result),
        redo_result is Some,
        undone.undid(redone, undo_result),
    ensures
        undone.head() == tree.head(),
        undone.staged_text() == tree.head_revision().text_chars(),
        forall|i: int| #[trigger] undone.revision(i) == tree.revision(i),
        undo_result matches Some((_, saved)) && saved == tree.head_revision().saved_cursor(),
{
    let h = tree.head_index as int;
    let k = tree.revisions@[h].redo_index as int;
    let child = tree.revisions@[h].child_refs()[k];
    assert(links_back(tree.revisions@, h, child));
    assert(redone.head_revision() == tree.revisions@[child.index as int]);
}


/// Whether a revision was made from a tree depends only on that tree's
/// revisions and head.
pub proof fn lemma_made_revision_from_same(
    after: EditTree,
    a: EditTree,
    b: EditTree,
    staged: Seq<char>,
    diffs: Seq<OpaqueDiff>,
    cursor: Cursor,
)
    requires
        a.revision_count() == b.revision_count(),
        a.head() == b.head(),
        forall|i: int| #[trigger] a.revision(i) == b.revision(i),
    ensures
        after.made_revision_from(a, staged, diffs, cursor) == after.made_revision_from(
            b,
            staged,
            diffs,
            cursor,
        ),
{
    assert(a.revision(a.head() as int) == b.revision(b.head() as int));
}

} // verus!
