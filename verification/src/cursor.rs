//! Cursors: a position in a rope, an optional linear selection and an optional
//! rectangle selection, with the edits that a cursor performs.
use vstd::prelude::*;
use ropey::Rope;
use std::ops::Range;

use crate::diff::{DeleteOperation, OpaqueDiff};
use crate::graphemes::{
    column_bound, lemma_column_bound_subrange, next_boundary_n, prev_boundary_n, text_width, width,
    CharIndex, LineIndex, RopeExt,
};
use crate::movement::{self, horizontal_target, Direction};
use crate::text::{
    byte_offset, lemma_byte_offset_bounds, lemma_byte_offset_prefix, lemma_byte_offset_split,
    lemma_line_of_char_monotonic, lemma_line_start, lemma_line_start_le,
    lemma_line_start_monotonic, lemma_utf8_len_append, line_count, line_of_char, line_start,
    rope_char_to_byte, rope_char_to_line, rope_insert_char, rope_len_chars, rope_len_lines,
    rope_line, rope_line_to_char, rope_remove, rope_slice, rope_text, slice_len_chars,
    slice_text, slice_to_rope, utf8_len, char_utf8_len, char_len_utf8, lemma_byte_offset_monotonic,
};

verus! {

/// `Range::clone` (derived by std): each bound is cloned.
pub assume_specification<Idx: Clone>[ <Range<Idx> as Clone>::clone ](range: &Range<Idx>) -> (copy:
    Range<Idx>)
    ensures
        cloned::<Idx>(range.start, copy.start),
        cloned::<Idx>(range.end, copy.end),
;

/// Rectangle selection state: (line range) x (visual column range).
///
/// `line_range` is inclusive on both ends (start..=end).
/// `column_range` is half-open: `[left, right)` in visual columns.
/// Width-0 rectangle: `left == right` (valid selection, no-op for copy/cut).
/// Anchor is the fixed corner; the cursor is the moving diagonal.
#[derive(Clone, Copy, Debug, PartialEq, Eq, Structural)]
pub struct RectangleSelection {
    pub anchor_line: LineIndex,
    pub anchor_column: usize,
    pub line_start: LineIndex,
    pub line_end: LineIndex,
    pub column_left: usize,
    pub column_right: usize,
}

pub open spec fn min_nat(a: int, b: int) -> int {
    if a <= b {
        a
    } else {
        b
    }
}

pub open spec fn max_nat(a: int, b: int) -> int {
    if a >= b {
        a
    } else {
        b
    }
}

impl RectangleSelection {
    /// The rectangle spans the lines and columns between its anchor and
    /// the diagonal corner: lines `line_start..=line_end`, columns
    /// `column_left..column_right`.
    pub open spec fn spans(&self, diagonal_line: int, diagonal_column: int) -> bool {
        &&& self.line_start == min_nat(self.anchor_line as int, diagonal_line)
        &&& self.line_end == max_nat(self.anchor_line as int, diagonal_line)
        &&& self.column_left == min_nat(self.anchor_column as int, diagonal_column)
        &&& self.column_right == max_nat(self.anchor_column as int, diagonal_column)
    }

    pub fn new(anchor_line: LineIndex, anchor_column: usize) -> (rect: Self)
        ensures
            rect.anchor_line == anchor_line,
            rect.anchor_column == anchor_column,
            rect.spans(anchor_line as int, anchor_column as int),
    {
        Self {
            anchor_line,
            anchor_column,
            line_start: anchor_line,
            line_end: anchor_line,
            column_left: anchor_column,
            column_right: anchor_column,
        }
    }

    /// Update the diagonal (cursor position) and re-normalize.
    pub fn update_diagonal(&mut self, cursor_line: LineIndex, cursor_column: usize)
        ensures
            final(self).anchor_line == old(self).anchor_line,
            final(self).anchor_column == old(self).anchor_column,
            final(self).spans(cursor_line as int, cursor_column as int),
    {
        self.line_start = if self.anchor_line <= cursor_line {
            self.anchor_line
        } else {
            cursor_line
        };
        self.line_end = if self.anchor_line >= cursor_line {
            self.anchor_line
        } else {
            cursor_line
        };
        self.column_left = if self.anchor_column <= cursor_column {
            self.anchor_column
        } else {
            cursor_column
        };
        self.column_right = if self.anchor_column >= cursor_column {
            self.anchor_column
        } else {
            cursor_column
        };
    }

    /// Whether this rectangle has zero width (column_left == column_right).
    pub fn is_zero_width(&self) -> (b: bool)
        ensures
            b == (self.column_left == self.column_right),
    {
        self.column_left == self.column_right
    }
}

/// A `Cursor` represents a user cursor associated with a text buffer.
///
/// `Cursor`s consist of a location in a `Rope` and optionally a selection and
/// desired visual offset.
#[derive(Clone, Debug, PartialEq)]
pub struct Cursor {
    /// The cursor position represented as the index of the gap between two adjacent
    /// characters inside a `Rope`.
    ///
    /// For a rope of length len, the valid range is 0..=length. The position is
    /// aligned to extended grapheme clusters and will never index a gap inside
    /// a grapheme.
    pub range: Range<CharIndex>,
    /// The start of a selection if in select mode, ending at `range.start` or
    /// `range.end`, depending on direction. Aligned to extended grapheme
    /// clusters.
    pub selection: Option<CharIndex>,
    pub visual_horizontal_offset: Option<usize>,
    /// Rectangle selection state. It excludes a linear selection: when
    /// `rectangle_selection` is Some, `selection` is None.
    pub rectangle_selection: Option<RectangleSelection>,
}

/// A cursor on `start..end` with no selection and no remembered column.
pub open spec fn plain_cursor(start: int, end: int) -> Cursor {
    Cursor {
        range: Range { start: start as usize, end: end as usize },
        selection: None,
        visual_horizontal_offset: None,
        rectangle_selection: None,
    }
}

/// The rectangle with the given anchor whose diagonal corner is at
/// (`line`, `column`).
pub open spec fn rectangle_to(anchor_line: int, anchor_column: int, line: int, column: int) -> RectangleSelection {
    RectangleSelection {
        anchor_line: anchor_line as usize,
        anchor_column: anchor_column as usize,
        line_start: min_nat(anchor_line, line) as usize,
        line_end: max_nat(anchor_line, line) as usize,
        column_left: min_nat(anchor_column, column) as usize,
        column_right: max_nat(anchor_column, column) as usize,
    }
}

/// The next grapheme boundary after char `i`.
pub open spec fn boundary_after(text: Seq<char>, i: int) -> nat {
    next_boundary_n(text, i, 1)
}

/// The previous grapheme boundary before char `i`.
pub open spec fn boundary_before(text: Seq<char>, i: int) -> nat {
    prev_boundary_n(text, i, 1)
}

/// Number of chars of `text` after the end of `diff`'s old range, as a
/// signed amount by which positions behind the diff move.
pub open spec fn length_change(diff: OpaqueDiff) -> int {
    diff.new_char_length - diff.old_char_length
}

impl Default for Cursor {
    fn default() -> (cursor: Self)
        ensures
            cursor.is_plain(0, 0),
    {
        Self::new()
    }
}

impl Cursor {
    /// The cursor lies inside `text`: its range, and the anchor of its
    /// selection, are positions of `text`.
    pub open spec fn valid_in(&self, text: Seq<char>) -> bool {
        &&& self.range.start <= self.range.end <= text.len()
        &&& (self.selection matches Some(anchor) ==> anchor <= text.len())
    }

    /// The cursor covers `start..end` and holds no selection or offset.
    pub open spec fn is_plain(&self, start: int, end: int) -> bool {
        &&& self.range.start == start
        &&& self.range.end == end
        &&& self.selection is None
        &&& self.visual_horizontal_offset is None
        &&& self.rectangle_selection is None
    }

    /// The cursor with its rectangle (if any) stretched to its current line
    /// and visual column.
    pub open spec fn with_diagonal(&self, tab_width: nat, text: Seq<char>) -> Self {
        match self.rectangle_selection {
            Some(rect) => Cursor {
                rectangle_selection: Some(
                    rectangle_to(
                        rect.anchor_line as int,
                        rect.anchor_column as int,
                        line_of_char(text, self.range.start as int) as int,
                        self.spec_column_offset(tab_width, text) as int,
                    ),
                ),
                ..*self
            },
            None => *self,
        }
    }

    /// The cursor in rectangle mode, anchored at its current line and visual
    /// column, without a linear selection.
    pub open spec fn with_rectangle_begun(&self, tab_width: nat, text: Seq<char>) -> Self {
        let line = line_of_char(text, self.range.start as int) as int;
        let column = self.spec_column_offset(tab_width, text) as int;
        Cursor {
            selection: None,
            rectangle_selection: Some(rectangle_to(line, column, line, column)),
            ..*self
        }
    }

    /// The cursor on the first grapheme with the whole text selected.
    pub open spec fn with_all_selected(&self, text: Seq<char>) -> Self {
        Cursor {
            range: Range { start: 0, end: boundary_after(text, 0) as usize },
            selection: Some(text.len() as usize),
            visual_horizontal_offset: None,
            rectangle_selection: None,
        }
    }

    /// The same cursor.
    pub fn copied(&self) -> (cursor: Self)
        ensures
            cursor == *self,
    {
        Cursor {
            range: self.range.start..self.range.end,
            selection: self.selection,
            visual_horizontal_offset: self.visual_horizontal_offset,
            rectangle_selection: self.rectangle_selection,
        }
    }

    pub fn new() -> (cursor: Self)
        ensures
            cursor.is_plain(0, 0),
    {
        Self {
            range: 0..0,
            selection: None,
            visual_horizontal_offset: None,
            rectangle_selection: None,
        }
    }

    pub fn with_range(range: Range<CharIndex>) -> (cursor: Self)
        ensures
            cursor.is_plain(range.start as int, range.end as int),
    {
        Self { range, selection: None, visual_horizontal_offset: None, rectangle_selection: None }
    }

    /// A cursor on the last grapheme of the text.
    pub fn end_of_buffer(text: &Rope) -> (cursor: Self)
        ensures
            cursor.is_plain(
                boundary_before(rope_text(*text), rope_text(*text).len() as int) as int,
                rope_text(*text).len() as int,
            ),
            cursor.valid_in(rope_text(*text)),
    {
        let len = rope_len_chars(text);
        Self {
            range: text.prev_grapheme_boundary(len)..len,
            visual_horizontal_offset: None,
            selection: None,
            rectangle_selection: None,
        }
    }

    pub fn is_empty(&self) -> (b: bool)
        ensures
            b == (self.range.start >= self.range.end),
    {
        !(self.range.start < self.range.end)
    }

    pub fn range(&self) -> (range: Range<CharIndex>)
        ensures
            range == self.range,
    {
        self.range.start..self.range.end
    }

    /// The selected range: between the selection's anchor and the cursor's
    /// start, or the cursor's own range when there is no selection (or the
    /// anchor is at the cursor's start).
    pub open spec fn selection_range(&self) -> (int, int) {
        match self.selection {
            Some(anchor) => if anchor > self.range.start {
                (self.range.start as int, anchor as int)
            } else if anchor < self.range.start {
                (anchor as int, self.range.start as int)
            } else {
                (self.range.start as int, self.range.end as int)
            },
            None => (self.range.start as int, self.range.end as int),
        }
    }

    pub fn selection(&self) -> (range: Range<CharIndex>)
        ensures
            range.start == self.selection_range().0,
            range.end == self.selection_range().1,
    {
        match self.selection {
            Some(selection) if selection > self.range.start => self.range.start..selection,
            Some(selection) if selection < self.range.start => selection..self.range.start,
            _ => self.range.start..self.range.end,
        }
    }

    /// The visual column of the cursor's start: the width of the text from
    /// the start of its line up to it.
    pub open spec fn spec_column_offset(&self, tab_width: nat, text: Seq<char>) -> nat {
        let line_start = line_start(text, line_of_char(text, self.range.start as int));
        text_width(tab_width, text.subrange(line_start as int, self.range.start as int))
    }

    pub fn column_offset(&self, tab_width: usize, text: &Rope) -> (offset: usize)
        requires
            self.range.start <= rope_text(*text).len(),
            column_bound(tab_width as nat, rope_text(*text)) <= usize::MAX,
        ensures
            offset == self.spec_column_offset(tab_width as nat, rope_text(*text)),
    {
        let ghost t = rope_text(*text);
        let line = rope_char_to_line(text, self.range.start);
        proof {
            lemma_line_start_le(t, self.range.start as int);
        }
        let char_line_start = rope_line_to_char(text, line);
        let prefix = rope_slice(text, char_line_start, self.range.start);
        proof {
            lemma_column_bound_subrange(tab_width as nat, t, char_line_start as int, self.range.start as int);
        }
        width(tab_width, &prefix)
    }

    /// The edit `diff` lies wholly before the cursor: the chars it replaced
    /// end at or before the cursor's start.
    pub open spec fn edit_before(&self, diff: OpaqueDiff) -> bool {
        diff.char_index + diff.old_char_length <= self.range.start
    }

    /// The cursor after the text was edited by `diff` (and is now `new_text`):
    /// an edit that starts at or after the cursor's end leaves it alone; an
    /// edit that lies wholly before the cursor moves it by the edit's change
    /// of length (not below 0); then the cursor is put on the grapheme that
    /// holds its end.
    pub open spec fn spec_reconcile(&self, new_text: Seq<char>, diff: OpaqueDiff) -> Self {
        if diff.char_index >= self.range.end {
            *self
        } else {
            let change = diff.new_char_length - diff.old_char_length;
            let end = if self.edit_before(diff) {
                max_nat(self.range.end + change, 0)
            } else {
                self.range.end as int
            };
            let start = boundary_before(new_text, min_nat(end, new_text.len() as int));
            Cursor {
                range: Range { start: start as usize, end: boundary_after(new_text, start as int) as usize },
                ..*self
            }
        }
    }

    /// Reconciling does not overflow: an edit before the cursor that grows
    /// the text leaves the moved cursor within `usize`.
    pub open spec fn reconcile_fits(&self, diff: OpaqueDiff) -> bool {
        (diff.char_index < self.range.end && self.edit_before(diff) && diff.old_char_length
            <= diff.new_char_length) ==> (self.range.start + (diff.new_char_length
            - diff.old_char_length) <= usize::MAX && self.range.end + (diff.new_char_length
            - diff.old_char_length) <= usize::MAX)
    }

    pub fn reconcile(&mut self, new_text: &Rope, diff: &OpaqueDiff)
        requires
            old(self).reconcile_fits(*diff),
        ensures
            *final(self) == old(self).spec_reconcile(rope_text(*new_text), *diff),
    {
        let char_index = diff.char_index;
        let old_char_length = diff.old_char_length;
        let new_char_length = diff.new_char_length;

        // The edit starts after the end of the cursor, nothing to do
        if char_index >= self.range.end {
            return;
        }
        // The edit ends before the start of the cursor
        if char_index <= self.range.start && old_char_length <= self.range.start - char_index {
            let (start, end) = (self.range.start, self.range.end);
            if old_char_length > new_char_length {
                let length_change = old_char_length - new_char_length;
                self.range = start.saturating_sub(length_change)..end.saturating_sub(
                    length_change,
                );
            } else {
                let length_change = new_char_length - old_char_length;
                self.range = start + length_change..end + length_change;
            };
        }
        // Otherwise, the change overlaps with the cursor

        let len = rope_len_chars(new_text);
        let grapheme_start = new_text.prev_grapheme_boundary(
            if self.range.end <= len {
                self.range.end
            } else {
                len
            },
        );
        let grapheme_end = new_text.next_grapheme_boundary(grapheme_start);
        self.range = grapheme_start..grapheme_end
    }

    /// Reconcile cursor position against a compound diff (multiple sub-diffs).
    /// Applies each sub-diff's effect in order. The sub-diffs should be
    /// provided in the order they were applied to the text (forward order).
    pub fn reconcile_compound(&mut self, new_text: &Rope, compound: &crate::diff::CompoundDiff)
        requires
            reconcile_all_fits(*old(self), rope_text(*new_text), compound.diffs()),
        ensures
            *final(self) == reconcile_all(*old(self), rope_text(*new_text), compound.diffs()),
    {
        let ghost t = rope_text(*new_text);
        let ghost start = *self;
        let mut i: usize = 0;
        assert(compound.diffs().skip(0) =~= compound.diffs());
        assert(compound.diffs().take(0) =~= Seq::<OpaqueDiff>::empty());
        while i < compound.0.len()
            invariant
                t == rope_text(*new_text),
                0 <= i <= compound.diffs().len(),
                *self == reconcile_all(start, t, compound.diffs().take(i as int)),
                reconcile_all_fits(*self, t, compound.diffs().skip(i as int)),
            decreases compound.diffs().len() - i,
        {
            let ghost before = *self;
            let diff = &compound.0[i];
            assert(compound.diffs().skip(i as int).drop_first() =~= compound.diffs().skip(i + 1));
            assert(compound.diffs().skip(i as int)[0] == compound.diffs()[i as int]);
            if !diff.is_empty() {
                self.reconcile(new_text, diff);
            }
            proof {
                lemma_reconcile_all_push(start, t, compound.diffs().take(i as int), *diff);
                assert(compound.diffs().take(i + 1) =~= compound.diffs().take(i as int).push(*diff));
            }
            i = i + 1;
        }
        assert(compound.diffs().take(compound.diffs().len() as int) =~= compound.diffs());
    }

    pub fn begin_selection(&mut self)
        ensures
            final(self).range == old(self).range,
            final(self).visual_horizontal_offset == old(self).visual_horizontal_offset,
            final(self).selection == Some(old(self).range.start),
            final(self).rectangle_selection is None,
    {
        self.rectangle_selection = None;
        self.selection = Some(self.range.start)
    }

    pub fn clear_selection(&mut self)
        ensures
            *final(self) == (Cursor { selection: None, ..*old(self) }),
    {
        self.selection = None;
    }

    pub fn select_all(&mut self, text: &Rope)
        ensures
            final(self).range.start == 0,
            final(self).range.end == boundary_after(rope_text(*text), 0),
            final(self).selection == Some(rope_text(*text).len() as usize),
            final(self).visual_horizontal_offset is None,
            final(self).rectangle_selection is None,
            final(self).valid_in(rope_text(*text)),
            *final(self) == old(self).with_all_selected(rope_text(*text)),
    {
        movement::move_to_start_of_buffer(text, self);
        self.selection = Some(rope_len_chars(text));
        self.rectangle_selection = None;
    }

    // Rectangle selection mode

    /// Enter rectangle selection mode. Current cursor position becomes the
    /// anchor. Clears any linear selection, which a rectangle excludes.
    pub fn begin_rectangle_selection(&mut self, text: &Rope, tab_width: usize)
        requires
            old(self).range.start <= rope_text(*text).len(),
            column_bound(tab_width as nat, rope_text(*text)) <= usize::MAX,
        ensures
            final(self).range == old(self).range,
            final(self).visual_horizontal_offset == old(self).visual_horizontal_offset,
            final(self).selection is None,
            final(self).rectangle_selection matches Some(rect) && {
                let line = line_of_char(rope_text(*text), old(self).range.start as int);
                let column = old(self).spec_column_offset(tab_width as nat, rope_text(*text));
                &&& rect.anchor_line == line
                &&& rect.anchor_column == column
                &&& rect.spans(line as int, column as int)
            },
            *final(self) == old(self).with_rectangle_begun(tab_width as nat, rope_text(*text)),
    {
        self.selection = None;
        let line = rope_char_to_line(text, self.range.start);
        let column = self.column_offset(tab_width, text);
        self.rectangle_selection = Some(RectangleSelection::new(line, column));
    }

    /// Update rectangle diagonal from current cursor position.
    /// Should be called after each cursor movement in rectangle mode.
    pub fn update_rectangle_diagonal(&mut self, text: &Rope, tab_width: usize)
        requires
            old(self).range.start <= rope_text(*text).len(),
            column_bound(tab_width as nat, rope_text(*text)) <= usize::MAX,
        ensures
            final(self).range == old(self).range,
            final(self).selection == old(self).selection,
            final(self).visual_horizontal_offset == old(self).visual_horizontal_offset,
            old(self).rectangle_selection is None ==> final(self).rectangle_selection is None,
            old(self).rectangle_selection matches Some(before) ==> (
            final(self).rectangle_selection matches Some(after) && {
                &&& after.anchor_line == before.anchor_line
                &&& after.anchor_column == before.anchor_column
                &&& after.spans(
                    line_of_char(rope_text(*text), old(self).range.start as int) as int,
                    old(self).spec_column_offset(tab_width as nat, rope_text(*text)) as int,
                )
            }),
            *final(self) == old(self).with_diagonal(tab_width as nat, rope_text(*text)),
    {
        let cursor_line = rope_char_to_line(text, self.range.start);
        let cursor_column = self.column_offset(tab_width, text);
        match self.rectangle_selection {
            Some(rect) => {
                let mut rect = rect;
                rect.update_diagonal(cursor_line, cursor_column);
                self.rectangle_selection = Some(rect);
            },
            None => {},
        }
    }

    /// Exit rectangle selection mode without modifying the buffer.
    /// Cursor position is unchanged (as on cancel).
    pub fn clear_rectangle_selection(&mut self)
        ensures
            *final(self) == (Cursor { rectangle_selection: None, ..*old(self) }),
    {
        self.rectangle_selection = None;
    }

    /// Get the current rectangle selection, if any.
    pub fn rectangle_selection(&self) -> (rect: Option<&RectangleSelection>)
        ensures
            rect is Some <==> self.rectangle_selection is Some,
            rect is Some ==> *rect->0 == self.rectangle_selection->0,
    {
        self.rectangle_selection.as_ref()
    }

    /// Whether rectangle mode is active.
    pub fn is_rectangle_mode(&self) -> (b: bool)
        ensures
            b == self.rectangle_selection is Some,
    {
        self.rectangle_selection.is_some()
    }

    // Editing

    pub fn insert_char(&mut self, text: &mut Rope, character: char) -> (diff: OpaqueDiff)
        requires
            old(self).range.start <= rope_text(*old(text)).len(),
        ensures
            rope_text(*final(text)) == rope_text(*old(text)).insert(
                old(self).range.start as int,
                character,
            ),
            *final(self) == (Cursor { selection: None, rectangle_selection: None, ..*old(self) }),
            diff == (OpaqueDiff {
                byte_index: byte_offset(rope_text(*old(text)), old(self).range.start as int) as usize,
                old_byte_length: 0,
                new_byte_length: char_utf8_len(character) as usize,
                char_index: old(self).range.start,
                old_char_length: 0,
                new_char_length: 1,
            }),
    {
        let ghost before = rope_text(*text);
        self.clear_selection();
        self.clear_rectangle_selection();
        rope_insert_char(text, self.range.start, character);
        proof {
            assert(before.subrange(0, self.range.start as int) =~= rope_text(*text).subrange(0, self.range.start as int));
            lemma_same_prefix_offset(before, rope_text(*text), self.range.start as int);
        }
        OpaqueDiff::new(
            rope_char_to_byte(text, self.range.start),
            0,
            char_len_utf8(character),
            self.range.start,
            0,
            1,
        )
    }

    pub fn insert_chars(&mut self, text: &mut Rope, characters: Vec<char>) -> (diff: OpaqueDiff)
        requires
            old(self).range.start <= rope_text(*old(text)).len(),
            rope_text(*old(text)).len() + characters@.len() <= usize::MAX,
            utf8_len(characters@) <= usize::MAX,
        ensures
            rope_text(*final(text)) == rope_text(*old(text)).subrange(
                0,
                old(self).range.start as int,
            ) + characters@ + rope_text(*old(text)).subrange(
                old(self).range.start as int,
                rope_text(*old(text)).len() as int,
            ),
            *final(self) == (Cursor { selection: None, rectangle_selection: None, ..*old(self) }),
            diff == (OpaqueDiff {
                byte_index: byte_offset(rope_text(*old(text)), old(self).range.start as int) as usize,
                old_byte_length: 0,
                new_byte_length: utf8_len(characters@) as usize,
                char_index: old(self).range.start,
                old_char_length: 0,
                new_char_length: characters@.len() as usize,
            }),
    {
        let ghost before = rope_text(*text);
        let ghost start = self.range.start as int;
        self.clear_selection();
        self.clear_rectangle_selection();
        let mut num_bytes: usize = 0;
        let mut num_chars: usize = 0;
        let mut offset: usize = 0;
        assert(characters@.take(0) =~= Seq::<char>::empty());
        assert(before.subrange(0, start) + characters@.take(0) + before.subrange(start, before.len() as int) =~= before);
        while offset < characters.len()
            invariant
                start == self.range.start,
                start <= before.len(),
                before.len() + characters@.len() <= usize::MAX,
                utf8_len(characters@) <= usize::MAX,
                0 <= offset <= characters@.len(),
                num_chars == offset,
                num_bytes == utf8_len(characters@.take(offset as int)),
                rope_text(*text) == before.subrange(0, start) + characters@.take(offset as int)
                    + before.subrange(start, before.len() as int),
            decreases characters@.len() - offset,
        {
            let character = characters[offset];
            let ghost current = rope_text(*text);
            rope_insert_char(text, self.range.start + offset, character);
            proof {
                let taken = characters@.take(offset as int);
                assert(characters@.take(offset + 1) =~= taken.push(character));
                lemma_utf8_len_append(taken, seq![character]);
                assert(taken + seq![character] =~= taken.push(character));
                assert(utf8_len(seq![character]) == char_utf8_len(character)) by {
                    assert(seq![character].drop_first() =~= Seq::<char>::empty());
                    assert(byte_offset(seq![character].drop_first(), 0) == 0);
                    assert(seq![character][0] == character);
                    assert(byte_offset(seq![character], 1) == char_utf8_len(character) + byte_offset(seq![character].drop_first(), 0));
                }
                lemma_utf8_len_append(characters@.take(offset + 1), characters@.skip(offset + 1));
                assert(characters@.take(offset + 1) + characters@.skip(offset + 1) =~= characters@);
                assert(rope_text(*text) =~= before.subrange(0, start) + characters@.take(offset + 1)
                    + before.subrange(start, before.len() as int));
            }
            num_bytes = num_bytes + char_len_utf8(character);
            num_chars = num_chars + 1;
            offset = offset + 1;
        }
        assert(characters@.take(characters@.len() as int) =~= characters@);
        proof {
            assert(before.subrange(0, start) =~= rope_text(*text).subrange(0, start));
            lemma_same_prefix_offset(before, rope_text(*text), start);
        }
        OpaqueDiff::new(
            rope_char_to_byte(text, self.range.start),
            0,
            num_bytes,
            self.range.start,
            0,
            num_chars,
        )
    }

    pub fn delete_forward(&mut self, text: &mut Rope) -> (operation: DeleteOperation)
        requires
            ({
                let t = rope_text(*old(text));
                t.len() == 0 || old(self).range.start == t.len() || old(self).range.start
                    <= old(self).range.end <= t.len()
            }),
        ensures
            ({
                let t = rope_text(*old(text));
                let start = old(self).range.start as int;
                let end = old(self).range.end as int;
                if t.len() == 0 || t.len() == start {
                    &&& rope_text(*final(text)) == t
                    &&& *final(self) == *old(self)
                    &&& operation.diff == OpaqueDiff::spec_empty()
                    &&& rope_text(operation.deleted) == Seq::<char>::empty()
                } else {
                    let new_text = text_without(t, start, end);
                    let grapheme_end = boundary_after(new_text, start);
                    &&& rope_text(*final(text)) == new_text
                    &&& operation.diff == deletion_diff(t, start, end)
                    &&& rope_text(operation.deleted) == new_text.subrange(start, grapheme_end as int)
                    &&& final(self).is_plain(start, grapheme_end as int)
                }
            }),
            old(self).valid_in(rope_text(*old(text))) ==> final(self).valid_in(rope_text(*final(text))),
            (rope_text(*final(text)), *final(self), operation.diff) == delete_forward_result(
                rope_text(*old(text)),
                *old(self),
            ),
    {
        let len = rope_len_chars(text);
        if len == 0 || len == self.range.start {
            return DeleteOperation::empty();
        }
        let ghost t = rope_text(*text);
        proof {
            lemma_byte_offset_monotonic(t, self.range.start as int, self.range.end as int);
        }
        let byte_start = rope_char_to_byte(text, self.range.start);
        let byte_end = rope_char_to_byte(text, self.range.end);
        let diff = OpaqueDiff::new(
            byte_start,
            byte_end - byte_start,
            0,
            self.range.start,
            self.range.end - self.range.start,
            0,
        );
        rope_remove(text, self.range.start, self.range.end);
        assert(rope_text(*text) =~= text_without(t, self.range.start as int, self.range.end as int));

        let grapheme_start = self.range.start;
        let grapheme_end = text.next_grapheme_boundary(self.range.start);
        let deleted = slice_to_rope(&rope_slice(text, grapheme_start, grapheme_end));

        *self = Cursor::with_range(grapheme_start..grapheme_end);

        DeleteOperation { diff, deleted }
    }

    pub fn delete_backward(&mut self, text: &mut Rope) -> (operation: DeleteOperation)
        requires
            old(self).range.start <= rope_text(*old(text)).len(),
        ensures
            ({
                let t = rope_text(*old(text));
                if old(self).range.start == 0 {
                    &&& rope_text(*final(text)) == t
                    &&& *final(self) == *old(self)
                    &&& operation.diff == OpaqueDiff::spec_empty()
                    &&& rope_text(operation.deleted) == Seq::<char>::empty()
                } else {
                    let start = boundary_before(t, old(self).range.start as int) as int;
                    let end = boundary_after(t, start) as int;
                    let new_text = text_without(t, start, end);
                    let grapheme_end = boundary_after(new_text, start);
                    &&& rope_text(*final(text)) == new_text
                    &&& operation.diff == deletion_diff(t, start, end)
                    &&& rope_text(operation.deleted) == new_text.subrange(start, grapheme_end as int)
                    &&& final(self).is_plain(start, grapheme_end as int)
                }
            }),
            old(self).valid_in(rope_text(*old(text))) ==> final(self).valid_in(rope_text(*final(text))),
            (rope_text(*final(text)), *final(self), operation.diff) == delete_backward_result(
                rope_text(*old(text)),
                *old(self),
            ),
    {
        if self.range.start > 0 {
            movement::move_horizontally(text, self, Direction::Backward, 1);
            self.delete_forward(text)
        } else {
            DeleteOperation::empty()
        }
    }

    pub fn delete_line(&mut self, text: &mut Rope) -> (operation: DeleteOperation)
        requires
            rope_text(*old(text)).len() == 0 || old(self).range.start <= rope_text(*old(text)).len(),
        ensures
            ({
                let t = rope_text(*old(text));
                if t.len() == 0 {
                    &&& rope_text(*final(text)) == t
                    &&& *final(self) == *old(self)
                    &&& operation.diff == OpaqueDiff::spec_empty()
                    &&& rope_text(operation.deleted) == Seq::<char>::empty()
                } else {
                    let line = line_of_char(t, old(self).range.start as int);
                    let start = line_start(t, line) as int;
                    let end = line_start(t, line + 1) as int;
                    let new_text = text_without(t, start, end);
                    let last = if line_count(new_text) >= 2 {
                        (line_count(new_text) - 2) as nat
                    } else {
                        0
                    };
                    let grapheme_start = line_start(new_text, if line <= last { line } else { last });
                    &&& rope_text(*final(text)) == new_text
                    &&& operation.diff == deletion_diff(t, start, end)
                    &&& rope_text(operation.deleted) == t.subrange(start, end)
                    &&& final(self).is_plain(
                        grapheme_start as int,
                        boundary_after(new_text, grapheme_start as int) as int,
                    )
                }
            }),
            old(self).valid_in(rope_text(*old(text))) ==> final(self).valid_in(rope_text(*final(text))),
            (rope_text(*final(text)), *final(self), operation.diff) == delete_line_result(
                rope_text(*old(text)),
                *old(self),
            ),
    {
        let len = rope_len_chars(text);
        if len == 0 {
            return DeleteOperation::empty();
        }
        let ghost t = rope_text(*text);
        // Delete line
        let line_index = rope_char_to_line(text, self.range.start);
        proof {
            lemma_line_start_le(t, self.range.start as int);
            lemma_line_start(t, line_index as nat);
            lemma_line_start(t, (line_index + 1) as nat);
            lemma_line_start_monotonic(t, line_index as nat, (line_index + 1) as nat);
        }
        let delete_range_start = rope_line_to_char(text, line_index);
        let lines = rope_len_lines(text);
        assert(line_index + 1 <= lines);
        let delete_range_end = rope_line_to_char(text, line_index + 1);
        let deleted = slice_to_rope(&rope_slice(text, delete_range_start, delete_range_end));
        proof {
            lemma_byte_offset_monotonic(t, delete_range_start as int, delete_range_end as int);
        }
        let byte_start = rope_char_to_byte(text, delete_range_start);
        let byte_end = rope_char_to_byte(text, delete_range_end);
        let diff = OpaqueDiff::new(
            byte_start,
            byte_end - byte_start,
            0,
            delete_range_start,
            delete_range_end - delete_range_start,
            0,
        );
        rope_remove(text, delete_range_start, delete_range_end);
        assert(rope_text(*text) =~= text_without(t, delete_range_start as int, delete_range_end as int));

        // Update cursor position
        let new_lines = rope_len_lines(text);
        let last = new_lines.saturating_sub(2);
        let target_line = if line_index <= last {
            line_index
        } else {
            last
        };
        proof {
            lemma_line_start(rope_text(*text), target_line as nat);
        }
        let grapheme_start = rope_line_to_char(text, target_line);
        let grapheme_end = text.next_grapheme_boundary(grapheme_start);

        *self = Cursor::with_range(grapheme_start..grapheme_end);

        DeleteOperation { diff, deleted }
    }

    pub fn delete_selection(&mut self, text: &mut Rope) -> (operation: DeleteOperation)
        requires
            rope_text(*old(text)).len() == 0 || old(self).selection_range().0 <= old(self).selection_range().1
                <= rope_text(*old(text)).len(),
        ensures
            ({
                let t = rope_text(*old(text));
                if t.len() == 0 {
                    &&& rope_text(*final(text)) == t
                    &&& *final(self) == *old(self)
                    &&& operation.diff == OpaqueDiff::spec_empty()
                    &&& rope_text(operation.deleted) == Seq::<char>::empty()
                } else {
                    let (start, end) = old(self).selection_range();
                    let new_text = text_without(t, start, end);
                    let before_end = boundary_before(new_text, new_text.len() as int);
                    let grapheme_start = if old(self).range.start <= before_end {
                        old(self).range.start as int
                    } else {
                        before_end as int
                    };
                    &&& rope_text(*final(text)) == new_text
                    &&& operation.diff == deletion_diff(t, start, end)
                    &&& rope_text(operation.deleted) == t.subrange(start, end)
                    &&& final(self).is_plain(
                        grapheme_start,
                        boundary_after(new_text, grapheme_start) as int,
                    )
                }
            }),
            old(self).valid_in(rope_text(*old(text))) ==> final(self).valid_in(rope_text(*final(text))),
            (rope_text(*final(text)), *final(self), operation.diff) == delete_selection_result(
                rope_text(*old(text)),
                *old(self),
            ),
            rope_text(operation.deleted) == deleted_selection(rope_text(*old(text)), *old(self)),
    {
        let len = rope_len_chars(text);
        if len == 0 {
            return DeleteOperation::empty();
        }
        let ghost t = rope_text(*text);
        // Delete selection
        let selection = self.selection();
        let deleted = slice_to_rope(&rope_slice(text, selection.start, selection.end));
        proof {
            lemma_byte_offset_monotonic(t, selection.start as int, selection.end as int);
        }
        let byte_start = rope_char_to_byte(text, selection.start);
        let byte_end = rope_char_to_byte(text, selection.end);
        let diff = OpaqueDiff::new(
            byte_start,
            byte_end - byte_start,
            0,
            selection.start,
            selection.end - selection.start,
            0,
        );
        rope_remove(text, selection.start, selection.end);
        assert(rope_text(*text) =~= text_without(t, selection.start as int, selection.end as int));

        // Update cursor position
        let new_len = rope_len_chars(text);
        let before_end = text.prev_grapheme_boundary(new_len);
        let grapheme_start = if self.range.start <= before_end {
            self.range.start
        } else {
            before_end
        };
        let grapheme_end = text.next_grapheme_boundary(grapheme_start);

        *self = Cursor::with_range(grapheme_start..grapheme_end);

        DeleteOperation { diff, deleted }
    }

    /// Where `sync` puts the cursor in `new_text`: on the same line and at the
    /// same offset in the line as in `current_text`, as far as `new_text` has
    /// that line and offset, on the grapheme that ends after that position.
    pub open spec fn spec_sync_end(&self, current_text: Seq<char>, new_text: Seq<char>) -> nat {
        let current_line = line_of_char(current_text, self.range.start as int);
        let current_line_offset = self.range.start - line_start(current_text, current_line);
        let new_line = if current_line <= line_count(new_text) - 1 {
            current_line
        } else {
            (line_count(new_text) - 1) as nat
        };
        let new_line_length = line_start(new_text, new_line + 1) - line_start(new_text, new_line);
        let last_offset = if new_line_length >= 1 {
            new_line_length - 1
        } else {
            0
        };
        let new_line_offset = if current_line_offset <= last_offset {
            current_line_offset
        } else {
            last_offset
        };
        boundary_after(new_text, line_start(new_text, new_line) + new_line_offset)
    }

    /// The cursor after `sync`: on the grapheme that ends at
    /// `spec_sync_end`.
    pub open spec fn synced(&self, current_text: Seq<char>, new_text: Seq<char>) -> Self {
        let end = self.spec_sync_end(current_text, new_text);
        plain_cursor(boundary_before(new_text, end as int) as int, end as int)
    }

    pub fn sync(&mut self, current_text: &Rope, new_text: &Rope)
        requires
            old(self).range.start <= rope_text(*current_text).len(),
        ensures
            ({
                let end = old(self).spec_sync_end(rope_text(*current_text), rope_text(*new_text));
                final(self).is_plain(
                    boundary_before(rope_text(*new_text), end as int) as int,
                    end as int,
                )
            }),
            final(self).valid_in(rope_text(*new_text)),
            *final(self) == old(self).synced(rope_text(*current_text), rope_text(*new_text)),
    {
        let ghost ct = rope_text(*current_text);
        let ghost nt = rope_text(*new_text);
        let current_line = rope_char_to_line(current_text, self.range.start);
        proof {
            lemma_line_start_le(ct, self.range.start as int);
        }
        let current_line_offset = self.range.start - rope_line_to_char(current_text, current_line);
        let new_lines = rope_len_lines(new_text);
        let last_line = new_lines.saturating_sub(1);
        let new_line = if current_line <= last_line {
            current_line
        } else {
            last_line
        };
        proof {
            lemma_line_start(nt, new_line as nat);
            lemma_line_start(nt, (new_line + 1) as nat);
            lemma_line_start_monotonic(nt, new_line as nat, (new_line + 1) as nat);
        }
        let line_length = slice_len_chars(&rope_line(new_text, new_line));
        let last_offset = line_length.saturating_sub(1);
        let new_line_offset = if current_line_offset <= last_offset {
            current_line_offset
        } else {
            last_offset
        };
        let line_char_start = rope_line_to_char(new_text, new_line);
        let new_len = rope_len_chars(new_text);
        assert(line_char_start + new_line_offset <= new_len);
        let grapheme_end = new_text.next_grapheme_boundary(line_char_start + new_line_offset);
        let grapheme_start = new_text.prev_grapheme_boundary(grapheme_end);

        *self = Cursor::with_range(grapheme_start..grapheme_end);
    }
}

/// The text, cursor and diff after a forward delete: the cursor's range is
/// removed and the cursor put on the grapheme that starts where it was;
/// nothing happens at the end of the text.
pub open spec fn delete_forward_result(t: Seq<char>, c: Cursor) -> (Seq<char>, Cursor, OpaqueDiff) {
    let start = c.range.start as int;
    let end = c.range.end as int;
    if t.len() == 0 || t.len() == start {
        (t, c, OpaqueDiff::spec_empty())
    } else {
        let new_text = text_without(t, start, end);
        (new_text, plain_cursor(start, boundary_after(new_text, start) as int), deletion_diff(t, start, end))
    }
}

/// The text, cursor and diff after a backward delete: the grapheme before
/// the cursor is removed; nothing happens at the start of the text.
pub open spec fn delete_backward_result(t: Seq<char>, c: Cursor) -> (Seq<char>, Cursor, OpaqueDiff) {
    if c.range.start == 0 {
        (t, c, OpaqueDiff::spec_empty())
    } else {
        let start = boundary_before(t, c.range.start as int) as int;
        let end = boundary_after(t, start) as int;
        let new_text = text_without(t, start, end);
        (new_text, plain_cursor(start, boundary_after(new_text, start) as int), deletion_diff(t, start, end))
    }
}

/// The text, cursor and diff after deleting the cursor's line: the cursor
/// goes to the start of the line that takes its place (or of the last line).
pub open spec fn delete_line_result(t: Seq<char>, c: Cursor) -> (Seq<char>, Cursor, OpaqueDiff) {
    if t.len() == 0 {
        (t, c, OpaqueDiff::spec_empty())
    } else {
        let line = line_of_char(t, c.range.start as int);
        let start = line_start(t, line) as int;
        let end = line_start(t, line + 1) as int;
        let new_text = text_without(t, start, end);
        let last = if line_count(new_text) >= 2 {
            (line_count(new_text) - 2) as nat
        } else {
            0
        };
        let grapheme_start = line_start(new_text, if line <= last { line } else { last }) as int;
        (
            new_text,
            plain_cursor(grapheme_start, boundary_after(new_text, grapheme_start) as int),
            deletion_diff(t, start, end),
        )
    }
}

/// The text, cursor and diff after deleting the selection: the cursor stays
/// where it was, or goes to the last grapheme when the text got shorter.
pub open spec fn delete_selection_result(t: Seq<char>, c: Cursor) -> (Seq<char>, Cursor, OpaqueDiff) {
    if t.len() == 0 {
        (t, c, OpaqueDiff::spec_empty())
    } else {
        let (start, end) = c.selection_range();
        let new_text = text_without(t, start, end);
        let before_end = boundary_before(new_text, new_text.len() as int);
        let grapheme_start = if c.range.start <= before_end {
            c.range.start as int
        } else {
            before_end as int
        };
        (
            new_text,
            plain_cursor(grapheme_start, boundary_after(new_text, grapheme_start) as int),
            deletion_diff(t, start, end),
        )
    }
}

/// The text that deleting the selection takes out.
pub open spec fn deleted_selection(t: Seq<char>, c: Cursor) -> Seq<char> {
    if t.len() == 0 {
        Seq::empty()
    } else {
        t.subrange(c.selection_range().0, c.selection_range().1)
    }
}

/// The cursor after inserting text at it: in place, without selections.
pub open spec fn after_insert(c: Cursor) -> Cursor {
    Cursor { selection: None, rectangle_selection: None, ..c }
}

/// The diff of inserting `chars` at char `start` of `t`.
pub open spec fn insertion_diff(t: Seq<char>, start: int, chars: Seq<char>) -> OpaqueDiff {
    OpaqueDiff {
        byte_index: byte_offset(t, start) as usize,
        old_byte_length: 0,
        new_byte_length: utf8_len(chars) as usize,
        char_index: start as usize,
        old_char_length: 0,
        new_char_length: chars.len() as usize,
    }
}

/// `t` with the chars in `start..end` removed.
pub open spec fn text_without(t: Seq<char>, start: int, end: int) -> Seq<char> {
    t.subrange(0, start) + t.subrange(end, t.len() as int)
}

/// The diff of removing the chars in `start..end` of `t`.
pub open spec fn deletion_diff(t: Seq<char>, start: int, end: int) -> OpaqueDiff {
    OpaqueDiff {
        byte_index: byte_offset(t, start) as usize,
        old_byte_length: (byte_offset(t, end) - byte_offset(t, start)) as usize,
        new_byte_length: 0,
        char_index: start as usize,
        old_char_length: (end - start) as usize,
        new_char_length: 0,
    }
}

/// Two texts that agree before `i` have the same byte offset at `i`.
pub proof fn lemma_same_prefix_offset(a: Seq<char>, b: Seq<char>, i: int)
    requires
        0 <= i <= a.len(),
        i <= b.len(),
        a.subrange(0, i) == b.subrange(0, i),
    ensures
        byte_offset(a, i) == byte_offset(b, i),
{
    let p = a.subrange(0, i);
    assert(p == p.subrange(0, p.len() as int));
    crate::text::lemma_byte_offset_prefix(p, a, i);
    crate::text::lemma_byte_offset_prefix(p, b, i);
}

/// The cursor after reconciling it with each non-empty diff in turn.
pub open spec fn reconcile_all(cursor: Cursor, new_text: Seq<char>, diffs: Seq<OpaqueDiff>) -> Cursor
    decreases diffs.len(),
{
    if diffs.len() == 0 {
        cursor
    } else {
        let before = reconcile_all(cursor, new_text, diffs.drop_last());
        if diffs.last().spec_is_empty() {
            before
        } else {
            before.spec_reconcile(new_text, diffs.last())
        }
    }
}

/// Reconciling with each non-empty diff in turn does not overflow.
pub open spec fn reconcile_all_fits(cursor: Cursor, new_text: Seq<char>, diffs: Seq<OpaqueDiff>) -> bool
    decreases diffs.len(),
{
    if diffs.len() == 0 {
        true
    } else {
        let rest = diffs.drop_first();
        if diffs[0].spec_is_empty() {
            reconcile_all_fits(cursor, new_text, rest)
        } else {
            &&& cursor.reconcile_fits(diffs[0])
            &&& reconcile_all_fits(cursor.spec_reconcile(new_text, diffs[0]), new_text, rest)
        }
    }
}

pub proof fn lemma_reconcile_all_push(
    cursor: Cursor,
    new_text: Seq<char>,
    diffs: Seq<OpaqueDiff>,
    diff: OpaqueDiff,
)
    ensures
        reconcile_all(cursor, new_text, diffs.push(diff)) == if diff.spec_is_empty() {
            reconcile_all(cursor, new_text, diffs)
        } else {
            reconcile_all(cursor, new_text, diffs).spec_reconcile(new_text, diff)
        },
{
    assert(diffs.push(diff).drop_last() =~= diffs);
}


/// Whether reconciling the cursor with each non-empty diff in turn stays
/// within `usize`.
pub fn reconcile_all_fit(cursor: &Cursor, new_text: &Rope, compound: &crate::diff::CompoundDiff) -> (b: bool)
    ensures
        b == reconcile_all_fits(*cursor, rope_text(*new_text), compound.diffs()),
{
    let ghost t = rope_text(*new_text);
    let ghost diffs = compound.diffs();
    let mut current = cursor.copied();
    let mut i: usize = 0;
    assert(diffs.skip(0) =~= diffs);
    while i < compound.0.len()
        invariant
            t == rope_text(*new_text),
            diffs == compound.diffs(),
            0 <= i <= diffs.len(),
            reconcile_all_fits(*cursor, t, diffs) == reconcile_all_fits(current, t, diffs.skip(i as int)),
        decreases diffs.len() - i,
    {
        let diff = &compound.0[i];
        assert(diffs.skip(i as int).drop_first() =~= diffs.skip(i + 1));
        assert(diffs.skip(i as int)[0] == diffs[i as int]);
        if !diff.is_empty() {
            if diff.char_index < current.range.end && diff.char_index <= current.range.start
                && diff.old_char_length <= current.range.start - diff.char_index
                && diff.old_char_length <= diff.new_char_length {
                let growth = diff.new_char_length - diff.old_char_length;
                if current.range.start > usize::MAX - growth || current.range.end > usize::MAX
                    - growth {
                    return false;
                }
            }
            current.reconcile(new_text, diff);
        }
        i = i + 1;
    }
    assert(diffs.skip(diffs.len() as int) =~= Seq::<OpaqueDiff>::empty());
    true
}

/// After an edit that lies wholly before a cursor (the chars it replaced end
/// at or before the cursor's start), the cursor moves with the text by the
/// change in length: where its chars form one grapheme in the new text, it
/// is on them again, from its start moved by that change. An edit that
/// starts at or after the cursor's end leaves the cursor as it was.
pub proof fn lemma_reconcile_moves_with_text(cursor: Cursor, new_text: Seq<char>, diff: OpaqueDiff)
    requires
        cursor.range.start < cursor.range.end,
        new_text.len() <= usize::MAX,
    ensures
        diff.char_index >= cursor.range.end ==> cursor.spec_reconcile(new_text, diff) == cursor,
        ({
            let change = diff.new_char_length - diff.old_char_length;
            let start = cursor.range.start + change;
            let end = cursor.range.end + change;
            let after = cursor.spec_reconcile(new_text, diff);
            diff.char_index + diff.old_char_length <= cursor.range.start && end <= new_text.len()
                && boundary_before(new_text, end) == start ==> {
                &&& after.range.start == start
                &&& after.range.end == boundary_after(new_text, start)
                &&& after.selection == cursor.selection
                &&& after.rectangle_selection == cursor.rectangle_selection
            }
        }),
{
    let change = diff.new_char_length - diff.old_char_length;
    let start = cursor.range.start + change;
    crate::text::lemma_char_of_byte_bound(
        new_text,
        match crate::graphemes::next_boundary_n_bytes(
            new_text,
            crate::text::byte_offset(new_text, start) as usize,
            1,
        ) {
            Some(b) => b as int,
            None => 0,
        },
    );
}

/// Reconciling with diffs that only delete never overflows.
pub proof fn lemma_deletions_fit(cursor: Cursor, new_text: Seq<char>, diffs: Seq<OpaqueDiff>)
    requires
        forall|i: int| 0 <= i < diffs.len() ==> (#[trigger] diffs[i]).new_char_length == 0,
    ensures
        reconcile_all_fits(cursor, new_text, diffs),
    decreases diffs.len(),
{
    if diffs.len() > 0 {
        let rest = diffs.drop_first();
        assert forall|i: int| 0 <= i < rest.len() implies (#[trigger] rest[i]).new_char_length == 0 by {
            assert(rest[i] == diffs[i + 1]);
        }
        lemma_deletions_fit(cursor, new_text, rest);
        lemma_deletions_fit(cursor.spec_reconcile(new_text, diffs[0]), new_text, rest);
    }
}

} // verus!
