//! A buffer: the edit tree of a text and the cursors on it, and what each
//! message from the editor does to them. What a message asks of the world
//! outside (the clipboard, the user's status line, the parser, the file) comes
//! back as a list of effects, in the order they are due.
use vstd::prelude::*;
use ropey::{Rope, RopeSlice};

use crate::cursor::{
    after_insert, delete_backward_result, delete_forward_result, delete_line_result,
    delete_selection_result, deleted_selection, insertion_diff, lemma_deletions_fit,
    plain_cursor, reconcile_all, reconcile_all_fit, reconcile_all_fits, Cursor,
    RectangleSelection,
};
use crate::diff::{diffs_empty, CompoundDiff, OpaqueDiff};
use crate::movement::{
    self, buffer_end_move, buffer_start_move, horizontal_move, line_end_move, line_start_move,
    vertical_move, Direction,
};
use crate::graphemes::{
    column_bound, column_index, column_mapping, count_tabs, lemma_column_bound_subrange,
    lemma_column_mapping_in_line, visual_column_range_to_char_range,
    visual_column_to_char_index_pub, ColumnMapping, RaggedLinePolicy, RopeExt,
};
use crate::rectangle_kill::{string_views, RectangleKillStore};
use crate::text::{
    byte_offset, char_utf8_len, rope_to_string, utf8_len, lemma_line_start, lemma_line_start_monotonic, line_count, line_start,
    rope_len_chars, rope_line, rope_line_to_char, rope_slice, rope_text, slice_char,
    slice_len_chars, slice_text, slice_to_string, string_push,
};
use crate::tree::EditTree;

verus! {

#[derive(Clone, Copy, Debug, PartialEq, Eq, Hash, Structural)]
pub struct BufferId(usize);

#[derive(Clone, Copy, Debug, Default, PartialEq, Eq, Hash, Structural)]
pub struct CursorId(usize);

impl BufferId {
    pub closed spec fn index(&self) -> nat {
        self.0 as nat
    }

    /// How the id is shown: `BufferId(`, its number in decimal, `)`.
    pub fn to_string(&self) -> (text: String)
        ensures
            text@ == "BufferId("@ + decimal(self.index()) + ")"@,
    {
        let mut text = "BufferId(".to_string();
        push_decimal(&mut text, self.0);
        string_push(&mut text, ')');
        proof {
            reveal_strlit(")");
            assert(")"@ =~= seq![')']);
        }
        text
    }
}

impl CursorId {
    pub closed spec fn index(&self) -> nat {
        self.0 as nat
    }

    /// How the id is shown: `CursorId(`, its number in decimal, `)`.
    pub fn to_string(&self) -> (text: String)
        ensures
            text@ == "CursorId("@ + decimal(self.index()) + ")"@,
    {
        let mut text = "CursorId(".to_string();
        push_decimal(&mut text, self.0);
        string_push(&mut text, ')');
        proof {
            reveal_strlit(")");
            assert(")"@ =~= seq![')']);
        }
        text
    }
}

/// The decimal digit for `d`, below ten.
pub open spec fn digit_char(d: nat) -> char {
    if d == 0 {
        '0'
    } else if d == 1 {
        '1'
    } else if d == 2 {
        '2'
    } else if d == 3 {
        '3'
    } else if d == 4 {
        '4'
    } else if d == 5 {
        '5'
    } else if d == 6 {
        '6'
    } else if d == 7 {
        '7'
    } else if d == 8 {
        '8'
    } else {
        '9'
    }
}

/// The decimal numeral of `n`, without leading zeros.
pub open spec fn decimal(n: nat) -> Seq<char>
    decreases n,
{
    if n < 10 {
        seq![digit_char(n)]
    } else {
        decimal(n / 10).push(digit_char(n % 10))
    }
}

fn digit(d: usize) -> (c: char)
    requires
        d < 10,
    ensures
        c == digit_char(d as nat),
{
    match d {
        0 => '0',
        1 => '1',
        2 => '2',
        3 => '3',
        4 => '4',
        5 => '5',
        6 => '6',
        7 => '7',
        8 => '8',
        _ => '9',
    }
}

/// Appends the decimal numeral of `n`.
fn push_decimal(text: &mut String, n: usize)
    ensures
        final(text)@ == old(text)@ + decimal(n as nat),
    decreases n,
{
    if n >= 10 {
        push_decimal(text, n / 10);
    }
    string_push(text, digit(n % 10));
    proof {
        assert(final(text)@ =~= old(text)@ + decimal(n as nat));
    }
}

#[derive(Clone, Copy, Debug, PartialEq, Eq, Structural)]
pub enum ModifiedStatus {
    Changed,
    Unchanged,
    Saving,
}

/// How a buffer indents: the visual width of a tab, and the char and the
/// number of them that the tab key inserts.
#[derive(Clone, Copy, Debug, PartialEq, Eq, Structural)]
pub struct Indentation {
    pub tab_width: usize,
    pub unit: char,
    pub count: usize,
}

/// A file's path, by its components (root, `.`, `..` and names): two paths
/// are the same path when their components are.
#[derive(Clone, Debug, PartialEq, Eq)]
pub struct FilePath {
    pub components: Vec<String>,
}

impl FilePath {
    pub open spec fn view(&self) -> Seq<Seq<char>> {
        string_views(self.components@)
    }
}

/// What the world outside has to do after a message.
#[derive(Debug)]
pub enum BufferEffect {
    /// Put this text on the clipboard.
    SetClipboard(String),
    /// Show this message to the user.
    Log(String),
    /// Parse the staged text again: from scratch when `fresh`, else after
    /// applying `edit` (if any) to the last tree.
    Reparse { fresh: bool, edit: Option<OpaqueDiff> },
    /// Write this text to the buffer's file.
    Save { text: Rope },
}

impl BufferEffect {
    pub open spec fn is_clipboard(&self, text: Seq<char>) -> bool {
        self matches BufferEffect::SetClipboard(s) && s@ == text
    }

    pub open spec fn is_log(&self, text: Seq<char>) -> bool {
        self matches BufferEffect::Log(s) && s@ == text
    }

    pub open spec fn is_reparse(&self, fresh: bool, edit: Option<OpaqueDiff>) -> bool {
        self matches BufferEffect::Reparse { fresh: f, edit: e } && f == fresh && e == edit
    }

    pub open spec fn is_save(&self, text: Seq<char>) -> bool {
        self matches BufferEffect::Save { text: t } && rope_text(*t) == text
    }
}

// ---------------------------------------------------------------------------
// rectangles over the text

/// Line `l` of `t` without the `\n` that ends it.
pub open spec fn line_without_newline(t: Seq<char>, l: nat) -> Seq<char> {
    let line = t.subrange(line_start(t, l) as int, line_start(t, l + 1) as int);
    if line.len() > 0 && line.last() == '\n' {
        line.drop_last()
    } else {
        line
    }
}

/// A line of a text, without its `\n`, has a column bound no larger than
/// the text's.
pub proof fn lemma_line_column_bound(tab: nat, t: Seq<char>, l: nat)
    ensures
        column_bound(tab, line_without_newline(t, l)) <= column_bound(tab, t),
{
    crate::text::lemma_line_start(t, l);
    crate::text::lemma_line_start(t, l + 1);
    crate::text::lemma_line_start_monotonic(t, l, l + 1);
    let a = line_start(t, l) as int;
    let b = line_start(t, l + 1) as int;
    lemma_column_bound_subrange(tab, t, a, b);
    if b > a && t.subrange(a, b).last() == '\n' {
        assert(t.subrange(a, b).drop_last() =~= t.subrange(a, b - 1));
        lemma_column_bound_subrange(tab, t, a, b - 1);
    }
}

/// Inserting a char other than a tab raises the column bound by three.
pub proof fn lemma_column_bound_insert(tab: nat, t: Seq<char>, i: int, c: char)
    requires
        0 <= i <= t.len(),
        c != '\t',
    ensures
        column_bound(tab, t.insert(i, c)) == column_bound(tab, t) + 3,
{
    let one = seq![c];
    assert(count_tabs(one) == 0) by {
        assert(one.drop_last() =~= Seq::<char>::empty());
        assert(count_tabs(Seq::<char>::empty()) == 0);
    }
    crate::graphemes::lemma_column_bound_append(tab, t.take(i), one);
    crate::graphemes::lemma_column_bound_append(tab, t.take(i) + one, t.skip(i));
    crate::graphemes::lemma_column_bound_append(tab, t.take(i), t.skip(i));
    assert(t.take(i) + one + t.skip(i) =~= t.insert(i, c));
    assert(t.take(i) + t.skip(i) =~= t);
}

/// Removing the chars `a..b` of a text does not raise its column bound.
pub proof fn lemma_column_bound_remove(tab: nat, c: Seq<char>, a: int, b: int)
    requires
        0 <= a <= b <= c.len(),
    ensures
        column_bound(tab, c.subrange(0, a) + c.subrange(b, c.len() as int)) <= column_bound(tab, c),
{
    crate::graphemes::lemma_column_bound_append(tab, c.subrange(0, a), c.subrange(b, c.len() as int));
    lemma_column_bound_subrange(tab, c, a, b);
    lemma_column_bound_subrange(tab, c, b, c.len() as int);
    assert(c.subrange(0, a) =~= c.take(a));
    assert(c.take(c.len() as int) =~= c);
}

/// The chars of line `l` of `t` that the visual columns `left..right` cover.
pub open spec fn line_mapping(t: Seq<char>, tab: nat, l: nat, left: nat, right: nat) -> ColumnMapping {
    column_mapping(tab, line_without_newline(t, l), line_start(t, l), left, right)
}

/// The mapping of the `i`th line of a rectangle.
pub open spec fn rect_mapping(t: Seq<char>, tab: nat, rect: RectangleSelection, i: int) -> ColumnMapping {
    line_mapping(t, tab, (rect.line_start + i) as nat, rect.column_left as nat, rect.column_right as nat)
}

/// The number of lines of a rectangle.
pub open spec fn rect_height(rect: RectangleSelection) -> nat {
    if rect.line_start <= rect.line_end {
        (rect.line_end - rect.line_start + 1) as nat
    } else {
        0
    }
}

/// What a rectangle takes from each of its lines, top to bottom (nothing
/// from a line too short to reach it).
pub open spec fn rectangle_parts(t: Seq<char>, tab: nat, rect: RectangleSelection) -> Seq<Seq<char>> {
    Seq::new(
        rect_height(rect),
        |i: int|
            t.subrange(
                rect_mapping(t, tab, rect, i).char_start as int,
                rect_mapping(t, tab, rect, i).char_end as int,
            ),
    )
}

/// The parts joined by `\n`, with no `\n` after the last.
pub open spec fn joined_lines(parts: Seq<Seq<char>>) -> Seq<char>
    decreases parts.len(),
{
    if parts.len() == 0 {
        Seq::empty()
    } else if parts.len() == 1 {
        parts[0]
    } else {
        joined_lines(parts.drop_last()) + seq!['\n'] + parts.last()
    }
}

/// The non-empty char ranges of the first `n` lines of a rectangle, top to
/// bottom.
pub open spec fn rectangle_ranges_upto(t: Seq<char>, tab: nat, rect: RectangleSelection, n: int) -> Seq<(int, int)>
    decreases n,
{
    if n <= 0 {
        Seq::empty()
    } else {
        let m = rect_mapping(t, tab, rect, n - 1);
        let before = rectangle_ranges_upto(t, tab, rect, n - 1);
        if m.char_start == m.char_end {
            before
        } else {
            before.push((m.char_start as int, m.char_end as int))
        }
    }
}

/// The non-empty char ranges of a rectangle's lines, top to bottom.
pub open spec fn rectangle_ranges(t: Seq<char>, tab: nat, rect: RectangleSelection) -> Seq<(int, int)> {
    rectangle_ranges_upto(t, tab, rect, rect_height(rect) as int)
}

/// `t` with the ranges removed, the last one first.
pub open spec fn without_ranges(t: Seq<char>, ranges: Seq<(int, int)>) -> Seq<char>
    decreases ranges.len(),
{
    if ranges.len() == 0 {
        t
    } else {
        let last = ranges.last();
        without_ranges(t.subrange(0, last.0) + t.subrange(last.1, t.len() as int), ranges.drop_last())
    }
}

/// The diffs of removing the ranges from `t`, the last range first.
pub open spec fn range_deletion_diffs(t: Seq<char>, ranges: Seq<(int, int)>) -> Seq<OpaqueDiff> {
    Seq::new(
        ranges.len(),
        |k: int|
            crate::cursor::deletion_diff(
                t,
                ranges[ranges.len() - 1 - k].0,
                ranges[ranges.len() - 1 - k].1,
            ),
    )
}

/// Where a rectangle deletion leaves the cursor: on the grapheme at the
/// rectangle's left column on its top line, in the text after the deletion.
pub open spec fn rectangle_corner(t: Seq<char>, tab: nat, rect: RectangleSelection) -> Cursor {
    let top = rect.line_start as nat;
    let position = line_start(t, top) + column_index(tab, line_without_newline(t, top), rect.column_left as nat).0;
    plain_cursor(position as int, crate::cursor::boundary_after(t, position as int) as int)
}

/// Line `l` of the text without the `\n` that ends it, and the char index
/// where it starts.
fn line_for_columns<'a>(text: &'a Rope, l: usize) -> (r: (usize, RopeSlice<'a>))
    requires
        l < line_count(rope_text(*text)),
    ensures
        r.0 == line_start(rope_text(*text), l as nat),
        slice_text(r.1) == line_without_newline(rope_text(*text), l as nat),
        r.0 + slice_text(r.1).len() <= line_start(rope_text(*text), (l + 1) as nat),
        line_start(rope_text(*text), (l + 1) as nat) <= rope_text(*text).len(),
{
    let ghost t = rope_text(*text);
    proof {
        lemma_line_start(t, l as nat);
        lemma_line_start(t, (l + 1) as nat);
        lemma_line_start_monotonic(t, l as nat, (l + 1) as nat);
    }
    let len = rope_len_chars(text);
    let line_char_start = rope_line_to_char(text, l);
    let line = rope_line(text, l);
    let line_len = slice_len_chars(&line);
    let slice_end = if line_len > 0 && slice_char(&line, line_len - 1) == '\n' {
        line_char_start + line_len - 1
    } else {
        line_char_start + line_len
    };
    let line_slice = rope_slice(text, line_char_start, slice_end);
    proof {
        let whole = t.subrange(line_start(t, l as nat) as int, line_start(t, (l + 1) as nat) as int);
        if line_len > 0 && whole.last() == '\n' {
            assert(slice_text(line_slice) =~= whole.drop_last());
        } else {
            assert(slice_text(line_slice) =~= whole);
        }
    }
    (line_char_start, line_slice)
}

/// How many columns are left in `usize` above the text's column bound, if
/// the bound fits.
fn column_room(text: &Rope, tab_width: usize) -> (room: Option<usize>)
    ensures
        match room {
            Some(r) => column_bound(tab_width as nat, rope_text(*text)) + r == usize::MAX,
            None => column_bound(tab_width as nat, rope_text(*text)) > usize::MAX,
        },
{
    let ghost t = rope_text(*text);
    let ghost tab = tab_width as nat;
    let len = rope_len_chars(text);
    if len > usize::MAX / 3 {
        return None;
    }
    let mut room: usize = usize::MAX - 3 * len;
    let mut i: usize = 0;
    assert(t.take(0) =~= Seq::<char>::empty());
    assert(count_tabs(t.take(0)) == 0);
    while i < len
        invariant
            t == rope_text(*text),
            tab == tab_width as nat,
            len == t.len(),
            i <= len,
            count_tabs(t.take(i as int)) * tab + 3 * len + room == usize::MAX,
        decreases len - i,
    {
        let ghost before = count_tabs(t.take(i as int));
        assert(t.take(i + 1).drop_last() =~= t.take(i as int));
        assert(t.take(i + 1).last() == t[i as int]);
        if crate::text::rope_char(text, i) == '\t' {
            assert((before + 1) * tab == before * tab + tab) by (nonlinear_arith);
            if room < tab_width {
                proof {
                    crate::graphemes::lemma_count_tabs_append(t.take(i + 1), t.skip(i + 1));
                    assert(t.take(i + 1) + t.skip(i + 1) =~= t);
                    let all = count_tabs(t);
                    assert(all * tab >= (before + 1) * tab) by (nonlinear_arith)
                        requires
                            all >= before + 1,
                    ;
                }
                return None;
            }
            room = room - tab_width;
        }
        i = i + 1;
    }
    assert(t.take(len as int) =~= t);
    Some(room)
}

/// The mapping of visual columns `left..right` on line `l`.
fn map_line(text: &Rope, tab_width: usize, l: usize, left: usize, right: usize) -> (mapping: ColumnMapping)
    requires
        l < line_count(rope_text(*text)),
        column_bound(tab_width as nat, rope_text(*text)) <= usize::MAX,
    ensures
        mapping == line_mapping(rope_text(*text), tab_width as nat, l as nat, left as nat, right as nat),
        line_start(rope_text(*text), l as nat) <= mapping.char_start <= mapping.char_end
            <= line_start(rope_text(*text), (l + 1) as nat) <= rope_text(*text).len(),
{
    let ghost t = rope_text(*text);
    let len = rope_len_chars(text);
    let (line_char_start, line_slice) = line_for_columns(text, l);
    proof {
        lemma_line_column_bound(tab_width as nat, t, l as nat);
    }
    visual_column_range_to_char_range(
        tab_width,
        &line_slice,
        line_char_start,
        left,
        right,
        RaggedLinePolicy::Empty,
    )
}


/// The ranges of a rectangle are ordered and apart: each is a non-empty
/// range that ends before the next starts, all between the start of the top
/// line and the start of the line after the `n`th.
pub proof fn lemma_rectangle_ranges(t: Seq<char>, tab: nat, rect: RectangleSelection, n: int)
    requires
        0 <= n <= rect_height(rect),
        rect_height(rect) > 0 ==> rect.line_end < line_count(t),
        t.len() <= usize::MAX,
    ensures
        ({
            let ranges = rectangle_ranges_upto(t, tab, rect, n);
            &&& forall|j: int|
                0 <= j < ranges.len() ==> line_start(t, rect.line_start as nat) <= (
                #[trigger] ranges[j]).0 < ranges[j].1 <= line_start(
                    t,
                    (rect.line_start + n) as nat,
                ) <= t.len()
            &&& forall|j: int, k: int|
                0 <= j < k < ranges.len() ==> (#[trigger] ranges[j]).1 <= (#[trigger] ranges[k]).0
        }),
    decreases n,
{
    lemma_line_start(t, (rect.line_start + n) as nat);
    if n > 0 {
        lemma_rectangle_ranges(t, tab, rect, n - 1);
        let l = (rect.line_start + n - 1) as nat;
        lemma_line_start(t, l);
        lemma_line_start(t, l + 1);
        lemma_line_start_monotonic(t, l, l + 1);
        lemma_line_start_monotonic(t, rect.line_start as nat, l);
        let text = line_without_newline(t, l);
        assert(text.len() <= line_start(t, l + 1) - line_start(t, l));
        lemma_column_mapping_in_line(
            tab,
            text,
            line_start(t, l),
            rect.column_left as nat,
            rect.column_right as nat,
        );
        let m = rect_mapping(t, tab, rect, n - 1);
        let before = rectangle_ranges_upto(t, tab, rect, n - 1);
        assert(m == line_mapping(t, tab, l, rect.column_left as nat, rect.column_right as nat));
        assert(line_start(t, (rect.line_start + (n - 1)) as nat) == line_start(t, l));
        assert(line_start(t, (rect.line_start + n) as nat) == line_start(t, l + 1));
        if m.char_start != m.char_end {
            let after = before.push((m.char_start as int, m.char_end as int));
            assert(rectangle_ranges_upto(t, tab, rect, n) == after);
            assert forall|j: int| 0 <= j < after.len() implies line_start(t, rect.line_start as nat) <= (
            #[trigger] after[j]).0 < after[j].1 <= line_start(t, (rect.line_start + n) as nat) by {
                if j < before.len() {
                    assert(after[j] == before[j]);
                }
            }
            assert forall|j: int, k: int|
                0 <= j < k < after.len() implies (#[trigger] after[j]).1 <= (#[trigger] after[k]).0 by {
                assert(after[j] == before[j]);
                if k < before.len() {
                    assert(after[k] == before[k]);
                }
            }
        }
    } else {
        lemma_line_start_monotonic(t, rect.line_start as nat, (rect.line_start + n) as nat);
    }
}

/// What a rectangle takes from each of its lines, top to bottom.
fn collect_rectangle_parts(text: &Rope, tab_width: usize, rect: &RectangleSelection) -> (parts: Vec<String>)
    requires
        rect_height(*rect) > 0 ==> rect.line_end < line_count(rope_text(*text)),
        column_bound(tab_width as nat, rope_text(*text)) <= usize::MAX,
    ensures
        string_views(parts@) == rectangle_parts(rope_text(*text), tab_width as nat, *rect),
{
    let ghost t = rope_text(*text);
    let ghost all = rectangle_parts(t, tab_width as nat, *rect);
    let mut parts: Vec<String> = Vec::new();
    if rect.line_start > rect.line_end {
        assert(string_views(parts@) =~= all);
        return parts;
    }
    let span = rect.line_end - rect.line_start;
    let mut i: usize = 0;
    loop
        invariant_except_break
            i <= span,
            span == rect.line_end - rect.line_start,
            rect.line_end < line_count(t),
            t == rope_text(*text),
            column_bound(tab_width as nat, t) <= usize::MAX,
            all == rectangle_parts(t, tab_width as nat, *rect),
            all.len() == span + 1,
            string_views(parts@) == all.take(i as int),
        ensures
            string_views(parts@) == all,
        decreases span - i,
    {
        let l = rect.line_start + i;
        let mapping = map_line(text, tab_width, l, rect.column_left, rect.column_right);
        let ghost old_parts = parts@;
        assert(string_views(old_parts).len() == old_parts.len());
        assert(old_parts.len() == i);
        if mapping.is_empty() {
            parts.push(String::new());
        } else {
            parts.push(slice_to_string(&rope_slice(text, mapping.char_start, mapping.char_end)));
        }
        proof {
            let m = rect_mapping(t, tab_width as nat, *rect, i as int);
            assert(parts@.len() == i + 1);
            assert(mapping == m);
            assert(all[i as int] == t.subrange(m.char_start as int, m.char_end as int));
            assert(parts@[i as int]@ =~= all[i as int]);
            assert forall|j: int| 0 <= j <= i implies #[trigger] string_views(parts@)[j] == all.take(
                i + 1,
            )[j] by {
                if j < i {
                    assert(string_views(parts@)[j] == parts@[j]@);
                    assert(parts@[j] == old_parts[j]);
                    assert(string_views(old_parts)[j] == all.take(i as int)[j]);
                }
            }
        }
        assert(string_views(parts@) =~= all.take(i + 1));
        if i == span {
            assert(all.take(i + 1) =~= all);
            break;
        }
        i = i + 1;
    }
    parts
}

/// The parts joined by `\n`.
fn join_lines(parts: &Vec<String>) -> (joined: String)
    ensures
        joined@ == joined_lines(string_views(parts@)),
{
    let ghost views = string_views(parts@);
    let mut joined = String::new();
    let mut i: usize = 0;
    assert(views.take(0) =~= Seq::<Seq<char>>::empty());
    while i < parts.len()
        invariant
            i <= parts@.len(),
            views == string_views(parts@),
            joined@ == joined_lines(views.take(i as int)),
        decreases parts@.len() - i,
    {
        if i > 0 {
            string_push(&mut joined, '\n');
        }
        let part = parts[i].as_str();
        let chars = crate::graphemes::chars_of_str(part);
        let mut k: usize = 0;
        let ghost before = joined@;
        while k < chars.len()
            invariant
                k <= chars@.len(),
                chars@ == parts@[i as int]@,
                joined@ == before + chars@.take(k as int),
            decreases chars@.len() - k,
        {
            string_push(&mut joined, chars[k]);
            assert(chars@.take(k + 1) =~= chars@.take(k as int).push(chars@[k as int]));
            k = k + 1;
        }
        proof {
            assert(chars@.take(chars@.len() as int) =~= chars@);
            let taken = views.take(i + 1);
            assert(taken.drop_last() =~= views.take(i as int));
            assert(taken.last() == parts@[i as int]@);
            if i == 0 {
                assert(before =~= Seq::<char>::empty());
                assert(joined@ =~= taken[0]);
            } else {
                assert(joined@ =~= joined_lines(views.take(i as int)) + seq!['\n'] + taken.last());
            }
        }
        i = i + 1;
    }
    assert(views.take(parts@.len() as int) =~= views);
    joined
}

/// The non-empty char ranges of a rectangle's lines, top to bottom.
fn collect_rectangle_ranges(text: &Rope, tab_width: usize, rect: &RectangleSelection) -> (ranges: Vec<(usize, usize)>)
    requires
        rect_height(*rect) > 0 ==> rect.line_end < line_count(rope_text(*text)),
        column_bound(tab_width as nat, rope_text(*text)) <= usize::MAX,
    ensures
        ranges@.len() == rectangle_ranges(rope_text(*text), tab_width as nat, *rect).len(),
        forall|k: int|
            0 <= k < ranges@.len() ==> (#[trigger] ranges@[k]).0 == rectangle_ranges(
                rope_text(*text),
                tab_width as nat,
                *rect,
            )[k].0 && ranges@[k].1 == rectangle_ranges(rope_text(*text), tab_width as nat, *rect)[k].1,
{
    let ghost t = rope_text(*text);
    let mut ranges: Vec<(usize, usize)> = Vec::new();
    if rect.line_start > rect.line_end {
        return ranges;
    }
    let span = rect.line_end - rect.line_start;
    let mut i: usize = 0;
    loop
        invariant_except_break
            i <= span,
            span == rect.line_end - rect.line_start,
            rect_height(*rect) == span + 1,
            rect.line_end < line_count(t),
            t == rope_text(*text),
            column_bound(tab_width as nat, t) <= usize::MAX,
            ranges@.len() == rectangle_ranges_upto(t, tab_width as nat, *rect, i as int).len(),
            forall|k: int|
                0 <= k < ranges@.len() ==> (#[trigger] ranges@[k]).0 == rectangle_ranges_upto(
                    t,
                    tab_width as nat,
                    *rect,
                    i as int,
                )[k].0 && ranges@[k].1 == rectangle_ranges_upto(t, tab_width as nat, *rect, i as int)[k].1,
        ensures
            ranges@.len() == rectangle_ranges(t, tab_width as nat, *rect).len(),
            forall|k: int|
                0 <= k < ranges@.len() ==> (#[trigger] ranges@[k]).0 == rectangle_ranges(
                    t,
                    tab_width as nat,
                    *rect,
                )[k].0 && ranges@[k].1 == rectangle_ranges(t, tab_width as nat, *rect)[k].1,
        decreases span - i,
    {
        let l = rect.line_start + i;
        let mapping = map_line(text, tab_width, l, rect.column_left, rect.column_right);
        if !mapping.is_empty() {
            ranges.push((mapping.char_start, mapping.char_end));
        }
        if i == span {
            break;
        }
        i = i + 1;
    }
    ranges
}

// ---------------------------------------------------------------------------
// messages

/// A message to one cursor of a buffer.
#[derive(Clone, Copy, Debug, PartialEq, Eq, Structural)]
pub enum CursorMessage {
    // Movement
    Up(usize),
    Down(usize),
    Left,
    Right,
    StartOfLine,
    EndOfLine,
    StartOfBuffer,
    EndOfBuffer,
    // Editing
    BeginSelection,
    ClearSelection,
    SelectAll,
    Yank,
    CopySelection,
    CutSelection,
    DeleteForward,
    DeleteBackward,
    DeleteLine,
    InsertTab,
    InsertNewLine,
    InsertChar { character: char, move_forward: bool },
    // Undo / Redo
    Undo,
    Redo,
    // Rectangle selection mode
    BeginRectangleSelection,
    ClearRectangleSelection,
    RectangleCopy,
    RectangleCut,
    RectangleDelete,
}

/// A message to a buffer.
#[derive(Debug)]
pub enum BufferMessage {
    /// Write the buffer to its file.
    SaveBufferStart,
    /// The buffer was written to its file (the text written, as read back),
    /// or could not be (why).
    SaveBufferEnd(Result<Rope, String>),
    PreviousChildRevision,
    NextChildRevision,
    CursorMessage { cursor_id: CursorId, message: CursorMessage },
}

/// A message to one of the buffers.
#[derive(Debug)]
pub struct BuffersMessage {
    buffer_id: BufferId,
    inner: BufferMessage,
}

impl BuffersMessage {
    pub closed spec fn target(&self) -> BufferId {
        self.buffer_id
    }

    pub closed spec fn message(&self) -> BufferMessage {
        self.inner
    }

    pub fn new(buffer_id: BufferId, message: BufferMessage) -> (m: Self)
        ensures
            m.target() == buffer_id,
            m.message() == message,
    {
        Self { buffer_id, inner: message }
    }

    /// The buffer the message is for.
    pub fn buffer_id(&self) -> (id: BufferId)
        ensures
            id == self.target(),
    {
        self.buffer_id
    }

    /// The message to that buffer.
    pub fn inner(&self) -> (message: &BufferMessage)
        ensures
            *message == self.message(),
    {
        &self.inner
    }
}

/// Whether the message only moves the cursor or changes what it selects.
pub open spec fn is_navigation(message: CursorMessage) -> bool {
    match message {
        CursorMessage::Up(_) | CursorMessage::Down(_) | CursorMessage::Left
        | CursorMessage::Right | CursorMessage::StartOfLine | CursorMessage::EndOfLine
        | CursorMessage::StartOfBuffer | CursorMessage::EndOfBuffer
        | CursorMessage::BeginSelection | CursorMessage::ClearSelection
        | CursorMessage::SelectAll | CursorMessage::BeginRectangleSelection
        | CursorMessage::ClearRectangleSelection => true,
        _ => false,
    }
}

/// Whether the message edits the text (or the clipboard) by one diff.
pub open spec fn is_single_edit(message: CursorMessage) -> bool {
    match message {
        CursorMessage::DeleteForward | CursorMessage::DeleteBackward | CursorMessage::DeleteLine
        | CursorMessage::Yank | CursorMessage::CopySelection | CursorMessage::CutSelection
        | CursorMessage::InsertTab | CursorMessage::InsertNewLine | CursorMessage::InsertChar {
            ..
        } => true,
        _ => false,
    }
}

/// Whether the navigation message works from the cursor's line or column,
/// which must then lie in the text.
pub open spec fn starts_from_cursor(message: CursorMessage) -> bool {
    match message {
        CursorMessage::Up(_) | CursorMessage::Down(_) | CursorMessage::Left
        | CursorMessage::Right | CursorMessage::StartOfLine | CursorMessage::EndOfLine
        | CursorMessage::BeginRectangleSelection => true,
        _ => false,
    }
}

/// The cursor after a navigation message; a move in rectangle mode takes
/// the rectangle's corner along.
pub open spec fn navigated(t: Seq<char>, tab: nat, c: Cursor, message: CursorMessage) -> Cursor {
    match message {
        CursorMessage::Up(n) => vertical_move(t, tab, c, Direction::Backward, n as nat).with_diagonal(
            tab,
            t,
        ),
        CursorMessage::Down(n) => vertical_move(t, tab, c, Direction::Forward, n as nat).with_diagonal(
            tab,
            t,
        ),
        CursorMessage::Left => horizontal_move(t, c, Direction::Backward, 1).with_diagonal(tab, t),
        CursorMessage::Right => horizontal_move(t, c, Direction::Forward, 1).with_diagonal(tab, t),
        CursorMessage::StartOfLine => line_start_move(t, c).with_diagonal(tab, t),
        CursorMessage::EndOfLine => line_end_move(t, c).with_diagonal(tab, t),
        CursorMessage::StartOfBuffer => buffer_start_move(t, c).with_diagonal(tab, t),
        CursorMessage::EndOfBuffer => buffer_end_move(t, c).with_diagonal(tab, t),
        CursorMessage::BeginSelection => Cursor {
            selection: Some(c.range.start),
            rectangle_selection: None,
            ..c
        },
        CursorMessage::ClearSelection => Cursor { selection: None, rectangle_selection: None, ..c },
        CursorMessage::SelectAll => c.with_all_selected(t),
        CursorMessage::BeginRectangleSelection => c.with_rectangle_begun(tab, t),
        CursorMessage::ClearRectangleSelection => Cursor { rectangle_selection: None, ..c },
        _ => c,
    }
}

/// `t` with `chars` inserted at `start`.
pub open spec fn inserted(t: Seq<char>, start: int, chars: Seq<char>) -> Seq<char> {
    t.subrange(0, start) + chars + t.subrange(start, t.len() as int)
}

/// The diff of inserting the char `c` at `start` of `t`.
pub open spec fn char_insertion_diff(t: Seq<char>, start: int, c: char) -> OpaqueDiff {
    OpaqueDiff {
        byte_index: byte_offset(t, start) as usize,
        old_byte_length: 0,
        new_byte_length: char_utf8_len(c) as usize,
        char_index: start as usize,
        old_char_length: 0,
        new_char_length: 1,
    }
}

/// The units that the tab key inserts.
pub open spec fn tab_chars(indentation: Indentation) -> Seq<char> {
    Seq::new(indentation.count as nat, |i: int| indentation.unit)
}

/// The text, the cursor and the diff after a message that edits by one
/// diff (`clipboard` is what a yank inserts).
pub open spec fn single_edit(
    t: Seq<char>,
    indentation: Indentation,
    c: Cursor,
    message: CursorMessage,
    clipboard: Seq<char>,
) -> (Seq<char>, Cursor, OpaqueDiff) {
    let start = c.range.start as int;
    let tab = indentation.tab_width as nat;
    match message {
        CursorMessage::DeleteForward => delete_forward_result(t, c),
        CursorMessage::DeleteBackward => delete_backward_result(t, c),
        CursorMessage::DeleteLine => delete_line_result(t, c),
        CursorMessage::Yank => if clipboard.len() == 0 {
            (t, c, OpaqueDiff::spec_empty())
        } else {
            (inserted(t, start, clipboard), after_insert(c), insertion_diff(t, start, clipboard))
        },
        CursorMessage::CopySelection => (t, Cursor { selection: None, ..c }, OpaqueDiff::spec_empty()),
        CursorMessage::CutSelection => delete_selection_result(t, c),
        CursorMessage::InsertTab => {
            let chars = tab_chars(indentation);
            let new_text = inserted(t, start, chars);
            (
                new_text,
                horizontal_move(new_text, after_insert(c), Direction::Forward, indentation.count as nat),
                insertion_diff(t, start, chars),
            )
        },
        CursorMessage::InsertNewLine => {
            let new_text = t.insert(start, '\n');
            (
                new_text,
                line_start_move(
                    new_text,
                    vertical_move(new_text, tab, after_insert(c), Direction::Forward, 1),
                ),
                char_insertion_diff(t, start, '\n'),
            )
        },
        CursorMessage::InsertChar { character, move_forward } => {
            let new_text = t.insert(start, character);
            let cursor = if move_forward {
                horizontal_move(new_text, after_insert(c), Direction::Forward, 1)
            } else {
                after_insert(c)
            };
            (new_text, cursor, char_insertion_diff(t, start, character))
        },
        _ => (t, c, OpaqueDiff::spec_empty()),
    }
}

/// How many effects a one-diff edit asks for before the change is
/// committed: the text copied or cut, or the message that nothing was
/// deleted.
pub open spec fn edit_effect_count(message: CursorMessage, diff: OpaqueDiff) -> nat {
    match message {
        CursorMessage::CopySelection | CursorMessage::CutSelection => 1,
        CursorMessage::DeleteForward | CursorMessage::DeleteBackward | CursorMessage::DeleteLine => if diff.spec_is_empty() {
            1
        } else {
            0
        },
        _ => 0,
    }
}

/// The effects a one-diff edit asks for before the change is committed.
pub open spec fn edit_effects_ok(
    effects: Seq<BufferEffect>,
    t: Seq<char>,
    c: Cursor,
    message: CursorMessage,
) -> bool {
    match message {
        CursorMessage::DeleteForward | CursorMessage::DeleteLine => effects.len() > 0
            ==> effects[0].is_log("End of buffer"@),
        CursorMessage::DeleteBackward => effects.len() > 0 ==> effects[0].is_log(
            "Beginning of buffer"@,
        ),
        CursorMessage::CopySelection => effects[0].is_clipboard(
            t.subrange(c.selection_range().0, c.selection_range().1),
        ),
        CursorMessage::CutSelection => effects[0].is_clipboard(deleted_selection(t, c)),
        _ => true,
    }
}

/// The reparse that a change by `diffs` asks for: from scratch when `fresh`
/// or when several diffs make it up, else after the first diff (if any).
pub open spec fn reparse_request(diffs: Seq<OpaqueDiff>, fresh: bool) -> (bool, Option<OpaqueDiff>) {
    let needs_fresh = fresh || diffs.len() > 1;
    (needs_fresh, if !needs_fresh && diffs.len() > 0 { Some(diffs[0]) } else { None })
}

/// `effects` is `before` followed by the reparse a change asks for, where
/// the buffer has a parser.
pub open spec fn reparse_appended(
    effects: Seq<BufferEffect>,
    before: Seq<BufferEffect>,
    parsed: bool,
    diffs: Seq<OpaqueDiff>,
    fresh: bool,
) -> bool {
    if parsed {
        &&& effects.len() == before.len() + 1
        &&& effects.drop_last() == before
        &&& effects.last().is_reparse(reparse_request(diffs, fresh).0, reparse_request(diffs, fresh).1)
    } else {
        effects == before
    }
}

/// The text, the cursor and the diffs after a rectangle cut or delete.
pub open spec fn rectangle_deletion(t: Seq<char>, tab: nat, c: Cursor) -> (Seq<char>, Cursor, Seq<OpaqueDiff>) {
    match c.rectangle_selection {
        Some(rect) => if rect.column_left != rect.column_right {
            let ranges = rectangle_ranges(t, tab, rect);
            let new_text = without_ranges(t, ranges);
            (new_text, rectangle_corner(new_text, tab, rect), range_deletion_diffs(t, ranges))
        } else {
            (t, Cursor { rectangle_selection: None, ..c }, Seq::empty())
        },
        None => (t, c, Seq::empty()),
    }
}


/// The UTF-8 length of `n` copies of `c`.
#[verifier::spinoff_prover]
proof fn lemma_utf8_len_repeat(c: char, n: nat)
    ensures
        utf8_len(Seq::new(n, |i: int| c)) == n * char_utf8_len(c),
    decreases n,
{
    if n > 0 {
        let all = Seq::new(n, |i: int| c);
        let shorter = Seq::new((n - 1) as nat, |i: int| c);
        lemma_utf8_len_repeat(c, (n - 1) as nat);
        assert(all =~= shorter + seq![c]);
        crate::text::lemma_utf8_len_append(shorter, seq![c]);
        crate::text::lemma_utf8_len_single(c);
        assert(n * char_utf8_len(c) == (n - 1) * char_utf8_len(c) + char_utf8_len(c)) by (nonlinear_arith);
    }
}

/// Whether the UTF-8 encoding of the chars has a length within `usize`.
fn utf8_len_fits(chars: &Vec<char>) -> (b: bool)
    ensures
        b == (utf8_len(chars@) <= usize::MAX),
{
    let mut total: usize = 0;
    let mut i: usize = 0;
    assert(chars@.take(0) =~= Seq::<char>::empty());
    while i < chars.len()
        invariant
            i <= chars@.len(),
            total == utf8_len(chars@.take(i as int)),
        decreases chars@.len() - i,
    {
        let n = crate::text::char_len_utf8(chars[i]);
        proof {
            let taken = chars@.take(i as int);
            assert(chars@.take(i + 1) =~= taken + seq![chars@[i as int]]);
            crate::text::lemma_utf8_len_append(taken, seq![chars@[i as int]]);
            crate::text::lemma_utf8_len_single(chars@[i as int]);
            crate::text::lemma_utf8_len_append(chars@.take(i + 1), chars@.skip(i + 1));
            assert(chars@.take(i + 1) + chars@.skip(i + 1) =~= chars@);
        }
        if total > usize::MAX - n {
            return false;
        }
        total = total + n;
        i = i + 1;
    }
    assert(chars@.take(chars@.len() as int) =~= chars@);
    true
}

/// Whether reconciling the cursor with the one diff stays within `usize`.
fn reconcile_one_fits(cursor: &Cursor, diff: &OpaqueDiff) -> (b: bool)
    ensures
        b == cursor.reconcile_fits(*diff),
{
    if diff.char_index < cursor.range.end && diff.char_index <= cursor.range.start
        && diff.old_char_length <= cursor.range.start - diff.char_index
        && diff.old_char_length <= diff.new_char_length {
        let growth = diff.new_char_length - diff.old_char_length;
        !(cursor.range.start > usize::MAX - growth || cursor.range.end > usize::MAX - growth)
    } else {
        true
    }
}


/// Reconciling with one non-empty diff fits exactly when that diff's step
/// does, which reads only its char positions and lengths.
proof fn lemma_one_diff_fits(cursor: Cursor, new_text: Seq<char>, d: OpaqueDiff, e: OpaqueDiff)
    requires
        !d.spec_is_empty(),
        d.char_index == e.char_index,
        d.old_char_length == e.old_char_length,
        d.new_char_length == e.new_char_length,
    ensures
        reconcile_all_fits(cursor, new_text, seq![d]) == cursor.reconcile_fits(e),
{
    let rest = seq![d].drop_first();
    assert(rest.len() == 0);
    assert(reconcile_all_fits(cursor.spec_reconcile(new_text, d), new_text, rest));
    assert(seq![d][0] == d);
}

pub struct Buffer {
    id: BufferId,
    content: EditTree,
    file_path: Option<FilePath>,
    modified_status: ModifiedStatus,
    cursors: Vec<Cursor>,
    indentation: Indentation,
    has_parser: bool,
}

impl Buffer {
    /// The staged text.
    pub closed spec fn text(&self) -> Seq<char> {
        self.content.staged_text()
    }

    /// The edit tree.
    pub closed spec fn tree(&self) -> EditTree {
        self.content
    }

    /// The cursors, by their ids.
    pub closed spec fn cursor_list(&self) -> Seq<Cursor> {
        self.cursors@
    }

    pub closed spec fn spec_id(&self) -> BufferId {
        self.id
    }

    pub closed spec fn status(&self) -> ModifiedStatus {
        self.modified_status
    }

    pub closed spec fn spec_indentation(&self) -> Indentation {
        self.indentation
    }

    /// Whether a parser keeps a syntax tree of the text.
    pub closed spec fn parsed(&self) -> bool {
        self.has_parser
    }

    pub closed spec fn path(&self) -> Option<FilePath> {
        self.file_path
    }

    /// The buffer's edit tree is well formed and it has a cursor.
    pub closed spec fn wf(&self) -> bool {
        &&& self.content.wf()
        &&& self.cursors@.len() >= 1
    }

    /// Everything but the cursors and the staged text is the same.
    pub open spec fn same_settings(&self, other: Buffer) -> bool {
        &&& self.spec_id() == other.spec_id()
        &&& self.path() == other.path()
        &&& self.spec_indentation() == other.spec_indentation()
        &&& self.parsed() == other.parsed()
    }

    /// The visual columns computed over the text stay within `usize`: its
    /// tabs at the tab width, and every char at three columns, fit.
    pub open spec fn columns_fit(&self) -> bool {
        column_bound(self.spec_indentation().tab_width as nat, self.text()) <= usize::MAX
    }

    /// Where the cursor has a rectangle of some width, its lines are lines of
    /// the text.
    pub open spec fn rectangle_in_text(&self, cursor_id: CursorId) -> bool {
        self.cursor_list()[cursor_id.index() as int].rectangle_selection matches Some(rect) ==> (
        rect.column_left != rect.column_right ==> rect.line_start < line_count(self.text()) && (
        rect_height(rect) > 0 ==> rect.line_end < line_count(self.text())))
    }

    /// Rectangle copy: puts the text the rectangle covers, its lines joined
    /// by `\n`, on the clipboard and records it as the last rectangle kill,
    /// then leaves rectangle mode. A rectangle of width 0 only leaves
    /// rectangle mode; without a rectangle nothing happens. The text is not
    /// changed.
    fn rectangle_copy(
        &mut self,
        cursor_id: CursorId,
        kills: &mut RectangleKillStore,
        effects: &mut Vec<BufferEffect>,
    ) -> (compound: CompoundDiff)
        requires
            old(self).wf(),
            cursor_id.index() < old(self).cursor_list().len(),
            old(self).columns_fit(),
            old(self).rectangle_in_text(cursor_id),
        ensures
            final(self).wf(),
            compound.diffs() == Seq::<OpaqueDiff>::empty(),
            final(self).tree() == old(self).tree(),
            final(self).status() == old(self).status(),
            final(self).same_settings(*old(self)),
            ({
                let id = cursor_id.index() as int;
                let cursor = old(self).cursor_list()[id];
                match cursor.rectangle_selection {
                    None => {
                        &&& final(self).cursor_list() == old(self).cursor_list()
                        &&& final(kills)@ == old(kills)@
                        &&& final(effects)@ == old(effects)@
                    },
                    Some(rect) => {
                        &&& final(self).cursor_list() == old(self).cursor_list().update(
                            id,
                            Cursor { rectangle_selection: None, ..cursor },
                        )
                        &&& if rect.column_left == rect.column_right {
                            &&& final(kills)@ == old(kills)@
                            &&& final(effects)@ == old(effects)@
                        } else {
                            let parts = rectangle_parts(
                                old(self).text(),
                                old(self).spec_indentation().tab_width as nat,
                                rect,
                            );
                            &&& final(kills)@ == Some((parts, joined_lines(parts)))
                            &&& final(effects)@.len() == old(effects)@.len() + 1
                            &&& final(effects)@.drop_last() == old(effects)@
                            &&& final(effects)@.last().is_clipboard(joined_lines(parts))
                        }
                    },
                }
            }),
    {
        let index = cursor_id.0;
        let rect = match self.cursors[index].rectangle_selection() {
            Some(r) => *r,
            None => return CompoundDiff::empty(),
        };
        if rect.is_zero_width() {
            self.cursors[index].clear_rectangle_selection();
            return CompoundDiff::empty();
        }
        let tab_width = self.indentation.tab_width;
        let parts = collect_rectangle_parts(self.content.staged(), tab_width, &rect);
        let clipboard_text = join_lines(&parts);
        effects.push(BufferEffect::SetClipboard(clipboard_text.clone()));
        kills.record(parts, clipboard_text);
        self.cursors[index].clear_rectangle_selection();
        CompoundDiff::empty()
    }

    /// Rectangle delete: removes what the rectangle covers on each of its
    /// lines, the bottom line first, and puts the cursor on the rectangle's
    /// top left corner. Says whether there was a rectangle of some width;
    /// without one nothing changes.
    fn rectangle_delete_inner(&mut self, cursor_id: CursorId) -> (result: (CompoundDiff, bool))
        requires
            old(self).wf(),
            cursor_id.index() < old(self).cursor_list().len(),
            old(self).columns_fit(),
            old(self).rectangle_in_text(cursor_id),
        ensures
            final(self).wf(),
            final(self).same_settings(*old(self)),
            final(self).status() == old(self).status(),
            final(self).tree().revision_count() == old(self).tree().revision_count(),
            forall|i: int| #[trigger] final(self).tree().revision(i) == old(self).tree().revision(i),
            final(self).tree().head() == old(self).tree().head(),
            final(self).text().len() <= old(self).text().len(),
            ({
                let id = cursor_id.index() as int;
                let cursor = old(self).cursor_list()[id];
                let t = old(self).text();
                let tab = old(self).spec_indentation().tab_width as nat;
                if cursor.rectangle_selection matches Some(r) && r.column_left != r.column_right {
                    let rect = cursor.rectangle_selection->0;
                    let ranges = rectangle_ranges(t, tab, rect);
                    let new_text = without_ranges(t, ranges);
                    &&& result.1
                    &&& result.0.diffs() == range_deletion_diffs(t, ranges)
                    &&& final(self).text() == new_text
                    &&& final(self).cursor_list() == old(self).cursor_list().update(
                        id,
                        rectangle_corner(new_text, tab, rect),
                    )
                } else {
                    &&& !result.1
                    &&& result.0.diffs() == Seq::<OpaqueDiff>::empty()
                    &&& final(self).tree() == old(self).tree()
                    &&& final(self).cursor_list() == old(self).cursor_list()
                }
            }),
    {
        let index = cursor_id.0;
        let rect = match self.cursors[index].rectangle_selection() {
            Some(r) => *r,
            None => return (CompoundDiff::empty(), false),
        };
        if rect.is_zero_width() {
            return (CompoundDiff::empty(), false);
        }
        let tab_width = self.indentation.tab_width;
        let ghost t = self.content.staged_text();
        let ghost tab = tab_width as nat;
        let ghost before = self.content;
        let len = rope_len_chars(self.content.staged());
        let ranges = collect_rectangle_ranges(self.content.staged(), tab_width, &rect);
        let ghost rs = rectangle_ranges(t, tab, rect);
        proof {
            lemma_rectangle_ranges(t, tab, rect, rect_height(rect) as int);
        }
        let mut diffs: Vec<OpaqueDiff> = Vec::new();
        let mut k = ranges.len();
        let ghost settings = *self;
        assert(rs.take(rs.len() as int) =~= rs);
        assert(t.subrange(0, t.len() as int) =~= t);
        while k > 0
            invariant
                k <= rs.len(),
                ranges@.len() == rs.len(),
                forall|j: int|
                    0 <= j < ranges@.len() ==> (#[trigger] ranges@[j]).0 == rs[j].0
                        && ranges@[j].1 == rs[j].1,
                forall|j: int|
                    0 <= j < rs.len() ==> line_start(t, rect.line_start as nat) <= (
                    #[trigger] rs[j]).0 < rs[j].1 <= t.len(),
                forall|j: int, m: int| 0 <= j < m < rs.len() ==> (#[trigger] rs[j]).1 <= (#[trigger] rs[m]).0,
                t.len() <= usize::MAX,
                column_bound(tab, self.content.staged_text()) <= column_bound(tab, t),
                self.cursors == settings.cursors,
                self.id == settings.id,
                self.file_path == settings.file_path,
                self.modified_status == settings.modified_status,
                self.indentation == settings.indentation,
                self.has_parser == settings.has_parser,
                index < self.cursors@.len(),
                self.content.wf(),
                self.content.revision_count() == before.revision_count(),
                forall|i: int| #[trigger] self.content.revision(i) == before.revision(i),
                self.content.head() == before.head(),
                without_ranges(self.content.staged_text(), rs.take(k as int)) == without_ranges(t, rs),
                ({
                    let bound = if k < rs.len() { rs[k as int].0 } else { t.len() as int };
                    &&& bound <= self.content.staged_text().len() <= t.len()
                    &&& self.content.staged_text().subrange(0, bound) == t.subrange(0, bound)
                }),
                diffs@ == range_deletion_diffs(t, rs).take(rs.len() - k),
            decreases k,
        {
            k = k - 1;
            let ghost c = self.content.staged_text();
            let ghost old_bound = if k + 1 < rs.len() { rs[k + 1].0 } else { t.len() as int };
            let (start, end) = ranges[k];
            proof {
                assert(c.subrange(0, end as int) == t.subrange(0, end as int)) by {
                    assert(c.subrange(0, end as int) =~= c.subrange(0, old_bound).subrange(0, end as int));
                    assert(t.subrange(0, end as int) =~= t.subrange(0, old_bound).subrange(0, end as int));
                }
                assert(c.subrange(0, start as int) == t.subrange(0, start as int)) by {
                    assert(c.subrange(0, start as int) =~= c.subrange(0, old_bound).subrange(0, start as int));
                    assert(t.subrange(0, start as int) =~= t.subrange(0, old_bound).subrange(0, start as int));
                }
                crate::cursor::lemma_same_prefix_offset(c, t, start as int);
                crate::cursor::lemma_same_prefix_offset(c, t, end as int);
                crate::text::lemma_byte_offset_monotonic(c, start as int, end as int);
            }
            let byte_start = crate::text::rope_char_to_byte(self.content.staged(), start);
            let byte_end = crate::text::rope_char_to_byte(self.content.staged(), end);
            diffs.push(OpaqueDiff::new(byte_start, byte_end - byte_start, 0, start, end - start, 0));
            crate::text::rope_remove(self.content.staged_mut(), start, end);
            proof {
                let c2 = self.content.staged_text();
                assert(c2 =~= c.subrange(0, start as int) + c.subrange(end as int, c.len() as int));
                lemma_column_bound_remove(tab, c, start as int, end as int);
                assert(rs.take(k + 1).drop_last() =~= rs.take(k as int));
                assert(rs.take(k + 1).last() == rs[k as int]);
                assert(without_ranges(c, rs.take(k + 1)) == without_ranges(c2, rs.take(k as int)));
                assert(c2.subrange(0, start as int) =~= c.subrange(0, start as int));
                let all = range_deletion_diffs(t, rs);
                assert(all[rs.len() - 1 - k] == crate::cursor::deletion_diff(t, start as int, end as int));
                assert(diffs@ =~= all.take(rs.len() - k));
            }
        }
        proof {
            assert(rs.take(0) =~= Seq::<(int, int)>::empty());
            assert(range_deletion_diffs(t, rs).take(rs.len() as int) =~= range_deletion_diffs(t, rs));
        }
        let ghost nt = self.content.staged_text();
        proof {
            let top = rect.line_start as nat;
            let p = line_start(t, top) as int;
            let bound = if 0 < rs.len() { rs[0].0 } else { t.len() as int };
            lemma_line_start(t, top);
            assert(nt.subrange(0, p) == t.subrange(0, p)) by {
                assert(nt.subrange(0, p) =~= nt.subrange(0, bound).subrange(0, p));
                assert(t.subrange(0, p) =~= t.subrange(0, bound).subrange(0, p));
            }
            crate::text::lemma_line_count_common_prefix(t, nt, top);
        }
        let new_len = rope_len_chars(self.content.staged());
        let (top_start, top_slice) = line_for_columns(self.content.staged(), rect.line_start);
        proof {
            lemma_line_column_bound(tab, nt, rect.line_start as nat);
        }
        let (char_at_left, _) = visual_column_to_char_index_pub(tab_width, &top_slice, rect.column_left);
        let new_cursor_pos = top_start + char_at_left;
        let grapheme_end = self.content.staged().next_grapheme_boundary(new_cursor_pos);
        self.cursors.set(index, Cursor::with_range(new_cursor_pos..grapheme_end));
        (CompoundDiff(diffs), true)
    }

    /// Rectangle cut: as rectangle copy, then rectangle delete.
    fn rectangle_cut(
        &mut self,
        cursor_id: CursorId,
        kills: &mut RectangleKillStore,
        effects: &mut Vec<BufferEffect>,
    ) -> (compound: CompoundDiff)
        requires
            old(self).wf(),
            cursor_id.index() < old(self).cursor_list().len(),
            old(self).columns_fit(),
            old(self).rectangle_in_text(cursor_id),
        ensures
            final(self).wf(),
            final(self).same_settings(*old(self)),
            final(self).status() == old(self).status(),
            final(self).tree().revision_count() == old(self).tree().revision_count(),
            forall|i: int| #[trigger] final(self).tree().revision(i) == old(self).tree().revision(i),
            final(self).tree().head() == old(self).tree().head(),
            final(self).text().len() <= old(self).text().len(),
            ({
                let id = cursor_id.index() as int;
                let cursor = old(self).cursor_list()[id];
                let t = old(self).text();
                let tab = old(self).spec_indentation().tab_width as nat;
                match cursor.rectangle_selection {
                    Some(rect) => if rect.column_left != rect.column_right {
                        let parts = rectangle_parts(t, tab, rect);
                        let ranges = rectangle_ranges(t, tab, rect);
                        let new_text = without_ranges(t, ranges);
                        &&& final(kills)@ == Some((parts, joined_lines(parts)))
                        &&& final(effects)@.len() == old(effects)@.len() + 1
                        &&& final(effects)@.drop_last() == old(effects)@
                        &&& final(effects)@.last().is_clipboard(joined_lines(parts))
                        &&& compound.diffs() == range_deletion_diffs(t, ranges)
                        &&& final(self).text() == new_text
                        &&& final(self).cursor_list() == old(self).cursor_list().update(
                            id,
                            rectangle_corner(new_text, tab, rect),
                        )
                    } else {
                        &&& final(kills)@ == old(kills)@
                        &&& final(effects)@ == old(effects)@
                        &&& compound.diffs() == Seq::<OpaqueDiff>::empty()
                        &&& final(self).tree() == old(self).tree()
                        &&& final(self).cursor_list() == old(self).cursor_list().update(
                            id,
                            Cursor { rectangle_selection: None, ..cursor },
                        )
                    },
                    None => {
                        &&& final(kills)@ == old(kills)@
                        &&& final(effects)@ == old(effects)@
                        &&& compound.diffs() == Seq::<OpaqueDiff>::empty()
                        &&& final(self).tree() == old(self).tree()
                        &&& final(self).cursor_list() == old(self).cursor_list()
                    },
                }
            }),
    {
        let index = cursor_id.0;
        let rect = match self.cursors[index].rectangle_selection() {
            Some(r) => Some(*r),
            None => None,
        };
        let tab_width = self.indentation.tab_width;
        if let Some(r) = rect {
            if !r.is_zero_width() {
                let parts = collect_rectangle_parts(self.content.staged(), tab_width, &r);
                let clipboard_text = join_lines(&parts);
                effects.push(BufferEffect::SetClipboard(clipboard_text.clone()));
                kills.record(parts, clipboard_text);
            }
        }
        let (compound, had_deletion) = self.rectangle_delete_inner(cursor_id);
        if !had_deletion && rect.is_some() {
            self.cursors[index].clear_rectangle_selection();
        }
        compound
    }

    /// Rectangle delete: removes the rectangle (as rectangle cut does) and
    /// leaves the clipboard and the recorded kill alone. A rectangle of width
    /// 0 only leaves rectangle mode.
    fn rectangle_delete(&mut self, cursor_id: CursorId) -> (compound: CompoundDiff)
        requires
            old(self).wf(),
            cursor_id.index() < old(self).cursor_list().len(),
            old(self).columns_fit(),
            old(self).rectangle_in_text(cursor_id),
        ensures
            final(self).wf(),
            final(self).same_settings(*old(self)),
            final(self).status() == old(self).status(),
            final(self).tree().revision_count() == old(self).tree().revision_count(),
            forall|i: int| #[trigger] final(self).tree().revision(i) == old(self).tree().revision(i),
            final(self).tree().head() == old(self).tree().head(),
            final(self).text().len() <= old(self).text().len(),
            ({
                let id = cursor_id.index() as int;
                let cursor = old(self).cursor_list()[id];
                let t = old(self).text();
                let tab = old(self).spec_indentation().tab_width as nat;
                match cursor.rectangle_selection {
                    Some(rect) => if rect.column_left != rect.column_right {
                        let ranges = rectangle_ranges(t, tab, rect);
                        let new_text = without_ranges(t, ranges);
                        &&& compound.diffs() == range_deletion_diffs(t, ranges)
                        &&& final(self).text() == new_text
                        &&& final(self).cursor_list() == old(self).cursor_list().update(
                            id,
                            rectangle_corner(new_text, tab, rect),
                        )
                    } else {
                        &&& compound.diffs() == Seq::<OpaqueDiff>::empty()
                        &&& final(self).tree() == old(self).tree()
                        &&& final(self).cursor_list() == old(self).cursor_list().update(
                            id,
                            Cursor { rectangle_selection: None, ..cursor },
                        )
                    },
                    None => {
                        &&& compound.diffs() == Seq::<OpaqueDiff>::empty()
                        &&& final(self).tree() == old(self).tree()
                        &&& final(self).cursor_list() == old(self).cursor_list()
                    },
                }
            }),
    {
        let index = cursor_id.0;
        let (compound, had_deletion) = self.rectangle_delete_inner(cursor_id);
        if !had_deletion {
            if self.cursors[index].is_rectangle_mode() {
                self.cursors[index].clear_rectangle_selection();
            }
        }
        compound
    }

    /// Every cursor but the `i`th can be reconciled with `diffs` on
    /// `new_text` within `usize`.
    pub open spec fn others_fit(&self, i: int, new_text: Seq<char>, diffs: Seq<OpaqueDiff>) -> bool {
        forall|k: int|
            0 <= k < self.cursor_list().len() && k != i ==> reconcile_all_fits(
                #[trigger] self.cursor_list()[k],
                new_text,
                diffs,
            )
    }

    /// `after` is `self` after a change to `new_text` by `diffs` that leaves
    /// the `i`th cursor as `cursor` was committed: where some diff is not
    /// empty, the buffer is changed, the other cursors follow the diffs, a
    /// revision is made and a reparse asked for; otherwise only the text and
    /// the cursor are as given.
    pub open spec fn committed(
        &self,
        after: Buffer,
        i: int,
        new_text: Seq<char>,
        cursor: Cursor,
        diffs: Seq<OpaqueDiff>,
        prefix: Seq<BufferEffect>,
        effects: Seq<BufferEffect>,
    ) -> bool {
        &&& after.cursor_list().len() == self.cursor_list().len()
        &&& after.cursor_list()[i] == cursor
        &&& if !diffs_empty(diffs) {
            &&& after.status() == ModifiedStatus::Changed
            &&& forall|k: int|
                0 <= k < self.cursor_list().len() && k != i ==> #[trigger] after.cursor_list()[k]
                    == reconcile_all(self.cursor_list()[k], new_text, diffs)
            &&& after.tree().made_revision_from(self.tree(), new_text, diffs, cursor)
            &&& reparse_appended(effects, prefix, self.parsed(), diffs, false)
        } else {
            &&& after.status() == self.status()
            &&& forall|k: int|
                0 <= k < self.cursor_list().len() && k != i ==> #[trigger] after.cursor_list()[k]
                    == self.cursor_list()[k]
            &&& after.text() == new_text
            &&& after.tree().revision_count() == self.tree().revision_count()
            &&& forall|r: int| #[trigger] after.tree().revision(r) == self.tree().revision(r)
            &&& after.tree().head() == self.tree().head()
            &&& effects == prefix
        }
    }

    /// What undo (or redo) leads to: the text, the cursor and the diffs of
    /// the revision it goes to, if there is one.
    pub open spec fn history_target(&self, undo: bool) -> Option<(Seq<char>, Cursor, Seq<OpaqueDiff>)> {
        let tree = self.tree();
        if undo {
            match tree.head_revision().parent_ref() {
                Some(p) => Some(
                    (
                        tree.revision(p.target() as int).text_chars(),
                        tree.revision(p.target() as int).saved_cursor(),
                        p.diffs(),
                    ),
                ),
                None => None,
            }
        } else if tree.can_redo() {
            let child = tree.redo_child();
            Some(
                (
                    tree.revision(child.target() as int).text_chars(),
                    tree.revision(child.target() as int).saved_cursor(),
                    child.diffs(),
                ),
            )
        } else {
            None
        }
    }

    /// `after` is `self` after an undo (or a redo) by the `i`th cursor: the
    /// head moves, the cursor takes the cursor saved with the revision, a
    /// fresh parse is asked for, and where the diffs change something the
    /// buffer is changed and the other cursors follow them. No revision is
    /// made.
    pub open spec fn went_back(&self, after: Buffer, i: int, undo: bool, effects: Seq<BufferEffect>) -> bool {
        &&& if undo {
            after.tree().undone(self.tree())
        } else {
            after.tree().redone(self.tree())
        }
        &&& after.cursor_list().len() == self.cursor_list().len()
        &&& match self.history_target(undo) {
            Some((new_text, cursor, diffs)) => {
                &&& after.cursor_list()[i] == cursor
                &&& reparse_appended(effects, Seq::empty(), self.parsed(), diffs, true)
                &&& if !diffs_empty(diffs) {
                    &&& after.status() == ModifiedStatus::Changed
                    &&& forall|k: int|
                        0 <= k < self.cursor_list().len() && k != i ==> #[trigger] after.cursor_list()[k]
                            == reconcile_all(self.cursor_list()[k], new_text, diffs)
                } else {
                    &&& after.status() == self.status()
                    &&& forall|k: int|
                        0 <= k < self.cursor_list().len() && k != i ==> #[trigger] after.cursor_list()[k]
                            == self.cursor_list()[k]
                }
            },
            None => {
                &&& after.cursor_list() == self.cursor_list()
                &&& after.status() == self.status()
                &&& effects.len() == 0
            },
        }
    }

    /// The `i`th cursor may take the message: the cases in which handling
    /// it would index out of the text or out of `usize`, which are left out.
    pub open spec fn accepts(&self, cursor_id: CursorId, message: CursorMessage, clipboard: Seq<char>) -> bool {
        &&& cursor_id.index() < self.cursor_list().len()
        &&& self.columns_fit()
        &&& self.tree().revision_count() < usize::MAX
        &&& self.message_ok(cursor_id, message, clipboard)
    }

    /// What the message asks of the cursor and the text, by message.
    pub open spec fn message_ok(&self, cursor_id: CursorId, message: CursorMessage, clipboard: Seq<char>) -> bool {
        let i = cursor_id.index() as int;
        let t = self.text();
        let c = self.cursor_list()[i];
        let start = c.range.start;
        let indentation = self.spec_indentation();
        let edit = single_edit(t, indentation, c, message, clipboard);
        match message {
            CursorMessage::Up(_) | CursorMessage::Down(_) | CursorMessage::Left
            | CursorMessage::Right | CursorMessage::StartOfLine | CursorMessage::EndOfLine
            | CursorMessage::BeginRectangleSelection => starts_from_cursor(message) && start <= t.len(),
            CursorMessage::DeleteForward => t.len() == 0 || start == t.len() || start
                <= c.range.end <= t.len(),
            CursorMessage::DeleteBackward => start <= t.len(),
            CursorMessage::DeleteLine => t.len() == 0 || start <= t.len(),
            CursorMessage::CopySelection => c.selection_range().0 <= c.selection_range().1
                <= t.len(),
            CursorMessage::CutSelection => t.len() == 0 || c.selection_range().0
                <= c.selection_range().1 <= t.len(),
            CursorMessage::Yank => clipboard.len() > 0 ==> {
                &&& start <= t.len()
                &&& t.len() + clipboard.len() <= usize::MAX
                &&& utf8_len(clipboard) <= usize::MAX
                &&& self.others_fit(i, edit.0, seq![edit.2])
            },
            CursorMessage::InsertTab => {
                &&& start <= t.len()
                &&& t.len() + indentation.count <= usize::MAX
                &&& indentation.count * char_utf8_len(indentation.unit) <= usize::MAX
                &&& self.others_fit(i, edit.0, seq![edit.2])
            },
            CursorMessage::InsertNewLine => {
                &&& start <= t.len()
                &&& column_bound(indentation.tab_width as nat, t) + 3 <= usize::MAX
                &&& self.others_fit(i, edit.0, seq![edit.2])
            },
            CursorMessage::InsertChar { .. } => {
                &&& start <= t.len()
                &&& self.others_fit(i, edit.0, seq![edit.2])
            },
            CursorMessage::Undo => match self.history_target(true) {
                Some((new_text, _, diffs)) => self.others_fit(i, new_text, diffs),
                None => true,
            },
            CursorMessage::Redo => match self.history_target(false) {
                Some((new_text, _, diffs)) => self.others_fit(i, new_text, diffs),
                None => true,
            },
            CursorMessage::RectangleCopy | CursorMessage::RectangleCut
            | CursorMessage::RectangleDelete => self.rectangle_in_text(cursor_id),
            _ => true,
        }
    }

    /// `after` is `self` after the `i`th cursor took the message, with the
    /// recorded rectangle kill going from `kills` to `kills_after` and the
    /// effects asked for.
    pub open spec fn handled(
        &self,
        after: Buffer,
        cursor_id: CursorId,
        message: CursorMessage,
        clipboard: Seq<char>,
        kills: Option<(Seq<Seq<char>>, Seq<char>)>,
        kills_after: Option<(Seq<Seq<char>>, Seq<char>)>,
        effects: Seq<BufferEffect>,
    ) -> bool {
        let i = cursor_id.index() as int;
        let t = self.text();
        let indentation = self.spec_indentation();
        let tab = indentation.tab_width as nat;
        let c = self.cursor_list()[i];
        &&& after.same_settings(*self)
        &&& if is_navigation(message) {
            &&& after.cursor_list() == self.cursor_list().update(i, navigated(t, tab, c, message))
            &&& after.tree() == self.tree()
            &&& after.status() == self.status()
            &&& kills_after == kills
            &&& effects.len() == 0
        } else if is_single_edit(message) {
            let (new_text, cursor, diff) = single_edit(t, indentation, c, message, clipboard);
            let count = edit_effect_count(message, diff) as int;
            &&& kills_after == kills
            &&& effects.len() >= count
            &&& edit_effects_ok(effects.take(count), t, c, message)
            &&& self.committed(after, i, new_text, cursor, seq![diff], effects.take(count), effects)
        } else if message == CursorMessage::Undo || message == CursorMessage::Redo {
            &&& kills_after == kills
            &&& self.went_back(after, i, message == CursorMessage::Undo, effects)
        } else if message == CursorMessage::RectangleCopy {
            &&& after.tree() == self.tree()
            &&& after.status() == self.status()
            &&& match c.rectangle_selection {
                None => {
                    &&& after.cursor_list() == self.cursor_list()
                    &&& kills_after == kills
                    &&& effects.len() == 0
                },
                Some(rect) => {
                    &&& after.cursor_list() == self.cursor_list().update(
                        i,
                        Cursor { rectangle_selection: None, ..c },
                    )
                    &&& if rect.column_left == rect.column_right {
                        &&& kills_after == kills
                        &&& effects.len() == 0
                    } else {
                        let parts = rectangle_parts(t, tab, rect);
                        &&& kills_after == Some((parts, joined_lines(parts)))
                        &&& effects.len() == 1
                        &&& effects[0].is_clipboard(joined_lines(parts))
                    }
                },
            }
        } else if message == CursorMessage::RectangleCut || message == CursorMessage::RectangleDelete {
            let (new_text, cursor, diffs) = rectangle_deletion(t, tab, c);
            let copies = message == CursorMessage::RectangleCut && (c.rectangle_selection matches Some(
                rect,
            ) && rect.column_left != rect.column_right);
            let count = if copies { 1int } else { 0 };
            &&& if copies {
                let parts = rectangle_parts(t, tab, c.rectangle_selection->0);
                &&& kills_after == Some((parts, joined_lines(parts)))
                &&& effects.len() >= 1
                &&& effects[0].is_clipboard(joined_lines(parts))
            } else {
                kills_after == kills
            }
            &&& self.committed(after, i, new_text, cursor, diffs, effects.take(count), effects)
        } else {
            false
        }
    }

    pub fn new(
        id: BufferId,
        text: Rope,
        file_path: Option<FilePath>,
        indentation: Indentation,
        has_parser: bool,
    ) -> (buffer: Self)
        ensures
            buffer.wf(),
            buffer.spec_id() == id,
            buffer.text() == rope_text(text),
            buffer.tree().revision_count() == 1,
            buffer.tree().head() == 0,
            buffer.tree().revision(0).text_chars() == rope_text(text),
            buffer.path() == file_path,
            buffer.spec_indentation() == indentation,
            buffer.parsed() == has_parser,
            buffer.status() == ModifiedStatus::Unchanged,
            buffer.cursor_list() == seq![plain_cursor(0, 0)],
    {
        let mut cursors: Vec<Cursor> = Vec::new();
        cursors.push(Cursor::new());
        Self {
            id,
            content: EditTree::new(text),
            file_path,
            modified_status: ModifiedStatus::Unchanged,
            cursors,
            indentation,
            has_parser,
        }
    }

    pub fn id(&self) -> (id: BufferId)
        ensures
            id == self.spec_id(),
    {
        self.id
    }

    pub fn file_path(&self) -> (path: Option<&FilePath>)
        ensures
            match self.path() {
                Some(p) => path matches Some(q) && *q == p,
                None => path is None,
            },
    {
        self.file_path.as_ref()
    }

    pub fn indentation(&self) -> (indentation: Indentation)
        ensures
            indentation == self.spec_indentation(),
    {
        self.indentation
    }

    pub fn has_parser(&self) -> (b: bool)
        ensures
            b == self.parsed(),
    {
        self.has_parser
    }

    pub fn edit_tree(&self) -> (tree: &EditTree)
        ensures
            *tree == self.tree(),
    {
        &self.content
    }

    pub fn cursor(&self, cursor_id: CursorId) -> (cursor: &Cursor)
        requires
            cursor_id.index() < self.cursor_list().len(),
        ensures
            *cursor == self.cursor_list()[cursor_id.index() as int],
    {
        &self.cursors[cursor_id.0]
    }

    pub fn modified_status(&self) -> (status: ModifiedStatus)
        ensures
            status == self.status(),
    {
        self.modified_status
    }

    /// Adds a cursor, a copy of the first one, and gives its id.
    pub fn new_cursor(&mut self) -> (cursor_id: CursorId)
        requires
            old(self).wf(),
            old(self).cursor_list().len() < usize::MAX,
        ensures
            final(self).wf(),
            cursor_id.index() == old(self).cursor_list().len(),
            final(self).cursor_list() == old(self).cursor_list().push(old(self).cursor_list()[0]),
            final(self).tree() == old(self).tree(),
            final(self).status() == old(self).status(),
            final(self).same_settings(*old(self)),
    {
        let new_cursor_id = CursorId(self.cursors.len());
        let cursor = match self.cursors.first() {
            Some(first) => first.copied(),
            None => Cursor::new(),
        };
        self.cursors.push(cursor);
        new_cursor_id
    }

    /// Adds a copy of the cursor and gives its id.
    pub fn duplicate_cursor(&mut self, cursor_id: CursorId) -> (new_id: CursorId)
        requires
            old(self).wf(),
            cursor_id.index() < old(self).cursor_list().len(),
            old(self).cursor_list().len() < usize::MAX,
        ensures
            final(self).wf(),
            new_id.index() == old(self).cursor_list().len(),
            final(self).cursor_list() == old(self).cursor_list().push(
                old(self).cursor_list()[cursor_id.index() as int],
            ),
            final(self).tree() == old(self).tree(),
            final(self).status() == old(self).status(),
            final(self).same_settings(*old(self)),
    {
        let new_cursor_id = CursorId(self.cursors.len());
        let cursor = self.cursors[cursor_id.0].copied();
        self.cursors.push(cursor);
        new_cursor_id
    }

    /// The first part of handling a message: a navigation message moves the
    /// cursor (and in rectangle mode the rectangle's corner with it) or
    /// changes what it selects; other messages do nothing here.
    fn navigate(&mut self, cursor_id: CursorId, message: CursorMessage)
        requires
            old(self).wf(),
            cursor_id.index() < old(self).cursor_list().len(),
            starts_from_cursor(message) ==> old(self).cursor_list()[cursor_id.index() as int].range.start
                <= old(self).text().len(),
            old(self).columns_fit(),
        ensures
            final(self).wf(),
            final(self).cursor_list() == old(self).cursor_list().update(
                cursor_id.index() as int,
                navigated(
                    old(self).text(),
                    old(self).spec_indentation().tab_width as nat,
                    old(self).cursor_list()[cursor_id.index() as int],
                    message,
                ),
            ),
            final(self).tree() == old(self).tree(),
            final(self).status() == old(self).status(),
            final(self).same_settings(*old(self)),
    {
        let index = cursor_id.0;
        let tab_width = self.indentation.tab_width;
        let mut cursor = self.cursors[index].copied();
        let content = self.content.staged();
        match message {
            CursorMessage::Up(n) => {
                movement::move_vertically(content, &mut cursor, tab_width, Direction::Backward, n);
                if cursor.is_rectangle_mode() {
                    cursor.update_rectangle_diagonal(content, tab_width);
                }
            },
            CursorMessage::Down(n) => {
                movement::move_vertically(content, &mut cursor, tab_width, Direction::Forward, n);
                if cursor.is_rectangle_mode() {
                    cursor.update_rectangle_diagonal(content, tab_width);
                }
            },
            CursorMessage::Left => {
                movement::move_horizontally(content, &mut cursor, Direction::Backward, 1);
                if cursor.is_rectangle_mode() {
                    cursor.update_rectangle_diagonal(content, tab_width);
                }
            },
            CursorMessage::Right => {
                movement::move_horizontally(content, &mut cursor, Direction::Forward, 1);
                if cursor.is_rectangle_mode() {
                    cursor.update_rectangle_diagonal(content, tab_width);
                }
            },
            CursorMessage::StartOfLine => {
                movement::move_to_start_of_line(content, &mut cursor);
                if cursor.is_rectangle_mode() {
                    cursor.update_rectangle_diagonal(content, tab_width);
                }
            },
            CursorMessage::EndOfLine => {
                movement::move_to_end_of_line(content, &mut cursor);
                if cursor.is_rectangle_mode() {
                    cursor.update_rectangle_diagonal(content, tab_width);
                }
            },
            CursorMessage::StartOfBuffer => {
                movement::move_to_start_of_buffer(content, &mut cursor);
                if cursor.is_rectangle_mode() {
                    cursor.update_rectangle_diagonal(content, tab_width);
                }
            },
            CursorMessage::EndOfBuffer => {
                movement::move_to_end_of_buffer(content, &mut cursor);
                if cursor.is_rectangle_mode() {
                    cursor.update_rectangle_diagonal(content, tab_width);
                }
            },
            CursorMessage::BeginSelection => cursor.begin_selection(),
            CursorMessage::ClearSelection => {
                cursor.clear_selection();
                cursor.clear_rectangle_selection();
            },
            CursorMessage::SelectAll => cursor.select_all(content),
            CursorMessage::BeginRectangleSelection => cursor.begin_rectangle_selection(
                content,
                tab_width,
            ),
            CursorMessage::ClearRectangleSelection => cursor.clear_rectangle_selection(),
            _ => {},
        }
        self.cursors.set(index, cursor);
    }

    /// `after` is `self` after an edit by the `i`th cursor that left the
    /// text, that cursor and the diff as `result` says, and nothing else but
    /// the staged text changed.
    pub open spec fn edited(&self, after: Buffer, i: int, result: (Seq<char>, Cursor, OpaqueDiff), diff: OpaqueDiff) -> bool {
        &&& after.wf()
        &&& after.text() == result.0
        &&& after.cursor_list() == self.cursor_list().update(i, result.1)
        &&& diff == result.2
        &&& after.tree().revision_count() == self.tree().revision_count()
        &&& forall|r: int| #[trigger] after.tree().revision(r) == self.tree().revision(r)
        &&& after.tree().head() == self.tree().head()
        &&& after.status() == self.status()
        &&& after.same_settings(*self)
    }

    /// Forward delete by the cursor (see `delete_forward_result`); at the end
    /// of the text it says so.
    fn edit_delete_forward(&mut self, index: usize, effects: &mut Vec<BufferEffect>) -> (diff: OpaqueDiff)
        requires
            old(self).wf(),
            index < old(self).cursor_list().len(),
            ({
                let t = old(self).text();
                let c = old(self).cursor_list()[index as int];
                t.len() == 0 || c.range.start == t.len() || c.range.start <= c.range.end <= t.len()
            }),
            old(effects)@.len() == 0,
        ensures
            old(self).edited(
                *final(self),
                index as int,
                delete_forward_result(old(self).text(), old(self).cursor_list()[index as int]),
                diff,
            ),
            final(effects)@.len() == (if diff.spec_is_empty() { 1int } else { 0 }),
            diff.spec_is_empty() ==> final(effects)@[0].is_log("End of buffer"@),
    {
        let mut cursor = self.cursors[index].copied();
        let operation = cursor.delete_forward(self.content.staged_mut());
        if operation.diff.is_empty() {
            effects.push(BufferEffect::Log("End of buffer".to_owned()));
        }
        self.cursors.set(index, cursor);
        operation.diff
    }

    /// Backward delete by the cursor (see `delete_backward_result`); at the
    /// start of the text it says so.
    fn edit_delete_backward(&mut self, index: usize, effects: &mut Vec<BufferEffect>) -> (diff: OpaqueDiff)
        requires
            old(self).wf(),
            index < old(self).cursor_list().len(),
            old(self).cursor_list()[index as int].range.start <= old(self).text().len(),
            old(effects)@.len() == 0,
        ensures
            old(self).edited(
                *final(self),
                index as int,
                delete_backward_result(old(self).text(), old(self).cursor_list()[index as int]),
                diff,
            ),
            final(effects)@.len() == (if diff.spec_is_empty() { 1int } else { 0 }),
            diff.spec_is_empty() ==> final(effects)@[0].is_log("Beginning of buffer"@),
    {
        let mut cursor = self.cursors[index].copied();
        let operation = cursor.delete_backward(self.content.staged_mut());
        if operation.diff.is_empty() {
            effects.push(BufferEffect::Log("Beginning of buffer".to_owned()));
        }
        self.cursors.set(index, cursor);
        operation.diff
    }

    /// Deletes the cursor's line (see `delete_line_result`); in an empty text
    /// it says that the end is reached.
    fn delete_line(&mut self, index: usize, effects: &mut Vec<BufferEffect>) -> (diff: OpaqueDiff)
        requires
            old(self).wf(),
            index < old(self).cursor_list().len(),
            old(self).text().len() == 0 || old(self).cursor_list()[index as int].range.start
                <= old(self).text().len(),
            old(effects)@.len() == 0,
        ensures
            old(self).edited(
                *final(self),
                index as int,
                delete_line_result(old(self).text(), old(self).cursor_list()[index as int]),
                diff,
            ),
            final(effects)@.len() == (if diff.spec_is_empty() { 1int } else { 0 }),
            diff.spec_is_empty() ==> final(effects)@[0].is_log("End of buffer"@),
    {
        let mut cursor = self.cursors[index].copied();
        let operation = cursor.delete_line(self.content.staged_mut());
        if operation.diff.is_empty() {
            effects.push(BufferEffect::Log("End of buffer".to_owned()));
        }
        self.cursors.set(index, cursor);
        operation.diff
    }

    /// Puts the selected text on the clipboard and ends the selection.
    fn copy_selection_to_clipboard(&mut self, index: usize, effects: &mut Vec<BufferEffect>) -> (diff: OpaqueDiff)
        requires
            old(self).wf(),
            index < old(self).cursor_list().len(),
            ({
                let c = old(self).cursor_list()[index as int];
                c.selection_range().0 <= c.selection_range().1 <= old(self).text().len()
            }),
            old(effects)@.len() == 0,
        ensures
            ({
                let t = old(self).text();
                let c = old(self).cursor_list()[index as int];
                &&& old(self).edited(
                    *final(self),
                    index as int,
                    (t, Cursor { selection: None, ..c }, OpaqueDiff::spec_empty()),
                    diff,
                )
                &&& final(self).tree() == old(self).tree()
                &&& final(effects)@.len() == 1
                &&& final(effects)@[0].is_clipboard(
                    t.subrange(c.selection_range().0, c.selection_range().1),
                )
            }),
    {
        let selection = self.cursors[index].selection();
        let copied = slice_to_string(&rope_slice(self.content.staged(), selection.start, selection.end));
        effects.push(BufferEffect::SetClipboard(copied));
        let mut cursor = self.cursors[index].copied();
        cursor.clear_selection();
        self.cursors.set(index, cursor);
        OpaqueDiff::empty()
    }

    /// Deletes the selection (see `delete_selection_result`) and puts what
    /// it held on the clipboard.
    fn cut_selection_to_clipboard(&mut self, index: usize, effects: &mut Vec<BufferEffect>) -> (diff: OpaqueDiff)
        requires
            old(self).wf(),
            index < old(self).cursor_list().len(),
            ({
                let c = old(self).cursor_list()[index as int];
                old(self).text().len() == 0 || c.selection_range().0 <= c.selection_range().1
                    <= old(self).text().len()
            }),
            old(effects)@.len() == 0,
        ensures
            old(self).edited(
                *final(self),
                index as int,
                delete_selection_result(old(self).text(), old(self).cursor_list()[index as int]),
                diff,
            ),
            final(effects)@.len() == 1,
            final(effects)@[0].is_clipboard(
                deleted_selection(old(self).text(), old(self).cursor_list()[index as int]),
            ),
    {
        let mut cursor = self.cursors[index].copied();
        let operation = cursor.delete_selection(self.content.staged_mut());
        effects.push(BufferEffect::SetClipboard(rope_to_string(&operation.deleted)));
        self.cursors.set(index, cursor);
        operation.diff
    }

    /// Inserts the clipboard's text at the cursor, if there is any.
    fn paste_from_clipboard(&mut self, index: usize, clipboard: &str) -> (diff: OpaqueDiff)
        requires
            old(self).wf(),
            index < old(self).cursor_list().len(),
            clipboard@.len() > 0 ==> {
                &&& old(self).cursor_list()[index as int].range.start <= old(self).text().len()
                &&& old(self).text().len() + clipboard@.len() <= usize::MAX
                &&& utf8_len(clipboard@) <= usize::MAX
            },
        ensures
            ({
                let t = old(self).text();
                let c = old(self).cursor_list()[index as int];
                let start = c.range.start as int;
                old(self).edited(
                    *final(self),
                    index as int,
                    if clipboard@.len() == 0 {
                        (t, c, OpaqueDiff::spec_empty())
                    } else {
                        (
                            inserted(t, start, clipboard@),
                            after_insert(c),
                            insertion_diff(t, start, clipboard@),
                        )
                    },
                    diff,
                )
            }),
    {
        if !clipboard.is_empty() {
            let chars = crate::graphemes::chars_of_str(clipboard);
            let mut cursor = self.cursors[index].copied();
            let diff = cursor.insert_chars(self.content.staged_mut(), chars);
            self.cursors.set(index, cursor);
            diff
        } else {
            assert(self.cursors@ =~= self.cursors@.update(index as int, self.cursors@[index as int]));
            OpaqueDiff::empty()
        }
    }

    /// Inserts the indentation unit as many times as a tab takes and moves
    /// the cursor past them.
    fn insert_tab(&mut self, index: usize) -> (diff: OpaqueDiff)
        requires
            old(self).wf(),
            index < old(self).cursor_list().len(),
            old(self).cursor_list()[index as int].range.start <= old(self).text().len(),
            old(self).text().len() + old(self).spec_indentation().count <= usize::MAX,
            old(self).spec_indentation().count * char_utf8_len(old(self).spec_indentation().unit)
                <= usize::MAX,
        ensures
            ({
                let t = old(self).text();
                let c = old(self).cursor_list()[index as int];
                let indentation = old(self).spec_indentation();
                let chars = tab_chars(indentation);
                let new_text = inserted(t, c.range.start as int, chars);
                old(self).edited(
                    *final(self),
                    index as int,
                    (
                        new_text,
                        horizontal_move(
                            new_text,
                            after_insert(c),
                            Direction::Forward,
                            indentation.count as nat,
                        ),
                        insertion_diff(t, c.range.start as int, chars),
                    ),
                    diff,
                )
            }),
    {
        let unit = self.indentation.unit;
        let count = self.indentation.count;
        let ghost units = tab_chars(self.indentation);
        let mut chars: Vec<char> = Vec::new();
        let mut k: usize = 0;
        while k < count
            invariant
                k <= count,
                units == Seq::new(count as nat, |i: int| unit),
                chars@ == units.take(k as int),
            decreases count - k,
        {
            chars.push(unit);
            k = k + 1;
            assert(chars@ =~= units.take(k as int));
        }
        assert(chars@ =~= units);
        proof {
            lemma_utf8_len_repeat(unit, count as nat);
        }
        let mut cursor = self.cursors[index].copied();
        let diff = cursor.insert_chars(self.content.staged_mut(), chars);
        movement::move_horizontally(self.content.staged(), &mut cursor, Direction::Forward, count);
        self.cursors.set(index, cursor);
        diff
    }

    /// Inserts a line break at the cursor and moves it to the start of the
    /// next line.
    fn insert_new_line(&mut self, index: usize) -> (diff: OpaqueDiff)
        requires
            old(self).wf(),
            index < old(self).cursor_list().len(),
            old(self).cursor_list()[index as int].range.start <= old(self).text().len(),
            column_bound(old(self).spec_indentation().tab_width as nat, old(self).text()) + 3
                <= usize::MAX,
        ensures
            ({
                let t = old(self).text();
                let c = old(self).cursor_list()[index as int];
                let tab = old(self).spec_indentation().tab_width as nat;
                let new_text = t.insert(c.range.start as int, '\n');
                old(self).edited(
                    *final(self),
                    index as int,
                    (
                        new_text,
                        line_start_move(
                            new_text,
                            vertical_move(new_text, tab, after_insert(c), Direction::Forward, 1),
                        ),
                        char_insertion_diff(t, c.range.start as int, '\n'),
                    ),
                    diff,
                )
            }),
    {
        let mut cursor = self.cursors[index].copied();
        let ghost t = self.content.staged_text();
        let ghost at = cursor.range.start as int;
        let diff = cursor.insert_char(self.content.staged_mut(), '\n');
        let tab_width = self.indentation.tab_width;
        proof {
            lemma_column_bound_insert(tab_width as nat, t, at, '\n');
        }
        movement::move_vertically(self.content.staged(), &mut cursor, tab_width, Direction::Forward, 1);
        movement::move_to_start_of_line(self.content.staged(), &mut cursor);
        self.cursors.set(index, cursor);
        diff
    }

    /// Inserts a char at the cursor, and moves past it if asked to.
    fn insert_char(&mut self, index: usize, character: char, move_forward: bool) -> (diff: OpaqueDiff)
        requires
            old(self).wf(),
            index < old(self).cursor_list().len(),
            old(self).cursor_list()[index as int].range.start <= old(self).text().len(),
        ensures
            ({
                let t = old(self).text();
                let c = old(self).cursor_list()[index as int];
                let new_text = t.insert(c.range.start as int, character);
                old(self).edited(
                    *final(self),
                    index as int,
                    (
                        new_text,
                        if move_forward {
                            horizontal_move(new_text, after_insert(c), Direction::Forward, 1)
                        } else {
                            after_insert(c)
                        },
                        char_insertion_diff(t, c.range.start as int, character),
                    ),
                    diff,
                )
            }),
    {
        let mut cursor = self.cursors[index].copied();
        let diff = cursor.insert_char(self.content.staged_mut(), character);
        if move_forward {
            movement::move_horizontally(self.content.staged(), &mut cursor, Direction::Forward, 1);
        }
        self.cursors.set(index, cursor);
        diff
    }

    /// `after` is `self` after the third part of handling a message: where
    /// some diff changes something, the buffer is changed, the other cursors
    /// follow the diffs and, unless the change came from undo or redo, a
    /// revision is made and a reparse asked for; otherwise nothing changes.
    pub open spec fn commit_done(
        &self,
        after: Buffer,
        i: int,
        diffs: Seq<OpaqueDiff>,
        undoing: bool,
        prefix: Seq<BufferEffect>,
        effects: Seq<BufferEffect>,
    ) -> bool {
        &&& after.wf()
        &&& after.same_settings(*self)
        &&& after.cursor_list().len() == self.cursor_list().len()
        &&& after.cursor_list()[i] == self.cursor_list()[i]
        &&& if !diffs_empty(diffs) {
            &&& after.status() == ModifiedStatus::Changed
            &&& forall|k: int|
                0 <= k < self.cursor_list().len() && k != i ==> #[trigger] after.cursor_list()[k]
                    == reconcile_all(self.cursor_list()[k], self.text(), diffs)
            &&& if undoing {
                &&& after.tree() == self.tree()
                &&& effects == prefix
            } else {
                &&& after.tree().made_revision(self.tree(), diffs, self.cursor_list()[i])
                &&& reparse_appended(effects, prefix, self.parsed(), diffs, false)
            }
        } else {
            &&& after.cursor_list() == self.cursor_list()
            &&& after.status() == self.status()
            &&& after.tree() == self.tree()
            &&& effects == prefix
        }
    }

    /// Asks for a reparse after a change by `compound`, where the buffer has
    /// a parser: from scratch when `fresh` or when the change is made of
    /// several diffs (their positions hold only for the text before the
    /// change), else after applying the change's one diff to the last tree.
    fn update_parse_tree_compound(&self, compound: &CompoundDiff, fresh: bool, effects: &mut Vec<BufferEffect>)
        ensures
            reparse_appended(final(effects)@, old(effects)@, self.parsed(), compound.diffs(), fresh),
    {
        if self.has_parser {
            let needs_fresh = fresh || compound.0.len() > 1;
            let edit = if !needs_fresh && compound.0.len() > 0 {
                Some(compound.0[0])
            } else {
                None
            };
            let ghost before = effects@;
            effects.push(BufferEffect::Reparse { fresh: needs_fresh, edit });
            assert(effects@.drop_last() =~= before);
        }
    }

    /// The third part of handling a message.
    fn commit(
        &mut self,
        cursor_id: CursorId,
        compound: &CompoundDiff,
        undoing: bool,
        effects: &mut Vec<BufferEffect>,
    )
        requires
            old(self).wf(),
            cursor_id.index() < old(self).cursor_list().len(),
            old(self).others_fit(cursor_id.index() as int, old(self).text(), compound.diffs()),
            old(self).tree().revision_count() < usize::MAX,
        ensures
            old(self).commit_done(
                *final(self),
                cursor_id.index() as int,
                compound.diffs(),
                undoing,
                old(effects)@,
                final(effects)@,
            ),
    {
        let index = cursor_id.0;
        if !compound.is_empty() {
            self.modified_status = ModifiedStatus::Changed;
            let ghost before = self.cursors@;
            let n = self.cursors.len();
            let mut k: usize = 0;
            while k < n
                invariant
                    n == self.cursors@.len(),
                    n == before.len(),
                    index < n,
                    k <= n,
                    self.content == old(self).content,
                    self.id == old(self).id,
                    self.file_path == old(self).file_path,
                    self.indentation == old(self).indentation,
                    self.has_parser == old(self).has_parser,
                    self.modified_status == ModifiedStatus::Changed,
                    before == old(self).cursors@,
                    self.cursors@[index as int] == before[index as int],
                    forall|j: int|
                        0 <= j < n && j != index ==> reconcile_all_fits(
                            #[trigger] before[j],
                            self.content.staged_text(),
                            compound.diffs(),
                        ),
                    forall|j: int|
                        0 <= j < k && j != index ==> #[trigger] self.cursors@[j] == reconcile_all(
                            before[j],
                            self.content.staged_text(),
                            compound.diffs(),
                        ),
                    forall|j: int| k <= j < n ==> #[trigger] self.cursors@[j] == before[j],
                decreases n - k,
            {
                if k != index {
                    let mut cursor = self.cursors[k].copied();
                    cursor.reconcile_compound(self.content.staged(), compound);
                    self.cursors.set(k, cursor);
                }
                k = k + 1;
            }
            if !undoing {
                let cursor = self.cursors[index].copied();
                self.content.create_compound_revision(compound.duplicate(), cursor);
                self.update_parse_tree_compound(compound, false, effects);
            }
        }
    }

    /// Undo: the head goes back to its parent, the cursor takes the cursor
    /// saved there and a fresh parse is asked for.
    fn undo(&mut self, cursor_id: CursorId, effects: &mut Vec<BufferEffect>) -> (compound: CompoundDiff)
        requires
            old(self).wf(),
            cursor_id.index() < old(self).cursor_list().len(),
            old(effects)@.len() == 0,
        ensures
            final(self).wf(),
            final(self).same_settings(*old(self)),
            final(self).status() == old(self).status(),
            final(self).tree().undone(old(self).tree()),
            match old(self).history_target(true) {
                Some((_, cursor, diffs)) => {
                    &&& compound.diffs() == diffs
                    &&& final(self).cursor_list() == old(self).cursor_list().update(
                        cursor_id.index() as int,
                        cursor,
                    )
                    &&& reparse_appended(final(effects)@, Seq::empty(), old(self).parsed(), diffs, true)
                },
                None => {
                    &&& compound.diffs() == Seq::<OpaqueDiff>::empty()
                    &&& final(self).cursor_list() == old(self).cursor_list()
                    &&& final(effects)@.len() == 0
                },
            },
    {
        assert(effects@ =~= Seq::<BufferEffect>::empty());
        match self.content.undo() {
            Some((compound, cursor)) => {
                self.cursors.set(cursor_id.0, cursor);
                self.update_parse_tree_compound(&compound, true, effects);
                compound
            },
            None => CompoundDiff::empty(),
        }
    }

    /// Redo: the head goes to the child that redo goes to, the cursor takes
    /// the cursor saved there and a fresh parse is asked for.
    fn redo(&mut self, cursor_id: CursorId, effects: &mut Vec<BufferEffect>) -> (compound: CompoundDiff)
        requires
            old(self).wf(),
            cursor_id.index() < old(self).cursor_list().len(),
            old(effects)@.len() == 0,
        ensures
            final(self).wf(),
            final(self).same_settings(*old(self)),
            final(self).status() == old(self).status(),
            final(self).tree().redone(old(self).tree()),
            match old(self).history_target(false) {
                Some((_, cursor, diffs)) => {
                    &&& compound.diffs() == diffs
                    &&& final(self).cursor_list() == old(self).cursor_list().update(
                        cursor_id.index() as int,
                        cursor,
                    )
                    &&& reparse_appended(final(effects)@, Seq::empty(), old(self).parsed(), diffs, true)
                },
                None => {
                    &&& compound.diffs() == Seq::<OpaqueDiff>::empty()
                    &&& final(self).cursor_list() == old(self).cursor_list()
                    &&& final(effects)@.len() == 0
                },
            },
    {
        assert(effects@ =~= Seq::<BufferEffect>::empty());
        match self.content.redo() {
            Some((compound, cursor)) => {
                self.cursors.set(cursor_id.0, cursor);
                self.update_parse_tree_compound(&compound, true, effects);
                compound
            },
            None => CompoundDiff::empty(),
        }
    }

    /// Handles a message that edits by one diff: the edit, then the commit.
    fn handle_single_edit(&mut self, cursor_id: CursorId, message: CursorMessage, clipboard: &str) -> (effects: Vec<BufferEffect>)
        requires
            old(self).wf(),
            is_single_edit(message),
            old(self).accepts(cursor_id, message, clipboard@),
        ensures
            final(self).wf(),
            final(self).same_settings(*old(self)),
            ({
                let i = cursor_id.index() as int;
                let t = old(self).text();
                let c = old(self).cursor_list()[i];
                let (new_text, cursor, diff) = single_edit(
                    t,
                    old(self).spec_indentation(),
                    c,
                    message,
                    clipboard@,
                );
                let count = edit_effect_count(message, diff) as int;
                &&& effects@.len() >= count
                &&& edit_effects_ok(effects@.take(count), t, c, message)
                &&& old(self).committed(
                    *final(self),
                    i,
                    new_text,
                    cursor,
                    seq![diff],
                    effects@.take(count),
                    effects@,
                )
            }),
    {
        let index = cursor_id.0;
        let ghost before = *self;
        let ghost i = index as int;
        let ghost c = before.cursor_list()[i];
        let ghost edit = single_edit(before.text(), before.spec_indentation(), c, message, clipboard@);
        let mut effects: Vec<BufferEffect> = Vec::new();
        let diff = match message {
            CursorMessage::DeleteForward => self.edit_delete_forward(index, &mut effects),
            CursorMessage::DeleteBackward => self.edit_delete_backward(index, &mut effects),
            CursorMessage::DeleteLine => self.delete_line(index, &mut effects),
            CursorMessage::Yank => self.paste_from_clipboard(index, clipboard),
            CursorMessage::CopySelection => self.copy_selection_to_clipboard(index, &mut effects),
            CursorMessage::CutSelection => self.cut_selection_to_clipboard(index, &mut effects),
            CursorMessage::InsertTab => self.insert_tab(index),
            CursorMessage::InsertNewLine => self.insert_new_line(index),
            CursorMessage::InsertChar { character, move_forward } => self.insert_char(
                index,
                character,
                move_forward,
            ),
            _ => OpaqueDiff::empty(),
        };
        let ghost mid = *self;
        let ghost prefix = effects@;
        assert(before.edited(mid, i, edit, diff));
        let compound = CompoundDiff::single(diff);
        proof {
            assert forall|k: int|
                0 <= k < mid.cursor_list().len() && k != i implies reconcile_all_fits(
                #[trigger] mid.cursor_list()[k],
                mid.text(),
                compound.diffs(),
            ) by {
                assert(mid.cursor_list()[k] == before.cursor_list()[k]);
                if diff.new_char_length == 0 {
                    lemma_deletions_fit(mid.cursor_list()[k], mid.text(), compound.diffs());
                } else {
                    assert(before.others_fit(i, edit.0, seq![edit.2]));
                }
            }
        }
        self.commit(cursor_id, &compound, false, &mut effects);
        proof {
            let count = edit_effect_count(message, diff) as int;
            assert(prefix.len() == count);
            assert(effects@.take(count) =~= prefix);
            crate::tree::lemma_made_revision_from_same(
                self.tree(),
                mid.tree(),
                before.tree(),
                mid.text(),
                compound.diffs(),
                mid.cursor_list()[i],
            );
        }
        effects
    }

    /// Handles undo (or redo): the move in the history, then the commit,
    /// which makes no revision.
    fn handle_history(&mut self, cursor_id: CursorId, undo: bool) -> (effects: Vec<BufferEffect>)
        requires
            old(self).wf(),
            old(self).accepts(
                cursor_id,
                if undo { CursorMessage::Undo } else { CursorMessage::Redo },
                Seq::empty(),
            ),
        ensures
            final(self).wf(),
            final(self).same_settings(*old(self)),
            old(self).went_back(*final(self), cursor_id.index() as int, undo, effects@),
    {
        let ghost before = *self;
        let ghost i = cursor_id.0 as int;
        let mut effects: Vec<BufferEffect> = Vec::new();
        let compound = if undo {
            self.undo(cursor_id, &mut effects)
        } else {
            self.redo(cursor_id, &mut effects)
        };
        let ghost mid = *self;
        let ghost prefix = effects@;
        proof {
            assert forall|k: int|
                0 <= k < mid.cursor_list().len() && k != i implies reconcile_all_fits(
                #[trigger] mid.cursor_list()[k],
                mid.text(),
                compound.diffs(),
            ) by {
                assert(mid.cursor_list()[k] == before.cursor_list()[k]);
                if compound.diffs().len() == 0 {
                    assert(reconcile_all_fits(mid.cursor_list()[k], mid.text(), compound.diffs()));
                }
            }
        }
        self.commit(cursor_id, &compound, true, &mut effects);
        effects
    }

    /// Handles a rectangle cut (or delete): the deletion, then the commit.
    fn handle_rectangle_deletion(&mut self, cursor_id: CursorId, cut: bool, kills: &mut RectangleKillStore) -> (effects: Vec<BufferEffect>)
        requires
            old(self).wf(),
            old(self).accepts(
                cursor_id,
                if cut { CursorMessage::RectangleCut } else { CursorMessage::RectangleDelete },
                Seq::empty(),
            ),
        ensures
            final(self).wf(),
            final(self).same_settings(*old(self)),
            ({
                let i = cursor_id.index() as int;
                let t = old(self).text();
                let tab = old(self).spec_indentation().tab_width as nat;
                let c = old(self).cursor_list()[i];
                let (new_text, cursor, diffs) = rectangle_deletion(t, tab, c);
                let copies = cut && (c.rectangle_selection matches Some(rect)
                    && rect.column_left != rect.column_right);
                let count = if copies { 1int } else { 0 };
                &&& if copies {
                    let parts = rectangle_parts(t, tab, c.rectangle_selection->0);
                    &&& final(kills)@ == Some((parts, joined_lines(parts)))
                    &&& effects@.len() >= 1
                    &&& effects@[0].is_clipboard(joined_lines(parts))
                } else {
                    final(kills)@ == old(kills)@
                }
                &&& old(self).committed(
                    *final(self),
                    i,
                    new_text,
                    cursor,
                    diffs,
                    effects@.take(count),
                    effects@,
                )
            }),
    {
        let ghost before = *self;
        let ghost i = cursor_id.0 as int;
        let mut effects: Vec<BufferEffect> = Vec::new();
        let compound = if cut {
            self.rectangle_cut(cursor_id, kills, &mut effects)
        } else {
            self.rectangle_delete(cursor_id)
        };
        let ghost mid = *self;
        let ghost prefix = effects@;
        proof {
            assert forall|k: int|
                0 <= k < mid.cursor_list().len() && k != i implies reconcile_all_fits(
                #[trigger] mid.cursor_list()[k],
                mid.text(),
                compound.diffs(),
            ) by {
                lemma_deletions_fit(mid.cursor_list()[k], mid.text(), compound.diffs());
            }
        }
        self.commit(cursor_id, &compound, false, &mut effects);
        proof {
            let c = before.cursor_list()[i];
            let copies = cut && (c.rectangle_selection matches Some(rect)
                && rect.column_left != rect.column_right);
            let count = if copies { 1int } else { 0 };
            assert(prefix.len() == count);
            assert(effects@.take(count) =~= prefix);
            crate::tree::lemma_made_revision_from_same(
                self.tree(),
                mid.tree(),
                before.tree(),
                mid.text(),
                compound.diffs(),
                mid.cursor_list()[i],
            );
        }
        effects
    }

    /// Handles a message to the cursor with id `cursor_id`. `clipboard` is
    /// what the clipboard holds (only a yank reads it); `kills` records the
    /// last rectangle copied or cut. The effects that come back are due in
    /// their order.
    pub fn handle_cursor_message(
        &mut self,
        cursor_id: CursorId,
        message: CursorMessage,
        clipboard: &str,
        kills: &mut RectangleKillStore,
    ) -> (effects: Vec<BufferEffect>)
        requires
            old(self).wf(),
            old(self).accepts(cursor_id, message, clipboard@),
        ensures
            final(self).wf(),
            old(self).handled(
                *final(self),
                cursor_id,
                message,
                clipboard@,
                old(kills)@,
                final(kills)@,
                effects@,
            ),
    {
        match message {
            // Moves and selections
            CursorMessage::Up(_) | CursorMessage::Down(_) | CursorMessage::Left
            | CursorMessage::Right | CursorMessage::StartOfLine | CursorMessage::EndOfLine
            | CursorMessage::StartOfBuffer | CursorMessage::EndOfBuffer
            | CursorMessage::BeginSelection | CursorMessage::ClearSelection
            | CursorMessage::SelectAll | CursorMessage::BeginRectangleSelection
            | CursorMessage::ClearRectangleSelection => {
                self.navigate(cursor_id, message);
                Vec::new()
            },
            // Edits by one diff
            CursorMessage::DeleteForward | CursorMessage::DeleteBackward
            | CursorMessage::DeleteLine | CursorMessage::Yank | CursorMessage::CopySelection
            | CursorMessage::CutSelection | CursorMessage::InsertTab
            | CursorMessage::InsertNewLine | CursorMessage::InsertChar { .. } => {
                self.handle_single_edit(cursor_id, message, clipboard)
            },
            // Undo / redo
            CursorMessage::Undo => self.handle_history(cursor_id, true),
            CursorMessage::Redo => self.handle_history(cursor_id, false),
            // Rectangle operations
            CursorMessage::RectangleCopy => {
                let mut effects: Vec<BufferEffect> = Vec::new();
                let compound = self.rectangle_copy(cursor_id, kills, &mut effects);
                self.commit(cursor_id, &compound, false, &mut effects);
                effects
            },
            CursorMessage::RectangleCut => self.handle_rectangle_deletion(cursor_id, true, kills),
            CursorMessage::RectangleDelete => self.handle_rectangle_deletion(cursor_id, false, kills),
        }
    }

    /// Whether every cursor but the `index`th stays within `usize` when
    /// moved by the one diff.
    fn others_fit_one(&self, index: usize, diff: &OpaqueDiff) -> (b: bool)
        ensures
            b == (forall|k: int|
                0 <= k < self.cursor_list().len() && k != index ==> (
                #[trigger] self.cursor_list()[k]).reconcile_fits(*diff)),
    {
        let n = self.cursors.len();
        let mut k: usize = 0;
        while k < n
            invariant
                n == self.cursors@.len(),
                k <= n,
                forall|j: int| 0 <= j < k && j != index ==> (#[trigger] self.cursor_list()[j]).reconcile_fits(*diff),
            decreases n - k,
        {
            if k != index && !reconcile_one_fits(&self.cursors[k], diff) {
                assert(!self.cursor_list()[k as int].reconcile_fits(*diff));
                return false;
            }
            k = k + 1;
        }
        true
    }

    /// Whether every cursor but the `index`th stays within `usize` when
    /// moved by the diffs on `new_text`.
    fn others_fit_all(&self, index: usize, new_text: &Rope, compound: &CompoundDiff) -> (b: bool)
        ensures
            b == self.others_fit(index as int, rope_text(*new_text), compound.diffs()),
    {
        let n = self.cursors.len();
        let mut k: usize = 0;
        while k < n
            invariant
                n == self.cursors@.len(),
                k <= n,
                forall|j: int|
                    0 <= j < k && j != index ==> reconcile_all_fits(
                        #[trigger] self.cursor_list()[j],
                        rope_text(*new_text),
                        compound.diffs(),
                    ),
            decreases n - k,
        {
            if k != index && !reconcile_all_fit(&self.cursors[k], new_text, compound) {
                assert(!reconcile_all_fits(self.cursor_list()[k as int], rope_text(*new_text), compound.diffs()));
                return false;
            }
            k = k + 1;
        }
        true
    }

    /// Whether the cursor with id `cursor_id` may take the message with this
    /// clipboard (see `accepts`); a caller tests this before handing the
    /// message over.
    pub fn accepts_message(&self, cursor_id: CursorId, message: &CursorMessage, clipboard: &str) -> (b: bool)
        requires
            self.wf(),
        ensures
            b == self.accepts(cursor_id, *message, clipboard@),
    {
        let index = cursor_id.0;
        if index >= self.cursors.len() {
            return false;
        }
        let tab_width = self.indentation.tab_width;
        let columns_fit = column_room(self.content.staged(), tab_width).is_some();
        if !columns_fit || self.content.len_revisions() == usize::MAX {
            return false;
        }
        match message {
            CursorMessage::Yank | CursorMessage::InsertTab | CursorMessage::InsertNewLine
            | CursorMessage::InsertChar { .. } => self.insertion_ok(cursor_id, message, clipboard),
            CursorMessage::Undo => match self.content.undo_target() {
                Some((target_text, compound)) => self.others_fit_all(index, target_text, compound),
                None => true,
            },
            CursorMessage::Redo => match self.content.redo_target() {
                Some((target_text, compound)) => self.others_fit_all(index, target_text, compound),
                None => true,
            },
            CursorMessage::RectangleCopy | CursorMessage::RectangleCut
            | CursorMessage::RectangleDelete => match self.cursors[index].rectangle_selection {
                Some(rect) => {
                    let lines = crate::text::rope_len_lines(self.content.staged());
                    rect.column_left == rect.column_right || (rect.line_start < lines && (
                    rect.line_start > rect.line_end || rect.line_end < lines))
                },
                None => true,
            },
            _ => self.position_ok(cursor_id, message),
        }
    }

    /// `message_ok` for messages that need only the cursor to lie in the
    /// text.
    fn position_ok(&self, cursor_id: CursorId, message: &CursorMessage) -> (b: bool)
        requires
            cursor_id.index() < self.cursor_list().len(),
            !(message is Yank || message is InsertTab || message is InsertNewLine
                || message is InsertChar || message is Undo || message is Redo
                || message is RectangleCopy || message is RectangleCut
                || message is RectangleDelete),
        ensures
            b == self.message_ok(cursor_id, *message, Seq::empty()),
    {
        let len = rope_len_chars(self.content.staged());
        let cursor = &self.cursors[cursor_id.0];
        let start = cursor.range.start;
        match message {
            CursorMessage::Up(_) | CursorMessage::Down(_) | CursorMessage::Left
            | CursorMessage::Right | CursorMessage::StartOfLine | CursorMessage::EndOfLine
            | CursorMessage::BeginRectangleSelection => start <= len,
            CursorMessage::DeleteForward => len == 0 || start == len || (start <= cursor.range.end
                && cursor.range.end <= len),
            CursorMessage::DeleteBackward => start <= len,
            CursorMessage::DeleteLine => len == 0 || start <= len,
            CursorMessage::CopySelection => {
                let selection = cursor.selection();
                selection.start <= selection.end && selection.end <= len
            },
            CursorMessage::CutSelection => {
                let selection = cursor.selection();
                len == 0 || (selection.start <= selection.end && selection.end <= len)
            },
            _ => true,
        }
    }

    /// `message_ok` for messages that insert text.
    fn insertion_ok(&self, cursor_id: CursorId, message: &CursorMessage, clipboard: &str) -> (b: bool)
        requires
            cursor_id.index() < self.cursor_list().len(),
            message is Yank || message is InsertTab || message is InsertNewLine || message is InsertChar,
        ensures
            b == self.message_ok(cursor_id, *message, clipboard@),
    {
        let index = cursor_id.0;
        let text = self.content.staged();
        let ghost t = rope_text(*text);
        let len = rope_len_chars(text);
        let tab_width = self.indentation.tab_width;
        let start = self.cursors[index].range.start;
        let ghost c = self.cursor_list()[index as int];
        let ghost edit = single_edit(t, self.indentation, c, *message, clipboard@);
        proof {
            assert(seq![edit.2].drop_first() =~= Seq::<OpaqueDiff>::empty());
        }
        match message {
            CursorMessage::Yank => {
                let chars = crate::graphemes::chars_of_str(clipboard);
                if chars.len() == 0 {
                    return true;
                }
                if start > len || len > usize::MAX - chars.len() || !utf8_len_fits(&chars) {
                    return false;
                }
                proof {
                    crate::text::lemma_utf8_len_append(seq![clipboard@[0]], clipboard@.drop_first());
                    assert(seq![clipboard@[0]] + clipboard@.drop_first() =~= clipboard@);
                    crate::text::lemma_utf8_len_single(clipboard@[0]);
                }
                let diff = OpaqueDiff::new(0, 0, 1, start, 0, chars.len());
                let fits = self.others_fit_one(index, &diff);
                proof {
                    assert forall|k: int|
                        0 <= k < self.cursor_list().len() && k != index implies reconcile_all_fits(
                        #[trigger] self.cursor_list()[k],
                        edit.0,
                        seq![edit.2],
                    ) == self.cursor_list()[k].reconcile_fits(diff) by {
                        lemma_one_diff_fits(self.cursor_list()[k], edit.0, edit.2, diff);
                    }
                }
                fits
            },
            CursorMessage::InsertTab => {
                let count = self.indentation.count;
                let unit_len = crate::text::char_len_utf8(self.indentation.unit);
                if start > len || len > usize::MAX - count || count.checked_mul(unit_len).is_none() {
                    return false;
                }
                proof {
                    lemma_utf8_len_repeat(self.indentation.unit, count as nat);
                    if count > 0 {
                        assert(count * unit_len >= 1) by (nonlinear_arith)
                            requires
                                count >= 1,
                                unit_len >= 1,
                        ;
                    }
                }
                if count == 0 {
                    proof {
                        assert(edit.2.spec_is_empty());
                        assert forall|k: int|
                            0 <= k < self.cursor_list().len() && k != index implies reconcile_all_fits(
                            #[trigger] self.cursor_list()[k],
                            edit.0,
                            seq![edit.2],
                        ) by {
                            assert(reconcile_all_fits(self.cursor_list()[k], edit.0, Seq::empty()));
                        }
                    }
                    return true;
                }
                let diff = OpaqueDiff::new(0, 0, 1, start, 0, count);
                let fits = self.others_fit_one(index, &diff);
                proof {
                    assert forall|k: int|
                        0 <= k < self.cursor_list().len() && k != index implies reconcile_all_fits(
                        #[trigger] self.cursor_list()[k],
                        edit.0,
                        seq![edit.2],
                    ) == self.cursor_list()[k].reconcile_fits(diff) by {
                        lemma_one_diff_fits(self.cursor_list()[k], edit.0, edit.2, diff);
                    }
                }
                fits
            },
            CursorMessage::InsertNewLine => {
                let room_for_line = match column_room(self.content.staged(), tab_width) {
                    Some(room) => room >= 3,
                    None => false,
                };
                if start > len || !room_for_line {
                    return false;
                }
                let diff = OpaqueDiff::new(0, 0, 1, start, 0, 1);
                let fits = self.others_fit_one(index, &diff);
                proof {
                    assert forall|k: int|
                        0 <= k < self.cursor_list().len() && k != index implies reconcile_all_fits(
                        #[trigger] self.cursor_list()[k],
                        edit.0,
                        seq![edit.2],
                    ) == self.cursor_list()[k].reconcile_fits(diff) by {
                        lemma_one_diff_fits(self.cursor_list()[k], edit.0, edit.2, diff);
                    }
                }
                fits
            },
            CursorMessage::InsertChar { .. } => {
                if start > len {
                    return false;
                }
                let diff = OpaqueDiff::new(0, 0, 1, start, 0, 1);
                let fits = self.others_fit_one(index, &diff);
                proof {
                    assert forall|k: int|
                        0 <= k < self.cursor_list().len() && k != index implies reconcile_all_fits(
                        #[trigger] self.cursor_list()[k],
                        edit.0,
                        seq![edit.2],
                    ) == self.cursor_list()[k].reconcile_fits(diff) by {
                        lemma_one_diff_fits(self.cursor_list()[k], edit.0, edit.2, diff);
                    }
                }
                fits
            },
            _ => true,
        }
    }

    /// Whether the buffer may take the message: a cursor message as
    /// `accepts` says; after a save, every cursor must lie in the text and
    /// there must be room for one more revision.
    pub open spec fn accepts_buffer_message(&self, message: BufferMessage, clipboard: Seq<char>) -> bool {
        match message {
            BufferMessage::CursorMessage { cursor_id, message } => self.accepts(
                cursor_id,
                message,
                clipboard,
            ),
            BufferMessage::SaveBufferEnd(Ok(_)) => {
                &&& self.tree().revision_count() < usize::MAX
                &&& forall|k: int|
                    0 <= k < self.cursor_list().len() ==> (#[trigger] self.cursor_list()[k]).range.start
                        <= self.text().len()
            },
            _ => true,
        }
    }

    /// `after` is `self` after the message, with the effects asked for.
    pub open spec fn handled_message(
        &self,
        after: Buffer,
        message: BufferMessage,
        clipboard: Seq<char>,
        kills: Option<(Seq<Seq<char>>, Seq<char>)>,
        kills_after: Option<(Seq<Seq<char>>, Seq<char>)>,
        effects: Seq<BufferEffect>,
    ) -> bool {
        match message {
            BufferMessage::CursorMessage { cursor_id, message } => self.handled(
                after,
                cursor_id,
                message,
                clipboard,
                kills,
                kills_after,
                effects,
            ),
            _ => {
                &&& kills_after == kills
                &&& after.same_settings(*self)
                &&& match message {
                    BufferMessage::SaveBufferStart => {
                        &&& after.tree() == self.tree()
                        &&& after.cursor_list() == self.cursor_list()
                        &&& if self.path() is Some {
                            &&& after.status() == ModifiedStatus::Saving
                            &&& effects.len() == 1
                            &&& effects[0].is_save(self.text())
                        } else {
                            &&& after.status() == self.status()
                            &&& effects.len() == 0
                        }
                    },
                    BufferMessage::SaveBufferEnd(Ok(saved)) => {
                        let new_text = rope_text(saved);
                        let synced = Seq::new(
                            self.cursor_list().len(),
                            |k: int| self.cursor_list()[k].synced(self.text(), new_text),
                        );
                        &&& after.status() == ModifiedStatus::Unchanged
                        &&& after.cursor_list() == synced
                        &&& after.tree().revision_added(
                            self.tree(),
                            self.text(),
                            seq![OpaqueDiff::spec_empty()],
                            synced[0],
                        )
                        &&& after.text() == new_text
                        &&& reparse_appended(effects, Seq::empty(), self.parsed(), Seq::empty(), true)
                    },
                    BufferMessage::SaveBufferEnd(Err(error)) => {
                        &&& after.tree() == self.tree()
                        &&& after.cursor_list() == self.cursor_list()
                        &&& after.status() == self.status()
                        &&& effects.len() == 1
                        &&& effects[0].is_log(error@)
                    },
                    BufferMessage::PreviousChildRevision | BufferMessage::NextChildRevision => {
                        &&& after.tree().redo_moved(
                            self.tree(),
                            message is NextChildRevision,
                        )
                        &&& after.cursor_list() == self.cursor_list()
                        &&& after.status() == self.status()
                        &&& effects.len() == 0
                    },
                    _ => false,
                }
            },
        }
    }

    /// Starts saving the buffer: where it has a file, the staged text is to
    /// be written to it.
    fn spawn_save_file(&mut self, effects: &mut Vec<BufferEffect>)
        requires
            old(effects)@.len() == 0,
        ensures
            final(self).tree() == old(self).tree(),
            final(self).cursor_list() == old(self).cursor_list(),
            final(self).same_settings(*old(self)),
            final(self).wf() == old(self).wf(),
            if old(self).path() is Some {
                &&& final(self).status() == ModifiedStatus::Saving
                &&& final(effects)@.len() == 1
                &&& final(effects)@[0].is_save(old(self).text())
            } else {
                &&& final(self).status() == old(self).status()
                &&& final(effects)@.len() == 0
            },
    {
        if self.file_path.is_none() {
            return;
        }
        self.modified_status = ModifiedStatus::Saving;
        let text = self.content.staged().clone();
        effects.push(BufferEffect::Save { text });
    }

    /// Handles a message to the buffer (see `handle_cursor_message` for the
    /// arguments).
    pub fn handle_message(
        &mut self,
        message: BufferMessage,
        clipboard: &str,
        kills: &mut RectangleKillStore,
    ) -> (effects: Vec<BufferEffect>)
        requires
            old(self).wf(),
            old(self).accepts_buffer_message(message, clipboard@),
        ensures
            final(self).wf(),
            old(self).handled_message(
                *final(self),
                message,
                clipboard@,
                old(kills)@,
                final(kills)@,
                effects@,
            ),
    {
        let mut effects: Vec<BufferEffect> = Vec::new();
        match message {
            // Start writing the buffer to its file
            BufferMessage::SaveBufferStart => {
                self.spawn_save_file(&mut effects);
            },
            // Saved the buffer: the text as written becomes the staged text
            BufferMessage::SaveBufferEnd(Ok(new_content)) => {
                self.modified_status = ModifiedStatus::Unchanged;
                let ghost before = self.cursors@;
                let n = self.cursors.len();
                let mut k: usize = 0;
                while k < n
                    invariant
                        n == self.cursors@.len(),
                        n == before.len(),
                        k <= n,
                        self.content == old(self).content,
                        self.id == old(self).id,
                        self.file_path == old(self).file_path,
                        self.indentation == old(self).indentation,
                        self.has_parser == old(self).has_parser,
                        self.modified_status == ModifiedStatus::Unchanged,
                        before == old(self).cursors@,
                        forall|j: int|
                            0 <= j < n ==> (#[trigger] before[j]).range.start
                                <= self.content.staged_text().len(),
                        forall|j: int|
                            0 <= j < k ==> #[trigger] self.cursors@[j] == before[j].synced(
                                self.content.staged_text(),
                                rope_text(new_content),
                            ),
                        forall|j: int| k <= j < n ==> #[trigger] self.cursors@[j] == before[j],
                    decreases n - k,
                {
                    let mut cursor = self.cursors[k].copied();
                    cursor.sync(self.content.staged(), &new_content);
                    self.cursors.set(k, cursor);
                    k = k + 1;
                }
                // The diff is not known: an empty one stands for it, and the
                // parse below starts from scratch.
                let cursor = self.cursors[0].copied();
                self.content.create_revision(OpaqueDiff::empty(), cursor);
                *self.content.staged_mut() = new_content;
                self.update_parse_tree_compound(&CompoundDiff::empty(), true, &mut effects);
                proof {
                    assert(self.cursors@ =~= Seq::new(
                        before.len(),
                        |j: int| before[j].synced(old(self).text(), rope_text(new_content)),
                    ));
                }
            },
            // Could not save the buffer
            BufferMessage::SaveBufferEnd(Err(error)) => {
                effects.push(BufferEffect::Log(error));
            },
            BufferMessage::CursorMessage { cursor_id, message } => {
                return self.handle_cursor_message(cursor_id, message, clipboard, kills);
            },
            BufferMessage::PreviousChildRevision => self.content.previous_child(),
            BufferMessage::NextChildRevision => self.content.next_child(),
        }
        effects
    }

    /// Whether the buffer may take the message with this clipboard (see
    /// `accepts_buffer_message`); a caller tests this before handing the
    /// message over.
    pub fn accepts_message_to_buffer(&self, message: &BufferMessage, clipboard: &str) -> (b: bool)
        requires
            self.wf(),
        ensures
            b == self.accepts_buffer_message(*message, clipboard@),
    {
        match message {
            BufferMessage::CursorMessage { cursor_id, message } => self.accepts_message(
                *cursor_id,
                message,
                clipboard,
            ),
            BufferMessage::SaveBufferEnd(Ok(_)) => {
                self.content.len_revisions() < usize::MAX && self.cursors_in_text()
            },
            _ => true,
        }
    }

    /// Whether every cursor starts within the text.
    fn cursors_in_text(&self) -> (b: bool)
        ensures
            b == forall|k: int|
                0 <= k < self.cursor_list().len() ==> (#[trigger] self.cursor_list()[k]).range.start
                    <= self.text().len(),
    {
        let len = rope_len_chars(self.content.staged());
        let n = self.cursors.len();
        let mut k: usize = 0;
        while k < n
            invariant
                n == self.cursor_list().len(),
                len == self.text().len(),
                k <= n,
                forall|j: int| 0 <= j < k ==> (#[trigger] self.cursor_list()[j]).range.start <= len,
            decreases n - k,
        {
            if self.cursors[k].range.start > len {
                assert(!(self.cursor_list()[k as int].range.start <= len));
                return false;
            }
            k = k + 1;
        }
        true
    }
}


/// The index of the first buffer from `i` on with the id (-1 if none).
pub open spec fn first_with_id(list: Seq<Buffer>, id: BufferId, i: int) -> int
    decreases list.len() - i,
{
    if i < 0 || i >= list.len() {
        -1
    } else if list[i].spec_id() == id {
        i
    } else {
        first_with_id(list, id, i + 1)
    }
}

/// The index of the first buffer from `i` on with the file path (-1 if
/// none).
pub open spec fn first_with_path(list: Seq<Buffer>, path: Seq<Seq<char>>, i: int) -> int
    decreases list.len() - i,
{
    if i < 0 || i >= list.len() {
        -1
    } else if list[i].path() matches Some(p) && p@ == path {
        i
    } else {
        first_with_path(list, path, i + 1)
    }
}

proof fn lemma_first_with_id(list: Seq<Buffer>, id: BufferId, i: int)
    requires
        0 <= i,
    ensures
        -1 <= first_with_id(list, id, i) < list.len(),
        first_with_id(list, id, i) >= 0 ==> i <= first_with_id(list, id, i) && list[first_with_id(
            list,
            id,
            i,
        )].spec_id() == id,
        first_with_id(list, id, i) == -1 ==> forall|k: int|
            i <= k < list.len() ==> (#[trigger] list[k]).spec_id() != id,
    decreases list.len() - i,
{
    if i < list.len() && list[i].spec_id() != id {
        lemma_first_with_id(list, id, i + 1);
    }
}

/// Whether two file paths are the same path.
fn same_path(a: &FilePath, b: &FilePath) -> (same: bool)
    ensures
        same == (a@ == b@),
{
    if a.components.len() != b.components.len() {
        assert(a@.len() != b@.len());
        return false;
    }
    let n = a.components.len();
    let mut k: usize = 0;
    while k < n
        invariant
            n == a.components@.len(),
            n == b.components@.len(),
            k <= n,
            forall|j: int| 0 <= j < k ==> a.components@[j]@ == b.components@[j]@,
        decreases n - k,
    {
        if a.components[k] != b.components[k] {
            assert(a@[k as int] != b@[k as int]);
            return false;
        }
        k = k + 1;
    }
    assert(a@ =~= b@);
    true
}

/// The open buffers.
pub struct Buffers {
    buffers: Vec<Buffer>,
    next_buffer_id: usize,
}

impl Buffers {
    pub closed spec fn buffer_list(&self) -> Seq<Buffer> {
        self.buffers@
    }

    /// The id the next buffer added gets.
    pub closed spec fn next_id(&self) -> nat {
        self.next_buffer_id as nat
    }

    /// Every buffer is well formed, and their ids are apart and below the
    /// next id.
    pub closed spec fn wf(&self) -> bool {
        &&& forall|i: int| 0 <= i < self.buffers@.len() ==> (#[trigger] self.buffers@[i]).wf()
        &&& forall|i: int|
            0 <= i < self.buffers@.len() ==> (#[trigger] self.buffers@[i]).spec_id().index()
                < self.next_buffer_id
        &&& forall|i: int, j: int|
            0 <= i < j < self.buffers@.len() ==> (#[trigger] self.buffers@[i]).spec_id()
                != (#[trigger] self.buffers@[j]).spec_id()
    }

    pub fn new() -> (buffers: Self)
        ensures
            buffers.wf(),
            buffers.buffer_list() == Seq::<Buffer>::empty(),
            buffers.next_id() == 0,
    {
        Self { buffers: Vec::new(), next_buffer_id: 0 }
    }

    /// Opens a buffer on the text and gives its id, one not given before.
    pub fn add(
        &mut self,
        text: Rope,
        file_path: Option<FilePath>,
        indentation: Indentation,
        has_parser: bool,
    ) -> (buffer_id: BufferId)
        requires
            old(self).wf(),
            old(self).next_id() < usize::MAX,
        ensures
            final(self).wf(),
            buffer_id.index() == old(self).next_id(),
            final(self).next_id() == old(self).next_id() + 1,
            final(self).buffer_list().len() == old(self).buffer_list().len() + 1,
            final(self).buffer_list().drop_last() == old(self).buffer_list(),
            ({
                let buffer = final(self).buffer_list().last();
                &&& buffer.spec_id() == buffer_id
                &&& buffer.text() == rope_text(text)
                &&& buffer.tree().revision_count() == 1
                &&& buffer.path() == file_path
                &&& buffer.spec_indentation() == indentation
                &&& buffer.parsed() == has_parser
                &&& buffer.status() == ModifiedStatus::Unchanged
                &&& buffer.cursor_list() == seq![plain_cursor(0, 0)]
            }),
    {
        let buffer_id = BufferId(self.next_buffer_id);
        self.next_buffer_id = self.next_buffer_id + 1;
        self.buffers.push(Buffer::new(buffer_id, text, file_path, indentation, has_parser));
        assert(self.buffers@.drop_last() =~= old(self).buffers@);
        buffer_id
    }

    /// The index of the buffer with the id, if it is open.
    fn position(&self, id: BufferId) -> (index: Option<usize>)
        ensures
            match index {
                Some(i) => i == first_with_id(self.buffer_list(), id, 0),
                None => first_with_id(self.buffer_list(), id, 0) == -1,
            },
    {
        proof {
            lemma_first_with_id(self.buffers@, id, 0);
        }
        let mut i: usize = 0;
        while i < self.buffers.len()
            invariant
                i <= self.buffers@.len(),
                first_with_id(self.buffers@, id, 0) == first_with_id(self.buffers@, id, i as int),
            decreases self.buffers@.len() - i,
        {
            if self.buffers[i].id() == id {
                return Some(i);
            }
            i = i + 1;
        }
        None
    }

    /// Closes the buffer with the id and gives it back, if it is open; the
    /// last buffer takes its place.
    pub fn remove(&mut self, id: BufferId) -> (removed: Option<Buffer>)
        requires
            old(self).wf(),
        ensures
            final(self).wf(),
            final(self).next_id() == old(self).next_id(),
            ({
                let i = first_with_id(old(self).buffer_list(), id, 0);
                if i >= 0 {
                    &&& removed == Some(old(self).buffer_list()[i])
                    &&& final(self).buffer_list() == old(self).buffer_list().update(
                        i,
                        old(self).buffer_list().last(),
                    ).drop_last()
                } else {
                    &&& removed is None
                    &&& final(self).buffer_list() == old(self).buffer_list()
                }
            }),
    {
        proof {
            lemma_first_with_id(self.buffers@, id, 0);
        }
        match self.position(id) {
            Some(index) => {
                let buffer = self.buffers.swap_remove(index);
                proof {
                    let before = old(self).buffers@;
                    let after = self.buffers@;
                    assert forall|i: int, j: int|
                        0 <= i < j < after.len() implies (#[trigger] after[i]).spec_id()
                        != (#[trigger] after[j]).spec_id() by {
                        let bi = if i == index { before.len() - 1 } else { i };
                        let bj = if j == index { before.len() - 1 } else { j };
                        assert(after[i] == before[bi]);
                        assert(after[j] == before[bj]);
                        if bi < bj {
                            assert(before[bi].spec_id() != before[bj].spec_id());
                        } else {
                            assert(before[bj].spec_id() != before[bi].spec_id());
                        }
                    }
                    assert forall|i: int| 0 <= i < after.len() implies (#[trigger] after[i]).wf()
                        && after[i].spec_id().index() < self.next_buffer_id by {
                        let bi = if i == index { before.len() - 1 } else { i };
                        assert(after[i] == before[bi]);
                    }
                }
                Some(buffer)
            },
            None => None,
        }
    }

    /// The buffer with the id, if it is open.
    pub fn get(&self, id: BufferId) -> (buffer: Option<&Buffer>)
        ensures
            ({
                let i = first_with_id(self.buffer_list(), id, 0);
                if i >= 0 {
                    buffer matches Some(b) && *b == self.buffer_list()[i]
                } else {
                    buffer is None
                }
            }),
    {
        proof {
            lemma_first_with_id(self.buffers@, id, 0);
        }
        match self.position(id) {
            Some(index) => Some(&self.buffers[index]),
            None => None,
        }
    }

    /// The buffer with the id, if it is open, to change in place: the list
    /// then holds the buffer as the caller leaves it.
    pub fn get_mut(&mut self, id: BufferId) -> (buffer: Option<&mut Buffer>)
        ensures
            final(self).next_id() == old(self).next_id(),
            ({
                let i = first_with_id(old(self).buffer_list(), id, 0);
                if i >= 0 {
                    &&& buffer.is_some()
                    &&& *buffer.unwrap() == old(self).buffer_list()[i]
                    &&& final(self).buffer_list() == old(self).buffer_list().update(
                        i,
                        *final(buffer.unwrap()),
                    )
                } else {
                    &&& buffer.is_none()
                    &&& final(self).buffer_list() == old(self).buffer_list()
                }
            }),
    {
        proof {
            lemma_first_with_id(self.buffers@, id, 0);
        }
        match self.position(id) {
            Some(index) => Some(&mut self.buffers[index]),
            None => None,
        }
    }

    /// The id of the first buffer on the file, if any.
    pub fn find_by_path(&self, path: &FilePath) -> (id: Option<BufferId>)
        ensures
            ({
                let i = first_with_path(self.buffer_list(), path@, 0);
                if i >= 0 {
                    id == Some(self.buffer_list()[i].spec_id())
                } else {
                    id is None
                }
            }),
    {
        let mut i: usize = 0;
        while i < self.buffers.len()
            invariant
                i <= self.buffers@.len(),
                first_with_path(self.buffers@, path@, 0) == first_with_path(self.buffers@, path@, i as int),
            decreases self.buffers@.len() - i,
        {
            let found = match self.buffers[i].file_path() {
                Some(buffer_path) => same_path(buffer_path, path),
                None => false,
            };
            if found {
                return Some(self.buffers[i].id());
            }
            i = i + 1;
        }
        None
    }

    /// The open buffers, in order.
    pub fn iter(&self) -> (buffers: &[Buffer])
        ensures
            buffers@ == self.buffer_list(),
    {
        self.buffers.as_slice()
    }

    /// The open buffers, in order, to change in place: the list then holds
    /// them as the caller leaves them.
    pub fn iter_mut(&mut self) -> (buffers: &mut [Buffer])
        ensures
            buffers@ == old(self).buffer_list(),
            final(self).buffer_list() == final(buffers)@,
            final(self).next_id() == old(self).next_id(),
    {
        self.buffers.as_mut_slice()
    }

    pub fn is_empty(&self) -> (b: bool)
        ensures
            b == (self.buffer_list().len() == 0),
    {
        self.buffers.is_empty()
    }

    /// Whether the message can be handed over: its buffer, if open, takes
    /// it (see `Buffer::accepts_buffer_message`).
    pub open spec fn accepts(&self, message: BuffersMessage, clipboard: Seq<char>) -> bool {
        let i = first_with_id(self.buffer_list(), message.target(), 0);
        i >= 0 ==> self.buffer_list()[i].accepts_buffer_message(message.message(), clipboard)
    }

    /// Checks `accepts`; a caller tests this before handing the message
    /// over.
    pub fn accepts_message(&self, message: &BuffersMessage, clipboard: &str) -> (b: bool)
        requires
            self.wf(),
        ensures
            b == self.accepts(*message, clipboard@),
    {
        proof {
            lemma_first_with_id(self.buffers@, message.buffer_id, 0);
        }
        match self.position(message.buffer_id) {
            Some(index) => self.buffers[index].accepts_message_to_buffer(&message.inner, clipboard),
            None => true,
        }
    }

    /// Hands the message to its buffer; a message for a buffer that is not
    /// open is dropped.
    pub fn handle_message(
        &mut self,
        message: BuffersMessage,
        clipboard: &str,
        kills: &mut RectangleKillStore,
    ) -> (effects: Vec<BufferEffect>)
        requires
            old(self).wf(),
            old(self).accepts(message, clipboard@),
        ensures
            final(self).wf(),
            final(self).next_id() == old(self).next_id(),
            ({
                let i = first_with_id(old(self).buffer_list(), message.target(), 0);
                if i >= 0 {
                    &&& final(self).buffer_list().len() == old(self).buffer_list().len()
                    &&& forall|k: int|
                        0 <= k < old(self).buffer_list().len() && k != i
                            ==> #[trigger] final(self).buffer_list()[k] == old(self).buffer_list()[k]
                    &&& old(self).buffer_list()[i].handled_message(
                        final(self).buffer_list()[i],
                        message.message(),
                        clipboard@,
                        old(kills)@,
                        final(kills)@,
                        effects@,
                    )
                } else {
                    &&& final(self).buffer_list() == old(self).buffer_list()
                    &&& final(kills)@ == old(kills)@
                    &&& effects@.len() == 0
                }
            }),
    {
        proof {
            lemma_first_with_id(self.buffers@, message.buffer_id, 0);
        }
        match self.position(message.buffer_id) {
            Some(index) => {
                let ghost before = self.buffers@;
                let mut buffer = self.buffers.remove(index);
                let effects = buffer.handle_message(message.inner, clipboard, kills);
                self.buffers.insert(index, buffer);
                proof {
                    let after = self.buffers@;
                    assert(after.len() == before.len());
                    assert forall|k: int| 0 <= k < before.len() && k != index implies #[trigger] after[k]
                        == before[k] by {}
                    assert forall|i: int| 0 <= i < after.len() implies (#[trigger] after[i]).wf()
                        && after[i].spec_id().index() < self.next_buffer_id by {
                        if i != index {
                            assert(after[i] == before[i]);
                        }
                    }
                    assert forall|i: int, j: int|
                        0 <= i < j < after.len() implies (#[trigger] after[i]).spec_id()
                        != (#[trigger] after[j]).spec_id() by {
                        if i != index {
                            assert(after[i] == before[i]);
                        }
                        if j != index {
                            assert(after[j] == before[j]);
                        }
                    }
                }
                effects
            },
            None => Vec::new(),
        }
    }
}


/// A cursor of a buffer as the views see it: the message each action sends
/// to the buffer's cursor is built here, and sent by the caller.
#[derive(Clone, Debug, PartialEq)]
pub struct BufferCursor {
    buffer_id: BufferId,
    cursor_id: CursorId,
    cursor: Cursor,
}

impl BufferCursor {
    pub closed spec fn spec_buffer_id(&self) -> BufferId {
        self.buffer_id
    }

    pub closed spec fn spec_cursor_id(&self) -> CursorId {
        self.cursor_id
    }

    pub closed spec fn spec_cursor(&self) -> Cursor {
        self.cursor
    }

    /// `m` takes `message` to this cursor of this buffer.
    pub open spec fn carries(&self, m: BuffersMessage, message: CursorMessage) -> bool {
        &&& m.target() == self.spec_buffer_id()
        &&& m.message() == BufferMessage::CursorMessage { cursor_id: self.spec_cursor_id(), message }
    }

    pub fn new(buffer_id: BufferId, cursor_id: CursorId, cursor: Cursor) -> (c: Self)
        ensures
            c.spec_buffer_id() == buffer_id,
            c.spec_cursor_id() == cursor_id,
            c.spec_cursor() == cursor,
    {
        Self { buffer_id, cursor_id, cursor }
    }

    /// The message that takes `message` to this cursor's buffer.
    pub fn send_message(&self, message: BufferMessage) -> (m: BuffersMessage)
        ensures
            m.target() == self.spec_buffer_id(),
            m.message() == message,
    {
        BuffersMessage { buffer_id: self.buffer_id, inner: message }
    }

    /// The message that takes `message` to this cursor.
    pub fn send_cursor(&self, message: CursorMessage) -> (m: BuffersMessage)
        ensures
            self.carries(m, message),
    {
        self.send_message(BufferMessage::CursorMessage { cursor_id: self.cursor_id, message })
    }

    /// The message that saves the buffer.
    pub fn save(&self) -> (m: BuffersMessage)
        ensures
            m.target() == self.spec_buffer_id(),
            m.message() == BufferMessage::SaveBufferStart,
    {
        self.send_message(BufferMessage::SaveBufferStart)
    }

    pub fn inner(&self) -> (cursor: &Cursor)
        ensures
            *cursor == self.spec_cursor(),
    {
        &self.cursor
    }

    pub fn previous_child_revision(&self) -> (m: BuffersMessage)
        ensures
            m.target() == self.spec_buffer_id(),
            m.message() == BufferMessage::PreviousChildRevision,
    {
        self.send_message(BufferMessage::PreviousChildRevision)
    }

    pub fn next_child_revision(&self) -> (m: BuffersMessage)
        ensures
            m.target() == self.spec_buffer_id(),
            m.message() == BufferMessage::NextChildRevision,
    {
        self.send_message(BufferMessage::NextChildRevision)
    }

    pub fn move_up(&self) -> (m: BuffersMessage)
        ensures
            self.carries(m, CursorMessage::Up(1)),
    {
        self.send_cursor(CursorMessage::Up(1))
    }

    pub fn move_up_n(&self, n: usize) -> (m: BuffersMessage)
        ensures
            self.carries(m, CursorMessage::Up(n)),
    {
        self.send_cursor(CursorMessage::Up(n))
    }

    pub fn move_down(&self) -> (m: BuffersMessage)
        ensures
            self.carries(m, CursorMessage::Down(1)),
    {
        self.send_cursor(CursorMessage::Down(1))
    }

    pub fn move_down_n(&self, n: usize) -> (m: BuffersMessage)
        ensures
            self.carries(m, CursorMessage::Down(n)),
    {
        self.send_cursor(CursorMessage::Down(n))
    }

    pub fn move_left(&self) -> (m: BuffersMessage)
        ensures
            self.carries(m, CursorMessage::Left),
    {
        self.send_cursor(CursorMessage::Left)
    }

    pub fn move_right(&self) -> (m: BuffersMessage)
        ensures
            self.carries(m, CursorMessage::Right),
    {
        self.send_cursor(CursorMessage::Right)
    }

    pub fn move_start_of_line(&self) -> (m: BuffersMessage)
        ensures
            self.carries(m, CursorMessage::StartOfLine),
    {
        self.send_cursor(CursorMessage::StartOfLine)
    }

    pub fn move_end_of_line(&self) -> (m: BuffersMessage)
        ensures
            self.carries(m, CursorMessage::EndOfLine),
    {
        self.send_cursor(CursorMessage::EndOfLine)
    }

    pub fn move_start_of_buffer(&self) -> (m: BuffersMessage)
        ensures
            self.carries(m, CursorMessage::StartOfBuffer),
    {
        self.send_cursor(CursorMessage::StartOfBuffer)
    }

    pub fn move_end_of_buffer(&self) -> (m: BuffersMessage)
        ensures
            self.carries(m, CursorMessage::EndOfBuffer),
    {
        self.send_cursor(CursorMessage::EndOfBuffer)
    }

    pub fn begin_selection(&self) -> (m: BuffersMessage)
        ensures
            self.carries(m, CursorMessage::BeginSelection),
    {
        self.send_cursor(CursorMessage::BeginSelection)
    }

    pub fn clear_selection(&self) -> (m: BuffersMessage)
        ensures
            self.carries(m, CursorMessage::ClearSelection),
    {
        self.send_cursor(CursorMessage::ClearSelection)
    }

    pub fn select_all(&self) -> (m: BuffersMessage)
        ensures
            self.carries(m, CursorMessage::SelectAll),
    {
        self.send_cursor(CursorMessage::SelectAll)
    }

    pub fn paste_from_clipboard(&self) -> (m: BuffersMessage)
        ensures
            self.carries(m, CursorMessage::Yank),
    {
        self.send_cursor(CursorMessage::Yank)
    }

    pub fn copy_selection_to_clipboard(&self) -> (m: BuffersMessage)
        ensures
            self.carries(m, CursorMessage::CopySelection),
    {
        self.send_cursor(CursorMessage::CopySelection)
    }

    pub fn cut_selection_to_clipboard(&self) -> (m: BuffersMessage)
        ensures
            self.carries(m, CursorMessage::CutSelection),
    {
        self.send_cursor(CursorMessage::CutSelection)
    }

    pub fn undo(&self) -> (m: BuffersMessage)
        ensures
            self.carries(m, CursorMessage::Undo),
    {
        self.send_cursor(CursorMessage::Undo)
    }

    pub fn redo(&self) -> (m: BuffersMessage)
        ensures
            self.carries(m, CursorMessage::Redo),
    {
        self.send_cursor(CursorMessage::Redo)
    }

    pub fn delete_forward(&self) -> (m: BuffersMessage)
        ensures
            self.carries(m, CursorMessage::DeleteForward),
    {
        self.send_cursor(CursorMessage::DeleteForward)
    }

    pub fn delete_backward(&self) -> (m: BuffersMessage)
        ensures
            self.carries(m, CursorMessage::DeleteBackward),
    {
        self.send_cursor(CursorMessage::DeleteBackward)
    }

    pub fn delete_line(&self) -> (m: BuffersMessage)
        ensures
            self.carries(m, CursorMessage::DeleteLine),
    {
        self.send_cursor(CursorMessage::DeleteLine)
    }

    pub fn insert_new_line(&self) -> (m: BuffersMessage)
        ensures
            self.carries(m, CursorMessage::InsertNewLine),
    {
        self.send_cursor(CursorMessage::InsertNewLine)
    }

    pub fn insert_tab(&self) -> (m: BuffersMessage)
        ensures
            self.carries(m, CursorMessage::InsertTab),
    {
        self.send_cursor(CursorMessage::InsertTab)
    }

    pub fn begin_rectangle_selection(&self) -> (m: BuffersMessage)
        ensures
            self.carries(m, CursorMessage::BeginRectangleSelection),
    {
        self.send_cursor(CursorMessage::BeginRectangleSelection)
    }

    pub fn clear_rectangle_selection(&self) -> (m: BuffersMessage)
        ensures
            self.carries(m, CursorMessage::ClearRectangleSelection),
    {
        self.send_cursor(CursorMessage::ClearRectangleSelection)
    }

    pub fn rectangle_copy(&self) -> (m: BuffersMessage)
        ensures
            self.carries(m, CursorMessage::RectangleCopy),
    {
        self.send_cursor(CursorMessage::RectangleCopy)
    }

    pub fn rectangle_cut(&self) -> (m: BuffersMessage)
        ensures
            self.carries(m, CursorMessage::RectangleCut),
    {
        self.send_cursor(CursorMessage::RectangleCut)
    }

    pub fn rectangle_delete(&self) -> (m: BuffersMessage)
        ensures
            self.carries(m, CursorMessage::RectangleDelete),
    {
        self.send_cursor(CursorMessage::RectangleDelete)
    }

    pub fn insert_char(&self, character: char, move_forward: bool) -> (m: BuffersMessage)
        ensures
            self.carries(m, CursorMessage::InsertChar { character, move_forward }),
    {
        self.send_cursor(CursorMessage::InsertChar { character, move_forward })
    }
}


/// The diffs that an editing message makes (none for other messages).
pub open spec fn edit_diffs(before: Buffer, cursor_id: CursorId, message: CursorMessage, clipboard: Seq<char>) -> Seq<OpaqueDiff> {
    let c = before.cursor_list()[cursor_id.index() as int];
    let t = before.text();
    if is_single_edit(message) {
        seq![single_edit(t, before.spec_indentation(), c, message, clipboard).2]
    } else if message == CursorMessage::RectangleCut || message == CursorMessage::RectangleDelete {
        rectangle_deletion(t, before.spec_indentation().tab_width as nat, c).2
    } else {
        Seq::empty()
    }
}

/// An edit that changes something, undone right after (by any cursor),
/// gives back the text as it was, where that text was the head revision's:
/// one undo takes back all the lines of a rectangle cut. The cursor that
/// undoes goes where the cursor was saved with that revision.
pub proof fn lemma_undo_reverts_edit(
    before: Buffer,
    edited: Buffer,
    cursor_id: CursorId,
    message: CursorMessage,
    clipboard: Seq<char>,
    kills: Option<(Seq<Seq<char>>, Seq<char>)>,
    kills_edited: Option<(Seq<Seq<char>>, Seq<char>)>,
    effects: Seq<BufferEffect>,
    undone: Buffer,
    undo_cursor: CursorId,
    kills_undone: Option<(Seq<Seq<char>>, Seq<char>)>,
    undo_effects: Seq<BufferEffect>,
)
    requires
        before.wf(),
        before.text() == before.tree().head_revision().text_chars(),
        is_single_edit(message) || message == CursorMessage::RectangleCut || message
            == CursorMessage::RectangleDelete,
        !diffs_empty(edit_diffs(before, cursor_id, message, clipboard)),
        before.handled(edited, cursor_id, message, clipboard, kills, kills_edited, effects),
        edited.handled(
            undone,
            undo_cursor,
            CursorMessage::Undo,
            Seq::empty(),
            kills_edited,
            kills_undone,
            undo_effects,
        ),
    ensures
        undone.text() == before.text(),
        undone.tree().head() == before.tree().head(),
        undone.cursor_list()[undo_cursor.index() as int] == before.tree().head_revision().saved_cursor(),
{
    let old_head = before.tree().head() as int;
    let n = before.tree().revision_count() as int;
    assert(edited.tree().head() == n);
    assert(edited.tree().revision(old_head).text_chars() == before.tree().revision(old_head).text_chars());
    assert(edited.tree().head_revision() == edited.tree().revision(n));
}

/// An edit that changes something, undone and then redone (by any cursors),
/// gives back the text as the edit left it: one redo puts back all the lines
/// of a rectangle cut at once.
pub proof fn lemma_redo_reapplies_edit(
    before: Buffer,
    edited: Buffer,
    cursor_id: CursorId,
    message: CursorMessage,
    clipboard: Seq<char>,
    kills: Option<(Seq<Seq<char>>, Seq<char>)>,
    kills_edited: Option<(Seq<Seq<char>>, Seq<char>)>,
    effects: Seq<BufferEffect>,
    undone: Buffer,
    undo_cursor: CursorId,
    kills_undone: Option<(Seq<Seq<char>>, Seq<char>)>,
    undo_effects: Seq<BufferEffect>,
    redone: Buffer,
    redo_cursor: CursorId,
    kills_redone: Option<(Seq<Seq<char>>, Seq<char>)>,
    redo_effects: Seq<BufferEffect>,
)
    requires
        before.wf(),
        is_single_edit(message) || message == CursorMessage::RectangleCut || message
            == CursorMessage::RectangleDelete,
        !diffs_empty(edit_diffs(before, cursor_id, message, clipboard)),
        before.handled(edited, cursor_id, message, clipboard, kills, kills_edited, effects),
        edited.handled(
            undone,
            undo_cursor,
            CursorMessage::Undo,
            Seq::empty(),
            kills_edited,
            kills_undone,
            undo_effects,
        ),
        undone.handled(
            redone,
            redo_cursor,
            CursorMessage::Redo,
            Seq::empty(),
            kills_undone,
            kills_redone,
            redo_effects,
        ),
    ensures
        redone.text() == edited.text(),
        redone.tree().head() == edited.tree().head(),
        redone.cursor_list()[redo_cursor.index() as int] == edited.tree().head_revision().saved_cursor(),
{
    let old_head = before.tree().head() as int;
    let n = before.tree().revision_count() as int;
    assert(edited.tree().head() == n);
    assert(edited.tree().head_revision() == edited.tree().revision(n));
    assert(undone.tree().head() == old_head);
    assert(undone.tree().revision(old_head) == edited.tree().revision(old_head));
    assert(undone.tree().revision(n) == edited.tree().revision(n));
}

/// A rectangle cut and a rectangle delete by the same cursor of the same
/// buffer change it alike: the same text, cursors, status and head. The
/// delete leaves the recorded kill as it was.
pub proof fn lemma_cut_and_delete_edit_alike(
    before: Buffer,
    cursor_id: CursorId,
    clipboard: Seq<char>,
    kills: Option<(Seq<Seq<char>>, Seq<char>)>,
    cut: Buffer,
    kills_cut: Option<(Seq<Seq<char>>, Seq<char>)>,
    cut_effects: Seq<BufferEffect>,
    deleted: Buffer,
    kills_deleted: Option<(Seq<Seq<char>>, Seq<char>)>,
    delete_effects: Seq<BufferEffect>,
)
    requires
        before.wf(),
        before.handled(
            cut,
            cursor_id,
            CursorMessage::RectangleCut,
            clipboard,
            kills,
            kills_cut,
            cut_effects,
        ),
        before.handled(
            deleted,
            cursor_id,
            CursorMessage::RectangleDelete,
            clipboard,
            kills,
            kills_deleted,
            delete_effects,
        ),
    ensures
        cut.text() == deleted.text(),
        cut.cursor_list() == deleted.cursor_list(),
        cut.status() == deleted.status(),
        cut.tree().head() == deleted.tree().head(),
        cut.tree().revision_count() == deleted.tree().revision_count(),
        kills_deleted == kills,
{
    assert(cut.cursor_list() =~= deleted.cursor_list());
}

/// A rectangle cut is a rectangle copy followed by a rectangle delete: from
/// the same buffer and cursor, the cut records the kill that the copy
/// records and asks for the clipboard the copy asks for, then asks for what
/// the delete asks for, and leaves the text, the cursors, the status and the
/// head as the delete leaves them.
pub proof fn lemma_cut_is_copy_then_delete(
    before: Buffer,
    cursor_id: CursorId,
    clipboard: Seq<char>,
    kills: Option<(Seq<Seq<char>>, Seq<char>)>,
    copied: Buffer,
    kills_copied: Option<(Seq<Seq<char>>, Seq<char>)>,
    copy_effects: Seq<BufferEffect>,
    cut: Buffer,
    kills_cut: Option<(Seq<Seq<char>>, Seq<char>)>,
    cut_effects: Seq<BufferEffect>,
    deleted: Buffer,
    kills_deleted: Option<(Seq<Seq<char>>, Seq<char>)>,
    delete_effects: Seq<BufferEffect>,
)
    requires
        before.wf(),
        before.handled(
            copied,
            cursor_id,
            CursorMessage::RectangleCopy,
            clipboard,
            kills,
            kills_copied,
            copy_effects,
        ),
        before.handled(
            cut,
            cursor_id,
            CursorMessage::RectangleCut,
            clipboard,
            kills,
            kills_cut,
            cut_effects,
        ),
        before.handled(
            deleted,
            cursor_id,
            CursorMessage::RectangleDelete,
            clipboard,
            kills,
            kills_deleted,
            delete_effects,
        ),
    ensures
        kills_cut == kills_copied,
        cut_effects.len() == copy_effects.len() + delete_effects.len(),
        forall|k: int, s: Seq<char>|
            #![trigger copy_effects[k].is_clipboard(s)]
            #![trigger cut_effects[k].is_clipboard(s)]
            0 <= k < copy_effects.len() ==> (copy_effects[k].is_clipboard(s)
                <==> cut_effects[k].is_clipboard(s)),
        cut_effects.skip(copy_effects.len() as int) == delete_effects,
        cut.text() == deleted.text(),
        cut.cursor_list() == deleted.cursor_list(),
        cut.status() == deleted.status(),
        cut.tree().head() == deleted.tree().head(),
{
    lemma_cut_and_delete_edit_alike(
        before,
        cursor_id,
        clipboard,
        kills,
        cut,
        kills_cut,
        cut_effects,
        deleted,
        kills_deleted,
        delete_effects,
    );
    let c = before.cursor_list()[cursor_id.index() as int];
    let copies = c.rectangle_selection matches Some(rect) && rect.column_left != rect.column_right;
    if copies {
        assert(cut_effects.skip(1) =~= cut_effects.drop_first());
        if cut_effects.len() > 1 {
            assert(cut_effects.take(1).len() == 1);
        }
        assert(cut_effects.skip(1) =~= delete_effects);
    } else {
        assert(cut_effects.skip(0) =~= cut_effects);
        assert(cut_effects =~= delete_effects);
    }
}

/// A rectangle cut or delete that removes some char, from a buffer whose
/// text is its head revision's, makes exactly one revision and marks the
/// buffer changed; one undo then gives back the text as it was, and one redo
/// after it the text as the cut or delete left it.
pub proof fn lemma_rectangle_deletion_is_one_revision(
    before: Buffer,
    cursor_id: CursorId,
    message: CursorMessage,
    clipboard: Seq<char>,
    kills: Option<(Seq<Seq<char>>, Seq<char>)>,
    edited: Buffer,
    kills_edited: Option<(Seq<Seq<char>>, Seq<char>)>,
    effects: Seq<BufferEffect>,
    undone: Buffer,
    undo_cursor: CursorId,
    kills_undone: Option<(Seq<Seq<char>>, Seq<char>)>,
    undo_effects: Seq<BufferEffect>,
    redone: Buffer,
    redo_cursor: CursorId,
    kills_redone: Option<(Seq<Seq<char>>, Seq<char>)>,
    redo_effects: Seq<BufferEffect>,
)
    requires
        before.wf(),
        before.text() == before.tree().head_revision().text_chars(),
        utf8_len(before.text()) <= usize::MAX,
        message == CursorMessage::RectangleCut || message == CursorMessage::RectangleDelete,
        before.cursor_list()[cursor_id.index() as int].rectangle_selection matches Some(rect)
            && rect.column_left != rect.column_right && rectangle_ranges(
            before.text(),
            before.spec_indentation().tab_width as nat,
            rect,
        ).len() > 0,
        before.rectangle_in_text(cursor_id),
        before.handled(edited, cursor_id, message, clipboard, kills, kills_edited, effects),
        edited.handled(
            undone,
            undo_cursor,
            CursorMessage::Undo,
            Seq::empty(),
            kills_edited,
            kills_undone,
            undo_effects,
        ),
        undone.handled(
            redone,
            redo_cursor,
            CursorMessage::Redo,
            Seq::empty(),
            kills_undone,
            kills_redone,
            redo_effects,
        ),
    ensures
        edited.tree().revision_count() == before.tree().revision_count() + 1,
        edited.status() == ModifiedStatus::Changed,
        undone.text() == before.text(),
        redone.text() == edited.text(),
{
    let t = before.text();
    let tab = before.spec_indentation().tab_width as nat;
    let rect = before.cursor_list()[cursor_id.index() as int].rectangle_selection->0;
    let ranges = rectangle_ranges(t, tab, rect);
    crate::text::lemma_byte_offset_bounds(t, t.len() as int);
    lemma_rectangle_ranges(t, tab, rect, rect_height(rect) as int);
    let last = ranges[ranges.len() - 1];
    assert(0 <= last.0 < last.1 <= t.len());
    crate::text::lemma_byte_offset_strictly_increasing(t, last.0, last.1);
    crate::text::lemma_byte_offset_bounds(t, last.1);
    let diffs = range_deletion_diffs(t, ranges);
    assert(diffs[0] == crate::cursor::deletion_diff(t, last.0, last.1));
    assert(!diffs[0].spec_is_empty());
    assert(!diffs_empty(edit_diffs(before, cursor_id, message, clipboard)));
    lemma_undo_reverts_edit(
        before,
        edited,
        cursor_id,
        message,
        clipboard,
        kills,
        kills_edited,
        effects,
        undone,
        undo_cursor,
        kills_undone,
        undo_effects,
    );
    lemma_redo_reapplies_edit(
        before,
        edited,
        cursor_id,
        message,
        clipboard,
        kills,
        kills_edited,
        effects,
        undone,
        undo_cursor,
        kills_undone,
        undo_effects,
        redone,
        redo_cursor,
        kills_redone,
        redo_effects,
    );
}

/// A rectangle of width 0 changes neither the text nor the clipboard nor
/// the recorded kill: copy, cut and delete only leave rectangle mode.
pub proof fn lemma_zero_width_rectangle_is_noop(
    before: Buffer,
    after: Buffer,
    cursor_id: CursorId,
    message: CursorMessage,
    kills: Option<(Seq<Seq<char>>, Seq<char>)>,
    kills_after: Option<(Seq<Seq<char>>, Seq<char>)>,
    effects: Seq<BufferEffect>,
)
    requires
        message == CursorMessage::RectangleCopy || message == CursorMessage::RectangleCut
            || message == CursorMessage::RectangleDelete,
        cursor_id.index() < before.cursor_list().len(),
        before.cursor_list()[cursor_id.index() as int].rectangle_selection matches Some(rect)
            && rect.column_left == rect.column_right,
        before.handled(after, cursor_id, message, Seq::empty(), kills, kills_after, effects),
    ensures
        after.text() == before.text(),
        after.tree().head() == before.tree().head(),
        after.tree().revision_count() == before.tree().revision_count(),
        kills_after == kills,
        effects.len() == 0,
        after.cursor_list() == before.cursor_list().update(
            cursor_id.index() as int,
            Cursor { rectangle_selection: None, ..before.cursor_list()[cursor_id.index() as int] },
        ),
{
    let i = cursor_id.index() as int;
    let c = before.cursor_list()[i];
    if message != CursorMessage::RectangleCopy {
        assert(diffs_empty(Seq::<OpaqueDiff>::empty()));
        assert(effects.take(0) =~= Seq::<BufferEffect>::empty());
        assert(after.cursor_list() =~= before.cursor_list().update(
            i,
            Cursor { rectangle_selection: None, ..c },
        ));
    }
}

/// A rectangle copy leaves the text alone, puts the rectangle's lines,
/// joined by `\n`, on the clipboard, and a peek while the clipboard holds
/// that text (up to `\r\n` against `\n`) gives the lines back.
pub proof fn lemma_rectangle_copy_then_peek(
    before: Buffer,
    after: Buffer,
    cursor_id: CursorId,
    kills: Option<(Seq<Seq<char>>, Seq<char>)>,
    kills_after: Option<(Seq<Seq<char>>, Seq<char>)>,
    effects: Seq<BufferEffect>,
    clipboard: Seq<char>,
)
    requires
        before.cursor_list()[cursor_id.index() as int].rectangle_selection matches Some(rect)
            && rect.column_left != rect.column_right,
        before.handled(after, cursor_id, CursorMessage::RectangleCopy, Seq::empty(), kills, kills_after, effects),
        ({
            let rect = before.cursor_list()[cursor_id.index() as int].rectangle_selection->0;
            let parts = rectangle_parts(before.text(), before.spec_indentation().tab_width as nat, rect);
            crate::rectangle_kill::crlf_normalized(clipboard) == crate::rectangle_kill::crlf_normalized(
                joined_lines(parts),
            )
        }),
    ensures
        ({
            let rect = before.cursor_list()[cursor_id.index() as int].rectangle_selection->0;
            let parts = rectangle_parts(before.text(), before.spec_indentation().tab_width as nat, rect);
            &&& after.text() == before.text()
            &&& effects.len() == 1
            &&& effects[0].is_clipboard(joined_lines(parts))
            &&& crate::rectangle_kill::peek_result(kills_after, clipboard) == Some(parts)
        }),
{
}

/// A rectangle delete records no kill and asks nothing of the clipboard.
pub proof fn lemma_rectangle_delete_keeps_kill(
    before: Buffer,
    after: Buffer,
    cursor_id: CursorId,
    kills: Option<(Seq<Seq<char>>, Seq<char>)>,
    kills_after: Option<(Seq<Seq<char>>, Seq<char>)>,
    effects: Seq<BufferEffect>,
)
    requires
        before.handled(after, cursor_id, CursorMessage::RectangleDelete, Seq::empty(), kills, kills_after, effects),
    ensures
        kills_after == kills,
        forall|k: int| 0 <= k < effects.len() ==> !((#[trigger] effects[k]) is SetClipboard),
{
    let i = cursor_id.index() as int;
    let c = before.cursor_list()[i];
    let (new_text, cursor, diffs) = rectangle_deletion(
        before.text(),
        before.spec_indentation().tab_width as nat,
        c,
    );
    assert(effects.take(0) =~= Seq::<BufferEffect>::empty());
    if !diffs_empty(diffs) && before.parsed() {
        assert forall|k: int| 0 <= k < effects.len() implies !((#[trigger] effects[k]) is SetClipboard) by {
            assert(effects.drop_last().len() == 0);
        }
    }
}

/// Removing ranges that lie in `a..b` of `t`, ordered and apart, keeps what
/// comes before `a` and what comes after `b`.
pub proof fn lemma_without_ranges_keeps_outside(t: Seq<char>, ranges: Seq<(int, int)>, a: int, b: int)
    requires
        0 <= a <= b <= t.len(),
        forall|j: int| 0 <= j < ranges.len() ==> a <= (#[trigger] ranges[j]).0 <= ranges[j].1 <= b,
        forall|j: int, k: int| 0 <= j < k < ranges.len() ==> (#[trigger] ranges[j]).1 <= (#[trigger] ranges[k]).0,
    ensures
        ({
            let w = without_ranges(t, ranges);
            &&& a + (t.len() - b) <= w.len() <= t.len()
            &&& w.subrange(0, a) == t.subrange(0, a)
            &&& w.subrange(w.len() - (t.len() - b), w.len() as int) == t.subrange(b, t.len() as int)
        }),
    decreases ranges.len(),
{
    if ranges.len() > 0 {
        let (s, e) = ranges.last();
        let shorter = t.subrange(0, s) + t.subrange(e, t.len() as int);
        let rest = ranges.drop_last();
        let b2 = b - (e - s);
        assert forall|j: int| 0 <= j < rest.len() implies a <= (#[trigger] rest[j]).0 <= rest[j].1 <= b2 by {
            assert(rest[j] == ranges[j]);
            assert(ranges[j].1 <= ranges[ranges.len() - 1].0);
        }
        assert forall|j: int, k: int| 0 <= j < k < rest.len() implies (#[trigger] rest[j]).1 <= (
        #[trigger] rest[k]).0 by {
            assert(rest[j] == ranges[j]);
            assert(rest[k] == ranges[k]);
        }
        lemma_without_ranges_keeps_outside(shorter, rest, a, b2);
        assert(shorter.subrange(0, a) =~= t.subrange(0, a));
        assert(shorter.subrange(b2, shorter.len() as int) =~= t.subrange(b, t.len() as int));
    }
}

/// A rectangle cut or delete keeps every line above the rectangle and every
/// line below it as they were.
pub proof fn lemma_rectangle_deletion_keeps_other_lines(
    before: Buffer,
    after: Buffer,
    cursor_id: CursorId,
    message: CursorMessage,
    kills: Option<(Seq<Seq<char>>, Seq<char>)>,
    kills_after: Option<(Seq<Seq<char>>, Seq<char>)>,
    effects: Seq<BufferEffect>,
)
    requires
        before.accepts(cursor_id, message, Seq::empty()),
        message == CursorMessage::RectangleCut || message == CursorMessage::RectangleDelete,
        before.cursor_list()[cursor_id.index() as int].rectangle_selection matches Some(rect)
            && rect.column_left != rect.column_right && rect.line_start <= rect.line_end,
        before.handled(after, cursor_id, message, Seq::empty(), kills, kills_after, effects),
    ensures
        ({
            let t = before.text();
            let rect = before.cursor_list()[cursor_id.index() as int].rectangle_selection->0;
            let above = line_start(t, rect.line_start as nat) as int;
            let below = line_start(t, (rect.line_end + 1) as nat) as int;
            let w = after.text();
            &&& w.subrange(0, above) == t.subrange(0, above)
            &&& w.subrange(w.len() - (t.len() - below), w.len() as int) == t.subrange(below, t.len() as int)
        }),
{
    let t = before.text();
    let tab = before.spec_indentation().tab_width as nat;
    let rect = before.cursor_list()[cursor_id.index() as int].rectangle_selection->0;
    let ranges = rectangle_ranges(t, tab, rect);
    assert(t.len() <= usize::MAX);
    lemma_rectangle_ranges(t, tab, rect, rect_height(rect) as int);
    lemma_line_start(t, rect.line_start as nat);
    lemma_line_start(t, (rect.line_end + 1) as nat);
    lemma_line_start_monotonic(t, rect.line_start as nat, (rect.line_end + 1) as nat);
    assert(rect.line_start + rect_height(rect) == rect.line_end + 1);
    lemma_without_ranges_keeps_outside(
        t,
        ranges,
        line_start(t, rect.line_start as nat) as int,
        line_start(t, (rect.line_end + 1) as nat) as int,
    );
    let (new_text, cursor, diffs) = rectangle_deletion(t, tab, before.cursor_list()[cursor_id.index() as int]);
    if diffs_empty(diffs) {
        assert(after.text() == new_text);
    } else {
        assert(after.text() == new_text);
    }
}

/// A line of a rectangle that is too short to reach the rectangle's left
/// column gives an empty part.
pub proof fn lemma_short_line_gives_empty_part(t: Seq<char>, tab: nat, rect: RectangleSelection, i: int)
    requires
        0 <= i < rect_height(rect),
        rect.line_start + i < line_count(t),
        t.len() <= usize::MAX,
        rect.column_left < rect.column_right,
        crate::graphemes::text_width(tab, line_without_newline(t, (rect.line_start + i) as nat))
            <= rect.column_left,
    ensures
        rectangle_parts(t, tab, rect)[i] == Seq::<char>::empty(),
{
    let l = (rect.line_start + i) as nat;
    lemma_line_start(t, l);
    lemma_line_start(t, l + 1);
    lemma_line_start_monotonic(t, l, l + 1);
    lemma_column_mapping_in_line(
        tab,
        line_without_newline(t, l),
        line_start(t, l),
        rect.column_left as nat,
        rect.column_right as nat,
    );
    let m = rect_mapping(t, tab, rect, i);
    assert(m.char_start == m.char_end);
    assert(t.subrange(m.char_start as int, m.char_end as int) =~= Seq::<char>::empty());
}

} // verus!
