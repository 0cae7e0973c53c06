//! Cursor movements over a rope.
use vstd::prelude::*;
use ropey::Rope;

use crate::cursor::{boundary_after, boundary_before, Cursor};
use std::ops::Range;
use crate::graphemes::{
    column_bound, lemma_column_bound_subrange, next_boundary, next_boundary_n, prev_boundary_n,
    text_width, width, RopeExt, RopeGraphemes,
};
use crate::text::{
    lemma_line_start, lemma_line_start_le, lemma_line_start_monotonic, line_count, line_of_char,
    line_start, rope_char_to_line, rope_len_chars, rope_len_lines, rope_line, rope_line_to_char,
    rope_text, slice_char, slice_len_chars, slice_text,
};

verus! {

#[derive(Clone, Copy, Debug, PartialEq, Eq, Hash, Structural)]
pub enum Direction {
    Forward,
    Backward,
}

/// Where a horizontal move by `count` graphemes from char `start` lands.
pub open spec fn horizontal_target(text: Seq<char>, start: int, direction: Direction, count: nat) -> nat {
    match direction {
        Direction::Forward => next_boundary_n(text, start, count),
        Direction::Backward => prev_boundary_n(text, start, count),
    }
}

/// `cursor` on the grapheme that starts at `start`, with no remembered
/// visual column.
pub open spec fn placed_at(text: Seq<char>, cursor: Cursor, start: nat) -> Cursor {
    Cursor {
        range: Range { start: start as usize, end: boundary_after(text, start as int) as usize },
        visual_horizontal_offset: None,
        ..cursor
    }
}

/// The cursor after a horizontal move by `count` graphemes.
pub open spec fn horizontal_move(text: Seq<char>, cursor: Cursor, direction: Direction, count: nat) -> Cursor {
    placed_at(text, cursor, horizontal_target(text, cursor.range.start as int, direction, count))
}

/// The cursor after a move to the first grapheme of the text.
pub open spec fn buffer_start_move(text: Seq<char>, cursor: Cursor) -> Cursor {
    placed_at(text, cursor, 0)
}

/// The cursor after a move past the last char of the text.
pub open spec fn buffer_end_move(text: Seq<char>, cursor: Cursor) -> Cursor {
    Cursor {
        range: Range { start: text.len() as usize, end: text.len() as usize },
        visual_horizontal_offset: None,
        ..cursor
    }
}

/// The cursor after a move to the first grapheme of its line.
pub open spec fn line_start_move(text: Seq<char>, cursor: Cursor) -> Cursor {
    placed_at(text, cursor, line_start(text, line_of_char(text, cursor.range.start as int)))
}

/// The cursor after a move onto the line break that ends its line.
pub open spec fn line_end_move(text: Seq<char>, cursor: Cursor) -> Cursor {
    placed_at(text, cursor, end_of_line(text, cursor.range.start as int))
}

/// Moves the cursor by `count` graphemes, onto the grapheme that starts there.
pub fn move_horizontally(text: &Rope, cursor: &mut Cursor, direction: Direction, count: usize)
    requires
        old(cursor).range.start <= rope_text(*text).len(),
    ensures
        ({
            let start = horizontal_target(
                rope_text(*text),
                old(cursor).range.start as int,
                direction,
                count as nat,
            );
            &&& final(cursor).range.start == start
            &&& final(cursor).range.end == boundary_after(rope_text(*text), start as int)
        }),
        final(cursor).range.start <= final(cursor).range.end <= rope_text(*text).len(),
        direction == Direction::Backward && count > 0 && old(cursor).range.start > 0
            ==> final(cursor).range.start < old(cursor).range.start,
        final(cursor).visual_horizontal_offset is None,
        final(cursor).selection == old(cursor).selection,
        final(cursor).rectangle_selection == old(cursor).rectangle_selection,
        *final(cursor) == horizontal_move(rope_text(*text), *old(cursor), direction, count as nat),
{
    let grapheme_start = match direction {
        Direction::Forward => text.next_grapheme_boundary_n(cursor.range.start, count),
        Direction::Backward => text.prev_grapheme_boundary_n(cursor.range.start, count),
    };
    let grapheme_end = text.next_grapheme_boundary(grapheme_start);
    cursor.range = grapheme_start..grapheme_end;
    cursor.visual_horizontal_offset = None;
}

/// Moves the cursor onto the first grapheme of the text.
pub fn move_to_start_of_buffer(text: &Rope, cursor: &mut Cursor)
    ensures
        final(cursor).range.start == 0,
        final(cursor).range.end == boundary_after(rope_text(*text), 0),
        final(cursor).range.end <= rope_text(*text).len(),
        final(cursor).visual_horizontal_offset is None,
        final(cursor).selection == old(cursor).selection,
        final(cursor).rectangle_selection == old(cursor).rectangle_selection,
        *final(cursor) == buffer_start_move(rope_text(*text), *old(cursor)),
{
    cursor.range = 0..text.next_grapheme_boundary(0);
    cursor.visual_horizontal_offset = None;
}

/// Moves the cursor to the end of the text, past its last char.
pub fn move_to_end_of_buffer(text: &Rope, cursor: &mut Cursor)
    ensures
        final(cursor).range.start == rope_text(*text).len(),
        final(cursor).range.end == rope_text(*text).len(),
        final(cursor).visual_horizontal_offset is None,
        final(cursor).selection == old(cursor).selection,
        final(cursor).rectangle_selection == old(cursor).rectangle_selection,
        *final(cursor) == buffer_end_move(rope_text(*text), *old(cursor)),
{
    let len = rope_len_chars(text);
    cursor.range = len..len;
    cursor.visual_horizontal_offset = None;
}

/// Moves the cursor onto the first grapheme of its line.
pub fn move_to_start_of_line(text: &Rope, cursor: &mut Cursor)
    requires
        old(cursor).range.start <= rope_text(*text).len(),
    ensures
        ({
            let t = rope_text(*text);
            let start = line_start(t, line_of_char(t, old(cursor).range.start as int));
            &&& final(cursor).range.start == start
            &&& final(cursor).range.end == boundary_after(t, start as int)
        }),
        final(cursor).range.start <= final(cursor).range.end <= rope_text(*text).len(),
        final(cursor).visual_horizontal_offset is None,
        final(cursor).selection == old(cursor).selection,
        final(cursor).rectangle_selection == old(cursor).rectangle_selection,
        *final(cursor) == line_start_move(rope_text(*text), *old(cursor)),
{
    let line_index = rope_char_to_line(text, cursor.range.start);
    proof {
        lemma_line_start_le(rope_text(*text), cursor.range.start as int);
        lemma_line_start(rope_text(*text), line_index as nat);
    }
    let char_index = rope_line_to_char(text, line_index);
    cursor.range = char_index..text.next_grapheme_boundary(char_index);
    cursor.visual_horizontal_offset = None;
}

/// The position of the line break that ends the line of char `i` (the end of
/// the text on the last line).
pub open spec fn end_of_line(text: Seq<char>, i: int) -> nat {
    let line = line_of_char(text, i);
    if line + 1 < line_count(text) {
        (line_start(text, line + 1) - 1) as nat
    } else {
        text.len()
    }
}

/// Moves the cursor onto the line break that ends its line (past the last
/// char on the last line).
pub fn move_to_end_of_line(text: &Rope, cursor: &mut Cursor)
    requires
        old(cursor).range.start <= rope_text(*text).len(),
    ensures
        ({
            let t = rope_text(*text);
            let end = end_of_line(t, old(cursor).range.start as int);
            &&& final(cursor).range.start == end
            &&& final(cursor).range.end == boundary_after(t, end as int)
        }),
        final(cursor).range.start <= final(cursor).range.end <= rope_text(*text).len(),
        final(cursor).visual_horizontal_offset is None,
        final(cursor).selection == old(cursor).selection,
        final(cursor).rectangle_selection == old(cursor).rectangle_selection,
        *final(cursor) == line_end_move(rope_text(*text), *old(cursor)),
{
    let ghost t = rope_text(*text);
    let line_index = rope_char_to_line(text, cursor.range.start);
    proof {
        lemma_line_start_le(t, cursor.range.start as int);
    }
    let len_lines = rope_len_lines(text);
    let char_index = if line_index + 1 < len_lines {
        proof {
            lemma_line_start(t, (line_index + 1) as nat);
            lemma_line_start(t, line_index as nat);
            lemma_line_start_monotonic(t, line_index as nat, (line_index + 1) as nat);
        }
        let next_line_start = rope_line_to_char(text, line_index + 1);
        next_line_start - 1
    } else {
        rope_len_chars(text)
    };
    cursor.range = char_index..text.next_grapheme_boundary(char_index);
    cursor.visual_horizontal_offset = None;
}

/// Walking the graphemes of `line` from char `i` at visual column `x`: where
/// the walk stops, before the first grapheme that would pass column
/// `target_x` or that is a line feed.
pub open spec fn vertical_walk(tab: nat, line: Seq<char>, target_x: nat, i: nat, x: nat) -> nat
    decreases line.len() - i,
{
    if i >= line.len() {
        i
    } else {
        let j = next_boundary(line, i as int);
        if j <= i || j > line.len() {
            i
        } else {
            let g = line.subrange(i as int, j as int);
            let w = text_width(tab, g);
            if x + w > target_x || g == seq!['\n'] {
                i
            } else {
                vertical_walk(tab, line, target_x, j, x + w)
            }
        }
    }
}

pub proof fn lemma_vertical_walk_bound(tab: nat, line: Seq<char>, target_x: nat, i: nat, x: nat)
    requires
        i <= line.len(),
    ensures
        i <= vertical_walk(tab, line, target_x, i, x) <= line.len(),
    decreases line.len() - i,
{
    if i < line.len() {
        let j = next_boundary(line, i as int);
        if !(j <= i || j > line.len()) {
            let g = line.subrange(i as int, j as int);
            lemma_vertical_walk_bound(tab, line, target_x, j, x + text_width(tab, g));
        }
    }
}

/// The line a vertical move by `count` lines from line `line` lands on.
pub open spec fn vertical_line(line: nat, lines: nat, direction: Direction, count: nat) -> nat {
    match direction {
        Direction::Forward => if line + count <= lines - 1 {
            line + count
        } else {
            (lines - 1) as nat
        },
        Direction::Backward => if line >= count {
            (line - count) as nat
        } else {
            0
        },
    }
}

/// The cursor after a move by `count` lines: on the first line going up or
/// the last line going down it stays; otherwise it goes to the target line,
/// as near its remembered (or current) visual column as that line allows,
/// and remembers that column.
pub open spec fn vertical_move(
    t: Seq<char>,
    tab: nat,
    cursor: Cursor,
    direction: Direction,
    count: nat,
) -> Cursor {
    let line = line_of_char(t, cursor.range.start as int);
    let at_edge = (direction == Direction::Backward && line == 0) || (direction == Direction::Forward
        && line == line_count(t) - 1);
    if at_edge {
        cursor
    } else {
        let visual_x = match cursor.visual_horizontal_offset {
            Some(x) => x as nat,
            None => cursor.spec_column_offset(tab, t),
        };
        let new_line = vertical_line(line, line_count(t), direction, count);
        let new_start = line_start(t, new_line);
        let line_text = t.subrange(new_start as int, line_start(t, new_line + 1) as int);
        let start = new_start + vertical_walk(tab, line_text, visual_x, 0, 0);
        Cursor {
            range: Range { start: start as usize, end: boundary_after(t, start as int) as usize },
            visual_horizontal_offset: Some(visual_x as usize),
            ..cursor
        }
    }
}

/// Moves the cursor `count` lines up or down, keeping its visual column
/// (remembered across moves) as far as the target line allows. Nothing
/// happens on the first line going up or on the last line going down.
pub fn move_vertically(
    text: &Rope,
    cursor: &mut Cursor,
    tab_width: usize,
    direction: Direction,
    count: usize,
)
    requires
        old(cursor).range.start <= rope_text(*text).len(),
        column_bound(tab_width as nat, rope_text(*text)) <= usize::MAX,
    ensures
        ({
            let t = rope_text(*text);
            let line = line_of_char(t, old(cursor).range.start as int);
            let at_edge = (direction == Direction::Backward && line == 0) || (direction
                == Direction::Forward && line == line_count(t) - 1);
            if at_edge {
                *final(cursor) == *old(cursor)
            } else {
                let visual_x = match old(cursor).visual_horizontal_offset {
                    Some(x) => x as nat,
                    None => old(cursor).spec_column_offset(tab_width as nat, t),
                };
                let new_line = vertical_line(line, line_count(t), direction, count as nat);
                let new_start = line_start(t, new_line);
                let line_text = t.subrange(new_start as int, line_start(t, new_line + 1) as int);
                let start = new_start + vertical_walk(tab_width as nat, line_text, visual_x, 0, 0);
                &&& final(cursor).range.start == start
                &&& final(cursor).range.end == boundary_after(t, start as int)
                &&& final(cursor).visual_horizontal_offset == Some(visual_x as usize)
                &&& final(cursor).selection == old(cursor).selection
                &&& final(cursor).rectangle_selection == old(cursor).rectangle_selection
            }
        }),
        final(cursor).range.start <= rope_text(*text).len(),
        *final(cursor) == vertical_move(
            rope_text(*text),
            tab_width as nat,
            *old(cursor),
            direction,
            count as nat,
        ),
        old(cursor).range.start <= old(cursor).range.end <= rope_text(*text).len()
            ==> final(cursor).range.start <= final(cursor).range.end <= rope_text(*text).len(),
{
    let ghost t = rope_text(*text);
    let current_line_index = rope_char_to_line(text, cursor.range.start);
    let len_lines = rope_len_lines(text);
    proof {
        lemma_line_start_le(t, cursor.range.start as int);
    }
    if (direction == Direction::Backward && current_line_index == 0) || (direction
        == Direction::Forward && current_line_index == len_lines - 1) {
        return;
    }
    let current_visual_x = match cursor.visual_horizontal_offset {
        Some(x) => x,
        None => cursor.column_offset(tab_width, text),
    };
    let new_line_index = match direction {
        Direction::Forward => if count <= (len_lines - 1) - current_line_index {
            current_line_index + count
        } else {
            len_lines - 1
        },
        Direction::Backward => if current_line_index >= count {
            current_line_index - count
        } else {
            0
        },
    };
    proof {
        lemma_line_start(t, new_line_index as nat);
        lemma_line_start(t, (new_line_index + 1) as nat);
        lemma_line_start_monotonic(t, new_line_index as nat, (new_line_index + 1) as nat);
    }
    let new_line = rope_line(text, new_line_index);
    let ghost line_text = slice_text(new_line);
    let n = slice_len_chars(&new_line);
    proof {
        lemma_column_bound_subrange(
            tab_width as nat,
            t,
            line_start(t, new_line_index as nat) as int,
            line_start(t, (new_line_index + 1) as nat) as int,
        );
    }
    let mut graphemes = RopeGraphemes::new(&new_line);
    let mut new_visual_x: usize = 0;
    let line_char_start = rope_line_to_char(text, new_line_index);
    let mut offset: usize = 0;
    proof {
        lemma_vertical_walk_bound(tab_width as nat, line_text, current_visual_x as nat, 0, 0);
    }
    while offset < n
        invariant_except_break
            n == line_text.len(),
            line_text == slice_text(new_line),
            column_bound(tab_width as nat, line_text) <= usize::MAX,
            graphemes.text_chars() == line_text,
            graphemes.position() == offset,
            offset <= n,
            new_visual_x <= column_bound(tab_width as nat, line_text.take(offset as int)),
            vertical_walk(tab_width as nat, line_text, current_visual_x as nat, offset as nat, new_visual_x as nat)
                == vertical_walk(tab_width as nat, line_text, current_visual_x as nat, 0, 0),
        ensures
            offset <= n,
            vertical_walk(tab_width as nat, line_text, current_visual_x as nat, 0, 0) == offset,
        decreases n - offset,
    {
        let next = graphemes.next();
        let ghost end = next_boundary(line_text, offset as int);
        let grapheme = next.unwrap();
        assert(slice_text(grapheme.slice) == line_text.subrange(offset as int, end as int));
        let glen = slice_len_chars(&grapheme.slice);
        proof {
            lemma_column_bound_subrange(tab_width as nat, line_text, offset as int, offset + glen);
        }
        let w = width(tab_width, &grapheme.slice);
        let is_line_feed = glen == 1 && slice_char(&grapheme.slice, 0) == '\n';
        proof {
            if glen == 1 {
                if slice_text(grapheme.slice)[0] == '\n' {
                    assert(slice_text(grapheme.slice) =~= seq!['\n']);
                }
            }
            if slice_text(grapheme.slice) == seq!['\n'] {
                assert(slice_text(grapheme.slice)[0] == '\n');
            }
        }
        assert(w == text_width(tab_width as nat, line_text.subrange(offset as int, end as int)));
        if new_visual_x + w > current_visual_x || is_line_feed {
            assert(vertical_walk(tab_width as nat, line_text, current_visual_x as nat, offset as nat, new_visual_x as nat) == offset);
            break;
        }
        assert(vertical_walk(tab_width as nat, line_text, current_visual_x as nat, offset as nat, new_visual_x as nat)
            == vertical_walk(tab_width as nat, line_text, current_visual_x as nat, end, (new_visual_x + w) as nat));
        offset = offset + glen;
        new_visual_x = new_visual_x + w;
    }
    let len = rope_len_chars(text);
    assert(line_char_start + offset <= len);
    let char_index = line_char_start + offset;
    cursor.range = char_index..text.next_grapheme_boundary(char_index);
    cursor.visual_horizontal_offset = Some(current_visual_x);
}

} // verus!
