//! Grapheme clusters and their display widths.
use vstd::prelude::*;
use ropey::{Rope, RopeSlice};
use unicode_segmentation::GraphemeCursor;
use unicode_width::UnicodeWidthStr;

use crate::text::{
    byte_offset, char_of_byte, char_utf8_len, is_char_boundary_offset, lemma_boundary_char_index,
    lemma_byte_offset_bounds, lemma_byte_offset_strictly_increasing, lemma_char_of_byte_bound,
    lemma_char_of_byte_offset, lemma_line_start, lemma_line_start_monotonic, line_count,
    line_of_char, line_start, rope_text, rope_to_string, slice_len_chars, slice_slice, slice_text, slice_to_string,
    str_byte_to_char, str_char_to_byte, utf8_len,
};

verus! {

pub type ByteIndex = usize;

pub type CharIndex = usize;

pub type LineIndex = usize;

// ---------------------------------------------------------------------------
// calls into unicode-segmentation and unicode-width

/// The next extended grapheme cluster boundary after byte `byte_index` of a
/// text, as `unicode_segmentation::GraphemeCursor::next_boundary` finds it
/// when given the whole text.
pub uninterp spec fn grapheme_next_byte(text: Seq<char>, byte_index: usize) -> Option<usize>;

/// The previous extended grapheme cluster boundary before byte `byte_index`
/// of a text, as `unicode_segmentation::GraphemeCursor::prev_boundary` finds
/// it when given the whole text.
pub uninterp spec fn grapheme_prev_byte(text: Seq<char>, byte_index: usize) -> Option<usize>;

/// The display width in columns of a string, as
/// `unicode_width::UnicodeWidthStr::width` computes it.
pub uninterp spec fn display_width(text: Seq<char>) -> usize;

/// `GraphemeCursor::new(byte_index, text.len(), true).next_boundary(text, 0)`.
/// Claims, as the crate documents: the result is the named boundary; it is
/// `None` exactly at the end of the text (the whole text is one chunk, so no
/// other chunk or context is asked for); a boundary lies after `byte_index`
/// and on a char boundary.
#[verifier::external_body]
fn str_next_grapheme_boundary(text: &str, byte_index: usize) -> (r: Option<usize>)
    requires
        is_char_boundary_offset(text@, byte_index as int),
    ensures
        r == grapheme_next_byte(text@, byte_index),
        r is None <==> byte_index == utf8_len(text@),
        r matches Some(b) ==> byte_index < b && is_char_boundary_offset(text@, b as int),
{
    let mut cursor = GraphemeCursor::new(byte_index, text.len(), true);
    match cursor.next_boundary(text, 0) {
        Ok(boundary) => boundary,
        Err(_) => None,
    }
}

/// `GraphemeCursor::new(byte_index, text.len(), true).prev_boundary(text, 0)`.
/// Claims, as the crate documents: the result is the named boundary; it is
/// `None` exactly at the start of the text; a boundary lies before
/// `byte_index` and on a char boundary.
#[verifier::external_body]
fn str_prev_grapheme_boundary(text: &str, byte_index: usize) -> (r: Option<usize>)
    requires
        is_char_boundary_offset(text@, byte_index as int),
    ensures
        r == grapheme_prev_byte(text@, byte_index),
        r is None <==> byte_index == 0,
        r matches Some(b) ==> b < byte_index && is_char_boundary_offset(text@, b as int),
{
    let mut cursor = GraphemeCursor::new(byte_index, text.len(), true);
    match cursor.prev_boundary(text, 0) {
        Ok(boundary) => boundary,
        Err(_) => None,
    }
}

/// `UnicodeWidthStr::width`. Claims the named width, and that it is at most
/// three columns per char: the crate's documented rules give no char a width
/// above 3, and every sequence rule gives a width no larger than that.
#[verifier::external_body]
fn str_display_width(text: &str) -> (w: usize)
    ensures
        w == display_width(text@),
        w <= 3 * text@.len(),
{
    UnicodeWidthStr::width(text)
}

// ---------------------------------------------------------------------------
// grapheme boundaries

/// Char index of the next grapheme boundary after char `i`.
pub open spec fn next_boundary(text: Seq<char>, i: int) -> nat {
    match grapheme_next_byte(text, byte_offset(text, i) as usize) {
        Some(b) => char_of_byte(text, b as int),
        None => text.len(),
    }
}

/// Byte offset reached from byte `b` after `n` steps to the next boundary,
/// or `None` when the end of the text was reached on the way.
pub open spec fn next_boundary_n_bytes(text: Seq<char>, b: usize, n: nat) -> Option<usize>
    decreases n,
{
    if n == 0 {
        Some(b)
    } else {
        match grapheme_next_byte(text, b) {
            None => None,
            Some(nb) => next_boundary_n_bytes(text, nb, (n - 1) as nat),
        }
    }
}

/// Byte offset reached from byte `b` after `n` steps to the previous boundary,
/// or `None` when the start of the text was reached on the way.
pub open spec fn prev_boundary_n_bytes(text: Seq<char>, b: usize, n: nat) -> Option<usize>
    decreases n,
{
    if n == 0 {
        Some(b)
    } else {
        match grapheme_prev_byte(text, b) {
            None => None,
            Some(pb) => prev_boundary_n_bytes(text, pb, (n - 1) as nat),
        }
    }
}

/// Char index of the `n`-th grapheme boundary after char `i` (the end of the
/// text when there are fewer).
pub open spec fn next_boundary_n(text: Seq<char>, i: int, n: nat) -> nat {
    match next_boundary_n_bytes(text, byte_offset(text, i) as usize, n) {
        Some(b) => char_of_byte(text, b as int),
        None => text.len(),
    }
}

/// Char index of the `n`-th grapheme boundary before char `i` (the start of
/// the text when there are fewer).
pub open spec fn prev_boundary_n(text: Seq<char>, i: int, n: nat) -> nat {
    match prev_boundary_n_bytes(text, byte_offset(text, i) as usize, n) {
        Some(b) => char_of_byte(text, b as int),
        None => 0,
    }
}

pub proof fn lemma_char_of_byte_monotonic(s: Seq<char>, a: int, b: int)
    requires
        a <= b,
    ensures
        char_of_byte(s, a) <= char_of_byte(s, b),
    decreases s.len(),
{
    if s.len() > 0 && a >= char_utf8_len(s[0]) {
        lemma_char_of_byte_monotonic(s.drop_first(), a - char_utf8_len(s[0]), b - char_utf8_len(s[0]));
    }
}

/// From a char boundary, a larger boundary is a larger char index.
pub proof fn lemma_boundary_order(s: Seq<char>, i: int, b: int)
    requires
        0 <= i <= s.len(),
        is_char_boundary_offset(s, b),
        byte_offset(s, i) < b,
    ensures
        i < char_of_byte(s, b) <= s.len(),
{
    lemma_char_of_byte_bound(s, b);
    let k = char_of_byte(s, b) as int;
    if k <= i {
        if k < i {
            lemma_byte_offset_strictly_increasing(s, k, i);
        }
    }
}

/// From a char boundary, a smaller boundary is a smaller char index.
pub proof fn lemma_boundary_order_back(s: Seq<char>, i: int, b: int)
    requires
        0 <= i <= s.len(),
        is_char_boundary_offset(s, b),
        b < byte_offset(s, i),
    ensures
        char_of_byte(s, b) < i,
{
    lemma_char_of_byte_bound(s, b);
    let k = char_of_byte(s, b) as int;
    if k >= i {
        if k > i {
            lemma_byte_offset_strictly_increasing(s, i, k);
        }
    }
}

/// The char index of the next grapheme boundary after char `char_index`.
fn next_boundary_in(text: &str, char_index: usize) -> (j: usize)
    requires
        char_index <= text@.len(),
    ensures
        j == next_boundary(text@, char_index as int),
        char_index < text@.len() ==> char_index < j <= text@.len(),
        char_index == text@.len() ==> j == char_index,
{
    let b = str_char_to_byte(text, char_index);
    proof {
        lemma_boundary_char_index(text@, char_index as int);
        lemma_byte_offset_bounds(text@, char_index as int);
        if char_index < text@.len() {
            lemma_byte_offset_strictly_increasing(text@, char_index as int, text@.len() as int);
        }
    }
    match str_next_grapheme_boundary(text, b) {
        None => {
            proof {
                if char_index < text@.len() {
                    assert(b < utf8_len(text@));
                }
            }
            text.unicode_len()
        },
        Some(nb) => {
            proof {
                lemma_boundary_order(text@, char_index as int, nb as int);
            }
            str_byte_to_char(text, nb)
        },
    }
}

/// The char index of the `n`-th grapheme boundary after char `char_index`.
fn next_boundary_n_in(text: &str, char_index: usize, n: usize) -> (j: usize)
    requires
        char_index <= text@.len(),
    ensures
        j == next_boundary_n(text@, char_index as int, n as nat),
        char_index <= j <= text@.len(),
        n > 0 && char_index < text@.len() ==> char_index < j,
{
    let mut byte_index = str_char_to_byte(text, char_index);
    let ghost b0 = byte_index;
    proof {
        lemma_boundary_char_index(text@, char_index as int);
    }
    let mut k: usize = 0;
    while k < n
        invariant
            0 <= k <= n,
            char_index <= text@.len(),
            b0 == byte_offset(text@, char_index as int),
            is_char_boundary_offset(text@, byte_index as int),
            b0 <= byte_index,
            k > 0 ==> b0 < byte_index,
            next_boundary_n_bytes(text@, b0 as usize, n as nat) == next_boundary_n_bytes(
                text@,
                byte_index,
                (n - k) as nat,
            ),
        decreases n - k,
    {
        match str_next_grapheme_boundary(text, byte_index) {
            None => {
                proof {
                    lemma_char_of_byte_bound(text@, byte_index as int);
                }
                return text.unicode_len();
            },
            Some(b) => {
                byte_index = b;
            },
        }
        k = k + 1;
    }
    proof {
        lemma_char_of_byte_monotonic(text@, b0 as int, byte_index as int);
        lemma_char_of_byte_offset(text@, char_index as int);
        lemma_char_of_byte_bound(text@, byte_index as int);
        if n > 0 && char_index < text@.len() {
            lemma_boundary_order(text@, char_index as int, byte_index as int);
        }
    }
    str_byte_to_char(text, byte_index)
}

/// The char index of the `n`-th grapheme boundary before char `char_index`.
fn prev_boundary_n_in(text: &str, char_index: usize, n: usize) -> (j: usize)
    requires
        char_index <= text@.len(),
    ensures
        j == prev_boundary_n(text@, char_index as int, n as nat),
        j <= char_index,
        n > 0 && char_index > 0 ==> j < char_index,
{
    let mut byte_index = str_char_to_byte(text, char_index);
    let ghost b0 = byte_index;
    proof {
        lemma_boundary_char_index(text@, char_index as int);
    }
    let mut k: usize = 0;
    while k < n
        invariant
            0 <= k <= n,
            char_index <= text@.len(),
            b0 == byte_offset(text@, char_index as int),
            is_char_boundary_offset(text@, byte_index as int),
            byte_index <= b0,
            k > 0 ==> byte_index < b0,
            prev_boundary_n_bytes(text@, b0 as usize, n as nat) == prev_boundary_n_bytes(
                text@,
                byte_index,
                (n - k) as nat,
            ),
        decreases n - k,
    {
        match str_prev_grapheme_boundary(text, byte_index) {
            None => {
                proof {
                    if char_index > 0 {
                        lemma_byte_offset_strictly_increasing(text@, 0, char_index as int);
                    }
                }
                return 0;
            },
            Some(b) => {
                byte_index = b;
            },
        }
        k = k + 1;
    }
    proof {
        lemma_char_of_byte_monotonic(text@, byte_index as int, b0 as int);
        lemma_char_of_byte_offset(text@, char_index as int);
        if n > 0 && char_index > 0 {
            lemma_boundary_order_back(text@, char_index as int, byte_index as int);
        }
    }
    str_byte_to_char(text, byte_index)
}

/// Grapheme-boundary queries on a text.
pub trait RopeExt {
    /// The chars of the text.
    spec fn chars_of(&self) -> Seq<char>;

    /// Finds the previous grapheme boundary before the given char position
    fn prev_grapheme_boundary_n(&self, char_index: CharIndex, n: usize) -> (j: CharIndex)
        requires
            char_index <= self.chars_of().len(),
        ensures
            j == prev_boundary_n(self.chars_of(), char_index as int, n as nat),
            j <= char_index,
            n > 0 && char_index > 0 ==> j < char_index,
    ;

    /// Finds the next grapheme boundary after the given char position
    fn next_grapheme_boundary_n(&self, char_index: CharIndex, n: usize) -> (j: CharIndex)
        requires
            char_index <= self.chars_of().len(),
        ensures
            j == next_boundary_n(self.chars_of(), char_index as int, n as nat),
            char_index <= j <= self.chars_of().len(),
            n > 0 && char_index < self.chars_of().len() ==> char_index < j,
    ;

    /// Finds the nth previous grapheme boundary before the given char position
    fn prev_grapheme_boundary(&self, char_index: CharIndex) -> (j: usize)
        requires
            char_index <= self.chars_of().len(),
        ensures
            j == prev_boundary_n(self.chars_of(), char_index as int, 1),
            j <= char_index,
            char_index > 0 ==> j < char_index,
    {
        self.prev_grapheme_boundary_n(char_index, 1)
    }

    /// Finds the nth next grapheme boundary after the given char position
    fn next_grapheme_boundary(&self, char_index: CharIndex) -> (j: CharIndex)
        requires
            char_index <= self.chars_of().len(),
        ensures
            j == next_boundary_n(self.chars_of(), char_index as int, 1),
            char_index <= j <= self.chars_of().len(),
            char_index < self.chars_of().len() ==> char_index < j,
    {
        self.next_grapheme_boundary_n(char_index, 1)
    }
}

impl RopeExt for Rope {
    open spec fn chars_of(&self) -> Seq<char> {
        rope_text(*self)
    }

    /// Finds the previous grapheme boundary before the given char position
    fn prev_grapheme_boundary_n(&self, char_index: CharIndex, n: usize) -> (j: CharIndex) {
        let text = rope_to_string(self);
        prev_boundary_n_in(text.as_str(), char_index, n)
    }

    /// Finds the next grapheme boundary after the given char position
    fn next_grapheme_boundary_n(&self, char_index: CharIndex, n: usize) -> (j: CharIndex) {
        let text = rope_to_string(self);
        next_boundary_n_in(text.as_str(), char_index, n)
    }
}

/// One step of the n-step boundary is the single-step boundary.
pub proof fn lemma_next_boundary_one(text: Seq<char>, i: int)
    requires
        0 <= i <= text.len(),
        byte_offset(text, i) <= usize::MAX,
    ensures
        next_boundary_n(text, i, 1) == next_boundary(text, i),
{
    let b = byte_offset(text, i) as usize;
    match grapheme_next_byte(text, b) {
        None => {},
        Some(nb) => {
            assert(next_boundary_n_bytes(text, nb, 0) == Some(nb));
        },
    }
}

// ---------------------------------------------------------------------------
// display widths

/// Number of tab chars in `g`.
pub open spec fn count_tabs(g: Seq<char>) -> nat
    decreases g.len(),
{
    if g.len() == 0 {
        0
    } else {
        count_tabs(g.drop_last()) + if g.last() == '\t' {
            1nat
        } else {
            0nat
        }
    }
}

/// The text is a line break on its own: LF, CR LF or CR.
pub open spec fn is_line_break_text(g: Seq<char>) -> bool {
    g == seq!['\n'] || g == seq!['\r', '\n'] || g == seq!['\r']
}

/// Display width of a text: a lone tab is `tab_width` wide, a lone line break
/// has no width, and otherwise every tab counts `tab_width` columns on top of
/// the text's unicode width.
pub open spec fn text_width(tab_width: nat, g: Seq<char>) -> nat {
    if g == seq!['\t'] {
        tab_width
    } else if is_line_break_text(g) {
        0
    } else {
        (count_tabs(g) * tab_width + display_width(g)) as nat
    }
}

pub proof fn lemma_count_tabs_bound(g: Seq<char>)
    ensures
        count_tabs(g) <= g.len(),
    decreases g.len(),
{
    if g.len() > 0 {
        lemma_count_tabs_bound(g.drop_last());
    }
}

/// The most columns a text can take: `tab_width` for each tab and three for
/// every char; the widths computed over a text stay below it.
pub open spec fn column_bound(tab_width: nat, t: Seq<char>) -> nat {
    count_tabs(t) * tab_width + 3 * t.len()
}

pub proof fn lemma_count_tabs_append(a: Seq<char>, b: Seq<char>)
    ensures
        count_tabs(a + b) == count_tabs(a) + count_tabs(b),
    decreases b.len(),
{
    if b.len() == 0 {
        assert(a + b =~= a);
    } else {
        lemma_count_tabs_append(a, b.drop_last());
        assert((a + b).drop_last() =~= a + b.drop_last());
        assert((a + b).last() == b.last());
    }
}

/// The bound of two texts one after the other is the sum of their bounds.
pub proof fn lemma_column_bound_append(tab_width: nat, a: Seq<char>, b: Seq<char>)
    ensures
        column_bound(tab_width, a + b) == column_bound(tab_width, a) + column_bound(tab_width, b),
{
    lemma_count_tabs_append(a, b);
    let ca = count_tabs(a);
    let cb = count_tabs(b);
    assert((ca + cb) * tab_width == ca * tab_width + cb * tab_width) by (nonlinear_arith);
}

/// A part of a text has a bound no larger than the text's, and the bound of
/// a prefix grows by the bound of what follows it.
pub proof fn lemma_column_bound_subrange(tab_width: nat, t: Seq<char>, i: int, j: int)
    requires
        0 <= i <= j <= t.len(),
    ensures
        column_bound(tab_width, t.subrange(i, j)) <= column_bound(tab_width, t),
        column_bound(tab_width, t.take(i)) + column_bound(tab_width, t.subrange(i, j))
            == column_bound(tab_width, t.take(j)),
        column_bound(tab_width, t.take(j)) <= column_bound(tab_width, t),
{
    lemma_column_bound_append(tab_width, t.take(i), t.subrange(i, j));
    assert(t.take(i) + t.subrange(i, j) =~= t.take(j));
    lemma_column_bound_append(tab_width, t.take(j), t.skip(j));
    assert(t.take(j) + t.skip(j) =~= t);
}

/// Width of a string (see `text_width`).
pub(crate) fn width_of_str(tab_width: usize, text: &str) -> (w: usize)
    requires
        column_bound(tab_width as nat, text@) <= usize::MAX,
    ensures
        w == text_width(tab_width as nat, text@),
        w <= column_bound(tab_width as nat, text@),
{
    let n = text.unicode_len();
    if n == 1 && text.get_char(0) == '\t' {
        assert(text@ =~= seq!['\t']);
        assert(count_tabs(seq!['\t']) == 1) by {
            assert(seq!['\t'].drop_last() =~= Seq::<char>::empty());
            assert(count_tabs(Seq::<char>::empty()) == 0);
            assert(seq!['\t'].last() == '\t');
        }
        assert(count_tabs(text@) * (tab_width as nat) == tab_width);
        assert(column_bound(tab_width as nat, text@) == tab_width + 3);
        return tab_width;
    }
    if (n == 1 && (text.get_char(0) == '\n' || text.get_char(0) == '\r')) || (n == 2
        && text.get_char(0) == '\r' && text.get_char(1) == '\n') {
        proof {
            if n == 1 && text@[0] == '\n' {
                assert(text@ =~= seq!['\n']);
            } else if n == 1 {
                assert(text@ =~= seq!['\r']);
            } else {
                assert(text@ =~= seq!['\r', '\n']);
            }
        }
        return 0;
    }
    proof {
        if text@ == seq!['\t'] {
            assert(text@[0] == '\t');
        }
        if is_line_break_text(text@) {
            assert(text@.len() == 1 || text@.len() == 2);
        }
    }
    let mut tabs: usize = 0;
    let mut i: usize = 0;
    let chars: Vec<char> = chars_of_str(text);
    while i < n
        invariant
            n == text@.len(),
            chars@ == text@,
            0 <= i <= n,
            tabs == count_tabs(text@.take(i as int)),
            tabs <= i,
        decreases n - i,
    {
        assert(text@.take(i + 1).drop_last() =~= text@.take(i as int));
        if chars[i] == '\t' {
            tabs = tabs + 1;
        }
        i = i + 1;
    }
    assert(text@.take(n as int) =~= text@);
    let unicode = str_display_width(text);
    tabs * tab_width + unicode
}

/// The chars of a string, in order.
pub(crate) fn chars_of_str(text: &str) -> (chars: Vec<char>)
    ensures
        chars@ == text@,
{
    let mut chars: Vec<char> = Vec::new();
    for c in it: text.chars()
        invariant
            it.seq() == text@,
            chars@ == it.seq().take(it.index()),
    {
        assert(it.seq().take(it.index() + 1) =~= it.seq().take(it.index()).push(c));
        chars.push(c);
    }
    assert(chars@ =~= text@);
    chars
}

/// Runs `closure` on the chars of `slice` as a string slice.
pub fn rope_slice_as_str<T, F: FnOnce(&str) -> T>(slice: &RopeSlice, closure: F) -> (r: T)
    requires
        forall|text: &str| text@ == slice_text(*slice) ==> call_requires(closure, (text,)),
    ensures
        exists|text: &str| text@ == slice_text(*slice) && call_ensures(closure, (text,), r),
{
    let text = slice_to_string(slice);
    closure(text.as_str())
}

/// Display width of a slice of text (see `text_width`).
pub fn width(tab_width: usize, slice: &RopeSlice) -> (w: usize)
    requires
        column_bound(tab_width as nat, slice_text(*slice)) <= usize::MAX,
    ensures
        w == text_width(tab_width as nat, slice_text(*slice)),
        w <= column_bound(tab_width as nat, slice_text(*slice)),
{
    let text = slice_to_string(slice);
    width_of_str(tab_width, text.as_str())
}

// ---------------------------------------------------------------------------
// iterating over graphemes

/// A grapheme of a slice, with its byte range in the slice.
pub struct RopeGrapheme<'a> {
    pub slice: RopeSlice<'a>,
    pub byte_start: usize,
    pub byte_end: usize,
}

impl<'a> std::ops::Deref for RopeGrapheme<'a> {
    type Target = RopeSlice<'a>;

    fn deref(&self) -> (slice: &RopeSlice<'a>)
        ensures
            *slice == self.slice,
    {
        &self.slice
    }
}

/// Walks over the graphemes of a RopeSlice, from its start.
pub struct RopeGraphemes<'a> {
    text: RopeSlice<'a>,
    chars: String,
    position: usize,
}

impl<'a> RopeGraphemes<'a> {
    #[verifier::type_invariant]
    spec fn well_formed(&self) -> bool {
        &&& self.chars@ == slice_text(self.text)
        &&& self.position <= self.chars@.len()
    }

    /// The chars being walked over.
    pub closed spec fn text_chars(&self) -> Seq<char> {
        slice_text(self.text)
    }

    /// Char index where the next grapheme starts.
    pub closed spec fn position(&self) -> nat {
        self.position as nat
    }

    pub fn new(slice: &RopeSlice<'a>) -> (graphemes: RopeGraphemes<'a>)
        ensures
            graphemes.text_chars() == slice_text(*slice),
            graphemes.position() == 0,
    {
        RopeGraphemes { text: *slice, chars: slice_to_string(slice), position: 0 }
    }

    /// What one call of `next` does: at the end of the text it gives
    /// nothing and stays; before it, it gives the chars from the position to
    /// the next grapheme boundary, with their byte range, and moves to that
    /// boundary.
    pub open spec fn stepped(before: Self, after: Self, grapheme: Option<RopeGrapheme<'a>>) -> bool {
        &&& after.text_chars() == before.text_chars()
        &&& before.position() <= before.text_chars().len()
        &&& before.position() == before.text_chars().len() ==> grapheme is None
            && after.position() == before.position()
        &&& before.position() < before.text_chars().len() ==> ({
            let text = before.text_chars();
            let start = before.position() as int;
            let end = next_boundary(text, start);
            &&& grapheme matches Some(g) && {
                &&& slice_text(g.slice) == text.subrange(start, end as int)
                &&& g.byte_start == byte_offset(text, start)
                &&& g.byte_end == byte_offset(text, end as int)
            }
            &&& after.position() == end
            &&& start < end <= text.len()
        })
    }

    /// The next grapheme, or `None` at the end of the slice.
    pub fn next(&mut self) -> (grapheme: Option<RopeGrapheme<'a>>)
        ensures
            Self::stepped(*old(self), *final(self), grapheme),
    {
        proof {
            use_type_invariant(&*self);
        }
        let start = self.position;
        if start == self.chars.unicode_len() {
            return None;
        }
        let end = next_boundary_in(self.chars.as_str(), start);
        let byte_start = str_char_to_byte(self.chars.as_str(), start);
        let byte_end = str_char_to_byte(self.chars.as_str(), end);
        let slice = slice_slice(&self.text, start, end);
        self.position = end;
        Some(RopeGrapheme { slice, byte_start, byte_end })
    }
}

/// The chars of the graphemes given, in order, skipping the `None`s.
pub open spec fn covered_text<'a>(graphemes: Seq<Option<RopeGrapheme<'a>>>) -> Seq<char>
    decreases graphemes.len(),
{
    if graphemes.len() == 0 {
        Seq::empty()
    } else {
        covered_text(graphemes.drop_last()) + match graphemes.last() {
            Some(g) => slice_text(g.slice),
            None => Seq::empty(),
        }
    }
}

/// After `n` steps of a walk from the start, the graphemes given cover the
/// text up to the position reached, and the position is at least `n` or the
/// end of the text.
proof fn lemma_walk<'a>(
    states: Seq<RopeGraphemes<'a>>,
    graphemes: Seq<Option<RopeGrapheme<'a>>>,
    n: int,
)
    requires
        states.len() == graphemes.len() + 1,
        states[0].position() == 0,
        forall|i: int|
            0 <= i < graphemes.len() ==> RopeGraphemes::stepped(
                states[i],
                states[i + 1],
                #[trigger] graphemes[i],
            ),
        0 <= n <= graphemes.len(),
    ensures
        states[n].text_chars() == states[0].text_chars(),
        states[n].position() <= states[0].text_chars().len() || n == 0,
        covered_text(graphemes.take(n)) == states[0].text_chars().subrange(
            0,
            states[n].position() as int,
        ),
        states[n].position() >= n || states[n].position() == states[0].text_chars().len(),
    decreases n,
{
    let text = states[0].text_chars();
    if n == 0 {
        assert(graphemes.take(0) =~= Seq::<Option<RopeGrapheme<'a>>>::empty());
        assert(text.subrange(0, 0) =~= Seq::<char>::empty());
    } else {
        lemma_walk(states, graphemes, n - 1);
        assert(RopeGraphemes::stepped(states[n - 1], states[n], graphemes[n - 1]));
        assert(graphemes.take(n).drop_last() =~= graphemes.take(n - 1));
        assert(graphemes.take(n).last() == graphemes[n - 1]);
        let p = states[n - 1].position() as int;
        let q = states[n].position() as int;
        if p < text.len() {
            assert(text.subrange(0, p) + text.subrange(p, q) =~= text.subrange(0, q));
        } else {
            assert(text.subrange(0, p) + Seq::<char>::empty() =~= text.subrange(0, q));
        }
    }
}

/// Walking a slice with `next` from its start covers it, one grapheme
/// cluster at a time: `states` are the walker before each call and after the
/// last, and `graphemes` what the calls gave. The graphemes given so far
/// always spell the text up to where the walker is; a call gives nothing
/// exactly at the end, which a walk reaches within one call per char; each
/// grapheme's bytes are a non-empty range that starts at 0 for the first and
/// where the one before ends for the others, and the last ends at the length
/// of the text in bytes.
pub proof fn lemma_graphemes_cover<'a>(
    states: Seq<RopeGraphemes<'a>>,
    graphemes: Seq<Option<RopeGrapheme<'a>>>,
)
    requires
        states.len() == graphemes.len() + 1,
        states[0].position() == 0,
        forall|i: int|
            0 <= i < graphemes.len() ==> RopeGraphemes::stepped(
                states[i],
                states[i + 1],
                #[trigger] graphemes[i],
            ),
    ensures
        forall|i: int|
            0 <= i < states.len() ==> covered_text(#[trigger] graphemes.take(i))
                == states[0].text_chars().subrange(0, states[i].position() as int),
        forall|i: int|
            0 <= i < graphemes.len() ==> ((#[trigger] graphemes[i]) is None <==> states[i].position()
                == states[0].text_chars().len()),
        graphemes.len() > states[0].text_chars().len() ==> graphemes[states[0].text_chars().len() as int] is None,
        graphemes.len() > 0 && graphemes[0] is Some ==> graphemes[0]->0.byte_start == 0,
        forall|i: int|
            0 <= i < graphemes.len() && (#[trigger] graphemes[i]) is Some
                ==> graphemes[i]->0.byte_start < graphemes[i]->0.byte_end,
        forall|i: int|
            0 < i < graphemes.len() && (#[trigger] graphemes[i - 1]) is Some ==> match graphemes[i] {
                Some(g) => g.byte_start == graphemes[i - 1]->0.byte_end,
                None => graphemes[i - 1]->0.byte_end == utf8_len(states[0].text_chars()),
            },
{
    let text = states[0].text_chars();
    assert forall|i: int| 0 <= i < states.len() implies covered_text(#[trigger] graphemes.take(i))
        == text.subrange(0, states[i].position() as int) by {
        lemma_walk(states, graphemes, i);
    }
    assert forall|i: int| 0 <= i < graphemes.len() implies ((#[trigger] graphemes[i]) is None
        <==> states[i].position() == text.len()) by {
        lemma_walk(states, graphemes, i);
        assert(RopeGraphemes::stepped(states[i], states[i + 1], graphemes[i]));
    }
    if graphemes.len() > text.len() {
        let l = text.len() as int;
        lemma_walk(states, graphemes, l);
        assert(RopeGraphemes::stepped(states[l], states[l + 1], graphemes[l]));
    }
    if graphemes.len() > 0 {
        assert(RopeGraphemes::stepped(states[0], states[1], graphemes[0]));
    }
    assert forall|i: int| 0 <= i < graphemes.len() && (#[trigger] graphemes[i]) is Some
        implies graphemes[i]->0.byte_start < graphemes[i]->0.byte_end by {
        lemma_walk(states, graphemes, i);
        assert(RopeGraphemes::stepped(states[i], states[i + 1], graphemes[i]));
        let p = states[i].position() as int;
        lemma_byte_offset_strictly_increasing(text, p, next_boundary(text, p) as int);
    }
    assert forall|i: int| 0 < i < graphemes.len() && (#[trigger] graphemes[i - 1]) is Some
        implies match graphemes[i] {
        Some(g) => g.byte_start == graphemes[i - 1]->0.byte_end,
        None => graphemes[i - 1]->0.byte_end == utf8_len(text),
    } by {
        lemma_walk(states, graphemes, i - 1);
        lemma_walk(states, graphemes, i);
        assert(RopeGraphemes::stepped(states[i - 1], states[i], graphemes[i - 1]));
        assert(RopeGraphemes::stepped(states[i], states[i + 1], graphemes[i]));
    }
}

// ---------------------------------------------------------------------------
// mapping visual columns to chars

/// Ragged line policy: what to do when a line is shorter than the rectangle's
/// left column. It is decided here and in the one match arm of
/// `visual_column_range_to_char_range`, nowhere else. Currently "empty"
/// (Emacs-style: no padding). To switch to whitespace padding, change this
/// enum variant and that match arm.
#[derive(Clone, Copy, Debug, PartialEq, Eq)]
pub enum RaggedLinePolicy {
    /// Lines shorter than `left` yield an empty char range (no padding).
    Empty,
    // Future: Padding variant can be added here without touching callers.
}

/// Result of mapping a visual column range to a char range on a single line.
#[derive(Clone, Debug, PartialEq, Eq, Structural)]
pub struct ColumnMapping {
    /// Char range in the line (relative to line start char index).
    pub char_start: CharIndex,
    /// Char end (exclusive). May equal char_start for empty/short lines.
    pub char_end: CharIndex,
    /// Whether the line was shorter than the requested left column.
    pub line_shorter_than_left: bool,
}

impl ColumnMapping {
    pub fn char_range(&self) -> (range: std::ops::Range<CharIndex>)
        ensures
            range.start == self.char_start,
            range.end == self.char_end,
    {
        self.char_start..self.char_end
    }

    pub fn is_empty(&self) -> (b: bool)
        ensures
            b == (self.char_start == self.char_end),
    {
        self.char_start == self.char_end
    }
}

/// Walking the graphemes of `text` from char `i` at visual column `x`: the
/// char index and visual column of the start of the grapheme that spans
/// column `target` (or of the end of the text).
pub open spec fn column_index_from(tab: nat, text: Seq<char>, target: nat, i: nat, x: nat) -> (
    nat,
    nat,
)
    decreases text.len() - i,
{
    if i >= text.len() {
        (i, x)
    } else {
        let j = next_boundary(text, i as int);
        if j <= i || j > text.len() {
            (i, x)
        } else {
            let w = text_width(tab, text.subrange(i as int, j as int));
            if x >= target || x + w > target {
                (i, x)
            } else {
                column_index_from(tab, text, target, j, x + w)
            }
        }
    }
}

/// Walking the graphemes of `text` from char `i` at visual column `x`: the
/// char index after the first grapheme that reaches column `target` (or the
/// end of the text).
pub open spec fn column_end_from(tab: nat, text: Seq<char>, target: nat, i: nat, x: nat) -> nat
    decreases text.len() - i,
{
    if i >= text.len() {
        i
    } else {
        let j = next_boundary(text, i as int);
        if j <= i || j > text.len() {
            i
        } else {
            let w = text_width(tab, text.subrange(i as int, j as int));
            if x + w >= target {
                j
            } else {
                column_end_from(tab, text, target, j, x + w)
            }
        }
    }
}

/// The char index (relative to the line) and visual column of the start of
/// the grapheme that spans visual column `target` of a line.
pub open spec fn column_index(tab: nat, text: Seq<char>, target: nat) -> (nat, nat) {
    column_index_from(tab, text, target, 0, 0)
}

/// The char index (relative to the line) after the first grapheme that
/// reaches visual column `target` of a line.
pub open spec fn column_end(tab: nat, text: Seq<char>, target: nat) -> nat {
    column_end_from(tab, text, target, 0, 0)
}

/// The char range that the visual columns `[left, right)` of a line (without
/// its line break) cover, as absolute char indices from `line_char_start`.
pub open spec fn column_mapping(
    tab: nat,
    text: Seq<char>,
    line_char_start: nat,
    left: nat,
    right: nat,
) -> ColumnMapping {
    let start = column_index(tab, text, left).0;
    if left >= right {
        ColumnMapping {
            char_start: (line_char_start + start) as usize,
            char_end: (line_char_start + start) as usize,
            line_shorter_than_left: false,
        }
    } else if text_width(tab, text) <= left {
        ColumnMapping {
            char_start: (line_char_start + start) as usize,
            char_end: (line_char_start + start) as usize,
            line_shorter_than_left: true,
        }
    } else {
        ColumnMapping {
            char_start: (line_char_start + start) as usize,
            char_end: (line_char_start + column_end(tab, text, right)) as usize,
            line_shorter_than_left: false,
        }
    }
}

pub proof fn lemma_column_index_bounds(tab: nat, text: Seq<char>, target: nat, i: nat, x: nat)
    requires
        i <= text.len(),
    ensures
        i <= column_index_from(tab, text, target, i, x).0 <= text.len(),
    decreases text.len() - i,
{
    if i < text.len() {
        let j = next_boundary(text, i as int);
        if !(j <= i || j > text.len()) {
            lemma_column_index_bounds(tab, text, target, j, x + text_width(tab, text.subrange(i as int, j as int)));
        }
    }
}

pub proof fn lemma_column_end_bounds(tab: nat, text: Seq<char>, target: nat, i: nat, x: nat)
    requires
        i <= text.len(),
    ensures
        i <= column_end_from(tab, text, target, i, x) <= text.len(),
    decreases text.len() - i,
{
    if i < text.len() {
        let j = next_boundary(text, i as int);
        if !(j <= i || j > text.len()) {
            lemma_column_end_bounds(tab, text, target, j, x + text_width(tab, text.subrange(i as int, j as int)));
        }
    }
}

/// The start found for a column is before the end found for a later column.
pub proof fn lemma_column_index_le_end(
    tab: nat,
    text: Seq<char>,
    left: nat,
    right: nat,
    i: nat,
    x: nat,
)
    requires
        i <= text.len(),
        left < right,
    ensures
        column_index_from(tab, text, left, i, x).0 <= column_end_from(tab, text, right, i, x),
        i <= column_end_from(tab, text, right, i, x) <= text.len(),
    decreases text.len() - i,
{
    if i < text.len() {
        let j = next_boundary(text, i as int);
        if !(j <= i || j > text.len()) {
            let w = text_width(tab, text.subrange(i as int, j as int));
            lemma_column_index_le_end(tab, text, left, right, j, x + w);
            if !(x + w >= right) {
                lemma_column_index_bounds(tab, text, left, j, x + w);
            }
        }
    }
}

/// A column mapping is a char range inside the line.
pub proof fn lemma_column_mapping_in_line(
    tab: nat,
    text: Seq<char>,
    line_char_start: nat,
    left: nat,
    right: nat,
)
    requires
        line_char_start + text.len() <= usize::MAX,
    ensures
        line_char_start <= column_mapping(tab, text, line_char_start, left, right).char_start
            <= column_mapping(tab, text, line_char_start, left, right).char_end <= line_char_start
            + text.len(),
{
    lemma_column_index_bounds(tab, text, left, 0, 0);
    if left < right {
        lemma_column_index_le_end(tab, text, left, right, 0, 0);
    }
}

/// Find the char index (relative to line start) and the actual visual column
/// at the start of the grapheme that spans the given visual column.
///
/// Returns (char_offset_in_line, actual_visual_column_of_grapheme_start).
pub fn visual_column_to_char_index_pub(
    tab_width: usize,
    line_slice: &RopeSlice,
    target_visual_col: usize,
) -> (r: (CharIndex, usize))
    requires
        column_bound(tab_width as nat, slice_text(*line_slice)) <= usize::MAX,
    ensures
        r.0 == column_index(tab_width as nat, slice_text(*line_slice), target_visual_col as nat).0,
        r.1 == column_index(tab_width as nat, slice_text(*line_slice), target_visual_col as nat).1,
        r.0 <= slice_text(*line_slice).len(),
{
    visual_column_to_char_index(tab_width, line_slice, target_visual_col)
}

/// Find the char index (relative to line start) and the actual visual column
/// at the start of the grapheme that spans the given visual column.
///
/// Returns (char_offset_in_line, actual_visual_column_of_grapheme_start).
fn visual_column_to_char_index(
    tab_width: usize,
    line_slice: &RopeSlice,
    target_visual_col: usize,
) -> (r: (CharIndex, usize))
    requires
        column_bound(tab_width as nat, slice_text(*line_slice)) <= usize::MAX,
    ensures
        r.0 == column_index(tab_width as nat, slice_text(*line_slice), target_visual_col as nat).0,
        r.1 == column_index(tab_width as nat, slice_text(*line_slice), target_visual_col as nat).1,
        r.0 <= slice_text(*line_slice).len(),
{
    let ghost text = slice_text(*line_slice);
    let ghost tab = tab_width as nat;
    let ghost target = target_visual_col as nat;
    let n = slice_len_chars(line_slice);
    let mut visual_x: usize = 0;
    let mut char_offset: usize = 0;
    let mut graphemes = RopeGraphemes::new(line_slice);
    proof {
        lemma_column_index_bounds(tab, text, target, 0, 0);
    }
    while char_offset < n
        invariant
            n == text.len(),
            text == slice_text(*line_slice),
            tab == tab_width as nat,
            target == target_visual_col as nat,
            column_bound(tab, text) <= usize::MAX,
            graphemes.text_chars() == text,
            graphemes.position() == char_offset,
            char_offset <= n,
            visual_x <= column_bound(tab, text.take(char_offset as int)),
            column_index_from(tab, text, target, char_offset as nat, visual_x as nat)
                == column_index(tab, text, target),
        decreases n - char_offset,
    {
        let next = graphemes.next();
        let ghost end = next_boundary(text, char_offset as int);
        let grapheme = next.unwrap();
        assert(slice_text(grapheme.slice) == text.subrange(char_offset as int, end as int));
        let glen = slice_len_chars(&grapheme.slice);
        assert(glen == end - char_offset);
        proof {
            lemma_column_bound_subrange(tab, text, char_offset as int, char_offset + glen);
        }
        let grapheme_width = width(tab_width, &grapheme.slice);
        assert(grapheme_width == text_width(tab, text.subrange(char_offset as int, end as int)));
        if visual_x >= target_visual_col {
            assert(column_index_from(tab, text, target, char_offset as nat, visual_x as nat) == (
            char_offset as nat, visual_x as nat));
            return (char_offset, visual_x);
        }
        // If this grapheme spans the target column (starts before, ends at or after)
        if visual_x + grapheme_width > target_visual_col {
            assert(column_index_from(tab, text, target, char_offset as nat, visual_x as nat) == (
            char_offset as nat, visual_x as nat));
            return (char_offset, visual_x);
        }
        char_offset = char_offset + glen;
        visual_x = visual_x + grapheme_width;
    }
    // Target column is at or beyond EOL
    (char_offset, visual_x)
}

/// Find the char index (relative to line start) of the first char that starts
/// at or after the given visual column. This is used for the "right" (end)
/// boundary of the column range.
fn visual_column_to_char_end(
    tab_width: usize,
    line_slice: &RopeSlice,
    target_visual_col: usize,
) -> (r: CharIndex)
    requires
        column_bound(tab_width as nat, slice_text(*line_slice)) <= usize::MAX,
    ensures
        r == column_end(tab_width as nat, slice_text(*line_slice), target_visual_col as nat),
        r <= slice_text(*line_slice).len(),
{
    proof {
        lemma_column_end_bounds(tab_width as nat, slice_text(*line_slice), target_visual_col as nat, 0, 0);
    }
    let ghost text = slice_text(*line_slice);
    let ghost tab = tab_width as nat;
    let ghost target = target_visual_col as nat;
    let n = slice_len_chars(line_slice);
    let mut visual_x: usize = 0;
    let mut char_offset: usize = 0;
    let mut graphemes = RopeGraphemes::new(line_slice);
    while char_offset < n
        invariant
            n == text.len(),
            text == slice_text(*line_slice),
            tab == tab_width as nat,
            target == target_visual_col as nat,
            column_bound(tab, text) <= usize::MAX,
            graphemes.text_chars() == text,
            graphemes.position() == char_offset,
            char_offset <= n,
            visual_x <= column_bound(tab, text.take(char_offset as int)),
            column_end_from(tab, text, target, char_offset as nat, visual_x as nat) == column_end(
                tab,
                text,
                target,
            ),
        decreases n - char_offset,
    {
        let next = graphemes.next();
        let ghost end = next_boundary(text, char_offset as int);
        let grapheme = next.unwrap();
        assert(slice_text(grapheme.slice) == text.subrange(char_offset as int, end as int));
        let glen = slice_len_chars(&grapheme.slice);
        proof {
            lemma_column_bound_subrange(tab, text, char_offset as int, char_offset + glen);
        }
        let grapheme_width = width(tab_width, &grapheme.slice);
        // If this grapheme ends at or after the target column,
        // the char after this grapheme is the end boundary
        assert(grapheme_width == text_width(tab, text.subrange(char_offset as int, end as int)));
        if visual_x + grapheme_width >= target_visual_col {
            assert(column_end_from(tab, text, target, char_offset as nat, visual_x as nat) == end);
            return char_offset + glen;
        }
        assert(column_end_from(tab, text, target, char_offset as nat, visual_x as nat)
            == column_end_from(tab, text, target, end, (visual_x + grapheme_width) as nat));
        char_offset = char_offset + glen;
        visual_x = visual_x + grapheme_width;
    }
    char_offset
}

/// Map a visual column range `[left, right)` on a given line to a char range.
///
/// Highlighting, copying and cutting a rectangle all take their char ranges
/// from this one rule, so what is seen is what is copied and cut. A line
/// shorter than `left` is handled by `RaggedLinePolicy`: it gives an empty
/// range, never padding.
///
/// `line_char_start` is the char index of the start of the line in the Rope.
/// `line_slice` is the line content (without trailing newline).
/// Returns a `ColumnMapping` with the char range relative to the line.
pub fn visual_column_range_to_char_range(
    tab_width: usize,
    line_slice: &RopeSlice,
    line_char_start: CharIndex,
    left: usize,
    right: usize,
    policy: RaggedLinePolicy,
) -> (mapping: ColumnMapping)
    requires
        column_bound(tab_width as nat, slice_text(*line_slice)) <= usize::MAX,
        line_char_start + slice_text(*line_slice).len() <= usize::MAX,
    ensures
        mapping == column_mapping(
            tab_width as nat,
            slice_text(*line_slice),
            line_char_start as nat,
            left as nat,
            right as nat,
        ),
        line_char_start <= mapping.char_start <= mapping.char_end <= line_char_start
            + slice_text(*line_slice).len(),
{
    proof {
        lemma_column_mapping_in_line(
            tab_width as nat,
            slice_text(*line_slice),
            line_char_start as nat,
            left as nat,
            right as nat,
        );
    }
    if left >= right {
        // Zero-width rectangle: empty range at `left`
        // Find the char index corresponding to visual column `left`
        let (char_at_left, _) = visual_column_to_char_index(tab_width, line_slice, left);
        return ColumnMapping {
            char_start: line_char_start + char_at_left,
            char_end: line_char_start + char_at_left,
            line_shorter_than_left: false,
        };
    }
    let (char_at_left, visual_at_left) = visual_column_to_char_index(tab_width, line_slice, left);
    let char_at_right = visual_column_to_char_end(tab_width, line_slice, right);

    // Check if line is shorter than left
    let line_visual_end = width(tab_width, line_slice);
    if line_visual_end <= left {
        return match policy {
            RaggedLinePolicy::Empty => ColumnMapping {
                char_start: line_char_start + char_at_left,
                char_end: line_char_start + char_at_left,
                line_shorter_than_left: true,
            },
        };
    }
    // If the left visual column falls in the middle of a wide grapheme,
    // include that grapheme (it overlaps the range).
    let actual_char_start = if visual_at_left < left {
        // The grapheme at char_at_left started before `left` visual column
        // but overlaps it - include it
        char_at_left
    } else {
        char_at_left
    };
    ColumnMapping {
        char_start: line_char_start + actual_char_start,
        char_end: line_char_start + char_at_right,
        line_shorter_than_left: false,
    }
}


// ---------------------------------------------------------------------------
// trailing whitespace

/// Whether `c` has the Unicode White_Space property, as `char::is_whitespace`
/// documents it: tab, line feed, vertical tab, form feed, carriage return,
/// space, U+0085, U+00A0, U+1680, U+2000 to U+200A, U+2028, U+2029, U+202F,
/// U+205F and U+3000.
pub open spec fn is_white_space(c: char) -> bool {
    let u = c as u32;
    ||| 0x9 <= u <= 0xd
    ||| u == 0x20
    ||| u == 0x85
    ||| u == 0xa0
    ||| u == 0x1680
    ||| 0x2000 <= u <= 0x200a
    ||| u == 0x2028
    ||| u == 0x2029
    ||| u == 0x202f
    ||| u == 0x205f
    ||| u == 0x3000
}

/// Whether the char has the Unicode White_Space property.
fn char_is_whitespace(c: char) -> (b: bool)
    ensures
        b == is_white_space(c),
{
    let u = c as u32;
    (0x9 <= u && u <= 0xd) || u == 0x20 || u == 0x85 || u == 0xa0 || u == 0x1680 || (0x2000 <= u
        && u <= 0x200a) || u == 0x2028 || u == 0x2029 || u == 0x202f || u == 0x205f || u == 0x3000
}

/// The number of chars before `e` (down to `start`) that `ws` holds of, in a
/// row.
pub open spec fn white_run(s: Seq<char>, ws: spec_fn(char) -> bool, start: int, e: int) -> nat
    decreases e - start,
{
    if e <= start || e > s.len() {
        0
    } else if ws(s[e - 1]) {
        1 + white_run(s, ws, start, e - 1)
    } else {
        0
    }
}

/// Where line `l` of `s` ends: the start of the next line, or the end of the
/// text.
pub open spec fn line_end_of(s: Seq<char>, l: nat) -> nat {
    if l + 1 < line_count(s) {
        line_start(s, l + 1)
    } else {
        s.len()
    }
}

/// Line `l` of `s` stripped: the whitespace run before its last char goes;
/// while `trailing` holds (every line below was blank), a line that held
/// nothing but whitespace before its last char goes with all that follows.
/// Gives the text and whether the lines so far were all blank.
pub open spec fn strip_line(s: Seq<char>, ws: spec_fn(char) -> bool, l: nat, trailing: bool) -> (Seq<char>, bool) {
    let start = line_start(s, l) as int;
    let end = line_end_of(s, l) as int;
    if start >= end {
        (s, trailing)
    } else {
        let body_end = end - 1 - white_run(s, ws, start, end - 1);
        let stripped = s.subrange(0, body_end) + s.subrange(end - 1, s.len() as int);
        if trailing && body_end == start {
            (stripped.subrange(0, start), true)
        } else {
            (stripped, false)
        }
    }
}

/// `s` with its lines `l`, `l - 1`, ..., `0` stripped in that order, each
/// line taken from the text as the lines below it left it.
pub open spec fn strip_lines(s: Seq<char>, ws: spec_fn(char) -> bool, l: int, trailing: bool) -> Seq<char>
    decreases l + 1,
{
    if l < 0 {
        s
    } else {
        let (next, still) = strip_line(s, ws, l as nat, trailing);
        strip_lines(next, ws, l - 1, still)
    }
}

/// `s` with trailing whitespace stripped from every line and blank lines
/// at its end removed; a text of more than one char then ends with `\n`.
pub open spec fn stripped_text(s: Seq<char>, ws: spec_fn(char) -> bool) -> Seq<char> {
    let r = strip_lines(s, ws, line_count(s) - 1, true);
    if r.len() > 1 && r[r.len() - 1] != '\n' {
        r.push('\n')
    } else {
        r
    }
}

// ---------------------------------------------------------------------------
// stripping a text of lines each ended by `\n`

/// The char breaks a line: LF, VT, FF, CR, NEL, LS or PS.
pub open spec fn is_break_char(c: char) -> bool {
    c == '\n' || c == '\u{0B}' || c == '\u{0C}' || c == '\r' || c == '\u{85}' || c == '\u{2028}'
        || c == '\u{2029}'
}

/// A line with no line break in it.
pub open spec fn unbroken(line: Seq<char>) -> bool {
    forall|j: int| 0 <= j < line.len() ==> !is_break_char(#[trigger] line[j])
}

/// A line with no line break in it but, maybe, a CR as its last char (which
/// the `\n` that follows it joins into one CR LF break).
pub open spec fn no_early_break(line: Seq<char>) -> bool {
    forall|j: int|
        0 <= j < line.len() ==> !is_break_char(#[trigger] line[j]) || (j == line.len() - 1
            && line[j] == '\r')
}

/// The text of `lines`, each ended by `\n`.
pub open spec fn lf_text(lines: Seq<Seq<char>>) -> Seq<char>
    decreases lines.len(),
{
    if lines.len() == 0 {
        Seq::empty()
    } else {
        lf_text(lines.drop_last()) + lines.last().push('\n')
    }
}

/// A text that does not end in CR counts the same line breaks before any of
/// its own positions whatever follows it, and those of what follows after.
proof fn lemma_line_of_char_concat(a: Seq<char>, b: Seq<char>, d: int)
    requires
        0 <= d <= b.len(),
        a.len() == 0 || a.last() != '\r',
    ensures
        line_of_char(a + b, a.len() + d) == line_of_char(a, a.len() as int) + line_of_char(b, d),
    decreases d,
{
    if d == 0 {
        lemma_line_of_char_prefix(a, b, a.len() as int);
    } else {
        lemma_line_of_char_concat(a, b, d - 1);
        assert((a + b)[a.len() + d - 1] == b[d - 1]);
        if d < b.len() {
            assert((a + b)[a.len() + d] == b[d]);
        }
    }
}

proof fn lemma_line_of_char_prefix(a: Seq<char>, b: Seq<char>, i: int)
    requires
        0 <= i <= a.len(),
        a.len() == 0 || a.last() != '\r',
    ensures
        line_of_char(a + b, i) == line_of_char(a, i),
    decreases i,
{
    if i > 0 {
        lemma_line_of_char_prefix(a, b, i - 1);
        assert((a + b)[i - 1] == a[i - 1]);
        if i < a.len() {
            assert((a + b)[i] == a[i]);
        }
    }
}

/// No line break ends before `d` in a text whose first `d` chars are no
/// breaks, but for a CR right before an LF.
proof fn lemma_line_of_char_unbroken(b: Seq<char>, d: int)
    requires
        0 <= d <= b.len(),
        forall|j: int|
            0 <= j < d ==> !is_break_char(#[trigger] b[j]) || (b[j] == '\r' && j + 1 < b.len()
                && b[j + 1] == '\n'),
    ensures
        line_of_char(b, d) == 0,
    decreases d,
{
    if d > 0 {
        lemma_line_of_char_unbroken(b, d - 1);
        assert(!is_break_char(b[d - 1]) || (b[d - 1] == '\r' && d < b.len() && b[d] == '\n'));
    }
}

/// In the text of `lines` (followed by anything), line `j` starts where the
/// first `j` lines end, and its chars up to its `\n` lie on it.
proof fn lemma_lf_line_of_char(lines: Seq<Seq<char>>, k: int, r: Seq<char>, j: int, d: int)
    requires
        forall|i: int| 0 <= i < lines.len() ==> no_early_break(#[trigger] lines[i]),
        0 <= j <= k <= lines.len(),
        0 <= d,
        j < k ==> d <= lines[j].len(),
        j == k ==> d == 0,
    ensures
        line_of_char(lf_text(lines.take(k)) + r, lf_text(lines.take(j)).len() + d) == j,
    decreases k - j,
{
    let a = lf_text(lines.take(j));
    let rest = if j < k {
        lines[j].push('\n') + lf_text_from(lines, j + 1, k) + r
    } else {
        r
    };
    lemma_lf_split(lines, j, k, r);
    lemma_lf_ends(lines.take(j));
    lemma_lf_count(lines, j);
    if j < k {
        assert(no_early_break(lines[j]));
        assert forall|i: int| 0 <= i < d implies !is_break_char(#[trigger] rest[i]) || (rest[i]
            == '\r' && i + 1 < rest.len() && rest[i + 1] == '\n') by {
            assert(rest[i] == lines[j][i]);
            if i + 1 == lines[j].len() {
                assert(rest[i + 1] == '\n');
            }
        }
        lemma_line_of_char_unbroken(rest, d);
        lemma_line_of_char_concat(a, rest, d);
    } else {
        lemma_line_of_char_concat(a, rest, 0);
        assert(line_of_char(rest, 0) == 0);
    }
}

/// The text of the lines `j..k`.
pub open spec fn lf_text_from(lines: Seq<Seq<char>>, j: int, k: int) -> Seq<char>
    decreases k - j,
{
    if k <= j {
        Seq::empty()
    } else {
        lf_text_from(lines, j, k - 1) + lines[k - 1].push('\n')
    }
}

proof fn lemma_lf_split(lines: Seq<Seq<char>>, j: int, k: int, r: Seq<char>)
    requires
        0 <= j <= k <= lines.len(),
    ensures
        lf_text(lines.take(k)) + r == lf_text(lines.take(j)) + (if j < k {
            lines[j].push('\n') + lf_text_from(lines, j + 1, k) + r
        } else {
            r
        }),
        lf_text(lines.take(k)) == lf_text(lines.take(j)) + lf_text_from(lines, j, k),
    decreases k - j,
{
    if j < k {
        lemma_lf_split(lines, j, k - 1, r);
        assert(lines.take(k).drop_last() =~= lines.take(k - 1));
        assert(lines.take(k).last() == lines[k - 1]);
        assert(lines.take(j + 1).drop_last() =~= lines.take(j));
        assert(lines.take(j + 1).last() == lines[j]);
        lemma_lf_from_first(lines, j, k);
        if j + 1 < k {
            lemma_lf_split(lines, j + 1, k, r);
        }
    } else {
        assert(lf_text(lines.take(j)) + r =~= lf_text(lines.take(j)) + r);
    }
    assert(lf_text(lines.take(k)) + r =~= lf_text(lines.take(j)) + (if j < k {
        lines[j].push('\n') + lf_text_from(lines, j + 1, k) + r
    } else {
        r
    }));
}

proof fn lemma_lf_from_first(lines: Seq<Seq<char>>, j: int, k: int)
    requires
        0 <= j < k <= lines.len(),
    ensures
        lf_text_from(lines, j, k) == lines[j].push('\n') + lf_text_from(lines, j + 1, k),
    decreases k - j,
{
    if j + 1 < k {
        lemma_lf_from_first(lines, j, k - 1);
        assert(lf_text_from(lines, j, k) =~= lines[j].push('\n') + lf_text_from(lines, j + 1, k));
    } else {
        assert(lf_text_from(lines, j, j) =~= Seq::<char>::empty());
        assert(lf_text_from(lines, j + 1, k) =~= Seq::<char>::empty());
        assert(lf_text_from(lines, j, k) =~= lines[j].push('\n') + lf_text_from(lines, j + 1, k));
    }
}

/// The text of some lines is empty or ends with `\n`.
proof fn lemma_lf_ends(lines: Seq<Seq<char>>)
    ensures
        lf_text(lines).len() == 0 || lf_text(lines).last() == '\n',
{
    if lines.len() > 0 {
        let t = lf_text(lines.drop_last()) + lines.last().push('\n');
        assert(t.last() == '\n');
    }
}

/// The first `j` lines hold `j` line breaks.
proof fn lemma_lf_count(lines: Seq<Seq<char>>, j: int)
    requires
        forall|i: int| 0 <= i < lines.len() ==> no_early_break(#[trigger] lines[i]),
        0 <= j <= lines.len(),
    ensures
        line_of_char(lf_text(lines.take(j)), lf_text(lines.take(j)).len() as int) == j,
    decreases j,
{
    if j > 0 {
        lemma_lf_count(lines, j - 1);
        assert(lines.take(j).drop_last() =~= lines.take(j - 1));
        assert(lines.take(j).last() == lines[j - 1]);
        let a = lf_text(lines.take(j - 1));
        let b = lines[j - 1].push('\n');
        lemma_lf_ends(lines.take(j - 1));
        assert(no_early_break(lines[j - 1]));
        assert forall|i: int| 0 <= i < lines[j - 1].len() implies !is_break_char(#[trigger] b[i]) || (
        b[i] == '\r' && i + 1 < b.len() && b[i + 1] == '\n') by {
            assert(b[i] == lines[j - 1][i]);
            if i + 1 == lines[j - 1].len() {
                assert(b[i + 1] == '\n');
            }
        }
        lemma_line_of_char_unbroken(b, lines[j - 1].len() as int);
        assert(b[lines[j - 1].len() as int] == '\n');
        lemma_line_of_char_concat(a, b, b.len() as int);
    }
}

/// The first position from `i` with `l` line breaks before it is `p`, where
/// every position before `p` has fewer and `p` (if in the text) has that
/// many.
proof fn lemma_first_index_is(s: Seq<char>, l: nat, i: int, p: int)
    requires
        0 <= i <= p <= s.len(),
        forall|x: int| i <= x < p ==> #[trigger] line_of_char(s, x) < l,
        p < s.len() ==> line_of_char(s, p) >= l,
    ensures
        crate::text::first_index_of_line_from(s, l, i) == p,
    decreases p - i,
{
    if i < p {
        lemma_first_index_is(s, l, i + 1, p);
    }
}

/// In the text of the first `k` lines followed by `r`, line `l` (for `l` up
/// to `k`) starts where the first `l` lines end, and there are more than `k`
/// lines.
proof fn lemma_lf_line_start(lines: Seq<Seq<char>>, k: int, r: Seq<char>, l: int)
    requires
        forall|i: int| 0 <= i < lines.len() ==> no_early_break(#[trigger] lines[i]),
        0 <= l <= k <= lines.len(),
    ensures
        line_start(lf_text(lines.take(k)) + r, l as nat) == lf_text(lines.take(l)).len(),
        line_count(lf_text(lines.take(k)) + r) > k,
{
    let s = lf_text(lines.take(k)) + r;
    let p = lf_text(lines.take(l)).len() as int;
    lemma_lf_split(lines, l, k, r);
    assert forall|x: int| 0 <= x < p implies #[trigger] line_of_char(s, x) < l by {
        lemma_lf_below(lines, k, r, l, x);
    }
    lemma_lf_line_of_char(lines, k, r, l, 0);
    lemma_first_index_is(s, l as nat, 0, p);
    lemma_lf_split(lines, k, k, r);
    lemma_lf_line_of_char(lines, k, r, k, 0);
    crate::text::lemma_line_of_char_monotonic(s, lf_text(lines.take(k)).len() as int, s.len() as int);
}

/// Every position before the end of the first `l` lines lies on one of them.
proof fn lemma_lf_below(lines: Seq<Seq<char>>, k: int, r: Seq<char>, l: int, x: int)
    requires
        forall|i: int| 0 <= i < lines.len() ==> no_early_break(#[trigger] lines[i]),
        0 <= l <= k <= lines.len(),
        0 <= x < lf_text(lines.take(l)).len(),
    ensures
        line_of_char(lf_text(lines.take(k)) + r, x) < l,
    decreases l,
{
    let before = lf_text(lines.take(l - 1)).len() as int;
    lemma_lf_split(lines, l - 1, l, Seq::empty());
    lemma_lf_from_first(lines, l - 1, l);
    assert(lf_text_from(lines, l, l) =~= Seq::<char>::empty());
    if x < before {
        lemma_lf_below(lines, k, r, l - 1, x);
    } else {
        lemma_lf_line_of_char(lines, k, r, l - 1, x - before);
    }
}

/// A run of `ws` chars counted in a text is the run counted in the part of
/// it that holds it.
proof fn lemma_white_run_shift(s: Seq<char>, ws: spec_fn(char) -> bool, start: int, line: Seq<char>, m: int)
    requires
        0 <= start,
        0 <= m <= line.len(),
        start + line.len() < s.len(),
        s.subrange(start, start + line.len()) == line,
    ensures
        white_run(s, ws, start, start + m) == white_run(line, ws, 0, m),
    decreases m,
{
    if m > 0 {
        lemma_white_run_shift(s, ws, start, line, m - 1);
        assert(s[start + m - 1] == s.subrange(start, start + line.len())[m - 1]);
    }
}

/// `line` without the run of `ws` chars at its end.
pub open spec fn trimmed(line: Seq<char>, ws: spec_fn(char) -> bool) -> Seq<char> {
    line.take(line.len() - white_run(line, ws, 0, line.len() as int))
}

/// The number of lines up to the last one that is not blank once trimmed.
pub open spec fn kept_count(lines: Seq<Seq<char>>, ws: spec_fn(char) -> bool) -> nat
    decreases lines.len(),
{
    if lines.len() == 0 {
        0
    } else if trimmed(lines.last(), ws).len() == 0 {
        kept_count(lines.drop_last(), ws)
    } else {
        lines.len()
    }
}

/// The first `n` lines, each trimmed.
pub open spec fn trimmed_lines(lines: Seq<Seq<char>>, ws: spec_fn(char) -> bool, n: nat) -> Seq<Seq<char>> {
    Seq::new(n, |i: int| trimmed(lines[i], ws))
}

/// Stripping line `k - 1` of the text of the first `k` lines (followed by
/// `r`) trims it; a line blank once trimmed goes with all that follows while
/// every line below was blank.
proof fn lemma_strip_lf_line(
    lines: Seq<Seq<char>>,
    ws: spec_fn(char) -> bool,
    k: int,
    r: Seq<char>,
    trailing: bool,
)
    requires
        forall|i: int| 0 <= i < lines.len() ==> no_early_break(#[trigger] lines[i]),
        1 <= k <= lines.len(),
    ensures
        strip_line(lf_text(lines.take(k)) + r, ws, (k - 1) as nat, trailing) == (if trailing
            && trimmed(lines[k - 1], ws).len() == 0 {
            (lf_text(lines.take(k - 1)), true)
        } else {
            (lf_text(lines.take(k - 1)) + (trimmed(lines[k - 1], ws).push('\n') + r), false)
        }),
{
    let s = lf_text(lines.take(k)) + r;
    let line = lines[k - 1];
    let head = lf_text(lines.take(k - 1));
    let start = head.len() as int;
    lemma_lf_split(lines, k - 1, k, r);
    assert(lf_text_from(lines, k, k) =~= Seq::<char>::empty());
    assert(s =~= head + (line.push('\n') + r));
    lemma_lf_line_start(lines, k, r, k - 1);
    lemma_lf_line_start(lines, k, r, k);
    lemma_lf_split(lines, k - 1, k, Seq::empty());
    assert(lf_text(lines.take(k)).len() == start + line.len() + 1);
    let end = start + line.len() + 1;
    assert(line_end_of(s, (k - 1) as nat) == end);
    assert(s.subrange(start, start + line.len()) =~= line);
    lemma_white_run_shift(s, ws, start, line, line.len() as int);
    lemma_white_run_bound(line, ws, 0, line.len() as int);
    let run = white_run(line, ws, 0, line.len() as int);
    let body_end = end - 1 - run;
    assert(s.subrange(0, body_end) =~= head + trimmed(line, ws));
    assert(s.subrange(end - 1, s.len() as int) =~= seq!['\n'] + r);
    let stripped = s.subrange(0, body_end) + s.subrange(end - 1, s.len() as int);
    assert(stripped =~= head + (trimmed(line, ws).push('\n') + r));
    assert(stripped.subrange(0, start) =~= head);
}

/// Stripping the lines of the text of the first `k` lines, followed by `r`,
/// once a line that is not blank was met below them, trims each of them.
proof fn lemma_strip_lf_kept(lines: Seq<Seq<char>>, ws: spec_fn(char) -> bool, k: int, r: Seq<char>)
    requires
        forall|i: int| 0 <= i < lines.len() ==> no_early_break(#[trigger] lines[i]),
        0 <= k <= lines.len(),
    ensures
        strip_lines(lf_text(lines.take(k)) + r, ws, k - 1, false) == lf_text(
            trimmed_lines(lines, ws, k as nat),
        ) + r,
    decreases k,
{
    if k == 0 {
        assert(lines.take(0) =~= Seq::<Seq<char>>::empty());
        assert(trimmed_lines(lines, ws, 0) =~= Seq::<Seq<char>>::empty());
        assert(lf_text(Seq::<Seq<char>>::empty()) + r =~= r);
    } else {
        lemma_strip_lf_line(lines, ws, k, r, false);
        let t = trimmed(lines[k - 1], ws);
        lemma_strip_lf_kept(lines, ws, k - 1, t.push('\n') + r);
        assert(trimmed_lines(lines, ws, k as nat).drop_last() =~= trimmed_lines(lines, ws, (k - 1) as nat));
        assert(lf_text(trimmed_lines(lines, ws, (k - 1) as nat)) + (t.push('\n') + r) =~= lf_text(
            trimmed_lines(lines, ws, k as nat),
        ) + r);
    }
}

/// Stripping the lines of the text of the first `k` lines from the last one
/// up trims them and drops the blank ones at the end.
proof fn lemma_strip_lf_trailing(lines: Seq<Seq<char>>, ws: spec_fn(char) -> bool, k: int)
    requires
        forall|i: int| 0 <= i < lines.len() ==> no_early_break(#[trigger] lines[i]),
        0 <= k <= lines.len(),
    ensures
        strip_lines(lf_text(lines.take(k)), ws, k - 1, true) == lf_text(
            trimmed_lines(lines, ws, kept_count(lines.take(k), ws)),
        ),
    decreases k,
{
    if k == 0 {
        assert(lines.take(0) =~= Seq::<Seq<char>>::empty());
        assert(trimmed_lines(lines, ws, 0) =~= Seq::<Seq<char>>::empty());
    } else {
        let e = Seq::<char>::empty();
        assert(lf_text(lines.take(k)) + e =~= lf_text(lines.take(k)));
        lemma_strip_lf_line(lines, ws, k, e, true);
        assert(lines.take(k).drop_last() =~= lines.take(k - 1));
        assert(lines.take(k).last() == lines[k - 1]);
        let t = trimmed(lines[k - 1], ws);
        if t.len() == 0 {
            lemma_strip_lf_trailing(lines, ws, k - 1);
        } else {
            lemma_strip_lf_kept(lines, ws, k - 1, t.push('\n') + e);
            assert(trimmed_lines(lines, ws, k as nat).drop_last() =~= trimmed_lines(
                lines,
                ws,
                (k - 1) as nat,
            ));
            assert(lf_text(trimmed_lines(lines, ws, (k - 1) as nat)) + (t.push('\n') + e) =~= lf_text(
                trimmed_lines(lines, ws, k as nat),
            ));
        }
    }
}

/// Stripping a text whose lines all end in `\n` or CR LF (and hold no other
/// line break) gives each line without the whitespace at its end, followed by
/// `\n`, up to the last line that is not blank once trimmed: the blank lines
/// at the end go.
pub proof fn lemma_stripped_lf_text(lines: Seq<Seq<char>>, ws: spec_fn(char) -> bool)
    requires
        forall|i: int| 0 <= i < lines.len() ==> no_early_break(#[trigger] lines[i]),
    ensures
        stripped_text(lf_text(lines), ws) == lf_text(
            trimmed_lines(lines, ws, kept_count(lines, ws)),
        ),
{
    let n = lines.len() as int;
    assert(lines.take(n) =~= lines);
    let s = lf_text(lines);
    let e = Seq::<char>::empty();
    assert(s + e =~= s);
    lemma_lf_line_start(lines, n, e, n);
    lemma_lf_count(lines, n);
    assert(line_count(s) == n + 1);
    assert(strip_line(s, ws, n as nat, true) == (s, true));
    lemma_strip_lf_trailing(lines, ws, n);
    lemma_lf_ends(trimmed_lines(lines, ws, kept_count(lines, ws)));
}

/// The lines, each with a CR at its end (ended by CR LF once joined by
/// `lf_text`).
pub open spec fn with_cr(lines: Seq<Seq<char>>) -> Seq<Seq<char>> {
    Seq::new(lines.len(), |i: int| lines[i].push('\r'))
}

/// A CR at the end of a line goes with the whitespace before it.
proof fn lemma_trimmed_cr(line: Seq<char>)
    ensures
        trimmed(line.push('\r'), |c: char| is_white_space(c)) == trimmed(
            line,
            |c: char| is_white_space(c),
        ),
{
    let ws = |c: char| is_white_space(c);
    let l = line.push('\r');
    assert(('\r' as u32) == 13);
    assert(ws(l[line.len() as int]));
    let padded = l.push('\n');
    assert(padded.subrange(0, line.len() as int) =~= line);
    assert(l.subrange(0, line.len() as int) =~= line);
    assert(line.subrange(0, line.len() as int) =~= line);
    lemma_white_run_prefix(l, line, ws, line.len() as int);
    lemma_white_run_bound(line, ws, 0, line.len() as int);
    assert(trimmed(l, ws) =~= trimmed(line, ws));
}

/// The run of `ws` chars before `m` in a text is the run in any text that
/// starts the same up to `m`.
proof fn lemma_white_run_prefix(s: Seq<char>, line: Seq<char>, ws: spec_fn(char) -> bool, m: int)
    requires
        0 <= m <= line.len(),
        m <= s.len(),
        s.subrange(0, m) == line.subrange(0, m),
    ensures
        white_run(s, ws, 0, m) == white_run(line, ws, 0, m),
    decreases m,
{
    if m > 0 {
        assert(s.subrange(0, m - 1) =~= s.subrange(0, m).subrange(0, m - 1));
        assert(line.subrange(0, m - 1) =~= line.subrange(0, m).subrange(0, m - 1));
        lemma_white_run_prefix(s, line, ws, m - 1);
        assert(s[m - 1] == s.subrange(0, m)[m - 1]);
        assert(line[m - 1] == line.subrange(0, m)[m - 1]);
    }
}

proof fn lemma_kept_count_cr(lines: Seq<Seq<char>>)
    ensures
        kept_count(with_cr(lines), |c: char| is_white_space(c)) == kept_count(
            lines,
            |c: char| is_white_space(c),
        ),
    decreases lines.len(),
{
    if lines.len() > 0 {
        assert(with_cr(lines).drop_last() =~= with_cr(lines.drop_last()));
        lemma_trimmed_cr(lines.last());
        lemma_kept_count_cr(lines.drop_last());
    }
}

/// Stripping trailing whitespace treats a line ended by CR LF as the same
/// line ended by LF alone: the CR is whitespace and goes with the rest, so
/// both texts strip to the same text.
pub proof fn lemma_strip_crlf_as_lf(lines: Seq<Seq<char>>)
    requires
        forall|i: int| 0 <= i < lines.len() ==> unbroken(#[trigger] lines[i]),
    ensures
        stripped_text(lf_text(with_cr(lines)), |c: char| is_white_space(c)) == stripped_text(
            lf_text(lines),
            |c: char| is_white_space(c),
        ),
{
    let ws = |c: char| is_white_space(c);
    let crs = with_cr(lines);
    assert forall|i: int| 0 <= i < lines.len() implies no_early_break(#[trigger] lines[i]) by {
        assert(unbroken(lines[i]));
    }
    assert forall|i: int| 0 <= i < crs.len() implies no_early_break(#[trigger] crs[i]) by {
        assert(unbroken(lines[i]));
        assert forall|j: int| 0 <= j < crs[i].len() implies !is_break_char(#[trigger] crs[i][j]) || (
        j == crs[i].len() - 1 && crs[i][j] == '\r') by {
            if j < lines[i].len() {
                assert(crs[i][j] == lines[i][j]);
            }
        }
    }
    lemma_stripped_lf_text(crs, ws);
    lemma_stripped_lf_text(lines, ws);
    lemma_kept_count_cr(lines);
    let n = kept_count(lines, ws);
    assert forall|i: int| 0 <= i < n implies #[trigger] trimmed(crs[i], ws) == trimmed(lines[i], ws) by {
        lemma_kept_count_bound(lines, ws);
        lemma_trimmed_cr(lines[i]);
    }
    assert(trimmed_lines(crs, ws, n) =~= trimmed_lines(lines, ws, n));
}

proof fn lemma_kept_count_bound(lines: Seq<Seq<char>>, ws: spec_fn(char) -> bool)
    ensures
        kept_count(lines, ws) <= lines.len(),
    decreases lines.len(),
{
    if lines.len() > 0 {
        lemma_kept_count_bound(lines.drop_last(), ws);
    }
}

/// Whether `c` is one of `list`.
fn contains_char(list: &Vec<char>, c: char) -> (b: bool)
    ensures
        b == list@.contains(c),
{
    let mut i: usize = 0;
    while i < list.len()
        invariant
            i <= list@.len(),
            forall|j: int| 0 <= j < i ==> list@[j] != c,
        decreases list@.len() - i,
    {
        if list[i] == c {
            return true;
        }
        i = i + 1;
    }
    false
}

/// `stripped_text` with the chars of `whitespace` as whitespace: strips the
/// whitespace at the end of each line (before its last char), drops the
/// blank lines at the end, and ends a text of more than one char with `\n`.
pub fn strip_trailing_whitespace_with(text: Rope, whitespace: &Vec<char>) -> (stripped: Rope)
    ensures
        rope_text(stripped) == stripped_text(rope_text(text), |c: char| whitespace@.contains(c)),
{
    let ghost ws = |c: char| whitespace@.contains(c);
    let ghost original = rope_text(text);
    let mut text = text;
    let mut trailing_empty_line = true;
    let mut line_index = crate::text::rope_len_lines(&text);
    while line_index > 0
        invariant
            line_index <= line_count(rope_text(text)),
            ws == (|c: char| whitespace@.contains(c)),
            strip_lines(rope_text(text), ws, line_index - 1, trailing_empty_line) == strip_lines(
                original,
                ws,
                line_count(original) - 1,
                true,
            ),
        decreases line_index,
    {
        line_index = line_index - 1;
        let ghost s = rope_text(text);
        let ghost l = line_index as nat;
        let ghost trailing_before = trailing_empty_line;
        proof {
            lemma_line_start(s, l);
            lemma_line_start(s, l + 1);
            lemma_line_start_monotonic(s, l, l + 1);
        }
        let start = crate::text::rope_line_to_char(&text, line_index);
        let end = if line_index + 1 < crate::text::rope_len_lines(&text) {
            crate::text::rope_line_to_char(&text, line_index + 1)
        } else {
            crate::text::rope_len_chars(&text)
        };
        if start == end {
            continue;
        }
        let mut cursor = end - 1;
        assert(s.subrange(0, cursor as int) + s.subrange(end - 1, s.len() as int) =~= s);
        while cursor > start
            invariant_except_break
                start <= cursor <= end - 1,
                end <= s.len(),
                rope_text(text) == s.subrange(0, cursor as int) + s.subrange(end - 1, s.len() as int),
                white_run(s, ws, start as int, end - 1) == (end - 1 - cursor) + white_run(
                    s,
                    ws,
                    start as int,
                    cursor as int,
                ),
                trailing_empty_line == trailing_before,
                ws == (|c: char| whitespace@.contains(c)),
            ensures
                ({
                    let body_end = end - 1 - white_run(s, ws, start as int, end - 1);
                    &&& start <= body_end <= end - 1
                    &&& rope_text(text) == s.subrange(0, body_end) + s.subrange(
                        end - 1,
                        s.len() as int,
                    )
                    &&& trailing_empty_line == (trailing_before && body_end == start)
                    &&& (trailing_empty_line && cursor == start) == (trailing_before && body_end
                        == start)
                }),
            decreases cursor,
        {
            cursor = cursor - 1;
            let character = crate::text::rope_char(&text, cursor);
            assert(character == s[cursor as int]);
            if contains_char(whitespace, character) {
                crate::text::rope_remove(&mut text, cursor, cursor + 1);
                assert(rope_text(text) =~= s.subrange(0, cursor as int) + s.subrange(
                    end - 1,
                    s.len() as int,
                ));
            } else {
                trailing_empty_line = false;
                assert(white_run(s, ws, start as int, cursor + 1) == 0);
                break;
            }
        }
        if trailing_empty_line && cursor == start {
            let len = crate::text::rope_len_chars(&text);
            crate::text::rope_remove(&mut text, start, len);
        }
        proof {
            let next = strip_line(s, ws, l, trailing_before);
            assert(rope_text(text) =~= next.0);
            assert(trailing_empty_line == next.1);
            assert(next.0.subrange(0, line_start(s, l) as int) =~= s.subrange(0, line_start(s, l) as int));
            crate::text::lemma_line_count_common_prefix(s, next.0, l);
        }
    }
    let len = crate::text::rope_len_chars(&text);
    if len > 1 && crate::text::rope_char(&text, len - 1) != '\n' {
        crate::text::rope_insert_char(&mut text, len, '\n');
        assert(rope_text(text) =~= strip_lines(original, ws, line_count(original) - 1, true).push('\n'));
    }
    text
}

proof fn lemma_white_run_bound(s: Seq<char>, ws: spec_fn(char) -> bool, start: int, e: int)
    ensures
        e >= start ==> white_run(s, ws, start, e) <= e - start,
    decreases e - start,
{
    if e > start && e <= s.len() {
        lemma_white_run_bound(s, ws, start, e - 1);
    }
}

/// Whether a whitespace test reads the same as another on the chars of `t`
/// does not matter for the run it finds in a text made of those chars.
proof fn lemma_white_run_agree(
    s: Seq<char>,
    t: Seq<char>,
    p: spec_fn(char) -> bool,
    q: spec_fn(char) -> bool,
    start: int,
    e: int,
)
    requires
        0 <= start,
        forall|i: int| 0 <= i < s.len() ==> t.contains(#[trigger] s[i]),
        forall|c: char| t.contains(c) ==> p(c) == q(c),
    ensures
        white_run(s, p, start, e) == white_run(s, q, start, e),
    decreases e - start,
{
    if e > start && e <= s.len() {
        assert(t.contains(s[e - 1]));
        lemma_white_run_agree(s, t, p, q, start, e - 1);
    }
}

/// Stripping reads the whitespace test only on the chars of the text.
proof fn lemma_strip_lines_agree(
    s: Seq<char>,
    t: Seq<char>,
    p: spec_fn(char) -> bool,
    q: spec_fn(char) -> bool,
    l: int,
    trailing: bool,
)
    requires
        forall|i: int| 0 <= i < s.len() ==> t.contains(#[trigger] s[i]),
        forall|c: char| t.contains(c) ==> p(c) == q(c),
    ensures
        strip_lines(s, p, l, trailing) == strip_lines(s, q, l, trailing),
    decreases l + 1,
{
    if l >= 0 {
        let start = line_start(s, l as nat) as int;
        let end = line_end_of(s, l as nat) as int;
        lemma_line_start(s, l as nat);
        lemma_line_start(s, (l + 1) as nat);
        lemma_line_start_monotonic(s, l as nat, (l + 1) as nat);
        lemma_white_run_agree(s, t, p, q, start, end - 1);
        lemma_white_run_bound(s, p, start, end - 1);
        let next = strip_line(s, p, l as nat, trailing);
        assert(next == strip_line(s, q, l as nat, trailing));
        if start < end {
            let body_end = end - 1 - white_run(s, p, start, end - 1);
            let stripped = s.subrange(0, body_end) + s.subrange(end - 1, s.len() as int);
            assert forall|i: int| 0 <= i < stripped.len() implies t.contains(#[trigger] stripped[i]) by {
                if i < body_end {
                    assert(stripped[i] == s[i]);
                } else {
                    assert(stripped[i] == s[i - body_end + end - 1]);
                }
            }
            assert forall|i: int| 0 <= i < next.0.len() implies t.contains(#[trigger] next.0[i]) by {
                if trailing && body_end == start {
                    assert(next.0[i] == stripped[i]);
                }
            }
        }
        lemma_strip_lines_agree(next.0, t, p, q, l - 1, next.1);
    }
}

/// Strips trailing whitespace: the whitespace at the end of each line
/// (before its last char) goes, blank lines at the end of the text go, and a
/// text of more than one char ends with `\n`.
pub fn strip_trailing_whitespace(text: Rope) -> (stripped: Rope)
    ensures
        rope_text(stripped) == stripped_text(rope_text(text), |c: char| is_white_space(c)),
{
    let ghost t = rope_text(text);
    let chars = chars_of_str(rope_to_string(&text).as_str());
    let mut whitespace: Vec<char> = Vec::new();
    let mut i: usize = 0;
    while i < chars.len()
        invariant
            i <= chars@.len(),
            chars@ == t,
            forall|k: int|
                0 <= k < whitespace@.len() ==> t.contains(#[trigger] whitespace@[k]) && is_white_space(
                    whitespace@[k],
                ),
            forall|j: int| 0 <= j < i && is_white_space(#[trigger] t[j]) ==> whitespace@.contains(t[j]),
        decreases chars@.len() - i,
    {
        let c = chars[i];
        if char_is_whitespace(c) {
            let ghost before = whitespace@;
            whitespace.push(c);
            proof {
                assert(t[i as int] == c);
                assert(t.contains(c));
                assert forall|k: int| 0 <= k < whitespace@.len() implies t.contains(
                    #[trigger] whitespace@[k],
                ) && is_white_space(whitespace@[k]) by {
                    if k < before.len() {
                        assert(whitespace@[k] == before[k]);
                    }
                }
                assert forall|j: int| 0 <= j < i + 1 && is_white_space(#[trigger] t[j]) implies whitespace@.contains(t[j]) by {
                    if j < i {
                        let k = choose|k: int| 0 <= k < before.len() && before[k] == t[j];
                        assert(whitespace@[k] == t[j]);
                    } else {
                        assert(whitespace@[whitespace@.len() - 1] == c);
                    }
                }
            }
        }
        i = i + 1;
    }
    let result = strip_trailing_whitespace_with(text, &whitespace);
    proof {
        let p = |c: char| whitespace@.contains(c);
        let q = |c: char| is_white_space(c);
        assert forall|c: char| t.contains(c) implies p(c) == q(c) by {
            let j = choose|j: int| 0 <= j < t.len() && t[j] == c;
            if is_white_space(c) {
                assert(is_white_space(t[j]));
            }
            if whitespace@.contains(c) {
                let k = choose|k: int| 0 <= k < whitespace@.len() && whitespace@[k] == c;
                assert(is_white_space(whitespace@[k]));
            }
        }
        assert forall|i: int| 0 <= i < t.len() implies t.contains(#[trigger] t[i]) by {}
        lemma_strip_lines_agree(t, t, p, q, line_count(t) - 1, true);
    }
    result
}

} // verus!
