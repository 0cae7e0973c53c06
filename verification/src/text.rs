//! The text model: ropes of chars, their utf-8 byte offsets and their lines,
//! and the calls into `ropey` that the editing logic makes.
use vstd::prelude::*;
use ropey::{Rope, RopeSlice};

verus! {

#[verifier::external_type_specification]
#[verifier::external_body]
pub struct ExRope(Rope);

#[verifier::external_type_specification]
#[verifier::external_body]
pub struct ExRopeSlice<'a>(RopeSlice<'a>);

/// The chars that a rope holds.
pub uninterp spec fn rope_text(rope: Rope) -> Seq<char>;

/// The chars that a rope slice holds.
pub uninterp spec fn slice_text(slice: RopeSlice) -> Seq<char>;

// ---------------------------------------------------------------------------
// utf-8 byte offsets

/// Number of bytes of the utf-8 encoding of `c`.
pub open spec fn char_utf8_len(c: char) -> nat {
    if (c as u32) < 0x80 {
        1
    } else if (c as u32) < 0x800 {
        2
    } else if (c as u32) < 0x10000 {
        3
    } else {
        4
    }
}

/// Byte offset, in the utf-8 encoding of `s`, of the char at index `i`
/// (the whole length for `i >= s.len()`).
pub open spec fn byte_offset(s: Seq<char>, i: int) -> nat
    decreases s.len(),
{
    if i <= 0 || s.len() == 0 {
        0
    } else {
        char_utf8_len(s[0]) + byte_offset(s.drop_first(), i - 1)
    }
}

/// Length in bytes of the utf-8 encoding of `s`.
pub open spec fn utf8_len(s: Seq<char>) -> nat {
    byte_offset(s, s.len() as int)
}

/// Index of the char that holds byte `b` of the utf-8 encoding of `s`
/// (`s.len()` for a byte past the end).
pub open spec fn char_of_byte(s: Seq<char>, b: int) -> nat
    decreases s.len(),
{
    if s.len() == 0 || b < char_utf8_len(s[0]) {
        0
    } else {
        1 + char_of_byte(s.drop_first(), b - char_utf8_len(s[0]))
    }
}

/// `b` is the offset of a char boundary of `s` (the end included).
pub open spec fn is_char_boundary_offset(s: Seq<char>, b: int) -> bool {
    0 <= b <= utf8_len(s) && byte_offset(s, char_of_byte(s, b) as int) == b
}

pub proof fn lemma_byte_offset_bounds(s: Seq<char>, i: int)
    ensures
        byte_offset(s, i) <= utf8_len(s),
        0 <= i <= s.len() ==> i <= byte_offset(s, i),
        i >= s.len() ==> byte_offset(s, i) == utf8_len(s),
        utf8_len(s) >= s.len(),
    decreases s.len(),
{
    if s.len() > 0 {
        lemma_byte_offset_bounds(s.drop_first(), i - 1);
        lemma_byte_offset_bounds(s.drop_first(), s.len() - 1);
    }
}

pub proof fn lemma_byte_offset_strictly_increasing(s: Seq<char>, i: int, j: int)
    requires
        0 <= i < j <= s.len(),
    ensures
        byte_offset(s, i) < byte_offset(s, j),
    decreases s.len(),
{
    if i > 0 {
        lemma_byte_offset_strictly_increasing(s.drop_first(), i - 1, j - 1);
    }
}

pub proof fn lemma_char_of_byte_offset(s: Seq<char>, k: int)
    requires
        0 <= k <= s.len(),
    ensures
        char_of_byte(s, byte_offset(s, k) as int) == k,
    decreases s.len(),
{
    if k > 0 {
        lemma_char_of_byte_offset(s.drop_first(), k - 1);
    }
}

pub proof fn lemma_char_of_byte_bound(s: Seq<char>, b: int)
    ensures
        char_of_byte(s, b) <= s.len(),
        b >= utf8_len(s) ==> char_of_byte(s, b) == s.len(),
    decreases s.len(),
{
    if s.len() > 0 && b >= char_utf8_len(s[0]) {
        lemma_char_of_byte_bound(s.drop_first(), b - char_utf8_len(s[0]));
    }
}

/// A boundary offset converts to a char index and back.
pub proof fn lemma_boundary_char_index(s: Seq<char>, k: int)
    requires
        0 <= k <= s.len(),
    ensures
        is_char_boundary_offset(s, byte_offset(s, k) as int),
        char_of_byte(s, byte_offset(s, k) as int) == k,
{
    lemma_char_of_byte_offset(s, k);
    lemma_byte_offset_bounds(s, k);
}

/// Byte offsets into a prefix agree with those into the whole sequence.
pub proof fn lemma_byte_offset_prefix(s: Seq<char>, t: Seq<char>, i: int)
    requires
        0 <= i <= s.len(),
        s.len() <= t.len(),
        s == t.subrange(0, s.len() as int),
    ensures
        byte_offset(s, i) == byte_offset(t, i),
    decreases s.len(),
{
    if i > 0 && s.len() > 0 {
        assert(s.drop_first() == t.drop_first().subrange(0, s.len() - 1));
        lemma_byte_offset_prefix(s.drop_first(), t.drop_first(), i - 1);
    }
}

/// The byte length of a concatenation.
pub proof fn lemma_utf8_len_append(a: Seq<char>, b: Seq<char>)
    ensures
        utf8_len(a + b) == utf8_len(a) + utf8_len(b),
        byte_offset(a + b, a.len() as int) == utf8_len(a),
    decreases a.len(),
{
    if a.len() > 0 {
        assert((a + b).drop_first() == a.drop_first() + b);
        lemma_utf8_len_append(a.drop_first(), b);
    } else {
        assert(a + b == b);
    }
}

/// The byte offset of `j` is that of `i` plus the bytes of the chars between.
pub proof fn lemma_byte_offset_split(s: Seq<char>, i: int, j: int)
    requires
        0 <= i <= j <= s.len(),
    ensures
        byte_offset(s, j) == byte_offset(s, i) + utf8_len(s.subrange(i, j)),
    decreases s.len(),
{
    if i > 0 {
        assert(s.drop_first().subrange(i - 1, j - 1) == s.subrange(i, j));
        lemma_byte_offset_split(s.drop_first(), i - 1, j - 1);
    } else if j > 0 {
        assert(s.drop_first().subrange(0, j - 1) == s.subrange(0, j).drop_first());
        lemma_byte_offset_split(s.drop_first(), 0, j - 1);
    }
}

// ---------------------------------------------------------------------------
// lines

/// The char at `j` ends a line break: LF, VT, FF, NEL, LS, PS, or a CR not
/// followed by LF (a CR LF pair is one line break that ends at its LF).
pub open spec fn ends_line_break(s: Seq<char>, j: int) -> bool {
    let c = s[j];
    c == '\n' || c == '\u{0B}' || c == '\u{0C}' || c == '\u{85}' || c == '\u{2028}' || c
        == '\u{2029}' || (c == '\r' && !(j + 1 < s.len() && s[j + 1] == '\n'))
}

/// Number of line breaks that end before char index `i`: the index of the
/// line that holds char `i`.
pub open spec fn line_of_char(s: Seq<char>, i: int) -> nat
    decreases i,
{
    if i <= 0 {
        0
    } else {
        line_of_char(s, i - 1) + if i - 1 < s.len() && ends_line_break(s, i - 1) {
            1nat
        } else {
            0nat
        }
    }
}

/// Number of lines: one more than the number of line breaks.
pub open spec fn line_count(s: Seq<char>) -> nat {
    line_of_char(s, s.len() as int) + 1
}

/// First index at or after `i` that has at least `l` line breaks before it
/// (`s.len()` if there is none).
pub open spec fn first_index_of_line_from(s: Seq<char>, l: nat, i: int) -> nat
    decreases s.len() - i,
{
    if i >= s.len() {
        s.len()
    } else if line_of_char(s, i) >= l {
        if i < 0 {
            0
        } else {
            i as nat
        }
    } else {
        first_index_of_line_from(s, l, i + 1)
    }
}

/// Char index of the start of line `l` (`s.len()` for `l` past the last line).
pub open spec fn line_start(s: Seq<char>, l: nat) -> nat {
    first_index_of_line_from(s, l, 0)
}

pub proof fn lemma_line_of_char_monotonic(s: Seq<char>, i: int, j: int)
    requires
        i <= j,
    ensures
        line_of_char(s, i) <= line_of_char(s, j),
    decreases j - i,
{
    if i < j {
        lemma_line_of_char_monotonic(s, i, j - 1);
    }
}

pub proof fn lemma_line_of_char_step(s: Seq<char>, i: int)
    ensures
        line_of_char(s, i + 1) <= line_of_char(s, i) + 1,
        i < 0 ==> line_of_char(s, i + 1) == 0,
{
}

pub proof fn lemma_line_of_char_bound(s: Seq<char>, i: int)
    requires
        0 <= i,
    ensures
        line_of_char(s, i) <= i,
    decreases i,
{
    if i > 0 {
        lemma_line_of_char_bound(s, i - 1);
    }
}

pub proof fn lemma_first_index_of_line_from(s: Seq<char>, l: nat, i: int)
    requires
        0 <= i <= s.len(),
    ensures
        i <= first_index_of_line_from(s, l, i) <= s.len(),
        first_index_of_line_from(s, l, i) < s.len() ==> line_of_char(
            s,
            first_index_of_line_from(s, l, i) as int,
        ) >= l,
        forall|k: int|
            i <= k < first_index_of_line_from(s, l, i) ==> #[trigger] line_of_char(s, k) < l,
    decreases s.len() - i,
{
    if i < s.len() && line_of_char(s, i) < l {
        lemma_first_index_of_line_from(s, l, i + 1);
    }
}

/// Facts on the start of a line.
pub proof fn lemma_line_start(s: Seq<char>, l: nat)
    ensures
        line_start(s, l) <= s.len(),
        l == 0 ==> line_start(s, l) == 0,
        l < line_count(s) ==> line_of_char(s, line_start(s, l) as int) == l,
        forall|k: int| 0 <= k < line_start(s, l) ==> #[trigger] line_of_char(s, k) < l,
{
    lemma_first_index_of_line_from(s, l, 0);
    let st = line_start(s, l);
    if l < line_count(s) {
        if st < s.len() {
            if st > 0 {
                assert(line_of_char(s, st - 1) < l);
                lemma_line_of_char_step(s, st - 1);
            }
        } else {
            if st > 0 {
                assert(line_of_char(s, st - 1) < l);
                lemma_line_of_char_step(s, st - 1);
            }
        }
    }
}

/// The start of a line is at or before any char of that line.
pub proof fn lemma_line_start_le(s: Seq<char>, i: int)
    requires
        0 <= i <= s.len(),
    ensures
        line_start(s, line_of_char(s, i)) <= i,
        line_of_char(s, i) < line_count(s),
{
    let l = line_of_char(s, i);
    lemma_line_start(s, l);
    lemma_line_of_char_monotonic(s, i, s.len() as int);
    if line_start(s, l) > i {
        assert(line_of_char(s, i) < l);
    }
}

/// Line starts are ordered like their lines.
pub proof fn lemma_line_start_monotonic(s: Seq<char>, l: nat, m: nat)
    requires
        l <= m,
    ensures
        line_start(s, l) <= line_start(s, m),
{
    lemma_line_start(s, l);
    lemma_line_start(s, m);
    let a = line_start(s, l);
    let b = line_start(s, m);
    if b < a {
        if b < s.len() {
            lemma_first_index_of_line_from(s, m, 0);
            assert(line_of_char(s, b as int) >= m);
            assert(line_of_char(s, b as int) < l);
        }
    }
}

// ---------------------------------------------------------------------------
// calls into ropey

/// `String::push`: appends `c` to the string.
#[verifier::external_body]
pub(crate) fn string_push(text: &mut String, c: char)
    ensures
        final(text)@ == old(text)@.push(c),
{
    text.push(c)
}

/// `Rope::new`: an empty rope.
#[verifier::external_body]
pub(crate) fn rope_new() -> (rope: Rope)
    ensures
        rope_text(rope) == Seq::<char>::empty(),
{
    Rope::new()
}

/// `Rope::clone`: a rope that holds the same chars.
pub assume_specification[ <Rope as Clone>::clone ](rope: &Rope) -> (copy: Rope)
    ensures
        rope_text(copy) == rope_text(*rope),
;

/// `Rope::len_chars`: the number of chars in the rope.
#[verifier::external_body]
pub(crate) fn rope_len_chars(rope: &Rope) -> (n: usize)
    ensures
        n == rope_text(*rope).len(),
{
    rope.len_chars()
}

/// `Rope::len_lines`: one more than the number of line breaks.
#[verifier::external_body]
pub(crate) fn rope_len_lines(rope: &Rope) -> (n: usize)
    ensures
        n == line_count(rope_text(*rope)),
{
    rope.len_lines()
}

/// `Rope::char`: the char at `char_index`.
#[verifier::external_body]
pub(crate) fn rope_char(rope: &Rope, char_index: usize) -> (c: char)
    requires
        char_index < rope_text(*rope).len(),
    ensures
        c == rope_text(*rope)[char_index as int],
{
    rope.char(char_index)
}

/// `Rope::insert_char`: inserts `c` before the char at `char_index`.
#[verifier::external_body]
pub(crate) fn rope_insert_char(rope: &mut Rope, char_index: usize, c: char)
    requires
        char_index <= rope_text(*old(rope)).len(),
    ensures
        rope_text(*final(rope)) == rope_text(*old(rope)).insert(char_index as int, c),
{
    rope.insert_char(char_index, c)
}

/// `Rope::remove`: removes the chars in `start..end`.
#[verifier::external_body]
pub(crate) fn rope_remove(rope: &mut Rope, start: usize, end: usize)
    requires
        start <= end <= rope_text(*old(rope)).len(),
    ensures
        rope_text(*final(rope)) == rope_text(*old(rope)).subrange(0, start as int) + rope_text(
            *old(rope),
        ).subrange(end as int, rope_text(*old(rope)).len() as int),
{
    rope.remove(start..end)
}

/// `Rope::char_to_byte`: the byte offset of the char at `char_index`.
#[verifier::external_body]
pub(crate) fn rope_char_to_byte(rope: &Rope, char_index: usize) -> (b: usize)
    requires
        char_index <= rope_text(*rope).len(),
    ensures
        b == byte_offset(rope_text(*rope), char_index as int),
{
    rope.char_to_byte(char_index)
}

/// `Rope::char_to_line`: the number of line breaks before `char_index`.
#[verifier::external_body]
pub(crate) fn rope_char_to_line(rope: &Rope, char_index: usize) -> (l: usize)
    requires
        char_index <= rope_text(*rope).len(),
    ensures
        l == line_of_char(rope_text(*rope), char_index as int),
{
    rope.char_to_line(char_index)
}

/// `Rope::line_to_char`: the char index where line `line_index` starts
/// (the length of the rope for the line past the last one).
#[verifier::external_body]
pub(crate) fn rope_line_to_char(rope: &Rope, line_index: usize) -> (c: usize)
    requires
        line_index <= line_count(rope_text(*rope)),
    ensures
        c == line_start(rope_text(*rope), line_index as nat),
{
    rope.line_to_char(line_index)
}

/// `Rope::line`: line `line_index`, its line break included.
#[verifier::external_body]
pub(crate) fn rope_line<'a>(rope: &'a Rope, line_index: usize) -> (line: RopeSlice<'a>)
    requires
        line_index < line_count(rope_text(*rope)),
    ensures
        slice_text(line) == rope_text(*rope).subrange(
            line_start(rope_text(*rope), line_index as nat) as int,
            line_start(rope_text(*rope), (line_index + 1) as nat) as int,
        ),
{
    rope.line(line_index)
}

/// `Rope::slice`: the chars in `start..end`.
#[verifier::external_body]
pub(crate) fn rope_slice<'a>(rope: &'a Rope, start: usize, end: usize) -> (slice: RopeSlice<'a>)
    requires
        start <= end <= rope_text(*rope).len(),
    ensures
        slice_text(slice) == rope_text(*rope).subrange(start as int, end as int),
{
    rope.slice(start..end)
}

/// `String::from(&Rope)`: the rope's chars as a string.
#[verifier::external_body]
pub(crate) fn rope_to_string(rope: &Rope) -> (text: String)
    ensures
        text@ == rope_text(*rope),
{
    String::from(rope)
}

/// `RopeSlice::len_chars`: the number of chars in the slice.
#[verifier::external_body]
pub(crate) fn slice_len_chars(slice: &RopeSlice) -> (n: usize)
    ensures
        n == slice_text(*slice).len(),
{
    slice.len_chars()
}

/// `RopeSlice::char`: the char at `char_index` of the slice.
#[verifier::external_body]
pub(crate) fn slice_char(slice: &RopeSlice, char_index: usize) -> (c: char)
    requires
        char_index < slice_text(*slice).len(),
    ensures
        c == slice_text(*slice)[char_index as int],
{
    slice.char(char_index)
}

/// `RopeSlice::slice`: the chars in `start..end` of the slice.
#[verifier::external_body]
pub(crate) fn slice_slice<'a>(slice: &RopeSlice<'a>, start: usize, end: usize) -> (part: RopeSlice<'a>)
    requires
        start <= end <= slice_text(*slice).len(),
    ensures
        slice_text(part) == slice_text(*slice).subrange(start as int, end as int),
{
    slice.slice(start..end)
}

/// `String::from(RopeSlice)`: the slice's chars as a string.
#[verifier::external_body]
pub(crate) fn slice_to_string(slice: &RopeSlice) -> (text: String)
    ensures
        text@ == slice_text(*slice),
{
    String::from(*slice)
}

/// `Rope::from(RopeSlice)`: a rope that holds the slice's chars.
#[verifier::external_body]
pub(crate) fn slice_to_rope(slice: &RopeSlice) -> (rope: Rope)
    ensures
        rope_text(rope) == slice_text(*slice),
{
    Rope::from(*slice)
}

/// `ropey::str_utils::char_to_byte_idx`: the byte offset of char `char_index`
/// of `text` (its byte length for an index past the end).
#[verifier::external_body]
pub(crate) fn str_char_to_byte(text: &str, char_index: usize) -> (b: usize)
    ensures
        b == byte_offset(text@, char_index as int),
{
    ropey::str_utils::char_to_byte_idx(text, char_index)
}

/// `ropey::str_utils::byte_to_char_idx`: the index of the char that holds
/// byte `byte_index` of `text` (its char length for a byte past the end).
#[verifier::external_body]
pub(crate) fn str_byte_to_char(text: &str, byte_index: usize) -> (c: usize)
    ensures
        c == char_of_byte(text@, byte_index as int),
{
    ropey::str_utils::byte_to_char_idx(text, byte_index)
}

/// The number of bytes of the char's utf-8 encoding: 1 below U+0080, 2 below
/// U+0800, 3 below U+10000 and 4 above.
pub(crate) fn char_len_utf8(c: char) -> (n: usize)
    ensures
        n == char_utf8_len(c),
{
    let u = c as u32;
    if u < 0x80 {
        1
    } else if u < 0x800 {
        2
    } else if u < 0x10000 {
        3
    } else {
        4
    }
}

/// The byte offset of a char is at most the byte offset of a later char.
pub proof fn lemma_byte_offset_monotonic(s: Seq<char>, i: int, j: int)
    requires
        i <= j,
    ensures
        byte_offset(s, i) <= byte_offset(s, j),
    decreases s.len(),
{
    if i > 0 && s.len() > 0 {
        lemma_byte_offset_monotonic(s.drop_first(), i - 1, j - 1);
    }
}


/// Two texts that agree on `0..=i` (as far as both go) count the same line
/// breaks before `i`.
pub proof fn lemma_line_of_char_common_prefix(s: Seq<char>, t: Seq<char>, i: int)
    requires
        0 <= i,
        i < s.len(),
        i < t.len(),
        s.subrange(0, i + 1) == t.subrange(0, i + 1),
    ensures
        line_of_char(s, i) == line_of_char(t, i),
    decreases i,
{
    if i > 0 {
        assert(s.subrange(0, i) == t.subrange(0, i)) by {
            assert forall|k: int| 0 <= k < i implies s.subrange(0, i)[k] == t.subrange(0, i)[k] by {
                assert(s.subrange(0, i + 1)[k] == t.subrange(0, i + 1)[k]);
            }
        }
        lemma_line_of_char_common_prefix(s, t, i - 1);
        assert(s[i - 1] == s.subrange(0, i + 1)[i - 1]);
        assert(t[i - 1] == t.subrange(0, i + 1)[i - 1]);
        assert(s[i] == s.subrange(0, i + 1)[i]);
        assert(t[i] == t.subrange(0, i + 1)[i]);
    }
}

/// A text that starts like `t` up to the start of line `l` of `t` has that
/// line too.
pub proof fn lemma_line_count_common_prefix(t: Seq<char>, s: Seq<char>, l: nat)
    requires
        l < line_count(t),
        line_start(t, l) <= t.len(),
        line_start(t, l) <= s.len(),
        s.subrange(0, line_start(t, l) as int) == t.subrange(0, line_start(t, l) as int),
    ensures
        l < line_count(s),
{
    let p = line_start(t, l) as int;
    lemma_line_start(t, l);
    lemma_line_of_char_monotonic(s, 0, s.len() as int);
    if l > 0 {
        lemma_first_index_of_line_from(t, l, 0);
        assert(p > 0) by {
            if p == 0 {
                assert(line_of_char(t, 0) == 0);
            }
        }
        assert(line_of_char(t, p - 1) < l);
        lemma_line_of_char_step(t, p - 1);
        assert(line_of_char(t, p) == l) by {
            if p < t.len() {
            } else {
                lemma_line_of_char_monotonic(t, p, t.len() as int);
            }
        }
        assert(p - 1 < t.len() && ends_line_break(t, p - 1));
        if p - 1 > 0 {
            assert(s.subrange(0, p) == t.subrange(0, p));
            lemma_line_of_char_common_prefix(s, t, p - 1);
        }
        assert(s[p - 1] == s.subrange(0, p)[p - 1]);
        assert(t[p - 1] == t.subrange(0, p)[p - 1]);
        if ends_line_break(s, p - 1) {
            assert(line_of_char(s, p) == l);
            lemma_line_of_char_monotonic(s, p, s.len() as int);
        } else {
            let c = t[p - 1];
            assert(s[p - 1] == c);
            assert(c == '\r') by {
                if c != '\r' {
                    assert(ends_line_break(s, p - 1) == ends_line_break(t, p - 1));
                }
            }
            assert(p < s.len() && s[p] == '\n');
            assert(ends_line_break(s, p));
            assert(line_of_char(t, p) == line_of_char(t, p - 1) + 1);
            assert(line_of_char(s, p) == line_of_char(s, p - 1));
            assert(line_of_char(s, p - 1) == line_of_char(t, p - 1));
            assert(line_of_char(s, p + 1) == line_of_char(s, p) + 1);
            assert(line_of_char(s, p + 1) == l);
            lemma_line_of_char_monotonic(s, p + 1, s.len() as int);
        }
    }
}


/// One char takes its own UTF-8 length.
pub proof fn lemma_utf8_len_single(c: char)
    ensures
        utf8_len(seq![c]) == char_utf8_len(c),
{
    assert(seq![c].drop_first() =~= Seq::<char>::empty());
    assert(byte_offset(seq![c].drop_first(), 0) == 0);
    assert(seq![c][0] == c);
    assert(byte_offset(seq![c], 1) == char_utf8_len(c) + byte_offset(seq![c].drop_first(), 0));
}

} // verus!
