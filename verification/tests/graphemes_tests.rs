use ropey::{Rope, RopeSlice};
use zee_edit::graphemes::{
    strip_trailing_whitespace, strip_trailing_whitespace_with, visual_column_range_to_char_range,
    visual_column_to_char_index_pub, width, RaggedLinePolicy, RopeGraphemes,
};
use zee_edit::RopeExt;

const MULTI_CHAR_EMOJI: &str = r#"👨‍👨‍👧‍👧"#;

#[test]
fn prev_grapheme_1() {
    let text = Rope::from(MULTI_CHAR_EMOJI);
    let grapheme_start = text.prev_grapheme_boundary(text.len_chars() - 1);
    assert_eq!(0, grapheme_start);
}

#[test]
fn end_grapheme_1() {
    let text = Rope::from(MULTI_CHAR_EMOJI);
    let grapheme_end = text.next_grapheme_boundary(0);
    assert_eq!(text.len_chars(), grapheme_end);
}

#[test]
fn width_newline_is_zero() {
    for line_break in ["\n", "\r\n", "\r"] {
        let text = Rope::from(line_break);
        assert_eq!(width(4, &text.slice(..)), 0, "line break {line_break:?}");
    }
}

#[test]
fn width_tab_and_text_unaffected() {
    let tab = Rope::from("\t");
    assert_eq!(width(4, &tab.slice(..)), 4);

    let ascii = Rope::from("hello");
    assert_eq!(width(4, &ascii.slice(..)), 5);

    // CJK stays width 2.
    let cjk = Rope::from("漢");
    assert_eq!(width(4, &cjk.slice(..)), 2);
}

#[test]
fn width_line_grapheme_sum_ignores_trailing_newline() {
    let text = Rope::from("abc\n");
    let line = text.slice(text.line_to_char(0)..text.line_to_char(1));
    let mut graphemes = RopeGraphemes::new(&line);
    let mut total: usize = 0;
    while let Some(grapheme) = graphemes.next() {
        total += width(4, &grapheme);
    }
    assert_eq!(total, 3);
}

fn line_slice(text: &Rope, line_index: usize) -> RopeSlice {
    let line = text.line(line_index);
    let len = line.len_chars();
    if len > 0 && line.char(len - 1) == '\n' {
        text.slice(text.line_to_char(line_index)..text.line_to_char(line_index) + len - 1)
    } else {
        text.slice(text.line_to_char(line_index)..text.line_to_char(line_index) + len)
    }
}

#[test]
fn column_mapping_ascii() {
    let text = Rope::from("Hello world\n");
    let slice = line_slice(&text, 0);
    let line_char_start = text.line_to_char(0);
    let mapping =
        visual_column_range_to_char_range(4, &slice, line_char_start, 2, 5, RaggedLinePolicy::Empty);
    assert_eq!(mapping.char_range(), 2..5);
    assert!(!mapping.line_shorter_than_left);
}

#[test]
fn column_mapping_ascii_full_line() {
    let text = Rope::from("Hello world\n");
    let slice = line_slice(&text, 0);
    let line_char_start = text.line_to_char(0);
    let mapping =
        visual_column_range_to_char_range(4, &slice, line_char_start, 0, 11, RaggedLinePolicy::Empty);
    assert_eq!(mapping.char_range(), 0..11);
}

#[test]
fn column_mapping_cjk() {
    let text = Rope::from("AB漢D\n");
    let slice = line_slice(&text, 0);
    let line_char_start = text.line_to_char(0);
    let mapping =
        visual_column_range_to_char_range(4, &slice, line_char_start, 2, 5, RaggedLinePolicy::Empty);
    assert_eq!(mapping.char_range(), line_char_start + 2..line_char_start + 4);
}

#[test]
fn column_mapping_tab() {
    let text = Rope::from("A\tB\n");
    let slice = line_slice(&text, 0);
    let line_char_start = text.line_to_char(0);
    let mapping =
        visual_column_range_to_char_range(4, &slice, line_char_start, 1, 5, RaggedLinePolicy::Empty);
    assert_eq!(mapping.char_range(), line_char_start + 1..line_char_start + 2);
}

#[test]
fn column_mapping_short_line_before_left() {
    let text = Rope::from("Hi\nlonger line\n");
    let slice = line_slice(&text, 0);
    let line_char_start = text.line_to_char(0);
    let mapping =
        visual_column_range_to_char_range(4, &slice, line_char_start, 5, 8, RaggedLinePolicy::Empty);
    assert!(mapping.is_empty());
    assert!(mapping.line_shorter_than_left);
}

#[test]
fn column_mapping_line_ends_mid_range() {
    let text = Rope::from("Hello\n");
    let slice = line_slice(&text, 0);
    let line_char_start = text.line_to_char(0);
    let mapping =
        visual_column_range_to_char_range(4, &slice, line_char_start, 3, 8, RaggedLinePolicy::Empty);
    assert_eq!(mapping.char_range(), line_char_start + 3..line_char_start + 5);
    assert!(!mapping.line_shorter_than_left);
}

#[test]
fn column_mapping_zero_width() {
    let text = Rope::from("Hello\n");
    let slice = line_slice(&text, 0);
    let line_char_start = text.line_to_char(0);
    let mapping =
        visual_column_range_to_char_range(4, &slice, line_char_start, 3, 3, RaggedLinePolicy::Empty);
    assert!(mapping.is_empty());
}

#[test]
fn column_mapping_cjk_partial_overlap() {
    let text = Rope::from("漢字\n");
    let slice = line_slice(&text, 0);
    let line_char_start = text.line_to_char(0);
    let mapping =
        visual_column_range_to_char_range(4, &slice, line_char_start, 1, 3, RaggedLinePolicy::Empty);
    assert_eq!(mapping.char_range(), line_char_start + 0..line_char_start + 2);
}

#[test]
fn column_mapping_three_consumers_share_same_range() {
    let text = Rope::from("Hello\nWorld\nShort\n");
    let tab_width = 4;
    for line_idx in 0..3 {
        let slice = line_slice(&text, line_idx);
        let line_char_start = text.line_to_char(line_idx);
        for left in 0..8 {
            for right in left..8 {
                let mapping1 = visual_column_range_to_char_range(
                    tab_width,
                    &slice,
                    line_char_start,
                    left,
                    right,
                    RaggedLinePolicy::Empty,
                );
                let mapping2 = visual_column_range_to_char_range(
                    tab_width,
                    &slice,
                    line_char_start,
                    left,
                    right,
                    RaggedLinePolicy::Empty,
                );
                assert_eq!(mapping1, mapping2, "line={} left={} right={}", line_idx, left, right);
            }
        }
    }
}

#[test]
fn column_index_finds_the_grapheme_that_spans_a_column() {
    // A=0, tab=1..5, B=5: column 3 lies inside the tab, which starts at 1.
    let text = Rope::from("A\tB");
    assert_eq!(visual_column_to_char_index_pub(4, &text.slice(..), 3), (1, 1));
    assert_eq!(visual_column_to_char_index_pub(4, &text.slice(..), 5), (2, 5));
}

#[test]
fn graphemes_walk_with_byte_ranges() {
    let text = Rope::from("a漢\r\n");
    let slice = text.slice(..);
    let mut graphemes = RopeGraphemes::new(&slice);
    let first = graphemes.next().unwrap();
    assert_eq!((first.byte_start, first.byte_end), (0, 1));
    let second = graphemes.next().unwrap();
    assert_eq!((second.byte_start, second.byte_end), (1, 4));
    let third = graphemes.next().unwrap();
    assert_eq!(third.slice.to_string(), "\r\n");
    assert!(graphemes.next().is_none());
}

#[test]
fn strip_trailing_whitespace_per_line() {
    let text = Rope::from("a  \nb\t\n  \n\n");
    assert_eq!(strip_trailing_whitespace(text).to_string(), "a\nb\n");
}

#[test]
fn strip_trailing_whitespace_adds_final_newline() {
    let text = Rope::from("ab\ncd");
    assert_eq!(strip_trailing_whitespace(text).to_string(), "ab\ncd\n");
}

#[test]
fn strip_trailing_whitespace_keeps_a_blank_line_before_text() {
    let text = Rope::from("a\n   \nb\n");
    assert_eq!(strip_trailing_whitespace(text).to_string(), "a\n\nb\n");
}

#[test]
fn strip_trailing_whitespace_of_blank_text_is_empty() {
    let text = Rope::from("   \n \n");
    assert_eq!(strip_trailing_whitespace(text).to_string(), "");
}

#[test]
fn strip_trailing_whitespace_with_given_whitespace() {
    // Only 'x' counts as whitespace here.
    let text = Rope::from("axx \nbxx\n");
    let stripped = strip_trailing_whitespace_with(text, &vec!['x']);
    assert_eq!(stripped.to_string(), "axx \nb\n");
}

#[test]
fn strip_trailing_whitespace_drops_a_one_char_last_line() {
    // The last char of a line is never looked at, so a last line of one
    // char with no line break counts as blank.
    let text = Rope::from("a  \nb");
    assert_eq!(strip_trailing_whitespace(text).to_string(), "a\n");
}

#[test]
fn graphemes_walk_covers_the_slice() {
    let text = Rope::from("ae\u{301}漢\r\nz");
    let slice = text.slice(..);
    let mut graphemes = RopeGraphemes::new(&slice);
    let mut pieces = Vec::new();
    let mut expected_start = 0;
    let mut calls = 0;
    while let Some(grapheme) = graphemes.next() {
        calls += 1;
        assert_eq!(grapheme.byte_start, expected_start);
        assert!(grapheme.byte_start < grapheme.byte_end);
        expected_start = grapheme.byte_end;
        pieces.push(grapheme.slice.to_string());
    }
    assert!(calls <= text.len_chars());
    assert_eq!(expected_start, text.len_bytes());
    assert_eq!(pieces, vec!["a", "e\u{301}", "漢", "\r\n", "z"]);
    assert_eq!(pieces.concat(), text.to_string());
    assert!(graphemes.next().is_none());
}

#[test]
fn strip_trims_each_line_and_drops_blank_lines_at_the_end() {
    let text = Rope::from("ab  \n\t\n  x \n \n\n");
    assert_eq!(strip_trailing_whitespace(text).to_string(), "ab\n\n  x\n");
}
