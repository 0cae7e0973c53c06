//! The most recent rectangle kill: the lines that a rectangle copy or cut
//! took, and the text it put on the clipboard, so that a later yank can tell
//! whether the clipboard still holds that rectangle.
use vstd::prelude::*;

use crate::graphemes::chars_of_str;
use crate::text::string_push;

verus! {

/// The lines a rectangle copy or cut took (a line too short for the
/// rectangle gives an empty string) and the `\n`-joined text it put on the
/// clipboard.
#[derive(Clone, Debug, PartialEq, Eq)]
pub struct RectangleKill {
    pub lines: Vec<String>,
    pub clipboard_text: String,
}

/// The chars of each string, in order.
pub open spec fn string_views(strings: Seq<String>) -> Seq<Seq<char>> {
    strings.map_values(|s: String| s@)
}

impl RectangleKill {
    pub open spec fn view(&self) -> (Seq<Seq<char>>, Seq<char>) {
        (string_views(self.lines@), self.clipboard_text@)
    }
}

/// Whether the char at `i` stays when `\r\n` is turned into `\n`: every char
/// but a `\r` that a `\n` follows.
pub open spec fn keeps_char(s: Seq<char>, i: int) -> bool {
    !(s[i] == '\r' && i + 1 < s.len() && s[i + 1] == '\n')
}

/// The first `n` chars of `s` with each `\r\n` turned into `\n`.
pub open spec fn crlf_normalized_upto(s: Seq<char>, n: int) -> Seq<char>
    decreases n,
{
    if n <= 0 {
        Seq::empty()
    } else if keeps_char(s, n - 1) {
        crlf_normalized_upto(s, n - 1).push(s[n - 1])
    } else {
        crlf_normalized_upto(s, n - 1)
    }
}

/// `s` with each `\r\n` turned into `\n`.
pub open spec fn crlf_normalized(s: Seq<char>) -> Seq<char> {
    crlf_normalized_upto(s, s.len() as int)
}

/// What a peek gives for a recorded kill and the clipboard's contents: the
/// lines, where the clipboard holds the recorded text up to `\r\n` against
/// `\n`; nothing otherwise.
pub open spec fn peek_result(
    recorded: Option<(Seq<Seq<char>>, Seq<char>)>,
    clipboard: Seq<char>,
) -> Option<Seq<Seq<char>>> {
    match recorded {
        Some((lines, text)) => if crlf_normalized(text) == crlf_normalized(clipboard) {
            Some(lines)
        } else {
            None
        },
        None => None,
    }
}

/// The store of the most recent rectangle kill.
#[derive(Clone, Debug)]
pub struct RectangleKillStore {
    kill: Option<RectangleKill>,
}

impl RectangleKillStore {
    /// The recorded kill, if any.
    pub closed spec fn view(&self) -> Option<(Seq<Seq<char>>, Seq<char>)> {
        match self.kill {
            Some(kill) => Some(kill.view()),
            None => None,
        }
    }

    pub fn new() -> (store: Self)
        ensures
            store@ is None,
    {
        Self { kill: None }
    }

    /// The recorded kill, if any.
    pub fn kill(&self) -> (kill: Option<&RectangleKill>)
        ensures
            match self@ {
                Some(v) => kill matches Some(k) && k.view() == v,
                None => kill is None,
            },
    {
        self.kill.as_ref()
    }

    /// Records a rectangle kill, in place of any earlier one.
    pub fn record(&mut self, lines: Vec<String>, clipboard_text: String)
        ensures
            final(self)@ == Some((string_views(lines@), clipboard_text@)),
    {
        self.kill = Some(RectangleKill { lines, clipboard_text });
    }

    /// Forgets the recorded kill.
    pub fn clear(&mut self)
        ensures
            final(self)@ is None,
    {
        self.kill = None;
    }

    /// The recorded lines, where the clipboard still holds the text that was
    /// recorded with them (`\r\n` and `\n` taken as the same). The record
    /// stays.
    pub fn peek(&self, clipboard_contents: &str) -> (lines: Option<Vec<String>>)
        ensures
            match lines {
                Some(lines) => peek_result(self@, clipboard_contents@) == Some(
                    string_views(lines@),
                ),
                None => peek_result(self@, clipboard_contents@) is None,
            },
    {
        let kill = match &self.kill {
            Some(kill) => kill,
            None => return None,
        };
        let stored = normalize_newlines(kill.clipboard_text.as_str());
        let current = normalize_newlines(clipboard_contents);
        if stored == current {
            Some(clone_strings(&kill.lines))
        } else {
            None
        }
    }
}

/// A copy of each string, in order.
fn clone_strings(strings: &Vec<String>) -> (copy: Vec<String>)
    ensures
        string_views(copy@) == string_views(strings@),
{
    let mut copy: Vec<String> = Vec::new();
    for i in 0..strings.len()
        invariant
            copy@.len() == i,
            forall|j: int| 0 <= j < i ==> #[trigger] copy@[j]@ == strings@[j]@,
    {
        copy.push(strings[i].clone());
    }
    assert(string_views(copy@) =~= string_views(strings@));
    copy
}

/// `s` with each `\r\n` turned into `\n`.
fn normalize_newlines(s: &str) -> (normalized: String)
    ensures
        normalized@ == crlf_normalized(s@),
{
    let chars = chars_of_str(s);
    let mut normalized = String::new();
    let n = chars.len();
    for i in 0..n
        invariant
            n == chars@.len(),
            chars@ == s@,
            normalized@ == crlf_normalized_upto(s@, i as int),
    {
        let keep = !(chars[i] == '\r' && i + 1 < n && chars[i + 1] == '\n');
        if keep {
            string_push(&mut normalized, chars[i]);
        }
    }
    normalized
}

/// A kill that was just recorded is what a peek gives while the clipboard
/// holds its text, up to `\r\n` against `\n`.
pub proof fn lemma_peek_after_record(
    lines: Seq<Seq<char>>,
    clipboard_text: Seq<char>,
    clipboard: Seq<char>,
)
    requires
        crlf_normalized(clipboard) == crlf_normalized(clipboard_text),
    ensures
        peek_result(Some((lines, clipboard_text)), clipboard) == Some(lines),
{
}

/// Once the clipboard holds other text than the recorded one (beyond
/// `\r\n` against `\n`), or nothing was recorded, a peek gives nothing.
pub proof fn lemma_peek_stale(
    recorded: Option<(Seq<Seq<char>>, Seq<char>)>,
    clipboard: Seq<char>,
)
    requires
        recorded matches Some((_, text)) ==> crlf_normalized(text) != crlf_normalized(clipboard),
    ensures
        peek_result(recorded, clipboard) is None,
{
}

} // verus!
