//! Character stream used for parsing.

use crate::parse::util::{char_is_alphabetic, char_is_whitespace, unicode_alphabetic, unicode_whitespace};
use crate::text::{chars_of, string_push};
use vstd::prelude::*;

verus! {

/// The line and column (both starting at 1) reached after reading the first `n`
/// characters of `s`: a newline moves to column 1 of the next line, any other character
/// moves one column right.
pub open spec fn line_col(s: Seq<char>, n: nat) -> (nat, nat)
    decreases n,
{
    if n == 0 || n > s.len() {
        (1, 1)
    } else {
        let (l, c) = line_col(s, (n - 1) as nat);
        if s[n - 1] == '\n' {
            (l + 1, 1)
        } else {
            (l, c + 1)
        }
    }
}

/// Where the whitespace and comments that start at `i` end. Comments run from '#' to the
/// end of the line; `in_comment` says whether `i` is inside one.
pub open spec fn skip_ws_end(s: Seq<char>, i: int, in_comment: bool) -> int
    decreases s.len() - i,
{
    if i < 0 || i >= s.len() {
        s.len() as int
    } else if in_comment {
        if s[i] == '\n' {
            skip_ws_end(s, i + 1, false)
        } else {
            skip_ws_end(s, i + 1, true)
        }
    } else if s[i] == '#' {
        skip_ws_end(s, i + 1, true)
    } else if unicode_whitespace(s[i]) {
        skip_ws_end(s, i + 1, false)
    } else {
        i
    }
}

/// Inside a comment, every character up to the next line feed is skipped, a '#' among them.
proof fn lemma_comment_body(s: Seq<char>, j: int, k: int)
    requires
        0 <= j <= k <= s.len(),
        forall|m: int| j <= m < k ==> s[m] != '\n',
    ensures
        skip_ws_end(s, j, true) == skip_ws_end(s, k, true),
    decreases k - j,
{
    if j < k {
        lemma_comment_body(s, j + 1, k);
    }
}

/// A comment runs from its '#' to the first line feed after it, whatever lies between, other
/// '#' characters included: skipping whitespace from the '#' at `p` goes on as from that line
/// feed at `k` (or stops at the end of the text when no line feed follows).
pub proof fn lemma_comment_runs_to_newline(s: Seq<char>, p: int, k: int)
    requires
        0 <= p < k <= s.len(),
        s[p] == '#',
        forall|m: int| p < m < k ==> s[m] != '\n',
        k == s.len() || s[k] == '\n',
    ensures
        skip_ws_end(s, p, false) == skip_ws_end(s, k, false),
{
    lemma_comment_body(s, p + 1, k);
    if k < s.len() {
        assert(unicode_whitespace(s[k]));
    }
}

/// Skipping whitespace and comments from `i` stops at the end of the text or at a character
/// that is neither whitespace nor the start of a comment, never before `i`; outside a comment,
/// a character that is neither is where it stops at once.
pub proof fn lemma_skip_ws_stop(s: Seq<char>, i: int, in_comment: bool)
    requires
        0 <= i <= s.len(),
    ensures
        i <= skip_ws_end(s, i, in_comment) <= s.len(),
        skip_ws_end(s, i, in_comment) < s.len() ==> !unicode_whitespace(s[skip_ws_end(s, i, in_comment)])
            && s[skip_ws_end(s, i, in_comment)] != '#',
        !in_comment && i < s.len() && !unicode_whitespace(s[i]) && s[i] != '#' ==> skip_ws_end(s, i, in_comment) == i,
    decreases s.len() - i,
{
    if i < s.len() {
        if in_comment {
            lemma_skip_ws_stop(s, i + 1, s[i] != '\n');
        } else if s[i] == '#' {
            lemma_skip_ws_stop(s, i + 1, true);
        } else if unicode_whitespace(s[i]) {
            lemma_skip_ws_stop(s, i + 1, false);
        }
    }
}

/// An ASCII digit, as `u8::is_ascii_digit` on the byte.
pub open spec fn is_ascii_digit(c: char) -> bool {
    '0' <= c && c <= '9'
}

/// A character valid after the first one of a field name: alphabetic, an ASCII digit or '_'.
pub open spec fn is_field_run_char(c: char) -> bool {
    unicode_alphabetic(c) || is_ascii_digit(c) || c == '_'
}

/// A character of a string body: neither a quote nor a backslash.
pub open spec fn is_str_span_char(c: char) -> bool {
    c != '"' && c != '\\'
}

/// The end of the run of digits that starts at `i`.
pub open spec fn digits_end(s: Seq<char>, i: int) -> int
    decreases s.len() - i,
{
    if i < 0 || i >= s.len() || !is_ascii_digit(s[i]) {
        if i < 0 { 0 } else if i > s.len() { s.len() as int } else { i }
    } else {
        digits_end(s, i + 1)
    }
}

/// The end of the run of field characters that starts at `i`.
pub open spec fn field_chars_end(s: Seq<char>, i: int) -> int
    decreases s.len() - i,
{
    if i < 0 || i >= s.len() || !is_field_run_char(s[i]) {
        if i < 0 { 0 } else if i > s.len() { s.len() as int } else { i }
    } else {
        field_chars_end(s, i + 1)
    }
}

/// The end of the run of string-body characters that starts at `i`.
pub open spec fn str_span_end(s: Seq<char>, i: int) -> int
    decreases s.len() - i,
{
    if i < 0 || i >= s.len() || !is_str_span_char(s[i]) {
        if i < 0 { 0 } else if i > s.len() { s.len() as int } else { i }
    } else {
        str_span_end(s, i + 1)
    }
}

/// A stream of characters with the line and column of the next one.
#[derive(Debug)]
pub struct CharStream {
    /// The file the characters came from, if any.
    pub file: Option<String>,
    /// All characters of the input.
    pub contents: Vec<char>,
    /// Index of the next character in `contents`.
    pub pos: usize,
    /// Line of the next character.
    pub line: usize,
    /// Column of the next character.
    pub col: usize,
}

/// Line and column never exceed the number of characters read, plus one.
pub proof fn lemma_line_col_bound(s: Seq<char>, n: nat)
    ensures
        line_col(s, n).0 >= 1,
        line_col(s, n).1 >= 1,
        line_col(s, n).0 + line_col(s, n).1 <= n + 2,
    decreases n,
{
    if n > 0 && n <= s.len() {
        lemma_line_col_bound(s, (n - 1) as nat);
    }
}

impl CharStream {
    /// The stream is consistent: the position is within the input, the input's length
    /// leaves room to count, and line and column are those of the position.
    pub open spec fn wf(&self) -> bool {
        &&& self.pos <= self.contents@.len()
        &&& self.contents@.len() < usize::MAX / 2
        &&& self.line == line_col(self.contents@, self.pos as nat).0
        &&& self.col == line_col(self.contents@, self.pos as nat).1
    }

    /// The characters of the input.
    pub open spec fn chars(&self) -> Seq<char> {
        self.contents@
    }

    /// Same input and file, with the position at `p`.
    pub open spec fn moved_to(&self, other: &CharStream, p: int) -> bool {
        &&& other.contents@ == self.contents@
        &&& other.file == self.file
        &&& other.pos == p
        &&& other.wf()
    }

    /// A stream over `contents`, from the start; `file` names where it came from. None when
    /// the input holds too many characters to count lines and columns in a `usize`.
    pub fn from_string_impl(file: Option<String>, contents: &str) -> (r: Option<CharStream>)
        ensures
            r matches Some(st) ==> {
                &&& st.wf()
                &&& st.contents@ == contents@
                &&& st.pos == 0
                &&& st.file == file
            },
            r is None <==> contents@.len() >= usize::MAX / 2,
    {
        let chars = chars_of(contents);
        if chars.len() >= usize::MAX / 2 {
            return None;
        }
        Some(CharStream { file, contents: chars, pos: 0, line: 1, col: 1 })
    }

    /// A stream over `contents`, from the start, with no file. None when the input holds too
    /// many characters to count lines and columns in a `usize`.
    pub fn from_string(contents: &str) -> (r: Option<CharStream>)
        ensures
            r matches Some(st) ==> {
                &&& st.wf()
                &&& st.contents@ == contents@
                &&& st.pos == 0
                &&& st.file is None
            },
            r is None <==> contents@.len() >= usize::MAX / 2,
    {
        Self::from_string_impl(None, contents)
    }

    /// The next character, if any.
    pub open spec fn peek_spec(&self) -> Option<char> {
        if self.pos < self.contents@.len() {
            Some(self.contents@[self.pos as int])
        } else {
            None
        }
    }

    /// The next character, without consuming it.
    pub fn peek(&self) -> (r: Option<char>)
        requires
            self.wf(),
        ensures
            r == self.peek_spec(),
    {
        if self.pos < self.contents.len() {
            Some(self.contents[self.pos])
        } else {
            None
        }
    }

    /// The file the characters came from, if any.
    pub fn file(&self) -> (r: Option<String>)
        ensures
            r == self.file,
    {
        match &self.file {
            Some(f) => Some(f.clone()),
            None => None,
        }
    }

    /// The line of the next character.
    pub fn line(&self) -> (r: usize)
        ensures
            r == self.line,
    {
        self.line
    }

    /// The column of the next character.
    pub fn col(&self) -> (r: usize)
        ensures
            r == self.col,
    {
        self.col
    }

    /// Consumes one character, keeping line and column up to date.
    fn advance(&mut self)
        requires
            old(self).wf(),
            old(self).pos < old(self).contents@.len(),
        ensures
            old(self).moved_to(final(self), old(self).pos + 1),
    {
        proof {
            lemma_line_col_bound(self.contents@, self.pos as nat);
        }
        if self.contents[self.pos] == '\n' {
            self.line = self.line + 1;
            self.col = 1;
        } else {
            self.col = self.col + 1;
        }
        self.pos = self.pos + 1;
    }

    /// Consumes and returns the next character, if any.
    pub fn next(&mut self) -> (r: Option<char>)
        requires
            old(self).wf(),
        ensures
            old(self).pos < old(self).contents@.len() ==> {
                &&& r == Some(old(self).contents@[old(self).pos as int])
                &&& old(self).moved_to(final(self), old(self).pos + 1)
            },
            old(self).pos >= old(self).contents@.len() ==> {
                &&& r is None
                &&& *final(self) == *old(self)
            },
    {
        if self.pos < self.contents.len() {
            let ch = self.contents[self.pos];
            self.advance();
            Some(ch)
        } else {
            None
        }
    }

    /// Skips whitespace and comments, stopping at the next significant character.
    /// Returns true if such a character was found or false if we got to the end of the stream.
    pub fn skip_whitespace(&mut self) -> (r: bool)
        requires
            old(self).wf(),
        ensures
            old(self).moved_to(final(self), skip_ws_end(old(self).contents@, old(self).pos as int, false)),
            final(self).pos >= old(self).pos,
            r == (final(self).pos < final(self).contents@.len()),
    {
        let ghost start = self.pos as int;
        let ghost s = self.contents@;
        let mut in_comment = false;
        let n = self.contents.len();
        while self.pos < n && (in_comment || self.contents[self.pos] == '#' || char_is_whitespace(
            self.contents[self.pos],
        ))
            invariant
                self.wf(),
                self.contents@ == s,
                self.file == old(self).file,
                n == s.len(),
                start <= self.pos,
                skip_ws_end(s, start, false) == skip_ws_end(s, self.pos as int, in_comment),
            decreases n - self.pos,
        {
            let ch = self.contents[self.pos];
            if in_comment {
                if ch == '\n' {
                    in_comment = false;
                }
            } else if ch == '#' {
                in_comment = true;
            }
            self.advance();
        }
        self.pos < n
    }

    /// Consumes a run of ASCII digits, appending them to `out`.
    /// Returns the number of digits consumed.
    pub fn take_digits(&mut self, out: &mut String) -> (r: usize)
        requires
            old(self).wf(),
        ensures
            old(self).moved_to(final(self), digits_end(old(self).contents@, old(self).pos as int)),
            final(self).pos >= old(self).pos,
            final(out)@ == old(out)@ + old(self).contents@.subrange(
                old(self).pos as int,
                final(self).pos as int,
            ),
            r == final(self).pos - old(self).pos,
    {
        let ghost s = self.contents@;
        let start = self.pos;
        let n = self.contents.len();
        while self.pos < n && is_digit_char(self.contents[self.pos])
            invariant
                self.wf(),
                self.contents@ == s,
                self.file == old(self).file,
                n == s.len(),
                start <= self.pos,
                digits_end(s, start as int) == digits_end(s, self.pos as int),
                out@ == old(out)@ + s.subrange(start as int, self.pos as int),
            decreases n - self.pos,
        {
            string_push(out, self.contents[self.pos]);
            proof {
                assert(s.subrange(start as int, self.pos + 1) =~= s.subrange(start as int, self.pos as int).push(s[self.pos as int]));
            }
            self.advance();
        }
        self.pos - start
    }

    /// Consumes a run of characters valid as non-first field characters (alphabetic, digit,
    /// or '_'), appending them to `out`.
    pub fn take_field_chars(&mut self, out: &mut String)
        requires
            old(self).wf(),
        ensures
            old(self).moved_to(final(self), field_chars_end(old(self).contents@, old(self).pos as int)),
            final(self).pos >= old(self).pos,
            final(out)@ == old(out)@ + old(self).contents@.subrange(
                old(self).pos as int,
                final(self).pos as int,
            ),
    {
        let ghost s = self.contents@;
        let start = self.pos;
        let n = self.contents.len();
        while self.pos < n && is_field_run(self.contents[self.pos])
            invariant
                self.wf(),
                self.contents@ == s,
                self.file == old(self).file,
                n == s.len(),
                start <= self.pos,
                field_chars_end(s, start as int) == field_chars_end(s, self.pos as int),
                out@ == old(out)@ + s.subrange(start as int, self.pos as int),
            decreases n - self.pos,
        {
            string_push(out, self.contents[self.pos]);
            proof {
                assert(s.subrange(start as int, self.pos + 1) =~= s.subrange(start as int, self.pos as int).push(s[self.pos as int]));
            }
            self.advance();
        }
    }

    /// Consumes characters up to (but not including) the next '"', '\\', or the end of the
    /// stream, appending them to `out`.
    pub fn take_str_span(&mut self, out: &mut String)
        requires
            old(self).wf(),
        ensures
            old(self).moved_to(final(self), str_span_end(old(self).contents@, old(self).pos as int)),
            final(self).pos >= old(self).pos,
            final(out)@ == old(out)@ + old(self).contents@.subrange(
                old(self).pos as int,
                final(self).pos as int,
            ),
    {
        let ghost s = self.contents@;
        let start = self.pos;
        let n = self.contents.len();
        while self.pos < n && self.contents[self.pos] != '"' && self.contents[self.pos] != '\\'
            invariant
                self.wf(),
                self.contents@ == s,
                self.file == old(self).file,
                n == s.len(),
                start <= self.pos,
                str_span_end(s, start as int) == str_span_end(s, self.pos as int),
                out@ == old(out)@ + s.subrange(start as int, self.pos as int),
            decreases n - self.pos,
        {
            string_push(out, self.contents[self.pos]);
            proof {
                assert(s.subrange(start as int, self.pos + 1) =~= s.subrange(start as int, self.pos as int).push(s[self.pos as int]));
            }
            self.advance();
        }
    }
}

/// An ASCII digit.
fn is_digit_char(c: char) -> (r: bool)
    ensures
        r == is_ascii_digit(c),
{
    '0' <= c && c <= '9'
}

/// A character valid after the first one of a field name.
fn is_field_run(c: char) -> (r: bool)
    ensures
        r == is_field_run_char(c),
{
    if ('a' <= c && c <= 'z') || ('A' <= c && c <= 'Z') || ('0' <= c && c <= '9') || c == '_' {
        true
    } else if (c as u32) < 0x80 {
        false
    } else {
        char_is_alphabetic(c)
    }
}

} // verus!
