//! Source locations and diagnostics.
use vstd::prelude::*;
use std::path::{Path, PathBuf};
use crate::paths::{clone_path_opt, display_path, displayed_path, owned_path_opt, to_path_buf_opt};
use crate::text::{chars_of, opt_str};

verus! {

/// A line and column (both counted from 1) in a file.
#[derive(Debug, PartialEq, Eq)]
pub struct SourceLocation {
    pub file: Option<PathBuf>,
    pub line: usize,
    pub column: usize,
}

impl Clone for SourceLocation {
    fn clone(&self) -> (r: Self)
        ensures
            r == *self,
    {
        SourceLocation { file: clone_path_opt(&self.file), line: self.line, column: self.column }
    }
}

/// Number of line feeds in `t`.
pub open spec fn newlines(t: Seq<char>) -> nat
    decreases t.len(),
{
    if t.len() == 0 {
        0
    } else {
        newlines(t.drop_last()) + if t.last() == '\n' {
            1nat
        } else {
            0nat
        }
    }
}

/// The column of the position right after `t`: one more than the number of
/// characters since the last line feed.
pub open spec fn column_after(t: Seq<char>) -> nat
    decreases t.len(),
{
    if t.len() == 0 {
        1
    } else if t.last() == '\n' {
        1
    } else {
        column_after(t.drop_last()) + 1
    }
}

/// The location of the character at index `k` of `s`.
pub open spec fn location_at(file: Option<PathBuf>, s: Seq<char>, k: int) -> SourceLocation {
    SourceLocation {
        file,
        line: (1 + newlines(s.take(k))) as usize,
        column: column_after(s.take(k)) as usize,
    }
}

/// UTF-8 width of a character (`char::len_utf8`).
pub open spec fn utf8_len(c: char) -> int {
    if (c as u32) < 0x80 {
        1
    } else if (c as u32) < 0x800 {
        2
    } else if (c as u32) < 0x10000 {
        3
    } else {
        4
    }
}

/// How many characters of `s`, from index `i` on, start before byte offset
/// `offset`, when character `i` starts at byte `byte`: the index of the
/// character that the byte offset reaches.
pub open spec fn chars_before(s: Seq<char>, i: int, byte: int, offset: int) -> int
    decreases s.len() - i,
{
    if 0 <= i < s.len() && byte < offset {
        chars_before(s, i + 1, byte + utf8_len(s[i]), offset)
    } else {
        i
    }
}

pub proof fn lemma_chars_before(s: Seq<char>, i: int, byte: int, offset: int)
    requires
        0 <= i <= s.len(),
    ensures
        i <= chars_before(s, i, byte, offset) <= s.len(),
    decreases s.len() - i,
{
    if 0 <= i < s.len() && byte < offset {
        lemma_chars_before(s, i + 1, byte + utf8_len(s[i]), offset);
    }
}

/// The location of the character at index `k` of `s`.
pub fn location_at_index(file: Option<&Path>, s: &[char], k: usize) -> (r: SourceLocation)
    requires
        k <= s@.len() < usize::MAX,
    ensures
        r == location_at(owned_path_opt(file), s@, k as int),
{
    let mut line: usize = 1;
    let mut column: usize = 1;
    let mut i: usize = 0;
    while i < k
        invariant
            i <= k <= s@.len() < usize::MAX,
            line == 1 + newlines(s@.take(i as int)),
            column == column_after(s@.take(i as int)),
            line <= i + 1,
            column <= i + 1,
        decreases k - i,
    {
        proof {
            assert(s@.take(i + 1).drop_last() =~= s@.take(i as int));
        }
        if s[i] == '\n' {
            line = line + 1;
            column = 1;
        } else {
            column = column + 1;
        }
        i = i + 1;
    }
    SourceLocation { file: to_path_buf_opt(file), line, column }
}

impl SourceLocation {
    pub fn new(file: Option<PathBuf>, line: usize, column: usize) -> (r: Self)
        ensures
            r.file == file,
            r.line == line,
            r.column == column,
    {
        Self { file, line, column }
    }

    /// The location of byte offset `offset` in `source`: the line counts the
    /// line feeds before it, the column the characters since the last one.
    /// An offset past the end gives the location of the end.
    pub fn at_offset(file: Option<&Path>, source: &str, offset: usize) -> (r: Self)
        requires
            source@.len() < usize::MAX,
        ensures
            r == location_at(
                owned_path_opt(file),
                source@,
                chars_before(source@, 0, 0, offset as int),
            ),
    {
        let chars = chars_of(source);
        let s = chars.as_slice();
        proof {
            lemma_chars_before(s@, 0, 0, offset as int);
        }
        let mut i: usize = 0;
        let mut remaining: usize = offset;
        let ghost mut byte: int = 0;
        while i < s.len() && remaining > 0
            invariant
                i <= s@.len(),
                s@ == source@,
                remaining == (if byte < offset { offset - byte } else { 0 }),
                byte >= 0,
                chars_before(s@, i as int, byte, offset as int) == chars_before(
                    s@,
                    0,
                    0,
                    offset as int,
                ),
            decreases s@.len() - i,
        {
            let c = s[i];
            let width: usize = if (c as u32) < 0x80 {
                1
            } else if (c as u32) < 0x800 {
                2
            } else if (c as u32) < 0x10000 {
                3
            } else {
                4
            };
            remaining = if remaining > width {
                remaining - width
            } else {
                0
            };
            proof {
                byte = byte + utf8_len(c);
            }
            i = i + 1;
        }
        location_at_index(file, s, i)
    }
}

pub type JppResult<T> = Result<T, Diagnostic>;

/// A problem found in a source file, with a code, a message, an optional
/// suggestion and where it was found.
#[derive(Debug, Clone, PartialEq, Eq)]
pub struct Diagnostic {
    pub code: &'static str,
    pub message: String,
    pub suggestion: Option<String>,
    pub location: SourceLocation,
}

/// The content of a diagnostic.
pub struct DiagnosticView {
    pub code: Seq<char>,
    pub message: Seq<char>,
    pub suggestion: Option<Seq<char>>,
    pub location: SourceLocation,
}

impl View for Diagnostic {
    type V = DiagnosticView;

    open spec fn view(&self) -> DiagnosticView {
        DiagnosticView {
            code: self.code@,
            message: self.message@,
            suggestion: opt_str(self.suggestion),
            location: self.location,
        }
    }
}

/// A diagnostic without a suggestion.
pub open spec fn diag(code: Seq<char>, message: Seq<char>, location: SourceLocation) -> DiagnosticView {
    DiagnosticView { code, message, suggestion: None, location }
}

/// A diagnostic with a suggestion.
pub open spec fn diag_hint(
    code: Seq<char>,
    message: Seq<char>,
    suggestion: Seq<char>,
    location: SourceLocation,
) -> DiagnosticView {
    DiagnosticView { code, message, suggestion: Some(suggestion), location }
}

impl Diagnostic {
    pub fn new(code: &'static str, message: String, location: SourceLocation) -> (d: Self)
        ensures
            d.code == code,
            d.message == message,
            d.suggestion is None,
            d.location == location,
            d@ == diag(code@, message@, location),
    {
        Self { code, message, suggestion: None, location }
    }

    pub fn with_suggestion(self, suggestion: String) -> (d: Self)
        ensures
            d.code == self.code,
            d.message == self.message,
            d.suggestion == Some(suggestion),
            d.location == self.location,
            d@ == diag_hint(self.code@, self.message@, suggestion@, self.location),
    {
        let mut d = self;
        d.suggestion = Some(suggestion);
        d
    }

    /// The diagnostic as text: the location (`file:line:column`, or
    /// `line:column` without a file), a blank line, `code:`, the message and,
    /// if there is one, a blank line and `Suggestion: ...`; each line ends
    /// with a line feed.
    pub fn render(&self) -> (r: String)
        ensures
            r@ == rendered(self@),
    {
        let mut out = String::new();
        match &self.location.file {
            Some(file) => {
                let shown = display_path(file);
                out.append(shown.as_str());
                out.append(":");
            },
            None => {},
        }
        push_decimal(&mut out, self.location.line);
        out.append(":");
        push_decimal(&mut out, self.location.column);
        out.append("\n");
        out.append("\n");
        out.append(self.code);
        out.append(":\n");
        out.append(self.message.as_str());
        out.append("\n");
        match &self.suggestion {
            Some(suggestion) => {
                out.append("\n");
                out.append("Suggestion: ");
                out.append(suggestion.as_str());
                out.append("\n");
            },
            None => {},
        }
        assert(out@ =~= rendered(self@));
        out
    }
}

/// Decimal digits of `n`.
pub open spec fn decimal(n: nat) -> Seq<char>
    decreases n,
{
    if n < 10 {
        seq![((48 + n) as u8) as char]
    } else {
        decimal(n / 10).push(((48 + n % 10) as u8) as char)
    }
}

pub fn push_decimal(out: &mut String, n: usize)
    ensures
        final(out)@ == old(out)@ + decimal(n as nat),
    decreases n,
{
    if n >= 10 {
        push_decimal(out, n / 10);
    }
    let digit = (48 + (n % 10) as u8) as char;
    out.push(digit);
    assert(out@ =~= old(out)@ + decimal(n as nat));
}

/// The text of a rendered diagnostic.
pub open spec fn rendered(d: DiagnosticView) -> Seq<char> {
    let place = match d.location.file {
        Some(f) => displayed_path(f) + ":"@,
        None => seq![],
    };
    let head = place + decimal(d.location.line as nat) + ":"@ + decimal(d.location.column as nat)
        + "\n"@;
    let body = "\n"@ + d.code + ":\n"@ + d.message + "\n"@;
    let tail = match d.suggestion {
        Some(s) => "\n"@ + "Suggestion: "@ + s + "\n"@,
        None => seq![],
    };
    head + body + tail
}

} // verus!
