//! Scanning of `.jpp` source text: where extension islands start, where a
//! declaration header ends, matching braces, mapper statements, set blocks,
//! body edges and the class name.
//!
//! String and character literals (with backslash escapes) are tracked so
//! that delimiters inside them are not taken for structure.
use vstd::prelude::*;
use crate::text::{
    all_ws, is_ascii_alpha, is_ascii_alphabetic, is_ascii_digit, is_whitespace, is_ws, is_ascii_alnum, is_ascii_alphanumeric, is_blank_range, join, join_spans, line_spans,
    lines, newline_from, lemma_newline_from, matches_at, range_is, span_texts, spans_int,
    string_of_range, opt_str,
};

verus! {

/// Whether a scan is inside a string literal, a character literal, or right
/// after a backslash inside one of them.
pub struct QuoteState {
    pub in_string: bool,
    pub in_char: bool,
    pub escaped: bool,
}

pub open spec fn quotes(in_string: bool, in_char: bool, escaped: bool) -> QuoteState {
    QuoteState { in_string, in_char, escaped }
}

pub open spec fn quote_start() -> QuoteState {
    quotes(false, false, false)
}

/// Outside literals and not right after an escaping backslash.
pub open spec fn in_code(st: QuoteState) -> bool {
    !st.escaped && !st.in_string && !st.in_char
}

/// The state after reading `c` in state `st`.
pub open spec fn quote_step(st: QuoteState, c: char) -> QuoteState {
    if st.escaped {
        quotes(st.in_string, st.in_char, false)
    } else if c == '\\' && (st.in_string || st.in_char) {
        quotes(st.in_string, st.in_char, true)
    } else if c == '"' && !st.in_char {
        quotes(!st.in_string, st.in_char, false)
    } else if c == '\'' && !st.in_string {
        quotes(st.in_string, !st.in_char, false)
    } else {
        st
    }
}

// ---------------------------------------------------------------------------
// Header end
// ---------------------------------------------------------------------------
/// The first `;` or `{` in code at or after `i` (before `end`).
pub open spec fn header_scan(s: Seq<char>, i: int, end: int, st: QuoteState) -> Option<int>
    decreases end - i,
{
    if i < 0 || i >= end {
        None
    } else if in_code(st) && (s[i] == ';' || s[i] == '{') {
        Some(i)
    } else {
        header_scan(s, i + 1, end, quote_step(st, s[i]))
    }
}

pub proof fn lemma_header_scan(s: Seq<char>, i: int, end: int, st: QuoteState)
    requires
        0 <= i,
        end <= s.len(),
    ensures
        header_scan(s, i, end, st) matches Some(k) ==> i <= k < end && (s[k] == ';' || s[k]
            == '{'),
    decreases end - i,
{
    if 0 <= i < end && !(in_code(st) && (s[i] == ';' || s[i] == '{')) {
        lemma_header_scan(s, i + 1, end, quote_step(st, s[i]));
    }
}

/// Position of the `;` or `{` that ends the declaration header starting at
/// `from`.
pub fn find_header_end(s: &[char], from: usize) -> (r: Option<usize>)
    requires
        from <= s@.len(),
    ensures
        r matches Some(k) ==> header_scan(s@, from as int, s@.len() as int, quote_start()) == Some(
            k as int,
        ),
        r is None ==> header_scan(s@, from as int, s@.len() as int, quote_start()) is None,
{
    let mut in_string = false;
    let mut in_char = false;
    let mut escaped = false;
    let mut index = from;
    while index < s.len()
        invariant
            from <= index <= s@.len(),
            header_scan(s@, index as int, s@.len() as int, quotes(in_string, in_char, escaped))
                == header_scan(s@, from as int, s@.len() as int, quote_start()),
        decreases s@.len() - index,
    {
        let ch = s[index];
        if escaped {
            escaped = false;
        } else if ch == '\\' && (in_string || in_char) {
            escaped = true;
        } else if ch == '"' && !in_char {
            in_string = !in_string;
        } else if ch == '\'' && !in_string {
            in_char = !in_char;
        } else if (ch == ';' || ch == '{') && !in_string && !in_char {
            return Some(index);
        }
        index = index + 1;
    }
    None
}

// ---------------------------------------------------------------------------
// Matching brace
// ---------------------------------------------------------------------------
/// The `}` in code that brings the brace nesting `depth` back to zero.
pub open spec fn brace_scan(s: Seq<char>, i: int, end: int, st: QuoteState, depth: int) -> Option<
    int,
>
    decreases end - i,
{
    if i < 0 || i >= end {
        None
    } else if in_code(st) && s[i] == '{' {
        brace_scan(s, i + 1, end, st, depth + 1)
    } else if in_code(st) && s[i] == '}' {
        if depth - 1 == 0 {
            Some(i)
        } else {
            brace_scan(s, i + 1, end, st, depth - 1)
        }
    } else {
        brace_scan(s, i + 1, end, quote_step(st, s[i]), depth)
    }
}

/// The `}` (before `end`) that closes the `{` at `open`.
pub open spec fn matching_brace(s: Seq<char>, open: int, end: int) -> Option<int> {
    brace_scan(s, open, end, quote_start(), 0)
}

pub proof fn lemma_brace_scan(s: Seq<char>, i: int, end: int, st: QuoteState, depth: int)
    requires
        0 <= i,
        end <= s.len(),
    ensures
        brace_scan(s, i, end, st, depth) matches Some(k) ==> i <= k < end && s[k] == '}',
    decreases end - i,
{
    if 0 <= i < end {
        if in_code(st) && s[i] == '{' {
            lemma_brace_scan(s, i + 1, end, st, depth + 1);
        } else if in_code(st) && s[i] == '}' {
            if depth - 1 != 0 {
                lemma_brace_scan(s, i + 1, end, st, depth - 1);
            }
        } else {
            lemma_brace_scan(s, i + 1, end, quote_step(st, s[i]), depth);
        }
    }
}

/// Whether the scan from `i` meets a `}` in code while no `{` is open, where
/// its nesting count would go below zero.
pub open spec fn brace_underflow(s: Seq<char>, i: int, end: int, st: QuoteState, depth: int) -> bool
    decreases end - i,
{
    if i < 0 || i >= end {
        false
    } else if in_code(st) && s[i] == '{' {
        brace_underflow(s, i + 1, end, st, depth + 1)
    } else if in_code(st) && s[i] == '}' {
        if depth <= 0 {
            true
        } else if depth - 1 == 0 {
            false
        } else {
            brace_underflow(s, i + 1, end, st, depth - 1)
        }
    } else {
        brace_underflow(s, i + 1, end, quote_step(st, s[i]), depth)
    }
}

pub proof fn lemma_brace_no_underflow(s: Seq<char>, i: int, end: int, st: QuoteState, depth: int)
    requires
        depth >= 1,
    ensures
        !brace_underflow(s, i, end, st, depth),
    decreases end - i,
{
    if 0 <= i < end {
        if in_code(st) && s[i] == '{' {
            lemma_brace_no_underflow(s, i + 1, end, st, depth + 1);
        } else if in_code(st) && s[i] == '}' {
            if depth - 1 != 0 {
                lemma_brace_no_underflow(s, i + 1, end, st, depth - 1);
            }
        } else {
            lemma_brace_no_underflow(s, i + 1, end, quote_step(st, s[i]), depth);
        }
    }
}

/// A scan that starts at a `{` never takes its count below zero.
pub proof fn lemma_brace_open(s: Seq<char>, open: int, end: int)
    requires
        0 <= open < end,
        s[open] == '{',
    ensures
        !brace_underflow(s, open, end, quote_start(), 0),
{
    lemma_brace_no_underflow(s, open + 1, end, quote_start(), 1);
}

/// The `}` (before `end`) that closes the `{` at `open`.
///
/// The scan counts nesting from zero; it is defined wherever no `}` in code
/// comes before an opening `{`, as when it starts at a `{`
/// (`lemma_brace_open`), which is how the parser calls it.
pub fn find_matching_brace(s: &[char], open: usize, end: usize) -> (r: Option<usize>)
    requires
        open <= end <= s@.len(),
        !brace_underflow(s@, open as int, end as int, quote_start(), 0),
    ensures
        r matches Some(k) ==> matching_brace(s@, open as int, end as int) == Some(k as int),
        r is None ==> matching_brace(s@, open as int, end as int) is None,
{
    let mut depth: usize = 0;
    let mut in_string = false;
    let mut in_char = false;
    let mut escaped = false;
    let mut index = open;
    while index < end
        invariant
            open <= index <= end <= s@.len(),
            depth <= index - open,
            !brace_underflow(s@, index as int, end as int, quotes(in_string, in_char, escaped), depth as int),
            brace_scan(s@, index as int, end as int, quotes(in_string, in_char, escaped), depth as int)
                == matching_brace(s@, open as int, end as int),
        decreases end - index,
    {
        let ch = s[index];
        if escaped {
            escaped = false;
        } else if ch == '\\' && (in_string || in_char) {
            escaped = true;
        } else if ch == '"' && !in_char {
            in_string = !in_string;
        } else if ch == '\'' && !in_string {
            in_char = !in_char;
        } else if ch == '{' && !in_string && !in_char {
            depth = depth + 1;
        } else if ch == '}' && !in_string && !in_char {
            depth = depth - 1;
            if depth == 0 {
                return Some(index);
            }
        }
        index = index + 1;
    }
    None
}

// ---------------------------------------------------------------------------
// Mapper statements
// ---------------------------------------------------------------------------
/// Spans of the statements of `s[i..end]`: split at each `;` in code outside
/// brackets, with the text after the last `;` as a final statement when it is
/// not empty.  `start` is where the current statement began.
pub open spec fn stmt_scan(
    s: Seq<char>,
    i: int,
    end: int,
    st: QuoteState,
    depth: int,
    start: int,
) -> Seq<(int, int)>
    decreases end - i,
{
    if i < 0 || i >= end {
        if start < end {
            seq![(start, end)]
        } else {
            seq![]
        }
    } else {
        let c = s[i];
        if in_code(st) && (c == '(' || c == '[' || c == '{') {
            stmt_scan(s, i + 1, end, st, depth + 1, start)
        } else if in_code(st) && (c == ')' || c == ']' || c == '}') && depth > 0 {
            stmt_scan(s, i + 1, end, st, depth - 1, start)
        } else if in_code(st) && c == ';' && depth == 0 {
            seq![(start, i)] + stmt_scan(s, i + 1, end, st, depth, i + 1)
        } else {
            stmt_scan(s, i + 1, end, quote_step(st, c), depth, start)
        }
    }
}

pub proof fn lemma_stmt_scan(
    s: Seq<char>,
    i: int,
    end: int,
    st: QuoteState,
    depth: int,
    start: int,
)
    requires
        0 <= start <= i,
    ensures
        forall|n: int|
            0 <= n < stmt_scan(s, i, end, st, depth, start).len() ==> start <= (
            #[trigger] stmt_scan(s, i, end, st, depth, start)[n]).0 <= stmt_scan(
                s,
                i,
                end,
                st,
                depth,
                start,
            )[n].1 <= end,
    decreases end - i,
{
    if 0 <= i < end {
        let c = s[i];
        if in_code(st) && (c == '(' || c == '[' || c == '{') {
            lemma_stmt_scan(s, i + 1, end, st, depth + 1, start);
            assert(stmt_scan(s, i, end, st, depth, start) == stmt_scan(s, i + 1, end, st, depth + 1, start));
        } else if in_code(st) && (c == ')' || c == ']' || c == '}') && depth > 0 {
            lemma_stmt_scan(s, i + 1, end, st, depth - 1, start);
            assert(stmt_scan(s, i, end, st, depth, start) == stmt_scan(s, i + 1, end, st, depth - 1, start));
        } else if in_code(st) && c == ';' && depth == 0 {
            lemma_stmt_scan(s, i + 1, end, st, depth, i + 1);
            let rest = stmt_scan(s, i + 1, end, st, depth, i + 1);
            assert forall|n: int|
                0 <= n < stmt_scan(s, i, end, st, depth, start).len() implies start <= (
                #[trigger] stmt_scan(s, i, end, st, depth, start)[n]).0 <= stmt_scan(
                    s,
                    i,
                    end,
                    st,
                    depth,
                    start,
                )[n].1 <= end by {
                if n > 0 {
                    assert(stmt_scan(s, i, end, st, depth, start)[n] == rest[n - 1]);
                }
            }
        } else {
            lemma_stmt_scan(s, i + 1, end, quote_step(st, c), depth, start);
            assert(stmt_scan(s, i, end, st, depth, start) == stmt_scan(s, i + 1, end, quote_step(st, c), depth, start));
        }
    }
}

/// Spans of the statements of the mapper body `s[a..b]`.
pub open spec fn statement_spans(s: Seq<char>, a: int, b: int) -> Seq<(int, int)> {
    stmt_scan(s, a, b, quote_start(), 0, a)
}

pub fn split_mapper_statements(s: &[char], a: usize, b: usize) -> (v: Vec<(usize, usize)>)
    requires
        a <= b <= s@.len(),
    ensures
        spans_int(v@) == statement_spans(s@, a as int, b as int),
        forall|n: int| 0 <= n < v@.len() ==> a <= (#[trigger] v@[n]).0 <= v@[n].1 <= b,
{
    let mut statements: Vec<(usize, usize)> = Vec::new();
    let mut start = a;
    let mut index = a;
    let mut depth: usize = 0;
    let mut in_string = false;
    let mut in_char = false;
    let mut escaped = false;
    while index < b
        invariant
            a <= start <= index <= b <= s@.len(),
            depth <= index - a,
            statement_spans(s@, a as int, b as int) == spans_int(statements@) + stmt_scan(
                s@,
                index as int,
                b as int,
                quotes(in_string, in_char, escaped),
                depth as int,
                start as int,
            ),
            forall|n: int|
                0 <= n < statements@.len() ==> a <= (#[trigger] statements@[n]).0
                    <= statements@[n].1 <= start,
        decreases b - index,
    {
        let byte = s[index];
        if escaped {
            escaped = false;
        } else if byte == '\\' && (in_string || in_char) {
            escaped = true;
        } else if byte == '"' && !in_char {
            in_string = !in_string;
        } else if byte == '\'' && !in_string {
            in_char = !in_char;
        } else if (byte == '(' || byte == '[' || byte == '{') && !in_string && !in_char {
            depth = depth + 1;
        } else if (byte == ')' || byte == ']' || byte == '}') && !in_string && !in_char && depth
            > 0 {
            depth = depth - 1;
        } else if byte == ';' && !in_string && !in_char && depth == 0 {
            let ghost old_v = statements@;
            statements.push((start, index));
            assert(spans_int(statements@) =~= spans_int(old_v) + seq![
                (start as int, index as int),
            ]);
            start = index + 1;
        }
        index = index + 1;
    }
    if start < b {
        let ghost old_v = statements@;
        statements.push((start, b));
        assert(spans_int(statements@) =~= spans_int(old_v) + seq![(start as int, b as int)]);
    } else {
        assert(spans_int(statements@) + Seq::<(int, int)>::empty() =~= spans_int(statements@));
    }
    statements
}

// ---------------------------------------------------------------------------
// Lines that start with a word
// ---------------------------------------------------------------------------
/// First position at or after `i` (before `end`) that is neither a space nor
/// a tab.
pub open spec fn blank_skip(s: Seq<char>, i: int, end: int) -> int
    decreases end - i,
{
    if 0 <= i < end && (s[i] == ' ' || s[i] == '\t') {
        blank_skip(s, i + 1, end)
    } else {
        i
    }
}

pub proof fn lemma_blank_skip(s: Seq<char>, i: int, end: int)
    requires
        0 <= i <= end,
    ensures
        i <= blank_skip(s, i, end) <= end,
    decreases end - i,
{
    if 0 <= i < end && (s[i] == ' ' || s[i] == '\t') {
        lemma_blank_skip(s, i + 1, end);
    }
}

pub fn skip_blanks(s: &[char], i: usize, end: usize) -> (r: usize)
    requires
        i <= end <= s@.len(),
    ensures
        r == blank_skip(s@, i as int, end as int),
        i <= r <= end,
{
    let mut j = i;
    while j < end && (s[j] == ' ' || s[j] == '\t')
        invariant
            i <= j <= end <= s@.len(),
            blank_skip(s@, j as int, end as int) == blank_skip(s@, i as int, end as int),
        decreases end - j,
    {
        j = j + 1;
    }
    j
}

/// `s[t..]` starts with `lit` and the match ends by `end`.
pub open spec fn starts_at(s: Seq<char>, t: int, end: int, lit: Seq<char>) -> bool {
    t + lit.len() <= end && s.subrange(t, t + lit.len()) == lit
}

/// Position of the first line feed at or after `i` (before `end`).
pub fn find_newline(s: &[char], i: usize, end: usize) -> (r: usize)
    requires
        i <= end <= s@.len(),
    ensures
        r == newline_from(s@, i as int, end as int),
        i <= r <= end,
{
    proof {
        lemma_newline_from(s@, i as int, end as int);
    }
    let mut e = i;
    while e < end && s[e] != '\n'
        invariant
            i <= e <= end <= s@.len(),
            newline_from(s@, e as int, end as int) == newline_from(s@, i as int, end as int),
        decreases end - e,
    {
        e = e + 1;
    }
    e
}

/// The kind of an extension island.
#[derive(Clone, Copy, Debug, PartialEq, Eq)]
pub enum IslandKind {
    Property,
    Mapper,
}

/// A character that can begin a Java name.
pub open spec fn is_name_start(c: char) -> bool {
    is_ascii_alpha(c) || c == '_' || c == '$' || ('\u{80}' <= c && !is_ws(c))
}

/// A character that can continue a Java name.
pub open spec fn is_name_char(c: char) -> bool {
    is_name_start(c) || is_ascii_digit(c)
}

/// The end of the run of name characters from `i`.
pub open spec fn name_run(s: Seq<char>, i: int) -> int
    decreases s.len() - i,
{
    if 0 <= i < s.len() && is_name_char(s[i]) {
        name_run(s, i + 1)
    } else {
        i
    }
}

pub proof fn lemma_name_run(s: Seq<char>, i: int)
    requires
        0 <= i <= s.len(),
    ensures
        i <= name_run(s, i) <= s.len(),
    decreases s.len() - i,
{
    if i < s.len() && is_name_char(s[i]) {
        lemma_name_run(s, i + 1);
    }
}

/// An operator that forms a compound assignment with a following `=`.
pub open spec fn is_compound_op(c: char) -> bool {
    c == '+' || c == '-' || c == '*' || c == '/' || c == '%' || c == '&' || c == '|' || c == '^'
}

/// After the word `prop` or `mapper` and spaces or tabs, the text at `u` is
/// the rest of a Java statement that uses the word as a variable, a type or
/// a method: it goes on with `=`, `;`, `(`, `.` or `[`, with `++`, `--` or a
/// compound assignment such as `+=`, or with a name followed (after spaces
/// or tabs) by `;`, `=` or `,` (`prop x;`, `prop x = 1;`, `mapper a, b;`).
pub open spec fn java_use_at(s: Seq<char>, u: int) -> bool {
    let len = s.len() as int;
    ||| 0 <= u < len && (s[u] == '=' || s[u] == ';' || s[u] == '(' || s[u] == '.' || s[u] == '[')
    ||| 0 <= u && u + 1 < len && ((s[u] == '+' && s[u + 1] == '+') || (s[u] == '-' && s[u + 1]
        == '-'))
    ||| 0 <= u && u + 1 < len && is_compound_op(s[u]) && s[u + 1] == '='
    ||| 0 <= u < len && is_name_start(s[u]) && {
        let v = blank_skip(s, name_run(s, u), len);
        v < len && (s[v] == ';' || s[v] == '=' || s[v] == ',')
    }
}

/// The line text at `t` opens a property: the word `prop` and a space or a
/// tab, unless the rest of the line is a Java use of `prop` (`prop = 1;`,
/// `prop x;`).
pub open spec fn opens_property(s: Seq<char>, t: int) -> bool {
    &&& starts_at(s, t, s.len() as int, "prop "@) || starts_at(s, t, s.len() as int, "prop\t"@)
    &&& !java_use_at(s, blank_skip(s, t + 5, s.len() as int))
}

/// The line text at `t` opens a mapper: the word `mapper` and a space or a
/// tab, unless the rest of the line is a Java use of `mapper`
/// (`mapper = create();`, `mapper x;`).
pub open spec fn opens_mapper(s: Seq<char>, t: int) -> bool {
    &&& starts_at(s, t, s.len() as int, "mapper "@) || starts_at(
        s,
        t,
        s.len() as int,
        "mapper\t"@,
    )
    &&& !java_use_at(s, blank_skip(s, t + 7, s.len() as int))
}

/// The first line starting at or after `ls` whose text, after spaces and
/// tabs, opens a property or a mapper: where the line starts and which kind
/// of island it opens. Every other line is Java text.
pub open spec fn island_from(s: Seq<char>, ls: int) -> Option<(int, IslandKind)>
    decreases s.len() - ls,
{
    if ls < 0 || ls >= s.len() {
        None
    } else {
        let t = blank_skip(s, ls, s.len() as int);
        if opens_property(s, t) {
            Some((ls, IslandKind::Property))
        } else if opens_mapper(s, t) {
            Some((ls, IslandKind::Mapper))
        } else {
            proof {
                lemma_newline_from(s, ls, s.len() as int);
            }
            let e = newline_from(s, ls, s.len() as int);
            if e < s.len() {
                island_from(s, e + 1)
            } else {
                None
            }
        }
    }
}

pub proof fn lemma_island_from(s: Seq<char>, ls: int)
    requires
        0 <= ls,
    ensures
        island_from(s, ls) matches Some((k, kind)) ==> {
            &&& ls <= k < s.len()
            &&& kind == IslandKind::Property ==> opens_property(s, blank_skip(s, k, s.len() as int))
            &&& kind == IslandKind::Mapper ==> opens_mapper(s, blank_skip(s, k, s.len() as int))
        },
    decreases s.len() - ls,
{
    if 0 <= ls < s.len() {
        lemma_newline_from(s, ls, s.len() as int);
        let e = newline_from(s, ls, s.len() as int);
        if e < s.len() {
            lemma_island_from(s, e + 1);
        }
    }
}

fn name_start(c: char) -> (r: bool)
    ensures
        r == is_name_start(c),
{
    is_ascii_alphabetic(c) || c == '_' || c == '$' || ('\u{80}' <= c && !is_whitespace(c))
}

fn name_end(s: &[char], i: usize) -> (r: usize)
    requires
        i <= s@.len(),
    ensures
        r == name_run(s@, i as int),
        i <= r <= s@.len(),
{
    proof {
        lemma_name_run(s@, i as int);
    }
    let mut j = i;
    while j < s.len() && (name_start(s[j]) || ('0' <= s[j] && s[j] <= '9'))
        invariant
            i <= j <= s@.len(),
            name_run(s@, j as int) == name_run(s@, i as int),
        decreases s@.len() - j,
    {
        j = j + 1;
    }
    j
}

/// Whether the text at `u` is the rest of a Java use of `prop` or `mapper`.
pub fn java_use(s: &[char], u: usize) -> (r: bool)
    requires
        u <= s@.len(),
    ensures
        r == java_use_at(s@, u as int),
{
    let len = s.len();
    if u >= len {
        return false;
    }
    let c = s[u];
    if c == '=' || c == ';' || c == '(' || c == '.' || c == '[' {
        return true;
    }
    if u + 1 < len {
        let d = s[u + 1];
        if (c == '+' && d == '+') || (c == '-' && d == '-') {
            return true;
        }
        if (c == '+' || c == '-' || c == '*' || c == '/' || c == '%' || c == '&' || c == '|' || c
            == '^') && d == '=' {
            return true;
        }
    }
    if !name_start(c) {
        return false;
    }
    let n = name_end(s, u);
    let v = skip_blanks(s, n, len);
    v < len && (s[v] == ';' || s[v] == '=' || s[v] == ',')
}

/// Whether the line text at `t` opens a property.
pub fn opens_property_at(s: &[char], t: usize) -> (r: bool)
    requires
        t <= s@.len(),
    ensures
        r == opens_property(s@, t as int),
{
    let len = s.len();
    proof {
        reveal_strlit("prop ");
        reveal_strlit("prop\t");
    }
    if !(matches_at(s, t, len, "prop ") || matches_at(s, t, len, "prop\t")) {
        return false;
    }
    let u = skip_blanks(s, t + 5, len);
    !java_use(s, u)
}

/// Whether the line text at `t` opens a mapper.
pub fn opens_mapper_at(s: &[char], t: usize) -> (r: bool)
    requires
        t <= s@.len(),
    ensures
        r == opens_mapper(s@, t as int),
{
    let len = s.len();
    proof {
        reveal_strlit("mapper ");
        reveal_strlit("mapper\t");
    }
    if !(matches_at(s, t, len, "mapper ") || matches_at(s, t, len, "mapper\t")) {
        return false;
    }
    let u = skip_blanks(s, t + 7, len);
    !java_use(s, u)
}

/// Where an extension island starts and what kind it is.
pub struct ExtensionIsland {
    pub start: usize,
    pub kind: IslandKind,
}

/// The first extension island on a line starting at `from` or later.
pub fn find_extension_island(s: &[char], from: usize) -> (r: Option<ExtensionIsland>)
    requires
        from <= s@.len(),
    ensures
        match r {
            Some(isl) => island_from(s@, from as int) == Some((isl.start as int, isl.kind)),
            None => island_from(s@, from as int) is None,
        },
{
    let len = s.len();
    let mut offset = from;
    while offset < len
        invariant
            from <= offset <= len == s@.len(),
            island_from(s@, offset as int) == island_from(s@, from as int),
        decreases len - offset,
    {
        let line_start = offset;
        let trimmed = skip_blanks(s, line_start, len);
        if opens_property_at(s, trimmed) {
            return Some(ExtensionIsland { start: line_start, kind: IslandKind::Property });
        }
        if opens_mapper_at(s, trimmed) {
            return Some(ExtensionIsland { start: line_start, kind: IslandKind::Mapper });
        }
        let e = find_newline(s, line_start, len);
        if e < len {
            offset = e + 1;
        } else {
            return None;
        }
    }
    None
}

/// In the body `s[ls..end]`, the first line whose text after spaces and tabs
/// begins with `set ` or `set{`, or is `set` followed by the line feed: the
/// position of that `set`.
pub open spec fn set_block_from(s: Seq<char>, ls: int, end: int) -> Option<int>
    decreases end - ls,
{
    if ls < 0 || ls >= end {
        None
    } else {
        let t = blank_skip(s, ls, end);
        if starts_at(s, t, end, "set "@) || starts_at(s, t, end, "set{"@) || starts_at(
            s,
            t,
            end,
            "set\n"@,
        ) {
            Some(t)
        } else {
            proof {
                lemma_newline_from(s, ls, end);
            }
            let e = newline_from(s, ls, end);
            if e < end {
                set_block_from(s, e + 1, end)
            } else {
                None
            }
        }
    }
}

pub proof fn lemma_set_block_from(s: Seq<char>, ls: int, end: int)
    requires
        0 <= ls,
        end <= s.len(),
    ensures
        set_block_from(s, ls, end) matches Some(t) ==> ls <= t && t + 4 <= end,
    decreases end - ls,
{
    if 0 <= ls < end {
        lemma_blank_skip(s, ls, end);
        lemma_newline_from(s, ls, end);
        let t = blank_skip(s, ls, end);
        reveal_strlit("set ");
        reveal_strlit("set{");
        reveal_strlit("set\n");
        let e = newline_from(s, ls, end);
        if e < end {
            lemma_set_block_from(s, e + 1, end);
        }
    }
}

/// The start of the `set` block in the body `s[a..b]`, if there is one.
pub fn find_set_block(s: &[char], a: usize, b: usize) -> (r: Option<usize>)
    requires
        a <= b <= s@.len(),
    ensures
        opt_index(r) == set_block_from(s@, a as int, b as int),
{
    let mut offset = a;
    while offset < b
        invariant
            a <= offset <= b <= s@.len(),
            set_block_from(s@, offset as int, b as int) == set_block_from(s@, a as int, b as int),
        decreases b - offset,
    {
        let trimmed = skip_blanks(s, offset, b);
        if matches_at(s, trimmed, b, "set ") || matches_at(s, trimmed, b, "set{") || matches_at(
            s,
            trimmed,
            b,
            "set\n",
        ) {
            return Some(trimmed);
        }
        let e = find_newline(s, offset, b);
        if e < b {
            offset = e + 1;
        } else {
            return None;
        }
    }
    None
}

pub open spec fn opt_index(o: Option<usize>) -> Option<int> {
    match o {
        Some(k) => Some(k as int),
        None => None,
    }
}

/// The first occurrence of `c` in `s[i..end]`.
pub open spec fn char_from(s: Seq<char>, i: int, end: int, c: char) -> Option<int>
    decreases end - i,
{
    if i < 0 || i >= end {
        None
    } else if s[i] == c {
        Some(i)
    } else {
        char_from(s, i + 1, end, c)
    }
}

pub proof fn lemma_char_from(s: Seq<char>, i: int, end: int, c: char)
    requires
        0 <= i,
    ensures
        char_from(s, i, end, c) matches Some(k) ==> i <= k < end && s[k] == c,
    decreases end - i,
{
    if 0 <= i < end && s[i] != c {
        lemma_char_from(s, i + 1, end, c);
    }
}

/// `char_from` gives the first occurrence: the position it gives holds `c`
/// and no earlier position of the range does; when it gives none, `c` does
/// not occur in the range.
pub proof fn char_from_is_first(s: Seq<char>, i: int, end: int, c: char)
    requires
        0 <= i,
    ensures
        match char_from(s, i, end, c) {
            Some(k) => i <= k < end && s[k] == c && forall|m: int| i <= m < k ==> s[m] != c,
            None => forall|m: int| i <= m < end ==> s[m] != c,
        },
    decreases end - i,
{
    if 0 <= i < end && s[i] != c {
        char_from_is_first(s, i + 1, end, c);
        match char_from(s, i + 1, end, c) {
            Some(k) => {
                assert forall|m: int| i <= m < k implies s[m] != c by {
                    if m > i {
                        assert(i + 1 <= m < k);
                    }
                }
            },
            None => {
                assert forall|m: int| i <= m < end implies s[m] != c by {
                    if m > i {
                        assert(i + 1 <= m < end);
                    }
                }
            },
        }
    }
}

pub fn find_char(s: &[char], i: usize, end: usize, c: char) -> (r: Option<usize>)
    requires
        i <= end <= s@.len(),
    ensures
        opt_index(r) == char_from(s@, i as int, end as int, c),
        r matches Some(k) ==> i <= k < end && s@[k as int] == c && forall|m: int|
            i <= m < k ==> s@[m] != c,
        r is None ==> forall|m: int| i <= m < end ==> s@[m] != c,
{
    proof {
        char_from_is_first(s@, i as int, end as int, c);
    }
    let mut k = i;
    while k < end
        invariant
            i <= k <= end <= s@.len(),
            char_from(s@, k as int, end as int, c) == char_from(s@, i as int, end as int, c),
        decreases end - k,
    {
        if s[k] == c {
            proof {
                char_from_is_first(s@, i as int, end as int, c);
            }
            return Some(k);
        }
        k = k + 1;
    }
    None
}

// ---------------------------------------------------------------------------
// Body edges
// ---------------------------------------------------------------------------
/// Index (from `k` on) of the first line with non-whitespace content.
pub open spec fn first_content(s: Seq<char>, ls: Seq<(int, int)>, k: int) -> Option<int>
    decreases ls.len() - k,
{
    if k < 0 || k >= ls.len() {
        None
    } else if !all_ws(s, ls[k].0, ls[k].1) {
        Some(k)
    } else {
        first_content(s, ls, k + 1)
    }
}

/// Index (below `k`) of the last line with non-whitespace content.
pub open spec fn last_content(s: Seq<char>, ls: Seq<(int, int)>, k: int) -> Option<int>
    decreases k,
{
    if k <= 0 || k > ls.len() {
        None
    } else if !all_ws(s, ls[k - 1].0, ls[k - 1].1) {
        Some(k - 1)
    } else {
        last_content(s, ls, k - 1)
    }
}

/// The lines of `s[a..b]` from the first to the last one with content,
/// joined with line feeds.
pub open spec fn body_edges(s: Seq<char>, a: int, b: int) -> Seq<char> {
    let ls = line_spans(s, a, b);
    let first = match first_content(s, ls, 0) {
        Some(k) => k,
        None => 0,
    };
    let last = match last_content(s, ls, ls.len() as int) {
        Some(k) => k + 1,
        None => first,
    };
    join(span_texts(s, ls.subrange(first, last)), "\n"@)
}

pub proof fn lemma_first_content(s: Seq<char>, ls: Seq<(int, int)>, k: int)
    requires
        0 <= k,
    ensures
        first_content(s, ls, k) matches Some(f) ==> k <= f < ls.len() && !all_ws(
            s,
            ls[f].0,
            ls[f].1,
        ),
    decreases ls.len() - k,
{
    if 0 <= k < ls.len() && all_ws(s, ls[k].0, ls[k].1) {
        lemma_first_content(s, ls, k + 1);
    }
}

pub proof fn lemma_last_content(s: Seq<char>, ls: Seq<(int, int)>, k: int, f: int)
    requires
        0 <= f < k <= ls.len(),
        !all_ws(s, ls[f].0, ls[f].1),
    ensures
        last_content(s, ls, k) matches Some(l) && f <= l < k,
    decreases k,
{
    if all_ws(s, ls[k - 1].0, ls[k - 1].1) {
        lemma_last_content(s, ls, k - 1, f);
    }
}

/// The body `s[a..b]` without its leading and trailing blank lines.
pub fn trim_body_edges(s: &[char], a: usize, b: usize) -> (r: String)
    requires
        a <= b <= s@.len(),
    ensures
        r@ == body_edges(s@, a as int, b as int),
{
    let lines = lines(s, a, b);
    let ghost ls = spans_int(lines@);
    let n = lines.len();
    let mut start: usize = 0;
    while start < n && is_blank_range(s, lines[start].0, lines[start].1)
        invariant
            start <= n == lines@.len(),
            b <= s@.len(),
            ls == line_spans(s@, a as int, b as int),
            ls == spans_int(lines@),
            first_content(s@, ls, start as int) == first_content(s@, ls, 0),
            forall|m: int| 0 <= m < lines@.len() ==> a <= (#[trigger] lines@[m]).0 <= lines@[m].1 <= b,
        decreases n - start,
    {
        start = start + 1;
    }
    let found = start < n;
    let first = if found {
        start
    } else {
        0
    };
    proof {
        lemma_first_content(s@, ls, 0);
    }
    let mut end = n;
    while end > 0 && is_blank_range(s, lines[end - 1].0, lines[end - 1].1)
        invariant
            end <= n == lines@.len(),
            b <= s@.len(),
            ls == spans_int(lines@),
            last_content(s@, ls, end as int) == last_content(s@, ls, n as int),
            forall|m: int| 0 <= m < lines@.len() ==> a <= (#[trigger] lines@[m]).0 <= lines@[m].1 <= b,
        decreases end,
    {
        end = end - 1;
    }
    let found_last = end > 0;
    let last = if found_last {
        end
    } else {
        first
    };
    proof {
        if found {
            lemma_last_content(s@, ls, n as int, first as int);
        }
        assert(spans_int(lines@).subrange(first as int, last as int) == ls.subrange(
            first as int,
            last as int,
        ));
    }
    join_spans(s, &lines, first, last, "\n")
}

// ---------------------------------------------------------------------------
// Class name
// ---------------------------------------------------------------------------
pub open spec fn is_word_char(c: char) -> bool {
    is_ascii_alnum(c) || c == '_'
}

/// First position at or after `i` holding a word character.
pub open spec fn word_char_skip(s: Seq<char>, i: int) -> int
    decreases s.len() - i,
{
    if 0 <= i < s.len() && !is_word_char(s[i]) {
        word_char_skip(s, i + 1)
    } else {
        i
    }
}

/// End of the run of word characters starting at `i`.
pub open spec fn word_char_run(s: Seq<char>, i: int) -> int
    decreases s.len() - i,
{
    if 0 <= i < s.len() && is_word_char(s[i]) {
        word_char_run(s, i + 1)
    } else {
        i
    }
}

pub proof fn lemma_word_char_skip(s: Seq<char>, i: int)
    requires
        0 <= i <= s.len(),
    ensures
        i <= word_char_skip(s, i) <= s.len(),
        word_char_skip(s, i) < s.len() ==> is_word_char(s[word_char_skip(s, i)]),
    decreases s.len() - i,
{
    if 0 <= i < s.len() && !is_word_char(s[i]) {
        lemma_word_char_skip(s, i + 1);
    }
}

pub proof fn lemma_word_char_run(s: Seq<char>, i: int)
    requires
        0 <= i <= s.len(),
    ensures
        i <= word_char_run(s, i) <= s.len(),
    decreases s.len() - i,
{
    if 0 <= i < s.len() && is_word_char(s[i]) {
        lemma_word_char_run(s, i + 1);
    }
}

pub proof fn lemma_skip_nonword(s: Seq<char>, i: int)
    requires
        0 <= i <= s.len(),
    ensures
        forall|m: int| i <= m < word_char_skip(s, i) ==> !is_word_char(#[trigger] s[m]),
    decreases s.len() - i,
{
    if 0 <= i < s.len() && !is_word_char(s[i]) {
        lemma_skip_nonword(s, i + 1);
    }
}

pub proof fn lemma_run_word(s: Seq<char>, i: int)
    requires
        0 <= i <= s.len(),
    ensures
        forall|m: int| i <= m < word_char_run(s, i) ==> is_word_char(#[trigger] s[m]),
        word_char_run(s, i) == s.len() || !is_word_char(s[word_char_run(s, i)]),
    decreases s.len() - i,
{
    if 0 <= i < s.len() && is_word_char(s[i]) {
        lemma_run_word(s, i + 1);
    }
}

/// Over the words of `s` from `i` on (maximal runs of ASCII letters, digits
/// and `_`), the first one whose preceding word is `class`; `prev_class` says
/// whether the word before `i` was `class`.
pub open spec fn class_name_from(s: Seq<char>, i: int, prev_class: bool) -> Option<(int, int)>
    decreases s.len() - i,
{
    if i < 0 || i > s.len() {
        None
    } else {
        proof {
            lemma_word_char_skip(s, i);
        }
        let j = word_char_skip(s, i);
        if j >= s.len() {
            None
        } else {
            proof {
                lemma_word_char_run(s, j + 1);
            }
            let k = word_char_run(s, j + 1);
            if prev_class {
                Some((j, k))
            } else {
                class_name_from(s, k, s.subrange(j, k) == "class"@)
            }
        }
    }
}

/// The word after the first `class` word of `s`.
pub open spec fn class_name(s: Seq<char>) -> Option<Seq<char>> {
    match class_name_from(s, 0, false) {
        Some((j, k)) => Some(s.subrange(j, k)),
        None => None,
    }
}

pub fn find_class_name(s: &[char]) -> (r: Option<String>)
    ensures
        opt_str(r) == class_name(s@),
{
    let len = s.len();
    let mut i: usize = 0;
    let mut previous_is_class = false;
    while i < len
        invariant
            i <= len == s@.len(),
            class_name_from(s@, i as int, previous_is_class) == class_name_from(s@, 0, false),
        decreases len - i,
    {
        proof {
            lemma_word_char_skip(s@, i as int);
        }
        let mut j = i;
        while j < len && !(is_ascii_alphanumeric(s[j]) || s[j] == '_')
            invariant
                i <= j <= len == s@.len(),
                word_char_skip(s@, j as int) == word_char_skip(s@, i as int),
            decreases len - j,
        {
            j = j + 1;
        }
        if j >= len {
            return None;
        }
        proof {
            lemma_word_char_run(s@, j + 1);
        }
        let mut k = j + 1;
        while k < len && (is_ascii_alphanumeric(s[k]) || s[k] == '_')
            invariant
                j < k <= len == s@.len(),
                word_char_run(s@, k as int) == word_char_run(s@, j + 1),
            decreases len - k,
        {
            k = k + 1;
        }
        if previous_is_class {
            return Some(string_of_range(s, j, k));
        }
        previous_is_class = range_is(s, j, k, "class");
        i = k;
    }
    None
}

} // verus!
