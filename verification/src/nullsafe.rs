//! Rewriting of the null-safe access operator `receiver?.member` (with an
//! optional `?: fallback`) into plain Java.
//!
//! Scanning skips string and character literals and comments, so `?.` inside
//! them is left alone.
use vstd::prelude::*;
use crate::text::{is_ascii_alnum, is_ascii_alpha, is_ascii_ws, is_ascii_whitespace, is_ascii_alphabetic, is_ascii_alphanumeric, push_range, chars_of, opt_str};

verus! {

/// Where a scan stands: in code, inside a string or character literal, or
/// inside a comment.
#[derive(Clone, Copy)]
pub enum ScanState {
    Code,
    Str,
    Char,
    LineComment,
    BlockComment,
}

pub open spec fn opt_int(o: Option<usize>) -> Option<int> {
    match o {
        Some(k) => Some(k as int),
        None => None,
    }
}

// ---------------------------------------------------------------------------
// Finding the operator
// ---------------------------------------------------------------------------
/// Position of the first `?.` in code at or after `i`, when the scan at `i`
/// starts in state `st`.
pub open spec fn op_scan(s: Seq<char>, i: int, st: ScanState) -> Option<int>
    decreases s.len() - i,
{
    if i < 0 || i + 1 >= s.len() {
        None
    } else {
        match st {
            ScanState::Code => {
                if s[i] == '"' {
                    op_scan(s, i + 1, ScanState::Str)
                } else if s[i] == '\'' {
                    op_scan(s, i + 1, ScanState::Char)
                } else if s[i] == '/' && s[i + 1] == '/' {
                    op_scan(s, i + 2, ScanState::LineComment)
                } else if s[i] == '/' && s[i + 1] == '*' {
                    op_scan(s, i + 2, ScanState::BlockComment)
                } else if s[i] == '?' && s[i + 1] == '.' {
                    Some(i)
                } else {
                    op_scan(s, i + 1, ScanState::Code)
                }
            },
            ScanState::Str => {
                if s[i] == '\\' {
                    op_scan(s, i + 2, ScanState::Str)
                } else if s[i] == '"' {
                    op_scan(s, i + 1, ScanState::Code)
                } else {
                    op_scan(s, i + 1, ScanState::Str)
                }
            },
            ScanState::Char => {
                if s[i] == '\\' {
                    op_scan(s, i + 2, ScanState::Char)
                } else if s[i] == '\'' {
                    op_scan(s, i + 1, ScanState::Code)
                } else {
                    op_scan(s, i + 1, ScanState::Char)
                }
            },
            ScanState::LineComment => {
                if s[i] == '\n' {
                    op_scan(s, i + 1, ScanState::Code)
                } else {
                    op_scan(s, i + 1, ScanState::LineComment)
                }
            },
            ScanState::BlockComment => {
                if s[i] == '*' && s[i + 1] == '/' {
                    op_scan(s, i + 2, ScanState::Code)
                } else {
                    op_scan(s, i + 1, ScanState::BlockComment)
                }
            },
        }
    }
}

pub proof fn lemma_op_scan(s: Seq<char>, i: int, st: ScanState)
    requires
        0 <= i,
    ensures
        op_scan(s, i, st) matches Some(k) ==> i <= k && k + 1 < s.len() && s[k] == '?' && s[k + 1]
            == '.',
    decreases s.len() - i,
{
    if i + 1 < s.len() {
        match st {
            ScanState::Code => {
                if s[i] == '"' {
                    lemma_op_scan(s, i + 1, ScanState::Str);
                } else if s[i] == '\'' {
                    lemma_op_scan(s, i + 1, ScanState::Char);
                } else if s[i] == '/' && s[i + 1] == '/' {
                    lemma_op_scan(s, i + 2, ScanState::LineComment);
                } else if s[i] == '/' && s[i + 1] == '*' {
                    lemma_op_scan(s, i + 2, ScanState::BlockComment);
                } else if s[i] == '?' && s[i + 1] == '.' {
                } else {
                    lemma_op_scan(s, i + 1, ScanState::Code);
                }
            },
            ScanState::Str => {
                if s[i] == '\\' {
                    lemma_op_scan(s, i + 2, ScanState::Str);
                } else if s[i] == '"' {
                    lemma_op_scan(s, i + 1, ScanState::Code);
                } else {
                    lemma_op_scan(s, i + 1, ScanState::Str);
                }
            },
            ScanState::Char => {
                if s[i] == '\\' {
                    lemma_op_scan(s, i + 2, ScanState::Char);
                } else if s[i] == '\'' {
                    lemma_op_scan(s, i + 1, ScanState::Code);
                } else {
                    lemma_op_scan(s, i + 1, ScanState::Char);
                }
            },
            ScanState::LineComment => {
                if s[i] == '\n' {
                    lemma_op_scan(s, i + 1, ScanState::Code);
                } else {
                    lemma_op_scan(s, i + 1, ScanState::LineComment);
                }
            },
            ScanState::BlockComment => {
                if s[i] == '*' && s[i + 1] == '/' {
                    lemma_op_scan(s, i + 2, ScanState::Code);
                } else {
                    lemma_op_scan(s, i + 1, ScanState::BlockComment);
                }
            },
        }
    }
}

/// The first `?.` in code at or after `from`.
pub fn find_null_safe_operator(s: &[char], from: usize) -> (r: Option<usize>)
    requires
        from <= s@.len(),
    ensures
        opt_int(r) == op_scan(s@, from as int, ScanState::Code),
{
    let len = s.len();
    let mut index = from;
    let mut state = ScanState::Code;
    while index < len && index + 1 < len
        invariant
            index <= len == s@.len(),
            op_scan(s@, index as int, state) == op_scan(s@, from as int, ScanState::Code),
        decreases len - index,
    {
        match state {
            ScanState::Code => {
                let c = s[index];
                if c == '"' {
                    state = ScanState::Str;
                } else if c == '\'' {
                    state = ScanState::Char;
                } else if c == '/' && s[index + 1] == '/' {
                    state = ScanState::LineComment;
                    index = index + 1;
                } else if c == '/' && s[index + 1] == '*' {
                    state = ScanState::BlockComment;
                    index = index + 1;
                } else if c == '?' && s[index + 1] == '.' {
                    return Some(index);
                }
            },
            ScanState::Str => {
                if s[index] == '\\' {
                    index = index + 1;
                } else if s[index] == '"' {
                    state = ScanState::Code;
                }
            },
            ScanState::Char => {
                if s[index] == '\\' {
                    index = index + 1;
                } else if s[index] == '\'' {
                    state = ScanState::Code;
                }
            },
            ScanState::LineComment => {
                if s[index] == '\n' {
                    state = ScanState::Code;
                }
            },
            ScanState::BlockComment => {
                if s[index] == '*' && s[index + 1] == '/' {
                    state = ScanState::Code;
                    index = index + 1;
                }
            },
        }
        index = index + 1;
    }
    None
}

// ---------------------------------------------------------------------------
// Whitespace
// ---------------------------------------------------------------------------
/// First position at or after `i` that is not ASCII whitespace.
pub open spec fn ascii_ws_fwd(s: Seq<char>, i: int) -> int
    decreases s.len() - i,
{
    if 0 <= i < s.len() && is_ascii_ws(s[i]) {
        ascii_ws_fwd(s, i + 1)
    } else {
        i
    }
}

/// Walks back from `j` over ASCII whitespace, not below `start`.
pub open spec fn ascii_ws_back(s: Seq<char>, start: int, j: int) -> int
    decreases j - start,
{
    if start < j && j <= s.len() && is_ascii_ws(s[j - 1]) {
        ascii_ws_back(s, start, j - 1)
    } else {
        j
    }
}

pub proof fn lemma_ascii_ws_fwd(s: Seq<char>, i: int)
    requires
        0 <= i <= s.len(),
    ensures
        i <= ascii_ws_fwd(s, i) <= s.len(),
    decreases s.len() - i,
{
    if i < s.len() && is_ascii_ws(s[i]) {
        lemma_ascii_ws_fwd(s, i + 1);
    }
}

pub proof fn lemma_ascii_ws_back(s: Seq<char>, start: int, j: int)
    requires
        start <= j,
    ensures
        start <= ascii_ws_back(s, start, j) <= j,
    decreases j - start,
{
    if start < j && j <= s.len() && is_ascii_ws(s[j - 1]) {
        lemma_ascii_ws_back(s, start, j - 1);
    }
}

pub fn skip_whitespace_forward(s: &[char], index: usize) -> (r: usize)
    requires
        index <= s@.len(),
    ensures
        r == ascii_ws_fwd(s@, index as int),
        index <= r <= s@.len(),
{
    let mut index = index;
    let ghost start = index;
    while index < s.len() && is_ascii_whitespace(s[index])
        invariant
            start <= index <= s@.len(),
            ascii_ws_fwd(s@, index as int) == ascii_ws_fwd(s@, start as int),
        decreases s@.len() - index,
    {
        index = index + 1;
    }
    index
}

pub fn skip_whitespace_back(s: &[char], index: usize) -> (r: usize)
    requires
        index <= s@.len(),
    ensures
        r == ascii_ws_back(s@, 0, index as int),
        r <= index,
{
    let mut index = index;
    let ghost start = index;
    while index > 0 && is_ascii_whitespace(s[index - 1])
        invariant
            index <= start <= s@.len(),
            ascii_ws_back(s@, 0, index as int) == ascii_ws_back(s@, 0, start as int),
        decreases index,
    {
        index = index - 1;
    }
    index
}

pub fn trim_whitespace_back(s: &[char], start: usize, end: usize) -> (r: usize)
    requires
        end <= s@.len(),
    ensures
        r == ascii_ws_back(s@, start as int, end as int),
        r <= end,
        start <= end ==> start <= r,
{
    let mut end = end;
    let ghost e0 = end;
    while end > start && is_ascii_whitespace(s[end - 1])
        invariant
            end <= e0 <= s@.len(),
            start <= e0 ==> start <= end,
            ascii_ws_back(s@, start as int, end as int) == ascii_ws_back(
                s@,
                start as int,
                e0 as int,
            ),
        decreases end,
    {
        end = end - 1;
    }
    end
}

// ---------------------------------------------------------------------------
// Receiver, identifiers, balanced groups, member chains
// ---------------------------------------------------------------------------
pub open spec fn is_receiver_char(c: char) -> bool {
    is_ascii_alnum(c) || c == '_' || c == '.'
}

/// Walks back from `i` over identifier characters and dots.
pub open spec fn receiver_back(s: Seq<char>, i: int) -> int
    decreases i,
{
    if 0 < i <= s.len() && is_receiver_char(s[i - 1]) {
        receiver_back(s, i - 1)
    } else {
        i
    }
}

pub proof fn lemma_receiver_back(s: Seq<char>, i: int)
    requires
        0 <= i,
    ensures
        0 <= receiver_back(s, i) <= i,
    decreases i,
{
    if 0 < i <= s.len() && is_receiver_char(s[i - 1]) {
        lemma_receiver_back(s, i - 1);
    }
}

/// Start of the receiver expression that ends at `end`; `None` when it is empty.
pub fn find_receiver_start(s: &[char], end: usize) -> (r: Option<usize>)
    requires
        end <= s@.len(),
    ensures
        r == (if receiver_back(s@, end as int) == end {
            None
        } else {
            Some(receiver_back(s@, end as int) as usize)
        }),
        r matches Some(k) ==> k as int == receiver_back(s@, end as int) && k < end,
{
    proof {
        lemma_receiver_back(s@, end as int);
    }
    let mut index = end;
    while index > 0 && (is_ascii_alphanumeric(s[index - 1]) || s[index - 1] == '_' || s[index - 1]
        == '.')
        invariant
            index <= end <= s@.len(),
            receiver_back(s@, index as int) == receiver_back(s@, end as int),
        decreases index,
    {
        index = index - 1;
    }
    if index == end {
        None
    } else {
        Some(index)
    }
}

/// End of the run of identifier characters starting at `i`.
pub open spec fn ident_run(s: Seq<char>, i: int) -> int
    decreases s.len() - i,
{
    if 0 <= i < s.len() && (is_ascii_alnum(s[i]) || s[i] == '_') {
        ident_run(s, i + 1)
    } else {
        i
    }
}

/// End of the identifier starting at `start`, if one starts there.
pub open spec fn read_ident(s: Seq<char>, start: int) -> Option<int> {
    if 0 <= start < s.len() && (is_ascii_alpha(s[start]) || s[start] == '_') {
        Some(ident_run(s, start + 1))
    } else {
        None
    }
}

pub proof fn lemma_read_ident(s: Seq<char>, start: int)
    ensures
        read_ident(s, start) matches Some(j) ==> start < j <= s.len(),
{
    if 0 <= start < s.len() && (is_ascii_alpha(s[start]) || s[start] == '_') {
        lemma_ident_run(s, start + 1);
    }
}

pub proof fn lemma_ident_run(s: Seq<char>, i: int)
    requires
        0 <= i <= s.len(),
    ensures
        i <= ident_run(s, i) <= s.len(),
    decreases s.len() - i,
{
    if 0 <= i < s.len() && (is_ascii_alnum(s[i]) || s[i] == '_') {
        lemma_ident_run(s, i + 1);
    }
}

pub fn read_identifier(s: &[char], start: usize) -> (r: Option<usize>)
    ensures
        opt_int(r) == read_ident(s@, start as int),
{
    if start >= s.len() {
        return None;
    }
    let first = s[start];
    if !(is_ascii_alphabetic(first) || first == '_') {
        return None;
    }
    let mut index = start + 1;
    while index < s.len() && (is_ascii_alphanumeric(s[index]) || s[index] == '_')
        invariant
            start < index <= s@.len(),
            ident_run(s@, index as int) == ident_run(s@, start + 1),
        decreases s@.len() - index,
    {
        index = index + 1;
    }
    Some(index)
}

/// The position just after the `close` that balances the group starting at
/// `i`, scanning with nesting `depth` in state `st`; literals are skipped.
pub open spec fn balanced_scan(
    s: Seq<char>,
    i: int,
    open: char,
    close: char,
    depth: int,
    st: ScanState,
) -> Option<int>
    decreases s.len() + 1 - i,
{
    if i < 0 || i >= s.len() {
        None
    } else {
        match st {
            ScanState::Code => {
                if s[i] == open {
                    balanced_scan(s, i + 1, open, close, depth + 1, ScanState::Code)
                } else if s[i] == close {
                    if depth - 1 == 0 {
                        Some(i + 1)
                    } else {
                        balanced_scan(s, i + 1, open, close, depth - 1, ScanState::Code)
                    }
                } else if s[i] == '"' {
                    balanced_scan(s, i + 1, open, close, depth, ScanState::Str)
                } else if s[i] == '\'' {
                    balanced_scan(s, i + 1, open, close, depth, ScanState::Char)
                } else {
                    balanced_scan(s, i + 1, open, close, depth, ScanState::Code)
                }
            },
            ScanState::Str => {
                if s[i] == '\\' {
                    balanced_scan(s, i + 2, open, close, depth, ScanState::Str)
                } else if s[i] == '"' {
                    balanced_scan(s, i + 1, open, close, depth, ScanState::Code)
                } else {
                    balanced_scan(s, i + 1, open, close, depth, ScanState::Str)
                }
            },
            ScanState::Char => {
                if s[i] == '\\' {
                    balanced_scan(s, i + 2, open, close, depth, ScanState::Char)
                } else if s[i] == '\'' {
                    balanced_scan(s, i + 1, open, close, depth, ScanState::Code)
                } else {
                    balanced_scan(s, i + 1, open, close, depth, ScanState::Char)
                }
            },
            _ => balanced_scan(s, i + 1, open, close, depth, st),
        }
    }
}

pub proof fn lemma_balanced_scan(
    s: Seq<char>,
    i: int,
    open: char,
    close: char,
    depth: int,
    st: ScanState,
)
    ensures
        balanced_scan(s, i, open, close, depth, st) matches Some(j) ==> i < j <= s.len(),
    decreases s.len() + 1 - i,
{
    if 0 <= i < s.len() {
        match st {
            ScanState::Code => {
                if s[i] == open {
                    lemma_balanced_scan(s, i + 1, open, close, depth + 1, ScanState::Code);
                } else if s[i] == close {
                    if depth - 1 != 0 {
                        lemma_balanced_scan(s, i + 1, open, close, depth - 1, ScanState::Code);
                    }
                } else if s[i] == '"' {
                    lemma_balanced_scan(s, i + 1, open, close, depth, ScanState::Str);
                } else if s[i] == '\'' {
                    lemma_balanced_scan(s, i + 1, open, close, depth, ScanState::Char);
                } else {
                    lemma_balanced_scan(s, i + 1, open, close, depth, ScanState::Code);
                }
            },
            ScanState::Str => {
                if s[i] == '\\' {
                    lemma_balanced_scan(s, i + 2, open, close, depth, ScanState::Str);
                } else if s[i] == '"' {
                    lemma_balanced_scan(s, i + 1, open, close, depth, ScanState::Code);
                } else {
                    lemma_balanced_scan(s, i + 1, open, close, depth, ScanState::Str);
                }
            },
            ScanState::Char => {
                if s[i] == '\\' {
                    lemma_balanced_scan(s, i + 2, open, close, depth, ScanState::Char);
                } else if s[i] == '\'' {
                    lemma_balanced_scan(s, i + 1, open, close, depth, ScanState::Code);
                } else {
                    lemma_balanced_scan(s, i + 1, open, close, depth, ScanState::Char);
                }
            },
            _ => {
                lemma_balanced_scan(s, i + 1, open, close, depth, st);
            },
        }
    }
}

/// Whether the scan from `i` meets `close` in code while no `open` is
/// pending, where its nesting count would go below zero.
pub open spec fn balanced_underflow(
    s: Seq<char>,
    i: int,
    open: char,
    close: char,
    depth: int,
    st: ScanState,
) -> bool
    decreases s.len() + 1 - i,
{
    if i < 0 || i >= s.len() {
        false
    } else {
        match st {
            ScanState::Code => {
                if s[i] == open {
                    balanced_underflow(s, i + 1, open, close, depth + 1, ScanState::Code)
                } else if s[i] == close {
                    if depth <= 0 {
                        true
                    } else if depth - 1 == 0 {
                        false
                    } else {
                        balanced_underflow(s, i + 1, open, close, depth - 1, ScanState::Code)
                    }
                } else if s[i] == '"' {
                    balanced_underflow(s, i + 1, open, close, depth, ScanState::Str)
                } else if s[i] == '\'' {
                    balanced_underflow(s, i + 1, open, close, depth, ScanState::Char)
                } else {
                    balanced_underflow(s, i + 1, open, close, depth, ScanState::Code)
                }
            },
            ScanState::Str => {
                if s[i] == '\\' {
                    balanced_underflow(s, i + 2, open, close, depth, ScanState::Str)
                } else if s[i] == '"' {
                    balanced_underflow(s, i + 1, open, close, depth, ScanState::Code)
                } else {
                    balanced_underflow(s, i + 1, open, close, depth, ScanState::Str)
                }
            },
            ScanState::Char => {
                if s[i] == '\\' {
                    balanced_underflow(s, i + 2, open, close, depth, ScanState::Char)
                } else if s[i] == '\'' {
                    balanced_underflow(s, i + 1, open, close, depth, ScanState::Code)
                } else {
                    balanced_underflow(s, i + 1, open, close, depth, ScanState::Char)
                }
            },
            _ => balanced_underflow(s, i + 1, open, close, depth, st),
        }
    }
}

pub proof fn lemma_balanced_no_underflow(
    s: Seq<char>,
    i: int,
    open: char,
    close: char,
    depth: int,
    st: ScanState,
)
    requires
        depth >= 1,
    ensures
        !balanced_underflow(s, i, open, close, depth, st),
    decreases s.len() + 1 - i,
{
    if 0 <= i < s.len() {
        match st {
            ScanState::Code => {
                if s[i] == open {
                    lemma_balanced_no_underflow(s, i + 1, open, close, depth + 1, ScanState::Code);
                } else if s[i] == close {
                    if depth - 1 != 0 {
                        lemma_balanced_no_underflow(s, i + 1, open, close, depth - 1, ScanState::Code);
                    }
                } else if s[i] == '"' {
                    lemma_balanced_no_underflow(s, i + 1, open, close, depth, ScanState::Str);
                } else if s[i] == '\'' {
                    lemma_balanced_no_underflow(s, i + 1, open, close, depth, ScanState::Char);
                } else {
                    lemma_balanced_no_underflow(s, i + 1, open, close, depth, ScanState::Code);
                }
            },
            ScanState::Str => {
                if s[i] == '\\' {
                    lemma_balanced_no_underflow(s, i + 2, open, close, depth, ScanState::Str);
                } else if s[i] == '"' {
                    lemma_balanced_no_underflow(s, i + 1, open, close, depth, ScanState::Code);
                } else {
                    lemma_balanced_no_underflow(s, i + 1, open, close, depth, ScanState::Str);
                }
            },
            ScanState::Char => {
                if s[i] == '\\' {
                    lemma_balanced_no_underflow(s, i + 2, open, close, depth, ScanState::Char);
                } else if s[i] == '\'' {
                    lemma_balanced_no_underflow(s, i + 1, open, close, depth, ScanState::Code);
                } else {
                    lemma_balanced_no_underflow(s, i + 1, open, close, depth, ScanState::Char);
                }
            },
            _ => {
                lemma_balanced_no_underflow(s, i + 1, open, close, depth, st);
            },
        }
    }
}

/// A scan that starts at its opening bracket never takes its count below
/// zero.
pub proof fn lemma_balanced_open(s: Seq<char>, start: int, open: char, close: char)
    requires
        0 <= start < s.len(),
        s[start] == open,
    ensures
        !balanced_underflow(s, start, open, close, 0, ScanState::Code),
{
    lemma_balanced_no_underflow(s, start + 1, open, close, 1, ScanState::Code);
}

/// The position just after the group `open ... close` that starts at `start`.
///
/// The scan counts nesting from zero; it is defined wherever no `close` in
/// code comes before an `open`, as when it starts at the opening bracket
/// (`lemma_balanced_open`), which is how both callers use it.
pub fn read_balanced(s: &[char], start: usize, open: char, close: char) -> (r: Option<usize>)
    requires
        !balanced_underflow(s@, start as int, open, close, 0, ScanState::Code),
    ensures
        opt_int(r) == balanced_scan(s@, start as int, open, close, 0, ScanState::Code),
{
    let len = s.len();
    if start >= len {
        return None;
    }
    let mut index = start;
    let mut depth: usize = 0;
    let mut state = ScanState::Code;
    while index < len
        invariant
            start <= index <= len == s@.len(),
            depth <= index - start,
            !balanced_underflow(s@, index as int, open, close, depth as int, state),
            balanced_scan(s@, index as int, open, close, depth as int, state) == balanced_scan(
                s@,
                start as int,
                open,
                close,
                0,
                ScanState::Code,
            ),
        decreases len - index,
    {
        match state {
            ScanState::Code => {
                let c = s[index];
                if c == open {
                    depth = depth + 1;
                } else if c == close {
                    depth = depth - 1;
                    if depth == 0 {
                        return Some(index + 1);
                    }
                } else if c == '"' {
                    state = ScanState::Str;
                } else if c == '\'' {
                    state = ScanState::Char;
                }
            },
            ScanState::Str => {
                if s[index] == '\\' {
                    if index + 1 >= len {
                        assert(balanced_scan(s@, index + 2, open, close, depth as int, state) is None);
                        return None;
                    }
                    index = index + 1;
                } else if s[index] == '"' {
                    state = ScanState::Code;
                }
            },
            ScanState::Char => {
                if s[index] == '\\' {
                    if index + 1 >= len {
                        assert(balanced_scan(s@, index + 2, open, close, depth as int, state) is None);
                        return None;
                    }
                    index = index + 1;
                } else if s[index] == '\'' {
                    state = ScanState::Code;
                }
            },
            _ => {},
        }
        index = index + 1;
    }
    None
}

/// End of the member chain (`name`, calls `(..)`, indexing `[..]`, further
/// `.name`) continuing at `i`.
pub open spec fn member_scan(s: Seq<char>, i: int) -> Option<int>
    decreases s.len() + 1 - i,
{
    if 0 <= i < s.len() && s[i] == '(' {
        proof {
            lemma_balanced_scan(s, i, '(', ')', 0, ScanState::Code);
        }
        match balanced_scan(s, i, '(', ')', 0, ScanState::Code) {
            Some(j) => member_scan(s, j),
            None => None,
        }
    } else if 0 <= i < s.len() && s[i] == '[' {
        proof {
            lemma_balanced_scan(s, i, '[', ']', 0, ScanState::Code);
        }
        match balanced_scan(s, i, '[', ']', 0, ScanState::Code) {
            Some(j) => member_scan(s, j),
            None => None,
        }
    } else if 0 <= i < s.len() && s[i] == '.' {
        proof {
            lemma_read_ident(s, i + 1);
        }
        match read_ident(s, i + 1) {
            Some(j) => member_scan(s, j),
            None => None,
        }
    } else {
        Some(i)
    }
}

/// End of the member access that starts at `start`.
pub open spec fn member_end(s: Seq<char>, start: int) -> Option<int> {
    match read_ident(s, start) {
        Some(j) => member_scan(s, j),
        None => None,
    }
}

pub proof fn lemma_member_scan(s: Seq<char>, i: int)
    requires
        0 <= i <= s.len(),
    ensures
        member_scan(s, i) matches Some(j) ==> i <= j <= s.len(),
    decreases s.len() + 1 - i,
{
    if 0 <= i < s.len() && s[i] == '(' {
        lemma_balanced_scan(s, i, '(', ')', 0, ScanState::Code);
        if let Some(j) = balanced_scan(s, i, '(', ')', 0, ScanState::Code) {
            lemma_member_scan(s, j);
        }
    } else if 0 <= i < s.len() && s[i] == '[' {
        lemma_balanced_scan(s, i, '[', ']', 0, ScanState::Code);
        if let Some(j) = balanced_scan(s, i, '[', ']', 0, ScanState::Code) {
            lemma_member_scan(s, j);
        }
    } else if 0 <= i < s.len() && s[i] == '.' {
        lemma_read_ident(s, i + 1);
        if let Some(j) = read_ident(s, i + 1) {
            lemma_member_scan(s, j);
        }
    }
}

pub proof fn lemma_member_end(s: Seq<char>, start: int)
    ensures
        member_end(s, start) matches Some(j) ==> start < j <= s.len(),
{
    lemma_read_ident(s, start);
    if let Some(j) = read_ident(s, start) {
        lemma_member_scan(s, j);
    }
}

pub fn find_member_end(s: &[char], start: usize) -> (r: Option<usize>)
    ensures
        opt_int(r) == member_end(s@, start as int),
{
    proof {
        lemma_read_ident(s@, start as int);
    }
    let mut index = match read_identifier(s, start) {
        Some(j) => j,
        None => return None,
    };
    loop
        invariant
            index <= s@.len(),
            member_scan(s@, index as int) == member_end(s@, start as int),
        decreases s@.len() + 1 - index,
    {
        if index < s.len() && s[index] == '(' {
            proof {
                lemma_balanced_scan(s@, index as int, '(', ')', 0, ScanState::Code);
                lemma_balanced_open(s@, index as int, '(', ')');
            }
            index = match read_balanced(s, index, '(', ')') {
                Some(j) => j,
                None => return None,
            };
        } else if index < s.len() && s[index] == '[' {
            proof {
                lemma_balanced_scan(s@, index as int, '[', ']', 0, ScanState::Code);
                lemma_balanced_open(s@, index as int, '[', ']');
            }
            index = match read_balanced(s, index, '[', ']') {
                Some(j) => j,
                None => return None,
            };
        } else if index < s.len() && s[index] == '.' {
            proof {
                lemma_read_ident(s@, index + 1);
            }
            index = match read_identifier(s, index + 1) {
                Some(j) => j,
                None => return None,
            };
        } else {
            return Some(index);
        }
    }
}

// ---------------------------------------------------------------------------
// The fallback after `?:`
// ---------------------------------------------------------------------------
/// Where the fallback expression starting at `i` ends: the first `;` or
/// newline outside brackets and literals, or where the text runs out (one past
/// the end when an escape is cut off by the end of the text).
pub open spec fn fallback_scan(
    s: Seq<char>,
    i: int,
    paren: int,
    bracket: int,
    brace: int,
    st: ScanState,
) -> int
    decreases s.len() + 1 - i,
{
    if i < 0 || i >= s.len() {
        i
    } else {
        match st {
            ScanState::Code => {
                let c = s[i];
                if (c == ';' || c == '\n') && paren == 0 && bracket == 0 && brace == 0 {
                    i
                } else if c == '(' {
                    fallback_scan(s, i + 1, paren + 1, bracket, brace, st)
                } else if c == ')' && paren > 0 {
                    fallback_scan(s, i + 1, paren - 1, bracket, brace, st)
                } else if c == '[' {
                    fallback_scan(s, i + 1, paren, bracket + 1, brace, st)
                } else if c == ']' && bracket > 0 {
                    fallback_scan(s, i + 1, paren, bracket - 1, brace, st)
                } else if c == '{' {
                    fallback_scan(s, i + 1, paren, bracket, brace + 1, st)
                } else if c == '}' && brace > 0 {
                    fallback_scan(s, i + 1, paren, bracket, brace - 1, st)
                } else if c == '"' {
                    fallback_scan(s, i + 1, paren, bracket, brace, ScanState::Str)
                } else if c == '\'' {
                    fallback_scan(s, i + 1, paren, bracket, brace, ScanState::Char)
                } else {
                    fallback_scan(s, i + 1, paren, bracket, brace, st)
                }
            },
            ScanState::Str => {
                if s[i] == '\\' {
                    fallback_scan(s, i + 2, paren, bracket, brace, st)
                } else if s[i] == '"' {
                    fallback_scan(s, i + 1, paren, bracket, brace, ScanState::Code)
                } else {
                    fallback_scan(s, i + 1, paren, bracket, brace, st)
                }
            },
            ScanState::Char => {
                if s[i] == '\\' {
                    fallback_scan(s, i + 2, paren, bracket, brace, st)
                } else if s[i] == '\'' {
                    fallback_scan(s, i + 1, paren, bracket, brace, ScanState::Code)
                } else {
                    fallback_scan(s, i + 1, paren, bracket, brace, st)
                }
            },
            _ => fallback_scan(s, i + 1, paren, bracket, brace, st),
        }
    }
}

pub proof fn lemma_fallback_scan(
    s: Seq<char>,
    i: int,
    paren: int,
    bracket: int,
    brace: int,
    st: ScanState,
)
    requires
        0 <= i,
    ensures
        i <= fallback_scan(s, i, paren, bracket, brace, st),
        i <= s.len() ==> fallback_scan(s, i, paren, bracket, brace, st) <= s.len() + 1,
    decreases s.len() + 1 - i,
{
    if i < s.len() {
        let c = s[i];
        match st {
            ScanState::Code => {
                if (c == ';' || c == '\n') && paren == 0 && bracket == 0 && brace == 0 {
                } else if c == '(' {
                    lemma_fallback_scan(s, i + 1, paren + 1, bracket, brace, st);
                } else if c == ')' && paren > 0 {
                    lemma_fallback_scan(s, i + 1, paren - 1, bracket, brace, st);
                } else if c == '[' {
                    lemma_fallback_scan(s, i + 1, paren, bracket + 1, brace, st);
                } else if c == ']' && bracket > 0 {
                    lemma_fallback_scan(s, i + 1, paren, bracket - 1, brace, st);
                } else if c == '{' {
                    lemma_fallback_scan(s, i + 1, paren, bracket, brace + 1, st);
                } else if c == '}' && brace > 0 {
                    lemma_fallback_scan(s, i + 1, paren, bracket, brace - 1, st);
                } else if c == '"' {
                    lemma_fallback_scan(s, i + 1, paren, bracket, brace, ScanState::Str);
                } else if c == '\'' {
                    lemma_fallback_scan(s, i + 1, paren, bracket, brace, ScanState::Char);
                } else {
                    lemma_fallback_scan(s, i + 1, paren, bracket, brace, st);
                }
            },
            ScanState::Str => {
                if c == '\\' {
                    lemma_fallback_scan(s, i + 2, paren, bracket, brace, st);
                } else if c == '"' {
                    lemma_fallback_scan(s, i + 1, paren, bracket, brace, ScanState::Code);
                } else {
                    lemma_fallback_scan(s, i + 1, paren, bracket, brace, st);
                }
            },
            ScanState::Char => {
                if c == '\\' {
                    lemma_fallback_scan(s, i + 2, paren, bracket, brace, st);
                } else if c == '\'' {
                    lemma_fallback_scan(s, i + 1, paren, bracket, brace, ScanState::Code);
                } else {
                    lemma_fallback_scan(s, i + 1, paren, bracket, brace, st);
                }
            },
            _ => {
                lemma_fallback_scan(s, i + 1, paren, bracket, brace, st);
            },
        }
    }
}

/// Where the fallback expression starting at `start` ends; `None` when the
/// scan runs past the end of the text (an escape cut off by the end).
pub fn find_fallback_end(s: &[char], start: usize) -> (r: Option<usize>)
    requires
        start <= s@.len(),
    ensures
        match r {
            Some(e) => e as int == fallback_scan(s@, start as int, 0, 0, 0, ScanState::Code) && e
                <= s@.len(),
            None => fallback_scan(s@, start as int, 0, 0, 0, ScanState::Code) > s@.len(),
        },
{
    let len = s.len();
    let mut index = start;
    let mut paren_depth: usize = 0;
    let mut bracket_depth: usize = 0;
    let mut brace_depth: usize = 0;
    let mut state = ScanState::Code;
    while index < len
        invariant
            start <= index <= len == s@.len(),
            paren_depth <= index - start,
            bracket_depth <= index - start,
            brace_depth <= index - start,
            fallback_scan(
                s@,
                index as int,
                paren_depth as int,
                bracket_depth as int,
                brace_depth as int,
                state,
            ) == fallback_scan(s@, start as int, 0, 0, 0, ScanState::Code),
        decreases len - index,
    {
        match state {
            ScanState::Code => {
                let c = s[index];
                if (c == ';' || c == '\n') && paren_depth == 0 && bracket_depth == 0 && brace_depth
                    == 0 {
                    return Some(index);
                } else if c == '(' {
                    paren_depth = paren_depth + 1;
                } else if c == ')' && paren_depth > 0 {
                    paren_depth = paren_depth - 1;
                } else if c == '[' {
                    bracket_depth = bracket_depth + 1;
                } else if c == ']' && bracket_depth > 0 {
                    bracket_depth = bracket_depth - 1;
                } else if c == '{' {
                    brace_depth = brace_depth + 1;
                } else if c == '}' && brace_depth > 0 {
                    brace_depth = brace_depth - 1;
                } else if c == '"' {
                    state = ScanState::Str;
                } else if c == '\'' {
                    state = ScanState::Char;
                }
            },
            ScanState::Str => {
                if s[index] == '\\' {
                    if index + 1 >= len {
                        assert(fallback_scan(s@, index + 2, paren_depth as int, bracket_depth as int, brace_depth as int, state) == index + 2);
                        return None;
                    }
                    index = index + 1;
                } else if s[index] == '"' {
                    state = ScanState::Code;
                }
            },
            ScanState::Char => {
                if s[index] == '\\' {
                    if index + 1 >= len {
                        assert(fallback_scan(s@, index + 2, paren_depth as int, bracket_depth as int, brace_depth as int, state) == index + 2);
                        return None;
                    }
                    index = index + 1;
                } else if s[index] == '\'' {
                    state = ScanState::Code;
                }
            },
            _ => {},
        }
        index = index + 1;
    }
    Some(index)
}

/// The fallback following a member access that ends at `me`: `Some((None, me))`
/// when no `?:` follows, `Some((Some(span), end))` with the trimmed span of the
/// fallback expression and where it ends, and `None` when the fallback scan
/// runs past the end of the text.
pub open spec fn fallback_part(s: Seq<char>, me: int) -> Option<(Option<(int, int)>, int)> {
    let fo = ascii_ws_fwd(s, me);
    if !(fo + 2 <= s.len() && s[fo] == '?' && s[fo + 1] == ':') {
        Some((None, me))
    } else {
        let fs = ascii_ws_fwd(s, fo + 2);
        let fe = fallback_scan(s, fs, 0, 0, 0, ScanState::Code);
        if fe > s.len() {
            None
        } else {
            Some((Some((fs, ascii_ws_back(s, fs, fe))), fe))
        }
    }
}

pub open spec fn span_view(p: Option<(usize, usize)>) -> Option<(int, int)> {
    match p {
        Some((a, b)) => Some((a as int, b as int)),
        None => None,
    }
}

pub open spec fn fallback_view(r: Option<(Option<(usize, usize)>, usize)>) -> Option<
    (Option<(int, int)>, int),
> {
    match r {
        Some((f, e)) => Some((span_view(f), e as int)),
        None => None,
    }
}

pub fn parse_null_safe_fallback(s: &[char], member_end: usize) -> (r: Option<
    (Option<(usize, usize)>, usize),
>)
    requires
        member_end <= s@.len(),
    ensures
        fallback_view(r) == fallback_part(s@, member_end as int),
        r matches Some((f, e)) ==> member_end <= e <= s@.len() && (f matches Some((a, b)) ==> a
            <= b <= e),
{
    let fallback_operator = skip_whitespace_forward(s, member_end);
    if !(fallback_operator < s.len() && s.len() - fallback_operator >= 2 && s[fallback_operator]
        == '?' && s[fallback_operator + 1] == ':') {
        return Some((None, member_end));
    }
    let fallback_start = skip_whitespace_forward(s, fallback_operator + 2);
    proof {
        lemma_fallback_scan(s@, fallback_start as int, 0, 0, 0, ScanState::Code);
    }
    let fallback_end = match find_fallback_end(s, fallback_start) {
        Some(e) => e,
        None => return None,
    };
    let fallback_trimmed_end = trim_whitespace_back(s, fallback_start, fallback_end);
    Some((Some((fallback_start, fallback_trimmed_end)), fallback_end))
}

// ---------------------------------------------------------------------------
// One access and its rewrite
// ---------------------------------------------------------------------------
/// The parts of one null-safe access in a text, as spans.
pub struct NullSafeRewrite {
    pub receiver_start: usize,
    pub receiver_end: usize,
    pub member_start: usize,
    pub member_end: usize,
    pub fallback: Option<(usize, usize)>,
    pub end: usize,
}

/// The parts of one null-safe access, as spans over the integers.
pub struct AccessSpans {
    pub receiver_start: int,
    pub receiver_end: int,
    pub member_start: int,
    pub member_end: int,
    pub fallback: Option<(int, int)>,
    pub end: int,
}

impl View for NullSafeRewrite {
    type V = AccessSpans;

    open spec fn view(&self) -> AccessSpans {
        AccessSpans {
            receiver_start: self.receiver_start as int,
            receiver_end: self.receiver_end as int,
            member_start: self.member_start as int,
            member_end: self.member_end as int,
            fallback: span_view(self.fallback),
            end: self.end as int,
        }
    }
}

/// The access whose `?.` is at `op`: `Some(Some(a))` for an access,
/// `Some(None)` when no receiver precedes or no member follows, and `None`
/// when its fallback runs past the end of the text.
pub open spec fn null_safe_access(s: Seq<char>, op: int) -> Option<Option<AccessSpans>> {
    let re = ascii_ws_back(s, 0, op);
    let rs = receiver_back(s, re);
    if rs == re {
        Some(None)
    } else {
        match member_end(s, op + 2) {
            None => Some(None),
            Some(me) => match fallback_part(s, me) {
                None => None,
                Some((fallback, end)) => Some(
                    Some(
                        AccessSpans {
                            receiver_start: rs,
                            receiver_end: re,
                            member_start: op + 2,
                            member_end: me,
                            fallback,
                            end,
                        },
                    ),
                ),
            },
        }
    }
}

pub open spec fn access_wf(s: Seq<char>, op: int, a: AccessSpans) -> bool {
    &&& 0 <= a.receiver_start <= a.receiver_end <= op
    &&& a.member_start == op + 2
    &&& a.member_start < a.member_end <= a.end <= s.len()
    &&& a.fallback matches Some((x, y)) ==> 0 <= x <= y <= s.len()
}

pub proof fn lemma_null_safe_access(s: Seq<char>, op: int)
    requires
        0 <= op,
        op + 2 <= s.len(),
    ensures
        null_safe_access(s, op) matches Some(Some(a)) ==> access_wf(s, op, a),
{
    lemma_ascii_ws_back(s, 0, op);
    let re = ascii_ws_back(s, 0, op);
    lemma_receiver_back(s, re);
    lemma_member_end(s, op + 2);
    if let Some(me) = member_end(s, op + 2) {
        lemma_ascii_ws_fwd(s, me);
        let fo = ascii_ws_fwd(s, me);
        if fo + 2 <= s.len() && s[fo] == '?' && s[fo + 1] == ':' {
            lemma_ascii_ws_fwd(s, fo + 2);
            let fs = ascii_ws_fwd(s, fo + 2);
            lemma_fallback_scan(s, fs, 0, 0, 0, ScanState::Code);
            let fe = fallback_scan(s, fs, 0, 0, 0, ScanState::Code);
            lemma_ascii_ws_back(s, fs, fe);
        }
    }
}

pub open spec fn access_view(r: Option<Option<NullSafeRewrite>>) -> Option<Option<AccessSpans>> {
    match r {
        Some(Some(a)) => Some(Some(a@)),
        Some(None) => Some(None),
        None => None,
    }
}

pub fn parse_null_safe_access(s: &[char], operator: usize) -> (r: Option<Option<NullSafeRewrite>>)
    requires
        operator + 2 <= s@.len(),
    ensures
        access_view(r) == null_safe_access(s@, operator as int),
{
    let len = s.len();
    let receiver_end = skip_whitespace_back(s, operator);
    let receiver_start = match find_receiver_start(s, receiver_end) {
        Some(rs) => rs,
        None => return Some(None),
    };
    let member_start = operator + 2;
    let member_end = match find_member_end(s, member_start) {
        Some(me) => me,
        None => return Some(None),
    };
    proof {
        lemma_member_end(s@, member_start as int);
    }
    let (fallback, end) = match parse_null_safe_fallback(s, member_end) {
        Some(p) => p,
        None => return None,
    };
    Some(
        Some(
            NullSafeRewrite {
                receiver_start,
                receiver_end,
                member_start,
                member_end,
                fallback,
                end,
            },
        ),
    )
}

/// The plain Java that replaces an access.
pub open spec fn access_text(s: Seq<char>, a: AccessSpans) -> Seq<char> {
    let receiver = s.subrange(a.receiver_start, a.receiver_end);
    let member = s.subrange(a.member_start, a.member_end);
    match a.fallback {
        Some((x, y)) => "java.util.Optional.ofNullable("@ + receiver
            + ").map(__jpp_value -> __jpp_value."@ + member + ").orElse("@ + s.subrange(x, y)
            + ")"@,
        None => "("@ + receiver + " == null ? null : "@ + receiver + "."@ + member + ")"@,
    }
}

pub fn generate_null_safe_access(out: &mut String, s: &[char], rewrite: &NullSafeRewrite)
    requires
        rewrite.receiver_start <= rewrite.receiver_end <= s@.len(),
        rewrite.member_start <= rewrite.member_end <= s@.len(),
        rewrite.fallback matches Some((x, y)) ==> x <= y <= s@.len(),
    ensures
        final(out)@ == old(out)@ + access_text(s@, rewrite@),
{
    let ghost s0 = old(out)@;
    let ghost receiver = s@.subrange(rewrite.receiver_start as int, rewrite.receiver_end as int);
    let ghost member = s@.subrange(rewrite.member_start as int, rewrite.member_end as int);
    match rewrite.fallback {
        Some((x, y)) => {
            out.append("java.util.Optional.ofNullable(");
            push_range(out, s, rewrite.receiver_start, rewrite.receiver_end);
            out.append(").map(__jpp_value -> __jpp_value.");
            push_range(out, s, rewrite.member_start, rewrite.member_end);
            out.append(").orElse(");
            push_range(out, s, x, y);
            out.append(")");
            assert(out@ =~= s0 + access_text(s@, rewrite@));
        },
        None => {
            out.append("(");
            push_range(out, s, rewrite.receiver_start, rewrite.receiver_end);
            out.append(" == null ? null : ");
            push_range(out, s, rewrite.receiver_start, rewrite.receiver_end);
            out.append(".");
            push_range(out, s, rewrite.member_start, rewrite.member_end);
            out.append(")");
            assert(out@ =~= s0 + access_text(s@, rewrite@));
        },
    }
}

// ---------------------------------------------------------------------------
// Rewriting a whole text
// ---------------------------------------------------------------------------
pub open spec fn prepend(p: Seq<char>, rest: Option<Seq<char>>) -> Option<Seq<char>> {
    match rest {
        Some(r) => Some(p + r),
        None => None,
    }
}

/// The rewrite of `s[i..]`: every null-safe access in code replaced by its
/// plain Java form, everything else kept.  `None` when the rewrite is
/// undefined: an access whose receiver reaches back before `i` (into text
/// already rewritten), or a fallback that runs past the end of the text.
pub open spec fn rewrite_from(s: Seq<char>, i: int) -> Option<Seq<char>>
    decreases s.len() + 1 - i,
{
    if i < 0 || i >= s.len() {
        Some(seq![])
    } else {
        proof {
            lemma_op_scan(s, i, ScanState::Code);
        }
        match op_scan(s, i, ScanState::Code) {
            None => Some(s.subrange(i, s.len() as int)),
            Some(op) => {
                proof {
                    lemma_null_safe_access(s, op);
                }
                match null_safe_access(s, op) {
                    None => None,
                    Some(None) => prepend(s.subrange(i, op + 1), rewrite_from(s, op + 1)),
                    Some(Some(a)) => if a.receiver_start < i {
                        None
                    } else {
                        prepend(
                            s.subrange(i, a.receiver_start) + access_text(s, a),
                            rewrite_from(s, a.end),
                        )
                    },
                }
            },
        }
    }
}

/// The rewrite of the whole text `s`.
pub open spec fn null_safe_rewrite(s: Seq<char>) -> Option<Seq<char>> {
    rewrite_from(s, 0)
}

/// The rewrite of `s`, or `None` where it is undefined.
pub fn rewrite_chars(s: &[char]) -> (r: Option<String>)
    ensures
        opt_str(r) == null_safe_rewrite(s@),
{
    let len = s.len();
    let mut output = String::new();
    let mut index: usize = 0;
    while index < len
        invariant
            index <= len == s@.len(),
            null_safe_rewrite(s@) == prepend(output@, rewrite_from(s@, index as int)),
        decreases len - index,
    {
        proof {
            lemma_op_scan(s@, index as int, ScanState::Code);
        }
        match find_null_safe_operator(s, index) {
            Some(operator) => {
                proof {
                    lemma_null_safe_access(s@, operator as int);
                }
                match parse_null_safe_access(s, operator) {
                    None => {
                        return None;
                    },
                    Some(Some(rewrite)) => {
                        if rewrite.receiver_start < index {
                            return None;
                        }
                        let ghost before = output@;
                        push_range(&mut output, s, index, rewrite.receiver_start);
                        generate_null_safe_access(&mut output, s, &rewrite);
                        assert(output@ =~= before + (s@.subrange(
                            index as int,
                            rewrite.receiver_start as int,
                        ) + access_text(s@, rewrite@)));
                        index = rewrite.end;
                    },
                    Some(None) => {
                        let ghost before = output@;
                        push_range(&mut output, s, index, operator + 1);
                        index = operator + 1;
                    },
                }
            },
            None => {
                push_range(&mut output, s, index, len);
                return Some(output);
            },
        }
    }
    assert(output@ + Seq::<char>::empty() =~= output@);
    Some(output)
}

/// Rewrites every null-safe access `receiver?.member` in code into
/// `(receiver == null ? null : receiver.member)`, or, with a fallback
/// `receiver?.member ?: fallback`, into
/// `java.util.Optional.ofNullable(receiver).map(__jpp_value -> __jpp_value.member).orElse(fallback)`.
/// Text in string and character literals and in comments is kept as it is.
pub fn rewrite_null_safe_access(source: &str) -> (r: String)
    requires
        null_safe_rewrite(source@) is Some,
    ensures
        r@ == null_safe_rewrite(source@)->Some_0,
{
    let chars = chars_of(source);
    rewrite_chars(chars.as_slice()).unwrap()
}

/// Whether `rewrite_null_safe_access` is defined on `source`.
pub fn can_rewrite_null_safe_access(source: &str) -> (r: bool)
    ensures
        r == (null_safe_rewrite(source@) is Some),
{
    let chars = chars_of(source);
    rewrite_chars(chars.as_slice()).is_some()
}

} // verus!
