//! Character-level text primitives: character classes, trimming, word and
//! line splitting over spans of a character sequence, and string building.
//!
//! Positions are character indices into a `Seq<char>`; a span `(a, b)` is the
//! half-open range `a..b`.
use vstd::prelude::*;

verus! {

/// Unicode `White_Space` (what `char::is_whitespace` accepts).
pub open spec fn is_ws(c: char) -> bool {
    ||| ('\t' <= c && c <= '\r')
    ||| c == ' '
    ||| c == '\u{85}'
    ||| c == '\u{A0}'
    ||| c == '\u{1680}'
    ||| ('\u{2000}' <= c && c <= '\u{200A}')
    ||| c == '\u{2028}'
    ||| c == '\u{2029}'
    ||| c == '\u{202F}'
    ||| c == '\u{205F}'
    ||| c == '\u{3000}'
}

/// ASCII whitespace as `u8::is_ascii_whitespace` defines it (no vertical tab).
pub open spec fn is_ascii_ws(c: char) -> bool {
    c == ' ' || c == '\t' || c == '\n' || c == '\x0C' || c == '\r'
}

pub open spec fn is_ascii_alpha(c: char) -> bool {
    ('a' <= c && c <= 'z') || ('A' <= c && c <= 'Z')
}

pub open spec fn is_ascii_digit(c: char) -> bool {
    '0' <= c && c <= '9'
}

pub open spec fn is_ascii_alnum(c: char) -> bool {
    is_ascii_alpha(c) || is_ascii_digit(c)
}

pub fn is_whitespace(c: char) -> (b: bool)
    ensures
        b == is_ws(c),
{
    ('\t' <= c && c <= '\r') || c == ' ' || c == '\u{85}' || c == '\u{A0}' || c == '\u{1680}'
        || ('\u{2000}' <= c && c <= '\u{200A}') || c == '\u{2028}' || c == '\u{2029}' || c
        == '\u{202F}' || c == '\u{205F}' || c == '\u{3000}'
}

pub fn is_ascii_whitespace(c: char) -> (b: bool)
    ensures
        b == is_ascii_ws(c),
{
    c == ' ' || c == '\t' || c == '\n' || c == '\x0C' || c == '\r'
}

pub fn is_ascii_alphabetic(c: char) -> (b: bool)
    ensures
        b == is_ascii_alpha(c),
{
    ('a' <= c && c <= 'z') || ('A' <= c && c <= 'Z')
}

pub fn is_ascii_alphanumeric(c: char) -> (b: bool)
    ensures
        b == is_ascii_alnum(c),
{
    ('a' <= c && c <= 'z') || ('A' <= c && c <= 'Z') || ('0' <= c && c <= '9')
}

// ---------------------------------------------------------------------------
// Trimming
// ---------------------------------------------------------------------------
/// First position at or after `i` (and before `end`) that is not whitespace.
pub open spec fn ws_skip(s: Seq<char>, i: int, end: int) -> int
    decreases end - i,
{
    if i < end && is_ws(s[i]) {
        ws_skip(s, i + 1, end)
    } else {
        i
    }
}

/// Walks back from `j` over whitespace, not below `start`.
pub open spec fn ws_back(s: Seq<char>, start: int, j: int) -> int
    decreases j - start,
{
    if start < j && is_ws(s[j - 1]) {
        ws_back(s, start, j - 1)
    } else {
        j
    }
}

/// The span of `s[a..b]` with leading and trailing whitespace removed
/// (`str::trim`).
pub open spec fn trim_span(s: Seq<char>, a: int, b: int) -> (int, int) {
    let a2 = ws_skip(s, a, b);
    (a2, ws_back(s, a2, b))
}

pub open spec fn trimmed(s: Seq<char>, a: int, b: int) -> Seq<char> {
    s.subrange(trim_span(s, a, b).0, trim_span(s, a, b).1)
}

/// Every character of `s[a..b]` is whitespace (`s[a..b].trim().is_empty()`).
pub open spec fn all_ws(s: Seq<char>, a: int, b: int) -> bool {
    forall|k: int| a <= k < b ==> is_ws(#[trigger] s[k])
}

pub proof fn lemma_ws_skip(s: Seq<char>, i: int, end: int)
    requires
        i <= end,
    ensures
        i <= ws_skip(s, i, end) <= end,
        forall|k: int| i <= k < ws_skip(s, i, end) ==> is_ws(#[trigger] s[k]),
        ws_skip(s, i, end) < end ==> !is_ws(s[ws_skip(s, i, end)]),
    decreases end - i,
{
    if i < end && is_ws(s[i]) {
        lemma_ws_skip(s, i + 1, end);
    }
}

pub proof fn lemma_ws_back(s: Seq<char>, start: int, j: int)
    requires
        start <= j,
    ensures
        start <= ws_back(s, start, j) <= j,
        forall|k: int| ws_back(s, start, j) <= k < j ==> is_ws(#[trigger] s[k]),
        ws_back(s, start, j) > start ==> !is_ws(s[ws_back(s, start, j) - 1]),
    decreases j - start,
{
    if start < j && is_ws(s[j - 1]) {
        lemma_ws_back(s, start, j - 1);
    }
}

pub proof fn lemma_trim_span(s: Seq<char>, a: int, b: int)
    requires
        a <= b,
    ensures
        a <= trim_span(s, a, b).0 <= trim_span(s, a, b).1 <= b,
        (trim_span(s, a, b).0 == trim_span(s, a, b).1) == all_ws(s, a, b),
{
    lemma_ws_skip(s, a, b);
    let a2 = ws_skip(s, a, b);
    lemma_ws_back(s, a2, b);
    let b2 = ws_back(s, a2, b);
    if a2 == b2 {
        assert forall|k: int| a <= k < b implies is_ws(#[trigger] s[k]) by {
            if k < a2 {
            } else {
            }
        }
    } else {
        assert(!is_ws(s[b2 - 1]));
    }
}

/// The span of `s[a..b]` without its leading and trailing whitespace.
pub fn trim_range(s: &[char], a: usize, b: usize) -> (r: (usize, usize))
    requires
        a <= b <= s@.len(),
    ensures
        r.0 as int == trim_span(s@, a as int, b as int).0,
        r.1 as int == trim_span(s@, a as int, b as int).1,
        a <= r.0 <= r.1 <= b,
{
    proof {
        lemma_trim_span(s@, a as int, b as int);
    }
    let mut i = a;
    while i < b && is_whitespace(s[i])
        invariant
            a <= i <= b <= s@.len(),
            ws_skip(s@, i as int, b as int) == ws_skip(s@, a as int, b as int),
        decreases b - i,
    {
        i = i + 1;
    }
    let mut j = b;
    while j > i && is_whitespace(s[j - 1])
        invariant
            i <= j <= b <= s@.len(),
            i == ws_skip(s@, a as int, b as int),
            ws_back(s@, i as int, j as int) == ws_back(s@, i as int, b as int),
        decreases j - i,
    {
        j = j - 1;
    }
    (i, j)
}

/// The end of `s[a..b]` without its trailing whitespace.
pub fn trim_end_range(s: &[char], a: usize, b: usize) -> (r: usize)
    requires
        a <= b <= s@.len(),
    ensures
        r == ws_back(s@, a as int, b as int),
        a <= r <= b,
{
    proof {
        lemma_ws_back(s@, a as int, b as int);
    }
    let mut j = b;
    while j > a && is_whitespace(s[j - 1])
        invariant
            a <= j <= b <= s@.len(),
            ws_back(s@, a as int, j as int) == ws_back(s@, a as int, b as int),
        decreases j,
    {
        j = j - 1;
    }
    j
}

/// Whether `s[a..b]` consists of whitespace only.
pub fn is_blank_range(s: &[char], a: usize, b: usize) -> (r: bool)
    requires
        a <= b <= s@.len(),
    ensures
        r == all_ws(s@, a as int, b as int),
{
    let mut i = a;
    while i < b
        invariant
            a <= i <= b <= s@.len(),
            all_ws(s@, a as int, i as int),
        decreases b - i,
    {
        if !is_whitespace(s[i]) {
            return false;
        }
        i = i + 1;
    }
    true
}

// ---------------------------------------------------------------------------
// Words (`str::split_whitespace`)
// ---------------------------------------------------------------------------
/// End of the run of non-whitespace characters that starts at `i`.
pub open spec fn word_end(s: Seq<char>, i: int, end: int) -> int
    decreases end - i,
{
    if i < end && !is_ws(s[i]) {
        word_end(s, i + 1, end)
    } else {
        i
    }
}

pub proof fn lemma_word_end(s: Seq<char>, i: int, end: int)
    requires
        i <= end,
    ensures
        i <= word_end(s, i, end) <= end,
        forall|k: int| i <= k < word_end(s, i, end) ==> !is_ws(#[trigger] s[k]),
        word_end(s, i, end) < end ==> is_ws(s[word_end(s, i, end)]),
    decreases end - i,
{
    if i < end && !is_ws(s[i]) {
        lemma_word_end(s, i + 1, end);
    }
}

/// Spans of the whitespace-separated words of `s[i..end]`, in order.
pub open spec fn word_spans(s: Seq<char>, i: int, end: int) -> Seq<(int, int)>
    decreases end - i,
{
    let j = ws_skip(s, i, end);
    if i > end || j >= end {
        seq![]
    } else {
        proof {
            lemma_ws_skip(s, i, end);
        }
        let k = word_end(s, j + 1, end);
        proof {
            lemma_word_end(s, j + 1, end);
        }
        seq![(j, k)] + word_spans(s, k, end)
    }
}

/// The words of `s[i..end]` as character sequences.
pub open spec fn words(s: Seq<char>, i: int, end: int) -> Seq<Seq<char>> {
    span_texts(s, word_spans(s, i, end))
}

pub open spec fn spans_int(v: Seq<(usize, usize)>) -> Seq<(int, int)> {
    v.map_values(|p: (usize, usize)| (p.0 as int, p.1 as int))
}

pub proof fn lemma_word_spans_bounds(s: Seq<char>, i: int, end: int)
    requires
        i <= end,
    ensures
        forall|n: int|
            0 <= n < word_spans(s, i, end).len() ==> i <= (#[trigger] word_spans(s, i, end)[n]).0
                < word_spans(s, i, end)[n].1 <= end,
    decreases end - i,
{
    lemma_ws_skip(s, i, end);
    let j = ws_skip(s, i, end);
    if j < end {
        lemma_word_end(s, j + 1, end);
        let k = word_end(s, j + 1, end);
        lemma_word_spans_bounds(s, k, end);
        assert forall|n: int|
            0 <= n < word_spans(s, i, end).len() implies i <= (#[trigger] word_spans(
            s,
            i,
            end,
        )[n]).0 < word_spans(s, i, end)[n].1 <= end by {
            if n > 0 {
                assert(word_spans(s, i, end)[n] == word_spans(s, k, end)[n - 1]);
            }
        }
    }
}

/// Spans of the whitespace-separated words of `s[from..end]`.
pub fn split_whitespace(s: &[char], from: usize, end: usize) -> (v: Vec<(usize, usize)>)
    requires
        from <= end <= s@.len(),
    ensures
        spans_int(v@) == word_spans(s@, from as int, end as int),
        forall|n: int| 0 <= n < v@.len() ==> from <= (#[trigger] v@[n]).0 < v@[n].1 <= end,
{
    let mut v: Vec<(usize, usize)> = Vec::new();
    let mut i = from;
    proof {
        lemma_word_spans_bounds(s@, from as int, end as int);
    }
    loop
        invariant
            from <= i <= end <= s@.len(),
            word_spans(s@, from as int, end as int) == spans_int(v@) + word_spans(
                s@,
                i as int,
                end as int,
            ),
            forall|n: int| 0 <= n < v@.len() ==> from <= (#[trigger] v@[n]).0 < v@[n].1 <= i,
        decreases end - i,
    {
        let ghost i0 = i;
        proof {
            lemma_ws_skip(s@, i as int, end as int);
        }
        let mut j = i;
        while j < end && is_whitespace(s[j])
            invariant
                i0 <= j <= end <= s@.len(),
                ws_skip(s@, j as int, end as int) == ws_skip(s@, i0 as int, end as int),
            decreases end - j,
        {
            j = j + 1;
        }
        if j >= end {
            assert(spans_int(v@) + word_spans(s@, i as int, end as int) =~= spans_int(v@));
            return v;
        }
        let mut k = j + 1;
        proof {
            lemma_word_end(s@, k as int, end as int);
        }
        while k < end && !is_whitespace(s[k])
            invariant
                j < k <= end <= s@.len(),
                word_end(s@, k as int, end as int) == word_end(s@, j + 1, end as int),
            decreases end - k,
        {
            k = k + 1;
        }
        let ghost old_v = v@;
        v.push((j, k));
        assert(spans_int(v@) =~= spans_int(old_v) + seq![(j as int, k as int)]);
        assert(word_spans(s@, i as int, end as int) == seq![(j as int, k as int)] + word_spans(
            s@,
            k as int,
            end as int,
        ));
        assert(spans_int(v@) + word_spans(s@, k as int, end as int) =~= spans_int(old_v)
            + word_spans(s@, i as int, end as int));
        i = k;
    }
}

// ---------------------------------------------------------------------------
// Lines (`str::lines`)
// ---------------------------------------------------------------------------
/// Position of the first `'\n'` at or after `i` (before `end`), or `end`.
pub open spec fn newline_from(s: Seq<char>, i: int, end: int) -> int
    decreases end - i,
{
    if i < end && s[i] != '\n' {
        newline_from(s, i + 1, end)
    } else {
        i
    }
}

pub proof fn lemma_newline_from(s: Seq<char>, i: int, end: int)
    requires
        i <= end,
    ensures
        i <= newline_from(s, i, end) <= end,
        forall|k: int| i <= k < newline_from(s, i, end) ==> #[trigger] s[k] != '\n',
        newline_from(s, i, end) < end ==> s[newline_from(s, i, end)] == '\n',
    decreases end - i,
{
    if i < end && s[i] != '\n' {
        lemma_newline_from(s, i + 1, end);
    }
}

/// Spans of the lines of `s[i..end]`: split at `'\n'`, a `'\r'` right before
/// a `'\n'` is dropped, and a final line ending adds no empty line.
pub open spec fn line_spans(s: Seq<char>, i: int, end: int) -> Seq<(int, int)>
    decreases end - i,
{
    if i >= end {
        seq![]
    } else {
        proof {
            lemma_newline_from(s, i, end);
        }
        let e = newline_from(s, i, end);
        let ce = if e < end && e > i && s[e - 1] == '\r' {
            e - 1
        } else {
            e
        };
        if e < end {
            seq![(i, ce)] + line_spans(s, e + 1, end)
        } else {
            seq![(i, ce)]
        }
    }
}

pub proof fn lemma_line_spans_bounds(s: Seq<char>, i: int, end: int)
    requires
        i <= end,
    ensures
        forall|n: int|
            0 <= n < line_spans(s, i, end).len() ==> i <= (#[trigger] line_spans(s, i, end)[n]).0
                <= line_spans(s, i, end)[n].1 <= end,
    decreases end - i,
{
    if i < end {
        lemma_newline_from(s, i, end);
        let e = newline_from(s, i, end);
        if e < end {
            lemma_line_spans_bounds(s, e + 1, end);
        }
        assert forall|n: int|
            0 <= n < line_spans(s, i, end).len() implies i <= (#[trigger] line_spans(
            s,
            i,
            end,
        )[n]).0 <= line_spans(s, i, end)[n].1 <= end by {
            if n > 0 {
                assert(line_spans(s, i, end)[n] == line_spans(s, e + 1, end)[n - 1]);
            }
        }
    }
}

/// Spans of the lines of `s[from..end]`.
pub fn lines(s: &[char], from: usize, end: usize) -> (v: Vec<(usize, usize)>)
    requires
        from <= end <= s@.len(),
    ensures
        spans_int(v@) == line_spans(s@, from as int, end as int),
        forall|n: int| 0 <= n < v@.len() ==> from <= (#[trigger] v@[n]).0 <= v@[n].1 <= end,
{
    let mut v: Vec<(usize, usize)> = Vec::new();
    let mut i = from;
    while i < end
        invariant
            from <= i <= end <= s@.len(),
            line_spans(s@, from as int, end as int) == spans_int(v@) + line_spans(
                s@,
                i as int,
                end as int,
            ),
            forall|n: int| 0 <= n < v@.len() ==> from <= (#[trigger] v@[n]).0 <= v@[n].1 <= i,
        decreases end - i,
    {
        let ghost i0 = i;
        proof {
            lemma_newline_from(s@, i as int, end as int);
        }
        let mut e = i;
        while e < end && s[e] != '\n'
            invariant
                i0 <= e <= end <= s@.len(),
                newline_from(s@, e as int, end as int) == newline_from(s@, i0 as int, end as int),
            decreases end - e,
        {
            e = e + 1;
        }
        let ce = if e < end && e > i && s[e - 1] == '\r' {
            e - 1
        } else {
            e
        };
        let ghost old_v = v@;
        v.push((i, ce));
        assert(spans_int(v@) =~= spans_int(old_v) + seq![(i as int, ce as int)]);
        if e < end {
            assert(line_spans(s@, i as int, end as int) == seq![(i as int, ce as int)]
                + line_spans(s@, e + 1, end as int));
            assert(spans_int(v@) + line_spans(s@, e + 1, end as int) =~= spans_int(old_v)
                + line_spans(s@, i as int, end as int));
            i = e + 1;
        } else {
            assert(line_spans(s@, i as int, end as int) =~= seq![(i as int, ce as int)]);
            assert(spans_int(v@) =~= spans_int(old_v) + line_spans(s@, i as int, end as int));
            return v;
        }
    }
    assert(line_spans(s@, i as int, end as int) =~= Seq::<(int, int)>::empty());
    assert(spans_int(v@) + line_spans(s@, i as int, end as int) =~= spans_int(v@));
    v
}

// ---------------------------------------------------------------------------
// Joining
// ---------------------------------------------------------------------------
/// `parts` joined with `sep` between consecutive parts.
pub open spec fn join(parts: Seq<Seq<char>>, sep: Seq<char>) -> Seq<char>
    decreases parts.len(),
{
    if parts.len() == 0 {
        seq![]
    } else if parts.len() == 1 {
        parts[0]
    } else {
        join(parts.drop_last(), sep) + sep + parts.last()
    }
}

/// The texts of the given spans of `s`.
pub open spec fn span_texts(s: Seq<char>, spans: Seq<(int, int)>) -> Seq<Seq<char>> {
    spans.map_values(|p: (int, int)| s.subrange(p.0, p.1))
}

/// Joins the texts of `spans[lo..hi]` of `s` with `sep`.
pub fn join_spans(s: &[char], spans: &Vec<(usize, usize)>, lo: usize, hi: usize, sep: &str) -> (r:
    String)
    requires
        lo <= hi <= spans@.len(),
        forall|n: int| 0 <= n < spans@.len() ==> (#[trigger] spans@[n]).0 <= spans@[n].1 <= s@.len(),
    ensures
        r@ == join(span_texts(s@, spans_int(spans@).subrange(lo as int, hi as int)), sep@),
{
    let ghost texts = span_texts(s@, spans_int(spans@).subrange(lo as int, hi as int));
    let mut r = String::new();
    let mut n = lo;
    while n < hi
        invariant
            lo <= n <= hi <= spans@.len(),
            forall|m: int| 0 <= m < spans@.len() ==> (#[trigger] spans@[m]).0 <= spans@[m].1 <= s@.len(),
            texts == span_texts(s@, spans_int(spans@).subrange(lo as int, hi as int)),
            r@ == join(texts.subrange(0, n - lo), sep@),
        decreases hi - n,
    {
        let (a, b) = spans[n];
        if n > lo {
            r.append(sep);
        }
        push_range(&mut r, s, a, b);
        proof {
            let prefix = texts.subrange(0, n + 1 - lo);
            assert(prefix.last() == s@.subrange(a as int, b as int));
            assert(prefix.drop_last() =~= texts.subrange(0, n - lo));
            if n == lo {
                assert(texts.subrange(0, 0) =~= Seq::<Seq<char>>::empty());
            }
        }
        n = n + 1;
    }
    assert(texts.subrange(0, hi - lo) =~= texts);
    r
}

pub open spec fn opt_str(o: Option<String>) -> Option<Seq<char>> {
    match o {
        Some(t) => Some(t@),
        None => None,
    }
}

// ---------------------------------------------------------------------------
// Building strings
// ---------------------------------------------------------------------------
/// `String::push` appends the character `ch` to the string.
pub assume_specification[ String::push ](string: &mut String, ch: char)
    ensures
        final(string)@ == old(string)@.push(ch),
;

/// `a`, `b` and `c` one after another.
pub fn concat3(a: &str, b: &str, c: &str) -> (r: String)
    ensures
        r@ == a@ + b@ + c@,
{
    let mut r = String::new();
    r.append(a);
    r.append(b);
    r.append(c);
    assert(r@ =~= a@ + b@ + c@);
    r
}

/// Appends `s[a..b]` to `out`.
pub fn push_range(out: &mut String, s: &[char], a: usize, b: usize)
    requires
        a <= b <= s@.len(),
    ensures
        final(out)@ == old(out)@ + s@.subrange(a as int, b as int),
{
    let mut i = a;
    while i < b
        invariant
            a <= i <= b <= s@.len(),
            out@ == old(out)@ + s@.subrange(a as int, i as int),
        decreases b - i,
    {
        out.push(s[i]);
        assert(s@.subrange(a as int, i + 1) =~= s@.subrange(a as int, i as int).push(s@[i as int]));
        i = i + 1;
    }
}

/// The text `s[a..b]` as a new string.
pub fn string_of_range(s: &[char], a: usize, b: usize) -> (r: String)
    requires
        a <= b <= s@.len(),
    ensures
        r@ == s@.subrange(a as int, b as int),
{
    let mut r = String::new();
    push_range(&mut r, s, a, b);
    r
}

/// The characters of `s`.
pub fn chars_of(s: &str) -> (v: Vec<char>)
    ensures
        v@ == s@,
{
    let mut v: Vec<char> = Vec::new();
    for c in it: s.chars()
        invariant
            it.seq() == s@,
            v@ == it.seq().take(it.index() as int),
    {
        v.push(c);
    }
    v
}

/// Whether `s[i..]` starts with `lit`, looking no further than `end`.
pub fn matches_at(s: &[char], i: usize, end: usize, lit: &str) -> (r: bool)
    requires
        i <= end <= s@.len(),
    ensures
        r == (i + lit@.len() <= end && s@.subrange(i as int, i + lit@.len()) == lit@),
{
    let n = lit.unicode_len();
    if n > end - i {
        return false;
    }
    let mut k: usize = 0;
    while k < n
        invariant
            k <= n,
            n == lit@.len(),
            i + n <= end <= s@.len(),
            forall|m: int| 0 <= m < k ==> s@[i + m] == lit@[m],
        decreases n - k,
    {
        if s[i + k] != lit.get_char(k) {
            assert(s@.subrange(i as int, i + n)[k as int] != lit@[k as int]);
            return false;
        }
        k = k + 1;
    }
    assert(s@.subrange(i as int, i + n) =~= lit@);
    true
}

/// Whether `s[a..b]` is exactly `lit`.
pub fn range_is(s: &[char], a: usize, b: usize, lit: &str) -> (r: bool)
    requires
        a <= b <= s@.len(),
    ensures
        r == (s@.subrange(a as int, b as int) == lit@),
{
    let n = lit.unicode_len();
    if n != b - a {
        return false;
    }
    matches_at(s, a, b, lit)
}

} // verus!
