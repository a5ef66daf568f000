//! Properties of parsing and generation as a whole.
use vstd::prelude::*;
use std::path::PathBuf;
use crate::diagnostics::DiagnosticView;
use crate::generator::{
    cat, constructor_text, field_text, final_before, final_props, generated, property_text,
    segment_text, segments_text,
};
use crate::model::{JppFileView, MapperAssignmentView, MapperView, PropertyView, SegmentView};
use crate::scan::QuoteState;
use crate::nullsafe::{null_safe_rewrite, op_scan, rewrite_from, ScanState};
use crate::parser::{
    assignments_from, content_start, mapper_at, mapper_body, mapper_header, mapper_island_at,
    parsed, property_at, property_body, property_header, property_island_at, segments_from,
    lemma_mapper_at, lemma_property_at,
};
use crate::scan::{
    blank_skip, char_from, char_from_is_first, class_name, class_name_from, in_code,
    is_word_char, lemma_run_word, lemma_skip_nonword, lemma_word_char_run, lemma_word_char_skip,
    word_char_run, word_char_skip, island_from, lemma_island_from, opens_mapper, opens_property,
    quote_step, statement_spans, stmt_scan,
};
use crate::text::{join, lemma_trim_span, span_texts, trim_span, trimmed};

verus! {

/// The declared flags of a property are consistent: it is readable or
/// writable, once-only implies readable, final excludes a setter and
/// once-only.
pub open spec fn property_flags_ok(p: PropertyView) -> bool {
    &&& p.getter || p.setter
    &&& p.once ==> p.getter
    &&& p.final_field ==> !p.setter
    &&& !(p.final_field && p.once)
}

/// A mapper has at least one assignment, and each has a non-empty target
/// property, holding no `=`, and a non-empty expression.
pub open spec fn mapper_ok(m: MapperView) -> bool {
    &&& m.assignments.len() > 0
    &&& forall|i: int|
        0 <= i < m.assignments.len() ==> (#[trigger] m.assignments[i]).target_property.len() > 0
            && m.assignments[i].expression.len() > 0 && no_equals(m.assignments[i].target_property)
}

/// `t` is a non-empty piece of `s`, taken as it stands.
pub open spec fn is_piece_of(t: Seq<char>, s: Seq<char>) -> bool {
    exists|x: int, y: int| 0 <= x < y <= s.len() && t == s.subrange(x, y)
}

pub open spec fn segment_ok(s: Seq<char>, seg: SegmentView) -> bool {
    match seg {
        SegmentView::Java(t) => is_piece_of(t, s),
        SegmentView::Property(p) => property_flags_ok(p),
        SegmentView::Mapper(m) => mapper_ok(m),
    }
}

proof fn lemma_property_header_ok(s: Seq<char>, a: int, b: int, loc: crate::diagnostics::SourceLocation)
    ensures
        property_header(s, a, b, loc) matches Ok(p) ==> property_flags_ok(p),
{
}

proof fn lemma_property_at_ok(file: Option<PathBuf>, s: Seq<char>, start: int)
    ensures
        property_at(file, s, start) matches Some(Ok((p, end))) ==> property_flags_ok(p),
{
    let after = content_start(s, start);
    let loc = crate::diagnostics::location_at(file, s, after);
    let hs = after + 4;
    if let Some(he) = crate::scan::header_scan(s, hs, s.len() as int, crate::scan::quote_start()) {
        let (ha, hb) = trim_span(s, hs, he);
        lemma_property_header_ok(s, ha, hb, loc);
    }
}

proof fn lemma_assignments_ok(
    s: Seq<char>,
    st: Seq<(int, int)>,
    k: int,
    loc: crate::diagnostics::SourceLocation,
)
    requires
        0 <= k,
        forall|n: int| 0 <= n < st.len() ==> 0 <= (#[trigger] st[n]).0 <= st[n].1 <= s.len(),
    ensures
        assignments_from(s, st, k, loc) matches Ok(v) ==> forall|i: int|
            0 <= i < v.len() ==> (#[trigger] v[i]).target_property.len() > 0 && v[i].expression.len()
                > 0,
    decreases st.len() - k,
{
    if k < st.len() {
        lemma_assignments_ok(s, st, k + 1, loc);
        let (ta, tb) = trim_span(s, st[k].0, st[k].1);
        if ta != tb {
            if let Some(eq) = crate::scan::char_from(s, ta, tb, '=') {
                crate::scan::lemma_char_from(s, ta, tb, '=');
                lemma_trim_span(s, st[k].0, st[k].1);
                lemma_trim_span(s, ta, eq);
                lemma_trim_span(s, eq + 1, tb);
                if let Ok(v) = assignments_from(s, st, k, loc) {
                    let (xa, xb) = trim_span(s, ta, eq);
                    let (ya, yb) = trim_span(s, eq + 1, tb);
                    if xa != xb && ya != yb {
                        let rest = assignments_from(s, st, k + 1, loc)->Ok_0;
                        assert forall|i: int| 0 <= i < v.len() implies (#[trigger] v[i]).target_property.len()
                            > 0 && v[i].expression.len() > 0 by {
                            if i > 0 {
                                assert(v[i] == rest[i - 1]);
                            }
                        }
                    }
                }
            }
        }
    }
}

proof fn lemma_mapper_at_ok(file: Option<PathBuf>, s: Seq<char>, start: int)
    ensures
        mapper_at(file, s, start) matches Ok((m, end)) ==> mapper_ok(m),
{
    let after = content_start(s, start);
    let loc = crate::diagnostics::location_at(file, s, after);
    let hs = after + 6;
    if let Some(he) = crate::scan::header_scan(s, hs, s.len() as int, crate::scan::quote_start()) {
        if let Some(be) = crate::scan::matching_brace(s, he, s.len() as int) {
            crate::scan::lemma_header_scan(s, hs, s.len() as int, crate::scan::quote_start());
            crate::scan::lemma_brace_scan(s, he, s.len() as int, crate::scan::quote_start(), 0);
            crate::scan::lemma_stmt_scan(s, he + 1, be, crate::scan::quote_start(), 0, he + 1);
            lemma_assignments_ok(s, statement_spans(s, he + 1, be), 0, loc);
            lemma_assignments_split(s, statement_spans(s, he + 1, be), 0, loc);
        }
    }
}

proof fn lemma_segments_ok(file: Option<PathBuf>, s: Seq<char>, cursor: int)
    requires
        0 <= cursor <= s.len(),
    ensures
        segments_from(file, s, cursor) matches Some(Ok(segs)) ==> forall|i: int|
            0 <= i < segs.len() ==> segment_ok(s, #[trigger] segs[i]),
    decreases s.len() - cursor,
{
    lemma_island_from(s, cursor);
    if island_from(s, cursor) is None && cursor < s.len() {
        assert(is_piece_of(s.subrange(cursor, s.len() as int), s));
    }
    if let Some((start, kind)) = island_from(s, cursor) {
        let java: Seq<SegmentView> = if start > cursor {
            seq![SegmentView::Java(s.subrange(cursor, start))]
        } else {
            seq![]
        };
        if start > cursor {
            assert(is_piece_of(s.subrange(cursor, start), s));
        }
        match kind {
            crate::scan::IslandKind::Property => {
                lemma_property_at(file, s, start);
                lemma_property_at_ok(file, s, start);
                if let Some(Ok((p, end))) = property_at(file, s, start) {
                    lemma_segments_ok(file, s, end);
                    if let Some(Ok(rest)) = segments_from(file, s, end) {
                        let segs = java.push(SegmentView::Property(p)) + rest;
                        assert forall|i: int| 0 <= i < segs.len() implies segment_ok(s, #[trigger] segs[i]) by {
                            if i >= java.len() + 1 {
                                assert(segs[i] == rest[i - java.len() - 1]);
                            }
                        }
                    }
                }
            },
            crate::scan::IslandKind::Mapper => {
                lemma_mapper_at(file, s, start);
                lemma_mapper_at_ok(file, s, start);
                if let Ok((m, end)) = mapper_at(file, s, start) {
                    lemma_segments_ok(file, s, end);
                    if let Some(Ok(rest)) = segments_from(file, s, end) {
                        let segs = java.push(SegmentView::Mapper(m)) + rest;
                        assert forall|i: int| 0 <= i < segs.len() implies segment_ok(s, #[trigger] segs[i]) by {
                            if i >= java.len() + 1 {
                                assert(segs[i] == rest[i - java.len() - 1]);
                            }
                        }
                    }
                }
            },
        }
    }
}

/// In a successful parse, every Java segment is a non-empty piece of the
/// source kept as it stands, every property has consistent flags, and every
/// mapper has at least one assignment, each with a non-empty target, which
/// holds no `=`, and a non-empty expression.  The parsed file keeps the
/// source and the path.
pub proof fn parsed_segments_are_well_formed(file: Option<PathBuf>, s: Seq<char>)
    ensures
        parsed(file, s) matches Some(Ok(f)) ==> f.source == s && f.path == file && forall|i: int|
            0 <= i < f.segments.len() ==> segment_ok(s, #[trigger] f.segments[i]),
{
    lemma_segments_ok(file, s, 0);
}

/// A source without extension islands parses into a single Java segment that
/// holds the whole source.
pub proof fn plain_java_is_one_segment(file: Option<PathBuf>, s: Seq<char>)
    requires
        island_from(s, 0) is None,
        s.len() > 0,
    ensures
        parsed(file, s) == Some(
            Ok::<JppFileView, DiagnosticView>(
                JppFileView {
                    path: file,
                    source: s,
                    class_name: class_name(s),
                    segments: seq![SegmentView::Java(s)],
                },
            ),
        ),
{
    assert(s.subrange(0, s.len() as int) =~= s);
}

/// Text without a null-safe operator in code is kept as it is.
pub proof fn rewrite_without_operator_is_identity(s: Seq<char>)
    requires
        op_scan(s, 0, ScanState::Code) is None,
    ensures
        null_safe_rewrite(s) == Some(s),
{
    if s.len() == 0 {
        assert(s =~= Seq::<char>::empty());
    } else {
        assert(s.subrange(0, s.len() as int) =~= s);
    }
}

/// Plain Java stays as it is: a source with a class declaration, no
/// extension island and no null-safe operator in code generates exactly
/// itself.
pub proof fn plain_java_generates_itself(file: Option<PathBuf>, s: Seq<char>)
    requires
        island_from(s, 0) is None,
        op_scan(s, 0, ScanState::Code) is None,
        class_name(s) is Some,
        s.len() > 0,
    ensures
        parsed(file, s) matches Some(Ok(f)) && generated(f) == Some(
            Ok::<Seq<char>, DiagnosticView>(s),
        ),
{
    plain_java_is_one_segment(file, s);
    rewrite_without_operator_is_identity(s);
    let f = parsed(file, s)->Some_0->Ok_0;
    let cn = class_name(s)->Some_0;
    assert(segments_text(cn, f.segments, 0) == Some(Seq::<char>::empty()));
    assert(Seq::<char>::empty() + s =~= s);
}

/// `loc` is the location of some position of `s` in `file`.
pub open spec fn locates_into(loc: crate::diagnostics::SourceLocation, file: Option<PathBuf>, s: Seq<char>) -> bool {
    exists|k: int| 0 <= k <= s.len() && loc == crate::diagnostics::location_at(file, s, k)
}

proof fn lemma_assignment_errors_at(
    s: Seq<char>,
    st: Seq<(int, int)>,
    k: int,
    loc: crate::diagnostics::SourceLocation,
)
    requires
        0 <= k,
    ensures
        assignments_from(s, st, k, loc) matches Err(d) ==> d.location == loc,
    decreases st.len() - k,
{
    if k < st.len() {
        lemma_assignment_errors_at(s, st, k + 1, loc);
    }
}

proof fn lemma_island_errors_locate(file: Option<PathBuf>, s: Seq<char>, start: int)
    requires
        0 <= start < s.len(),
    ensures
        property_at(file, s, start) matches Some(Err(d)) ==> locates_into(d.location, file, s),
        mapper_at(file, s, start) matches Err(d) ==> locates_into(d.location, file, s),
{
    let after = content_start(s, start);
    crate::scan::lemma_blank_skip(s, start, s.len() as int);
    assert(0 <= after <= s.len());
    let loc = crate::diagnostics::location_at(file, s, after);
    assert(locates_into(loc, file, s));
    let hs = after + 6;
    if let Some(he) = crate::scan::header_scan(s, hs, s.len() as int, crate::scan::quote_start()) {
        if let Some(be) = crate::scan::matching_brace(s, he, s.len() as int) {
            lemma_assignment_errors_at(s, statement_spans(s, he + 1, be), 0, loc);
        }
    }
}

proof fn lemma_segment_errors_locate(file: Option<PathBuf>, s: Seq<char>, cursor: int)
    requires
        0 <= cursor <= s.len(),
    ensures
        segments_from(file, s, cursor) matches Some(Err(d)) ==> locates_into(d.location, file, s),
    decreases s.len() - cursor,
{
    lemma_island_from(s, cursor);
    if let Some((start, kind)) = island_from(s, cursor) {
        lemma_island_errors_locate(file, s, start);
        match kind {
            crate::scan::IslandKind::Property => {
                lemma_property_at(file, s, start);
                if let Some(Ok((p, end))) = property_at(file, s, start) {
                    lemma_segment_errors_locate(file, s, end);
                }
            },
            crate::scan::IslandKind::Mapper => {
                lemma_mapper_at(file, s, start);
                if let Ok((m, end)) = mapper_at(file, s, start) {
                    lemma_segment_errors_locate(file, s, end);
                }
            },
        }
    }
}

/// A parse error is located at a position of the parsed source, in the
/// parsed file.
pub proof fn parse_errors_point_into_the_source(file: Option<PathBuf>, s: Seq<char>)
    ensures
        parsed(file, s) matches Some(Err(d)) ==> locates_into(d.location, file, s),
{
    lemma_segment_errors_locate(file, s, 0);
}

// ---------------------------------------------------------------------------
// The segments tile the source
// ---------------------------------------------------------------------------
/// The segment `seg` stands for `s[a..b]`: a Java segment is exactly that
/// text; a property is a declaration there that opens a property
/// (`opens_property`: spaces or tabs, `prop`, a blank, and no Java use of the
/// word) and ends in `;` or `}`; a mapper is one that opens a mapper
/// (`opens_mapper`) and ends in `}`.
pub open spec fn covers(s: Seq<char>, seg: SegmentView, a: int, b: int) -> bool {
    &&& 0 <= a < b <= s.len()
    &&& match seg {
        SegmentView::Java(t) => t == s.subrange(a, b),
        SegmentView::Property(_) => opens_property(s, blank_skip(s, a, s.len() as int)) && (s[b
            - 1] == ';' || s[b - 1] == '}'),
        SegmentView::Mapper(_) => opens_mapper(s, blank_skip(s, a, s.len() as int)) && s[b - 1]
            == '}',
    }
}

/// The cuts `c` split `s[from..]` into one span per segment, in order, and no
/// two Java segments are next to each other.
pub open spec fn tiles_from(s: Seq<char>, segs: Seq<SegmentView>, c: Seq<int>, from: int) -> bool {
    &&& c.len() == segs.len() + 1
    &&& c[0] == from
    &&& c[segs.len() as int] == s.len()
    &&& forall|i: int| 0 <= i < segs.len() ==> covers(s, #[trigger] segs[i], c[i], c[i + 1])
    &&& forall|i: int|
        0 <= i < segs.len() - 1 ==> !((#[trigger] segs[i]) is Java && segs[i + 1] is Java)
}

/// The texts of the spans between consecutive cuts, joined in order.
pub open spec fn spans_joined(s: Seq<char>, c: Seq<int>) -> Seq<char>
    decreases c.len(),
{
    if c.len() < 2 {
        seq![]
    } else {
        s.subrange(c[0], c[1]) + spans_joined(s, c.drop_first())
    }
}

proof fn lemma_spans_joined(s: Seq<char>, c: Seq<int>)
    requires
        c.len() >= 1,
        0 <= c[0],
        c[c.len() - 1] == s.len(),
        forall|i: int| 0 <= i < c.len() - 1 ==> #[trigger] c[i] <= c[i + 1],
    ensures
        spans_joined(s, c) == s.subrange(c[0], s.len() as int),
    decreases c.len(),
{
    if c.len() >= 2 {
        let d = c.drop_first();
        assert forall|i: int| 0 <= i < d.len() - 1 implies #[trigger] d[i] <= d[i + 1] by {
            assert(d[i] == c[i + 1] && d[i + 1] == c[i + 2]);
        }
        assert(c[0] <= c[1]);
        lemma_spans_joined(s, d);
        assert(c[1] <= s.len()) by {
            lemma_cuts_bounded(c, 1);
        }
        assert(s.subrange(c[0], c[1]) + s.subrange(c[1], s.len() as int) =~= s.subrange(
            c[0],
            s.len() as int,
        ));
    } else {
        assert(s.subrange(c[0], s.len() as int) =~= Seq::<char>::empty());
    }
}

proof fn lemma_cuts_bounded(c: Seq<int>, k: int)
    requires
        0 <= k < c.len(),
        forall|i: int| 0 <= i < c.len() - 1 ==> #[trigger] c[i] <= c[i + 1],
    ensures
        c[k] <= c[c.len() - 1],
    decreases c.len() - k,
{
    if k < c.len() - 1 {
        assert(c[k] <= c[k + 1]);
        lemma_cuts_bounded(c, k + 1);
    }
}

#[verifier::rlimit(60)]
proof fn lemma_segments_tile(file: Option<PathBuf>, s: Seq<char>, cursor: int) -> (c: Seq<int>)
    requires
        0 <= cursor <= s.len(),
    ensures
        segments_from(file, s, cursor) matches Some(Ok(segs)) ==> tiles_from(s, segs, c, cursor),
    decreases s.len() - cursor,
{
    lemma_island_from(s, cursor);
    match island_from(s, cursor) {
        None => {
            if cursor < s.len() {
                seq![cursor, s.len() as int]
            } else {
                seq![cursor]
            }
        },
        Some((start, kind)) => {
            let java: Seq<SegmentView> = if start > cursor {
                seq![SegmentView::Java(s.subrange(cursor, start))]
            } else {
                seq![]
            };
            let head: Seq<int> = if start > cursor {
                seq![cursor, start]
            } else {
                seq![start]
            };
            let island: Option<(SegmentView, int)> = match kind {
                crate::scan::IslandKind::Property => {
                    lemma_property_at(file, s, start);
                    match property_at(file, s, start) {
                        Some(Ok((p, end))) => Some((SegmentView::Property(p), end)),
                        _ => None,
                    }
                },
                crate::scan::IslandKind::Mapper => {
                    lemma_mapper_at(file, s, start);
                    match mapper_at(file, s, start) {
                        Ok((m, end)) => Some((SegmentView::Mapper(m), end)),
                        _ => None,
                    }
                },
            };
            match island {
                None => seq![],
                Some((seg, end)) => {
                    let rest_c = lemma_segments_tile(file, s, end);
                    let c = head + rest_c;
                    if let Some(Ok(rest)) = segments_from(file, s, end) {
                        let segs = java.push(seg) + rest;
                        assert(segments_from(file, s, cursor) == Some(
                            Ok::<Seq<SegmentView>, DiagnosticView>(segs),
                        ));
                        let n = java.len() as int;
                        assert(c[n] == start);
                        assert(c[n + 1] == end);
                        assert(segs[n] == seg);
                        assert forall|i: int| 0 <= i < segs.len() implies covers(
                            s,
                            #[trigger] segs[i],
                            c[i],
                            c[i + 1],
                        ) by {
                            if i > n {
                                assert(segs[i] == rest[i - n - 1]);
                                assert(c[i] == rest_c[i - n - 1]);
                                assert(c[i + 1] == rest_c[i - n]);
                            }
                        }
                        assert forall|i: int| 0 <= i < segs.len() - 1 implies !((
                        #[trigger] segs[i]) is Java && segs[i + 1] is Java) by {
                            if i > n {
                                assert(segs[i] == rest[i - n - 1]);
                                assert(segs[i + 1] == rest[i - n]);
                            } else if i < n {
                                assert(segs[i + 1] == seg);
                            }
                        }
                        assert(c[segs.len() as int] == rest_c[rest.len() as int]);
                    }
                    c
                },
            }
        },
    }
}

/// The segments of a successful parse tile the source: there are cuts from
/// the start of the source to its end, one span between consecutive cuts for
/// each segment in order, such that each Java segment is exactly the text of
/// its span, each property span is a `prop` declaration ending in `;` or
/// `}`, each mapper span a `mapper` declaration ending in `}`, and no two
/// Java segments are next to each other. The spans, joined in order, give
/// back the source.
pub proof fn parsed_segments_tile_the_source(file: Option<PathBuf>, s: Seq<char>)
    ensures
        parsed(file, s) matches Some(Ok(f)) ==> exists|c: Seq<int>|
            tiles_from(s, f.segments, c, 0) && spans_joined(s, c) == s,
{
    let c = lemma_segments_tile(file, s, 0);
    if let Some(Ok(f)) = parsed(file, s) {
        assert forall|i: int| 0 <= i < c.len() - 1 implies #[trigger] c[i] <= c[i + 1] by {
            assert(covers(s, f.segments[i], c[i], c[i + 1]));
        }
        lemma_spans_joined(s, c);
        assert(s.subrange(0, s.len() as int) =~= s);
    }
}

// ---------------------------------------------------------------------------
// Mapper statements join back into the body
// ---------------------------------------------------------------------------
proof fn lemma_join_prepend(x: Seq<char>, r: Seq<Seq<char>>, sep: Seq<char>)
    ensures
        join(seq![x] + r, sep) == if r.len() == 0 {
            x
        } else {
            x + sep + join(r, sep)
        },
    decreases r.len(),
{
    let xs = seq![x] + r;
    if r.len() == 1 {
        assert(xs.drop_last() =~= seq![x]);
        assert(join(seq![x], sep) == x);
        assert(xs.last() == r[0]);
        assert(join(r, sep) == r[0]);
    } else if r.len() > 1 {
        assert(xs.drop_last() =~= seq![x] + r.drop_last());
        assert(xs.last() == r.last());
        lemma_join_prepend(x, r.drop_last(), sep);
        assert(x + sep + join(r.drop_last(), sep) + sep + r.last() =~= x + sep + (join(
            r.drop_last(),
            sep,
        ) + sep + r.last()));
    } else {
        assert(xs =~= seq![x]);
    }
}

proof fn lemma_stmt_join(
    s: Seq<char>,
    i: int,
    end: int,
    st: QuoteState,
    depth: int,
    start: int,
)
    requires
        0 <= start <= i <= end <= s.len(),
    ensures
        (stmt_scan(s, i, end, st, depth, start).len() == 0) == (start == end),
        join(span_texts(s, stmt_scan(s, i, end, st, depth, start)), seq![';']) == s.subrange(start, end)
            || join(span_texts(s, stmt_scan(s, i, end, st, depth, start)), seq![';']) + seq![';']
            == s.subrange(start, end),
    decreases end - i,
{
    let v = stmt_scan(s, i, end, st, depth, start);
    if i >= end {
        if start < end {
            assert(span_texts(s, v) =~= seq![s.subrange(start, end)]);
        } else {
            assert(span_texts(s, v) =~= Seq::<Seq<char>>::empty());
            assert(s.subrange(start, end) =~= Seq::<char>::empty());
        }
    } else {
        let ch = s[i];
        if in_code(st) && (ch == '(' || ch == '[' || ch == '{') {
            lemma_stmt_join(s, i + 1, end, st, depth + 1, start);
        } else if in_code(st) && (ch == ')' || ch == ']' || ch == '}') && depth > 0 {
            lemma_stmt_join(s, i + 1, end, st, depth - 1, start);
        } else if in_code(st) && ch == ';' && depth == 0 {
            lemma_stmt_join(s, i + 1, end, st, depth, i + 1);
            let rest = stmt_scan(s, i + 1, end, st, depth, i + 1);
            let x = s.subrange(start, i);
            assert(span_texts(s, v) =~= seq![x] + span_texts(s, rest));
            lemma_join_prepend(x, span_texts(s, rest), seq![';']);
            let jr = join(span_texts(s, rest), seq![';']);
            let tail = s.subrange(i + 1, end);
            assert(s.subrange(start, end) =~= x + seq![';'] + tail);
            if rest.len() == 0 {
                assert(tail =~= Seq::<char>::empty());
                assert(x + seq![';'] =~= s.subrange(start, end));
            } else if jr != tail {
                assert(x + seq![';'] + jr + seq![';'] =~= x + seq![';'] + (jr + seq![';']));
            }
        } else {
            lemma_stmt_join(s, i + 1, end, quote_step(st, ch), depth, start);
        }
    }
}

/// The statements of a mapper body, joined with `;`, give back the body, or
/// the body without its final `;`.
pub proof fn mapper_statements_rejoin(s: Seq<char>, a: int, b: int)
    requires
        0 <= a <= b <= s.len(),
    ensures
        join(span_texts(s, statement_spans(s, a, b)), seq![';']) == s.subrange(a, b) || join(
            span_texts(s, statement_spans(s, a, b)),
            seq![';'],
        ) + seq![';'] == s.subrange(a, b),
{
    lemma_stmt_join(s, a, b, crate::scan::quote_start(), 0, a);
}

// ---------------------------------------------------------------------------
// Generation, segment by segment
// ---------------------------------------------------------------------------
/// `seg` is a final property.
pub open spec fn is_final_property(seg: SegmentView) -> bool {
    seg matches SegmentView::Property(p) && p.final_field
}

proof fn lemma_cat_assoc(x: Option<Seq<char>>, y: Option<Seq<char>>, z: Option<Seq<char>>)
    ensures
        cat(cat(x, y), z) == cat(x, cat(y, z)),
{
    if let (Some(a), Some(b), Some(c)) = (x, y, z) {
        assert(a + b + c =~= a + (b + c));
    }
}

proof fn lemma_final_props_concat(a: Seq<SegmentView>, b: Seq<SegmentView>)
    ensures
        final_props(a + b) == final_props(a) + final_props(b),
    decreases b.len(),
{
    if b.len() == 0 {
        assert(a + b =~= a);
        assert(final_props(a) + final_props(b) =~= final_props(a));
    } else {
        assert((a + b).drop_last() =~= a + b.drop_last());
        assert((a + b).last() == b.last());
        lemma_final_props_concat(a, b.drop_last());
        let fa = final_props(a);
        let fb = final_props(b.drop_last());
        if let SegmentView::Property(p) = b.last() {
            if p.final_field {
                assert((fa + fb).push(p) =~= fa + fb.push(p));
            }
        }
    }
}

proof fn lemma_no_final_props(a: Seq<SegmentView>)
    requires
        !final_before(a, a.len() as int),
    ensures
        final_props(a) == Seq::<PropertyView>::empty(),
    decreases a.len(),
{
    if a.len() > 0 {
        let d = a.drop_last();
        if final_before(d, d.len() as int) {
            let j = choose|j: int|
                0 <= j < d.len() && (#[trigger] d[j] matches SegmentView::Property(p) && p.final_field);
            assert(a[j] == d[j]);
        }
        lemma_no_final_props(d);
        let last_index = a.len() - 1;
        assert(a[last_index] == a.last());
    }
}

proof fn lemma_final_before_prefix(a: Seq<SegmentView>, b: Seq<SegmentView>, k: int)
    requires
        0 <= k <= a.len(),
    ensures
        final_before(a + b, k) == final_before(a, k),
{
    if final_before(a + b, k) {
        let j = choose|j: int|
            0 <= j < k && (#[trigger] (a + b)[j] matches SegmentView::Property(p) && p.final_field);
        assert((a + b)[j] == a[j]);
    }
    if final_before(a, k) {
        let j = choose|j: int|
            0 <= j < k && (#[trigger] a[j] matches SegmentView::Property(p) && p.final_field);
        assert((a + b)[j] == a[j]);
    }
}

proof fn lemma_final_before_suffix(a: Seq<SegmentView>, b: Seq<SegmentView>, k: int)
    requires
        0 <= k <= b.len(),
        !final_before(a, a.len() as int),
    ensures
        final_before(a + b, a.len() + k) == final_before(b, k),
{
    let n = a.len() as int;
    if final_before(a + b, n + k) {
        let j = choose|j: int|
            0 <= j < n + k && (#[trigger] (a + b)[j] matches SegmentView::Property(p)
                && p.final_field);
        if j < n {
            assert((a + b)[j] == a[j]);
        } else {
            assert((a + b)[j] == b[j - n]);
        }
    }
    if final_before(b, k) {
        let j = choose|j: int|
            0 <= j < k && (#[trigger] b[j] matches SegmentView::Property(p) && p.final_field);
        assert((a + b)[n + j] == b[j]);
    }
}

/// Only a final property's text depends on the final properties and on
/// whether the constructor was already written.
proof fn lemma_segment_text_fixed(
    cn: Seq<char>,
    f1: Seq<PropertyView>,
    f2: Seq<PropertyView>,
    seg: SegmentView,
    e1: bool,
    e2: bool,
)
    requires
        !is_final_property(seg),
    ensures
        segment_text(cn, f1, seg, e1) == segment_text(cn, f2, seg, e2),
{
}

proof fn lemma_not_final_at(a: Seq<SegmentView>, i: int)
    requires
        0 <= i < a.len(),
        !final_before(a, a.len() as int),
    ensures
        !is_final_property(a[i]),
{
}

proof fn lemma_text_prefix(cn: Seq<char>, a: Seq<SegmentView>, b: Seq<SegmentView>, k: int)
    requires
        0 <= k <= a.len(),
        !final_before(a, a.len() as int) || !final_before(b, b.len() as int),
    ensures
        segments_text(cn, a + b, k) == segments_text(cn, a, k),
    decreases k,
{
    if k > 0 {
        lemma_text_prefix(cn, a, b, k - 1);
        lemma_final_before_prefix(a, b, k - 1);
        assert((a + b)[k - 1] == a[k - 1]);
        lemma_final_props_concat(a, b);
        if !final_before(a, a.len() as int) {
            lemma_not_final_at(a, k - 1);
            lemma_segment_text_fixed(
                cn,
                final_props(a + b),
                final_props(a),
                a[k - 1],
                final_before(a, k - 1),
                final_before(a, k - 1),
            );
        } else {
            lemma_no_final_props(b);
            assert(final_props(a) + final_props(b) =~= final_props(a));
        }
    }
}

proof fn lemma_text_suffix(cn: Seq<char>, a: Seq<SegmentView>, b: Seq<SegmentView>, k: int)
    requires
        0 <= k <= b.len(),
        !final_before(a, a.len() as int) || !final_before(b, b.len() as int),
    ensures
        segments_text(cn, a + b, a.len() + k) == cat(
            segments_text(cn, a, a.len() as int),
            segments_text(cn, b, k),
        ),
    decreases k,
{
    let n = a.len() as int;
    if k == 0 {
        lemma_text_prefix(cn, a, b, n);
        if let Some(x) = segments_text(cn, a, n) {
            assert(x + Seq::<char>::empty() =~= x);
        }
    } else {
        lemma_text_suffix(cn, a, b, k - 1);
        assert((a + b)[n + k - 1] == b[k - 1]);
        lemma_final_props_concat(a, b);
        let seg_ab = segment_text(cn, final_props(a + b), b[k - 1], final_before(a + b, n + k - 1));
        let seg_b = segment_text(cn, final_props(b), b[k - 1], final_before(b, k - 1));
        if !final_before(a, n) {
            lemma_no_final_props(a);
            assert(final_props(a) + final_props(b) =~= final_props(b));
            lemma_final_before_suffix(a, b, k - 1);
        } else {
            lemma_not_final_at(b, k - 1);
            lemma_segment_text_fixed(
                cn,
                final_props(a + b),
                final_props(b),
                b[k - 1],
                final_before(a + b, n + k - 1),
                final_before(b, k - 1),
            );
        }
        assert(seg_ab == seg_b);
        lemma_cat_assoc(segments_text(cn, a, n), segments_text(cn, b, k - 1), seg_b);
    }
}

/// `f` with its segments replaced by `segs`.
pub open spec fn with_segments(f: JppFileView, segs: Seq<SegmentView>) -> JppFileView {
    JppFileView { segments: segs, ..f }
}

/// Two generated outputs one after the other, when both are defined.
pub open spec fn outputs_joined(
    x: Option<Result<Seq<char>, DiagnosticView>>,
    y: Option<Result<Seq<char>, DiagnosticView>>,
) -> Option<Result<Seq<char>, DiagnosticView>> {
    match (x, y) {
        (Some(Ok(u)), Some(Ok(v))) => Some(Ok(u + v)),
        _ => None,
    }
}

/// Generation works segment by segment: for a file with a class name, the
/// Java for the segments `a` followed by `b` is the Java for `a` followed by
/// the Java for `b`, when one of the two lists has no final property (the
/// constructor goes after the first final property of the whole file).
pub proof fn generation_concatenates(base: JppFileView, a: Seq<SegmentView>, b: Seq<SegmentView>)
    requires
        base.class_name is Some,
        !final_before(a, a.len() as int) || !final_before(b, b.len() as int),
    ensures
        generated(with_segments(base, a + b)) == outputs_joined(
            generated(with_segments(base, a)),
            generated(with_segments(base, b)),
        ),
{
    let cn = base.class_name->Some_0;
    lemma_text_suffix(cn, a, b, b.len() as int);
    assert((a + b).len() == a.len() + b.len());
}

/// A property's Java with the constructor left out is its Java as it is
/// written once a constructor exists.  The constructor is written only for a
/// final property when none was written yet, right after the field, and the
/// rest is unchanged.
pub proof fn constructor_follows_first_final_field(
    class_name: Seq<char>,
    p: PropertyView,
    finals: Seq<PropertyView>,
    emitted: bool,
)
    ensures
        (property_text(class_name, p, finals, emitted) is Some) == (property_text(
            class_name,
            p,
            finals,
            true,
        ) is Some),
        property_text(class_name, p, finals, true) matches Some(r1) ==> {
            &&& r1.len() >= field_text(p).len()
            &&& r1.subrange(0, field_text(p).len() as int) == field_text(p)
            &&& property_text(class_name, p, finals, emitted) == Some(
                if p.final_field && !emitted {
                    field_text(p) + "\n"@ + constructor_text(class_name, finals, p.indent)
                        + r1.subrange(field_text(p).len() as int, r1.len() as int)
                } else {
                    r1
                },
            )
        },
{
    let field = field_text(p);
    let ctor = "\n"@ + constructor_text(class_name, finals, p.indent);
    if let Some(r1) = property_text(class_name, p, finals, true) {
        let getter = if p.getter {
            cat(Some("\n"@), crate::generator::getter_text(p, p.indent))
        } else {
            Some(seq![])
        };
        let setter = if p.setter || p.once {
            cat(Some("\n"@), crate::generator::setter_text(class_name, p, p.indent))
        } else {
            Some(seq![])
        };
        let g = getter->Some_0;
        let t = setter->Some_0;
        assert(field + Seq::<char>::empty() =~= field);
        assert(r1 == field + g + t);
        assert(r1.subrange(0, field.len() as int) =~= field);
        assert(r1.subrange(field.len() as int, r1.len() as int) =~= g + t);
        assert(field + ctor + g + t =~= field + "\n"@ + constructor_text(class_name, finals, p.indent)
            + (g + t));
    }
}

/// In the Java for a list of segments, only the first final property is
/// written with the constructor: every other segment is written as it is
/// once a constructor exists.
pub proof fn constructor_only_at_first_final(cn: Seq<char>, segs: Seq<SegmentView>, i: int)
    requires
        0 <= i < segs.len(),
        !is_final_property(segs[i]) || final_before(segs, i),
    ensures
        segment_text(cn, final_props(segs), segs[i], final_before(segs, i)) == segment_text(
            cn,
            final_props(segs),
            segs[i],
            true,
        ),
{
}

// ---------------------------------------------------------------------------
// Mapper assignments split at the first `=`
// ---------------------------------------------------------------------------
/// `target = expression` is the text `s[ta..tb]` split at its first `=`: the
/// target is the trimmed text before that `=`, which holds no `=`, and the
/// expression is the trimmed text after it.
pub open spec fn split_at_first_equals(
    s: Seq<char>,
    ta: int,
    tb: int,
    target: Seq<char>,
    expression: Seq<char>,
) -> bool {
    exists|eq: int|
        #![trigger trimmed(s, ta, eq)]
        ta <= eq < tb && s[eq] == '=' && (forall|m: int| ta <= m < eq ==> s[m] != '=') && target
            == trimmed(s, ta, eq) && expression == trimmed(s, eq + 1, tb)
}

/// The assignment `x` comes from one of the statements `st`: it is that
/// statement, trimmed, split at its first `=`.
pub open spec fn from_statement(s: Seq<char>, st: Seq<(int, int)>, x: MapperAssignmentView) -> bool {
    exists|n: int|
        0 <= n < st.len() && split_at_first_equals(
            s,
            trim_span(s, (#[trigger] st[n]).0, st[n].1).0,
            trim_span(s, st[n].0, st[n].1).1,
            x.target_property,
            x.expression,
        )
}

/// `t` holds no `=`.
pub open spec fn no_equals(t: Seq<char>) -> bool {
    forall|m: int| 0 <= m < t.len() ==> t[m] != '='
}

proof fn lemma_assignments_split(
    s: Seq<char>,
    st: Seq<(int, int)>,
    k: int,
    loc: crate::diagnostics::SourceLocation,
)
    requires
        0 <= k,
        forall|n: int| 0 <= n < st.len() ==> 0 <= (#[trigger] st[n]).0 <= st[n].1 <= s.len(),
    ensures
        assignments_from(s, st, k, loc) matches Ok(v) ==> forall|i: int|
            0 <= i < v.len() ==> from_statement(s, st, #[trigger] v[i]) && no_equals(
                v[i].target_property,
            ),
    decreases st.len() - k,
{
    if k < st.len() {
        lemma_assignments_split(s, st, k + 1, loc);
        let (ta, tb) = trim_span(s, st[k].0, st[k].1);
        lemma_trim_span(s, st[k].0, st[k].1);
        if ta != tb {
            char_from_is_first(s, ta, tb, '=');
            if let Some(eq) = char_from(s, ta, tb, '=') {
                lemma_trim_span(s, ta, eq);
                if let Ok(v) = assignments_from(s, st, k, loc) {
                    let (xa, xb) = trim_span(s, ta, eq);
                    let (ya, yb) = trim_span(s, eq + 1, tb);
                    if xa != xb && ya != yb {
                        let rest = assignments_from(s, st, k + 1, loc)->Ok_0;
                        assert forall|i: int| 0 <= i < v.len() implies from_statement(
                            s,
                            st,
                            #[trigger] v[i],
                        ) && no_equals(v[i].target_property) by {
                            if i > 0 {
                                assert(v[i] == rest[i - 1]);
                            } else {
                                assert(v[0].target_property == trimmed(s, ta, eq));
                                assert(split_at_first_equals(
                                    s,
                                    ta,
                                    tb,
                                    v[0].target_property,
                                    v[0].expression,
                                ));
                                assert(st[k] == st[k]);
                                assert forall|m: int|
                                    0 <= m < v[0].target_property.len() implies v[0].target_property[m]
                                    != '=' by {
                                    assert(v[0].target_property[m] == s[xa + m]);
                                }
                            }
                        }
                    }
                }
            }
        }
    }
}

/// A mapper body's assignments come from its statements in this way: each
/// is one statement, trimmed, split at its first `=`; so no target property
/// holds an `=`.
pub proof fn mapper_assignments_split_at_first_equals(
    s: Seq<char>,
    a: int,
    b: int,
    loc: crate::diagnostics::SourceLocation,
)
    requires
        0 <= a <= b <= s.len(),
    ensures
        mapper_body(s, a, b, loc) matches Ok(asg) ==> forall|i: int|
            0 <= i < asg.len() ==> from_statement(s, statement_spans(s, a, b), #[trigger] asg[i])
                && no_equals(asg[i].target_property),
{
    crate::scan::lemma_stmt_scan(s, a, b, crate::scan::quote_start(), 0, a);
    lemma_assignments_split(s, statement_spans(s, a, b), 0, loc);
}

// ---------------------------------------------------------------------------
// The class name
// ---------------------------------------------------------------------------
/// `s[p..q]` is a word: a maximal run of ASCII letters, digits and `_`.
pub open spec fn is_word(s: Seq<char>, p: int, q: int) -> bool {
    &&& 0 <= p < q <= s.len()
    &&& forall|m: int| p <= m < q ==> is_word_char(#[trigger] s[m])
    &&& p == 0 || !is_word_char(s[p - 1])
    &&& q == s.len() || !is_word_char(s[q])
}

/// `s[p..q]` is the word `class`.
pub open spec fn is_class_word(s: Seq<char>, p: int, q: int) -> bool {
    is_word(s, p, q) && s.subrange(p, q) == "class"@
}

/// No word character lies in `s[a..b]`.
pub open spec fn no_word_chars(s: Seq<char>, a: int, b: int) -> bool {
    forall|m: int| a <= m < b ==> !is_word_char(#[trigger] s[m])
}

proof fn lemma_word_unique(s: Seq<char>, p: int, q: int, r: int)
    requires
        is_word(s, p, q),
        is_word(s, p, r),
    ensures
        q == r,
{
    if q < r {
        assert(is_word_char(s[q]));
    } else if r < q {
        assert(is_word_char(s[r]));
    }
}

proof fn lemma_class_name_from(s: Seq<char>, i: int, prev: bool, pp: int)
    requires
        0 <= i <= s.len(),
        i == 0 || i == s.len() || !is_word_char(s[i]),
        prev ==> is_class_word(s, pp, i),
        prev ==> forall|p: int, q: int| is_class_word(s, p, q) ==> pp <= p,
        !prev ==> forall|p: int, q: int| is_class_word(s, p, q) ==> i <= p,
    ensures
        match class_name_from(s, i, prev) {
            Some((j, k)) => is_word(s, j, k) && exists|p: int, q: int|
                is_class_word(s, p, q) && q <= j && no_word_chars(s, q, j) && forall|
                    p2: int,
                    q2: int,
                | is_class_word(s, p2, q2) ==> p <= p2,
            None => forall|p: int, q: int|
                is_class_word(s, p, q) ==> no_word_chars(s, q, s.len() as int),
        },
    decreases s.len() - i,
{
    lemma_word_char_skip(s, i);
    lemma_skip_nonword(s, i);
    let j = word_char_skip(s, i);
    if j >= s.len() {
        assert forall|p: int, q: int| is_class_word(s, p, q) implies no_word_chars(
            s,
            q,
            s.len() as int,
        ) by {
            if prev {
                if p != pp {
                    // a later word would start at or after `i`, where no word
                    // character is left
                    assert(is_word_char(s[p]));
                    if p < i {
                        assert(pp < p);
                        assert(is_word_char(s[p - 1]));
                    }
                }
                lemma_word_unique(s, pp, q, i);
            } else {
                assert(is_word_char(s[p]));
            }
        }
    } else {
        lemma_run_word(s, j + 1);
        lemma_word_char_run(s, j + 1);
        let k = word_char_run(s, j + 1);
        assert(is_word_char(s[j]));
        if j > i {
            assert(!is_word_char(s[j - 1]));
        }
        assert(is_word(s, j, k));
        if prev {
            assert(is_class_word(s, pp, i) && i <= j && no_word_chars(s, i, j));
        } else {
            let c = s.subrange(j, k) == "class"@;
            assert forall|p: int, q: int| is_class_word(s, p, q) implies (if c {
                j <= p
            } else {
                k <= p
            }) by {
                if p < j {
                    assert(is_word_char(s[p]));
                }
                if p == j {
                    lemma_word_unique(s, j, q, k);
                }
                if j < p < k {
                    assert(is_word_char(s[p - 1]));
                }
            }
            lemma_class_name_from(s, k, c, j);
        }
    }
}

/// The class name is the word right after the first word `class` of the
/// source: a word, preceded (past characters that are not word characters)
/// by a word `class` that no other word `class` comes before. When there is
/// none, no word follows any word `class`.
pub proof fn class_name_follows_first_class(s: Seq<char>)
    ensures
        match class_name_from(s, 0, false) {
            Some((j, k)) => class_name(s) == Some(s.subrange(j, k)) && is_word(s, j, k) && exists|
                p: int,
                q: int,
            |
                is_class_word(s, p, q) && q <= j && no_word_chars(s, q, j) && forall|
                    p2: int,
                    q2: int,
                | is_class_word(s, p2, q2) ==> p <= p2,
            None => class_name(s) is None && forall|p: int, q: int|
                is_class_word(s, p, q) ==> no_word_chars(s, q, s.len() as int),
        },
{
    lemma_class_name_from(s, 0, false, 0);
}

} // verus!
