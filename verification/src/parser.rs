//! Parsing of `.jpp` sources into Java text segments and extension islands
//! (`prop` properties and `mapper` methods).
use vstd::prelude::*;
use std::path::{Path, PathBuf};
use crate::diagnostics::{
    diag, diag_hint, location_at, location_at_index, Diagnostic, DiagnosticView, JppResult,
    SourceLocation,
};
use crate::model::{
    JppFile, JppFileView, Mapper, MapperAssignment, MapperAssignmentView, MapperView, Property,
    PropertyView, Segment, SegmentView, assignments_view, segments_view,
};
use crate::paths::{owned_path_opt, to_path_buf_opt};
use crate::scan::{
    blank_skip, body_edges, char_from, class_name, find_char, find_class_name,
    find_extension_island, find_header_end, find_matching_brace, find_set_block, header_scan,
    island_from, lemma_blank_skip, lemma_brace_open, lemma_brace_scan, lemma_char_from, lemma_header_scan,
    lemma_island_from, lemma_set_block_from, matching_brace, quote_start,
    set_block_from, skip_blanks, split_mapper_statements, starts_at, statement_spans,
    trim_body_edges, ExtensionIsland, IslandKind,
};
use crate::text::{
    chars_of, concat3, is_blank_range, join, join_spans, lemma_trim_span, lemma_word_spans_bounds,
    range_is, span_texts, spans_int, split_whitespace, string_of_range, trim_range, trim_span,
    word_spans, words,
};

verus! {

// ---------------------------------------------------------------------------
// Property headers
// ---------------------------------------------------------------------------
pub open spec fn is_modifier(t: Seq<char>) -> bool {
    t == "get"@ || t == "set"@ || t == "once"@ || t == "final"@
}

/// Index of the first token from `i` on that is not a modifier.
pub open spec fn modifiers_end(toks: Seq<Seq<char>>, i: int) -> int
    decreases toks.len() - i,
{
    if 0 <= i < toks.len() && is_modifier(toks[i]) {
        modifiers_end(toks, i + 1)
    } else {
        i
    }
}

pub proof fn lemma_modifiers_end(toks: Seq<Seq<char>>, i: int)
    requires
        0 <= i <= toks.len(),
    ensures
        i <= modifiers_end(toks, i) <= toks.len(),
        forall|j: int| i <= j < modifiers_end(toks, i) ==> is_modifier(#[trigger] toks[j]),
    decreases toks.len() - i,
{
    if 0 <= i < toks.len() && is_modifier(toks[i]) {
        lemma_modifiers_end(toks, i + 1);
    }
}

/// Whether one of the first `n` tokens is `w`.
pub open spec fn has_token(toks: Seq<Seq<char>>, n: int, w: Seq<char>) -> bool {
    exists|j: int| 0 <= j < n && toks[j] == w
}

/// The property declared by the header `s[a..b]` (the text between `prop`
/// and its `;` or `{`): modifiers `get`, `set`, `once`, `final`, then the
/// type (one or more words, joined by single spaces) and the name.
pub open spec fn property_header(s: Seq<char>, a: int, b: int, loc: SourceLocation) -> Result<
    PropertyView,
    DiagnosticView,
> {
    let toks = words(s, a, b);
    if toks.len() < 3 {
        Err(
            diag_hint(
                "JPP1000"@,
                "Property declaration is incomplete."@,
                "Use a form such as 'prop get set String firstName;'."@,
                loc,
            ),
        )
    } else {
        let n = modifiers_end(toks, 0);
        let getter = has_token(toks, n, "get"@);
        let setter = has_token(toks, n, "set"@);
        let once = has_token(toks, n, "once"@);
        let final_field = has_token(toks, n, "final"@);
        if !getter && !setter {
            Err(diag("JPP1004"@, "Property must declare at least 'get' or 'set'."@, loc))
        } else if once && !getter {
            Err(diag("JPP1005"@, "Once-only properties must be readable."@, loc))
        } else if final_field && setter {
            Err(diag("JPP1006"@, "Final properties cannot declare a setter."@, loc))
        } else if final_field && once {
            Err(diag("JPP1007"@, "A property cannot be both 'final' and 'once'."@, loc))
        } else if toks.len() - n < 2 {
            Err(diag("JPP1000"@, "Property declaration must include a type and name."@, loc))
        } else {
            Ok(
                PropertyView {
                    name: toks.last(),
                    ty: join(toks.subrange(n, toks.len() - 1), " "@),
                    getter,
                    setter,
                    once,
                    final_field,
                    getter_body: None,
                    setter_body: None,
                    location: loc,
                    indent: seq![],
                },
            )
        }
    }
}

pub open spec fn result_view<T: View>(r: JppResult<T>) -> Result<T::V, DiagnosticView> {
    match r {
        Ok(v) => Ok(v@),
        Err(d) => Err(d@),
    }
}

pub fn parse_property_header(s: &[char], a: usize, b: usize, location: SourceLocation) -> (r:
    JppResult<Property>)
    requires
        a <= b <= s@.len(),
    ensures
        result_view(r) == property_header(s@, a as int, b as int, location),
{
    let tokens = split_whitespace(s, a, b);
    let ghost toks = words(s@, a as int, b as int);
    assert(toks.len() == tokens@.len());
    if tokens.len() < 3 {
        return Err(
            Diagnostic::new(
                "JPP1000",
                String::from_str("Property declaration is incomplete."),
                location,
            ).with_suggestion(
                String::from_str("Use a form such as 'prop get set String firstName;'."),
            ),
        );
    }
    let mut getter = false;
    let mut setter = false;
    let mut once = false;
    let mut final_field = false;
    let mut index: usize = 0;
    proof {
        lemma_modifiers_end(toks, 0);
    }
    while index < tokens.len() && (range_is(s, tokens[index].0, tokens[index].1, "get") || range_is(
        s,
        tokens[index].0,
        tokens[index].1,
        "set",
    ) || range_is(s, tokens[index].0, tokens[index].1, "once") || range_is(
        s,
        tokens[index].0,
        tokens[index].1,
        "final",
    ))
        invariant
            index <= tokens@.len() == toks.len(),
            b <= s@.len(),
            toks == words(s@, a as int, b as int),
            spans_int(tokens@) == word_spans(s@, a as int, b as int),
            forall|n: int| 0 <= n < tokens@.len() ==> a <= (#[trigger] tokens@[n]).0 < tokens@[n].1 <= b,
            modifiers_end(toks, index as int) == modifiers_end(toks, 0),
            getter == has_token(toks, index as int, "get"@),
            setter == has_token(toks, index as int, "set"@),
            once == has_token(toks, index as int, "once"@),
            final_field == has_token(toks, index as int, "final"@),
        decreases tokens@.len() - index,
    {
        let (ta, tb) = tokens[index];
        assert(toks[index as int] == s@.subrange(ta as int, tb as int));
        if range_is(s, ta, tb, "get") {
            getter = true;
        } else if range_is(s, ta, tb, "set") {
            setter = true;
        } else if range_is(s, ta, tb, "once") {
            once = true;
        } else {
            final_field = true;
        }
        proof {
            reveal_strlit("get");
            reveal_strlit("set");
            reveal_strlit("once");
            reveal_strlit("final");
            assert("get"@[0] != "set"@[0]);
            assert("once"@.len() != "set"@.len());
            assert("final"@.len() != "set"@.len());
            assert("once"@.len() != "get"@.len());
            assert("final"@.len() != "get"@.len());
            assert("final"@.len() != "once"@.len());
            let t = toks[index as int];
            assert forall|w: Seq<char>| has_token(toks, index + 1, w) == (has_token(toks, index as int, w) || t == w) by {
                if has_token(toks, index + 1, w) {
                    let j = choose|j: int| 0 <= j < index + 1 && toks[j] == w;
                    if j < index {
                    }
                }
                if t == w {
                    assert(toks[index as int] == w);
                }
            }
        }
        index = index + 1;
    }
    proof {
        if index < tokens@.len() {
            let (ta, tb) = tokens@[index as int];
            assert(toks[index as int] == s@.subrange(ta as int, tb as int));
        }
    }
    if !getter && !setter {
        return Err(
            Diagnostic::new(
                "JPP1004",
                String::from_str("Property must declare at least 'get' or 'set'."),
                location,
            ),
        );
    }
    if once && !getter {
        return Err(
            Diagnostic::new(
                "JPP1005",
                String::from_str("Once-only properties must be readable."),
                location,
            ),
        );
    }
    if final_field && setter {
        return Err(
            Diagnostic::new(
                "JPP1006",
                String::from_str("Final properties cannot declare a setter."),
                location,
            ),
        );
    }
    if final_field && once {
        return Err(
            Diagnostic::new(
                "JPP1007",
                String::from_str("A property cannot be both 'final' and 'once'."),
                location,
            ),
        );
    }
    if tokens.len() - index < 2 {
        return Err(
            Diagnostic::new(
                "JPP1000",
                String::from_str("Property declaration must include a type and name."),
                location,
            ),
        );
    }
    let n = tokens.len();
    let name = string_of_range(s, tokens[n - 1].0, tokens[n - 1].1);
    let ty = join_spans(s, &tokens, index, n - 1, " ");
    assert(span_texts(s@, spans_int(tokens@).subrange(index as int, n - 1)) =~= toks.subrange(
        index as int,
        n - 1,
    ));
    Ok(
        Property {
            name,
            ty,
            getter,
            setter,
            once,
            final_field,
            getter_body: None,
            setter_body: None,
            location,
            indent: String::new(),
        },
    )
}

// ---------------------------------------------------------------------------
// Property bodies
// ---------------------------------------------------------------------------
/// The property with its body `s[a..b]` applied: a settable property takes
/// the first `set { ... }` block of the body as its setter body; a read-only
/// property takes the whole body as its getter body.  `None` where a `set`
/// line is followed by no `{` in the rest of the body.
pub open spec fn property_body(
    p: PropertyView,
    s: Seq<char>,
    a: int,
    b: int,
    loc: SourceLocation,
) -> Option<Result<PropertyView, DiagnosticView>> {
    let (ta, tb) = trim_span(s, a, b);
    if p.setter && set_block_from(s, ta, tb) is Some {
        let set_start = set_block_from(s, ta, tb)->Some_0;
        match char_from(s, set_start, tb, '{') {
            None => None,
            Some(open) => match matching_brace(s, open, tb) {
                None => Some(Err(diag("JPP1008"@, "Property set block is not closed."@, loc))),
                Some(close) => Some(
                    Ok(PropertyView { setter_body: Some(body_edges(s, open + 1, close)), ..p }),
                ),
            },
        }
    } else if p.getter && !p.setter {
        Some(Ok(PropertyView { getter_body: Some(body_edges(s, a, b)), ..p }))
    } else {
        Some(
            Err(
                diag_hint(
                    "JPP1009"@,
                    "Property '"@ + p.name + "' has a body JPP does not understand."@,
                    "Use a getter body on read-only properties or a 'set { ... }' block on settable properties."@,
                    loc,
                ),
            ),
        )
    }
}

pub fn apply_property_body(
    property: &mut Property,
    s: &[char],
    a: usize,
    b: usize,
    location: &SourceLocation,
) -> (r: Option<JppResult<()>>)
    requires
        a <= b <= s@.len(),
    ensures
        match r {
            None => property_body(old(property)@, s@, a as int, b as int, *location) is None,
            Some(Ok(_)) => property_body(old(property)@, s@, a as int, b as int, *location) == Some(
                Ok::<PropertyView, DiagnosticView>(final(property)@),
            ),
            Some(Err(d)) => property_body(old(property)@, s@, a as int, b as int, *location)
                == Some(Err::<PropertyView, DiagnosticView>(d@)),
        },
        !(r matches Some(Ok(_))) ==> *final(property) == *old(property),
{
    let (ta, tb) = trim_range(s, a, b);
    if property.setter {
        proof {
            lemma_set_block_from(s@, ta as int, tb as int);
        }
        match find_set_block(s, ta, tb) {
            Some(set_start) => {
                proof {
                    lemma_char_from(s@, set_start as int, tb as int, '{');
                }
                let open = match find_char(s, set_start, tb, '{') {
                    Some(o) => o,
                    None => return None,
                };
                proof {
                    lemma_brace_open(s@, open as int, tb as int);
                }
                let close = match find_matching_brace(s, open, tb) {
                    Some(c) => c,
                    None => {
                        return Some(
                            Err(
                                Diagnostic::new(
                                    "JPP1008",
                                    String::from_str("Property set block is not closed."),
                                    location.clone(),
                                ),
                            ),
                        );
                    },
                };
                proof {
                    lemma_brace_scan(s@, open as int, tb as int, quote_start(), 0);
                }
                property.setter_body = Some(trim_body_edges(s, open + 1, close));
                return Some(Ok(()));
            },
            None => {},
        }
    }
    if property.getter && !property.setter {
        property.getter_body = Some(trim_body_edges(s, a, b));
        return Some(Ok(()));
    }
    let message = concat3(
        "Property '",
        property.name.as_str(),
        "' has a body JPP does not understand.",
    );
    Some(
        Err(
            Diagnostic::new("JPP1009", message, location.clone()).with_suggestion(
                String::from_str(
                    "Use a getter body on read-only properties or a 'set { ... }' block on settable properties.",
                ),
            ),
        ),
    )
}

// ---------------------------------------------------------------------------
// Mapper headers and bodies
// ---------------------------------------------------------------------------
/// The mapper declared by the header `s[a..b]`: exactly a target type and a
/// method name.
pub open spec fn mapper_header(s: Seq<char>, a: int, b: int, loc: SourceLocation) -> Result<
    MapperView,
    DiagnosticView,
> {
    let toks = words(s, a, b);
    if toks.len() != 2 {
        Err(
            diag_hint(
                "JPP1100"@,
                "Mapper declaration must include a target type and method name."@,
                "Use a form such as 'mapper CustomerDto toDto { name = name(); }'."@,
                loc,
            ),
        )
    } else {
        Ok(
            MapperView {
                target_type: toks[0],
                method_name: toks[1],
                assignments: seq![],
                location: loc,
                indent: seq![],
            },
        )
    }
}

pub fn parse_mapper_header(s: &[char], a: usize, b: usize, location: SourceLocation) -> (r:
    JppResult<Mapper>)
    requires
        a <= b <= s@.len(),
    ensures
        result_view(r) == mapper_header(s@, a as int, b as int, location),
{
    let tokens = split_whitespace(s, a, b);
    let ghost toks = words(s@, a as int, b as int);
    if tokens.len() != 2 {
        return Err(
            Diagnostic::new(
                "JPP1100",
                String::from_str("Mapper declaration must include a target type and method name."),
                location,
            ).with_suggestion(
                String::from_str(
                    "Use a form such as 'mapper CustomerDto toDto { name = name(); }'.",
                ),
            ),
        );
    }
    let target_type = string_of_range(s, tokens[0].0, tokens[0].1);
    let method_name = string_of_range(s, tokens[1].0, tokens[1].1);
    let r = Mapper {
        target_type,
        method_name,
        assignments: Vec::new(),
        location,
        indent: String::new(),
    };
    assert(assignments_view(r.assignments@) =~= Seq::<MapperAssignmentView>::empty());
    Ok(r)
}

pub open spec fn prepend_ok<T, E>(prefix: Seq<T>, rest: Result<Seq<T>, E>) -> Result<Seq<T>, E> {
    match rest {
        Ok(r) => Ok(prefix + r),
        Err(e) => Err(e),
    }
}

/// The assignments of the statements `st[k..]` of a mapper body: each
/// non-empty statement must be `target = expression`, both parts non-empty
/// after trimming (split at the first `=`).
pub open spec fn assignments_from(
    s: Seq<char>,
    st: Seq<(int, int)>,
    k: int,
    loc: SourceLocation,
) -> Result<Seq<MapperAssignmentView>, DiagnosticView>
    decreases st.len() - k,
{
    if k < 0 || k >= st.len() {
        Ok(seq![])
    } else {
        let (ta, tb) = trim_span(s, st[k].0, st[k].1);
        if ta == tb {
            assignments_from(s, st, k + 1, loc)
        } else {
            match char_from(s, ta, tb, '=') {
                None => Err(
                    diag_hint(
                        "JPP1104"@,
                        "Mapper assignment '"@ + s.subrange(ta, tb) + "' must use '='."@,
                        "Use a form such as 'displayName = fullName();'."@,
                        loc,
                    ),
                ),
                Some(eq) => {
                    let (xa, xb) = trim_span(s, ta, eq);
                    let (ya, yb) = trim_span(s, eq + 1, tb);
                    if xa == xb || ya == yb {
                        Err(
                            diag(
                                "JPP1105"@,
                                "Mapper assignment must include a target property and expression."@,
                                loc,
                            ),
                        )
                    } else {
                        prepend_ok(
                            seq![
                                MapperAssignmentView {
                                    target_property: s.subrange(xa, xb),
                                    expression: s.subrange(ya, yb),
                                },
                            ],
                            assignments_from(s, st, k + 1, loc),
                        )
                    }
                },
            }
        }
    }
}

/// The assignments of the mapper body `s[a..b]`; at least one is required.
pub open spec fn mapper_body(s: Seq<char>, a: int, b: int, loc: SourceLocation) -> Result<
    Seq<MapperAssignmentView>,
    DiagnosticView,
> {
    match assignments_from(s, statement_spans(s, a, b), 0, loc) {
        Err(d) => Err(d),
        Ok(v) => if v.len() == 0 {
            Err(diag("JPP1106"@, "Mapper body must contain at least one assignment."@, loc))
        } else {
            Ok(v)
        },
    }
}

pub fn parse_mapper_body(s: &[char], a: usize, b: usize, location: SourceLocation) -> (r: JppResult<
    Vec<MapperAssignment>,
>)
    requires
        a <= b <= s@.len(),
    ensures
        match r {
            Ok(v) => mapper_body(s@, a as int, b as int, location) == Ok::<
                Seq<MapperAssignmentView>,
                DiagnosticView,
            >(assignments_view(v@)),
            Err(d) => mapper_body(s@, a as int, b as int, location) == Err::<
                Seq<MapperAssignmentView>,
                DiagnosticView,
            >(d@),
        },
{
    let statements = split_mapper_statements(s, a, b);
    let ghost st = spans_int(statements@);
    let mut assignments: Vec<MapperAssignment> = Vec::new();
    let mut k: usize = 0;
    while k < statements.len()
        invariant
            k <= statements@.len(),
            b <= s@.len(),
            st == spans_int(statements@),
            st == statement_spans(s@, a as int, b as int),
            forall|n: int| 0 <= n < statements@.len() ==> a <= (#[trigger] statements@[n]).0 <= statements@[n].1 <= b,
            assignments_from(s@, st, 0, location) == prepend_ok(
                assignments_view(assignments@),
                assignments_from(s@, st, k as int, location),
            ),
        decreases statements@.len() - k,
    {
        let (sa, sb) = statements[k];
        let (ta, tb) = trim_range(s, sa, sb);
        if ta == tb {
            k = k + 1;
            continue;
        }
        proof {
            lemma_char_from(s@, ta as int, tb as int, '=');
        }
        let eq = match find_char(s, ta, tb, '=') {
            Some(e) => e,
            None => {
                let message = concat3(
                    "Mapper assignment '",
                    string_of_range(s, ta, tb).as_str(),
                    "' must use '='.",
                );
                return Err(
                    Diagnostic::new("JPP1104", message, location).with_suggestion(
                        String::from_str("Use a form such as 'displayName = fullName();'."),
                    ),
                );
            },
        };
        let (xa, xb) = trim_range(s, ta, eq);
        let (ya, yb) = trim_range(s, eq + 1, tb);
        if xa == xb || ya == yb {
            return Err(
                Diagnostic::new(
                    "JPP1105",
                    String::from_str(
                        "Mapper assignment must include a target property and expression.",
                    ),
                    location,
                ),
            );
        }
        let ghost old_a = assignments@;
        assignments.push(
            MapperAssignment {
                target_property: string_of_range(s, xa, xb),
                expression: string_of_range(s, ya, yb),
            },
        );
        let ghost item = MapperAssignmentView {
            target_property: s@.subrange(xa as int, xb as int),
            expression: s@.subrange(ya as int, yb as int),
        };
        assert(assignments@.last()@ == item);
        assert(assignments_view(assignments@) =~= assignments_view(old_a) + seq![item]);
        assert(assignments_from(s@, st, k as int, location) == prepend_ok(
            seq![item],
            assignments_from(s@, st, k + 1, location),
        ));
        assert(assignments_view(assignments@) + seq![item].drop_first() =~= assignments_view(assignments@));
        proof {
            match assignments_from(s@, st, k + 1, location) {
                Ok(rest) => {
                    assert(assignments_view(old_a) + (seq![item] + rest) =~= assignments_view(assignments@) + rest);
                },
                Err(_) => {},
            }
        }
        k = k + 1;
    }
    assert(assignments_view(assignments@) + Seq::<MapperAssignmentView>::empty()
        =~= assignments_view(assignments@));
    if assignments.len() == 0 {
        return Err(
            Diagnostic::new(
                "JPP1106",
                String::from_str("Mapper body must contain at least one assignment."),
                location,
            ),
        );
    }
    Ok(assignments)
}

// ---------------------------------------------------------------------------
// Islands
// ---------------------------------------------------------------------------
/// Where the text of the island line starting at `start` begins, after
/// spaces and tabs.
pub open spec fn content_start(s: Seq<char>, start: int) -> int {
    let t = blank_skip(s, start, s.len() as int);
    if t < s.len() {
        t
    } else {
        start
    }
}

/// A `prop` island starts at `start` (after spaces and tabs).
pub open spec fn property_island_at(s: Seq<char>, start: int) -> bool {
    &&& 0 <= start < s.len()
    &&& starts_at(s, blank_skip(s, start, s.len() as int), s.len() as int, "prop "@) || starts_at(
        s,
        blank_skip(s, start, s.len() as int),
        s.len() as int,
        "prop\t"@,
    )
}

/// A `mapper` island starts at `start` (after spaces and tabs).
pub open spec fn mapper_island_at(s: Seq<char>, start: int) -> bool {
    &&& 0 <= start < s.len()
    &&& starts_at(s, blank_skip(s, start, s.len() as int), s.len() as int, "mapper "@)
        || starts_at(s, blank_skip(s, start, s.len() as int), s.len() as int, "mapper\t"@)
}

/// The property island at `start`: the property and the position after its
/// `;` or closing `}`.  `None` where applying its body is undefined (see
/// `property_body`).
pub open spec fn property_at(file: Option<PathBuf>, s: Seq<char>, start: int) -> Option<
    Result<(PropertyView, int), DiagnosticView>,
> {
    let after = content_start(s, start);
    let loc = location_at(file, s, after);
    let hs = after + 4;
    match header_scan(s, hs, s.len() as int, quote_start()) {
        None => Some(
            Err(
                diag_hint(
                    "JPP1001"@,
                    "Unterminated property declaration."@,
                    "End the property with ';' or add a balanced '{ ... }' body."@,
                    loc,
                ),
            ),
        ),
        Some(he) => {
            let (ha, hb) = trim_span(s, hs, he);
            match property_header(s, ha, hb, loc) {
                Err(d) => Some(Err(d)),
                Ok(p0) => {
                    let p = PropertyView { indent: s.subrange(start, after), ..p0 };
                    if s[he] == ';' {
                        Some(Ok((p, he + 1)))
                    } else {
                        match matching_brace(s, he, s.len() as int) {
                            None => Some(
                                Err(
                                    diag(
                                        "JPP1002"@,
                                        "Property '"@ + p.name + "' has an unclosed body."@,
                                        loc,
                                    ),
                                ),
                            ),
                            Some(be) => match property_body(p, s, he + 1, be, loc) {
                                None => None,
                                Some(Err(d)) => Some(Err(d)),
                                Some(Ok(p2)) => Some(Ok((p2, be + 1))),
                            },
                        }
                    }
                },
            }
        },
    }
}

/// The mapper island at `start`: the mapper and the position after its
/// closing `}`.
pub open spec fn mapper_at(file: Option<PathBuf>, s: Seq<char>, start: int) -> Result<
    (MapperView, int),
    DiagnosticView,
> {
    let after = content_start(s, start);
    let loc = location_at(file, s, after);
    let hs = after + 6;
    match header_scan(s, hs, s.len() as int, quote_start()) {
        None => Err(
            diag_hint(
                "JPP1101"@,
                "Unterminated mapper declaration."@,
                "Use a form such as 'mapper CustomerDto toDto { name = name(); }'."@,
                loc,
            ),
        ),
        Some(he) => if s[he] != '{' {
            Err(diag("JPP1102"@, "Mapper declarations require a body."@, loc))
        } else {
            let (ha, hb) = trim_span(s, hs, he);
            match mapper_header(s, ha, hb, loc) {
                Err(d) => Err(d),
                Ok(m0) => {
                    let m = MapperView { indent: s.subrange(start, after), ..m0 };
                    match matching_brace(s, he, s.len() as int) {
                        None => Err(
                            diag(
                                "JPP1103"@,
                                "Mapper '"@ + m.method_name + "' has an unclosed body."@,
                                loc,
                            ),
                        ),
                        Some(be) => match mapper_body(s, he + 1, be, loc) {
                            Err(d) => Err(d),
                            Ok(asg) => Ok((MapperView { assignments: asg, ..m }, be + 1)),
                        },
                    }
                },
            }
        },
    }
}

pub proof fn lemma_content_start(s: Seq<char>, start: int, lit: Seq<char>)
    requires
        0 <= start < s.len(),
        starts_at(s, blank_skip(s, start, s.len() as int), s.len() as int, lit),
        lit.len() > 0,
    ensures
        content_start(s, start) == blank_skip(s, start, s.len() as int),
        start <= content_start(s, start),
        content_start(s, start) + lit.len() <= s.len(),
{
    lemma_blank_skip(s, start, s.len() as int);
}

pub proof fn lemma_property_at(file: Option<PathBuf>, s: Seq<char>, start: int)
    requires
        property_island_at(s, start),
    ensures
        property_at(file, s, start) matches Some(Ok((p, end))) ==> start < end <= s.len() && (s[end
            - 1] == ';' || s[end - 1] == '}'),
{
    reveal_strlit("prop ");
    reveal_strlit("prop\t");
    if starts_at(s, blank_skip(s, start, s.len() as int), s.len() as int, "prop "@) {
        lemma_content_start(s, start, "prop "@);
    } else {
        lemma_content_start(s, start, "prop\t"@);
    }
    let after = content_start(s, start);
    lemma_header_scan(s, after + 4, s.len() as int, quote_start());
    if let Some(he) = header_scan(s, after + 4, s.len() as int, quote_start()) {
        lemma_brace_scan(s, he, s.len() as int, quote_start(), 0);
    }
}

pub proof fn lemma_mapper_at(file: Option<PathBuf>, s: Seq<char>, start: int)
    requires
        mapper_island_at(s, start),
    ensures
        mapper_at(file, s, start) matches Ok((m, end)) ==> start < end <= s.len() && s[end - 1]
            == '}',
{
    reveal_strlit("mapper ");
    reveal_strlit("mapper\t");
    if starts_at(s, blank_skip(s, start, s.len() as int), s.len() as int, "mapper "@) {
        lemma_content_start(s, start, "mapper "@);
    } else {
        lemma_content_start(s, start, "mapper\t"@);
    }
    let after = content_start(s, start);
    lemma_header_scan(s, after + 6, s.len() as int, quote_start());
    if let Some(he) = header_scan(s, after + 6, s.len() as int, quote_start()) {
        lemma_brace_scan(s, he, s.len() as int, quote_start(), 0);
    }
}

pub open spec fn prepend_segs(
    prefix: Seq<SegmentView>,
    rest: Option<Result<Seq<SegmentView>, DiagnosticView>>,
) -> Option<Result<Seq<SegmentView>, DiagnosticView>> {
    match rest {
        Some(Ok(r)) => Some(Ok(prefix + r)),
        other => other,
    }
}

/// The segments of `s[cursor..]`: the Java text before each island, then the
/// island, and the Java text after the last island.  `Some(Err(d))` for the
/// first island that does not parse; `None` where a property body is
/// undefined.
pub open spec fn segments_from(file: Option<PathBuf>, s: Seq<char>, cursor: int) -> Option<
    Result<Seq<SegmentView>, DiagnosticView>,
>
    decreases s.len() - cursor,
{
    if cursor < 0 || cursor > s.len() {
        Some(Ok(seq![]))
    } else {
        proof {
            lemma_island_from(s, cursor);
        }
        match island_from(s, cursor) {
            None => Some(
                Ok(
                    if cursor < s.len() {
                        seq![SegmentView::Java(s.subrange(cursor, s.len() as int))]
                    } else {
                        seq![]
                    },
                ),
            ),
            Some((start, kind)) => {
                let java = if start > cursor {
                    seq![SegmentView::Java(s.subrange(cursor, start))]
                } else {
                    seq![]
                };
                match kind {
                    IslandKind::Property => {
                        proof {
                            lemma_property_at(file, s, start);
                        }
                        match property_at(file, s, start) {
                            None => None,
                            Some(Err(d)) => Some(Err(d)),
                            Some(Ok((p, end))) => prepend_segs(
                                java.push(SegmentView::Property(p)),
                                segments_from(file, s, end),
                            ),
                        }
                    },
                    IslandKind::Mapper => {
                        proof {
                            lemma_mapper_at(file, s, start);
                        }
                        match mapper_at(file, s, start) {
                            Err(d) => Some(Err(d)),
                            Ok((m, end)) => prepend_segs(
                                java.push(SegmentView::Mapper(m)),
                                segments_from(file, s, end),
                            ),
                        }
                    },
                }
            },
        }
    }
}

/// The parse of the source `s` of the file `file`.  `None` where a property
/// body is undefined (a `set` line followed by no `{`).
pub open spec fn parsed(file: Option<PathBuf>, s: Seq<char>) -> Option<
    Result<JppFileView, DiagnosticView>,
> {
    match segments_from(file, s, 0) {
        None => None,
        Some(Err(d)) => Some(Err(d)),
        Some(Ok(segments)) => Some(
            Ok(JppFileView { path: file, source: s, class_name: class_name(s), segments }),
        ),
    }
}

struct PropertyIsland {
    property: Property,
    end: usize,
}

struct MapperIsland {
    mapper: Mapper,
    end: usize,
}

struct Parser<'a> {
    path: Option<&'a Path>,
    source: &'a str,
    chars: Vec<char>,
    cursor: usize,
    segments: Vec<Segment>,
}

impl<'a> Parser<'a> {
    fn parse_property_at(&self, start: usize) -> (r: Option<JppResult<PropertyIsland>>)
        requires
            self.chars@.len() < usize::MAX,
            property_island_at(self.chars@, start as int),
        ensures
            match r {
                None => property_at(owned_path_opt(self.path), self.chars@, start as int) is None,
                Some(Ok(isl)) => property_at(owned_path_opt(self.path), self.chars@, start as int)
                    == Some(Ok::<(PropertyView, int), DiagnosticView>((isl.property@, isl.end as int))),
                Some(Err(d)) => property_at(owned_path_opt(self.path), self.chars@, start as int)
                    == Some(Err::<(PropertyView, int), DiagnosticView>(d@)),
            },
    {
        let s = self.chars.as_slice();
        let len = s.len();
        let ghost file = owned_path_opt(self.path);
        proof {
            reveal_strlit("prop ");
            reveal_strlit("prop\t");
            if starts_at(s@, blank_skip(s@, start as int, len as int), len as int, "prop "@) {
                lemma_content_start(s@, start as int, "prop "@);
            } else {
                lemma_content_start(s@, start as int, "prop\t"@);
            }
        }
        let trimmed = skip_blanks(s, start, len);
        let after_indent = if trimmed < len {
            trimmed
        } else {
            start
        };
        let indent = string_of_range(s, start, after_indent);
        let location = location_at_index(self.path, s, after_indent);
        let header_start = after_indent + 4;
        proof {
            lemma_header_scan(s@, header_start as int, len as int, quote_start());
        }
        let header_end = match find_header_end(s, header_start) {
            Some(h) => h,
            None => {
                return Some(
                    Err(
                        Diagnostic::new(
                            "JPP1001",
                            String::from_str("Unterminated property declaration."),
                            location.clone(),
                        ).with_suggestion(
                            String::from_str(
                                "End the property with ';' or add a balanced '{ ... }' body.",
                            ),
                        ),
                    ),
                );
            },
        };
        let (ha, hb) = trim_range(s, header_start, header_end);
        let mut parsed = match parse_property_header(s, ha, hb, location.clone()) {
            Ok(p) => p,
            Err(d) => return Some(Err(d)),
        };
        parsed.indent = indent;
        let marker = s[header_end];
        let end = if marker == ';' {
            header_end + 1
        } else {
            proof {
                lemma_brace_scan(s@, header_end as int, len as int, quote_start(), 0);
                lemma_brace_open(s@, header_end as int, len as int);
            }
            let body_end = match find_matching_brace(s, header_end, len) {
                Some(e) => e,
                None => {
                    let message = concat3(
                        "Property '",
                        parsed.name.as_str(),
                        "' has an unclosed body.",
                    );
                    return Some(Err(Diagnostic::new("JPP1002", message, location.clone())));
                },
            };
            match apply_property_body(&mut parsed, s, header_end + 1, body_end, &location) {
                None => return None,
                Some(Err(d)) => return Some(Err(d)),
                Some(Ok(())) => {},
            }
            body_end + 1
        };
        Some(Ok(PropertyIsland { property: parsed, end }))
    }

    fn parse_mapper_at(&self, start: usize) -> (r: JppResult<MapperIsland>)
        requires
            self.chars@.len() < usize::MAX,
            mapper_island_at(self.chars@, start as int),
        ensures
            match r {
                Ok(isl) => mapper_at(owned_path_opt(self.path), self.chars@, start as int) == Ok::<
                    (MapperView, int),
                    DiagnosticView,
                >((isl.mapper@, isl.end as int)),
                Err(d) => mapper_at(owned_path_opt(self.path), self.chars@, start as int) == Err::<
                    (MapperView, int),
                    DiagnosticView,
                >(d@),
            },
    {
        let s = self.chars.as_slice();
        let len = s.len();
        proof {
            reveal_strlit("mapper ");
            reveal_strlit("mapper\t");
            if starts_at(s@, blank_skip(s@, start as int, len as int), len as int, "mapper "@) {
                lemma_content_start(s@, start as int, "mapper "@);
            } else {
                lemma_content_start(s@, start as int, "mapper\t"@);
            }
        }
        let trimmed = skip_blanks(s, start, len);
        let after_indent = if trimmed < len {
            trimmed
        } else {
            start
        };
        let indent = string_of_range(s, start, after_indent);
        let location = location_at_index(self.path, s, after_indent);
        let header_start = after_indent + 6;
        proof {
            lemma_header_scan(s@, header_start as int, len as int, quote_start());
        }
        let header_end = match find_header_end(s, header_start) {
            Some(h) => h,
            None => {
                return Err(
                    Diagnostic::new(
                        "JPP1101",
                        String::from_str("Unterminated mapper declaration."),
                        location.clone(),
                    ).with_suggestion(
                        String::from_str(
                            "Use a form such as 'mapper CustomerDto toDto { name = name(); }'.",
                        ),
                    ),
                );
            },
        };
        if s[header_end] != '{' {
            return Err(
                Diagnostic::new(
                    "JPP1102",
                    String::from_str("Mapper declarations require a body."),
                    location,
                ),
            );
        }
        let (ha, hb) = trim_range(s, header_start, header_end);
        let mut mapper = match parse_mapper_header(s, ha, hb, location.clone()) {
            Ok(m) => m,
            Err(d) => return Err(d),
        };
        mapper.indent = indent;
        proof {
            lemma_brace_scan(s@, header_end as int, len as int, quote_start(), 0);
            lemma_brace_open(s@, header_end as int, len as int);
        }
        let body_end = match find_matching_brace(s, header_end, len) {
            Some(e) => e,
            None => {
                let message = concat3(
                    "Mapper '",
                    mapper.method_name.as_str(),
                    "' has an unclosed body.",
                );
                return Err(Diagnostic::new("JPP1103", message, location.clone()));
            },
        };
        mapper.assignments = match parse_mapper_body(s, header_end + 1, body_end, location) {
            Ok(a) => a,
            Err(d) => return Err(d),
        };
        Ok(MapperIsland { mapper, end: body_end + 1 })
    }

    #[verifier::rlimit(50)]
    #[verifier::spinoff_prover]
    fn parse(&mut self) -> (r: Option<JppResult<JppFile>>)
        requires
            old(self).chars@ == old(self).source@,
            old(self).source@.len() < usize::MAX,
            old(self).cursor == 0,
            old(self).segments@.len() == 0,
        ensures
            match r {
                None => parsed(owned_path_opt(old(self).path), old(self).source@) is None,
                Some(Ok(f)) => parsed(owned_path_opt(old(self).path), old(self).source@) == Some(
                    Ok::<JppFileView, DiagnosticView>(f@),
                ),
                Some(Err(d)) => parsed(owned_path_opt(old(self).path), old(self).source@) == Some(
                    Err::<JppFileView, DiagnosticView>(d@),
                ),
            },
    {
        let ghost file = owned_path_opt(self.path);
        let ghost s = self.chars@;
        assert(segments_view(self.segments@) =~= Seq::<SegmentView>::empty());
        assert(segments_from(file, s, 0) == prepend_segs(segments_view(self.segments@), segments_from(file, s, 0)));
        loop
            invariant
                self.chars@ == s,
                s == old(self).source@,
                self.source == old(self).source,
                self.path == old(self).path,
                file == owned_path_opt(self.path),
                s.len() < usize::MAX,
                self.cursor <= s.len(),
                segments_from(file, s, 0) == prepend_segs(
                    segments_view(self.segments@),
                    segments_from(file, s, self.cursor as int),
                ),
            ensures
                island_from(s, self.cursor as int) is None,
            decreases s.len() - self.cursor,
        {
            proof {
                lemma_island_from(s, self.cursor as int);
            }
            let island_start = match find_extension_island(self.chars.as_slice(), self.cursor) {
                Some(isl) => isl,
                None => break,
            };
            let ghost before = segments_view(self.segments@);
            let ghost cursor = self.cursor as int;
            if island_start.start > self.cursor {
                let java = string_of_range(self.chars.as_slice(), self.cursor, island_start.start);
                self.segments.push(Segment::Java(java));
            }
            let ghost java = if island_start.start > cursor {
                seq![SegmentView::Java(s.subrange(cursor, island_start.start as int))]
            } else {
                seq![]
            };
            assert(segments_view(self.segments@) =~= before + java);
            match island_start.kind {
                IslandKind::Property => {
                    proof {
                        lemma_property_at(file, s, island_start.start as int);
                    }
                    let island = match self.parse_property_at(island_start.start) {
                        None => return None,
                        Some(Ok(i)) => i,
                        Some(Err(d)) => return Some(Err(d)),
                    };
                    self.cursor = island.end;
                    self.segments.push(Segment::Property(island.property));
                    assert(segments_view(self.segments@) =~= before + java.push(
                        SegmentView::Property(island.property@),
                    ));
                },
                IslandKind::Mapper => {
                    proof {
                        lemma_mapper_at(file, s, island_start.start as int);
                    }
                    let island = match self.parse_mapper_at(island_start.start) {
                        Ok(i) => i,
                        Err(d) => return Some(Err(d)),
                    };
                    self.cursor = island.end;
                    self.segments.push(Segment::Mapper(island.mapper));
                    assert(segments_view(self.segments@) =~= before + java.push(
                        SegmentView::Mapper(island.mapper@),
                    ));
                },
            }
            proof {
                match segments_from(file, s, self.cursor as int) {
                    Some(Ok(rest)) => {
                        assert(before + (java.push(segments_view(self.segments@).last()) + rest)
                            =~= segments_view(self.segments@) + rest);
                    },
                    _ => {},
                }
            }
        }
        let ghost before = segments_view(self.segments@);
        if self.cursor < self.chars.len() {
            let java = string_of_range(self.chars.as_slice(), self.cursor, self.chars.len());
            self.segments.push(Segment::Java(java));
            assert(segments_view(self.segments@) =~= before + seq![
                SegmentView::Java(s.subrange(self.cursor as int, s.len() as int)),
            ]);
        } else {
            assert(segments_view(self.segments@) =~= before + Seq::<SegmentView>::empty());
        }
        let mut segments: Vec<Segment> = Vec::new();
        std::mem::swap(&mut segments, &mut self.segments);
        let ghost final_segs = segments_view(segments@);
        assert(segments_from(file, s, 0) == Some(Ok::<Seq<SegmentView>, DiagnosticView>(final_segs)));
        let f = JppFile {
            path: to_path_buf_opt(self.path),
            source: String::from_str(self.source),
            class_name: find_class_name(self.chars.as_slice()),
            segments,
        };
        Some(Ok(f))
    }
}

/// Parses a `.jpp` source into segments: the Java text is kept as it is, and
/// each line whose text (after spaces and tabs) is `prop` or `mapper` and a
/// space or tab opens an extension island, which is parsed into a property or
/// a mapper, unless the rest of the line is a Java use of that word as a
/// variable, type or method, such as `prop = 1;` or `prop x;` (see
/// `opens_property`, `opens_mapper` and `java_use_at`).
pub fn parse_source(path: Option<&Path>, source: &str) -> (r: JppResult<JppFile>)
    requires
        source@.len() < usize::MAX,
        parsed(owned_path_opt(path), source@) is Some,
    ensures
        match r {
            Ok(f) => parsed(owned_path_opt(path), source@) == Some(
                Ok::<JppFileView, DiagnosticView>(f@),
            ),
            Err(d) => parsed(owned_path_opt(path), source@) == Some(
                Err::<JppFileView, DiagnosticView>(d@),
            ),
        },
{
    parse_checked(path, source).unwrap()
}

/// Whether `parse_source` is defined on `source`.
pub fn can_parse_source(path: Option<&Path>, source: &str) -> (r: bool)
    requires
        source@.len() < usize::MAX,
    ensures
        r == (parsed(owned_path_opt(path), source@) is Some),
{
    parse_checked(path, source).is_some()
}

fn parse_checked(path: Option<&Path>, source: &str) -> (r: Option<JppResult<JppFile>>)
    requires
        source@.len() < usize::MAX,
    ensures
        match r {
            None => parsed(owned_path_opt(path), source@) is None,
            Some(Ok(f)) => parsed(owned_path_opt(path), source@) == Some(
                Ok::<JppFileView, DiagnosticView>(f@),
            ),
            Some(Err(d)) => parsed(owned_path_opt(path), source@) == Some(
                Err::<JppFileView, DiagnosticView>(d@),
            ),
        },
{
    let mut parser = Parser { path, source, chars: chars_of(source), cursor: 0, segments: Vec::new() };
    parser.parse()
}

} // verus!
