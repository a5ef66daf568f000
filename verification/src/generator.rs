//! Generation of plain Java from a parsed `.jpp` file: Java segments are
//! copied (with null-safe accesses rewritten), properties become fields,
//! fluent accessors and a constructor for the final ones, and mappers become
//! methods that build and fill a target object.
use vstd::prelude::*;
use crate::diagnostics::{diag, Diagnostic, DiagnosticView, JppResult, SourceLocation};
use crate::model::{
    backed, calculated, JppFile, JppFileView, Mapper, MapperAssignmentView, MapperView, Property,
    PropertyView, Segment, SegmentView, assignments_view, segments_view,
};
use crate::nullsafe::{null_safe_rewrite, rewrite_chars};
use crate::paths::clone_path_opt;
use crate::scan::{blank_skip, skip_blanks};
use crate::text::{
    all_ws, chars_of, is_blank_range, line_spans, lines, opt_str, push_range, spans_int,
    trim_end_range, ws_back,
};

verus! {

// ---------------------------------------------------------------------------
// Indenting bodies
// ---------------------------------------------------------------------------
/// Number of spaces and tabs that start `s[a..b]`.
pub open spec fn lead_blanks(s: Seq<char>, a: int, b: int) -> int {
    blank_skip(s, a, b) - a
}

/// The smallest indentation among the non-blank lines of `ls[..k]`.
pub open spec fn min_indent(s: Seq<char>, ls: Seq<(int, int)>, k: int) -> Option<int>
    decreases k,
{
    if k <= 0 || k > ls.len() {
        None
    } else {
        let prev = min_indent(s, ls, k - 1);
        let (a, b) = ls[k - 1];
        if all_ws(s, a, b) {
            prev
        } else {
            let v = lead_blanks(s, a, b);
            match prev {
                None => Some(v),
                Some(m) => Some(
                    if v < m {
                        v
                    } else {
                        m
                    },
                ),
            }
        }
    }
}

/// The indentation common to all non-blank lines of `s` (0 when there are
/// none).
pub open spec fn common_indent_of(s: Seq<char>) -> int {
    let ls = line_spans(s, 0, s.len() as int);
    match min_indent(s, ls, ls.len() as int) {
        Some(m) => m,
        None => 0,
    }
}

pub fn common_indent(s: &[char]) -> (r: usize)
    ensures
        r == common_indent_of(s@),
{
    let lines = lines(s, 0, s.len());
    let ghost ls = spans_int(lines@);
    let mut k: usize = 0;
    let mut best: Option<usize> = None;
    while k < lines.len()
        invariant
            k <= lines@.len(),
            ls == spans_int(lines@),
            ls == line_spans(s@, 0, s@.len() as int),
            forall|n: int| 0 <= n < lines@.len() ==> (#[trigger] lines@[n]).0 <= lines@[n].1 <= s@.len(),
            match best {
                Some(m) => min_indent(s@, ls, k as int) == Some(m as int),
                None => min_indent(s@, ls, k as int) is None,
            },
        decreases lines@.len() - k,
    {
        let (a, b) = lines[k];
        if !is_blank_range(s, a, b) {
            let v = skip_blanks(s, a, b) - a;
            best = match best {
                None => Some(v),
                Some(m) => Some(
                    if v < m {
                        v
                    } else {
                        m
                    },
                ),
            };
        }
        k = k + 1;
    }
    match best {
        Some(m) => m,
        None => 0,
    }
}

/// One line of an indented body: a blank line becomes an empty line; any
/// other line loses the common indentation and trailing whitespace and gets
/// `base` and `extra` in front.
pub open spec fn indented_line(
    s: Seq<char>,
    span: (int, int),
    ci: int,
    base: Seq<char>,
    extra: Seq<char>,
) -> Seq<char> {
    let (a, b) = span;
    if all_ws(s, a, b) {
        "\n"@
    } else {
        let from = if a + ci <= b {
            a + ci
        } else {
            a
        };
        base + extra + s.subrange(from, ws_back(s, from, b)) + "\n"@
    }
}

/// The first `k` lines of `ls`, indented.
pub open spec fn indented_lines(
    s: Seq<char>,
    ls: Seq<(int, int)>,
    k: int,
    ci: int,
    base: Seq<char>,
    extra: Seq<char>,
) -> Seq<char>
    decreases k,
{
    if k <= 0 || k > ls.len() {
        seq![]
    } else {
        indented_lines(s, ls, k - 1, ci, base, extra) + indented_line(s, ls[k - 1], ci, base, extra)
    }
}

/// `body` re-indented under `base` followed by `extra`.
pub open spec fn indented(body: Seq<char>, base: Seq<char>, extra: Seq<char>) -> Seq<char> {
    let ls = line_spans(body, 0, body.len() as int);
    indented_lines(body, ls, ls.len() as int, common_indent_of(body), base, extra)
}

pub fn indent_body(body: &str, base_indent: &str, extra_indent: &str) -> (r: String)
    ensures
        r@ == indented(body@, base_indent@, extra_indent@),
{
    let chars = chars_of(body);
    let s = chars.as_slice();
    let mut output = String::new();
    let common_indent = common_indent(s);
    let lines = lines(s, 0, s.len());
    let ghost ls = spans_int(lines@);
    let mut k: usize = 0;
    while k < lines.len()
        invariant
            k <= lines@.len(),
            s@ == body@,
            ls == spans_int(lines@),
            ls == line_spans(s@, 0, s@.len() as int),
            common_indent == common_indent_of(s@),
            forall|n: int| 0 <= n < lines@.len() ==> (#[trigger] lines@[n]).0 <= lines@[n].1 <= s@.len(),
            output@ == indented_lines(s@, ls, k as int, common_indent as int, base_indent@, extra_indent@),
        decreases lines@.len() - k,
    {
        let (a, b) = lines[k];
        let ghost before = output@;
        proof {
            reveal_strlit("\n");
        }
        if is_blank_range(s, a, b) {
            output.push('\n');
        } else {
            output.append(base_indent);
            output.append(extra_indent);
            let from = if common_indent <= b - a {
                a + common_indent
            } else {
                a
            };
            let to_end = trim_end_range(s, from, b);
            push_range(&mut output, s, from, to_end);
            output.push('\n');
        }
        assert(output@ =~= before + indented_line(s@, ls[k as int], common_indent as int, base_indent@, extra_indent@));
        k = k + 1;
    }
    output
}

// ---------------------------------------------------------------------------
// Rewriting text
// ---------------------------------------------------------------------------
/// `a` followed by `b`, when both are defined.
pub open spec fn cat(a: Option<Seq<char>>, b: Option<Seq<char>>) -> Option<Seq<char>> {
    match (a, b) {
        (Some(x), Some(y)) => Some(x + y),
        _ => None,
    }
}

fn rewrite_text(text: &String) -> (r: Option<String>)
    ensures
        opt_str(r) == null_safe_rewrite(text@),
{
    let chars = chars_of(text.as_str());
    rewrite_chars(chars.as_slice())
}

// ---------------------------------------------------------------------------
// Properties
// ---------------------------------------------------------------------------
/// The null check that a once-only setter starts with.
pub open spec fn null_check_text(indent: Seq<char>, variable: Seq<char>, name: Seq<char>) -> Seq<
    char,
> {
    indent + "    if ("@ + variable + " == null) {\n"@ + indent
        + "        throw new NullPointerException(\n"@ + indent + "            \"Property '"@ + name
        + "' cannot be null\"\n"@ + indent + "        );\n"@ + indent + "    }\n"@
}

pub fn generate_null_check(indent: &str, variable: &str, property_name: &str) -> (r: String)
    ensures
        r@ == null_check_text(indent@, variable@, property_name@),
{
    let mut out = String::new();
    out.append(indent);
    out.append("    if (");
    out.append(variable);
    out.append(" == null) {\n");
    out.append(indent);
    out.append("        throw new NullPointerException(\n");
    out.append(indent);
    out.append("            \"Property '");
    out.append(property_name);
    out.append("' cannot be null\"\n");
    out.append(indent);
    out.append("        );\n");
    out.append(indent);
    out.append("    }\n");
    assert(out@ =~= null_check_text(indent@, variable@, property_name@));
    out
}

/// The getter of a property: it returns the field, or runs the (rewritten,
/// re-indented) getter body.
pub open spec fn getter_text(p: PropertyView, indent: Seq<char>) -> Option<Seq<char>> {
    let head = indent + "public "@ + p.ty + " "@ + p.name + "() {\n"@;
    let tail = indent + "}\n"@;
    match p.getter_body {
        Some(body) => match null_safe_rewrite(body) {
            None => None,
            Some(rb) => Some(head + indented(rb, indent, "    "@) + tail),
        },
        None => Some(head + indent + "    return this."@ + p.name + ";\n"@ + tail),
    }
}

fn generate_getter(property: &Property, indent: &str) -> (r: Option<String>)
    ensures
        opt_str(r) == getter_text(property@, indent@),
{
    let mut output = String::new();
    output.append(indent);
    output.append("public ");
    output.append(property.ty.as_str());
    output.append(" ");
    output.append(property.name.as_str());
    output.append("() {\n");
    let ghost head = output@;
    match &property.getter_body {
        Some(body) => {
            let rewritten = match rewrite_text(body) {
                Some(t) => t,
                None => return None,
            };
            let text = indent_body(rewritten.as_str(), indent, "    ");
            output.append(text.as_str());
        },
        None => {
            output.append(indent);
            output.append("    return this.");
            output.append(property.name.as_str());
            output.append(";\n");
        },
    }
    output.append(indent);
    output.append("}\n");
    assert(Some(output@) =~~= getter_text(property@, indent@));
    Some(output)
}

/// The once-only guard of a setter.
pub open spec fn once_guard_text(indent: Seq<char>, name: Seq<char>) -> Seq<char> {
    indent + "    if (this."@ + name + " != null) {\n"@ + indent
        + "        throw new IllegalStateException(\n"@ + indent + "            \"Property '"@ + name
        + "' is once-only\"\n"@ + indent + "        );\n"@ + indent + "    }\n\n"@
}

/// The signature line of a setter.
pub open spec fn setter_head_text(class_name: Seq<char>, p: PropertyView, indent: Seq<char>) -> Seq<
    char,
> {
    let synchronized = if p.once {
        " synchronized"@
    } else {
        seq![]
    };
    indent + "public"@ + synchronized + " "@ + class_name + " "@ + p.name + "("@ + p.ty
        + " value) {\n"@
}

/// The end of a setter: assign, return `this`.
pub open spec fn setter_tail_text(name: Seq<char>, indent: Seq<char>) -> Seq<char> {
    indent + "    this."@ + name + " = value;\n\n"@ + indent + "    return this;\n"@ + indent + "}\n"@
}

/// The fluent setter of a property: it returns `this`; a once-only setter is
/// `synchronized`, rejects `null` and a second call; a set block runs before
/// the assignment.
pub open spec fn setter_text(class_name: Seq<char>, p: PropertyView, indent: Seq<char>) -> Option<
    Seq<char>,
> {
    let head = setter_head_text(class_name, p, indent);
    let guards = if p.once {
        null_check_text(indent, "value"@, p.name) + "\n"@ + once_guard_text(indent, p.name)
    } else {
        seq![]
    };
    let tail = setter_tail_text(p.name, indent);
    match p.setter_body {
        Some(body) => match null_safe_rewrite(body) {
            None => None,
            Some(rb) => Some(head + guards + indented(rb, indent, "    "@) + "\n"@ + tail),
        },
        None => Some(head + guards + tail),
    }
}

fn setter_head(class_name: &str, property: &Property, indent: &str) -> (r: String)
    ensures
        r@ == setter_head_text(class_name@, property@, indent@),
{
    let mut output = String::new();
    let synchronized = if property.once {
        " synchronized"
    } else {
        ""
    };
    proof {
        reveal_strlit("");
    }
    output.append(indent);
    output.append("public");
    output.append(synchronized);
    output.append(" ");
    output.append(class_name);
    output.append(" ");
    output.append(property.name.as_str());
    output.append("(");
    output.append(property.ty.as_str());
    output.append(" value) {\n");
    assert(output@ =~= setter_head_text(class_name@, property@, indent@));
    output
}

fn once_guard(indent: &str, name: &str) -> (r: String)
    ensures
        r@ == once_guard_text(indent@, name@),
{
    let mut output = String::new();
    output.append(indent);
    output.append("    if (this.");
    output.append(name);
    output.append(" != null) {\n");
    output.append(indent);
    output.append("        throw new IllegalStateException(\n");
    output.append(indent);
    output.append("            \"Property '");
    output.append(name);
    output.append("' is once-only\"\n");
    output.append(indent);
    output.append("        );\n");
    output.append(indent);
    output.append("    }\n\n");
    assert(output@ =~= once_guard_text(indent@, name@));
    output
}

fn setter_tail(name: &str, indent: &str) -> (r: String)
    ensures
        r@ == setter_tail_text(name@, indent@),
{
    let mut output = String::new();
    output.append(indent);
    output.append("    this.");
    output.append(name);
    output.append(" = value;\n\n");
    output.append(indent);
    output.append("    return this;\n");
    output.append(indent);
    output.append("}\n");
    assert(output@ =~= setter_tail_text(name@, indent@));
    output
}

fn generate_setter(class_name: &str, property: &Property, indent: &str) -> (r: Option<String>)
    ensures
        opt_str(r) == setter_text(class_name@, property@, indent@),
{
    let mut output = setter_head(class_name, property, indent);
    let ghost head = output@;
    if property.once {
        let check = generate_null_check(indent, "value", property.name.as_str());
        output.append(check.as_str());
        output.append("\n");
    }
    if property.once {
        let guard = once_guard(indent, property.name.as_str());
        output.append(guard.as_str());
    }
    let ghost guards = if property.once {
        null_check_text(indent@, "value"@, property.name@) + "\n"@ + once_guard_text(indent@, property.name@)
    } else {
        seq![]
    };
    assert(output@ =~= head + guards);
    let ghost body_part: Seq<char>;
    match &property.setter_body {
        Some(body) => {
            let rewritten = match rewrite_text(body) {
                Some(t) => t,
                None => return None,
            };
            let text = indent_body(rewritten.as_str(), indent, "    ");
            output.append(text.as_str());
            output.append("\n");
            proof {
                body_part = indented(rewritten@, indent@, "    "@) + "\n"@;
            }
        },
        None => {
            proof {
                body_part = seq![];
            }
        },
    }
    assert(output@ =~= head + guards + body_part);
    let tail = setter_tail(property.name.as_str(), indent);
    output.append(tail.as_str());
    assert(output@ =~= head + guards + body_part + setter_tail_text(property.name@, indent@));
    Some(output)
}

/// The constructor parameters for the first `k` of `ps`, one per line, all
/// but the last followed by a comma.
pub open spec fn constructor_params(ps: Seq<PropertyView>, k: int, indent: Seq<char>) -> Seq<char>
    decreases k,
{
    if k <= 0 || k > ps.len() {
        seq![]
    } else {
        let p = ps[k - 1];
        let comma = if k == ps.len() {
            seq![]
        } else {
            ","@
        };
        constructor_params(ps, k - 1, indent) + indent + "    "@ + p.ty + " "@ + p.name + comma
            + "\n"@
    }
}

/// The field assignments for the first `k` of `ps`.
pub open spec fn constructor_assignments(ps: Seq<PropertyView>, k: int, indent: Seq<char>) -> Seq<
    char,
>
    decreases k,
{
    if k <= 0 || k > ps.len() {
        seq![]
    } else {
        let p = ps[k - 1];
        constructor_assignments(ps, k - 1, indent) + indent + "    this."@ + p.name + " = "@
            + p.name + ";\n"@
    }
}

/// The constructor that takes and assigns the final properties `ps`.
pub open spec fn constructor_text(class_name: Seq<char>, ps: Seq<PropertyView>, indent: Seq<char>) -> Seq<
    char,
> {
    indent + "public "@ + class_name + "(\n"@ + constructor_params(ps, ps.len() as int, indent)
        + indent + ") {\n"@ + constructor_assignments(ps, ps.len() as int, indent) + indent + "}\n"@
}

pub open spec fn props_view(v: Seq<&Property>) -> Seq<PropertyView> {
    v.map_values(|p: &Property| p@)
}

fn generate_constructor(class_name: &str, properties: &Vec<&Property>, indent: &str) -> (r: String)
    ensures
        r@ == constructor_text(class_name@, props_view(properties@), indent@),
{
    let ghost ps = props_view(properties@);
    let mut output = String::new();
    output.append(indent);
    output.append("public ");
    output.append(class_name);
    output.append("(\n");
    let ghost head = output@;
    let n = properties.len();
    let mut index: usize = 0;
    while index < n
        invariant
            index <= n == properties@.len() == ps.len(),
            ps == props_view(properties@),
            output@ == head + constructor_params(ps, index as int, indent@),
        decreases n - index,
    {
        let property = properties[index];
        let comma = if index + 1 == n {
            ""
        } else {
            ","
        };
        proof {
            reveal_strlit("");
        }
        let ghost before = output@;
        output.append(indent);
        output.append("    ");
        output.append(property.ty.as_str());
        output.append(" ");
        output.append(property.name.as_str());
        output.append(comma);
        output.append("\n");
        assert(output@ =~= head + constructor_params(ps, index + 1, indent@));
        index = index + 1;
    }
    output.append(indent);
    output.append(") {\n");
    let ghost mid = output@;
    let mut index: usize = 0;
    while index < n
        invariant
            index <= n == properties@.len() == ps.len(),
            ps == props_view(properties@),
            output@ == mid + constructor_assignments(ps, index as int, indent@),
        decreases n - index,
    {
        let property = properties[index];
        output.append(indent);
        output.append("    this.");
        output.append(property.name.as_str());
        output.append(" = ");
        output.append(property.name.as_str());
        output.append(";\n");
        assert(output@ =~= mid + constructor_assignments(ps, index + 1, indent@));
        index = index + 1;
    }
    output.append(indent);
    output.append("}\n");
    assert(output@ =~= constructor_text(class_name@, ps, indent@));
    output
}

/// The field of a property: `private final` for a final property, plain
/// `private` otherwise, none for a calculated property.
pub open spec fn field_text(p: PropertyView) -> Seq<char> {
    let indent = p.indent;
    if backed(p) {
        if p.final_field {
            indent + "private final "@ + p.ty + " "@ + p.name + ";\n"@
        } else if !calculated(p) {
            indent + "private "@ + p.ty + " "@ + p.name + ";\n"@
        } else {
            seq![]
        }
    } else {
        seq![]
    }
}

/// The Java for a property: its field, the constructor when this is the
/// first final property (`emitted` says whether it was already written), its
/// getter and its setter.
pub open spec fn property_text(
    class_name: Seq<char>,
    p: PropertyView,
    finals: Seq<PropertyView>,
    emitted: bool,
) -> Option<Seq<char>> {
    let constructor = if p.final_field && !emitted {
        "\n"@ + constructor_text(class_name, finals, p.indent)
    } else {
        seq![]
    };
    let getter = if p.getter {
        cat(Some("\n"@), getter_text(p, p.indent))
    } else {
        Some(seq![])
    };
    let setter = if p.setter || p.once {
        cat(Some("\n"@), setter_text(class_name, p, p.indent))
    } else {
        Some(seq![])
    };
    cat(cat(Some(field_text(p) + constructor), getter), setter)
}

fn generate_field(property: &Property) -> (r: String)
    ensures
        r@ == field_text(property@),
{
    let mut output = String::new();
    let indent = property.indent.as_str();
    if property.has_backing_field() {
        if property.final_field {
            output.append(indent);
            output.append("private final ");
            output.append(property.ty.as_str());
            output.append(" ");
            output.append(property.name.as_str());
            output.append(";\n");
        } else if !property.is_calculated() {
            output.append(indent);
            output.append("private ");
            output.append(property.ty.as_str());
            output.append(" ");
            output.append(property.name.as_str());
            output.append(";\n");
        }
    }
    assert(output@ =~= field_text(property@));
    output
}

fn generate_property(
    class_name: &str,
    property: &Property,
    final_properties: &Vec<&Property>,
    emitted_constructor: &mut bool,
) -> (r: Option<String>)
    ensures
        opt_str(r) == property_text(
            class_name@,
            property@,
            props_view(final_properties@),
            *old(emitted_constructor),
        ),
        *final(emitted_constructor) == (*old(emitted_constructor) || property.final_field),
{
    let ghost p = property@;
    let ghost emitted = *emitted_constructor;
    let indent = property.indent.as_str();
    proof {
        reveal_strlit("\n");
    }
    let mut output = generate_field(property);
    if property.final_field && !*emitted_constructor {
        output.push('\n');
        let constructor = generate_constructor(class_name, final_properties, indent);
        output.append(constructor.as_str());
        *emitted_constructor = true;
    }
    let ghost fixed = field_text(p) + if p.final_field && !emitted {
        "\n"@ + constructor_text(class_name@, props_view(final_properties@), p.indent)
    } else {
        seq![]
    };
    assert(output@ =~= fixed);
    let ghost getter_part: Seq<char>;
    if property.getter {
        let getter = match generate_getter(property, indent) {
            Some(g) => g,
            None => return None,
        };
        output.push('\n');
        output.append(getter.as_str());
        proof {
            getter_part = "\n"@ + getter@;
        }
    } else {
        proof {
            getter_part = seq![];
        }
    }
    assert(output@ =~= fixed + getter_part);
    let ghost setter_part: Seq<char>;
    if property.setter || property.once {
        let setter = match generate_setter(class_name, property, indent) {
            Some(t) => t,
            None => return None,
        };
        output.push('\n');
        output.append(setter.as_str());
        proof {
            setter_part = "\n"@ + setter@;
        }
    } else {
        proof {
            setter_part = seq![];
        }
    }
    assert(output@ =~= fixed + getter_part + setter_part);
    Some(output)
}

// ---------------------------------------------------------------------------
// Mappers
// ---------------------------------------------------------------------------
/// The target assignments for the first `k` mapper assignments.
pub open spec fn mapper_assignments_text(
    asg: Seq<MapperAssignmentView>,
    k: int,
    indent: Seq<char>,
) -> Option<Seq<char>>
    decreases k,
{
    if k <= 0 || k > asg.len() {
        Some(seq![])
    } else {
        let a = asg[k - 1];
        cat(
            mapper_assignments_text(asg, k - 1, indent),
            match null_safe_rewrite(a.expression) {
                None => None,
                Some(e) => Some(indent + "    target."@ + a.target_property + "("@ + e + ");\n"@),
            },
        )
    }
}

/// The mapping method of a mapper: it creates the target, calls one fluent
/// setter per assignment and returns the target.
pub open spec fn mapper_text(m: MapperView) -> Option<Seq<char>> {
    let indent = m.indent;
    let head = indent + "public "@ + m.target_type + " "@ + m.method_name + "() {\n"@ + indent
        + "    "@ + m.target_type + " target = new "@ + m.target_type + "();\n\n"@;
    let tail = "\n"@ + indent + "    return target;\n"@ + indent + "}\n"@;
    cat(cat(Some(head), mapper_assignments_text(m.assignments, m.assignments.len() as int, indent)), Some(tail))
}

proof fn lemma_cat_none_stays(asg: Seq<MapperAssignmentView>, k: int, j: int, indent: Seq<char>)
    requires
        0 <= k <= j <= asg.len(),
        mapper_assignments_text(asg, k, indent) is None,
    ensures
        mapper_assignments_text(asg, j, indent) is None,
    decreases j - k,
{
    if j > k {
        lemma_cat_none_stays(asg, k, j - 1, indent);
    }
}

fn generate_mapper(mapper: &Mapper) -> (r: Option<String>)
    ensures
        opt_str(r) == mapper_text(mapper@),
{
    let indent = mapper.indent.as_str();
    let ghost asg = assignments_view(mapper.assignments@);
    let mut output = String::new();
    output.append(indent);
    output.append("public ");
    output.append(mapper.target_type.as_str());
    output.append(" ");
    output.append(mapper.method_name.as_str());
    output.append("() {\n");
    output.append(indent);
    output.append("    ");
    output.append(mapper.target_type.as_str());
    output.append(" target = new ");
    output.append(mapper.target_type.as_str());
    output.append("();\n\n");
    let ghost head = output@;
    let n = mapper.assignments.len();
    let mut k: usize = 0;
    while k < n
        invariant
            k <= n == mapper.assignments@.len() == asg.len(),
            asg == assignments_view(mapper.assignments@),
            indent@ == mapper.indent@,
            mapper_assignments_text(asg, k as int, indent@) == Some(output@.subrange(head.len() as int, output@.len() as int)),
            output@.len() >= head.len(),
            output@.subrange(0, head.len() as int) == head,
        decreases n - k,
    {
        let assignment = &mapper.assignments[k];
        let expression = match rewrite_text(&assignment.expression) {
            Some(e) => e,
            None => {
                proof {
                    lemma_cat_none_stays(asg, k + 1, n as int, indent@);
                }
                return None;
            },
        };
        let ghost before = output@;
        output.append(indent);
        output.append("    target.");
        output.append(assignment.target_property.as_str());
        output.append("(");
        output.append(expression.as_str());
        output.append(");\n");
        assert(output@.subrange(head.len() as int, output@.len() as int) =~= before.subrange(
            head.len() as int,
            before.len() as int,
        ) + (indent@ + "    target."@ + assignment.target_property@ + "("@ + expression@
            + ");\n"@));
        assert(output@.subrange(0, head.len() as int) =~= before.subrange(0, head.len() as int));
        k = k + 1;
    }
    let ghost body = output@.subrange(head.len() as int, output@.len() as int);
    assert(output@ =~= head + body);
    output.push('\n');
    output.append(indent);
    output.append("    return target;\n");
    output.append(indent);
    output.append("}\n");
    proof {
        reveal_strlit("\n");
    }
    assert(Some(output@) =~~= mapper_text(mapper@));
    Some(output)
}

// ---------------------------------------------------------------------------
// Whole files
// ---------------------------------------------------------------------------
/// The final properties among the segments, in order.
pub open spec fn final_props(segs: Seq<SegmentView>) -> Seq<PropertyView>
    decreases segs.len(),
{
    if segs.len() == 0 {
        seq![]
    } else {
        let rest = final_props(segs.drop_last());
        match segs.last() {
            SegmentView::Property(p) => if p.final_field {
                rest.push(p)
            } else {
                rest
            },
            _ => rest,
        }
    }
}

/// Whether one of the first `k` segments is a final property.
pub open spec fn final_before(segs: Seq<SegmentView>, k: int) -> bool {
    exists|j: int| 0 <= j < k && (#[trigger] segs[j] matches SegmentView::Property(p) && p.final_field)
}

/// The Java for one segment.
pub open spec fn segment_text(
    class_name: Seq<char>,
    finals: Seq<PropertyView>,
    seg: SegmentView,
    emitted: bool,
) -> Option<Seq<char>> {
    match seg {
        SegmentView::Java(t) => null_safe_rewrite(t),
        SegmentView::Property(p) => property_text(class_name, p, finals, emitted),
        SegmentView::Mapper(m) => mapper_text(m),
    }
}

/// The Java for the first `k` segments.
pub open spec fn segments_text(class_name: Seq<char>, segs: Seq<SegmentView>, k: int) -> Option<
    Seq<char>,
>
    decreases k,
{
    if k <= 0 || k > segs.len() {
        Some(seq![])
    } else {
        cat(
            segments_text(class_name, segs, k - 1),
            segment_text(class_name, final_props(segs), segs[k - 1], final_before(segs, k - 1)),
        )
    }
}

/// The Java generated for a parsed file: `Err` when it has no class name;
/// `None` where rewriting some text is undefined.
pub open spec fn generated(f: JppFileView) -> Option<Result<Seq<char>, DiagnosticView>> {
    match f.class_name {
        None => Some(
            Err(
                diag(
                    "JPP2000"@,
                    "Could not find a Java class declaration for generated methods."@,
                    SourceLocation { file: f.path, line: 1, column: 1 },
                ),
            ),
        ),
        Some(cn) => match segments_text(cn, f.segments, f.segments.len() as int) {
            None => None,
            Some(t) => Some(Ok(t)),
        },
    }
}

proof fn lemma_segments_none_stays(cn: Seq<char>, segs: Seq<SegmentView>, k: int, j: int)
    requires
        0 <= k <= j <= segs.len(),
        segments_text(cn, segs, k) is None,
    ensures
        segments_text(cn, segs, j) is None,
    decreases j - k,
{
    if j > k {
        lemma_segments_none_stays(cn, segs, k, j - 1);
    }
}

fn generate_checked(file: &JppFile) -> (r: Option<JppResult<String>>)
    ensures
        match r {
            None => generated(file@) is None,
            Some(Ok(t)) => generated(file@) == Some(Ok::<Seq<char>, DiagnosticView>(t@)),
            Some(Err(d)) => generated(file@) == Some(Err::<Seq<char>, DiagnosticView>(d@)),
        },
{
    let class_name = match &file.class_name {
        Some(c) => c.as_str(),
        None => {
            return Some(
                Err(
                    Diagnostic::new(
                        "JPP2000",
                        String::from_str(
                            "Could not find a Java class declaration for generated methods.",
                        ),
                        SourceLocation::new(clone_path_opt(&file.path), 1, 1),
                    ),
                ),
            );
        },
    };
    let ghost segs = segments_view(file.segments@);
    let n = file.segments.len();
    let mut final_properties: Vec<&Property> = Vec::new();
    let mut i: usize = 0;
    while i < n
        invariant
            i <= n == file.segments@.len() == segs.len(),
            segs == segments_view(file.segments@),
            props_view(final_properties@) == final_props(segs.subrange(0, i as int)),
        decreases n - i,
    {
        assert(segs.subrange(0, i + 1).drop_last() =~= segs.subrange(0, i as int));
        match &file.segments[i] {
            Segment::Property(property) => {
                if property.final_field {
                    let ghost before = final_properties@;
                    final_properties.push(property);
                    assert(props_view(final_properties@) =~= props_view(before).push(property@));
                }
            },
            _ => {},
        }
        i = i + 1;
    }
    assert(segs.subrange(0, n as int) =~= segs);
    let mut emitted_constructor = false;
    let mut output = String::new();
    let mut i: usize = 0;
    while i < n
        invariant
            i <= n == file.segments@.len() == segs.len(),
            segs == segments_view(file.segments@),
            file.class_name matches Some(c) && c@ == class_name@,
            props_view(final_properties@) == final_props(segs),
            emitted_constructor == final_before(segs, i as int),
            segments_text(class_name@, segs, i as int) == Some(output@),
        decreases n - i,
    {
        let piece = match &file.segments[i] {
            Segment::Java(java) => rewrite_text(java),
            Segment::Property(property) => generate_property(
                class_name,
                property,
                &final_properties,
                &mut emitted_constructor,
            ),
            Segment::Mapper(mapper) => generate_mapper(mapper),
        };
        proof {
            assert(segs[i as int] == file.segments@[i as int]@);
            if segs[i as int] matches SegmentView::Property(p) && p.final_field {
                assert(final_before(segs, i + 1));
            } else {
                if final_before(segs, i + 1) {
                    let j = choose|j: int| 0 <= j < i + 1 && (#[trigger] segs[j] matches SegmentView::Property(p) && p.final_field);
                    assert(j != i);
                    assert(final_before(segs, i as int));
                }
            }
        }
        match piece {
            Some(p) => output.append(p.as_str()),
            None => {
                proof {
                    lemma_segments_none_stays(class_name@, segs, i + 1, n as int);
                }
                return None;
            },
        }
        i = i + 1;
    }
    Some(Ok(output))
}

/// Generates plain Java for a parsed file.  Fails when the file declares no
/// class.
pub fn generate_java(file: &JppFile) -> (r: JppResult<String>)
    requires
        generated(file@) is Some,
    ensures
        match r {
            Ok(t) => generated(file@) == Some(Ok::<Seq<char>, DiagnosticView>(t@)),
            Err(d) => generated(file@) == Some(Err::<Seq<char>, DiagnosticView>(d@)),
        },
{
    generate_checked(file).unwrap()
}

/// Whether `generate_java` is defined on `file`.
pub fn can_generate_java(file: &JppFile) -> (r: bool)
    ensures
        r == (generated(file@) is Some),
{
    generate_checked(file).is_some()
}

} // verus!
