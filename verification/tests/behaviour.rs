use std::path::{Path, PathBuf};

use jpp::cli::{parse_command, usage, Command};
use jpp::diagnostics::{Diagnostic, SourceLocation};
use jpp::generator::{can_generate_java, generate_java};
use jpp::model::{Property, Segment};
use jpp::nullsafe::{can_rewrite_null_safe_access, rewrite_null_safe_access};
use jpp::parser::{can_parse_source, parse_source};
use jpp::nullsafe::read_balanced;
use jpp::scan::{find_matching_brace, split_mapper_statements};

fn error_code(source: &str) -> &'static str {
    parse_source(None, source).unwrap_err().code
}

fn generate(source: &str) -> String {
    generate_java(&parse_source(None, source).unwrap()).unwrap()
}

#[test]
fn plain_java_generates_itself() {
    let source = "public class A {\n    int x = 1; // note?.here\n}\n";
    assert_eq!(generate(source), source);
}

#[test]
fn plain_java_is_one_java_segment() {
    let source = "class B {\n  String s = \"prop x\";\n}\n";
    let parsed = parse_source(None, source).unwrap();
    assert_eq!(parsed.segments.len(), 1);
    match &parsed.segments[0] {
        Segment::Java(text) => assert_eq!(text, source),
        other => panic!("expected java, got {other:?}"),
    }
    assert_eq!(parsed.source, source);
    assert_eq!(parsed.class_name.as_deref(), Some("B"));
}

#[test]
fn text_without_operator_is_unchanged() {
    let text = "a ? b : c; x.y(); \"?.\"; /* ?. */";
    assert_eq!(rewrite_null_safe_access(text), text);
}

#[test]
fn rewrites_access_without_fallback_exactly() {
    assert_eq!(
        rewrite_null_safe_access("x = a.b?.c(1)[2].d;"),
        "x = (a.b == null ? null : a.b.c(1)[2].d);"
    );
}

#[test]
fn keeps_operator_without_member() {
    assert_eq!(rewrite_null_safe_access("a?.5"), "a?.5");
    assert_eq!(rewrite_null_safe_access(" ?.x"), " ?.x");
}

#[test]
fn rewrite_skips_char_literals_and_block_comments() {
    assert_eq!(
        rewrite_null_safe_access("c = '?'; /* a?.b */ d?.e"),
        "c = '?'; /* a?.b */ (d == null ? null : d.e)"
    );
}

#[test]
fn fallback_ends_at_newline() {
    assert_eq!(
        rewrite_null_safe_access("a?.b ?: f(1, 2)  \nnext"),
        "java.util.Optional.ofNullable(a).map(__jpp_value -> __jpp_value.b).orElse(f(1, 2))\nnext"
    );
}

#[test]
fn islands_are_well_formed_after_parse() {
    let parsed = parse_source(
        None,
        "class C {\n  prop get final long id;\n  prop set String pw;\n  mapper T t { a = b; }\n}\n",
    )
    .unwrap();
    for segment in &parsed.segments {
        match segment {
            Segment::Property(p) => {
                assert!(p.getter || p.setter);
                assert!(!p.once || p.getter);
                assert!(!p.final_field || !p.setter);
                assert!(!(p.final_field && p.once));
            }
            Segment::Mapper(m) => {
                assert!(!m.assignments.is_empty());
                for a in &m.assignments {
                    assert!(!a.target_property.is_empty());
                    assert!(!a.expression.is_empty());
                }
            }
            Segment::Java(_) => {}
        }
    }
}

#[test]
fn property_header_errors() {
    assert_eq!(error_code("class C {\n prop get String;\n}"), "JPP1000");
    assert_eq!(error_code("class C {\n prop once String x;\n}"), "JPP1004");
    assert_eq!(error_code("class C {\n prop set once String x;\n}"), "JPP1005");
    assert_eq!(error_code("class C {\n prop get set final String x;\n}"), "JPP1006");
    assert_eq!(error_code("class C {\n prop get once final String x;\n}"), "JPP1007");
    let err = parse_source(None, "class C {\n prop get set x;\n}").unwrap_err();
    assert_eq!(err.code, "JPP1000");
    assert_eq!(err.message, "Property declaration must include a type and name.");
    assert_eq!(err.suggestion, None);
}

#[test]
fn property_structure_errors() {
    let err = parse_source(None, "class C {\n  prop get String x\n").unwrap_err();
    assert_eq!(err.code, "JPP1001");
    assert_eq!(
        err.suggestion.as_deref(),
        Some("End the property with ';' or add a balanced '{ ... }' body.")
    );
    assert_eq!(err.location.line, 2);
    assert_eq!(err.location.column, 3);
    let err = parse_source(None, "class C {\n  prop get String x {\n").unwrap_err();
    assert_eq!(err.code, "JPP1002");
    assert_eq!(err.message, "Property 'x' has an unclosed body.");
    assert_eq!(error_code("class C {\n prop get set String x { set \"{\"; }\n}"), "JPP1008");
    let err = parse_source(None, "class C {\n prop set String x { return y; }\n}").unwrap_err();
    assert_eq!(err.code, "JPP1009");
    assert_eq!(err.message, "Property 'x' has a body JPP does not understand.");
}

#[test]
fn mapper_errors() {
    assert_eq!(error_code("class C {\n mapper Foo { a = b; }\n}"), "JPP1100");
    assert_eq!(error_code("class C {\n mapper A b"), "JPP1101");
    assert_eq!(error_code("class C {\n mapper A b;\n}"), "JPP1102");
    let err = parse_source(None, "class C {\n mapper A b {\n").unwrap_err();
    assert_eq!(err.code, "JPP1103");
    assert_eq!(err.message, "Mapper 'b' has an unclosed body.");
    let err = parse_source(None, "class C {\n mapper A b { foo; }\n}").unwrap_err();
    assert_eq!(err.code, "JPP1104");
    assert_eq!(err.message, "Mapper assignment 'foo' must use '='.");
    assert_eq!(error_code("class C {\n mapper A b { = x; }\n}"), "JPP1105");
    assert_eq!(error_code("class C {\n mapper A b { ; }\n}"), "JPP1106");
}

#[test]
fn missing_class_is_an_error() {
    let parsed = parse_source(None, "interface I {}\n").unwrap();
    let err = generate_java(&parsed).unwrap_err();
    assert_eq!(err.code, "JPP2000");
    assert_eq!(err.location.line, 1);
    assert_eq!(err.location.column, 1);
}

#[test]
fn inputs_the_library_does_not_handle() {
    assert!(!can_parse_source(None, "class C {\n prop get set String x { set foo; }\n}"));
    assert!(can_parse_source(None, "class C {\n prop get set String x;\n}"));
    let parsed = parse_source(None, "class C {\n  Object o = a?.b?.c;\n}\n").unwrap();
    assert!(!can_generate_java(&parsed));
    let parsed = parse_source(None, "class C {\n  Object o = a?.b ?: \"\\").unwrap();
    assert!(!can_generate_java(&parsed));
    let parsed = parse_source(None, "class C {\n  Object o = a?.b;\n}\n").unwrap();
    assert!(can_generate_java(&parsed));
}

#[test]
fn write_only_and_calculated_properties() {
    let java = generate("class C {\n    prop set String password;\n    prop get int two { return 2; }\n}\n");
    assert!(java.contains("    private String password;\n"));
    assert!(java.contains("    public C password(String value) {\n"));
    assert!(!java.contains("public String password()"));
    assert!(!java.contains("private int two;"));
    assert!(java.contains("    public int two() {\n        return 2;\n    }\n"));
}

#[test]
fn final_properties_share_one_constructor() {
    let java = generate("class P {\n  prop get final int x;\n  prop get final int y;\n}\n");
    assert_eq!(java.matches("public P(").count(), 1);
    assert!(java.contains("  public P(\n      int x,\n      int y\n  ) {\n      this.x = x;\n      this.y = y;\n  }\n"));
}

#[test]
fn generated_setter_is_fluent() {
    let java = generate("class C {\n    prop get set String name;\n}\n");
    assert!(java.contains(
        "    public C name(String value) {\n        this.name = value;\n\n        return this;\n    }\n"
    ));
    assert!(java.contains("    public String name() {\n        return this.name;\n    }\n"));
}

#[test]
fn once_setter_guards() {
    let java = generate("class C {\n  prop get once Long id;\n}\n");
    assert!(java.contains("  public synchronized C id(Long value) {\n"));
    assert!(java.contains("      if (value == null) {\n          throw new NullPointerException(\n              \"Property 'id' cannot be null\"\n          );\n      }\n"));
    assert!(java.contains("      if (this.id != null) {\n          throw new IllegalStateException(\n              \"Property 'id' is once-only\"\n          );\n      }\n"));
}

#[test]
fn property_type_words_are_joined() {
    let parsed = parse_source(None, "class C {\n  prop get  Map<String,\tInteger>  counts ;\n}\n").unwrap();
    let Segment::Property(p) = &parsed.segments[1] else {
        panic!("expected property");
    };
    assert_eq!(p.ty, "Map<String, Integer>");
    assert_eq!(p.name, "counts");
    assert_eq!(p.indent, "  ");
    assert_eq!(p.location.line, 2);
    assert_eq!(p.location.column, 3);
}

#[test]
fn getter_body_is_trimmed_and_reindented() {
    let parsed = parse_source(None, "class C {\n  prop get int n {\n\n      int a = 1;\n        return a;\n\n  }\n}\n").unwrap();
    let Segment::Property(p) = &parsed.segments[1] else {
        panic!("expected property");
    };
    assert_eq!(p.getter_body.as_deref(), Some("      int a = 1;\n        return a;"));
    let java = generate_java(&parsed).unwrap();
    assert!(java.contains("  public int n() {\n      int a = 1;\n        return a;\n  }\n"));
}

#[test]
fn backing_field_and_calculated() {
    let parsed = parse_source(None, "class C {\n prop get int n { return 1; }\n prop get int m;\n}\n").unwrap();
    let props: Vec<&Property> = parsed
        .segments
        .iter()
        .filter_map(|s| match s {
            Segment::Property(p) => Some(p),
            _ => None,
        })
        .collect();
    assert!(props[0].is_calculated());
    assert!(!props[0].has_backing_field());
    assert!(!props[1].is_calculated());
    assert!(props[1].has_backing_field());
}

#[test]
fn location_at_offset() {
    let loc = SourceLocation::at_offset(None, "ab\ncd\ne", 4);
    assert_eq!((loc.line, loc.column), (2, 2));
    let loc = SourceLocation::at_offset(None, "ab\ncd\ne", 0);
    assert_eq!((loc.line, loc.column), (1, 1));
    let loc = SourceLocation::at_offset(None, "ab\ncd\ne", 100);
    assert_eq!((loc.line, loc.column), (3, 2));
    // "é" takes two bytes: offsets 1 and 2 both fall after it.
    let loc = SourceLocation::at_offset(None, "éx", 2);
    assert_eq!((loc.line, loc.column), (1, 2));
    let loc = SourceLocation::at_offset(None, "éx", 3);
    assert_eq!((loc.line, loc.column), (1, 3));
    let loc = SourceLocation::at_offset(Some(Path::new("dir/A.jpp")), "x", 1);
    assert_eq!(loc.file, Some(PathBuf::from("dir/A.jpp")));
}

#[test]
fn path_is_carried_through() {
    let parsed = parse_source(Some(Path::new("src/main/jpp/C.jpp")), "class C {\n prop get int x;\n}\n").unwrap();
    assert_eq!(parsed.path, Some(PathBuf::from("src/main/jpp/C.jpp")));
    let Segment::Property(p) = &parsed.segments[1] else {
        panic!("expected property");
    };
    assert_eq!(p.location.file, Some(PathBuf::from("src/main/jpp/C.jpp")));
    let cloned = p.location.clone();
    assert_eq!(cloned, p.location);
}

#[test]
fn diagnostic_rendering() {
    let d = Diagnostic::new("JPP1000", String::from("Broken."), SourceLocation::new(None, 12, 3));
    assert_eq!(d.render(), "12:3\n\nJPP1000:\nBroken.\n");
    let d = Diagnostic::new(
        "JPP1001",
        String::from("Also broken."),
        SourceLocation::new(Some(PathBuf::from("a/B.jpp")), 1, 40),
    )
    .with_suggestion(String::from("Fix it."));
    assert_eq!(d.render(), "a/B.jpp:1:40\n\nJPP1001:\nAlso broken.\n\nSuggestion: Fix it.\n");
    assert_eq!(d.code, "JPP1001");
    assert_eq!(d.message, "Also broken.");
}

#[test]
fn command_line_forms() {
    let args = |v: &[&str]| v.iter().map(|s| s.to_string()).collect::<Vec<_>>();
    assert_eq!(
        parse_command(&args(&["generate", "in", "out"])).unwrap(),
        Command::Generate { input: "in".into(), output: "out".into() }
    );
    assert_eq!(
        parse_command(&args(&["in", "out"])).unwrap(),
        Command::Generate { input: "in".into(), output: "out".into() }
    );
    assert_eq!(
        parse_command(&args(&["clean", "out"])).unwrap(),
        Command::Clean { output: "out".into() }
    );
    assert_eq!(
        parse_command(&args(&["validate", "in"])).unwrap(),
        Command::Validate { input: "in".into() }
    );
    let err = parse_command(&args(&["generate"])).unwrap_err();
    assert_eq!(err.code, "JPP0001");
    assert_eq!(err.message, usage());
    assert!(usage().starts_with("Usage:\n  jpp <input-dir> <output-dir>"));
}

#[test]
fn several_islands_on_one_line_and_text_between() {
    let parsed = parse_source(None, "class C {\n  prop get int a; prop get int b;\n}\n").unwrap();
    assert_eq!(parsed.segments.len(), 4);
    match &parsed.segments[2] {
        Segment::Property(p) => {
            assert_eq!(p.name, "b");
            assert_eq!(p.indent, " ");
        }
        other => panic!("expected property, got {other:?}"),
    }
}


#[test]
fn rewrite_is_defined_check() {
    assert!(can_rewrite_null_safe_access("a?.b"));
    assert!(!can_rewrite_null_safe_access("a?.b?.c"));
    assert!(!can_rewrite_null_safe_access("x?.y ?: \"\\"));
}

#[test]
fn parse_error_location_in_source() {
    let err = parse_source(Some(Path::new("C.jpp")), "class C {\n\n   mapper A b { foo; }\n}").unwrap_err();
    assert_eq!(err.code, "JPP1104");
    assert_eq!((err.location.line, err.location.column), (3, 4));
    assert_eq!(err.location.file, Some(PathBuf::from("C.jpp")));
}

fn single_java_segment(source: &str) -> bool {
    let parsed = parse_source(None, source).unwrap();
    parsed.segments.len() == 1
        && matches!(&parsed.segments[0], Segment::Java(text) if text == source)
}

#[test]
fn variables_named_prop_and_mapper_stay_java() {
    let source = "class C {\n    int prop;\n    void f() {\n        prop = 1;\n    }\n}\n";
    assert!(single_java_segment(source));
    assert_eq!(parse_source(None, source).unwrap().class_name.as_deref(), Some("C"));
    assert_eq!(generate(source), source);
    let other = "class D {\n    Mapper mapper;\n    void f() {\n        mapper = new Mapper();\n        mapper (x);\n        prop get;\n        prop\t+= 2;\n        prop ++;\n        prop get = x;\n        prop .y = 1;\n        mapper a, b;\n    }\n}\n";
    assert!(single_java_segment(other));
    assert_eq!(generate(other), other);
}

#[test]
fn declarations_after_prop_and_mapper_variables_are_islands() {
    let source = "class E {\n    void f() { prop = 1; }\n    prop  get String name;\n    mapper\tDto toDto { a = b(); }\n}\n";
    let parsed = parse_source(None, source).unwrap();
    assert_eq!(parsed.segments.len(), 5);
    assert!(matches!(&parsed.segments[1], Segment::Property(p) if p.name == "name"));
    assert!(matches!(&parsed.segments[3], Segment::Mapper(m) if m.method_name == "toDto"));
}

#[test]
fn constructor_comes_right_after_first_final_field() {
    let java = generate("class P {\n  prop get final int x;\n  prop get final int y;\n}\n");
    let field = "  private final int x;\n";
    let at = java.find(field).unwrap();
    assert!(java[at + field.len()..].starts_with("\n  public P(\n"));
    let second = java.find("  private final int y;\n").unwrap();
    assert!(!java[second..].contains("public P("));
}

#[test]
fn segments_follow_the_source_in_order() {
    let source = "class S {\n  int a;\n  prop get set String x;\n  prop get int y { return 1; }\n  int b;\n  mapper T t { a = b; }\n}\n";
    let parsed = parse_source(None, source).unwrap();
    let mut cursor = 0;
    let mut previous_java = false;
    for segment in &parsed.segments {
        match segment {
            Segment::Java(text) => {
                assert!(!previous_java);
                assert!(!text.is_empty());
                let at = source[cursor..].find(text.as_str()).unwrap();
                cursor += at + text.len();
                previous_java = true;
            }
            _ => previous_java = false,
        }
    }
    assert!(source.ends_with(match parsed.segments.last().unwrap() {
        Segment::Java(text) => text.as_str(),
        _ => "",
    }));
    assert_eq!(parsed.segments.len(), 7);
}

#[test]
fn mapper_statements_rejoin_the_body() {
    let bodies = ["a = b(); c = \"x;y\";", " a = f(g; h); b = c ", ";", "", "a = b;;"];
    for body in bodies {
        let chars: Vec<char> = body.chars().collect();
        let spans = split_mapper_statements(&chars, 0, chars.len());
        let parts: Vec<String> = spans.iter().map(|&(a, b)| chars[a..b].iter().collect()).collect();
        let joined = parts.join(";");
        assert!(joined == body || format!("{joined};") == body, "{body:?}");
    }
}

#[test]
fn generation_of_concatenated_segments_concatenates() {
    let first = parse_source(None, "class G {\n  prop get set String a;\n").unwrap();
    let second = parse_source(None, "  prop get final int b;\n  mapper T t { a = b; }\n}\n").unwrap();
    let mut both = first.clone();
    both.segments.extend(second.segments.iter().cloned());
    let mut tail = first.clone();
    tail.segments = second.segments.clone();
    let whole = generate_java(&both).unwrap();
    assert_eq!(whole, generate_java(&first).unwrap() + &generate_java(&tail).unwrap());
    assert_eq!(whole.matches("public G(").count(), 1);
}

#[test]
fn group_scans_may_start_before_the_opening_bracket() {
    let chars: Vec<char> = "ab \"}\" {c{d}} e}".chars().collect();
    assert_eq!(find_matching_brace(&chars, 0, chars.len()), Some(12));
    assert_eq!(find_matching_brace(&chars, 7, chars.len()), Some(12));
    assert_eq!(find_matching_brace(&chars, 7, 12), None);
    let call: Vec<char> = "x \")\" (a, (b)) y".chars().collect();
    assert_eq!(read_balanced(&call, 0, '(', ')'), Some(14));
    assert_eq!(read_balanced(&call, call.len(), '(', ')'), None);
}

#[test]
fn malformed_declarations_after_prop_are_still_reported() {
    assert_eq!(error_code("class C {\n    prop String x;\n}\n"), "JPP1000");
    assert_eq!(error_code("prop String x;"), "JPP1000");
    assert_eq!(error_code("class C {\n    prop String x y;\n}\n"), "JPP1004");
    assert_eq!(error_code("class C {\n    prop \n}\n"), "JPP1001");
    assert_eq!(error_code("class C {\n    mapper Dto toDto;\n}\n"), "JPP1102");
}
