use jpp::model::Segment;
use jpp::parser::parse_source;

#[test]
fn parses_property_islands_and_preserves_java() {
    let parsed = parse_source(
        None,
        "public class Customer {\n    prop get set String firstName;\n}\n",
    )
    .unwrap();

    assert_eq!(parsed.class_name.as_deref(), Some("Customer"));
    assert_eq!(parsed.segments.len(), 3);

    match &parsed.segments[1] {
        Segment::Property(prop) => {
            assert_eq!(prop.name, "firstName");
            assert_eq!(prop.ty, "String");
            assert!(prop.getter);
            assert!(prop.setter);
            assert_eq!(prop.indent, "    ");
        }
        other => panic!("expected property, got {other:?}"),
    }
}

#[test]
fn parses_set_block() {
    let parsed = parse_source(
        None,
        "class C {\n    prop get set String email {\n        set {\n            value = value.trim();\n        }\n    }\n}\n",
    )
    .unwrap();

    let Segment::Property(prop) = &parsed.segments[1] else {
        panic!("expected property");
    };

    assert!(prop.setter_body.as_ref().unwrap().contains("value.trim()"));
}

#[test]
fn parses_mapper_islands() {
    let parsed = parse_source(
        None,
        "class C {\n    mapper CustomerSummary summary {\n        displayName = fullName();\n        referrerName = referrer?.fullName() ?: \"\";\n    }\n}\n",
    )
    .unwrap();

    let Segment::Mapper(mapper) = &parsed.segments[1] else {
        panic!("expected mapper");
    };

    assert_eq!(mapper.target_type, "CustomerSummary");
    assert_eq!(mapper.method_name, "summary");
    assert_eq!(mapper.assignments.len(), 2);
    assert_eq!(mapper.assignments[0].target_property, "displayName");
    assert_eq!(
        mapper.assignments[1].expression,
        "referrer?.fullName() ?: \"\""
    );
}
