use jpp::generator::generate_java;
use jpp::nullsafe::rewrite_null_safe_access;
use jpp::parser::parse_source;

#[test]
fn generates_customer_properties() {
    let source = r#"public class Customer {
    prop get once UUID id;

    prop get final Instant created;

    prop get set String firstName {
        set {
            value = value.trim();
        }
    }

    prop get String fullName {
        return firstName() + " " + lastName();
    }
}
"#;

    let parsed = parse_source(None, source).unwrap();
    let java = generate_java(&parsed).unwrap();

    assert!(java.contains("private UUID id;"));
    assert!(java.contains("public synchronized Customer id(UUID value)"));
    assert!(java.contains("private final Instant created;"));
    assert!(java.contains("public Customer(\n        Instant created\n    )"));
    assert!(java.contains("public Customer firstName(String value)"));
    assert!(java.contains("if (value == null)"));
    assert!(java.contains("value = value.trim();"));
    assert!(java.contains("public String fullName()"));
    assert!(!java.contains("prop get"));
}

#[test]
fn rewrites_null_safe_access() {
    let source = r#"public class Customer {
    private Customer referrer;

    prop get String referrerName {
        return referrer?.fullName() ?: "";
    }
}
"#;

    let parsed = parse_source(None, source).unwrap();
    let java = generate_java(&parsed).unwrap();

    assert!(java.contains(
        "return java.util.Optional.ofNullable(referrer).map(__jpp_value -> __jpp_value.fullName()).orElse(\"\");"
    ));
}

#[test]
fn ignores_null_safe_text_in_strings_and_comments() {
    let java = rewrite_null_safe_access(
        "String s = \"x?.hello()\"; // y?.hello()\nreturn customer?.email();",
    );

    assert!(java.contains("\"x?.hello()\""));
    assert!(java.contains("// y?.hello()"));
    assert!(java.contains("(customer == null ? null : customer.email())"));
}

#[test]
fn rewrites_null_safe_access_with_fallback() {
    let java = rewrite_null_safe_access("return customer?.email() ?: \"unknown\";");

    assert_eq!(
        java,
        "return java.util.Optional.ofNullable(customer).map(__jpp_value -> __jpp_value.email()).orElse(\"unknown\");"
    );
}

#[test]
fn generates_mapper_method() {
    let source = r#"public class Customer {
    mapper CustomerSummary summary {
        displayName = fullName();
        referrerName = referrer?.fullName() ?: "";
    }
}
"#;

    let parsed = parse_source(None, source).unwrap();
    let java = generate_java(&parsed).unwrap();

    assert!(java.contains("public CustomerSummary summary()"));
    assert!(java.contains("CustomerSummary target = new CustomerSummary();"));
    assert!(java.contains("target.displayName(fullName());"));
    assert!(java.contains(
        "target.referrerName(java.util.Optional.ofNullable(referrer).map(__jpp_value -> __jpp_value.fullName()).orElse(\"\"));"
    ));
    assert!(java.contains("return target;"));
}
