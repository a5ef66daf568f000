use jpp::generator::generate_java;
use jpp::parser::parse_source;

fn fixture_customer() -> &'static str {
    r#"package demo;

import java.time.Instant;
import java.util.UUID;

public class Customer {

    prop get once UUID id;

    prop get final Instant created;

    prop get set String firstName;

    prop get set String lastName;

    prop get set String email {
        set {
            value = value.trim().toLowerCase();
        }
    }

    prop get set Customer referrer;

    prop get String referrerName {
        return referrer?.fullName() ?: "";
    }

    mapper CustomerSummary summary {
        displayName = fullName();
        referrerName = referrer?.fullName() ?: "";
    }

    prop get String fullName {
        return firstName()
            + " "
            + lastName();
    }
}
"#
}

#[test]
fn customer_fixture_generates_plain_java() {
    let parsed = parse_source(None, fixture_customer()).unwrap();
    let java = generate_java(&parsed).unwrap();

    assert!(java.contains("public class Customer"));
    assert!(java.contains("private UUID id;"));
    assert!(java.contains("public synchronized Customer id(UUID value)"));
    assert!(java.contains("private final Instant created;"));
    assert!(java.contains("public Customer firstName(String value)"));
    assert!(java.contains("public Customer email(String value)"));
    assert!(java.contains(
        "return java.util.Optional.ofNullable(referrer).map(__jpp_value -> __jpp_value.fullName()).orElse(\"\");"
    ));
    assert!(java.contains("public CustomerSummary summary()"));
    assert!(java.contains("target.displayName(fullName());"));
    assert!(java.contains(
        "target.referrerName(java.util.Optional.ofNullable(referrer).map(__jpp_value -> __jpp_value.fullName()).orElse(\"\"));"
    ));
    assert!(java.contains("public String fullName()"));
    assert!(!java.contains("prop "));
    assert!(!java.contains("mapper "));
}
