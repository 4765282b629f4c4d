//! Boundary validation of registration payloads.

use taskday::auth::{validate_registration, RegisterRequest};

#[test]
fn registration_requires_name_and_long_password() {
    let ok = RegisterRequest { username: "ada".to_string(), password: "longenough".to_string() };
    assert!(validate_registration(&ok));

    let blank_name = RegisterRequest { username: "   ".to_string(), password: "longenough".to_string() };
    assert!(!validate_registration(&blank_name));

    let empty_name = RegisterRequest { username: String::new(), password: "longenough".to_string() };
    assert!(!validate_registration(&empty_name));

    let short_password = RegisterRequest { username: "ada".to_string(), password: "seven77".to_string() };
    assert!(!validate_registration(&short_password));

    let exactly_eight = RegisterRequest { username: "ada".to_string(), password: "eight888".to_string() };
    assert!(validate_registration(&exactly_eight));
}
