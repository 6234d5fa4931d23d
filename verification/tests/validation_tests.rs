use archenemy::types::Error;
use archenemy::validate::{Email, TagName, Url, Validate, Wrapped};

fn validation_message(e: &Error) -> String {
    match e {
        Error::Validation { message, .. } => message.clone(),
        _ => panic!("expected a validation error"),
    }
}

#[test]
fn valid_email_accepted() {
    let email = Email::raw("user@example.com".to_string());
    assert!(email.validate().is_ok());
    assert!(Email::new("user@example.com".to_string()).is_ok());
}

#[test]
fn email_empty_rejected() {
    let e = Email::raw(String::new()).validate().unwrap_err();
    assert_eq!(
        validation_message(&e),
        "Email must not be empty and under 254 characters"
    );
}

#[test]
fn email_too_long_rejected() {
    let mut s = String::new();
    for _ in 0..255 {
        s.push('a');
    }
    let e = Email::raw(s).validate().unwrap_err();
    assert_eq!(
        validation_message(&e),
        "Email must not be empty and under 254 characters"
    );
}

#[test]
fn email_missing_at_rejected() {
    let e = Email::raw("userexample.com".to_string()).validate().unwrap_err();
    assert_eq!(validation_message(&e), "Email must contain @ symbol");
}

#[test]
fn email_empty_local_part_rejected() {
    let e = Email::raw("@example.com".to_string()).validate().unwrap_err();
    assert_eq!(
        validation_message(&e),
        "Email must have at least one character before @"
    );
}

#[test]
fn email_empty_domain_rejected() {
    let e = Email::raw("user@".to_string()).validate().unwrap_err();
    assert_eq!(validation_message(&e), "Email domain cannot be empty");
}

#[test]
fn email_dotless_domain_rejected() {
    let e = Email::raw("user@example".to_string()).validate().unwrap_err();
    assert_eq!(
        validation_message(&e),
        "Email domain must contain at least one dot"
    );
}

#[test]
fn email_edge_dot_domain_rejected() {
    let e = Email::raw("user@.example.com".to_string()).validate().unwrap_err();
    assert_eq!(
        validation_message(&e),
        "Email domain cannot start or end with a dot"
    );
    let e = Email::raw("user@example.com.".to_string()).validate().unwrap_err();
    assert_eq!(
        validation_message(&e),
        "Email domain cannot start or end with a dot"
    );
}

#[test]
fn email_bad_domain_charset_rejected() {
    let e = Email::raw("user@exa_mple.com".to_string()).validate().unwrap_err();
    assert_eq!(
        validation_message(&e),
        "Email domain can only contain alphanumeric characters, dots, and hyphens"
    );
}

#[test]
fn valid_urls_accepted() {
    assert!(Url::raw("http://example.com".to_string()).validate().is_ok());
    assert!(Url::raw("https://example.com/a/b".to_string()).validate().is_ok());
}

#[test]
fn url_empty_rejected() {
    let e = Url::raw(String::new()).validate().unwrap_err();
    assert_eq!(validation_message(&e), "URL cannot be empty");
}

#[test]
fn url_too_long_rejected() {
    let mut s = String::from("https://");
    for _ in 0..2048 {
        s.push('a');
    }
    let e = Url::raw(s).validate().unwrap_err();
    assert_eq!(validation_message(&e), "URL length exceeds 2048 characters");
}

#[test]
fn url_bad_scheme_rejected() {
    let e = Url::raw("ftp://example.com".to_string()).validate().unwrap_err();
    assert_eq!(
        validation_message(&e),
        "URL must start with http:// or https://"
    );
}

#[test]
fn valid_tag_names_accepted() {
    assert!(TagName::raw("rust-lang".to_string()).validate().is_ok());
    assert!(TagName::new("Coffee123".to_string()).is_ok());
}

#[test]
fn tag_name_empty_rejected() {
    let e = TagName::raw(String::new()).validate().unwrap_err();
    assert_eq!(validation_message(&e), "Tag name cannot be empty");
}

#[test]
fn tag_name_too_long_rejected() {
    let mut s = String::new();
    for _ in 0..65 {
        s.push('a');
    }
    let e = TagName::raw(s).validate().unwrap_err();
    assert_eq!(validation_message(&e), "Tag name length exceeds 64 characters");
}

#[test]
fn tag_name_bad_charset_rejected() {
    let e = TagName::raw("has space".to_string()).validate().unwrap_err();
    assert_eq!(
        validation_message(&e),
        "Tag name can only contain alphanumeric characters and hyphens"
    );
}

#[test]
fn wrapped_new_rejects_invalid() {
    assert!(Email::new("nope".to_string()).is_err());
    assert!(Url::new("nope".to_string()).is_err());
    assert!(TagName::new("no way".to_string()).is_err());
}
