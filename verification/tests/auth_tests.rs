use archenemy::auth::parse_bearer;
use archenemy::secrets::Secrets;

#[test]
fn missing_header_is_rejected() {
    let err = parse_bearer(None).unwrap_err();
    assert_eq!(err.message, "Authorization header required");
}

#[test]
fn wrong_scheme_is_rejected() {
    let err = parse_bearer(Some("Basic abc")).unwrap_err();
    assert_eq!(
        err.message,
        "Invalid authentication header format. Expected Bearer token."
    );
}

#[test]
fn blank_token_is_rejected() {
    let err = parse_bearer(Some("Bearer    ")).unwrap_err();
    assert_eq!(err.message, "Invalid Bearer token");
}

#[test]
fn token_is_trimmed_and_used_as_user_id() {
    let user = parse_bearer(Some("Bearer  user-42\t")).unwrap();
    assert_eq!(user.user_id, "user-42");
    let user = parse_bearer(Some("Bearer token")).unwrap();
    assert_eq!(user.user_id, "token");
}

#[test]
fn secrets_last_pair_wins() {
    let s = Secrets::from_pairs(vec![
        ("PORT".to_string(), "3000".to_string()),
        ("HOST".to_string(), "0.0.0.0".to_string()),
        ("PORT".to_string(), "8080".to_string()),
    ]);
    assert_eq!(s.get("PORT"), Some("8080".to_string()));
    assert_eq!(s.get("HOST"), Some("0.0.0.0".to_string()));
    assert_eq!(s.get("MISSING"), None);
}
