use monadns::api::{api_key_accepted, export_body};

#[test]
fn no_password_accepts_everyone() {
    assert!(api_key_accepted(None, None));
    assert!(api_key_accepted(None, Some("anything")));
}

#[test]
fn password_must_match_exactly() {
    assert!(api_key_accepted(Some("secret"), Some("secret")));
    assert!(!api_key_accepted(Some("secret"), Some("Secret")));
    assert!(!api_key_accepted(Some("secret"), Some("secret ")));
    assert!(!api_key_accepted(Some("secret"), None));
}

#[test]
fn export_body_joins_lines() {
    let entries: Vec<String> = vec!["a.com".to_string(), "b.org".to_string()];
    assert_eq!(export_body(&entries), "a.com\nb.org");
    assert_eq!(export_body(&vec!["only".to_string()]), "only");
    assert_eq!(export_body(&Vec::new()), "");
}
