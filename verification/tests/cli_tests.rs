use fastexport_jsonl::cli::parse_redact_author;

#[test]
fn parse_redact_author_accepts_name_and_email() {
    let (name, email) = parse_redact_author("Anonymous <anon@example.com>").unwrap();
    assert_eq!(name.as_deref(), Some("Anonymous"));
    assert_eq!(email, "anon@example.com");
}

#[test]
fn parse_redact_author_accepts_email_only() {
    let (name, email) = parse_redact_author("<anon@example.com>").unwrap();
    assert_eq!(name, None);
    assert_eq!(email, "anon@example.com");
}

#[test]
fn parse_redact_author_rejects_missing_angle_brackets() {
    assert!(parse_redact_author("anon@example.com").is_err());
}

#[test]
fn parse_redact_author_rejects_empty_email() {
    assert!(parse_redact_author("Anonymous <>").is_err());
}
