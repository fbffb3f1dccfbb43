use email_parser::Email;

#[test]
fn no_at_sign_rejected_at_end_of_localpart() {
    let err = Email::parse("Abc.example.com").unwrap_err();
    // the dotted words all match as a local part; matching is still looking
    // for the "@" when the input ends
    assert_eq!(err.offset, 15);
}

#[test]
fn double_at_rejected_at_leftover() {
    let err = Email::parse("A@b@c@example.com").unwrap_err();
    // "A@b" matches as a complete address; the second "@" can start nothing
    assert_eq!(err.offset, 3);
}

#[test]
fn empty_input_rejected_at_start() {
    let err = Email::parse("").unwrap_err();
    assert_eq!(err.offset, 0);
}

#[test]
fn unterminated_quoted_string_rejected() {
    assert!(Email::parse(r#""unterminated@example.com"#).is_err());
}

#[test]
fn unterminated_group_rejected() {
    assert!(Email::parse("examples:test1@example.com").is_err());
}

#[test]
fn bare_specials_rejected() {
    assert!(Email::parse("a<b@example.com").is_err());
    assert!(Email::parse("a,b@example.com").is_err());
    assert!(Email::parse(";@example.com").is_err());
    assert!(Email::parse("a@").is_err());
    assert!(Email::parse("@example.com").is_err());
}

#[test]
fn error_offset_within_input() {
    let inputs = ["", "@", "x", "a b c", "((((", r#""\"#];
    for v in inputs.iter() {
        match Email::parse(*v) {
            Ok(_) => (),
            Err(e) => assert!(e.offset <= v.chars().count()),
        }
    }
}
