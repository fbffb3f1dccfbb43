use email_parser::Email;

#[test]
fn round_trip_address_verbatim() {
    let inputs = [
        "simple@example.com",
        "examples:test1@example.com,test2@example.com;",
        r#""Test Example"<@domain,@domain2:test@example.com>"#,
        "test<test@example.com>",
    ];
    for v in inputs.iter() {
        let email = Email::parse(*v).unwrap();
        assert_eq!(email.address, String::from(*v));
        assert_eq!(email.render(), String::from(*v));
    }
}

#[test]
fn plain_mailbox_fields() {
    let email = Email::parse("simple@example.com").unwrap();
    assert_eq!(email.localpart, Some(String::from("simple")));
    assert_eq!(email.domain, Some(String::from("example.com")));
    assert_eq!(email.mailbox, Some(String::from("simple@example.com")));
    assert_eq!(email.group, None);
    assert_eq!(email.mailboxes, None);
    assert_eq!(email.displayname, None);
    assert_eq!(email.routeaddr, None);
    assert_eq!(email.route, None);
    assert_eq!(email.comment, None);
}

#[test]
fn quoted_localpart_fields() {
    let email = Email::parse(r#""john..doe"@example.org"#).unwrap();
    assert_eq!(email.localpart, Some(String::from(r#""john..doe""#)));
    assert_eq!(email.domain, Some(String::from("example.org")));
    assert_eq!(email.group, None);
    assert_eq!(email.mailboxes, None);
}

#[test]
fn displayname_routed_mailbox() {
    let email = Email::parse("test<test@example.com>").unwrap();
    assert_eq!(email.mailbox, Some(String::from("test<test@example.com>")));
    assert_eq!(email.routeaddr, Some(String::from("<test@example.com>")));
    assert_eq!(email.localpart, Some(String::from("test")));
    assert_eq!(email.domain, Some(String::from("example.com")));
    // the display phrase of a plain routed mailbox is not reported
    assert_eq!(email.displayname, None);
    assert_eq!(email.group, None);
    assert_eq!(email.mailboxes, None);
}

#[test]
fn comment_is_tracked() {
    let email = Email::parse("jsmith (work) <jsmith@example.com>").unwrap();
    assert_eq!(email.comment, Some(String::from("(work)")));
    assert_eq!(email.routeaddr, Some(String::from("<jsmith@example.com>")));
    assert_eq!(email.localpart, Some(String::from("jsmith")));
    assert_eq!(email.domain, Some(String::from("example.com")));
    assert_eq!(email.address, String::from("jsmith (work) <jsmith@example.com>"));
}

#[test]
fn nested_comment_last_in_preorder_wins() {
    let email = Email::parse("jsmith (outer(inner)) <jsmith@example.com>").unwrap();
    // pre-order visits the outer comment, then the nested one: the nested
    // comment is the last visited and is the one reported
    assert_eq!(email.comment, Some(String::from("(inner)")));
}

#[test]
fn empty_group() {
    let email = Email::parse("examples:;").unwrap();
    assert_eq!(email.group, Some(String::from("examples:;")));
    assert_eq!(email.displayname, Some(String::from("examples")));
    assert_eq!(email.mailboxes, None);
    assert_eq!(email.mailbox, None);
    assert_eq!(email.localpart, None);
    assert_eq!(email.domain, None);
}

#[test]
fn group_last_member_wins() {
    let email = Email::parse("team:a@one.example,b@two.example,c@three.example;").unwrap();
    assert_eq!(
        email.mailboxes,
        Some(vec![
            String::from("a@one.example"),
            String::from("b@two.example"),
            String::from("c@three.example"),
        ])
    );
    assert_eq!(email.mailbox, Some(String::from("c@three.example")));
    assert_eq!(email.localpart, Some(String::from("c")));
    assert_eq!(email.domain, Some(String::from("three.example")));
    assert_eq!(email.displayname, Some(String::from("team")));
}

#[test]
fn folded_whitespace_around_address() {
    let email = Email::parse(" simple@example.com ").unwrap();
    // the address is preserved verbatim; the extracted components are not
    assert_eq!(email.address, String::from(" simple@example.com "));
    assert_eq!(email.mailbox, Some(String::from("simple@example.com")));
    assert_eq!(email.localpart, Some(String::from("simple")));
    assert_eq!(email.domain, Some(String::from("example.com")));
}

#[test]
fn folded_whitespace_between_members() {
    let email = Email::parse("team: a@b.c , d@e.f ;").unwrap();
    assert_eq!(email.group, Some(String::from("team: a@b.c , d@e.f ;")));
    assert_eq!(email.displayname, Some(String::from("team")));
    assert_eq!(
        email.mailboxes,
        Some(vec![String::from("a@b.c"), String::from("d@e.f")])
    );
    assert_eq!(email.mailbox, Some(String::from("d@e.f")));
    assert_eq!(email.localpart, Some(String::from("d")));
    assert_eq!(email.domain, Some(String::from("e.f")));
}

#[test]
fn new_preserves_address_only() {
    let email = Email::new(String::from("anything at all"));
    assert_eq!(email.address, String::from("anything at all"));
    assert_eq!(email.group, None);
    assert_eq!(email.mailbox, None);
    assert_eq!(email.mailboxes, None);
    assert_eq!(email.displayname, None);
    assert_eq!(email.routeaddr, None);
    assert_eq!(email.route, None);
    assert_eq!(email.localpart, None);
    assert_eq!(email.domain, None);
    assert_eq!(email.comment, None);
}

#[test]
fn default_is_empty() {
    let email = Email::default();
    assert_eq!(email.address, String::new());
    assert_eq!(email.localpart, None);
    assert_eq!(email.domain, None);
}
