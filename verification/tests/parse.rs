use email_parser::Email;

#[test]
fn valid() {
    // from https://en.wikipedia.org/wiki/Email_address
    let valid: [&str; 17] = [
        "simple@example.com",
        "very.common@example.com",
        "disposable.style.email.with+symbol@example.com",
        "other.email-with-hyphen@example.com",
        "fully-qualified-domain@example.com",
        "user.name+tag+sorting@example.com",
        "x@example.com",
        "example-indeed@strange-example.com",
        "admin@mailserver1",
        "example@s.example",
        r#"" "@example.org"#,
        r#""john..doe"@example.org"#,
        "jsmith@[IPv6:2001:db8::1]",
        "examples:test1@example.com,test2@example.com;",
        "test<test@example.com>",
        r#""Test Example"<@domain,@domain2:test@example.com>"#,
        r#"examples:"Test Example"<test@example.com>,peter<peter@example.com>;"#,
    ];

    for v in valid.iter() {
        match Email::parse(*v) {
            Ok(_x) => (),
            Err(e) => {
                println!("rejected {:?} at offset {}", *v, e.offset);
                panic!()
            }
        }
    }
}

#[test]
fn invalid() {
    let bad: [&str; 6] = [
        "Abc.example.com",
        "A@b@c@example.com",
        r#"a"b(c)d,e:f;g<h>i[j\k]l@example.com"#,
        r#"just"not"right@example.com"#,
        r#"this is"not\allowed@example.com"#,
        r#"this\ still\"not\\allowed@example.com"#,
    ];

    for v in bad.iter() {
        match Email::parse(*v) {
            Ok(x) => {
                println!("accepted {:?}", x.render());
                panic!()
            }
            Err(_e) => (),
        }
    }
}

#[test]
fn parse_correct() {
    let email = Email::parse("jsmith@[IPv6:2001:db8::1]").unwrap();

    let expect = Email {
        address: String::from("jsmith@[IPv6:2001:db8::1]"),
        mailbox: Some(String::from("jsmith@[IPv6:2001:db8::1]")),
        localpart: Some(String::from("jsmith")),
        domain: Some(String::from("[IPv6:2001:db8::1]")),
        ..Default::default()
    };

    assert_eq!(email, expect);
}

#[test]
fn parse_correct_2() {
    let email = Email::parse("examples:test1@example.com,test2@example.com;").unwrap();

    let expect = Email {
        address: String::from("examples:test1@example.com,test2@example.com;"),
        group: Some(String::from(
            "examples:test1@example.com,test2@example.com;",
        )),
        mailboxes: Some(vec![
            String::from("test1@example.com"),
            String::from("test2@example.com"),
        ]),
        mailbox: Some(String::from("test2@example.com")),
        displayname: Some(String::from("examples")),
        localpart: Some(String::from("test2")),
        domain: Some(String::from("example.com")),
        ..Default::default()
    };

    assert_eq!(email, expect);
}

#[test]
fn parse_correct_3() {
    let email = Email::parse(r#""Test Example"<@domain,@domain2:test@example.com>"#).unwrap();
    let expect = Email {
        address: String::from(r#""Test Example"<@domain,@domain2:test@example.com>"#),
        mailbox: Some(String::from(
            r#""Test Example"<@domain,@domain2:test@example.com>"#,
        )),
        route: Some(String::from("@domain,@domain2:")),
        routeaddr: Some(String::from("<@domain,@domain2:test@example.com>")),
        localpart: Some(String::from("test")),
        domain: Some(String::from("example.com")),
        ..Default::default()
    };

    assert_eq!(email, expect);
}

#[test]
fn parse_correct_4() {
    let email =
        Email::parse(r#"examples:"Test Example"<test@example.com>,test2<test2@example.com>;"#)
            .unwrap();
    let expect = Email {
        address: String::from(
            r#"examples:"Test Example"<test@example.com>,test2<test2@example.com>;"#,
        ),
        group: Some(String::from(
            r#"examples:"Test Example"<test@example.com>,test2<test2@example.com>;"#,
        )),
        mailboxes: Some(vec![
            String::from("\"Test Example\"<test@example.com>"),
            String::from("test2<test2@example.com>"),
        ]),
        mailbox: Some(String::from("test2<test2@example.com>")),
        routeaddr: Some(String::from("<test2@example.com>")),
        displayname: Some(String::from("examples")),
        localpart: Some(String::from("test2")),
        domain: Some(String::from("example.com")),
        ..Default::default()
    };

    assert_eq!(email, expect);
}
