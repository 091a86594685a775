use xmpp_core::jid::{Jid, JidParseError};

#[test]
fn can_parse_jids() {
    assert_eq!(Jid::from_str("a@b.c/d"), Ok(Jid::full("a", "b.c", "d")));
    assert_eq!(Jid::from_str("a@b.c"), Ok(Jid::bare("a", "b.c")));
    assert_eq!(Jid::from_str("b.c"), Ok(Jid::domain("b.c")));

    assert_eq!(Jid::from_str(""), Err(JidParseError::NoDomain));

    assert_eq!(Jid::from_str("a/b@c"), Ok(Jid::domain_with_resource("a", "b@c")));
}

#[test]
fn jid_text_form() {
    assert_eq!(Jid::full("a", "b.c", "d").to_string(), "a@b.c/d");
    assert_eq!(Jid::domain("b.c").to_string(), "b.c");
    assert_eq!(Jid::from_str("a@").unwrap_err(), JidParseError::NoDomain);
    assert_eq!(Jid::from_str("a@b/").unwrap(), Jid::bare("a", "b"));
}
