use xmpp_core::element::Element;
use xmpp_core::error::Error;
use xmpp_core::jid::Jid;
use xmpp_core::muc_user::{Actor, Continue, Item, MucUser, Reason, Status};
use xmpp_core::tree::parse_document;

#[test]
fn user_test_simple() {
    let elem: Element = parse_document("
        <x xmlns='http://jabber.org/protocol/muc#user'/>
    ").unwrap();
    MucUser::try_from(elem).unwrap();
}

#[test]
fn user_test_invalid_child() {
    let elem: Element = parse_document("
        <x xmlns='http://jabber.org/protocol/muc#user'>
            <coucou/>
        </x>
    ").unwrap();
    let error = MucUser::try_from(elem).unwrap_err();
    let message = match error {
        Error::ParseError(string) => string,
        _ => panic!(),
    };
    assert_eq!(message, "Unknown child in x element.");
}

#[test]
fn user_test_serialise() {
    let elem: Element = parse_document("
        <x xmlns='http://jabber.org/protocol/muc#user'/>
    ").unwrap();
    let muc = MucUser { status: vec!(), items: vec!() };
    let elem2 = muc.into_element();
    assert_eq!(elem, elem2);
}

#[test]
fn user_test_invalid_attribute() {
    let elem: Element = parse_document("
        <x xmlns='http://jabber.org/protocol/muc#user' coucou=''/>
    ").unwrap();
    let error = MucUser::try_from(elem).unwrap_err();
    let message = match error {
        Error::ParseError(string) => string,
        _ => panic!(),
    };
    assert_eq!(message, "Unknown attribute in x element.");
}

#[test]
fn test_status_simple() {
    let elem: Element = parse_document("
        <status xmlns='http://jabber.org/protocol/muc#user' code='110'/>
    ").unwrap();
    Status::try_from(elem).unwrap();
}

#[test]
fn test_status_invalid() {
    let elem: Element = parse_document("
        <status xmlns='http://jabber.org/protocol/muc#user'/>
    ").unwrap();
    let error = Status::try_from(elem).unwrap_err();
    let message = match error {
        Error::ParseError(string) => string,
        _ => panic!(),
    };
    assert_eq!(message, "Required attribute 'code' missing.");
}

#[test]
fn test_status_invalid_child() {
    let elem: Element = parse_document("
        <status xmlns='http://jabber.org/protocol/muc#user' code='110'>
            <foo/>
        </status>
    ").unwrap();
    let error = Status::try_from(elem).unwrap_err();
    let message = match error {
        Error::ParseError(string) => string,
        _ => panic!(),
    };
    assert_eq!(message, "Unknown child in status element.");
}

#[test]
fn test_status_simple_code() {
    let elem: Element = parse_document("
        <status xmlns='http://jabber.org/protocol/muc#user' code='307'/>
    ").unwrap();
    let status = Status::try_from(elem).unwrap();
    assert_eq!(status, Status::Kicked);
}

#[test]
fn test_status_invalid_code() {
    let elem: Element = parse_document("
        <status xmlns='http://jabber.org/protocol/muc#user' code='666'/>
    ").unwrap();
    let error = Status::try_from(elem).unwrap_err();
    let message = match error {
        Error::ParseError(string) => string,
        _ => panic!(),
    };
    assert_eq!(message, "Invalid status code.");
}

#[test]
fn test_status_invalid_code2() {
    let elem: Element = parse_document("
        <status xmlns='http://jabber.org/protocol/muc#user' code='coucou'/>
    ").unwrap();
    let error = Status::try_from(elem).unwrap_err();
    let error = match error {
        Error::ParseIntError(error) => error,
        _ => panic!(),
    };
    assert_eq!(error, "invalid digit found in string");
}

#[test]
fn test_actor_required_attributes() {
    let elem: Element = parse_document("
        <actor xmlns='http://jabber.org/protocol/muc#user'/>
    ").unwrap();
    let error = Actor::try_from(elem).unwrap_err();
    let message = match error {
        Error::ParseError(string) => string,
        _ => panic!(),
    };
    assert_eq!(message, "Either 'jid' or 'nick' attribute is required.");
}

#[test]
fn test_actor_required_attributes2() {
    let elem: Element = parse_document("
        <actor xmlns='http://jabber.org/protocol/muc#user'
               jid='foo@bar/baz'
               nick='baz'/>
    ").unwrap();
    let error = Actor::try_from(elem).unwrap_err();
    let message = match error {
        Error::ParseError(string) => string,
        _ => panic!(),
    };
    assert_eq!(message, "Either 'jid' or 'nick' attribute is required.");
}

#[test]
fn test_actor_jid() {
    let elem: Element = parse_document("
        <actor xmlns='http://jabber.org/protocol/muc#user'
               jid='foo@bar/baz'/>
    ").unwrap();
    let actor = Actor::try_from(elem).unwrap();
    let jid = match actor {
        Actor::Jid(jid) => jid,
        _ => panic!(),
    };
    assert_eq!(jid, Jid::from_str("foo@bar/baz").unwrap());
}

#[test]
fn test_actor_nick() {
    let elem: Element = parse_document("
        <actor xmlns='http://jabber.org/protocol/muc#user' nick='baz'/>
    ").unwrap();
    let actor = Actor::try_from(elem).unwrap();
    let nick = match actor {
        Actor::Nick(nick) => nick,
        _ => panic!(),
    };
    assert_eq!(nick, "baz".to_owned());
}

#[test]
fn test_continue_simple() {
    let elem: Element = parse_document("
        <continue xmlns='http://jabber.org/protocol/muc#user'/>
    ").unwrap();
    Continue::try_from(elem).unwrap();
}

#[test]
fn test_continue_thread_attribute() {
    let elem: Element = parse_document("
        <continue xmlns='http://jabber.org/protocol/muc#user'
                  thread='foo'/>
    ").unwrap();
    let continue_ = Continue::try_from(elem).unwrap();
    assert_eq!(continue_, Continue { thread: Some("foo".to_owned()) });
}

#[test]
fn test_continue_invalid() {
    let elem: Element = parse_document("
        <continue xmlns='http://jabber.org/protocol/muc#user'>
            <foobar/>
        </continue>
    ").unwrap();
    let continue_ = Continue::try_from(elem).unwrap_err();
    let message = match continue_ {
        Error::ParseError(string) => string,
        _ => panic!(),
    };
    assert_eq!(message, "Unknown child in continue element.".to_owned());
}

#[test]
fn test_reason_simple() {
    let elem: Element = parse_document("
        <reason xmlns='http://jabber.org/protocol/muc#user'>Reason</reason>").unwrap();
    let reason = Reason::try_from(elem).unwrap();
    assert_eq!(reason.0, "Reason".to_owned());
}

#[test]
fn test_reason_invalid_attribute() {
    let elem: Element = parse_document("
        <reason xmlns='http://jabber.org/protocol/muc#user' foo='bar'/>
    ").unwrap();
    let error = Reason::try_from(elem).unwrap_err();
    let message = match error {
        Error::ParseError(string) => string,
        _ => panic!(),
    };
    assert_eq!(message, "Unknown attribute in reason element.".to_owned());
}

#[test]
fn test_reason_invalid() {
    let elem: Element = parse_document("
        <reason xmlns='http://jabber.org/protocol/muc#user'>
            <foobar/>
        </reason>
    ").unwrap();
    let error = Reason::try_from(elem).unwrap_err();
    let message = match error {
        Error::ParseError(string) => string,
        _ => panic!(),
    };
    assert_eq!(message, "Unknown child in reason element.".to_owned());
}

#[test]
fn test_item_invalid_attr(){
    let elem: Element = parse_document("
        <item xmlns='http://jabber.org/protocol/muc#user'
              foo='bar'/>
    ").unwrap();
    let error = Item::try_from(elem).unwrap_err();
    let message = match error {
        Error::ParseError(string) => string,
        _ => panic!(),
    };
    assert_eq!(message, "Unknown attribute in item element.".to_owned());
}

#[test]
fn test_item_affiliation_role_attr(){
    let elem: Element = parse_document("
        <item xmlns='http://jabber.org/protocol/muc#user'
              affiliation='member'
              role='moderator'/>
    ").unwrap();
    Item::try_from(elem).unwrap();
}

#[test]
fn test_item_affiliation_role_invalid_attr(){
    let elem: Element = parse_document("
        <item xmlns='http://jabber.org/protocol/muc#user'
              affiliation='member'/>
    ").unwrap();
    let error = Item::try_from(elem).unwrap_err();
    let message = match error {
        Error::ParseError(string) => string,
        _ => panic!(),
    };
    assert_eq!(message, "Required attribute 'role' missing.".to_owned());
}

#[test]
fn test_item_nick_attr(){
    let elem: Element = parse_document("
        <item xmlns='http://jabber.org/protocol/muc#user'
              affiliation='member'
              role='moderator'
              nick='foobar'/>
    ").unwrap();
    let item = Item::try_from(elem).unwrap();
    match item {
        Item { nick, .. } => assert_eq!(nick, Some("foobar".to_owned())),
    }
}

#[test]
fn test_item_affiliation_role_invalid_attr2(){
    let elem: Element = parse_document("
        <item xmlns='http://jabber.org/protocol/muc#user'
              role='moderator'/>
    ").unwrap();
    let error = Item::try_from(elem).unwrap_err();
    let message = match error {
        Error::ParseError(string) => string,
        _ => panic!(),
    };
    assert_eq!(message, "Required attribute 'affiliation' missing.".to_owned());
}

#[test]
fn test_item_role_actor_child(){
    let elem: Element = parse_document("
        <item xmlns='http://jabber.org/protocol/muc#user'
              affiliation='member'
              role='moderator'>
            <actor nick='foobar'/>
        </item>
    ").unwrap();
    let item = Item::try_from(elem).unwrap();
    match item {
        Item { actor, .. } =>
            assert_eq!(actor, Some(Actor::Nick("foobar".to_owned()))),
    }
}

#[test]
fn test_item_role_continue_child(){
    let elem: Element = parse_document("
        <item xmlns='http://jabber.org/protocol/muc#user'
              affiliation='member'
              role='moderator'>
            <continue thread='foobar'/>
        </item>
    ").unwrap();
    let item = Item::try_from(elem).unwrap();
    let continue_1 = Continue { thread: Some("foobar".to_owned()) };
    match item {
        Item { continue_: Some(continue_2), .. } => assert_eq!(continue_2, continue_1),
        _ => panic!(),
    }
}

#[test]
fn test_item_role_reason_child(){
    let elem: Element = parse_document("
        <item xmlns='http://jabber.org/protocol/muc#user'
              affiliation='member'
              role='moderator'>
            <reason>foobar</reason>
        </item>
    ").unwrap();
    let item = Item::try_from(elem).unwrap();
    match item {
        Item { reason, .. } =>
            assert_eq!(reason, Some(Reason("foobar".to_owned()))),
    }
}
