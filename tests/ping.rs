use xmpp_core::element::Element;
use xmpp_core::error::Error;
use xmpp_core::ping;
use xmpp_core::tree::parse_document;

#[test]
fn ping_test_simple() {
    let elem: Element = parse_document("<ping xmlns='urn:xmpp:ping'/>").unwrap();
    ping::parse_ping(&elem).unwrap();
}

#[test]
fn test_invalid() {
    let elem: Element = parse_document("<ping xmlns='urn:xmpp:ping'><coucou/></ping>").unwrap();
    let error = ping::parse_ping(&elem).unwrap_err();
    let message = match error {
        Error::ParseError(string) => string,
        _ => panic!(),
    };
    assert_eq!(message, "Unknown child in ping element.");
}
