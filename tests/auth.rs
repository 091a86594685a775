use xmpp_core::auth::{
    nonza, select_mechanism, AuthAction, AuthError, AuthEvent, AuthState, ClientAuth,
    NS_XMPP_SASL,
};
use xmpp_core::codec::Packet;
use xmpp_core::element::{Element, Node};

fn local() -> Vec<String> {
    vec![
        "SCRAM-SHA-256".to_owned(),
        "SCRAM-SHA-1".to_owned(),
        "PLAIN".to_owned(),
        "ANONYMOUS".to_owned(),
    ]
}

fn features(offered: &[&str]) -> Element {
    let mut mechs = Element::new("mechanisms", NS_XMPP_SASL);
    for m in offered {
        let mut e = Element::new("mechanism", NS_XMPP_SASL);
        e.append_text(m);
        mechs.append_child(e);
    }
    let mut f = Element::new("features", "http://etherx.jabber.org/streams");
    f.append_child(mechs);
    f
}

fn server(name: &str, text: &str) -> AuthEvent {
    let mut e = Element::new(name, NS_XMPP_SASL);
    if !text.is_empty() {
        e.append_text(text);
    }
    AuthEvent::Received(Packet::Stanza(e))
}

fn payload_of(e: &Element) -> String {
    e.text()
}

#[test]
fn selection_ignores_server_order() {
    let a = ClientAuth::new(&features(&["PLAIN", "SCRAM-SHA-1"]), &local()).unwrap();
    let b = ClientAuth::new(&features(&["SCRAM-SHA-1", "PLAIN"]), &local()).unwrap();
    assert_eq!(a.mechanism, "SCRAM-SHA-1");
    assert_eq!(b.mechanism, "SCRAM-SHA-1");
    assert_eq!(select_mechanism(&local(), &vec!["ANONYMOUS".to_owned()]), Some(3));
}

#[test]
fn no_common_mechanism() {
    let r = ClientAuth::new(&features(&["EXTERNAL", "X-OAUTH2"]), &local());
    assert_eq!(r.err(), Some(AuthError::NoCommonMechanism));
    let r = ClientAuth::new(&Element::new("features", "http://etherx.jabber.org/streams"), &local());
    assert_eq!(r.err(), Some(AuthError::NoMechanisms));
}

#[test]
fn two_round_exchange_then_success_and_restart() {
    let mut a = ClientAuth::new(&features(&["PLAIN", "SCRAM-SHA-256"]), &local()).unwrap();
    assert_eq!(a.state, AuthState::AwaitMechanism { initial: true });
    let mut sent: Vec<Element> = Vec::new();
    match a.step(AuthEvent::MechanismData(b"n,,n=user,r=abc".to_vec())) {
        AuthAction::Send(e) => {
            assert_eq!(e.name(), "auth");
            assert_eq!(e.attr("mechanism"), Some("SCRAM-SHA-256".to_owned()));
            assert_eq!(payload_of(&e), "biwsbj11c2VyLHI9YWJj");
            sent.push(e);
        }
        other => panic!("{:?}", other),
    }
    let mut responses = 0;
    for (challenge, answer) in [("cj1hYmNkZWY=", "one"), ("dj1zaWc=", "two")] {
        assert_eq!(a.step(AuthEvent::Idle), AuthAction::Wait);
        assert_eq!(a.step(AuthEvent::SendDone), AuthAction::Wait);
        assert_eq!(a.state, AuthState::WaitRecv);
        assert_eq!(a.step(AuthEvent::Received(Packet::Text(" ".to_owned()))), AuthAction::Wait);
        match a.step(server("challenge", challenge)) {
            AuthAction::Answer(c) => assert!(!c.is_empty()),
            other => panic!("{:?}", other),
        }
        match a.step(AuthEvent::MechanismData(answer.as_bytes().to_vec())) {
            AuthAction::Send(e) => {
                assert_eq!(e.name(), "response");
                assert!(e.attrs.is_empty());
                responses += 1;
                sent.push(e);
            }
            other => panic!("{:?}", other),
        }
    }
    assert_eq!(a.step(AuthEvent::SendDone), AuthAction::Wait);
    assert_eq!(a.step(server("success", "")), AuthAction::Restart);
    assert_eq!(a.state, AuthState::Restarting);
    assert_eq!(a.step(AuthEvent::RestartDone), AuthAction::Succeeded);
    assert_eq!(responses, 2);
    assert_eq!(sent.len(), 3);
}

#[test]
fn challenge_payload_is_decoded() {
    let mut a = ClientAuth::new(&features(&["PLAIN"]), &local()).unwrap();
    a.step(AuthEvent::MechanismData(vec![]));
    a.step(AuthEvent::SendDone);
    assert_eq!(a.step(server("challenge", "aGVsbG8=")), AuthAction::Answer(b"hello".to_vec()));
}

#[test]
fn failure_reason_is_first_child_name() {
    let mut a = ClientAuth::new(&features(&["PLAIN"]), &local()).unwrap();
    a.step(AuthEvent::MechanismData(b"\0user\0pass".to_vec()));
    a.step(AuthEvent::SendDone);
    let mut failure = Element::new("failure", NS_XMPP_SASL);
    failure.append_child(Element::new("not-authorized", NS_XMPP_SASL));
    let r = a.step(AuthEvent::Received(Packet::Stanza(failure)));
    assert_eq!(r, AuthAction::Fail(AuthError::Server("not-authorized".to_owned())));
    assert_eq!(a.state, AuthState::Failed);
}

#[test]
fn failure_without_child_has_default_reason() {
    let mut a = ClientAuth::new(&features(&["PLAIN"]), &local()).unwrap();
    a.step(AuthEvent::MechanismData(vec![1]));
    a.step(AuthEvent::SendDone);
    let r = a.step(server("failure", ""));
    assert_eq!(r, AuthAction::Fail(AuthError::Server("Authentication failure".to_owned())));
}

#[test]
fn malformed_challenge_and_transport_errors() {
    let mut a = ClientAuth::new(&features(&["PLAIN"]), &local()).unwrap();
    a.step(AuthEvent::MechanismData(vec![1]));
    a.step(AuthEvent::SendDone);
    assert_eq!(a.step(server("challenge", "@@@")), AuthAction::Fail(AuthError::MalformedChallenge));
    let mut b = ClientAuth::new(&features(&["PLAIN"]), &local()).unwrap();
    b.step(AuthEvent::MechanismData(vec![1]));
    assert_eq!(b.step(AuthEvent::Received(Packet::StreamEnd)), AuthAction::Wait);
    assert_eq!(b.step(AuthEvent::SendFailed), AuthAction::Fail(AuthError::Transport));
}

#[test]
fn nonza_carries_base64_payload() {
    let e = nonza("auth", Some("PLAIN"), b"\0u\0p");
    assert_eq!(e.attr("mechanism"), Some("PLAIN".to_owned()));
    assert_eq!(e.children, vec![Node::Text("AHUAcA==".to_owned())]);
}

#[test]
fn mechanism_refusal_ends_negotiation() {
    let mut a = ClientAuth::new(&features(&["PLAIN"]), &local()).unwrap();
    assert_eq!(a.mechanism, "PLAIN");
    assert_eq!(a.step(AuthEvent::MechanismFailed), AuthAction::Fail(AuthError::MechanismRejected));
    assert_eq!(a.state, AuthState::Failed);
    assert_eq!(a.step(AuthEvent::SendDone), AuthAction::Wait);
}
