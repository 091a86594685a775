use xmpp_core::codec::{Packet, XMPPCodec};
use xmpp_core::element::Element;

const HEADER: &[u8] = b"<?xml version='1.0'?><stream:stream xmlns:stream='http://etherx.jabber.org/streams' version='1.0' xmlns='jabber:client'>";

fn started() -> (XMPPCodec, Vec<u8>) {
    let mut c = XMPPCodec::new();
    let mut b: Vec<u8> = Vec::with_capacity(1024);
    b.extend_from_slice(HEADER);
    let r = c.decode(&mut b);
    assert!(match r {
        Ok(Some(Packet::StreamStart(_))) => true,
        _ => false,
    });
    (c, b)
}

#[test]
fn test_stream_start() {
    let mut c = XMPPCodec::new();
    let mut b: Vec<u8> = Vec::with_capacity(1024);
    b.extend_from_slice(HEADER);
    let r = c.decode(&mut b);
    assert!(match r {
        Ok(Some(Packet::StreamStart(_))) => true,
        _ => false,
    });
}

#[test]
fn test_stream_end() {
    let (mut c, mut b) = started();
    b.extend_from_slice(b"</stream:stream>");
    let r = c.decode(&mut b);
    assert!(match r {
        Ok(Some(Packet::StreamEnd)) => true,
        _ => false,
    });
}

#[test]
fn test_truncated_stanza() {
    let (mut c, mut b) = started();
    b.extend_from_slice("<test>ß</test".as_bytes());
    let r = c.decode(&mut b);
    assert!(match r {
        Ok(None) => true,
        _ => false,
    });
    b.extend_from_slice(b">");
    let r = c.decode(&mut b);
    assert!(match r {
        Ok(Some(Packet::Stanza(ref el))) if el.name() == "test" && el.text() == "ß" => true,
        _ => false,
    });
}

#[test]
fn test_truncated_utf8() {
    let (mut c, mut b) = started();
    b.extend_from_slice(&b"<test>\xc3"[..]);
    let r = c.decode(&mut b);
    assert!(match r {
        Ok(None) => true,
        _ => false,
    });
    b.extend_from_slice(&b"\x9f</test>"[..]);
    let r = c.decode(&mut b);
    assert!(match r {
        Ok(Some(Packet::Stanza(ref el))) if el.name() == "test" && el.text() == "ß" => true,
        _ => false,
    });
}

#[test]
fn test_atrribute_prefix() {
    let (mut c, mut b) = started();
    b.extend_from_slice(b"<status xml:lang='en'>Test status</status>");
    let r = c.decode(&mut b);
    assert!(match r {
        Ok(Some(Packet::Stanza(ref el)))
            if el.name() == "status"
                && el.text() == "Test status"
                && el.attr("xml:lang").map_or(false, |a| a == "en") =>
            true,
        _ => false,
    });
}

#[test]
fn test_large_stanza() {
    let mut c = XMPPCodec::new();
    let mut text = "".to_owned();
    for _ in 0..2usize.pow(15) {
        text = text + "A";
    }
    let mut body = Element::new("body", "jabber:client");
    body.append_text(&text);
    let mut stanza = Element::new("message", "jabber:client");
    stanza.append_child(body);
    let mut out: Vec<u8> = Vec::new();
    c.encode(Packet::Stanza(stanza), &mut out);
    assert_eq!(
        out,
        format!("<message xmlns='jabber:client'><body>{}</body></message>", text).as_bytes()
    );
}

#[test]
fn test_cut_out_stanza() {
    let (mut c, mut b) = started();
    b.extend_from_slice(b"<message ");
    b.extend_from_slice(b"type='chat'><body>Foo</body></message>");
    let r = c.decode(&mut b);
    assert!(match r {
        Ok(Some(Packet::Stanza(_))) => true,
        _ => false,
    });
}

fn decode_all(c: &mut XMPPCodec, b: &mut Vec<u8>) -> Vec<Packet> {
    let mut out = Vec::new();
    loop {
        match c.decode(b) {
            Ok(Some(p)) => out.push(p),
            Ok(None) => return out,
            Err(e) => panic!("decode failed: {:?}", e),
        }
    }
}

#[test]
fn fragmentation_at_every_offset_gives_the_same_events() {
    let mut input: Vec<u8> = HEADER.to_vec();
    input.extend_from_slice("<message type='chat' to='a@b'><body>ß &amp; 日本</body></message><iq id='1'/>".as_bytes());
    input.extend_from_slice(b"</stream:stream>");
    let mut whole = XMPPCodec::new();
    let mut b = input.clone();
    let expected = decode_all(&mut whole, &mut b);
    assert_eq!(expected.len(), 4);
    for cut in 0..input.len() {
        let mut c = XMPPCodec::new();
        let mut buf: Vec<u8> = input[..cut].to_vec();
        let mut got = decode_all(&mut c, &mut buf);
        buf.extend_from_slice(&input[cut..]);
        got.extend(decode_all(&mut c, &mut buf));
        assert_eq!(got, expected, "split at {}", cut);
    }
}

#[test]
fn stream_start_comes_before_stanzas_and_end_once() {
    let mut c = XMPPCodec::new();
    let mut b: Vec<u8> = b"<stream:stream xmlns:stream='http://etherx.jabber.org/streams' xmlns='jabber:client'>".to_vec();
    let events = decode_all(&mut c, &mut b);
    assert_eq!(events.len(), 1);
    match &events[0] {
        Packet::StreamStart(attrs) => {
            assert!(attrs.contains(&("xmlns:stream".to_owned(), "http://etherx.jabber.org/streams".to_owned())));
            assert!(attrs.contains(&("xmlns".to_owned(), "jabber:client".to_owned())));
        }
        other => panic!("unexpected {:?}", other),
    }
    b.extend_from_slice(b"</stream:stream>");
    let events = decode_all(&mut c, &mut b);
    assert_eq!(events, vec![Packet::StreamEnd]);
}

#[test]
fn round_trip_of_a_stanza() {
    let mut e = Element::new("message", "jabber:client");
    e.set_attr("to", "juliet@capulet.lit");
    e.set_attr("note", "a<b & 'c' \"d\"");
    let mut body = Element::new("body", "jabber:client");
    body.append_text("x < y & z > 'w'");
    e.append_child(body);
    let mut x = Element::new("x", "urn:example");
    x.set_attr("k", "v");
    e.append_child(x);
    let mut c = XMPPCodec::new();
    let mut out: Vec<u8> = HEADER.to_vec();
    let mut copy = Element::new("message", "jabber:client");
    copy.set_attr("to", "juliet@capulet.lit");
    copy.set_attr("note", "a<b & 'c' \"d\"");
    let mut body2 = Element::new("body", "jabber:client");
    body2.append_text("x < y & z > 'w'");
    copy.append_child(body2);
    let mut x2 = Element::new("x", "urn:example");
    x2.set_attr("k", "v");
    copy.append_child(x2);
    c.encode(Packet::Stanza(e), &mut out);
    let mut d = XMPPCodec::new();
    let events = decode_all(&mut d, &mut out);
    assert_eq!(events.len(), 2);
    assert_eq!(events[1], Packet::Stanza(copy));
}

#[test]
fn encode_stream_header_text_and_end() {
    let mut c = XMPPCodec::new();
    let mut out: Vec<u8> = Vec::new();
    c.encode(
        Packet::StreamStart(vec![
            ("to".to_owned(), "example.org".to_owned()),
            ("xmlns".to_owned(), "jabber:client".to_owned()),
        ]),
        &mut out,
    );
    assert_eq!(out, b"<stream:stream to=\"example.org\" xmlns=\"jabber:client\">\n".to_vec());
    assert_eq!(c.ns, Some("jabber:client".to_owned()));
    out.clear();
    c.encode(Packet::Text("a&b".to_owned()), &mut out);
    assert_eq!(out, b"a&amp;b".to_vec());
    out.clear();
    c.encode(Packet::StreamEnd, &mut out);
    assert_eq!(out, b"</stream:stream>\n".to_vec());
}

#[test]
fn malformed_input_is_fatal() {
    let (mut c, mut b) = started();
    b.extend_from_slice(b"<a b=c>");
    assert_eq!(c.decode(&mut b), Err(xmpp_core::Error::Lexical));
    b.extend_from_slice(b"<ok/>");
    assert!(c.decode(&mut b).is_err());
}

#[test]
fn unbalanced_close_is_an_error() {
    let (mut c, mut b) = started();
    b.extend_from_slice(b"<a></b>");
    assert_eq!(c.decode(&mut b), Err(xmpp_core::Error::Unbalanced));
}

#[test]
fn reset_expects_a_new_header() {
    let (mut c, mut b) = started();
    c.reset();
    b.extend_from_slice(HEADER);
    assert!(matches!(c.decode(&mut b), Ok(Some(Packet::StreamStart(_)))));
}

#[test]
fn duplicate_attribute_is_malformed() {
    let (mut c, mut b) = started();
    b.extend_from_slice(b"<a x='1' x='2'/>");
    assert_eq!(c.decode(&mut b), Err(xmpp_core::Error::Lexical));
}

#[test]
fn character_references_in_stanzas() {
    let (mut c, mut b) = started();
    b.extend_from_slice(b"<body a='&#x3C;&amp;'>&#223;&lt;x&gt;</body>");
    match c.decode(&mut b) {
        Ok(Some(Packet::Stanza(el))) => {
            assert_eq!(el.text(), "ß<x>");
            assert_eq!(el.attr("a"), Some("<&".to_owned()));
        }
        other => panic!("unexpected {:?}", other),
    }
}

#[test]
fn two_stanzas_come_out_one_per_call_in_order() {
    let (mut c, mut b) = started();
    b.extend_from_slice(b"<a/><b/>");
    match c.decode(&mut b) {
        Ok(Some(Packet::Stanza(el))) => assert_eq!(el.name(), "a"),
        other => panic!("unexpected {:?}", other),
    }
    match c.decode(&mut b) {
        Ok(Some(Packet::Stanza(el))) => assert_eq!(el.name(), "b"),
        other => panic!("unexpected {:?}", other),
    }
    assert_eq!(c.decode(&mut b), Ok(None));
}

#[test]
fn stream_header_attributes() {
    let mut c = XMPPCodec::new();
    let mut b: Vec<u8> = HEADER.to_vec();
    match c.decode(&mut b) {
        Ok(Some(Packet::StreamStart(mut attrs))) => {
            attrs.sort();
            assert_eq!(
                attrs,
                vec![
                    ("version".to_owned(), "1.0".to_owned()),
                    ("xmlns".to_owned(), "jabber:client".to_owned()),
                    ("xmlns:stream".to_owned(), "http://etherx.jabber.org/streams".to_owned()),
                ]
            );
        }
        other => panic!("unexpected {:?}", other),
    }
    b.extend_from_slice(b"</stream:stream>");
    assert_eq!(c.decode(&mut b), Ok(Some(Packet::StreamEnd)));
    assert_eq!(c.decode(&mut b), Ok(None));
    assert_eq!(c.decode(&mut b), Ok(None));
}

#[test]
fn invalid_utf8_is_an_error() {
    let (mut c, mut b) = started();
    b.extend_from_slice(b"<a>\xff</a>");
    assert_eq!(c.decode(&mut b), Err(xmpp_core::Error::Lexical));
}
