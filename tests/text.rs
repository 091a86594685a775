use xmpp_core::text::{escape, unescape, write_text};

#[test]
fn escape_all_five() {
    assert_eq!(escape("<a href='x'>&\"</a>"), "&lt;a href=&apos;x&apos;&gt;&amp;&quot;&lt;/a&gt;");
    assert_eq!(escape(""), "");
    assert_eq!(escape("ß日本"), "ß日本");
}

#[test]
fn write_text_appends_escaped() {
    let mut s = "x".to_owned();
    write_text("a<b", &mut s);
    assert_eq!(s, "xa&lt;b");
}

#[test]
fn unescape_inverts_escape() {
    let t = "it's <1> & \"2\"";
    assert_eq!(unescape(&escape(t)), Some(t.to_owned()));
    assert_eq!(unescape("&bogus;"), None);
    assert_eq!(unescape("a &amp b"), None);
}

#[test]
fn character_references() {
    assert_eq!(unescape("&#223;&#x65E5;&#X41;"), None);
    assert_eq!(unescape("&#223;&#x65E5;"), Some("ß日".to_owned()));
    assert_eq!(unescape("a&#x41;b&#10;"), Some("aAb\n".to_owned()));
    assert_eq!(unescape("&#0;"), None);
    assert_eq!(unescape("&#xD800;"), None);
    assert_eq!(unescape("&#x110000;"), None);
    assert_eq!(unescape("&#99999999999999;"), None);
    assert_eq!(unescape("&#;"), None);
    assert_eq!(unescape("&#12"), None);
}
