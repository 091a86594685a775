use xmpp_core::element::Element;
use xmpp_core::error::Error;
use xmpp_core::jid::Jid;
use xmpp_core::mam::{serialise_jid_list, Prefs, Query};
use xmpp_core::tree::parse_document;

#[test]
fn mam_test_serialise() {
    let elem: Element = parse_document("<query xmlns='urn:xmpp:mam:2'/>").unwrap();
    let replace = Query { queryid: None, node: None, form: None, set: None };
    let elem2 = replace.into_element();
    assert_eq!(elem, elem2);
}

#[test]
fn test_prefs_get() {
    let elem: Element = parse_document("<prefs xmlns='urn:xmpp:mam:2' default='always'/>").unwrap();
    let prefs = Prefs::try_from(elem).unwrap();
    assert_eq!(prefs.always, vec!());
    assert_eq!(prefs.never, vec!());

    let elem: Element = parse_document(r#"
<prefs xmlns='urn:xmpp:mam:2' default='roster'>
  <always/>
  <never/>
</prefs>
"#).unwrap();
    let prefs = Prefs::try_from(elem).unwrap();
    assert_eq!(prefs.always, vec!());
    assert_eq!(prefs.never, vec!());
}

const PREFS_RESULT: &str = r#"
<prefs xmlns='urn:xmpp:mam:2' default='roster'>
  <always>
    <jid>romeo@montague.lit</jid>
  </always>
  <never>
    <jid>montague@montague.lit</jid>
  </never>
</prefs>
"#;

#[test]
fn test_prefs_result() {
    let elem: Element = parse_document(PREFS_RESULT).unwrap();
    let prefs = Prefs::try_from(elem).unwrap();
    assert_eq!(prefs.always, vec!(Jid::from_str("romeo@montague.lit").unwrap()));
    assert_eq!(prefs.never, vec!(Jid::from_str("montague@montague.lit").unwrap()));

    let copy = Prefs::try_from(parse_document(PREFS_RESULT).unwrap()).unwrap();
    let elem2 = copy.into_element();
    println!("{:?}", elem2);
    let prefs2 = Prefs::try_from(elem2).unwrap();
    assert_eq!(prefs.default_, prefs2.default_);
    assert_eq!(prefs.always, prefs2.always);
    assert_eq!(prefs.never, prefs2.never);
}

#[test]
fn empty_jid_list_is_not_serialised() {
    assert!(serialise_jid_list("always", &vec![]).is_none());
    let e = serialise_jid_list("never", &vec![Jid::bare("a", "b")]).unwrap();
    assert_eq!(e.name(), "never");
    assert_eq!(e.children.len(), 1);
}

#[test]
fn test_query() {
    let elem: Element = parse_document("<query xmlns='urn:xmpp:mam:2'/>").unwrap();
    Query::try_from(elem).unwrap();
}

#[test]
fn test_query_x() {
    let elem: Element = parse_document(r#"
<query xmlns='urn:xmpp:mam:2'>
  <x xmlns='jabber:x:data' type='submit'>
    <field var='FORM_TYPE' type='hidden'>
      <value>urn:xmpp:mam:2</value>
    </field>
    <field var='with'>
      <value>juliet@capulet.lit</value>
    </field>
  </x>
</query>
"#).unwrap();
    Query::try_from(elem).unwrap();
}

#[test]
fn test_query_x_set() {
    let elem: Element = parse_document(r#"
<query xmlns='urn:xmpp:mam:2'>
  <x xmlns='jabber:x:data' type='submit'>
    <field var='FORM_TYPE' type='hidden'>
      <value>urn:xmpp:mam:2</value>
    </field>
    <field var='start'>
      <value>2010-08-07T00:00:00Z</value>
    </field>
  </x>
  <set xmlns='http://jabber.org/protocol/rsm'>
    <max>10</max>
  </set>
</query>
"#).unwrap();
    Query::try_from(elem).unwrap();
}

#[test]
fn mam_test_invalid_child() {
    let elem: Element = parse_document("<query xmlns='urn:xmpp:mam:2'><coucou/></query>").unwrap();
    let error = Query::try_from(elem).unwrap_err();
    let message = match error {
        Error::ParseError(string) => string,
        _ => panic!(),
    };
    assert_eq!(message, "Unknown child in query element.");
}
