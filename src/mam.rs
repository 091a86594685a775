//! Message archive management payloads.

use vstd::prelude::*;
use crate::element::{Element, Node, opt_view, text_of};
use crate::error::Error;
use crate::jid::{Jid, jid_parts};

verus! {

/// The namespace of message archive management.
pub const MAM_NS: &'static str = "urn:xmpp:mam:2";

/// Whether `e` is the archive element `name`.
pub open spec fn is_mam(e: Element, name: Seq<char>) -> bool {
    e.name@ == name && opt_view(e.ns) == Some(MAM_NS@)
}

/// A query of the archive.
#[derive(Debug, PartialEq, Eq)]
pub struct Query {
    pub queryid: Option<String>,
    pub node: Option<String>,
    /// The data form that filters the query, kept as an element.
    pub form: Option<Element>,
    /// The result set management element, kept as an element.
    pub set: Option<Element>,
}

/// The namespace of data forms.
pub const DATA_FORMS_NS: &'static str = "jabber:x:data";

/// The namespace of result set management.
pub const RSM_NS: &'static str = "http://jabber.org/protocol/rsm";

/// Whether a child of a `<query/>` element reads: text, a data form or a
/// result set element.
pub open spec fn query_child_ok(x: Node) -> bool {
    match x {
        Node::Text(_) => true,
        Node::Element(c) => (c.name@ == "x"@ && opt_view(c.ns) == Some(DATA_FORMS_NS@)) || (c.name@
            == "set"@ && opt_view(c.ns) == Some(RSM_NS@)),
    }
}

/// Whether `e` is a `<query/>` element that reads as a query.
pub open spec fn query_ok(e: Element) -> bool {
    &&& is_mam(e, "query"@)
    &&& e.attrs_within(seq!["queryid"@, "node"@])
    &&& forall|i: int| 0 <= i < e.children@.len() ==> query_child_ok(#[trigger] e.children@[i])
}

impl Query {
    /// Reads a `<query/>` element: optional `queryid` and `node` attributes,
    /// an optional data form and an optional result set element.
    pub fn try_from(elem: Element) -> (r: Result<Query, Error>)
        ensures
            !is_mam(elem, "query"@) ==> r == Err::<Query, Error>(
                Error::ParseError("This is not a query element."),
            ),
            is_mam(elem, "query"@) && !elem.attrs_within(seq!["queryid"@, "node"@]) ==> r == Err::<
                Query,
                Error,
            >(Error::ParseError("Unknown attribute in query element.")),
            r matches Ok(q) ==> {
                &&& is_mam(elem, "query"@)
                &&& opt_view(q.queryid) == elem.attr_spec("queryid"@)
                &&& opt_view(q.node) == elem.attr_spec("node"@)
                &&& q.form matches Some(f) ==> f.name@ == "x"@ && opt_view(f.ns) == Some(
                    DATA_FORMS_NS@,
                )
                &&& q.set matches Some(x) ==> x.name@ == "set"@ && opt_view(x.ns) == Some(RSM_NS@)
            },
            r is Ok <==> query_ok(elem),
    {
        if !elem.is("query", MAM_NS) {
            return Err(Error::ParseError("This is not a query element."));
        }
        let allowed: Vec<&str> = vec!["queryid", "node"];
        assert(allowed@.map_values(|a: &str| a@) =~= seq!["queryid"@, "node"@]);
        if !elem.only_attrs(&allowed) {
            return Err(Error::ParseError("Unknown attribute in query element."));
        }
        let queryid = elem.attr("queryid");
        let node = elem.attr("node");
        let mut form: Option<Element> = None;
        let mut set: Option<Element> = None;
        let ghost e0 = elem;
        let ghost mut idx: int = 0;
        let mut children = elem.children;
        assert(children@ =~= e0.children@.skip(0));
        while children.len() > 0
            invariant
                e0 == elem,
                0 <= idx <= e0.children@.len(),
                children@ == e0.children@.skip(idx),
                forall|k: int| 0 <= k < idx ==> query_child_ok(#[trigger] e0.children@[k]),
                is_mam(e0, "query"@),
                e0.attrs_within(seq!["queryid"@, "node"@]),
                form matches Some(f) ==> f.name@ == "x"@ && opt_view(f.ns) == Some(DATA_FORMS_NS@),
                set matches Some(x) ==> x.name@ == "set"@ && opt_view(x.ns) == Some(RSM_NS@),
            decreases children.len(),
        {
            let ghost before = children@;
            assert(before[0] == e0.children@[idx]);
            match children.remove(0) {
                Node::Element(c) => {
                    if c.is("x", DATA_FORMS_NS) {
                        form = Some(c);
                    } else if c.is("set", RSM_NS) {
                        set = Some(c);
                    } else {
                        assert(!query_child_ok(e0.children@[idx]));
                        return Err(Error::ParseError("Unknown child in query element."));
                    }
                },
                Node::Text(_) => {},
            }
            proof {
                assert(children@ =~= e0.children@.skip(idx + 1));
                idx = idx + 1;
            }
        }
        Ok(Query { queryid, node, form, set })
    }

    /// The `<query/>` element.
    pub fn into_element(self) -> (r: Element)
        ensures
            is_mam(r, "query"@),
            r.attr_spec("queryid"@) == opt_view(self.queryid),
            r.attr_spec("node"@) == opt_view(self.node),
            r.children@.len() == (if self.form is Some { 1int } else { 0 }) + (if self.set is Some {
                1int
            } else {
                0
            }),
    {
        proof {
            reveal_strlit("queryid");
            reveal_strlit("node");
            assert("queryid"@.len() != "node"@.len());
        }
        let mut e = Element::new("query", MAM_NS);
        if let Some(q) = &self.queryid {
            e.set_attr("queryid", q.as_str());
            assert(crate::element::attr_value(e.attrs@, "queryid"@, 0) is None);
            assert(e.attrs@[0] == e.attrs@.last());
        }
        let ghost before = e.attrs@;
        if let Some(n) = &self.node {
            e.set_attr("node", n.as_str());
            proof {
                lemma_attr_appended(before, e.attrs@, "node"@, "queryid"@);
            }
        } else {
            assert(e.attr_spec("node"@) is None) by {
                if self.queryid is Some {
                    assert(crate::element::attr_value(e.attrs@, "node"@, 0) is None);
                }
            }
        }
        if let Some(f) = self.form {
            e.append_child(f);
        }
        if let Some(s) = self.set {
            e.append_child(s);
        }
        e
    }
}

proof fn lemma_attr_appended(
    before: Seq<(String, String)>,
    after: Seq<(String, String)>,
    name: Seq<char>,
    other: Seq<char>,
)
    requires
        before.len() <= 1,
        before.len() == 1 ==> before[0].0@ == other,
        name != other,
        after.len() == before.len() + 1,
        after.drop_last() == before,
        after.last().0@ == name,
    ensures
        crate::element::attr_value(after, name, after.len() as int) == Some(after.last().1@),
        crate::element::attr_value(after, other, after.len() as int) == crate::element::attr_value(
            before,
            other,
            before.len() as int,
        ),
{
    assert(crate::element::attr_value(after, name, 0) is None);
    assert(crate::element::attr_value(before, other, 0) is None);
    assert(crate::element::attr_value(after, other, 0) is None);
    if before.len() == 1 {
        assert(after[0] == before[0]);
        assert(crate::element::attr_value(after, name, 1) is None);
    }
}

/// Which messages the archive keeps by default.
#[derive(Debug, Clone, Copy, PartialEq, Eq)]
pub enum DefaultPrefs {
    Always,
    Never,
    Roster,
}

pub open spec fn default_prefs_text(d: DefaultPrefs) -> Seq<char> {
    match d {
        DefaultPrefs::Always => "always"@,
        DefaultPrefs::Never => "never"@,
        DefaultPrefs::Roster => "roster"@,
    }
}

impl DefaultPrefs {
    /// Reads the `default` attribute value.
    pub fn from_str(s: &str) -> (r: Result<DefaultPrefs, Error>)
        ensures
            r matches Ok(d) ==> default_prefs_text(d) == s@,
            r is Err ==> forall|d: DefaultPrefs| default_prefs_text(d) != s@,
    {
        if crate::text::text_eq(s, "always") {
            Ok(DefaultPrefs::Always)
        } else if crate::text::text_eq(s, "never") {
            Ok(DefaultPrefs::Never)
        } else if crate::text::text_eq(s, "roster") {
            Ok(DefaultPrefs::Roster)
        } else {
            Err(Error::ParseError("Unknown value for 'default' attribute."))
        }
    }

    /// The attribute value.
    pub fn as_str(&self) -> (r: &'static str)
        ensures
            r@ == default_prefs_text(*self),
    {
        match self {
            DefaultPrefs::Always => "always",
            DefaultPrefs::Never => "never",
            DefaultPrefs::Roster => "roster",
        }
    }
}

/// The archiving preferences of an account.
#[derive(Debug)]
pub struct Prefs {
    pub default_: DefaultPrefs,
    pub always: Vec<Jid>,
    pub never: Vec<Jid>,
}

/// The Jabber IDs listed as `<jid/>` children of `e`, in order; `None` where
/// a child is no archive `jid` element or holds no valid Jabber ID.
pub open spec fn listed_jids(e: Element, n: int) -> Option<Seq<(Option<Seq<char>>, Seq<char>, Option<Seq<char>>)>>
    decreases n,
{
    if n <= 0 || n > e.children@.len() {
        Some(seq![])
    } else {
        match listed_jids(e, n - 1) {
            None => None,
            Some(l) => match e.children@[n - 1] {
                Node::Text(_) => Some(l),
                Node::Element(c) => if is_mam(c, "jid"@) {
                    match jid_parts(text_of(c.children@, c.children@.len() as int)) {
                        Some(p) => Some(l.push(p)),
                        None => None,
                    }
                } else {
                    None
                },
            },
        }
    }
}

pub open spec fn jids_parts(v: Seq<Jid>) -> Seq<(Option<Seq<char>>, Seq<char>, Option<Seq<char>>)> {
    v.map_values(|j: Jid| j.parts())
}

fn read_jid_list(list: &Element, out: &mut Vec<Jid>) -> (r: Result<(), Error>)
    ensures
        r is Ok <==> listed_jids(*list, list.children@.len() as int) is Some,
        r is Ok ==> jids_parts(final(out)@) == jids_parts(old(out)@) + listed_jids(
            *list,
            list.children@.len() as int,
        )->0,
{
    let mut i: usize = 0;
    let ghost start = jids_parts(out@);
    assert(start + seq![] =~= start);
    while i < list.children.len()
        invariant
            i <= list.children@.len(),
            start == jids_parts(old(out)@),
            listed_jids(*list, i as int) is Some,
            jids_parts(out@) == start + listed_jids(*list, i as int)->0,
        decreases list.children.len() - i,
    {
        if let Node::Element(c) = &list.children[i] {
            if !c.is("jid", MAM_NS) {
                proof { lemma_listed_jids_none(*list, i + 1, list.children@.len() as int); }
                return Err(Error::ParseError("Invalid jid element in list."));
            }
            let t = c.text();
            match Jid::from_str(t.as_str()) {
                Ok(j) => {
                    let ghost before = jids_parts(out@);
                    out.push(j);
                    assert(jids_parts(out@) =~= before.push(j.parts()));
                    assert(start + listed_jids(*list, i + 1)->0 =~= (start + listed_jids(*list, i as int)->0).push(j.parts()));
                },
                Err(_) => {
                    proof { lemma_listed_jids_none(*list, i + 1, list.children@.len() as int); }
                    return Err(Error::ParseError("Invalid JID in list."));
                },
            }
        }
        i = i + 1;
    }
    Ok(())
}

proof fn lemma_listed_jids_none(e: Element, n: int, m: int)
    requires
        0 < n <= m <= e.children@.len(),
        listed_jids(e, n) is None,
    ensures
        listed_jids(e, m) is None,
    decreases m - n,
{
    if m > n {
        lemma_listed_jids_none(e, n, m - 1);
    }
}

/// The Jabber IDs of the first `n` children of `e` named `list`, one list
/// after the other; `None` where one of them does not read.
pub open spec fn collected_jids(e: Element, n: int, list: Seq<char>) -> Option<
    Seq<(Option<Seq<char>>, Seq<char>, Option<Seq<char>>)>,
>
    decreases n,
{
    if n <= 0 || n > e.children@.len() {
        Some(seq![])
    } else {
        match collected_jids(e, n - 1, list) {
            None => None,
            Some(l) => match e.children@[n - 1] {
                Node::Element(c) => if is_mam(c, list) {
                    match listed_jids(c, c.children@.len() as int) {
                        Some(m) => Some(l + m),
                        None => None,
                    }
                } else {
                    Some(l)
                },
                Node::Text(_) => Some(l),
            },
        }
    }
}

/// Whether a child of a `<prefs/>` element reads: text, or an `always` or
/// `never` list of Jabber IDs that read.
pub open spec fn prefs_child_ok(x: Node) -> bool {
    match x {
        Node::Text(_) => true,
        Node::Element(c) => (is_mam(c, "always"@) || is_mam(c, "never"@)) && listed_jids(
            c,
            c.children@.len() as int,
        ) is Some,
    }
}

/// Whether `e` is a `<prefs/>` element that reads as preferences.
pub open spec fn prefs_ok(e: Element) -> bool {
    &&& is_mam(e, "prefs"@)
    &&& e.attrs_within(seq!["default"@])
    &&& forall|i: int| 0 <= i < e.children@.len() ==> prefs_child_ok(#[trigger] e.children@[i])
    &&& e.attr_spec("default"@) matches Some(d) && exists|x: DefaultPrefs| default_prefs_text(x) == d
}

impl Prefs {
    /// Reads a `<prefs/>` element: a required `default` attribute, and
    /// `always` and `never` lists of `<jid/>` children.
    pub fn try_from(elem: Element) -> (r: Result<Prefs, Error>)
        ensures
            !is_mam(elem, "prefs"@) ==> r == Err::<Prefs, Error>(
                Error::ParseError("This is not a prefs element."),
            ),
            r matches Ok(p) ==> {
                &&& is_mam(elem, "prefs"@)
                &&& elem.attrs_within(seq!["default"@])
                &&& elem.attr_spec("default"@) == Some(default_prefs_text(p.default_))
                &&& collected_jids(elem, elem.children@.len() as int, "always"@) == Some(
                    jids_parts(p.always@),
                )
                &&& collected_jids(elem, elem.children@.len() as int, "never"@) == Some(
                    jids_parts(p.never@),
                )
            },
            r is Ok <==> prefs_ok(elem),
    {
        if !elem.is("prefs", MAM_NS) {
            return Err(Error::ParseError("This is not a prefs element."));
        }
        let allowed: Vec<&str> = vec!["default"];
        assert(allowed@.map_values(|a: &str| a@) =~= seq!["default"@]);
        if !elem.only_attrs(&allowed) {
            return Err(Error::ParseError("Unknown attribute in prefs element."));
        }
        let mut always: Vec<Jid> = Vec::new();
        let mut never: Vec<Jid> = Vec::new();
        let mut i: usize = 0;
        proof {
            reveal_strlit("always");
            reveal_strlit("never");
            assert("always"@.len() != "never"@.len());
        }
        assert(jids_parts(always@) =~= seq![]);
        assert(jids_parts(never@) =~= seq![]);
        while i < elem.children.len()
            invariant
                i <= elem.children@.len(),
                is_mam(elem, "prefs"@),
                elem.attrs_within(seq!["default"@]),
                "always"@ != "never"@,
                collected_jids(elem, i as int, "always"@) == Some(jids_parts(always@)),
                collected_jids(elem, i as int, "never"@) == Some(jids_parts(never@)),
                forall|k: int| 0 <= k < i ==> prefs_child_ok(#[trigger] elem.children@[k]),
            decreases elem.children.len() - i,
        {
            if let Node::Element(c) = &elem.children[i] {
                assert(elem.children@[i as int] == Node::Element(*c));
                if c.is("always", MAM_NS) {
                    read_jid_list(c, &mut always)?;
                } else if c.is("never", MAM_NS) {
                    read_jid_list(c, &mut never)?;
                } else {
                    assert(!prefs_child_ok(elem.children@[i as int]));
                    return Err(Error::ParseError("Unknown child in prefs element."));
                }
            }
            i = i + 1;
        }
        let default_ = match elem.attr("default") {
            Some(d) => DefaultPrefs::from_str(d.as_str())?,
            None => {
                return Err(Error::ParseError("Required attribute 'default' missing."));
            },
        };
        Ok(Prefs { default_, always, never })
    }

    /// The `<prefs/>` element.
    pub fn into_element(self) -> (r: Element)
        ensures
            is_mam(r, "prefs"@),
            r.attr_spec("default"@) == Some(default_prefs_text(self.default_)),
            r.children@.len() == (if self.always@.len() > 0 { 1int } else { 0 }) + (if self.never@.len() > 0 {
                1int
            } else {
                0
            }),
    {
        let mut e = Element::new("prefs", MAM_NS);
        e.set_attr("default", self.default_.as_str());
        assert(crate::element::attr_value(e.attrs@, "default"@, 0) is None);
        assert(e.attrs@[0] == e.attrs@.last());
        if let Some(a) = serialise_jid_list("always", &self.always) {
            e.append_child(a);
        }
        if let Some(n) = serialise_jid_list("never", &self.never) {
            e.append_child(n);
        }
        e
    }
}

/// The list element `name` with one `<jid/>` child per Jabber ID; `None` for
/// an empty list.
pub fn serialise_jid_list(name: &str, jids: &Vec<Jid>) -> (r: Option<Element>)
    ensures
        jids@.len() == 0 <==> r is None,
        r matches Some(e) ==> {
            &&& is_mam(e, name@)
            &&& e.attrs@.len() == 0
            &&& e.children@.len() == jids@.len()
            &&& forall|i: int|
                0 <= i < jids@.len() ==> (#[trigger] e.children@[i] matches Node::Element(c)
                    && is_mam(c, "jid"@) && text_of(c.children@, c.children@.len() as int)
                    == jids@[i].text())
        },
{
    if jids.len() == 0 {
        return None;
    }
    let mut e = Element::new(name, MAM_NS);
    let mut i: usize = 0;
    while i < jids.len()
        invariant
            i <= jids@.len(),
            is_mam(e, name@),
            e.attrs@.len() == 0,
            e.children@.len() == i,
            forall|k: int|
                0 <= k < i ==> (#[trigger] e.children@[k] matches Node::Element(c) && is_mam(
                    c,
                    "jid"@,
                ) && text_of(c.children@, c.children@.len() as int) == jids@[k].text()),
        decreases jids.len() - i,
    {
        let mut j = Element::new("jid", MAM_NS);
        let t = jids[i].to_string();
        j.append_text(t.as_str());
        assert(text_of(j.children@, 0) =~= seq![]);
        assert(text_of(j.children@, 1) =~= t@);
        e.append_child(j);
        i = i + 1;
    }
    Some(e)
}

} // verus!
