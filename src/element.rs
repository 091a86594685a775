//! The generic XML element tree.

use vstd::prelude::*;
use crate::text::{escaped, escape, push_char, push_str, text_eq};

verus! {

broadcast use vstd::std_specs::vec::group_vec_axioms;

/// An XML element: a local name, an optional namespace, attributes in
/// document order and children. It owns its children outright. Two elements
/// are equal when their names, namespaces, attributes (in any order) and
/// children are.
#[derive(Debug, Eq)]
pub struct Element {
    pub name: String,
    pub ns: Option<String>,
    pub attrs: Vec<(String, String)>,
    pub children: Vec<Node>,
}

/// A child of an element: a nested element or a run of text.
#[derive(Debug, PartialEq, Eq)]
pub enum Node {
    Element(Element),
    Text(String),
}

/// What an element holds, as mathematical values.
pub ghost struct ElemV {
    pub name: Seq<char>,
    pub ns: Option<Seq<char>>,
    pub attrs: Seq<(Seq<char>, Seq<char>)>,
    pub children: Seq<NodeV>,
}

/// What a child of an element holds.
pub ghost enum NodeV {
    Elem(ElemV),
    Text(Seq<char>),
}

/// The attributes as pairs of character sequences.
pub open spec fn attr_pairs_view(a: Seq<(String, String)>) -> Seq<(Seq<char>, Seq<char>)> {
    a.map_values(|x: (String, String)| (x.0@, x.1@))
}

/// The value that an element holds.
pub open spec fn elem_view(e: Element) -> ElemV
    decreases e, e.children@.len() + 1,
{
    ElemV {
        name: e.name@,
        ns: opt_view(e.ns),
        attrs: attr_pairs_view(e.attrs@),
        children: children_view(e, e.children@.len() as int),
    }
}

/// The values that the first `n` children of `e` hold.
pub open spec fn children_view(e: Element, n: int) -> Seq<NodeV>
    decreases e, n,
{
    if n <= 0 || n > e.children@.len() {
        seq![]
    } else {
        children_view(e, n - 1).push(
            match e.children@[n - 1] {
                Node::Text(t) => NodeV::Text(t@),
                Node::Element(c) => NodeV::Elem(elem_view(c)),
            },
        )
    }
}

/// The value of one child.
pub open spec fn node_view(x: Node) -> NodeV {
    match x {
        Node::Text(t) => NodeV::Text(t@),
        Node::Element(c) => NodeV::Elem(elem_view(c)),
    }
}

/// Children views depend on the children alone.
pub proof fn lemma_children_view_prefix(a: Element, b: Element, n: int)
    requires
        0 <= n <= a.children@.len(),
        n <= b.children@.len(),
        a.children@.take(n) == b.children@.take(n),
    ensures
        children_view(a, n) == children_view(b, n),
    decreases n,
{
    if n > 0 {
        assert(a.children@.take(n - 1) =~= a.children@.take(n).take(n - 1));
        assert(b.children@.take(n - 1) =~= b.children@.take(n).take(n - 1));
        lemma_children_view_prefix(a, b, n - 1);
        assert(a.children@[n - 1] == a.children@.take(n)[n - 1]);
        assert(b.children@[n - 1] == b.children@.take(n)[n - 1]);
    }
}

/// Adding a child to an element adds its value to the element's value.
pub proof fn lemma_elem_view_push(p: Element, q: Element, x: Node)
    requires
        q.name == p.name,
        q.ns == p.ns,
        q.attrs == p.attrs,
        q.children@ == p.children@.push(x),
    ensures
        elem_view(q) == (ElemV { children: elem_view(p).children.push(node_view(x)), ..elem_view(p) }),
{
    let n = p.children@.len() as int;
    assert(q.children@.take(n) =~= p.children@.take(n));
    lemma_children_view_prefix(p, q, n);
    assert(q.children@[n] == x);
}

pub open spec fn opt_view(o: Option<String>) -> Option<Seq<char>> {
    match o {
        Some(s) => Some(s@),
        None => None,
    }
}

/// ` xmlns='…'` where an element's namespace differs from its parent's.
pub open spec fn ns_xml(ns: Option<Seq<char>>, parent: Option<Seq<char>>) -> Seq<char> {
    match ns {
        Some(n) => if ns != parent {
            seq![' ', 'x', 'm', 'l', 'n', 's', '=', '\''] + escaped(n) + seq!['\'']
        } else {
            seq![]
        },
        None => seq![],
    }
}

/// The first `n` attributes, each written ` name='value'`.
pub open spec fn attrs_xml(a: Seq<(String, String)>, n: int) -> Seq<char>
    decreases n,
{
    if n <= 0 || n > a.len() {
        seq![]
    } else {
        attrs_xml(a, n - 1) + seq![' '] + a[n - 1].0@ + seq!['=', '\''] + escaped(a[n - 1].1@)
            + seq!['\'']
    }
}

/// The serialized form of `e`, inside an element whose namespace is `parent`.
pub open spec fn element_xml(e: Element, parent: Option<Seq<char>>) -> Seq<char>
    decreases e, e.children@.len() + 1,
{
    let head = seq!['<'] + e.name@ + ns_xml(opt_view(e.ns), parent) + attrs_xml(
        e.attrs@,
        e.attrs@.len() as int,
    );
    if e.children@.len() == 0 {
        head + seq!['/', '>']
    } else {
        head + seq!['>'] + nodes_xml(e, e.children@.len() as int) + seq!['<', '/'] + e.name@
            + seq!['>']
    }
}

/// The serialized form of the first `n` children of `e`.
pub open spec fn nodes_xml(e: Element, n: int) -> Seq<char>
    decreases e, n,
{
    if n <= 0 || n > e.children@.len() {
        seq![]
    } else {
        nodes_xml(e, n - 1) + match e.children@[n - 1] {
            Node::Text(t) => escaped(t@),
            Node::Element(c) => element_xml(c, opt_view(e.ns)),
        }
    }
}


/// The value of the first attribute named `name` among the first `n`.
pub open spec fn attr_value(a: Seq<(String, String)>, name: Seq<char>, n: int) -> Option<Seq<char>>
    decreases n,
{
    if n <= 0 || n > a.len() {
        None
    } else {
        match attr_value(a, name, n - 1) {
            Some(v) => Some(v),
            None => if a[n - 1].0@ == name {
                Some(a[n - 1].1@)
            } else {
                None
            },
        }
    }
}

proof fn lemma_attr_value_found(a: Seq<(String, String)>, name: Seq<char>, n: int, m: int)
    requires
        0 <= n <= m <= a.len(),
        attr_value(a, name, n) is Some,
    ensures
        attr_value(a, name, m) == attr_value(a, name, n),
    decreases m - n,
{
    if m > n {
        lemma_attr_value_found(a, name, n, m - 1);
    }
}

/// The text children among the first `n`, joined.
pub open spec fn text_of(c: Seq<Node>, n: int) -> Seq<char>
    decreases n,
{
    if n <= 0 || n > c.len() {
        seq![]
    } else {
        text_of(c, n - 1) + match c[n - 1] {
            Node::Text(t) => t@,
            Node::Element(_) => seq![],
        }
    }
}

impl Element {
    /// The value of the attribute `name`.
    pub open spec fn attr_spec(&self, name: Seq<char>) -> Option<Seq<char>> {
        attr_value(self.attrs@, name, self.attrs@.len() as int)
    }

    /// An element with no attributes and no children.
    pub fn new(name: &str, ns: &str) -> (r: Element)
        ensures
            r.name@ == name@,
            opt_view(r.ns) == Some(ns@),
            r.attrs@.len() == 0,
            r.children@.len() == 0,
    {
        Element { name: name.to_owned(), ns: Some(ns.to_owned()), attrs: Vec::new(), children: Vec::new() }
    }

    /// The local name.
    pub fn name(&self) -> (r: &str)
        ensures
            r@ == self.name@,
    {
        self.name.as_str()
    }

    /// Whether the element has local name `name` in namespace `ns`.
    pub fn is(&self, name: &str, ns: &str) -> (r: bool)
        ensures
            r == (self.name@ == name@ && opt_view(self.ns) == Some(ns@)),
    {
        match &self.ns {
            Some(n) => text_eq(self.name.as_str(), name) && text_eq(n.as_str(), ns),
            None => false,
        }
    }

    /// The value of the first attribute named `name`.
    pub fn attr(&self, name: &str) -> (r: Option<String>)
        ensures
            opt_view(r) == self.attr_spec(name@),
    {
        find_attr(&self.attrs, name)
    }

    /// Adds an attribute after the existing ones.
    pub fn set_attr(&mut self, name: &str, value: &str)
        ensures
            final(self).attrs@.len() == old(self).attrs@.len() + 1,
            final(self).attrs@.drop_last() == old(self).attrs@,
            final(self).attrs@.last().0@ == name@,
            final(self).attrs@.last().1@ == value@,
            final(self).name == old(self).name,
            final(self).ns == old(self).ns,
            final(self).children == old(self).children,
    {
        self.attrs.push((name.to_owned(), value.to_owned()));
        assert(self.attrs@.drop_last() =~= old(self).attrs@);
    }

    /// Adds a child element after the existing children.
    pub fn append_child(&mut self, child: Element)
        ensures
            final(self).children@ == old(self).children@.push(Node::Element(child)),
            final(self).name == old(self).name,
            final(self).ns == old(self).ns,
            final(self).attrs == old(self).attrs,
    {
        self.children.push(Node::Element(child));
    }

    /// Adds a text child after the existing children.
    pub fn append_text(&mut self, text: &str)
        ensures
            final(self).children@.len() == old(self).children@.len() + 1,
            final(self).children@.drop_last() == old(self).children@,
            final(self).children@.last() matches Node::Text(t) && t@ == text@,
            final(self).name == old(self).name,
            final(self).ns == old(self).ns,
            final(self).attrs == old(self).attrs,
    {
        self.children.push(Node::Text(text.to_owned()));
        assert(self.children@.drop_last() =~= old(self).children@);
    }

    /// The text children, joined.
    pub fn text(&self) -> (r: String)
        ensures
            r@ == text_of(self.children@, self.children@.len() as int),
    {
        let mut out = String::new();
        let mut i: usize = 0;
        while i < self.children.len()
            invariant
                i <= self.children@.len(),
                out@ == text_of(self.children@, i as int),
            decreases self.children.len() - i,
        {
            match &self.children[i] {
                Node::Text(t) => push_str(&mut out, t.as_str()),
                Node::Element(_) => {},
            }
            assert(out@ =~= text_of(self.children@, i + 1));
            i = i + 1;
        }
        out
    }

    /// Whether every attribute name is one of `allowed`.
    pub open spec fn attrs_within(&self, allowed: Seq<Seq<char>>) -> bool {
        forall|i: int| 0 <= i < self.attrs@.len() ==> #[trigger] allowed.contains(self.attrs@[i].0@)
    }

    /// Whether every attribute name is one of `allowed`.
    pub fn only_attrs(&self, allowed: &Vec<&str>) -> (r: bool)
        ensures
            r == self.attrs_within(allowed@.map_values(|a: &str| a@)),
    {
        let ghost names = allowed@.map_values(|a: &str| a@);
        let mut i: usize = 0;
        while i < self.attrs.len()
            invariant
                i <= self.attrs@.len(),
                names == allowed@.map_values(|a: &str| a@),
                forall|k: int| 0 <= k < i ==> #[trigger] names.contains(self.attrs@[k].0@),
            decreases self.attrs.len() - i,
        {
            let mut j: usize = 0;
            let mut found = false;
            while j < allowed.len()
                invariant
                    i < self.attrs@.len(),
                    j <= allowed@.len(),
                    names == allowed@.map_values(|a: &str| a@),
                    found ==> names.contains(self.attrs@[i as int].0@),
                    !found ==> forall|k: int| 0 <= k < j ==> names[k] != self.attrs@[i as int].0@,
                decreases allowed.len() - j,
            {
                if !found && text_eq(self.attrs[i].0.as_str(), allowed[j]) {
                    found = true;
                    assert(names[j as int] == self.attrs@[i as int].0@);
                }
                j = j + 1;
            }
            if !found {
                assert(!names.contains(self.attrs@[i as int].0@));
                return false;
            }
            i = i + 1;
        }
        true
    }

    /// Whether the element has any element child.
    pub fn has_element_child(&self) -> (r: bool)
        ensures
            r == exists|i: int| 0 <= i < self.children@.len() && self.children@[i] is Element,
    {
        let mut i: usize = 0;
        while i < self.children.len()
            invariant
                i <= self.children@.len(),
                forall|j: int| 0 <= j < i ==> !(self.children@[j] is Element),
            decreases self.children.len() - i,
        {
            if let Node::Element(_) = &self.children[i] {
                return true;
            }
            i = i + 1;
        }
        false
    }
}

fn find_attr(a: &Vec<(String, String)>, name: &str) -> (r: Option<String>)
    ensures
        opt_view(r) == attr_value(a@, name@, a@.len() as int),
{
    let mut i: usize = 0;
    while i < a.len()
        invariant
            i <= a@.len(),
            attr_value(a@, name@, i as int) is None,
        decreases a.len() - i,
    {
        if text_eq(a[i].0.as_str(), name) {
            proof {
                lemma_attr_value_found(a@, name@, i + 1, a@.len() as int);
            }
            return Some(a[i].1.clone());
        }
        i = i + 1;
    }
    None
}

/// Whether every attribute of `a` is one of `b`, with the same value.
pub open spec fn attrs_included(a: Seq<(String, String)>, b: Seq<(String, String)>) -> bool {
    forall|i: int| 0 <= i < a.len() ==> attr_value(b, #[trigger] a[i].0@, b.len() as int) == Some(a[i].1@)
}

/// Whether two attribute lists hold the same attributes, in any order.
pub open spec fn same_attrs(a: Seq<(String, String)>, b: Seq<(String, String)>) -> bool {
    a.len() == b.len() && attrs_included(a, b) && attrs_included(b, a)
}

/// Structural equality of elements.
pub open spec fn same_element(a: Element, b: Element) -> bool
    decreases a, a.children@.len() + 1,
{
    &&& a.name@ == b.name@
    &&& opt_view(a.ns) == opt_view(b.ns)
    &&& same_attrs(a.attrs@, b.attrs@)
    &&& a.children@.len() == b.children@.len()
    &&& same_children(a, b, a.children@.len() as int)
}

/// Whether the first `n` children of `a` and `b` are pairwise equal.
pub open spec fn same_children(a: Element, b: Element, n: int) -> bool
    decreases a, n,
{
    if n <= 0 || n > a.children@.len() || n > b.children@.len() {
        n <= 0
    } else {
        same_children(a, b, n - 1) && match (a.children@[n - 1], b.children@[n - 1]) {
            (Node::Text(x), Node::Text(y)) => x@ == y@,
            (Node::Element(x), Node::Element(y)) => same_element(x, y),
            _ => false,
        }
    }
}

fn attrs_included_exec(a: &Vec<(String, String)>, b: &Vec<(String, String)>) -> (r: bool)
    ensures
        r == attrs_included(a@, b@),
{
    let mut i: usize = 0;
    while i < a.len()
        invariant
            i <= a@.len(),
            forall|k: int| 0 <= k < i ==> attr_value(b@, #[trigger] a@[k].0@, b@.len() as int) == Some(a@[k].1@),
        decreases a.len() - i,
    {
        match find_attr(b, a[i].0.as_str()) {
            Some(v) => {
                if !v.eq(&a[i].1) {
                    return false;
                }
            },
            None => {
                return false;
            },
        }
        i = i + 1;
    }
    true
}

/// Structural equality of elements: names, namespaces, attributes in any
/// order, and children pairwise.
pub fn elements_equal(a: &Element, b: &Element) -> (r: bool)
    ensures
        r == same_element(*a, *b),
    decreases a, a.children@.len() + 1,
{
    if !a.name.eq(&b.name) || !same_ns(&a.ns, &b.ns) {
        return false;
    }
    if a.attrs.len() != b.attrs.len() || !attrs_included_exec(&a.attrs, &b.attrs)
        || !attrs_included_exec(&b.attrs, &a.attrs) {
        return false;
    }
    if a.children.len() != b.children.len() {
        return false;
    }
    let mut i: usize = 0;
    while i < a.children.len()
        invariant
            i <= a.children@.len(),
            a.children@.len() == b.children@.len(),
            same_children(*a, *b, i as int),
        decreases a.children.len() - i,
    {
        let same = match (&a.children[i], &b.children[i]) {
            (Node::Text(x), Node::Text(y)) => x.eq(y),
            (Node::Element(x), Node::Element(y)) => {
                assert(decreases_to!(a => a.children));
                assert(decreases_to!(a.children => a.children[i as int]));
                elements_equal(x, y)
            },
            _ => false,
        };
        if !same {
            proof {
                lemma_same_children_prefix(*a, *b, i + 1, a.children@.len() as int);
            }
            return false;
        }
        i = i + 1;
    }
    true
}

proof fn lemma_same_children_prefix(a: Element, b: Element, n: int, m: int)
    requires
        0 < n <= m <= a.children@.len(),
        m <= b.children@.len(),
        !same_children(a, b, n),
    ensures
        !same_children(a, b, m),
    decreases m - n,
{
    if m > n {
        lemma_same_children_prefix(a, b, n, m - 1);
    }
}

impl PartialEq for Element {
    fn eq(&self, other: &Element) -> (r: bool) {
        elements_equal(self, other)
    }
}

impl vstd::std_specs::cmp::PartialEqSpecImpl for Element {
    open spec fn obeys_eq_spec() -> bool {
        true
    }

    open spec fn eq_spec(&self, other: &Element) -> bool {
        same_element(*self, *other)
    }
}

fn same_ns(a: &Option<String>, b: &Option<String>) -> (r: bool)
    ensures
        r == (opt_view(*a) == opt_view(*b)),
{
    match (a, b) {
        (Some(x), Some(y)) => x.eq(y),
        (None, None) => true,
        _ => false,
    }
}

fn push_escaped(out: &mut String, t: &str)
    ensures
        final(out)@ == old(out)@ + escaped(t@),
{
    let e = escape(t);
    push_str(out, e.as_str());
}

fn write_attrs(a: &Vec<(String, String)>, out: &mut String)
    ensures
        final(out)@ == old(out)@ + attrs_xml(a@, a@.len() as int),
{
    let mut i: usize = 0;
    while i < a.len()
        invariant
            i <= a@.len(),
            out@ == old(out)@ + attrs_xml(a@, i as int),
        decreases a.len() - i,
    {
        let ghost before = out@;
        push_char(out, ' ');
        push_str(out, a[i].0.as_str());
        push_char(out, '=');
        push_char(out, '\'');
        push_escaped(out, a[i].1.as_str());
        push_char(out, '\'');
        assert(out@ =~= before + seq![' '] + a@[i as int].0@ + seq!['=', '\''] + escaped(
            a@[i as int].1@,
        ) + seq!['\'']);
        i = i + 1;
    }
}

/// Writes the serialized form of `e`, inside an element whose namespace is
/// `parent`: a namespace declaration only where it differs, attribute values
/// and text escaped, an element without children as `<name/>`.
pub fn write_element(e: &Element, parent: &Option<String>, out: &mut String)
    ensures
        final(out)@ == old(out)@ + element_xml(*e, opt_view(*parent)),
    decreases e, e.children@.len() + 1,
{
    let ghost start = out@;
    push_char(out, '<');
    push_str(out, e.name.as_str());
    match &e.ns {
        Some(n) => {
            if !same_ns(&e.ns, parent) {
                push_str(out, " xmlns='");
                proof { reveal_strlit(" xmlns='"); }
                push_escaped(out, n.as_str());
                push_char(out, '\'');
            }
        },
        None => {},
    }
    write_attrs(&e.attrs, out);
    let ghost head = seq!['<'] + e.name@ + ns_xml(opt_view(e.ns), opt_view(*parent)) + attrs_xml(
        e.attrs@,
        e.attrs@.len() as int,
    );
    assert(out@ =~= start + head);
    if e.children.len() == 0 {
        push_char(out, '/');
        push_char(out, '>');
        assert(out@ =~= start + (head + seq!['/', '>']));
    } else {
        push_char(out, '>');
        write_nodes(e, out);
        push_char(out, '<');
        push_char(out, '/');
        push_str(out, e.name.as_str());
        push_char(out, '>');
        assert(out@ =~= start + (head + seq!['>'] + nodes_xml(*e, e.children@.len() as int) + seq![
            '<',
            '/',
        ] + e.name@ + seq!['>']));
    }
}

fn write_nodes(e: &Element, out: &mut String)
    ensures
        final(out)@ == old(out)@ + nodes_xml(*e, e.children@.len() as int),
    decreases e, e.children@.len(),
{
    let mut i: usize = 0;
    while i < e.children.len()
        invariant
            i <= e.children@.len(),
            out@ == old(out)@ + nodes_xml(*e, i as int),
        decreases e.children.len() - i,
    {
        let ghost before = out@;
        match &e.children[i] {
            Node::Text(t) => {
                push_escaped(out, t.as_str());
            },
            Node::Element(c) => {
                assert(decreases_to!(e => e.children));
                assert(decreases_to!(e.children => e.children[i as int]));
                write_element(c, &e.ns, out);
            },
        }
        assert(out@ =~= old(out)@ + nodes_xml(*e, i + 1));
        i = i + 1;
    }
}

} // verus!
