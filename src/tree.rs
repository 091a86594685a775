//! Builds element trees from tokens, tracking namespace scopes and the two
//! boundaries that matter to a stream: its root, and each child of the root.

use vstd::prelude::*;
use vstd::utf8::{decode_utf8, encode_utf8, valid_utf8};
use crate::element::{
    Element, ElemV, Node, NodeV, attr_pairs_view, elem_view, lemma_elem_view_push, opt_view,
};
use crate::error::Error;
use crate::lexer::{LexedV, RawAttr, Token, TokenV, lex, attrs_view, copy_range, find_byte, find_from};
use crate::text::{unescape, unescaped, utf8_string};

verus! {

/// `:`
pub const COLON: u8 = 0x3A;

/// The namespace that the `xml` prefix is bound to without a declaration.
pub const XML_NS: &'static str = "http://www.w3.org/XML/1998/namespace";

/// The text of raw bytes: valid UTF-8, then its entity references replaced.
pub open spec fn decoded(raw: Seq<u8>) -> Option<Seq<char>> {
    if valid_utf8(raw) {
        unescaped(decode_utf8(raw))
    } else {
        None
    }
}

pub open spec fn xmlns_bytes() -> Seq<u8> {
    seq![0x78u8, 0x6Du8, 0x6Cu8, 0x6Eu8, 0x73u8]
}

/// The prefix that an attribute named `name` declares: empty for `xmlns`,
/// `p` for `xmlns:p`; `None` for an ordinary attribute.
pub open spec fn declared_prefix(name: Seq<u8>) -> Option<Seq<u8>> {
    if name == xmlns_bytes() {
        Some(seq![])
    } else if name.len() > 6 && name.take(5) == xmlns_bytes() && name[5] == COLON {
        Some(name.skip(6))
    } else {
        None
    }
}

/// A qualified name split into prefix (empty where there is none) and local
/// name, at its first colon.
pub open spec fn split_qname(q: Seq<u8>) -> (Seq<u8>, Seq<u8>) {
    match find_from(q, 0, COLON) {
        Some(k) => (q.take(k), q.skip(k + 1)),
        None => (seq![], q),
    }
}

pub open spec fn decls_view(d: Seq<(Vec<u8>, String)>) -> Seq<(Seq<u8>, Seq<char>)> {
    d.map_values(|x: (Vec<u8>, String)| (x.0@, x.1@))
}


/// The URI bound to prefix `p` by the last of the first `n` declarations.
pub open spec fn lookup(d: Seq<(Seq<u8>, Seq<char>)>, p: Seq<u8>, n: int) -> Option<Seq<char>>
    decreases n,
{
    if n <= 0 || n > d.len() {
        None
    } else if d[n - 1].0 == p {
        Some(d[n - 1].1)
    } else {
        lookup(d, p, n - 1)
    }
}

/// The URI bound to prefix `p` in the innermost of the first `n` scopes that
/// declares it.
pub open spec fn resolve(scopes: Seq<Seq<(Seq<u8>, Seq<char>)>>, p: Seq<u8>, n: int) -> Option<
    Seq<char>,
>
    decreases n,
{
    if n <= 0 || n > scopes.len() {
        if p == seq![0x78u8, 0x6Du8, 0x6Cu8] {
            Some(XML_NS@)
        } else {
            None
        }
    } else {
        match lookup(scopes[n - 1], p, scopes[n - 1].len() as int) {
            Some(u) => Some(u),
            None => resolve(scopes, p, n - 1),
        }
    }
}

/// The first `n` raw attributes decoded and sorted into ordinary attributes
/// and namespace declarations, both in document order.
pub open spec fn sort_attrs(raw: Seq<(Seq<u8>, Seq<u8>)>, n: int) -> Option<
    (Seq<(Seq<char>, Seq<char>)>, Seq<(Seq<u8>, Seq<char>)>),
>
    decreases n,
{
    if n <= 0 || n > raw.len() {
        Some((seq![], seq![]))
    } else {
        match sort_attrs(raw, n - 1) {
            None => None,
            Some((a, d)) => {
                let (name, value) = raw[n - 1];
                if !valid_utf8(name) {
                    None
                } else {
                    match decoded(value) {
                        None => None,
                        Some(v) => match declared_prefix(name) {
                            Some(p) => Some((a, d.push((p, v)))),
                            None => Some((a.push((decode_utf8(name), v)), d)),
                        },
                    }
                }
            },
        }
    }
}

/// Turns tokens into elements. The stack holds the open elements, outermost
/// first; the queue the completed children of the root, oldest first.
pub struct TreeBuilder {
    pub stack: Vec<Element>,
    pub qnames: Vec<Vec<u8>>,
    pub scopes: Vec<Vec<(Vec<u8>, String)>>,
    pub queue: Vec<Element>,
    pub root: Option<Element>,
}


/// How closing the innermost open element moves it: into its parent's
/// children, into the queue when its parent is the root, or, for the root
/// itself, into `root`.
pub open spec fn closed_top(old: TreeBuilder, new: TreeBuilder) -> bool {
    let d = old.stack@.len();
    let e = old.stack@[d - 1];
    &&& d >= 1
    &&& new.stack@.len() == d - 1
    &&& new.qnames@ == old.qnames@.drop_last()
    &&& new.scopes@ == old.scopes@.drop_last()
    &&& if d == 1 {
        new.queue@ == old.queue@ && new.root == Some(e)
    } else if d == 2 {
        new.stack@ == old.stack@.drop_last() && new.queue@ == old.queue@.push(e) && new.root
            == old.root
    } else {
        let p = old.stack@[d - 2];
        let q = new.stack@[d - 2];
        &&& new.stack@.take(d - 2) == old.stack@.take(d - 2)
        &&& q.name == p.name && q.ns == p.ns && q.attrs == p.attrs
        &&& q.children@ == p.children@.push(Node::Element(e))
        &&& new.queue@ == old.queue@
        &&& new.root == old.root
    }
}

/// The element that a start tag opens, given the scopes already open.
pub open spec fn opened(
    scopes: Seq<Seq<(Seq<u8>, Seq<char>)>>,
    qname: Seq<u8>,
    attrs: Seq<(Seq<char>, Seq<char>)>,
    decls: Seq<(Seq<u8>, Seq<char>)>,
    e: Element,
) -> bool {
    let (p, local) = split_qname(qname);
    let all = scopes.push(decls);
    &&& e.name@ == decode_utf8(local)
    &&& opt_view(e.ns) == resolve(all, p, all.len() as int)
    &&& attr_pairs_view(e.attrs@) == attrs
    &&& e.children@.len() == 0
}

/// `new` is `old` with one more open element, the one that the start tag
/// `qname` with raw attributes `raw` opens.
pub open spec fn pushed(
    old: TreeBuilder,
    new: TreeBuilder,
    qname: Seq<u8>,
    raw: Seq<(Seq<u8>, Seq<u8>)>,
) -> bool {
    let (a, d) = sort_attrs(raw, raw.len() as int)->0;
    &&& new.stack@.len() == old.stack@.len() + 1
    &&& new.stack@.drop_last() == old.stack@
    &&& opened(old.scopes_view(), qname, a, d, new.stack@.last())
    &&& new.qnames@.drop_last() == old.qnames@
    &&& new.qnames@.last()@ == qname
    &&& new.scopes_view() == old.scopes_view().push(d)
    &&& new.scopes@.drop_last() == old.scopes@
    &&& new.queue == old.queue
    &&& new.root == old.root
}

/// Whether no two attributes share a name.
pub open spec fn attr_names_distinct(a: Seq<(Seq<char>, Seq<char>)>) -> bool {
    forall|i: int, j: int| 0 <= i < j < a.len() ==> a[i].0 != a[j].0
}

/// Whether no prefix is declared twice.
pub open spec fn prefixes_distinct(d: Seq<(Seq<u8>, Seq<char>)>) -> bool {
    forall|i: int, j: int| 0 <= i < j < d.len() ==> d[i].0 != d[j].0
}

/// Whether a start tag is lexically sound: a UTF-8 name, attributes that
/// decode, and no attribute or namespace declaration given twice.
pub open spec fn start_decodes(qname: Seq<u8>, raw: Seq<(Seq<u8>, Seq<u8>)>) -> bool {
    &&& valid_utf8(split_qname(qname).1)
    &&& sort_attrs(raw, raw.len() as int) matches Some((a, d))
    &&& attr_names_distinct(a)
    &&& prefixes_distinct(d)
}

/// Whether the prefix of a start tag is bound, given the scopes already open.
pub open spec fn start_resolves(
    scopes: Seq<Seq<(Seq<u8>, Seq<char>)>>,
    qname: Seq<u8>,
    raw: Seq<(Seq<u8>, Seq<u8>)>,
) -> bool {
    let p = split_qname(qname).0;
    let (_, d) = sort_attrs(raw, raw.len() as int)->0;
    let all = scopes.push(d);
    p.len() == 0 || resolve(all, p, all.len() as int) is Some
}

/// What a tree builder holds, as mathematical values.
pub ghost struct BuilderV {
    pub stack: Seq<ElemV>,
    pub qnames: Seq<Seq<u8>>,
    pub scopes: Seq<Seq<(Seq<u8>, Seq<char>)>>,
    pub queue: Seq<ElemV>,
    pub root: Option<ElemV>,
}

/// Closing the innermost open element: it joins its parent's children, or
/// the queue when its parent is the root, or becomes the closed root.
pub open spec fn close_spec(bv: BuilderV) -> BuilderV {
    let d = bv.stack.len();
    let e = bv.stack.last();
    let base = BuilderV {
        stack: bv.stack.drop_last(),
        qnames: bv.qnames.drop_last(),
        scopes: bv.scopes.drop_last(),
        ..bv
    };
    if d == 1 {
        BuilderV { root: Some(e), ..base }
    } else if d == 2 {
        BuilderV { queue: bv.queue.push(e), ..base }
    } else {
        let p = bv.stack[d - 2];
        BuilderV {
            stack: bv.stack.take(d - 2).push(ElemV { children: p.children.push(NodeV::Elem(e)), ..p }),
            ..base
        }
    }
}

/// Opening the element that the start tag `name` with raw attributes `raw`
/// writes.
pub open spec fn push_spec(bv: BuilderV, name: Seq<u8>, raw: Seq<(Seq<u8>, Seq<u8>)>) -> BuilderV {
    let (a, d) = sort_attrs(raw, raw.len() as int)->0;
    let (p, local) = split_qname(name);
    let all = bv.scopes.push(d);
    let e = ElemV { name: decode_utf8(local), ns: resolve(all, p, all.len() as int), attrs: a, children: seq![] };
    BuilderV { stack: bv.stack.push(e), qnames: bv.qnames.push(name), scopes: all, ..bv }
}

/// What feeding one token does to a tree builder.
#[verifier::opaque]
pub open spec fn step_spec(bv: BuilderV, t: TokenV) -> Result<BuilderV, Error> {
    match t {
        TokenV::Decl => Ok(bv),
        TokenV::Text(raw) => if bv.stack.len() >= 2 {
            match decoded(raw) {
                Some(x) => {
                    let top = bv.stack.last();
                    Ok(
                        BuilderV {
                            stack: bv.stack.drop_last().push(
                                ElemV { children: top.children.push(NodeV::Text(x)), ..top },
                            ),
                            ..bv
                        },
                    )
                },
                None => Err(Error::Lexical),
            }
        } else {
            Ok(bv)
        },
        TokenV::End(name) => if bv.stack.len() >= 1 && bv.qnames.last() == name {
            Ok(close_spec(bv))
        } else {
            Err(Error::Unbalanced)
        },
        TokenV::Start(name, raw, empty) => if !start_decodes(name, raw) {
            Err(Error::Lexical)
        } else if !start_resolves(bv.scopes, name, raw) {
            Err(Error::Unbalanced)
        } else if empty {
            Ok(close_spec(push_spec(bv, name, raw)))
        } else {
            Ok(push_spec(bv, name, raw))
        },
    }
}

pub open spec fn elems_view(v: Seq<Element>) -> Seq<ElemV> {
    v.map_values(|e: Element| elem_view(e))
}

impl TreeBuilder {
    /// The values that the builder holds.
    pub open spec fn view(&self) -> BuilderV {
        BuilderV {
            stack: elems_view(self.stack@),
            qnames: self.qnames@.map_values(|q: Vec<u8>| q@),
            scopes: self.scopes_view(),
            queue: elems_view(self.queue@),
            root: match self.root {
                Some(e) => Some(elem_view(e)),
                None => None,
            },
        }
    }

    /// One qualified name and one scope per open element.
    pub open spec fn wf(&self) -> bool {
        self.qnames@.len() == self.stack@.len() && self.scopes@.len() == self.stack@.len()
    }

    pub open spec fn scopes_view(&self) -> Seq<Seq<(Seq<u8>, Seq<char>)>> {
        self.scopes@.map_values(|s: Vec<(Vec<u8>, String)>| decls_view(s@))
    }

    /// Nothing open, nothing queued.
    pub fn new() -> (r: TreeBuilder)
        ensures
            r.wf(),
            r.stack@.len() == 0,
            r.queue@.len() == 0,
            r.root is None,
    {
        TreeBuilder {
            stack: Vec::new(),
            qnames: Vec::new(),
            scopes: Vec::new(),
            queue: Vec::new(),
            root: None,
        }
    }

    /// The number of open elements.
    pub fn depth(&self) -> (r: usize)
        ensures
            r == self.stack@.len(),
    {
        self.stack.len()
    }

    /// The innermost open element.
    pub fn top(&self) -> (r: Option<&Element>)
        ensures
            self.stack@.len() == 0 ==> r is None,
            self.stack@.len() > 0 ==> r == Some(&self.stack@.last()),
    {
        if self.stack.len() == 0 {
            None
        } else {
            Some(&self.stack[self.stack.len() - 1])
        }
    }

    /// Takes the oldest completed child of the root, if there is one.
    pub fn unshift_child(&mut self) -> (r: Option<Element>)
        ensures
            old(self).queue@.len() == 0 ==> r is None && final(self).queue@.len() == 0,
            old(self).queue@.len() > 0 ==> r == Some(old(self).queue@[0]) && final(self).queue@
                == old(self).queue@.drop_first(),
            old(self).queue@.len() == 0 ==> final(self).view() == old(self).view(),
            old(self).queue@.len() > 0 ==> elem_view(r->0) == old(self).view().queue[0]
                && final(self).view() == (BuilderV {
                    queue: old(self).view().queue.drop_first(),
                    ..old(self).view()
                }),
            final(self).stack == old(self).stack,
            final(self).qnames == old(self).qnames,
            final(self).scopes == old(self).scopes,
            final(self).root == old(self).root,
    {
        if self.queue.len() == 0 {
            assert(self.view() =~= old(self).view());
            None
        } else {
            let e = self.queue.remove(0);
            assert(self.queue@ =~= old(self).queue@.drop_first());
            assert(elems_view(self.queue@) =~= old(self).view().queue.drop_first());
            assert(self.view() =~= (BuilderV { queue: old(self).view().queue.drop_first(), ..old(self).view() }));
            Some(e)
        }
    }

    /// Takes the root, once it has been closed.
    pub fn take_root(&mut self) -> (r: Option<Element>)
        ensures
            r == old(self).root,
            final(self).root is None,
            final(self).view() == (BuilderV { root: None, ..old(self).view() }),
            final(self).stack == old(self).stack,
            final(self).qnames == old(self).qnames,
            final(self).scopes == old(self).scopes,
            final(self).queue == old(self).queue,
    {
        let r = self.root.take();
        assert(self.view() =~= (BuilderV { root: None, ..old(self).view() }));
        r
    }

    fn close_top(&mut self)
        requires
            old(self).wf(),
            old(self).stack@.len() >= 1,
        ensures
            final(self).wf(),
            closed_top(*old(self), *final(self)),
    {
        let e = self.stack.pop().unwrap();
        self.qnames.pop();
        self.scopes.pop();
        let d = self.stack.len();
        if d == 0 {
            self.root = Some(e);
        } else if d == 1 {
            self.queue.push(e);
        } else {
            let mut parent = self.stack.pop().unwrap();
            parent.append_child(e);
            self.stack.push(parent);
            assert(self.stack@.take(d - 1) =~= old(self).stack@.take(d - 1));
        }
    }

    /// Feeds one token. Start tags open an element (and close it again when
    /// empty), end tags close the innermost one, text inside a child of the
    /// root joins the innermost element; the rest is skipped.
    pub fn process(&mut self, t: Token) -> (r: Result<(), Error>)
        requires
            old(self).wf(),
        ensures
            final(self).wf(),
            match step_spec(old(self).view(), t.view()) {
                Ok(v) => r is Ok && final(self).view() == v,
                Err(e) => r == Err::<(), Error>(e) && *final(self) == *old(self),
            },
            r is Err ==> *final(self) == *old(self),
            match t.view() {
                TokenV::Decl => r is Ok && *final(self) == *old(self),
                TokenV::Text(raw) => if old(self).stack@.len() >= 2 {
                    &&& (r is Ok <==> decoded(raw) is Some)
                    &&& r is Err ==> r == Err::<(), Error>(Error::Lexical)
                    &&& r is Ok ==> {
                        let d = old(self).stack@.len();
                        let p = old(self).stack@[d - 1];
                        let q = final(self).stack@[d - 1];
                        &&& final(self).stack@.len() == d
                        &&& final(self).stack@.drop_last() == old(self).stack@.drop_last()
                        &&& q.name == p.name && q.ns == p.ns && q.attrs == p.attrs
                        &&& q.children@.drop_last() == p.children@
                        &&& q.children@.len() == p.children@.len() + 1
                        &&& q.children@.last() matches Node::Text(x) && Some(x@) == decoded(raw)
                        &&& final(self).qnames == old(self).qnames
                        &&& final(self).scopes == old(self).scopes
                        &&& final(self).queue == old(self).queue
                        &&& final(self).root == old(self).root
                    }
                } else {
                    r is Ok && *final(self) == *old(self)
                },
                TokenV::End(name) => {
                    let ok = old(self).stack@.len() >= 1 && old(self).qnames@.last()@ == name;
                    &&& (r is Ok <==> ok)
                    &&& r is Err ==> r == Err::<(), Error>(Error::Unbalanced)
                    &&& r is Ok ==> closed_top(*old(self), *final(self))
                },
                TokenV::Start(name, raw, empty) => {
                    &&& !start_decodes(name, raw) <==> r == Err::<(), Error>(Error::Lexical)
                    &&& (start_decodes(name, raw) && !start_resolves(old(self).scopes_view(), name, raw))
                        <==> r == Err::<(), Error>(Error::Unbalanced)
                    &&& r is Err ==> r == Err::<(), Error>(Error::Lexical) || r == Err::<(), Error>(Error::Unbalanced)
                    &&& r is Ok ==> if empty {
                        exists|mid: TreeBuilder| mid.wf() && #[trigger] pushed(*old(self), mid, name, raw)
                            && closed_top(mid, *final(self))
                    } else {
                        pushed(*old(self), *final(self), name, raw)
                    }
                },
            },
    {
        let ghost tv = t.view();
        let ghost o = *self;
        let r = self.apply(t);
        proof {
            lemma_apply_view(o, *self, tv, r);
        }
        r
    }

    fn apply(&mut self, t: Token) -> (r: Result<(), Error>)
        requires
            old(self).wf(),
        ensures
            final(self).wf(),
            r is Err ==> *final(self) == *old(self),
            match t.view() {
                TokenV::Decl => r is Ok && *final(self) == *old(self),
                TokenV::Text(raw) => if old(self).stack@.len() >= 2 {
                    &&& (r is Ok <==> decoded(raw) is Some)
                    &&& r is Err ==> r == Err::<(), Error>(Error::Lexical)
                    &&& r is Ok ==> {
                        let d = old(self).stack@.len();
                        let p = old(self).stack@[d - 1];
                        let q = final(self).stack@[d - 1];
                        &&& final(self).stack@.len() == d
                        &&& final(self).stack@.drop_last() == old(self).stack@.drop_last()
                        &&& q.name == p.name && q.ns == p.ns && q.attrs == p.attrs
                        &&& q.children@.drop_last() == p.children@
                        &&& q.children@.len() == p.children@.len() + 1
                        &&& q.children@.last() matches Node::Text(x) && Some(x@) == decoded(raw)
                        &&& final(self).qnames == old(self).qnames
                        &&& final(self).scopes == old(self).scopes
                        &&& final(self).queue == old(self).queue
                        &&& final(self).root == old(self).root
                    }
                } else {
                    r is Ok && *final(self) == *old(self)
                },
                TokenV::End(name) => {
                    let ok = old(self).stack@.len() >= 1 && old(self).qnames@.last()@ == name;
                    &&& (r is Ok <==> ok)
                    &&& r is Err ==> r == Err::<(), Error>(Error::Unbalanced)
                    &&& r is Ok ==> closed_top(*old(self), *final(self))
                },
                TokenV::Start(name, raw, empty) => {
                    &&& !start_decodes(name, raw) <==> r == Err::<(), Error>(Error::Lexical)
                    &&& (start_decodes(name, raw) && !start_resolves(old(self).scopes_view(), name, raw))
                        <==> r == Err::<(), Error>(Error::Unbalanced)
                    &&& r is Err ==> r == Err::<(), Error>(Error::Lexical) || r == Err::<(), Error>(Error::Unbalanced)
                    &&& r is Ok ==> if empty {
                        exists|mid: TreeBuilder| mid.wf() && #[trigger] pushed(*old(self), mid, name, raw)
                            && closed_top(mid, *final(self))
                    } else {
                        pushed(*old(self), *final(self), name, raw)
                    }
                },
            },
    {
        match t {
            Token::Decl => Ok(()),
            Token::Text { raw } => {
                if self.stack.len() < 2 {
                    return Ok(());
                }
                let text = decode_text(raw.as_slice())?;
                let mut top = self.stack.pop().unwrap();
                top.children.push(Node::Text(text));
                assert(top.children@.drop_last() =~= old(self).stack@.last().children@);
                self.stack.push(top);
                assert(self.stack@.drop_last() =~= old(self).stack@.drop_last());
                Ok(())
            },
            Token::End { name } => {
                if self.stack.len() == 0 {
                    return Err(Error::Unbalanced);
                }
                if !bytes_eq(&self.qnames[self.qnames.len() - 1], &name) {
                    return Err(Error::Unbalanced);
                }
                self.close_top();
                Ok(())
            },
            Token::Start { name, attrs, empty } => {
                let (prefix, local) = split_qname_exec(&name);
                let local_name = match utf8_string(local.as_slice()) {
                    Some(l) => l,
                    None => {
                        return Err(Error::Lexical);
                    },
                };
                let (plain, decls) = sort_attrs_exec(&attrs)?;
                if !names_distinct(&plain) || !prefixes_distinct_exec(&decls) {
                    return Err(Error::Lexical);
                }
                let ns = self.resolve_exec(&decls, &prefix);
                if prefix.len() > 0 && ns.is_none() {
                    return Err(Error::Unbalanced);
                }
                let e = Element { name: local_name, ns, attrs: plain, children: Vec::new() };
                let ghost dv = decls_view(decls@);
                self.stack.push(e);
                self.qnames.push(name);
                self.scopes.push(decls);
                proof {
                    assert(self.stack@.drop_last() =~= old(self).stack@);
                    assert(self.qnames@.drop_last() =~= old(self).qnames@);
                    assert(self.scopes@.drop_last() =~= old(self).scopes@);
                    assert(self.scopes_view() =~= old(self).scopes_view().push(dv));
                }
                if empty {
                    let ghost mid = *self;
                    self.close_top();
                    assert(pushed(*old(self), mid, name@, attrs_view(attrs@)));
                }
                Ok(())
            },
        }
    }

    fn resolve_exec(&self, decls: &Vec<(Vec<u8>, String)>, p: &Vec<u8>) -> (r: Option<String>)
        ensures
            opt_view(r) == resolve(
                self.scopes_view().push(decls_view(decls@)),
                p@,
                self.scopes@.len() as int + 1,
            ),
    {
        let ghost all = self.scopes_view().push(decls_view(decls@));
        assert(all[self.scopes@.len() as int] == decls_view(decls@));
        match lookup_exec(decls, p) {
            Some(u) => {
                return Some(u);
            },
            None => {},
        }
        let mut n = self.scopes.len();
        while n > 0
            invariant
                n <= self.scopes@.len(),
                all == self.scopes_view().push(decls_view(decls@)),
                resolve(all, p@, self.scopes@.len() as int + 1) == resolve(all, p@, n as int),
            decreases n,
        {
            assert(all[n - 1] == decls_view(self.scopes@[n - 1]@));
            match lookup_exec(&self.scopes[n - 1], p) {
                Some(u) => {
                    return Some(u);
                },
                None => {},
            }
            n = n - 1;
        }
        let xml: Vec<u8> = vec![0x78u8, 0x6Du8, 0x6Cu8];
        if bytes_eq(p, &xml) {
            assert(p@ =~= seq![0x78u8, 0x6Du8, 0x6Cu8]);
            Some(XML_NS.to_owned())
        } else {
            assert(p@ != seq![0x78u8, 0x6Du8, 0x6Cu8]);
            None
        }
    }
}

/// Decodes raw bytes as text: UTF-8, then entity references.
pub fn decode_text(raw: &[u8]) -> (r: Result<String, Error>)
    ensures
        match r {
            Ok(s) => decoded(raw@) == Some(s@),
            Err(e) => decoded(raw@) is None && e == Error::Lexical,
        },
{
    match utf8_string(raw) {
        None => Err(Error::Lexical),
        Some(s) => match unescape(s.as_str()) {
            Some(t) => Ok(t),
            None => Err(Error::Lexical),
        },
    }
}

fn declared_prefix_exec(name: &Vec<u8>) -> (r: Option<Vec<u8>>)
    ensures
        match r {
            Some(p) => declared_prefix(name@) == Some(p@),
            None => declared_prefix(name@) is None,
        },
{
    let x: Vec<u8> = vec![0x78u8, 0x6Du8, 0x6Cu8, 0x6Eu8, 0x73u8];
    assert(x@ =~= xmlns_bytes());
    if bytes_eq(name, &x) {
        assert(name@ =~= xmlns_bytes());
        return Some(Vec::new());
    }
    if name.len() > 6 && name[5] == COLON {
        let head = copy_range(name.as_slice(), 0, 5);
        assert(head@ =~= name@.take(5));
        if bytes_eq(&head, &x) {
            let p = copy_range(name.as_slice(), 6, name.len());
            assert(p@ =~= name@.skip(6));
            return Some(p);
        }
    }
    None
}

fn split_qname_exec(q: &Vec<u8>) -> (r: (Vec<u8>, Vec<u8>))
    ensures
        (r.0@, r.1@) == split_qname(q@),
{
    let n = q.len();
    match find_byte(q.as_slice(), 0, COLON) {
        Some(k) => {
            proof {
                crate::lexer::lemma_find_from_bounds(q@, 0, COLON);
                assert(k < n);
            }
            let p = copy_range(q.as_slice(), 0, k);
            let l = copy_range(q.as_slice(), k + 1, q.len());
            assert(p@ =~= q@.take(k as int));
            assert(l@ =~= q@.skip(k + 1));
            (p, l)
        },
        None => {
            let l = copy_range(q.as_slice(), 0, q.len());
            assert(l@ =~= q@);
            (Vec::new(), l)
        },
    }
}

fn sort_attrs_exec(raw: &Vec<RawAttr>) -> (r: Result<(Vec<(String, String)>, Vec<(Vec<u8>, String)>), Error>)
    ensures
        match r {
            Ok((a, d)) => sort_attrs(attrs_view(raw@), raw@.len() as int) == Some(
                (attr_pairs_view(a@), decls_view(d@)),
            ),
            Err(e) => sort_attrs(attrs_view(raw@), raw@.len() as int) is None && e
                == Error::Lexical,
        },
{
    let ghost rv = attrs_view(raw@);
    let mut a: Vec<(String, String)> = Vec::new();
    let mut d: Vec<(Vec<u8>, String)> = Vec::new();
    let mut i: usize = 0;
    assert(attr_pairs_view(a@) =~= seq![]);
    assert(decls_view(d@) =~= seq![]);
    while i < raw.len()
        invariant
            rv == attrs_view(raw@),
            i <= raw@.len(),
            sort_attrs(rv, i as int) == Some((attr_pairs_view(a@), decls_view(d@))),
        decreases raw.len() - i,
    {
        let ghost ga = attr_pairs_view(a@);
        let ghost gd = decls_view(d@);
        let name = match utf8_string(raw[i].name.as_slice()) {
            Some(n) => n,
            None => {
                proof { lemma_sort_attrs_none(rv, i as int + 1, raw@.len() as int); }
                return Err(Error::Lexical);
            },
        };
        let value = match decode_text(raw[i].value.as_slice()) {
            Ok(v) => v,
            Err(e) => {
                proof { lemma_sort_attrs_none(rv, i as int + 1, raw@.len() as int); }
                return Err(e);
            },
        };
        match declared_prefix_exec(&raw[i].name) {
            Some(p) => {
                d.push((p, value));
                assert(decls_view(d@) =~= gd.push((p@, value@)));
            },
            None => {
                a.push((name, value));
                assert(attr_pairs_view(a@) =~= ga.push((name@, value@)));
            },
        }
        i = i + 1;
    }
    Ok((a, d))
}

proof fn lemma_sort_attrs_none(raw: Seq<(Seq<u8>, Seq<u8>)>, n: int, m: int)
    requires
        0 < n <= m <= raw.len(),
        sort_attrs(raw, n) is None,
    ensures
        sort_attrs(raw, m) is None,
    decreases m - n,
{
    if m > n {
        lemma_sort_attrs_none(raw, n, m - 1);
    }
}

/// A builder holding only an implicit outer element: the root of a document
/// read with it is queued once complete, and keeps its own text.
pub open spec fn doc_start() -> BuilderV {
    BuilderV {
        stack: seq![ElemV { name: seq![], ns: None, attrs: seq![], children: seq![] }],
        qnames: seq![Seq::<u8>::empty()],
        scopes: seq![Seq::<(Seq<u8>, Seq<char>)>::empty()],
        queue: seq![],
        root: None,
    }
}

/// Reading a document from builder state `bv`: tokens are fed until the
/// first element under the outer one is complete; running out of bytes, a
/// malformed token or a refused one is an error.
pub open spec fn parse_spec(bv: BuilderV, b: Seq<u8>) -> Result<ElemV, Error>
    decreases b.len(),
{
    if b.len() == 0 {
        Err(Error::Lexical)
    } else {
        match lex(b) {
            LexedV::Token(t, n) => if 1 <= n <= b.len() {
                match step_spec(bv, t) {
                    Err(e) => Err(e),
                    Ok(v) => if v.queue.len() > 0 {
                        Ok(v.queue[0])
                    } else {
                        parse_spec(v, b.skip(n))
                    },
                }
            } else {
                Err(Error::Lexical)
            },
            _ => Err(Error::Lexical),
        }
    }
}

/// Parses a standalone XML document into its root element. Whitespace around
/// the root is allowed; anything after it is ignored.
pub fn parse_document(s: &str) -> (r: Result<Element, Error>)
    ensures
        match r {
            Ok(e) => parse_spec(doc_start(), encode_utf8(s@)) == Ok::<ElemV, Error>(elem_view(e)),
            Err(x) => parse_spec(doc_start(), encode_utf8(s@)) == Err::<ElemV, Error>(x),
        },
{
    let b = s.as_bytes();
    let outer = Element { name: String::new(), ns: None, attrs: Vec::new(), children: Vec::new() };
    let mut builder = TreeBuilder {
        stack: vec![outer],
        qnames: vec![Vec::new()],
        scopes: vec![Vec::new()],
        queue: Vec::new(),
        root: None,
    };
    proof {
        let o = builder.stack@[0];
        assert(crate::element::children_view(o, 0) == Seq::<NodeV>::empty());
        assert(attr_pairs_view(o.attrs@) =~= Seq::<(Seq<char>, Seq<char>)>::empty());
        assert(elem_view(o) == doc_start().stack[0]);
        assert(builder.view().stack =~= doc_start().stack);
        assert(builder.view().qnames =~= doc_start().qnames);
        assert(decls_view(builder.scopes@[0]@) =~= Seq::<(Seq<u8>, Seq<char>)>::empty());
        assert(builder.view().scopes =~= doc_start().scopes);
        assert(builder.view().queue =~= doc_start().queue);
        assert(builder.view() =~= doc_start());
        assert(b@.skip(0) =~= b@);
    }
    let mut pos: usize = 0;
    while pos < b.len()
        invariant
            builder.wf(),
            pos <= b@.len(),
            b@ == encode_utf8(s@),
            builder.queue@.len() == 0,
            parse_spec(doc_start(), b@) == parse_spec(builder.view(), b@.skip(pos as int)),
        decreases b.len() - pos,
    {
        let rest = copy_range(b, pos, b.len());
        assert(rest@ =~= b@.skip(pos as int));
        match crate::lexer::next_token(rest.as_slice()) {
            crate::lexer::Lexed::Token(t, n) => {
                proof {
                    crate::codec::lemma_lex_token_len(rest@);
                }
                let ghost bv = builder.view();
                let ghost tv = t.view();
                pos = pos + n;
                assert(rest@.skip(n as int) =~= b@.skip(pos as int));
                builder.process(t)?;
                if let Some(e) = builder.unshift_child() {
                    return Ok(e);
                }
            },
            _ => {
                return Err(Error::Lexical);
            },
        }
    }
    assert(b@.skip(pos as int).len() == 0);
    Err(Error::Lexical)
}

pub(crate) fn names_distinct(a: &Vec<(String, String)>) -> (r: bool)
    ensures
        r == attr_names_distinct(attr_pairs_view(a@)),
{
    let ghost v = attr_pairs_view(a@);
    let mut j: usize = 0;
    while j < a.len()
        invariant
            j <= a@.len(),
            v == attr_pairs_view(a@),
            forall|x: int, y: int| 0 <= x < y < j ==> v[x].0 != v[y].0,
        decreases a.len() - j,
    {
        let mut i: usize = 0;
        while i < j
            invariant
                i <= j < a@.len(),
                v == attr_pairs_view(a@),
                forall|x: int, y: int| 0 <= x < y < j ==> v[x].0 != v[y].0,
                forall|x: int| 0 <= x < i ==> v[x].0 != v[j as int].0,
            decreases j - i,
        {
            if crate::text::text_eq(a[i].0.as_str(), a[j].0.as_str()) {
                assert(v[i as int].0 == v[j as int].0);
                return false;
            }
            i = i + 1;
        }
        j = j + 1;
    }
    true
}

fn prefixes_distinct_exec(d: &Vec<(Vec<u8>, String)>) -> (r: bool)
    ensures
        r == prefixes_distinct(decls_view(d@)),
{
    let ghost v = decls_view(d@);
    let mut j: usize = 0;
    while j < d.len()
        invariant
            j <= d@.len(),
            v == decls_view(d@),
            forall|x: int, y: int| 0 <= x < y < j ==> v[x].0 != v[y].0,
        decreases d.len() - j,
    {
        let mut i: usize = 0;
        while i < j
            invariant
                i <= j < d@.len(),
                v == decls_view(d@),
                forall|x: int, y: int| 0 <= x < y < j ==> v[x].0 != v[y].0,
                forall|x: int| 0 <= x < i ==> v[x].0 != v[j as int].0,
            decreases j - i,
        {
            if bytes_eq(&d[i].0, &d[j].0) {
                assert(v[i as int].0 == v[j as int].0);
                return false;
            }
            i = i + 1;
        }
        j = j + 1;
    }
    true
}

/// Whether two byte strings are equal.
proof fn lemma_closed_view(o: TreeBuilder, n: TreeBuilder)
    requires
        o.wf(),
        n.wf(),
        closed_top(o, n),
    ensures
        n.view() == close_spec(o.view()),
{
    let d = o.stack@.len() as int;
    let ov = o.view();
    let e = o.stack@[d - 1];
    assert(ov.stack.last() == elem_view(e));
    assert(n.view().qnames =~= ov.qnames.drop_last());
    assert(n.view().scopes =~= ov.scopes.drop_last());
    if d == 1 {
        assert(n.view().stack =~= ov.stack.drop_last());
    } else if d == 2 {
        assert(n.view().stack =~= ov.stack.drop_last());
        assert(n.view().queue =~= ov.queue.push(elem_view(e)));
    } else {
        let p = o.stack@[d - 2];
        let q = n.stack@[d - 2];
        lemma_elem_view_push(p, q, Node::Element(e));
        assert forall|i: int| 0 <= i < d - 2 implies n.stack@[i] == o.stack@[i] by {
            assert(n.stack@.take(d - 2)[i] == o.stack@.take(d - 2)[i]);
        }
        assert(n.view().stack =~= close_spec(ov).stack);
    }
    assert(n.view() =~= close_spec(ov));
}

proof fn lemma_pushed_view(o: TreeBuilder, n: TreeBuilder, name: Seq<u8>, raw: Seq<(Seq<u8>, Seq<u8>)>)
    requires
        o.wf(),
        n.wf(),
        pushed(o, n, name, raw),
    ensures
        n.view() == push_spec(o.view(), name, raw),
{
    let ov = o.view();
    let e = n.stack@.last();
    assert(children_view_empty(e));
    assert forall|i: int| 0 <= i < o.stack@.len() implies n.stack@[i] == o.stack@[i] by {
        assert(n.stack@.drop_last()[i] == o.stack@[i]);
    }
    assert(n.view().stack =~= push_spec(ov, name, raw).stack);
    assert forall|i: int| 0 <= i < o.qnames@.len() implies n.qnames@[i] == o.qnames@[i] by {
        assert(n.qnames@.drop_last()[i] == o.qnames@[i]);
    }
    assert(n.view().qnames =~= ov.qnames.push(name));
    assert(n.view() =~= push_spec(ov, name, raw));
}

pub open spec fn children_view_empty(e: Element) -> bool {
    e.children@.len() == 0 ==> crate::element::children_view(e, 0) == Seq::<NodeV>::empty()
}

proof fn lemma_apply_view(o: TreeBuilder, n: TreeBuilder, t: TokenV, r: Result<(), Error>)
    requires
        o.wf(),
        n.wf(),
        r is Err ==> n == o,
        match t {
            TokenV::Decl => r is Ok && n == o,
            TokenV::Text(raw) => if o.stack@.len() >= 2 {
                &&& (r is Ok <==> decoded(raw) is Some)
                &&& r is Err ==> r == Err::<(), Error>(Error::Lexical)
                &&& r is Ok ==> {
                    let d = o.stack@.len();
                    let p = o.stack@[d - 1];
                    let q = n.stack@[d - 1];
                    &&& n.stack@.len() == d
                    &&& n.stack@.drop_last() == o.stack@.drop_last()
                    &&& q.name == p.name && q.ns == p.ns && q.attrs == p.attrs
                    &&& q.children@.drop_last() == p.children@
                    &&& q.children@.len() == p.children@.len() + 1
                    &&& q.children@.last() matches Node::Text(x) && Some(x@) == decoded(raw)
                    &&& n.qnames == o.qnames
                    &&& n.scopes == o.scopes
                    &&& n.queue == o.queue
                    &&& n.root == o.root
                }
            } else {
                r is Ok && n == o
            },
            TokenV::End(name) => {
                let ok = o.stack@.len() >= 1 && o.qnames@.last()@ == name;
                &&& (r is Ok <==> ok)
                &&& r is Err ==> r == Err::<(), Error>(Error::Unbalanced)
                &&& r is Ok ==> closed_top(o, n)
            },
            TokenV::Start(name, raw, empty) => {
                &&& !start_decodes(name, raw) <==> r == Err::<(), Error>(Error::Lexical)
                &&& (start_decodes(name, raw) && !start_resolves(o.scopes_view(), name, raw))
                    <==> r == Err::<(), Error>(Error::Unbalanced)
                &&& r is Err ==> r == Err::<(), Error>(Error::Lexical) || r == Err::<(), Error>(Error::Unbalanced)
                &&& r is Ok ==> if empty {
                    exists|mid: TreeBuilder| mid.wf() && #[trigger] pushed(o, mid, name, raw)
                        && closed_top(mid, n)
                } else {
                    pushed(o, n, name, raw)
                }
            },
        },
    ensures
        match step_spec(o.view(), t) {
            Ok(v) => r is Ok && n.view() == v,
            Err(e) => r == Err::<(), Error>(e) && n == o,
        },
{
    reveal(step_spec);
    let ov = o.view();
    match t {
        TokenV::Decl => {},
        TokenV::Text(raw) => {
            if o.stack@.len() >= 2 && r is Ok {
                let d = o.stack@.len() as int;
                let p = o.stack@[d - 1];
                let q = n.stack@[d - 1];
                assert(q.children@ =~= p.children@.push(q.children@.last()));
                lemma_elem_view_push(p, q, q.children@.last());
                assert forall|i: int| 0 <= i < d - 1 implies n.stack@[i] == o.stack@[i] by {
                    assert(n.stack@.drop_last()[i] == o.stack@.drop_last()[i]);
                }
                assert(n.view().stack =~= step_spec(ov, t)->Ok_0.stack);
                assert(n.view() =~= step_spec(ov, t)->Ok_0);
            }
        },
        TokenV::End(name) => {
            if o.stack@.len() >= 1 {
                assert(ov.qnames.last() == o.qnames@.last()@);
            }
            if r is Ok {
                lemma_closed_view(o, n);
            }
        },
        TokenV::Start(name, raw, empty) => {
            if r is Ok {
                if empty {
                    let mid = choose|mid: TreeBuilder| mid.wf() && #[trigger] pushed(o, mid, name, raw)
                        && closed_top(mid, n);
                    lemma_pushed_view(o, mid, name, raw);
                    lemma_closed_view(mid, n);
                } else {
                    lemma_pushed_view(o, n, name, raw);
                }
            }
        },
    }
}

/// Whether two byte strings are equal.
pub fn bytes_eq(a: &Vec<u8>, b: &Vec<u8>) -> (r: bool)
    ensures
        r == (a@ == b@),
{
    if a.len() != b.len() {
        return false;
    }
    let mut i: usize = 0;
    while i < a.len()
        invariant
            a@.len() == b@.len(),
            i <= a@.len(),
            forall|j: int| 0 <= j < i ==> a@[j] == b@[j],
        decreases a.len() - i,
    {
        if a[i] != b[i] {
            return false;
        }
        i = i + 1;
    }
    assert(a@ =~= b@);
    true
}

fn lookup_exec(d: &Vec<(Vec<u8>, String)>, p: &Vec<u8>) -> (r: Option<String>)
    ensures
        opt_view(r) == lookup(decls_view(d@), p@, d@.len() as int),
{
    let mut n = d.len();
    while n > 0
        invariant
            n <= d@.len(),
            lookup(decls_view(d@), p@, d@.len() as int) == lookup(decls_view(d@), p@, n as int),
        decreases n,
    {
        if bytes_eq(&d[n - 1].0, p) {
            return Some(d[n - 1].1.clone());
        }
        n = n - 1;
    }
    None
}

} // verus!
