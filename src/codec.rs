//! The stream codec: bytes to protocol events, and events to bytes.

use vstd::prelude::*;
use vstd::utf8::{decode_utf8, encode_utf8};
use crate::element::{Element, element_xml, opt_view, write_element};
use crate::error::Error;
use crate::lexer::{Lexed, LexedV, copy_range, lex, next_token};
use crate::text::{escaped, escape, push_char, push_str, utf8_string};
use crate::element::attr_pairs_view;
use crate::tree::{
    BuilderV, TreeBuilder, attr_names_distinct, decls_view, elems_view, names_distinct, step_spec,
};
use crate::element::{ElemV, elem_view};
use vstd::utf8::valid_utf8;

verus! {

/// Free space that the output buffer is given before an event is encoded, so
/// that a large stanza is written in one piece.
pub const MAX_STANZA_SIZE: usize = 65536;

/// Anything that can be sent or received on an XMPP stream.
#[derive(Debug, PartialEq, Eq)]
pub enum Packet {
    /// `<stream:stream>` start tag, with its attributes and namespace
    /// declarations.
    StreamStart(Vec<(String, String)>),
    /// A complete stanza or nonza.
    Stanza(Element),
    /// Plain text (a whitespace keep-alive).
    Text(String),
    /// `</stream:stream>` closing tag.
    StreamEnd,
}

/// What an event holds, as mathematical values.
pub ghost enum PacketV {
    StreamStart(Seq<(Seq<char>, Seq<char>)>),
    Stanza(ElemV),
    Text(Seq<char>),
    StreamEnd,
}

impl Packet {
    pub open spec fn view(&self) -> PacketV {
        match self {
            Packet::StreamStart(a) => PacketV::StreamStart(attr_pairs_view(a@)),
            Packet::Stanza(e) => PacketV::Stanza(elem_view(*e)),
            Packet::Text(t) => PacketV::Text(t@),
            Packet::StreamEnd => PacketV::StreamEnd,
        }
    }
}

/// Whether every prefix that a scope declares is valid UTF-8.
pub open spec fn scope_valid(d: Seq<(Seq<u8>, Seq<char>)>) -> bool {
    forall|j: int| 0 <= j < d.len() ==> valid_utf8(#[trigger] d[j].0)
}

/// The attributes of a stream header: those of the root, then one
/// `xmlns[:prefix]` entry per namespace declaration.
pub open spec fn stream_attrs_spec(v: BuilderV) -> Seq<(Seq<char>, Seq<char>)> {
    v.stack[0].attrs + decl_attrs(v.scopes[0], v.scopes[0].len() as int)
}

/// The outcome of decoding: the result, the builder after it, and the number
/// of bytes taken from the front of the buffer.
pub type DecodeOut = (Result<Option<PacketV>, Error>, BuilderV, int);

pub open spec fn shifted(k: int, o: DecodeOut) -> DecodeOut {
    (o.0, o.1, k + o.2)
}

/// Decoding from builder state `bv` and buffered bytes `b`: tokens are read
/// and fed to the builder one by one until an event is complete (a stream
/// header when the root opens, a stanza when a child of the root closes, the
/// end when the root closes), the bytes run out in the middle of a token, or
/// an error is met.
pub open spec fn decode_spec(bv: BuilderV, b: Seq<u8>) -> DecodeOut
    decreases b.len(),
{
    match lex(b) {
        LexedV::NeedMore => (Ok(None), bv, 0),
        LexedV::Malformed => (Err(Error::Lexical), bv, 0),
        LexedV::Token(t, n) => if n < 1 || n > b.len() {
            (Err(Error::Lexical), bv, 0)
        } else {
            match step_spec(bv, t) {
                Err(e) => (Err(e), bv, n),
                Ok(v) => if bv.stack.len() == 0 && v.stack.len() > 0 {
                    if scope_valid(v.scopes[0]) && attr_names_distinct(stream_attrs_spec(v)) {
                        (Ok(Some(PacketV::StreamStart(stream_attrs_spec(v)))), v, n)
                    } else {
                        (Err(Error::Lexical), v, n)
                    }
                } else if v.stack.len() == 1 {
                    if v.queue.len() > 0 {
                        (
                            Ok(Some(PacketV::Stanza(v.queue[0]))),
                            BuilderV { queue: v.queue.drop_first(), ..v },
                            n,
                        )
                    } else {
                        shifted(n, decode_spec(v, b.skip(n)))
                    }
                } else if v.root is Some {
                    (Ok(Some(PacketV::StreamEnd)), BuilderV { root: None, ..v }, n)
                } else {
                    shifted(n, decode_spec(v, b.skip(n)))
                },
            }
        },
    }
}

/// Decoding does not depend on where the input was cut. An event or an error
/// decoded from the front part of some input is what decoding all of it
/// gives; and where the front part only yields "no event yet", decoding all
/// of it is decoding the bytes left over, followed by the rest, from the state
/// reached.
#[verifier::rlimit(100)]
pub proof fn lemma_decode_extend(bv: BuilderV, b1: Seq<u8>, b2: Seq<u8>)
    ensures
        decode_spec(bv, b1).0 != Ok::<Option<PacketV>, Error>(None) ==> decode_spec(bv, b1 + b2)
            == decode_spec(bv, b1),
        decode_spec(bv, b1).0 == Ok::<Option<PacketV>, Error>(None) ==> {
            let (_, v, n) = decode_spec(bv, b1);
            &&& 0 <= n <= b1.len()
            &&& decode_spec(bv, b1 + b2) == shifted(n, decode_spec(v, b1.skip(n) + b2))
        },
    decreases b1.len(),
{
    let b = b1 + b2;
    crate::lexer::lemma_lex_extend(b1, b2);
    lemma_lex_token_len(b1);
    match lex(b1) {
        LexedV::NeedMore => {
            assert(b1.skip(0) + b2 =~= b);
            assert(shifted(0, decode_spec(bv, b)) == decode_spec(bv, b));
        },
        LexedV::Malformed => {},
        LexedV::Token(t, n) => {
            assert(lex(b) == lex(b1));
            assert(b.skip(n) =~= b1.skip(n) + b2);
            match step_spec(bv, t) {
                Err(_) => {},
                Ok(v) => {
                    lemma_decode_extend(v, b1.skip(n), b2);
                    let x = decode_spec(v, b1.skip(n));
                    if x.0 == Ok::<Option<PacketV>, Error>(None) {
                        let m = x.2;
                        assert(b1.skip(n).skip(m) =~= b1.skip(n + m));
                        let y = decode_spec(x.1, b1.skip(n + m) + b2);
                        assert(shifted(n, shifted(m, y)) == shifted(n + m, y));
                    }
                },
            }
        },
    }
}

/// The attribute name that declares prefix `p`: `xmlns`, or `xmlns:p`.
pub open spec fn xmlns_name(p: Seq<u8>) -> Seq<char> {
    if p.len() == 0 {
        seq!['x', 'm', 'l', 'n', 's']
    } else {
        seq!['x', 'm', 'l', 'n', 's', ':'] + decode_utf8(p)
    }
}

/// The first `n` namespace declarations written back as attributes.
pub open spec fn decl_attrs(d: Seq<(Seq<u8>, Seq<char>)>, n: int) -> Seq<(Seq<char>, Seq<char>)>
    decreases n,
{
    if n <= 0 || n > d.len() {
        seq![]
    } else {
        decl_attrs(d, n - 1).push((xmlns_name(d[n - 1].0), d[n - 1].1))
    }
}

/// The first `n` stream attributes, each written ` name="value"`.
pub open spec fn start_attrs_xml(a: Seq<(String, String)>, n: int) -> Seq<char>
    decreases n,
{
    if n <= 0 || n > a.len() {
        seq![]
    } else {
        start_attrs_xml(a, n - 1) + seq![' '] + escaped(a[n - 1].0@) + seq!['=', '"'] + escaped(
            a[n - 1].1@,
        ) + seq!['"']
    }
}

/// The wire form of an event.
pub open spec fn packet_xml(p: Packet) -> Seq<char> {
    match p {
        Packet::StreamStart(a) => seq!['<', 's', 't', 'r', 'e', 'a', 'm', ':', 's', 't', 'r', 'e', 'a', 'm']
            + start_attrs_xml(a@, a@.len() as int) + seq!['>', '\n'],
        Packet::Stanza(e) => element_xml(e, None),
        Packet::Text(t) => escaped(t@),
        Packet::StreamEnd => seq!['<', '/', 's', 't', 'r', 'e', 'a', 'm', ':', 's', 't', 'r', 'e', 'a', 'm', '>', '\n'],
    }
}

/// The value of the last attribute named `xmlns` among the first `n`, if any.
pub open spec fn last_xmlns(a: Seq<(String, String)>, n: int) -> Option<Seq<char>>
    decreases n,
{
    if n <= 0 || n > a.len() {
        None
    } else if a[n - 1].0@ == seq!['x', 'm', 'l', 'n', 's'] {
        Some(a[n - 1].1@)
    } else {
        last_xmlns(a, n - 1)
    }
}

impl Default for XMPPCodec {
    fn default() -> (r: XMPPCodec)
        ensures
            r.wf(),
            r.depth() == 0,
            r.ns is None,
            !r.failed,
    {
        XMPPCodec::new()
    }
}

/// Stateful encoder and decoder between bytes and `Packet`s.
pub struct XMPPCodec {
    /// The default namespace announced by the last stream header sent.
    pub ns: Option<String>,
    /// The incoming parse.
    pub builder: TreeBuilder,
    /// Set once a fatal error was met: no further events come out.
    pub failed: bool,
}

fn append_bytes(dst: &mut Vec<u8>, b: &[u8])
    ensures
        final(dst)@ == old(dst)@ + b@,
{
    let mut i: usize = 0;
    while i < b.len()
        invariant
            i <= b@.len(),
            dst@ == old(dst)@ + b@.take(i as int),
        decreases b.len() - i,
    {
        dst.push(b[i]);
        assert(b@.take(i + 1) =~= b@.take(i as int).push(b@[i as int]));
        i = i + 1;
    }
    assert(b@.take(b@.len() as int) =~= b@);
}

fn write_str(dst: &mut Vec<u8>, s: &str)
    ensures
        final(dst)@ == old(dst)@ + encode_utf8(s@),
{
    append_bytes(dst, s.as_bytes());
}

pub(crate) proof fn lemma_lex_token_len(b: Seq<u8>)
    ensures
        lex(b) matches LexedV::Token(_, n) ==> 1 <= n <= b.len(),
{
    crate::lexer::lemma_find_from_bounds(b, 0, crate::lexer::LT);
    crate::lexer::lemma_tag_end_bounds(b, 1, 0);
}

impl XMPPCodec {
    /// Between two calls nothing is queued and no closed root is held.
    pub open spec fn wf(&self) -> bool {
        &&& self.builder.wf()
        &&& self.builder.queue@.len() == 0
        &&& self.builder.root is None
    }

    /// The number of open elements of the incoming stream.
    pub open spec fn depth(&self) -> nat {
        self.builder.stack@.len()
    }

    /// A codec that expects a stream header.
    pub fn new() -> (r: XMPPCodec)
        ensures
            r.wf(),
            r.depth() == 0,
            r.ns is None,
            !r.failed,
    {
        XMPPCodec { ns: None, builder: TreeBuilder::new(), failed: false }
    }

    /// Discards all parsing state: the next event expected is a new stream
    /// header.
    pub fn reset(&mut self)
        ensures
            final(self).wf(),
            final(self).depth() == 0,
            !final(self).failed,
            final(self).ns == old(self).ns,
    {
        self.builder = TreeBuilder::new();
        self.failed = false;
    }

    /// Decodes at most one event from the front of `buf`, taking the bytes it
    /// used. `Ok(None)` means that the bytes left are only the start of a
    /// token; they stay for the next call.
    pub fn decode(&mut self, buf: &mut Vec<u8>) -> (r: Result<Option<Packet>, Error>)
        requires
            old(self).wf(),
        ensures
            final(self).wf(),
            old(self).failed ==> r is Err && final(buf)@ == old(buf)@ && final(self).builder
                == old(self).builder,
            r is Err <==> final(self).failed,
            !old(self).failed ==> {
                let (res, v, n) = decode_spec(old(self).builder.view(), old(buf)@);
                &&& match r {
                    Ok(None) => res == Ok::<Option<PacketV>, Error>(None),
                    Ok(Some(p)) => res == Ok::<Option<PacketV>, Error>(Some(p.view())),
                    Err(e) => res == Err::<Option<PacketV>, Error>(e),
                }
                &&& final(self).builder.view() == v
                &&& 0 <= n <= old(buf)@.len()
                &&& final(buf)@ == old(buf)@.skip(n)
            },
            final(buf)@.len() <= old(buf)@.len(),
            r == Ok::<Option<Packet>, Error>(None) ==> lex(final(buf)@) is NeedMore,
            r matches Ok(Some(Packet::StreamStart(a))) ==> old(self).depth() == 0
                && final(self).depth() == 1 && attr_names_distinct(attr_pairs_view(a@)),
            r matches Ok(Some(Packet::Stanza(_))) ==> old(self).depth() >= 1 && final(self).depth()
                == 1,
            r matches Ok(Some(Packet::StreamEnd)) ==> final(self).depth() == 0,
            !(r matches Ok(Some(Packet::Text(_)))),
            final(self).ns == old(self).ns,
    {
        if self.failed {
            return Err(Error::Lexical);
        }
        let ghost d0 = self.depth();
        let ghost mut k: int = 0;
        assert(old(buf)@.skip(0) =~= old(buf)@);
        loop
            invariant
                self.wf(),
                !self.failed,
                !old(self).failed,
                buf@.len() <= old(buf)@.len(),
                buf@ == old(buf)@.skip(old(buf)@.len() - buf@.len()),
                d0 == old(self).depth(),
                d0 == 0 ==> self.depth() == 0,
                d0 >= 1 ==> self.depth() >= 1,
                self.ns == old(self).ns,
                0 <= k <= old(buf)@.len(),
                buf@ == old(buf)@.skip(k),
                decode_spec(old(self).builder.view(), old(buf)@) == shifted(
                    k,
                    decode_spec(self.builder.view(), buf@),
                ),
            decreases buf@.len(),
        {
            let ghost bv = self.builder.view();
            let ghost before = buf@;
            match next_token(buf.as_slice()) {
                Lexed::NeedMore => {
                    assert(decode_spec(bv, before) == (Ok::<Option<PacketV>, Error>(None), bv, 0int));
                    assert(before.skip(0) =~= before);
                    return Ok(None);
                },
                Lexed::Malformed => {
                    assert(decode_spec(bv, before) == (Err::<Option<PacketV>, Error>(Error::Lexical), bv, 0int));
                    assert(before.skip(0) =~= before);
                    self.failed = true;
                    return Err(Error::Lexical);
                },
                Lexed::Token(tok, n) => {
                    proof {
                        lemma_lex_token_len(buf@);
                    }
                    let ghost tv = tok.view();
                    let rest = copy_range(buf.as_slice(), n, buf.len());
                    *buf = rest;
                    assert(buf@ =~= before.skip(n as int));
                    assert(buf@ =~= old(buf)@.skip(k + n));
                    let had = self.builder.depth() > 0;
                    let ghost old_depth = self.builder.stack@.len();
                    match self.builder.process(tok) {
                        Err(e) => {
                            assert(decode_spec(bv, before) == (Err::<Option<PacketV>, Error>(e), bv, n as int));
                            self.failed = true;
                            return Err(e);
                        },
                        Ok(()) => {},
                    }
                    let ghost v = self.builder.view();
                    assert(step_spec(bv, tv) == Ok::<BuilderV, Error>(v));
                    let has = self.builder.depth() > 0;
                    assert(bv.stack.len() == old_depth);
                    assert(v.stack.len() == self.builder.stack@.len());
                    if !had && has {
                        return match self.stream_attrs() {
                            Some(a) => {
                                assert(v.scopes[0] == decls_view(self.builder.scopes@[0]@));
                                assert(v.stack[0] == elem_view(self.builder.stack@[0]));
                                assert(attr_pairs_view(a@) == stream_attrs_spec(v));
                                if !names_distinct(&a) {
                                    assert(decode_spec(bv, before) == (Err::<Option<PacketV>, Error>(Error::Lexical), v, n as int));
                                    self.failed = true;
                                    return Err(Error::Lexical);
                                }
                                assert(decode_spec(bv, before) == (
                                    Ok::<Option<PacketV>, Error>(Some(PacketV::StreamStart(stream_attrs_spec(v)))),
                                    v,
                                    n as int,
                                ));
                                Ok(Some(Packet::StreamStart(a)))
                            },
                            None => {
                                assert(v.scopes[0] == decls_view(self.builder.scopes@[0]@));
                                assert(decode_spec(bv, before) == (Err::<Option<PacketV>, Error>(Error::Lexical), v, n as int));
                                self.failed = true;
                                Err(Error::Lexical)
                            },
                        };
                    } else if self.builder.depth() == 1 {
                        if let Some(st) = self.builder.unshift_child() {
                            assert(decode_spec(bv, before) == (
                                Ok::<Option<PacketV>, Error>(Some(PacketV::Stanza(v.queue[0]))),
                                BuilderV { queue: v.queue.drop_first(), ..v },
                                n as int,
                            ));
                            return Ok(Some(Packet::Stanza(st)));
                        }
                        assert(decode_spec(bv, before) == shifted(n as int, decode_spec(v, buf@)));
                    } else if let Some(_) = self.builder.take_root() {
                        assert(decode_spec(bv, before) == (
                            Ok::<Option<PacketV>, Error>(Some(PacketV::StreamEnd)),
                            BuilderV { root: None, ..v },
                            n as int,
                        ));
                        return Ok(Some(Packet::StreamEnd));
                    } else {
                        assert(decode_spec(bv, before) == shifted(n as int, decode_spec(v, buf@)));
                    }
                    proof {
                        let x = decode_spec(v, buf@);
                        assert(shifted(k, shifted(n as int, x)) == shifted(k + n, x));
                        k = k + n;
                    }
                },
            }
        }
    }

    /// Decodes at the end of the input: the same as `decode`.
    pub fn decode_eof(&mut self, buf: &mut Vec<u8>) -> (r: Result<Option<Packet>, Error>)
        requires
            old(self).wf(),
        ensures
            final(self).wf(),
            old(self).failed ==> r is Err && final(buf)@ == old(buf)@ && final(self).builder
                == old(self).builder,
            r is Err <==> final(self).failed,
            !old(self).failed ==> {
                let (res, v, n) = decode_spec(old(self).builder.view(), old(buf)@);
                &&& match r {
                    Ok(None) => res == Ok::<Option<PacketV>, Error>(None),
                    Ok(Some(p)) => res == Ok::<Option<PacketV>, Error>(Some(p.view())),
                    Err(e) => res == Err::<Option<PacketV>, Error>(e),
                }
                &&& final(self).builder.view() == v
                &&& 0 <= n <= old(buf)@.len()
                &&& final(buf)@ == old(buf)@.skip(n)
            },
            final(buf)@.len() <= old(buf)@.len(),
            r == Ok::<Option<Packet>, Error>(None) ==> lex(final(buf)@) is NeedMore,
            r matches Ok(Some(Packet::StreamStart(a))) ==> old(self).depth() == 0
                && final(self).depth() == 1 && attr_names_distinct(attr_pairs_view(a@)),
            r matches Ok(Some(Packet::Stanza(_))) ==> old(self).depth() >= 1 && final(self).depth()
                == 1,
            r matches Ok(Some(Packet::StreamEnd)) ==> final(self).depth() == 0,
            !(r matches Ok(Some(Packet::Text(_)))),
            final(self).ns == old(self).ns,
    {
        self.decode(buf)
    }

    fn stream_attrs(&self) -> (r: Option<Vec<(String, String)>>)
        requires
            self.builder.wf(),
            self.builder.stack@.len() >= 1,
        ensures
            r is None ==> !scope_valid(decls_view(self.builder.scopes@[0]@)),
            r is Some ==> scope_valid(decls_view(self.builder.scopes@[0]@)),
            r matches Some(a) ==> attr_pairs_view(a@) == attr_pairs_view(self.builder.stack@[0].attrs@)
                + decl_attrs(
                decls_view(self.builder.scopes@[0]@),
                self.builder.scopes@[0]@.len() as int,
            ),
    {
        let root = &self.builder.stack[0];
        let mut a: Vec<(String, String)> = Vec::new();
        let mut i: usize = 0;
        while i < root.attrs.len()
            invariant
                i <= root.attrs@.len(),
                attr_pairs_view(a@) == attr_pairs_view(root.attrs@.take(i as int)),
            decreases root.attrs.len() - i,
        {
            let ghost ga = attr_pairs_view(a@);
            a.push((root.attrs[i].0.clone(), root.attrs[i].1.clone()));
            assert(attr_pairs_view(a@) =~= ga.push((root.attrs@[i as int].0@, root.attrs@[i as int].1@)));
            assert(attr_pairs_view(root.attrs@.take(i + 1)) =~= attr_pairs_view(root.attrs@.take(i as int)).push((root.attrs@[i as int].0@, root.attrs@[i as int].1@)));
            i = i + 1;
        }
        assert(root.attrs@.take(root.attrs@.len() as int) =~= root.attrs@);
        let scope = &self.builder.scopes[0];
        let ghost base = attr_pairs_view(a@);
        let ghost dv = decls_view(scope@);
        let mut j: usize = 0;
        assert(base + decl_attrs(dv, 0) =~= base);
        while j < scope.len()
            invariant
                j <= scope@.len(),
                dv == decls_view(scope@),
                attr_pairs_view(a@) == base + decl_attrs(dv, j as int),
                forall|x: int| 0 <= x < j ==> valid_utf8(#[trigger] dv[x].0),
                self.builder.wf(),
                self.builder.stack@.len() >= 1,
                *scope == self.builder.scopes@[0],
            decreases scope.len() - j,
        {
            let p = &scope[j].0;
            let mut name = String::new();
            if p.len() == 0 {
                push_str(&mut name, "xmlns");
                proof {
                    reveal_strlit("xmlns");
                    assert(name@ =~= xmlns_name(p@));
                }
            } else {
                match utf8_string(p.as_slice()) {
                    Some(ps) => {
                        push_str(&mut name, "xmlns:");
                        push_str(&mut name, ps.as_str());
                        proof {
                            reveal_strlit("xmlns:");
                            assert(name@ =~= xmlns_name(p@));
                        }
                    },
                    None => {
                        assert(dv[j as int].0 == p@);
                        assert(!valid_utf8(dv[j as int].0));
                        assert(dv == decls_view(self.builder.scopes@[0]@));
                        assert(!scope_valid(dv));
                        return None;
                    },
                }
            }
            assert(dv[j as int].0 == p@);
            assert(p@.len() == 0 ==> valid_utf8(p@));
            let ghost ga = attr_pairs_view(a@);
            a.push((name, scope[j].1.clone()));
            assert(attr_pairs_view(a@) =~= ga.push((xmlns_name(p@), scope@[j as int].1@)));
            assert(base + decl_attrs(dv, j + 1) =~= (base + decl_attrs(dv, j as int)).push(
                (xmlns_name(p@), scope@[j as int].1@),
            ));
            j = j + 1;
        }
        Some(a)
    }

    /// Writes the wire form of `item` after the bytes already in `dst`, once
    /// `dst` has room for at least `MAX_STANZA_SIZE` more bytes. A stream
    /// header with an `xmlns` attribute records that namespace.
    pub fn encode(&mut self, item: Packet, dst: &mut Vec<u8>)
        ensures
            final(dst)@ == old(dst)@ + encode_utf8(packet_xml(item)),
            final(self).builder == old(self).builder,
            final(self).failed == old(self).failed,
            item matches Packet::StreamStart(a) ==> match last_xmlns(a@, a@.len() as int) {
                Some(v) => opt_view(final(self).ns) == Some(v),
                None => final(self).ns == old(self).ns,
            },
            !(item is StreamStart) ==> final(self).ns == old(self).ns,
    {
        dst.reserve(MAX_STANZA_SIZE);
        let mut s = String::new();
        match &item {
            Packet::StreamStart(a) => {
                push_str(&mut s, "<stream:stream");
                proof { reveal_strlit("<stream:stream"); }
                let mut i: usize = 0;
                assert(s@ =~= seq!['<', 's', 't', 'r', 'e', 'a', 'm', ':', 's', 't', 'r', 'e', 'a', 'm'] + start_attrs_xml(a@, 0));
                while i < a.len()
                    invariant
                        i <= a@.len(),
                        s@ == seq!['<', 's', 't', 'r', 'e', 'a', 'm', ':', 's', 't', 'r', 'e', 'a', 'm'] + start_attrs_xml(a@, i as int),
                        match last_xmlns(a@, i as int) {
                            Some(v) => opt_view(self.ns) == Some(v),
                            None => self.ns == old(self).ns,
                        },
                        self.builder == old(self).builder,
                        self.failed == old(self).failed,
                    decreases a.len() - i,
                {
                    let ghost before = s@;
                    push_char(&mut s, ' ');
                    let en = escape(a[i].0.as_str());
                    push_str(&mut s, en.as_str());
                    push_char(&mut s, '=');
                    push_char(&mut s, '"');
                    let ev = escape(a[i].1.as_str());
                    push_str(&mut s, ev.as_str());
                    push_char(&mut s, '"');
                    assert(s@ =~= before + seq![' '] + escaped(a@[i as int].0@) + seq!['=', '"'] + escaped(a@[i as int].1@) + seq!['"']);
                    proof {
                        reveal_strlit("xmlns");
                        assert("xmlns"@ =~= seq!['x', 'm', 'l', 'n', 's']);
                    }
                    if crate::text::text_eq(a[i].0.as_str(), "xmlns") {
                        assert(a@[i as int].0@ =~= seq!['x', 'm', 'l', 'n', 's']);
                        self.ns = Some(a[i].1.clone());
                    } else {
                        assert(a@[i as int].0@ != seq!['x', 'm', 'l', 'n', 's']);
                    }
                    i = i + 1;
                }
                push_char(&mut s, '>');
                push_char(&mut s, '\n');
            },
            Packet::Stanza(e) => {
                write_element(e, &None, &mut s);
                assert(opt_view(None::<String>) == None::<Seq<char>>);
            },
            Packet::Text(t) => {
                let et = escape(t.as_str());
                push_str(&mut s, et.as_str());
            },
            Packet::StreamEnd => {
                push_str(&mut s, "</stream:stream>\n");
                proof { reveal_strlit("</stream:stream>\n"); }
            },
        }
        assert(s@ =~= packet_xml(item));
        write_str(dst, s.as_str());
    }
}

} // verus!
