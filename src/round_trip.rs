//! What the encoder writes, the tokenizer reads back.

use vstd::prelude::*;
use vstd::utf8::{
    char_u32_cast, decode_utf8, encode_scalar, encode_utf8, encode_utf8_decode_utf8,
    encode_utf8_valid_utf8, has_width_1_encoding,
};
use crate::lexer::{
    APOS, EQUALS, GT, LT, LexedV, QUOT, SLASH, TokenV, find_from, is_name_byte, is_ws, lex,
    name_end, parse_attrs, parse_tag, skip_ws, tag_end,
};
use crate::codec::{Packet, packet_xml};
use crate::element::{Element, Node, attrs_xml, element_xml, nodes_xml, ns_xml, opt_view};
use crate::element::attr_pairs_view;
use crate::text::{escape_char, escaped, lemma_unescape_escaped};
use crate::codec::{PacketV, decode_spec, shifted};
use crate::element::{ElemV, NodeV, children_view, elem_view};
use crate::tree::{
    BuilderV, attr_names_distinct, close_spec, prefixes_distinct, push_spec, start_decodes,
    start_resolves, step_spec,
};
use crate::tree::{
    declared_prefix, decoded, lookup, opened, resolve, sort_attrs, split_qname, xmlns_bytes, COLON,
};

verus! {

proof fn lemma_scalar_ascii(u: u32, x: u8)
    requires
        x < 0x80u8,
    ensures
        forall|i: int|
            0 <= i < encode_scalar(u).len() && #[trigger] encode_scalar(u)[i] == x ==> u
                == x as u32,
{
    assert(forall|y: u8| #[trigger] (0xC0u8 | y) >= 0x80u8) by (bit_vector);
    assert(forall|y: u8| #[trigger] (0xE0u8 | y) >= 0x80u8) by (bit_vector);
    assert(forall|y: u8| #[trigger] (0xF0u8 | y) >= 0x80u8) by (bit_vector);
    assert(forall|y: u8| #[trigger] (0x80u8 | y) >= 0x80u8) by (bit_vector);
    if has_width_1_encoding(u) {
        assert(((u & 0x7F) as u8 == x) ==> u == x as u32) by (bit_vector)
            requires
                u <= 0x7F,
                x < 0x80u8,
        ;
    }
}

/// The encoding of one ASCII character is its code.
proof fn lemma_ascii_encoding(c: char)
    requires
        (c as u32) < 0x80,
    ensures
        encode_utf8(seq![c]) == seq![(c as u32) as u8],
{
    let u = c as u32;
    assert((u & 0x7F) as u8 == u as u8) by (bit_vector)
        requires
            u < 0x80,
    ;
    assert(seq![c].drop_first() =~= Seq::<char>::empty());
    assert(has_width_1_encoding(u));
    assert(encode_scalar(u) == seq![vstd::utf8::leading_byte_width_1(u)]);
    assert(encode_utf8(seq![c]) == encode_scalar(u) + encode_utf8(Seq::<char>::empty()));
    assert(encode_scalar(u) + Seq::<u8>::empty() =~= seq![(c as u32) as u8]);
}

/// Encoding distributes over concatenation.
proof fn lemma_encode_concat(a: Seq<char>, b: Seq<char>)
    ensures
        encode_utf8(a + b) == encode_utf8(a) + encode_utf8(b),
    decreases a.len(),
{
    if a.len() == 0 {
        assert(a + b =~= b);
        assert(Seq::<u8>::empty() + encode_utf8(b) =~= encode_utf8(b));
    } else {
        assert((a + b)[0] == a[0]);
        assert((a + b).drop_first() =~= a.drop_first() + b);
        lemma_encode_concat(a.drop_first(), b);
        assert(encode_scalar(a[0] as u32) + (encode_utf8(a.drop_first()) + encode_utf8(b))
            =~= (encode_scalar(a[0] as u32) + encode_utf8(a.drop_first())) + encode_utf8(b));
    }
}

/// A character sequence without the ASCII character `c` encodes to bytes
/// without its code `x`.
proof fn lemma_encoding_avoids(s: Seq<char>, c: char, x: u8)
    requires
        x < 0x80u8,
        c as u32 == x as u32,
        forall|i: int| 0 <= i < s.len() ==> #[trigger] s[i] != c,
    ensures
        forall|i: int| 0 <= i < encode_utf8(s).len() ==> #[trigger] encode_utf8(s)[i] != x,
        s.len() > 0 ==> encode_utf8(s).len() > 0,
    decreases s.len(),
{
    if s.len() > 0 {
        let rest = s.drop_first();
        assert forall|i: int| 0 <= i < rest.len() implies #[trigger] rest[i] != c by {
            assert(rest[i] == s[i + 1]);
        }
        lemma_encoding_avoids(rest, c, x);
        let u = s[0] as u32;
        lemma_scalar_ascii(u, x);
        if u == x as u32 {
            char_u32_cast(s[0], u);
            char_u32_cast(c, c as u32);
            assert(false);
        }
        let h = encode_scalar(u);
        assert(h.len() > 0);
        let b = encode_utf8(s);
        assert(b == h + encode_utf8(rest));
        assert forall|i: int| 0 <= i < b.len() implies #[trigger] b[i] != x by {
            if i < h.len() {
                assert(b[i] == h[i]);
            } else {
                assert(b[i] == encode_utf8(rest)[i - h.len()]);
            }
        }
    }
}

/// Escaped text holds none of the characters that delimit markup.
proof fn lemma_escaped_plain(t: Seq<char>)
    ensures
        forall|i: int|
            0 <= i < escaped(t).len() ==> #[trigger] escaped(t)[i] != '<' && escaped(t)[i] != '>'
                && escaped(t)[i] != '\'' && escaped(t)[i] != '"',
        t.len() > 0 ==> escaped(t).len() > 0,
    decreases t.len(),
{
    if t.len() > 0 {
        lemma_escaped_plain(t.drop_first());
        let e = escape_char(t[0]);
        let r = escaped(t.drop_first());
        assert forall|i: int| 0 <= i < escaped(t).len() implies #[trigger] escaped(t)[i] != '<'
            && escaped(t)[i] != '>' && escaped(t)[i] != '\'' && escaped(t)[i] != '"' by {
            if i < e.len() {
                assert(escaped(t)[i] == e[i]);
            } else {
                assert(escaped(t)[i] == r[i - e.len()]);
            }
        }
    }
}

proof fn lemma_find_after(b: Seq<u8>, rest: Seq<u8>, i: int, x: u8)
    requires
        0 <= i <= b.len(),
        forall|k: int| 0 <= k < b.len() ==> #[trigger] b[k] != x,
        rest.len() > 0,
        rest[0] == x,
    ensures
        find_from(b + rest, i, x) == Some(b.len() as int),
    decreases b.len() - i,
{
    if i < b.len() {
        assert((b + rest)[i] == b[i]);
        lemma_find_after(b, rest, i + 1, x);
    } else {
        assert((b + rest)[i] == rest[0]);
    }
}

/// Text written by the encoder reads back unchanged: its bytes, followed by
/// the `<` of the next tag, are tokenized as one text run of exactly those
/// bytes, and decoding that run gives the text back.
pub proof fn lemma_text_round_trip(t: Seq<char>, rest: Seq<u8>)
    requires
        t.len() > 0,
        rest.len() > 0,
        rest[0] == LT,
    ensures
        lex(encode_utf8(escaped(t)) + rest) == LexedV::Token(
            TokenV::Text(encode_utf8(escaped(t))),
            encode_utf8(escaped(t)).len() as int,
        ),
        decoded(encode_utf8(escaped(t))) == Some(t),
{
    let e = escaped(t);
    let b = encode_utf8(e);
    lemma_escaped_plain(t);
    lemma_encoding_avoids(e, '<', LT);
    lemma_find_after(b, rest, 0, LT);
    assert((b + rest)[0] == b[0]);
    assert((b + rest).take(b.len() as int) =~= b);
    encode_utf8_valid_utf8(e);
    encode_utf8_decode_utf8(e);
    lemma_unescape_escaped(t);
}


proof fn lemma_tag_end_skip(b: Seq<u8>, i: int, j: int, q: u8)
    requires
        0 <= i <= j <= b.len(),
        forall|x: int|
            i <= x < j ==> (if q == 0 {
                #[trigger] b[x] != GT && b[x] != APOS && b[x] != QUOT
            } else {
                b[x] != q
            }),
    ensures
        tag_end(b, i, q) == tag_end(b, j, q),
    decreases j - i,
{
    if i < j {
        lemma_tag_end_skip(b, i + 1, j, q);
    }
}

proof fn lemma_name_end_skip(c: Seq<u8>, i: int, j: int)
    requires
        0 <= i <= j <= c.len(),
        forall|x: int| i <= x < j ==> is_name_byte(#[trigger] c[x]),
    ensures
        name_end(c, i) == name_end(c, j),
    decreases j - i,
{
    if i < j {
        lemma_name_end_skip(c, i + 1, j);
    }
}

proof fn lemma_find_skip(c: Seq<u8>, i: int, j: int, x: u8)
    requires
        0 <= i <= j <= c.len(),
        forall|y: int| i <= y < j ==> #[trigger] c[y] != x,
    ensures
        find_from(c, i, x) == find_from(c, j, x),
    decreases j - i,
{
    if i < j {
        lemma_find_skip(c, i + 1, j, x);
    }
}

/// The bytes of an opening tag `<name xmlns='value' a='x' ...>`.
pub open spec fn open_tag_bytes(nb: Seq<u8>, vb: Seq<u8>, ps: Seq<(Seq<u8>, Seq<u8>)>) -> Seq<u8> {
    seq![LT] + nb + seq![0x20u8] + xmlns_bytes() + seq![EQUALS, APOS] + vb + seq![APOS]
        + attr_pieces(ps) + seq![GT]
}

proof fn lemma_pieces_last(ps: Seq<(Seq<u8>, Seq<u8>)>)
    ensures
        ps.len() > 0 ==> attr_pieces(ps).len() > 0 && attr_pieces(ps).last() == APOS,
    decreases ps.len(),
{
    if ps.len() > 0 {
        lemma_pieces_last(ps.drop_first());
        let r = attr_pieces(ps.drop_first());
        let h = seq![0x20u8] + ps[0].0 + seq![EQUALS, APOS] + ps[0].1 + seq![APOS];
        assert(attr_pieces(ps) == h + r);
        if r.len() == 0 {
            assert((h + r).last() == h.last());
        } else {
            assert((h + r).last() == r.last());
        }
    }
}

/// An opening tag that declares a default namespace reads back as the start
/// tag it was written from: a name of name bytes, an `xmlns` attribute whose
/// value holds no `'`, then the other attributes.
#[verifier::rlimit(60)]
pub proof fn lemma_open_tag_lexes(
    nb: Seq<u8>,
    vb: Seq<u8>,
    ps: Seq<(Seq<u8>, Seq<u8>)>,
    rest: Seq<u8>,
)
    requires
        nb.len() > 0,
        forall|i: int| 0 <= i < nb.len() ==> is_name_byte(#[trigger] nb[i]) && nb[i] != 0x3Fu8,
        forall|i: int| 0 <= i < vb.len() ==> #[trigger] vb[i] != APOS,
        all_plain(ps),
    ensures
        lex(open_tag_bytes(nb, vb, ps) + rest) == LexedV::Token(
            TokenV::Start(nb, seq![(xmlns_bytes(), vb)] + ps, false),
            open_tag_bytes(nb, vb, ps).len() as int,
        ),
{
    let l = nb.len() as int;
    let v = vb.len() as int;
    let pp = attr_pieces(ps);
    let m = pp.len() as int;
    let o = open_tag_bytes(nb, vb, ps);
    let b = o + rest;
    let x = xmlns_bytes();
    assert(o.len() == 11 + l + v + m);
    // The layout of the tag.
    assert(b[0] == LT);
    assert forall|i: int| 1 <= i < 1 + l implies #[trigger] b[i] == nb[i - 1] by {}
    assert(b[1 + l] == 0x20u8);
    assert forall|i: int| 2 + l <= i < 7 + l implies #[trigger] b[i] == x[i - 2 - l] by {}
    assert(b[7 + l] == EQUALS);
    assert(b[8 + l] == APOS);
    assert forall|i: int| 9 + l <= i < 9 + l + v implies #[trigger] b[i] == vb[i - 9 - l] by {}
    assert(b[9 + l + v] == APOS);
    assert forall|i: int| 10 + l + v <= i < 10 + l + v + m implies #[trigger] b[i] == pp[i - 10 - l
        - v] by {}
    assert(b[10 + l + v + m] == GT);
    // Where the tag ends.
    assert forall|i: int| 1 <= i < 8 + l implies #[trigger] b[i] != GT && b[i] != APOS && b[i]
        != QUOT by {
        if i < 1 + l {
            assert(is_name_byte(nb[i - 1]));
        } else if 2 + l <= i < 7 + l {
            assert(x[i - 2 - l] == b[i]);
        }
    }
    lemma_tag_end_skip(b, 1, 8 + l, 0);
    lemma_tag_end_skip(b, 9 + l, 9 + l + v, APOS);
    assert(tag_end(b, 8 + l, 0) == tag_end(b, 9 + l, APOS));
    assert(tag_end(b, 9 + l + v, APOS) == tag_end(b, 10 + l + v, 0));
    assert(b.subrange(10 + l + v, 10 + l + v + m) =~= pp);
    lemma_pieces_tag_end(b, 10 + l + v, ps);
    assert(tag_end(b, 10 + l + v + m, 0) == Some(10 + l + v + m));
    assert(tag_end(b, 1, 0) == Some(10 + l + v + m));
    let k = 10 + l + v + m;
    let c = b.subrange(1, k);
    assert(c.len() == 9 + l + v + m);
    // The name.
    assert forall|i: int| 0 <= i < l implies is_name_byte(#[trigger] c[i]) by {
        assert(c[i] == nb[i]);
    }
    lemma_name_end_skip(c, 0, l);
    assert(!is_name_byte(c[l]));
    assert(name_end(c, 0) == l);
    assert(c[0] == nb[0]);
    lemma_pieces_last(ps);
    if m > 0 {
        assert(c.last() == pp.last());
    } else {
        assert(c.last() == b[9 + l + v]);
    }
    assert(c.last() == APOS);
    assert(c.take(l) =~= nb);
    // The namespace declaration.
    assert(is_ws(c[l]));
    assert(!is_ws(c[l + 1]));
    assert(skip_ws(c, l + 1) == l + 1);
    assert(skip_ws(c, l) == skip_ws(c, l + 1));
    assert forall|i: int| l + 1 <= i < l + 6 implies is_name_byte(#[trigger] c[i]) by {
        assert(c[i] == x[i - l - 1]);
    }
    lemma_name_end_skip(c, l + 1, l + 6);
    assert(c[l + 6] == EQUALS);
    assert(name_end(c, l + 1) == l + 6);
    assert(skip_ws(c, l + 6) == l + 6);
    assert(c[l + 7] == APOS);
    assert(skip_ws(c, l + 7) == l + 7);
    assert forall|i: int| l + 8 <= i < l + 8 + v implies #[trigger] c[i] != APOS by {
        assert(c[i] == vb[i - l - 8]);
    }
    lemma_find_skip(c, l + 8, l + 8 + v, APOS);
    assert(c[l + 8 + v] == APOS);
    assert(find_from(c, l + 8, APOS) == Some(l + 8 + v));
    // The other attributes.
    assert(c.skip(l + 9 + v) =~= pp);
    lemma_pieces_parse(c, l + 9 + v, ps);
    assert(c.subrange(l + 1, l + 6) =~= x);
    assert(c.subrange(l + 8, l + 8 + v) =~= vb);
    assert(parse_attrs(c, l) == Some(seq![(x, vb)] + ps));
    assert(parse_tag(c) == Some(TokenV::Start(nb, seq![(x, vb)] + ps, false)));
}

/// The bytes ` name='value'` of each attribute, in order.
pub open spec fn attr_pieces(ps: Seq<(Seq<u8>, Seq<u8>)>) -> Seq<u8>
    decreases ps.len(),
{
    if ps.len() == 0 {
        seq![]
    } else {
        seq![0x20u8] + ps[0].0 + seq![EQUALS, APOS] + ps[0].1 + seq![APOS] + attr_pieces(
            ps.drop_first(),
        )
    }
}

/// Whether an attribute reads back whole: a name of name bytes, and a value
/// without `'`.
pub open spec fn plain_pair(p: (Seq<u8>, Seq<u8>)) -> bool {
    &&& p.0.len() > 0
    &&& forall|i: int| 0 <= i < p.0.len() ==> is_name_byte(#[trigger] p.0[i])
    &&& forall|i: int| 0 <= i < p.1.len() ==> #[trigger] p.1[i] != APOS
}

pub open spec fn all_plain(ps: Seq<(Seq<u8>, Seq<u8>)>) -> bool {
    forall|i: int| 0 <= i < ps.len() ==> plain_pair(#[trigger] ps[i])
}

proof fn lemma_pieces_tag_end(b: Seq<u8>, s: int, ps: Seq<(Seq<u8>, Seq<u8>)>)
    requires
        0 <= s,
        s + attr_pieces(ps).len() <= b.len(),
        b.subrange(s, s + attr_pieces(ps).len()) == attr_pieces(ps),
        all_plain(ps),
    ensures
        tag_end(b, s, 0) == tag_end(b, s + attr_pieces(ps).len(), 0),
    decreases ps.len(),
{
    if ps.len() > 0 {
        let p = attr_pieces(ps);
        let n0 = ps[0].0;
        let v0 = ps[0].1;
        let rest = ps.drop_first();
        let ln = n0.len() as int;
        let lv = v0.len() as int;
        assert(plain_pair(ps[0]));
        assert forall|i: int| 0 <= i < p.len() implies #[trigger] b[s + i] == p[i] by {
            assert(b.subrange(s, s + p.len())[i] == b[s + i]);
        }
        assert(p[0] == 0x20u8);
        assert forall|i: int| 1 <= i < 1 + ln implies #[trigger] p[i] == n0[i - 1] by {}
        assert(p[1 + ln] == EQUALS);
        assert(p[2 + ln] == APOS);
        assert forall|i: int| 3 + ln <= i < 3 + ln + lv implies #[trigger] p[i] == v0[i - 3 - ln] by {}
        assert(p[3 + ln + lv] == APOS);
        assert forall|x: int| s <= x < s + 2 + ln implies #[trigger] b[x] != GT && b[x] != APOS
            && b[x] != QUOT by {
            assert(b[x] == p[x - s]);
            if 1 <= x - s < 1 + ln {
                assert(is_name_byte(n0[x - s - 1]));
            }
        }
        lemma_tag_end_skip(b, s, s + 2 + ln, 0);
        assert(b[s + 2 + ln] == APOS);
        assert(tag_end(b, s + 2 + ln, 0) == tag_end(b, s + 3 + ln, APOS));
        assert forall|x: int| s + 3 + ln <= x < s + 3 + ln + lv implies #[trigger] b[x] != APOS by {
            assert(b[x] == p[x - s]);
        }
        lemma_tag_end_skip(b, s + 3 + ln, s + 3 + ln + lv, APOS);
        assert(b[s + 3 + ln + lv] == APOS);
        assert(tag_end(b, s + 3 + ln + lv, APOS) == tag_end(b, s + 4 + ln + lv, 0));
        let s2 = s + 4 + ln + lv;
        assert(p == seq![0x20u8] + n0 + seq![EQUALS, APOS] + v0 + seq![APOS] + attr_pieces(rest));
        assert(b.subrange(s2, s2 + attr_pieces(rest).len()) =~= attr_pieces(rest)) by {
            assert forall|i: int| 0 <= i < attr_pieces(rest).len() implies b.subrange(
                s2,
                s2 + attr_pieces(rest).len(),
            )[i] == #[trigger] attr_pieces(rest)[i] by {
                assert(b[s2 + i] == p[4 + ln + lv + i]);
            }
        }
        assert(all_plain(rest)) by {
            assert forall|i: int| 0 <= i < rest.len() implies plain_pair(#[trigger] rest[i]) by {
                assert(rest[i] == ps[i + 1]);
            }
        }
        lemma_pieces_tag_end(b, s2, rest);
    }
}

proof fn lemma_pieces_parse(c: Seq<u8>, s: int, ps: Seq<(Seq<u8>, Seq<u8>)>)
    requires
        0 <= s <= c.len(),
        c.skip(s) == attr_pieces(ps),
        all_plain(ps),
    ensures
        parse_attrs(c, s) == Some(ps),
    decreases ps.len(),
{
    let p = attr_pieces(ps);
    if ps.len() == 0 {
        assert(c.len() == s);
        assert(skip_ws(c, s) == s);
        assert(ps =~= Seq::<(Seq<u8>, Seq<u8>)>::empty());
    } else {
        let n0 = ps[0].0;
        let v0 = ps[0].1;
        let rest = ps.drop_first();
        let ln = n0.len() as int;
        let lv = v0.len() as int;
        assert(plain_pair(ps[0]));
        assert(p == seq![0x20u8] + n0 + seq![EQUALS, APOS] + v0 + seq![APOS] + attr_pieces(rest));
        assert forall|i: int| 0 <= i < p.len() implies c[s + i] == #[trigger] p[i] by {
            assert(c.skip(s)[i] == c[s + i]);
        }
        assert(p[0] == 0x20u8);
        assert(c.skip(s)[0] == c[s]);
        assert(c[s] == 0x20u8);
        assert(p[1] == n0[0]);
        assert(c.skip(s)[1] == c[s + 1]);
        assert(c[s + 1] == n0[0]);
        assert(skip_ws(c, s + 1) == s + 1);
        assert(skip_ws(c, s) == s + 1);
        assert forall|x: int| s + 1 <= x < s + 1 + ln implies is_name_byte(#[trigger] c[x]) by {
            assert(c[x] == p[x - s]);
            assert(p[x - s] == n0[x - s - 1]);
        }
        lemma_name_end_skip(c, s + 1, s + 1 + ln);
        assert(p[1 + ln] == EQUALS);
        assert(c[s + 1 + ln] == EQUALS);
        assert(name_end(c, s + 1) == s + 1 + ln);
        assert(skip_ws(c, s + 1 + ln) == s + 1 + ln);
        assert(p[2 + ln] == APOS);
        assert(c[s + 2 + ln] == APOS);
        assert(skip_ws(c, s + 2 + ln) == s + 2 + ln);
        assert forall|x: int| s + 3 + ln <= x < s + 3 + ln + lv implies #[trigger] c[x] != APOS by {
            assert(c[x] == p[x - s]);
            assert(p[x - s] == v0[x - s - 3 - ln]);
        }
        lemma_find_skip(c, s + 3 + ln, s + 3 + ln + lv, APOS);
        assert(p[3 + ln + lv] == APOS);
        assert(c[s + 3 + ln + lv] == APOS);
        assert(find_from(c, s + 3 + ln, APOS) == Some(s + 3 + ln + lv));
        let s2 = s + 4 + ln + lv;
        assert(c.skip(s2) =~= attr_pieces(rest)) by {
            assert forall|i: int| 0 <= i < attr_pieces(rest).len() implies c.skip(s2)[i]
                == #[trigger] attr_pieces(rest)[i] by {
                assert(c[s2 + i] == p[4 + ln + lv + i]);
            }
        }
        assert(all_plain(rest)) by {
            assert forall|i: int| 0 <= i < rest.len() implies plain_pair(#[trigger] rest[i]) by {
                assert(rest[i] == ps[i + 1]);
            }
        }
        lemma_pieces_parse(c, s2, rest);
        assert(c.subrange(s + 1, s + 1 + ln) =~= n0) by {
            assert forall|i: int| 0 <= i < ln implies c.subrange(s + 1, s + 1 + ln)[i]
                == #[trigger] n0[i] by {
                assert(p[1 + i] == n0[i]);
            }
        }
        assert(c.subrange(s + 3 + ln, s + 3 + ln + lv) =~= v0) by {
            assert forall|i: int| 0 <= i < lv implies c.subrange(s + 3 + ln, s + 3 + ln + lv)[i]
                == #[trigger] v0[i] by {
                assert(p[3 + ln + i] == v0[i]);
            }
        }
        assert(seq![(n0, v0)] + rest =~= ps);
    }
}

/// The bytes of a closing tag `</name>`.
pub open spec fn close_tag_bytes(nb: Seq<u8>) -> Seq<u8> {
    seq![LT, SLASH] + nb + seq![GT]
}

/// A closing tag reads back as the end tag of its name.
pub proof fn lemma_close_tag_lexes(nb: Seq<u8>, rest: Seq<u8>)
    requires
        nb.len() > 0,
        forall|i: int| 0 <= i < nb.len() ==> is_name_byte(#[trigger] nb[i]),
    ensures
        lex(close_tag_bytes(nb) + rest) == LexedV::Token(
            TokenV::End(nb),
            close_tag_bytes(nb).len() as int,
        ),
{
    let l = nb.len() as int;
    let o = close_tag_bytes(nb);
    let b = o + rest;
    assert(b[0] == LT);
    assert(b[1] == SLASH);
    assert forall|i: int| 2 <= i < 2 + l implies #[trigger] b[i] == nb[i - 2] by {}
    assert(b[2 + l] == GT);
    assert forall|i: int| 1 <= i < 2 + l implies #[trigger] b[i] != GT && b[i] != APOS && b[i]
        != QUOT by {
        if i >= 2 {
            assert(is_name_byte(nb[i - 2]));
        }
    }
    lemma_tag_end_skip(b, 1, 2 + l, 0);
    assert(tag_end(b, 1, 0) == Some(2 + l));
    let c = b.subrange(1, 2 + l);
    assert forall|i: int| 1 <= i < 1 + l implies is_name_byte(#[trigger] c[i]) by {
        assert(c[i] == nb[i - 1]);
    }
    lemma_name_end_skip(c, 1, 1 + l);
    assert(name_end(c, 1) == 1 + l);
    assert(skip_ws(c, 1 + l) == 1 + l);
    assert(c.subrange(1, 1 + l) =~= nb);
}

/// Whether `c` may stand in a name that reads back whole: no whitespace, no
/// markup delimiter, no `=`, `?` or `:`.
pub open spec fn is_plain_name_char(c: char) -> bool {
    &&& c != ' ' && c != '\t' && c != '\n' && c != '\r'
    &&& c != '=' && c != '/' && c != '\'' && c != '"'
    &&& c != '<' && c != '>' && c != '?' && c != ':'
}

pub open spec fn is_plain_name(n: Seq<char>) -> bool {
    n.len() > 0 && forall|i: int| 0 <= i < n.len() ==> is_plain_name_char(#[trigger] n[i])
}

proof fn lemma_name_bytes(n: Seq<char>)
    requires
        is_plain_name(n),
    ensures
        encode_utf8(n).len() > 0,
        forall|i: int|
            0 <= i < encode_utf8(n).len() ==> is_name_byte(#[trigger] encode_utf8(n)[i])
                && encode_utf8(n)[i] != 0x3Fu8 && encode_utf8(n)[i] != COLON,
{
    let b = encode_utf8(n);
    lemma_encoding_avoids(n, ' ', 0x20u8);
    lemma_encoding_avoids(n, '\t', 0x09u8);
    lemma_encoding_avoids(n, '\n', 0x0Au8);
    lemma_encoding_avoids(n, '\r', 0x0Du8);
    lemma_encoding_avoids(n, '=', EQUALS);
    lemma_encoding_avoids(n, '/', SLASH);
    lemma_encoding_avoids(n, '\'', APOS);
    lemma_encoding_avoids(n, '"', QUOT);
    lemma_encoding_avoids(n, '<', LT);
    lemma_encoding_avoids(n, '>', GT);
    lemma_encoding_avoids(n, '?', 0x3Fu8);
    lemma_encoding_avoids(n, ':', COLON);
    assert forall|i: int| 0 <= i < b.len() implies is_name_byte(#[trigger] b[i]) && b[i] != 0x3Fu8
        && b[i] != COLON by {
        assert(b[i] != 0x20u8 && b[i] != 0x09u8 && b[i] != 0x0Au8 && b[i] != 0x0Du8);
        assert(b[i] != EQUALS && b[i] != SLASH && b[i] != APOS && b[i] != QUOT);
        assert(b[i] != LT && b[i] != GT);
    }
}

/// ASCII characters encode to their codes, one byte each.
proof fn lemma_ascii_seq(s: Seq<char>)
    requires
        forall|i: int| 0 <= i < s.len() ==> (#[trigger] s[i] as u32) < 0x80,
    ensures
        encode_utf8(s) == s.map_values(|c: char| (c as u32) as u8),
    decreases s.len(),
{
    if s.len() > 0 {
        let rest = s.drop_first();
        assert forall|i: int| 0 <= i < rest.len() implies (#[trigger] rest[i] as u32) < 0x80 by {
            assert(rest[i] == s[i + 1]);
        }
        lemma_ascii_seq(rest);
        lemma_ascii_encoding(s[0]);
        assert(seq![s[0]].drop_first() =~= Seq::<char>::empty());
        assert(encode_utf8(seq![s[0]]) == encode_scalar(s[0] as u32) + encode_utf8(
            Seq::<char>::empty(),
        ));
        assert(encode_scalar(s[0] as u32) =~= seq![(s[0] as u32) as u8]);
        assert(encode_utf8(s) =~= s.map_values(|c: char| (c as u32) as u8));
    }
}


/// The bytes that the encoder writes for a stanza.
#[verifier::opaque]
pub open spec fn stanza_bytes(e: Element) -> Seq<u8> {
    encode_utf8(packet_xml(Packet::Stanza(e)))
}

proof fn lemma_start_parts(n: Seq<char>, u: Seq<char>)
    requires
        is_plain_name(n),
    ensures
        split_qname(encode_utf8(n)) == (Seq::<u8>::empty(), encode_utf8(n)),
        decode_utf8(encode_utf8(n)) == n,
        sort_attrs(seq![(xmlns_bytes(), encode_utf8(escaped(u)))], 1) == Some(
            (Seq::<(Seq<char>, Seq<char>)>::empty(), seq![(Seq::<u8>::empty(), u)]),
        ),
{
    let nb = encode_utf8(n);
    let eu = escaped(u);
    let vb = encode_utf8(eu);
    lemma_name_bytes(n);
    lemma_find_skip(nb, 0, nb.len() as int, COLON);
    assert(split_qname(nb) =~= (Seq::<u8>::empty(), nb));
    encode_utf8_decode_utf8(n);
    let x = xmlns_bytes();
    lemma_ascii_seq(seq!['x', 'm', 'l', 'n', 's']);
    assert(encode_utf8(seq!['x', 'm', 'l', 'n', 's']) =~= x);
    encode_utf8_valid_utf8(seq!['x', 'm', 'l', 'n', 's']);
    encode_utf8_valid_utf8(eu);
    encode_utf8_decode_utf8(eu);
    lemma_unescape_escaped(u);
    assert(decoded(vb) == Some(u));
    assert(declared_prefix(x) == Some(Seq::<u8>::empty()));
    let raw = seq![(x, vb)];
    assert(sort_attrs(raw, 0) == Some(
        (Seq::<(Seq<char>, Seq<char>)>::empty(), Seq::<(Seq<u8>, Seq<char>)>::empty()),
    ));
    assert(Seq::<(Seq<u8>, Seq<char>)>::empty().push((Seq::<u8>::empty(), u)) =~= seq![
        (Seq::<u8>::empty(), u),
    ]);
}

/// The bytes that the encoder writes for each attribute's name and value.
pub open spec fn enc_attrs(a: Seq<(String, String)>) -> Seq<(Seq<u8>, Seq<u8>)> {
    a.map_values(|p: (String, String)| (encode_utf8(p.0@), encode_utf8(escaped(p.1@))))
}

proof fn lemma_attr_pieces_push(ps: Seq<(Seq<u8>, Seq<u8>)>, p: (Seq<u8>, Seq<u8>))
    ensures
        attr_pieces(ps.push(p)) == attr_pieces(ps) + (seq![0x20u8] + p.0 + seq![EQUALS, APOS] + p.1
            + seq![APOS]),
    decreases ps.len(),
{
    let h = seq![0x20u8] + p.0 + seq![EQUALS, APOS] + p.1 + seq![APOS];
    if ps.len() == 0 {
        assert(ps.push(p).drop_first() =~= Seq::<(Seq<u8>, Seq<u8>)>::empty());
        assert(ps.push(p)[0] == p);
        assert(attr_pieces(Seq::<(Seq<u8>, Seq<u8>)>::empty()) == Seq::<u8>::empty());
        assert(attr_pieces(ps.push(p)) == h + Seq::<u8>::empty());
        assert(attr_pieces(ps.push(p)) =~= attr_pieces(ps) + h);
    } else {
        assert(ps.push(p).drop_first() =~= ps.drop_first().push(p));
        lemma_attr_pieces_push(ps.drop_first(), p);
        let q = ps[0];
        let hq = seq![0x20u8] + q.0 + seq![EQUALS, APOS] + q.1 + seq![APOS];
        assert(attr_pieces(ps.push(p)) == hq + attr_pieces(ps.drop_first().push(p)));
        assert(attr_pieces(ps.push(p)) =~= attr_pieces(ps) + h);
    }
}

/// The attributes, as the encoder writes them, are the pieces of their bytes.
proof fn lemma_attrs_bytes(a: Seq<(String, String)>, n: int)
    requires
        0 <= n <= a.len(),
    ensures
        encode_utf8(attrs_xml(a, n)) == attr_pieces(enc_attrs(a).take(n)),
    decreases n,
{
    if n == 0 {
        assert(enc_attrs(a).take(0) =~= Seq::<(Seq<u8>, Seq<u8>)>::empty());
    } else {
        lemma_attrs_bytes(a, n - 1);
        let nm = a[n - 1].0@;
        let ev = escaped(a[n - 1].1@);
        let prev = attrs_xml(a, n - 1);
        let q1 = seq![' '];
        let q2 = seq!['=', '\''];
        let q3 = seq!['\''];
        assert(attrs_xml(a, n) == prev + q1 + nm + q2 + ev + q3);
        lemma_ascii_seq(q1);
        lemma_ascii_seq(q2);
        lemma_ascii_seq(q3);
        assert(encode_utf8(q1) =~= seq![0x20u8]);
        assert(encode_utf8(q2) =~= seq![EQUALS, APOS]);
        assert(encode_utf8(q3) =~= seq![APOS]);
        lemma_encode_concat(prev, q1);
        lemma_encode_concat(prev + q1, nm);
        lemma_encode_concat(prev + q1 + nm, q2);
        lemma_encode_concat(prev + q1 + nm + q2, ev);
        lemma_encode_concat(prev + q1 + nm + q2 + ev, q3);
        let e = enc_attrs(a);
        assert(e.take(n) =~= e.take(n - 1).push(e[n - 1]));
        lemma_attr_pieces_push(e.take(n - 1), e[n - 1]);
        assert(encode_utf8(attrs_xml(a, n)) =~= attr_pieces(e.take(n)));
    }
}

/// Whether an element is one that the round trip below covers: plain names,
/// a namespace of its own, no `xmlns` attribute, one non-empty text child.
pub open spec fn plain_stanza(e: Element) -> bool {
    &&& is_plain_name(e.name@)
    &&& e.ns is Some
    &&& forall|i: int|
        0 <= i < e.attrs@.len() ==> is_plain_name(#[trigger] e.attrs@[i].0@) && e.attrs@[i].0@
            != seq!['x', 'm', 'l', 'n', 's']
    &&& attr_names_distinct(attr_pairs_view(e.attrs@))
    &&& e.children@.len() == 1
    &&& e.children@[0] matches Node::Text(t) && t@.len() > 0
}

proof fn lemma_plain_stanza_chars(e: Element)
    requires
        e.ns is Some,
        e.children@.len() == 1,
        e.children@[0] is Text,
    ensures
        packet_xml(Packet::Stanza(e)) == seq!['<'] + e.name@ + seq![' ', 'x', 'm', 'l', 'n', 's', '=', '\'']
            + escaped(opt_view(e.ns)->0) + seq!['\''] + attrs_xml(e.attrs@, e.attrs@.len() as int)
            + seq!['>'] + escaped(e.children@[0]->Text_0@) + seq!['<', '/'] + e.name@ + seq!['>'],
{
    let n = e.name@;
    let eu = escaped(opt_view(e.ns)->0);
    let et = escaped(e.children@[0]->Text_0@);
    let ax = attrs_xml(e.attrs@, e.attrs@.len() as int);
    let ns1 = seq![' ', 'x', 'm', 'l', 'n', 's', '=', '\''];
    assert(ns_xml(opt_view(e.ns), None) == ns1 + eu + seq!['\'']);
    assert(nodes_xml(e, 0) == Seq::<char>::empty());
    assert(nodes_xml(e, 1) =~= et);
    let head = seq!['<'] + n + (ns1 + eu + seq!['\'']) + ax;
    assert(element_xml(e, None) == head + seq!['>'] + nodes_xml(e, 1) + seq!['<', '/'] + n
        + seq!['>']);
    assert(element_xml(e, None) =~= seq!['<'] + n + ns1 + eu + seq!['\''] + ax + seq!['>'] + et
        + seq!['<', '/'] + n + seq!['>']);
}

proof fn lemma_plain_stanza_bytes(
    n: Seq<char>,
    eu: Seq<char>,
    ax: Seq<char>,
    et: Seq<char>,
    ps: Seq<(Seq<u8>, Seq<u8>)>,
)
    requires
        encode_utf8(ax) == attr_pieces(ps),
    ensures
        encode_utf8(seq!['<'] + n + seq![' ', 'x', 'm', 'l', 'n', 's', '=', '\''] + eu + seq!['\'']
            + ax + seq!['>'] + et + seq!['<', '/'] + n + seq!['>']) == open_tag_bytes(
            encode_utf8(n),
            encode_utf8(eu),
            ps,
        ) + encode_utf8(et) + close_tag_bytes(encode_utf8(n)),
{
    let ns1 = seq![' ', 'x', 'm', 'l', 'n', 's', '=', '\''];
    lemma_ascii_seq(seq!['<']);
    lemma_ascii_seq(ns1);
    lemma_ascii_seq(seq!['\'']);
    lemma_ascii_seq(seq!['>']);
    lemma_ascii_seq(seq!['<', '/']);
    assert(encode_utf8(seq!['<']) =~= seq![LT]);
    assert(encode_utf8(ns1) =~= seq![0x20u8] + xmlns_bytes() + seq![EQUALS, APOS]);
    assert(encode_utf8(seq!['\'']) =~= seq![APOS]);
    assert(encode_utf8(seq!['>']) =~= seq![GT]);
    assert(encode_utf8(seq!['<', '/']) =~= seq![LT, SLASH]);
    let p1 = seq!['<'] + n;
    let p2 = p1 + ns1;
    let p3 = p2 + eu;
    let p4 = p3 + seq!['\''];
    let p5 = p4 + ax;
    let p6 = p5 + seq!['>'];
    let p7 = p6 + et;
    let p8 = p7 + seq!['<', '/'];
    let p9 = p8 + n;
    lemma_encode_concat(seq!['<'], n);
    lemma_encode_concat(p1, ns1);
    lemma_encode_concat(p2, eu);
    lemma_encode_concat(p3, seq!['\'']);
    lemma_encode_concat(p4, ax);
    lemma_encode_concat(p5, seq!['>']);
    lemma_encode_concat(p6, et);
    lemma_encode_concat(p7, seq!['<', '/']);
    lemma_encode_concat(p8, n);
    lemma_encode_concat(p9, seq!['>']);
    let nb = encode_utf8(n);
    assert(encode_utf8(p9 + seq!['>']) =~= open_tag_bytes(nb, encode_utf8(eu), ps) + encode_utf8(
        et,
    ) + close_tag_bytes(nb));
}

proof fn lemma_plain_attrs(a: Seq<(String, String)>)
    requires
        forall|i: int|
            0 <= i < a.len() ==> is_plain_name(#[trigger] a[i].0@) && a[i].0@ != seq![
                'x',
                'm',
                'l',
                'n',
                's',
            ],
    ensures
        all_plain(enc_attrs(a)),
{
    let e = enc_attrs(a);
    assert forall|i: int| 0 <= i < e.len() implies plain_pair(#[trigger] e[i]) by {
        lemma_name_bytes(a[i].0@);
        lemma_escaped_plain(a[i].1@);
        lemma_encoding_avoids(escaped(a[i].1@), '\'', APOS);
    }
}

proof fn lemma_sort_plain(u: Seq<char>, a: Seq<(String, String)>, m: int)
    requires
        forall|i: int|
            0 <= i < a.len() ==> is_plain_name(#[trigger] a[i].0@) && a[i].0@ != seq![
                'x',
                'm',
                'l',
                'n',
                's',
            ],
        1 <= m <= a.len() + 1,
    ensures
        sort_attrs(seq![(xmlns_bytes(), encode_utf8(escaped(u)))] + enc_attrs(a), m) == Some(
            (attr_pairs_view(a.take(m - 1)), seq![(Seq::<u8>::empty(), u)]),
        ),
    decreases m,
{
    let raw = seq![(xmlns_bytes(), encode_utf8(escaped(u)))] + enc_attrs(a);
    if m == 1 {
        let x = xmlns_bytes();
        let vb = encode_utf8(escaped(u));
        assert(raw[0] == (x, vb));
        lemma_ascii_seq(seq!['x', 'm', 'l', 'n', 's']);
        assert(encode_utf8(seq!['x', 'm', 'l', 'n', 's']) =~= x);
        encode_utf8_valid_utf8(seq!['x', 'm', 'l', 'n', 's']);
        encode_utf8_valid_utf8(escaped(u));
        encode_utf8_decode_utf8(escaped(u));
        lemma_unescape_escaped(u);
        assert(decoded(vb) == Some(u));
        assert(declared_prefix(x) == Some(Seq::<u8>::empty()));
        assert(sort_attrs(raw, 0) == Some(
            (Seq::<(Seq<char>, Seq<char>)>::empty(), Seq::<(Seq<u8>, Seq<char>)>::empty()),
        ));
        assert(Seq::<(Seq<u8>, Seq<char>)>::empty().push((Seq::<u8>::empty(), u)) =~= seq![
            (Seq::<u8>::empty(), u),
        ]);
        assert(attr_pairs_view(a.take(0)) =~= Seq::<(Seq<char>, Seq<char>)>::empty());
    } else {
        lemma_sort_plain(u, a, m - 1);
        let i = m - 2;
        let nm = a[i].0@;
        let nb = encode_utf8(nm);
        let vb = encode_utf8(escaped(a[i].1@));
        assert(raw[m - 1] == (nb, vb));
        lemma_name_bytes(nm);
        encode_utf8_valid_utf8(nm);
        encode_utf8_decode_utf8(nm);
        encode_utf8_valid_utf8(escaped(a[i].1@));
        encode_utf8_decode_utf8(escaped(a[i].1@));
        lemma_unescape_escaped(a[i].1@);
        assert(decoded(vb) == Some(a[i].1@));
        lemma_ascii_seq(seq!['x', 'm', 'l', 'n', 's']);
        assert(encode_utf8(seq!['x', 'm', 'l', 'n', 's']) =~= xmlns_bytes());
        encode_utf8_decode_utf8(seq!['x', 'm', 'l', 'n', 's']);
        assert(nb != xmlns_bytes());
        if nb.len() > 6 {
            assert(nb[5] != COLON);
        }
        assert(declared_prefix(nb) is None);
        assert(attr_pairs_view(a.take(m - 1)) =~= attr_pairs_view(a.take(m - 2)).push((nm, a[i].1@)));
    }
}

/// A stanza with plain names, a namespace of its own, attributes and one
/// non-empty text child reads back as it was written: the bytes that the
/// encoder writes for it are tokenized as a start tag of its name declaring
/// its namespace as the default and carrying its attributes, one text run and
/// the matching end tag; decoding their parts gives back the name, the
/// namespace, the attributes and the text, so that the element opened from
/// that start tag has the name, namespace and attributes of the stanza.
#[verifier::rlimit(60)]
pub proof fn lemma_stanza_round_trip(e: Element)
    requires
        plain_stanza(e),
    ensures
        ({
            let w = stanza_bytes(e);
            let nb = encode_utf8(e.name@);
            let vb = encode_utf8(escaped(opt_view(e.ns)->0));
            let ps = enc_attrs(e.attrs@);
            let raw = seq![(xmlns_bytes(), vb)] + ps;
            let tb = encode_utf8(escaped(e.children@[0]->Text_0@));
            let open = open_tag_bytes(nb, vb, ps);
            let (sa, sd) = sort_attrs(raw, raw.len() as int)->0;
            &&& w == open + tb + close_tag_bytes(nb)
            &&& lex(w) == LexedV::Token(TokenV::Start(nb, raw, false), open.len() as int)
            &&& lex(w.skip(open.len() as int)) == LexedV::Token(TokenV::Text(tb), tb.len() as int)
            &&& lex(w.skip(open.len() + tb.len() as int)) == LexedV::Token(
                TokenV::End(nb),
                close_tag_bytes(nb).len() as int,
            )
            &&& decoded(tb) == Some(e.children@[0]->Text_0@)
            &&& forall|scopes: Seq<Seq<(Seq<u8>, Seq<char>)>>, e2: Element|
                #[trigger] opened(scopes, nb, sa, sd, e2) ==> e2.name@ == e.name@ && opt_view(e2.ns) == opt_view(e.ns) && attr_pairs_view(
                    e2.attrs@,
                ) == attr_pairs_view(e.attrs@)
        }),
{
    let n = e.name@;
    let u = opt_view(e.ns)->0;
    let t = e.children@[0]->Text_0@;
    let a = e.attrs@;
    let nb = encode_utf8(n);
    let eu = escaped(u);
    let vb = encode_utf8(eu);
    let ps = enc_attrs(a);
    let raw = seq![(xmlns_bytes(), vb)] + ps;
    let tb = encode_utf8(escaped(t));
    let open = open_tag_bytes(nb, vb, ps);
    let close = close_tag_bytes(nb);
    // The bytes written.
    reveal(stanza_bytes);
    lemma_plain_stanza_chars(e);
    lemma_attrs_bytes(a, a.len() as int);
    assert(enc_attrs(a).take(a.len() as int) =~= ps);
    lemma_plain_stanza_bytes(n, eu, attrs_xml(a, a.len() as int), escaped(t), ps);
    let w = stanza_bytes(e);
    assert(w == open + tb + close);
    // The tokens read.
    lemma_name_bytes(n);
    lemma_escaped_plain(u);
    lemma_encoding_avoids(eu, '\'', APOS);
    lemma_plain_attrs(a);
    lemma_open_tag_lexes(nb, vb, ps, tb + close);
    assert(w =~= open + (tb + close));
    assert(w.skip(open.len() as int) =~= tb + close);
    assert(close[0] == LT);
    lemma_text_round_trip(t, close);
    assert(w.skip(open.len() + tb.len() as int) =~= close + Seq::<u8>::empty());
    lemma_close_tag_lexes(nb, Seq::<u8>::empty());
    // What they decode to.
    lemma_start_parts(n, u);
    assert(raw.len() == a.len() + 1);
    lemma_sort_plain(u, a, a.len() as int + 1);
    assert(a.take(a.len() as int) =~= a);
    let d = seq![(Seq::<u8>::empty(), u)];
    assert forall|scopes: Seq<Seq<(Seq<u8>, Seq<char>)>>, e2: Element|
        #[trigger] opened(scopes, nb, attr_pairs_view(a), d, e2) implies e2.name@ == e.name@
        && opt_view(e2.ns) == opt_view(e.ns) && attr_pairs_view(e2.attrs@) == attr_pairs_view(
        e.attrs@,
    ) by {
        let all = scopes.push(d);
        assert(all[all.len() - 1] == d);
        assert(lookup(d, Seq::<u8>::empty(), 1) == Some(u));
        assert(resolve(all, Seq::<u8>::empty(), all.len() as int) == Some(u));
    }
}


/// Decoding what the encoder wrote for a stanza gives the stanza back: with
/// the stream root open and nothing pending, the bytes of a stanza with plain
/// names, a namespace of its own, distinct attributes and one non-empty text
/// child decode, in one call that takes all of them, to that stanza, and
/// leave the builder as it was.
#[verifier::rlimit(100)]
pub proof fn lemma_decode_encoded_stanza(bv: BuilderV, e: Element)
    requires
        plain_stanza(e),
        bv.stack.len() == 1,
        bv.qnames.len() == 1,
        bv.scopes.len() == 1,
        bv.queue.len() == 0,
        bv.root is None,
    ensures
        decode_spec(bv, stanza_bytes(e)) == (
            Ok::<Option<PacketV>, crate::error::Error>(Some(PacketV::Stanza(elem_view(e)))),
            bv,
            stanza_bytes(e).len() as int,
        ),
{
    reveal(step_spec);
    let n = e.name@;
    let u = opt_view(e.ns)->0;
    let t = e.children@[0]->Text_0@;
    let a = e.attrs@;
    let nb = encode_utf8(n);
    let vb = encode_utf8(escaped(u));
    let ps = enc_attrs(a);
    let raw = seq![(xmlns_bytes(), vb)] + ps;
    let tb = encode_utf8(escaped(t));
    let open = open_tag_bytes(nb, vb, ps);
    let close = close_tag_bytes(nb);
    let w = stanza_bytes(e);
    lemma_stanza_round_trip(e);
    lemma_start_parts(n, u);
    lemma_sort_plain(u, a, a.len() as int + 1);
    assert(a.take(a.len() as int) =~= a);
    assert(raw.len() == a.len() + 1);
    let sa = attr_pairs_view(a);
    let sd = seq![(Seq::<u8>::empty(), u)];
    assert(sort_attrs(raw, raw.len() as int) == Some((sa, sd)));
    encode_utf8_valid_utf8(n);
    // The start tag.
    assert(start_decodes(nb, raw));
    assert(start_resolves(bv.scopes, nb, raw));
    let v1 = push_spec(bv, nb, raw);
    let all = bv.scopes.push(sd);
    assert(all[1] == sd);
    assert(resolve(all, Seq::<u8>::empty(), 2) == Some(u));
    let e1 = ElemV { name: n, ns: Some(u), attrs: sa, children: seq![] };
    assert(v1.stack == bv.stack.push(e1));
    assert(step_spec(bv, TokenV::Start(nb, raw, false)) == Ok::<BuilderV, crate::error::Error>(v1));
    let w1 = w.skip(open.len() as int);
    assert(decode_spec(bv, w) == shifted(open.len() as int, decode_spec(v1, w1)));
    // The text.
    let e2 = ElemV { children: seq![NodeV::Text(t)], ..e1 };
    assert(e1.children.push(NodeV::Text(t)) =~= seq![NodeV::Text(t)]);
    let v2 = BuilderV { stack: v1.stack.drop_last().push(e2), ..v1 };
    assert(step_spec(v1, TokenV::Text(tb)) == Ok::<BuilderV, crate::error::Error>(v2));
    let w2 = w1.skip(tb.len() as int);
    assert(w2 =~= w.skip(open.len() + tb.len() as int));
    assert(decode_spec(v1, w1) == shifted(tb.len() as int, decode_spec(v2, w2)));
    // The end tag.
    assert(v2.qnames.last() == nb);
    let v3 = close_spec(v2);
    assert(v3.stack =~= bv.stack);
    assert(v3.queue =~= seq![e2]);
    assert(step_spec(v2, TokenV::End(nb)) == Ok::<BuilderV, crate::error::Error>(v3));
    let out = BuilderV { queue: v3.queue.drop_first(), ..v3 };
    assert(out.qnames =~= bv.qnames);
    assert(out.scopes =~= bv.scopes);
    assert(out.queue =~= bv.queue);
    assert(out =~= bv);
    assert(decode_spec(v2, w2) == (
        Ok::<Option<PacketV>, crate::error::Error>(Some(PacketV::Stanza(e2))),
        out,
        close.len() as int,
    ));
    // The stanza is the one written.
    assert(children_view(e, 0) == Seq::<NodeV>::empty());
    assert(children_view(e, 1) =~= seq![NodeV::Text(t)]);
    assert(elem_view(e) == e2);
}

} // verus!
