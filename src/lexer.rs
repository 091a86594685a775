//! Incremental XML tokenizer over raw bytes.
//!
//! A token is only produced once all of its bytes are available: where the
//! buffer holds a valid-so-far prefix of a token, the tokenizer reports that
//! more input is needed and consumes nothing. Token boundaries are found on
//! ASCII delimiters only, so a multi-byte UTF-8 sequence is never split.

use vstd::prelude::*;

verus! {

/// `<`
pub const LT: u8 = 0x3C;

/// `>`
pub const GT: u8 = 0x3E;

/// `/`
pub const SLASH: u8 = 0x2F;

/// `?`
pub const QUESTION: u8 = 0x3F;

/// `=`
pub const EQUALS: u8 = 0x3D;

/// `'`
pub const APOS: u8 = 0x27;

/// `"`
pub const QUOT: u8 = 0x22;

/// An attribute as written in a start tag, before any decoding.
pub struct RawAttr {
    pub name: Vec<u8>,
    pub value: Vec<u8>,
}

/// A lexical token, holding the bytes of the input it was read from.
pub enum Token {
    /// `<name attr='value' ...>`, or `<name .../>` when `empty` is set.
    Start { name: Vec<u8>, attrs: Vec<RawAttr>, empty: bool },
    /// `</name>`
    End { name: Vec<u8> },
    /// Character data up to the next `<`, still escaped.
    Text { raw: Vec<u8> },
    /// `<?...?>`: an XML declaration or processing instruction.
    Decl,
}

/// The outcome of one tokenizer step.
pub enum Lexed {
    /// A token, and the number of bytes it took from the front of the buffer.
    Token(Token, usize),
    /// The buffer holds only the start of a token.
    NeedMore,
    /// The bytes cannot start a well-formed token.
    Malformed,
}

pub ghost enum TokenV {
    Start(Seq<u8>, Seq<(Seq<u8>, Seq<u8>)>, bool),
    End(Seq<u8>),
    Text(Seq<u8>),
    Decl,
}

pub ghost enum LexedV {
    Token(TokenV, int),
    NeedMore,
    Malformed,
}

pub open spec fn attr_view(a: RawAttr) -> (Seq<u8>, Seq<u8>) {
    (a.name@, a.value@)
}

pub open spec fn attrs_view(v: Seq<RawAttr>) -> Seq<(Seq<u8>, Seq<u8>)> {
    v.map_values(|a: RawAttr| attr_view(a))
}

impl Token {
    pub open spec fn view(&self) -> TokenV {
        match self {
            Token::Start { name, attrs, empty } => TokenV::Start(name@, attrs_view(attrs@), *empty),
            Token::End { name } => TokenV::End(name@),
            Token::Text { raw } => TokenV::Text(raw@),
            Token::Decl => TokenV::Decl,
        }
    }
}

impl Lexed {
    pub open spec fn view(&self) -> LexedV {
        match self {
            Lexed::Token(t, n) => LexedV::Token(t.view(), *n as int),
            Lexed::NeedMore => LexedV::NeedMore,
            Lexed::Malformed => LexedV::Malformed,
        }
    }
}

pub open spec fn is_ws(x: u8) -> bool {
    x == 0x20 || x == 0x09 || x == 0x0A || x == 0x0D
}

pub open spec fn is_name_byte(x: u8) -> bool {
    !is_ws(x) && x != EQUALS && x != SLASH && x != APOS && x != QUOT && x != LT && x != GT
}

/// The first index from `i` on that holds `x`.
pub open spec fn find_from(b: Seq<u8>, i: int, x: u8) -> Option<int>
    decreases b.len() - i,
{
    if i < 0 || i >= b.len() {
        None
    } else if b[i] == x {
        Some(i)
    } else {
        find_from(b, i + 1, x)
    }
}

/// The index of the `>` that closes a tag, scanning from `i`; `q` is the quote
/// that is open at `i`, or 0.
pub open spec fn tag_end(b: Seq<u8>, i: int, q: u8) -> Option<int>
    decreases b.len() - i,
{
    if i < 0 || i >= b.len() {
        None
    } else if q == 0 {
        if b[i] == GT {
            Some(i)
        } else if b[i] == APOS || b[i] == QUOT {
            tag_end(b, i + 1, b[i])
        } else {
            tag_end(b, i + 1, 0)
        }
    } else if b[i] == q {
        tag_end(b, i + 1, 0)
    } else {
        tag_end(b, i + 1, q)
    }
}

/// The first index from `i` on that holds no whitespace.
pub open spec fn skip_ws(c: Seq<u8>, i: int) -> int
    decreases c.len() - i,
{
    if 0 <= i < c.len() && is_ws(c[i]) {
        skip_ws(c, i + 1)
    } else {
        i
    }
}

/// The end of the name that starts at `i`.
pub open spec fn name_end(c: Seq<u8>, i: int) -> int
    decreases c.len() - i,
{
    if 0 <= i < c.len() && is_name_byte(c[i]) {
        name_end(c, i + 1)
    } else {
        i
    }
}

/// The attributes written in `c` from `i` on.
pub open spec fn parse_attrs(c: Seq<u8>, i: int) -> Option<Seq<(Seq<u8>, Seq<u8>)>>
    decreases c.len() - i,
{
    let j = skip_ws(c, i);
    if i < 0 || j >= c.len() {
        Some(seq![])
    } else {
        let k = name_end(c, j);
        let e = skip_ws(c, k);
        let q = skip_ws(c, e + 1);
        if k == j || e >= c.len() || c[e] != EQUALS || q >= c.len() || (c[q] != APOS && c[q]
            != QUOT) {
            None
        } else {
            match find_from(c, q + 1, c[q]) {
                None => None,
                Some(z) => if i < z + 1 <= c.len() {
                    match parse_attrs(c, z + 1) {
                        None => None,
                        Some(rest) => Some(seq![(c.subrange(j, k), c.subrange(q + 1, z))] + rest),
                    }
                } else {
                    None
                },
            }
        }
    }
}

/// The token written between `<` and `>`.
pub open spec fn parse_tag(c: Seq<u8>) -> Option<TokenV> {
    if c.len() == 0 {
        None
    } else if c[0] == QUESTION {
        if c.len() >= 2 && c.last() == QUESTION {
            Some(TokenV::Decl)
        } else {
            None
        }
    } else if c[0] == SLASH {
        let k = name_end(c, 1);
        if k > 1 && skip_ws(c, k) == c.len() {
            Some(TokenV::End(c.subrange(1, k)))
        } else {
            None
        }
    } else {
        let empty = c.last() == SLASH;
        let inner = if empty {
            c.drop_last()
        } else {
            c
        };
        let k = name_end(inner, 0);
        if k == 0 {
            None
        } else {
            match parse_attrs(inner, k) {
                Some(a) => Some(TokenV::Start(inner.take(k), a, empty)),
                None => None,
            }
        }
    }
}

/// The first token of `b`.
pub open spec fn lex(b: Seq<u8>) -> LexedV {
    if b.len() == 0 {
        LexedV::NeedMore
    } else if b[0] != LT {
        match find_from(b, 0, LT) {
            None => LexedV::NeedMore,
            Some(k) => LexedV::Token(TokenV::Text(b.take(k)), k),
        }
    } else {
        match tag_end(b, 1, 0) {
            None => LexedV::NeedMore,
            Some(k) => match parse_tag(b.subrange(1, k)) {
                Some(t) => LexedV::Token(t, k + 1),
                None => LexedV::Malformed,
            },
        }
    }
}


fn ws_byte(x: u8) -> (r: bool)
    ensures
        r == is_ws(x),
{
    x == 0x20 || x == 0x09 || x == 0x0A || x == 0x0D
}

fn name_byte(x: u8) -> (r: bool)
    ensures
        r == is_name_byte(x),
{
    !ws_byte(x) && x != EQUALS && x != SLASH && x != APOS && x != QUOT && x != LT && x != GT
}

pub(crate) fn find_byte(b: &[u8], i: usize, x: u8) -> (r: Option<usize>)
    ensures
        match r {
            Some(k) => find_from(b@, i as int, x) == Some(k as int),
            None => find_from(b@, i as int, x) is None,
        },
{
    let mut j = i;
    while j < b.len()
        invariant
            find_from(b@, i as int, x) == find_from(b@, j as int, x),
            i <= j,
        decreases b.len() - j,
    {
        if b[j] == x {
            return Some(j);
        }
        j = j + 1;
    }
    None
}

fn find_tag_end(b: &[u8]) -> (r: Option<usize>)
    ensures
        match r {
            Some(k) => tag_end(b@, 1, 0) == Some(k as int),
            None => tag_end(b@, 1, 0) is None,
        },
{
    let mut j: usize = 1;
    let mut q: u8 = 0;
    while j < b.len()
        invariant
            tag_end(b@, 1, 0) == tag_end(b@, j as int, q),
            1 <= j,
        decreases b.len() - j,
    {
        let x = b[j];
        if q == 0 {
            if x == GT {
                return Some(j);
            } else if x == APOS || x == QUOT {
                q = x;
            }
        } else if x == q {
            q = 0;
        }
        j = j + 1;
    }
    None
}

fn skip_ws_exec(c: &Vec<u8>, i: usize) -> (r: usize)
    ensures
        r as int == skip_ws(c@, i as int),
        i <= r,
        r <= c@.len() || r == i,
{
    let mut j = i;
    while j < c.len() && ws_byte(c[j])
        invariant
            skip_ws(c@, i as int) == skip_ws(c@, j as int),
            i <= j,
            j <= c@.len() || j == i,
        decreases c.len() - j,
    {
        j = j + 1;
    }
    j
}

fn name_end_exec(c: &Vec<u8>, i: usize) -> (r: usize)
    ensures
        r as int == name_end(c@, i as int),
        i <= r,
        r <= c@.len() || r == i,
{
    let mut j = i;
    while j < c.len() && name_byte(c[j])
        invariant
            name_end(c@, i as int) == name_end(c@, j as int),
            i <= j,
            j <= c@.len() || j == i,
        decreases c.len() - j,
    {
        j = j + 1;
    }
    j
}

/// The bytes of `b` from `lo` up to `hi`.
pub fn copy_range(b: &[u8], lo: usize, hi: usize) -> (r: Vec<u8>)
    requires
        lo <= hi <= b@.len(),
    ensures
        r@ == b@.subrange(lo as int, hi as int),
{
    let mut r: Vec<u8> = Vec::new();
    let mut j = lo;
    while j < hi
        invariant
            lo <= j <= hi <= b@.len(),
            r@ == b@.subrange(lo as int, j as int),
        decreases hi - j,
    {
        r.push(b[j]);
        assert(r@ =~= b@.subrange(lo as int, j + 1));
        j = j + 1;
    }
    r
}

pub open spec fn prepend_attrs(
    acc: Seq<(Seq<u8>, Seq<u8>)>,
    o: Option<Seq<(Seq<u8>, Seq<u8>)>>,
) -> Option<Seq<(Seq<u8>, Seq<u8>)>> {
    match o {
        Some(r) => Some(acc + r),
        None => None,
    }
}

fn parse_attrs_exec(c: &Vec<u8>, start: usize) -> (r: Option<Vec<RawAttr>>)
    ensures
        match r {
            Some(v) => parse_attrs(c@, start as int) == Some(attrs_view(v@)),
            None => parse_attrs(c@, start as int) is None,
        },
{
    let mut acc: Vec<RawAttr> = Vec::new();
    let mut i = start;
    assert(attrs_view(acc@) + parse_attrs(c@, start as int)->0 =~= parse_attrs(
        c@,
        start as int,
    )->0);
    loop
        invariant
            parse_attrs(c@, start as int) == prepend_attrs(
                attrs_view(acc@),
                parse_attrs(c@, i as int),
            ),
        decreases c.len() + 1 - i,
    {
        let j = skip_ws_exec(c, i);
        if j >= c.len() {
            assert(attrs_view(acc@) + seq![] =~= attrs_view(acc@));
            return Some(acc);
        }
        let k = name_end_exec(c, j);
        let e = skip_ws_exec(c, k);
        if k == j || e >= c.len() || c[e] != EQUALS {
            return None;
        }
        let q = skip_ws_exec(c, e + 1);
        if q >= c.len() {
            return None;
        }
        let quote = c[q];
        if quote != APOS && quote != QUOT {
            return None;
        }
        match find_byte(c.as_slice(), q + 1, quote) {
            None => {
                return None;
            },
            Some(z) => {
                proof {
                    lemma_find_from_bounds(c@, q + 1, quote);
                }
                let a = RawAttr { name: copy_range(c.as_slice(), j, k), value: copy_range(c.as_slice(), q + 1, z) };
                let ghost old_acc = attrs_view(acc@);
                acc.push(a);
                proof {
                    assert(attrs_view(acc@) =~= old_acc.push(attr_view(a)));
                    let rest = parse_attrs(c@, z + 1);
                    if rest is Some {
                        assert(old_acc + (seq![attr_view(a)] + rest->0) =~= old_acc.push(attr_view(a)) + rest->0);
                    }
                }
                i = z + 1;
            },
        }
    }
}

pub(crate) proof fn lemma_find_from_bounds(b: Seq<u8>, i: int, x: u8)
    ensures
        find_from(b, i, x) matches Some(k) ==> i <= k < b.len() && b[k] == x,
    decreases b.len() - i,
{
    if 0 <= i < b.len() && b[i] != x {
        lemma_find_from_bounds(b, i + 1, x);
    }
}

pub(crate) proof fn lemma_tag_end_bounds(b: Seq<u8>, i: int, q: u8)
    ensures
        tag_end(b, i, q) matches Some(k) ==> i <= k < b.len() && b[k] == GT,
    decreases b.len() - i,
{
    if 0 <= i < b.len() {
        if q == 0 {
            if b[i] != GT {
                if b[i] == APOS || b[i] == QUOT {
                    lemma_tag_end_bounds(b, i + 1, b[i]);
                } else {
                    lemma_tag_end_bounds(b, i + 1, 0);
                }
            }
        } else if b[i] == q {
            lemma_tag_end_bounds(b, i + 1, 0);
        } else {
            lemma_tag_end_bounds(b, i + 1, q);
        }
    }
}

fn parse_tag_exec(c: &Vec<u8>) -> (r: Option<Token>)
    ensures
        match r {
            Some(t) => parse_tag(c@) == Some(t.view()),
            None => parse_tag(c@) is None,
        },
{
    let n = c.len();
    if n == 0 {
        return None;
    }
    if c[0] == QUESTION {
        if n >= 2 && c[n - 1] == QUESTION {
            return Some(Token::Decl);
        }
        return None;
    }
    if c[0] == SLASH {
        let k = name_end_exec(c, 1);
        if k > 1 && skip_ws_exec(c, k) == n {
            return Some(Token::End { name: copy_range(c.as_slice(), 1, k) });
        }
        return None;
    }
    let empty = c[n - 1] == SLASH;
    let inner = if empty {
        copy_range(c.as_slice(), 0, n - 1)
    } else {
        copy_range(c.as_slice(), 0, n)
    };
    assert(inner@ =~= (if empty { c@.drop_last() } else { c@ }));
    let k = name_end_exec(&inner, 0);
    if k == 0 {
        return None;
    }
    match parse_attrs_exec(&inner, k) {
        Some(attrs) => {
            let name = copy_range(inner.as_slice(), 0, k);
            assert(name@ =~= inner@.take(k as int));
            Some(Token::Start { name, attrs, empty })
        },
        None => None,
    }
}

/// Reads the first token of `b`: a token with the number of bytes it takes,
/// `NeedMore` where `b` holds only the start of one, or `Malformed`.
pub fn next_token(b: &[u8]) -> (r: Lexed)
    ensures
        r.view() == lex(b@),
{
    if b.len() == 0 {
        return Lexed::NeedMore;
    }
    if b[0] != LT {
        return match find_byte(b, 0, LT) {
            None => Lexed::NeedMore,
            Some(k) => {
                proof {
                    lemma_find_from_bounds(b@, 0, LT);
                }
                Lexed::Token(Token::Text { raw: copy_range(b, 0, k) }, k)
            },
        };
    }
    match find_tag_end(b) {
        None => Lexed::NeedMore,
        Some(k) => {
            proof {
                lemma_tag_end_bounds(b@, 1, 0);
            }
            let c = copy_range(b, 1, k);
            match parse_tag_exec(&c) {
                Some(t) => Lexed::Token(t, k + 1),
                None => Lexed::Malformed,
            }
        },
    }
}


proof fn lemma_find_from_take(b: Seq<u8>, i: int, x: u8, m: int)
    requires
        0 <= i,
        0 <= m <= b.len(),
    ensures
        find_from(b.take(m), i, x) == (match find_from(b, i, x) {
            Some(k) => if k < m {
                Some(k)
            } else {
                None
            },
            None => None,
        }),
    decreases b.len() - i,
{
    if i < b.len() {
        if b[i] != x {
            lemma_find_from_take(b, i + 1, x, m);
        }
    }
}

proof fn lemma_tag_end_take(b: Seq<u8>, i: int, q: u8, m: int)
    requires
        0 <= i,
        0 <= m <= b.len(),
    ensures
        tag_end(b.take(m), i, q) == (match tag_end(b, i, q) {
            Some(k) => if k < m {
                Some(k)
            } else {
                None
            },
            None => None,
        }),
    decreases b.len() - i,
{
    if i < b.len() {
        if q == 0 {
            if b[i] != GT {
                if b[i] == APOS || b[i] == QUOT {
                    lemma_tag_end_take(b, i + 1, b[i], m);
                } else {
                    lemma_tag_end_take(b, i + 1, 0, m);
                }
            }
        } else if b[i] == q {
            lemma_tag_end_take(b, i + 1, 0, m);
        } else {
            lemma_tag_end_take(b, i + 1, q, m);
        }
    }
}

/// How many bytes the tokenizer reads to decide the first token of `b`: a
/// text run ends where the next `<` is seen, a tag at its closing `>`.
pub open spec fn decided_at(b: Seq<u8>) -> int {
    if b.len() == 0 {
        1
    } else if b[0] != LT {
        match find_from(b, 0, LT) {
            Some(k) => k + 1,
            None => b.len() as int + 1,
        }
    } else {
        match tag_end(b, 1, 0) {
            Some(k) => k + 1,
            None => b.len() as int + 1,
        }
    }
}

/// Splitting the input anywhere changes nothing: on any prefix of `b`, the
/// tokenizer either asks for more input (when the prefix ends before the
/// first token of `b` does) or reads exactly the same token.
pub proof fn lemma_lex_prefix(b: Seq<u8>, m: int)
    requires
        0 <= m <= b.len(),
    ensures
        lex(b) is Token ==> lex(b.take(m)) == (if m < decided_at(b) {
            LexedV::NeedMore
        } else {
            lex(b)
        }),
        lex(b) is NeedMore ==> lex(b.take(m)) is NeedMore,
        lex(b) is Malformed ==> lex(b.take(m)) is NeedMore || lex(b.take(m)) is Malformed,
{
    let p = b.take(m);
    lemma_find_from_take(b, 0, LT, m);
    lemma_tag_end_take(b, 1, 0, m);
    lemma_find_from_bounds(b, 0, LT);
    lemma_tag_end_bounds(b, 1, 0);
    if m > 0 {
        assert(p[0] == b[0]);
        if b[0] != LT {
            if let Some(k) = find_from(b, 0, LT) {
                if k < m {
                    assert(p.take(k) =~= b.take(k));
                }
            }
        } else {
            if let Some(k) = tag_end(b, 1, 0) {
                if k < m {
                    assert(p.subrange(1, k) =~= b.subrange(1, k));
                }
            }
        }
    }
}

/// Appending input after a complete token leaves that token unchanged.
pub proof fn lemma_lex_extend(b: Seq<u8>, e: Seq<u8>)
    ensures
        lex(b) is Token ==> lex(b + e) == lex(b),
        lex(b) is Malformed ==> lex(b + e) is Malformed,
{
    let x = b + e;
    assert(x.take(b.len() as int) =~= b);
    lemma_lex_prefix(x, b.len() as int);
    if lex(b) is Token || lex(b) is Malformed {
        if lex(x) is NeedMore {
        } else if let LexedV::Token(_, n) = lex(x) {
            if b.len() < n {
            }
        }
    }
}

} // verus!
