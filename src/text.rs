//! Character data helpers: XML escaping and unescaping, UTF-8 decoding.

use vstd::prelude::*;
use vstd::utf8::{decode_utf8, valid_utf8};

verus! {

/// Relies on `str::chars`: the characters of a string, in order.
#[verifier::external_body]
pub(crate) fn chars_of(s: &str) -> (r: Vec<char>)
    ensures
        r@ == s@,
{
    s.chars().collect()
}

/// Relies on `String::push`: appends one character.
#[verifier::external_body]
pub(crate) fn push_char(s: &mut String, c: char)
    ensures
        final(s)@ == old(s)@.push(c),
{
    s.push(c)
}

/// Appends a string slice.
pub(crate) fn push_str(s: &mut String, t: &str)
    ensures
        final(s)@ == old(s)@ + t@,
{
    vstd::string::StringExecFns::append(s, t);
}

/// Relies on `std::str::from_utf8`: succeeds exactly on valid UTF-8, and then
/// holds the decoded characters.
#[verifier::external_body]
pub(crate) fn utf8_string(b: &[u8]) -> (r: Option<String>)
    ensures
        r is Some <==> valid_utf8(b@),
        r is Some ==> r->0@ == decode_utf8(b@),
{
    match std::str::from_utf8(b) {
        Ok(s) => Some(s.to_owned()),
        Err(_) => None,
    }
}

/// Whether two strings hold the same characters.
pub fn text_eq(a: &str, b: &str) -> (r: bool)
    ensures
        r == (a@ == b@),
{
    let x = chars_of(a);
    let y = chars_of(b);
    if x.len() != y.len() {
        return false;
    }
    let mut i: usize = 0;
    while i < x.len()
        invariant
            x@ == a@,
            y@ == b@,
            x@.len() == y@.len(),
            i <= x@.len(),
            forall|j: int| 0 <= j < i ==> x@[j] == y@[j],
        decreases x.len() - i,
    {
        if x[i] != y[i] {
            return false;
        }
        i = i + 1;
    }
    assert(x@ =~= y@);
    true
}

/// The escaped form of one character.
pub open spec fn escape_char(c: char) -> Seq<char> {
    if c == '&' {
        seq!['&', 'a', 'm', 'p', ';']
    } else if c == '<' {
        seq!['&', 'l', 't', ';']
    } else if c == '>' {
        seq!['&', 'g', 't', ';']
    } else if c == '\'' {
        seq!['&', 'a', 'p', 'o', 's', ';']
    } else if c == '"' {
        seq!['&', 'q', 'u', 'o', 't', ';']
    } else {
        seq![c]
    }
}

/// The escaped form of a character sequence: each character escaped in turn.
pub open spec fn escaped(s: Seq<char>) -> Seq<char>
    decreases s.len(),
{
    if s.len() == 0 {
        seq![]
    } else {
        escape_char(s[0]) + escaped(s.drop_first())
    }
}

proof fn lemma_escaped_push(s: Seq<char>, c: char)
    ensures
        escaped(s.push(c)) == escaped(s) + escape_char(c),
    decreases s.len(),
{
    if s.len() == 0 {
        assert(s.push(c).drop_first() =~= seq![]);
        assert(escaped(seq![]) == Seq::<char>::empty());
        assert(escape_char(c) + Seq::<char>::empty() =~= escape_char(c));
    } else {
        assert(s.push(c).drop_first() =~= s.drop_first().push(c));
        lemma_escaped_push(s.drop_first(), c);
        assert(escape_char(s[0]) + (escaped(s.drop_first()) + escape_char(c)) =~= (escape_char(
            s[0],
        ) + escaped(s.drop_first())) + escape_char(c));
    }
}

/// Escapes `&`, `<`, `>`, `'` and `"` for use in XML text or attribute values.
pub fn escape(input: &str) -> (r: String)
    ensures
        r@ == escaped(input@),
{
    let cs = chars_of(input);
    let mut result = String::new();
    let mut i: usize = 0;
    while i < cs.len()
        invariant
            cs@ == input@,
            i <= cs.len(),
            result@ == escaped(cs@.take(i as int)),
        decreases cs.len() - i,
    {
        let c = cs[i];
        proof {
            assert(cs@.take(i as int + 1) =~= cs@.take(i as int).push(c));
            lemma_escaped_push(cs@.take(i as int), c);
        }
        if c == '&' {
            push_str(&mut result, "&amp;");
            proof { reveal_strlit("&amp;"); }
        } else if c == '<' {
            push_str(&mut result, "&lt;");
            proof { reveal_strlit("&lt;"); }
        } else if c == '>' {
            push_str(&mut result, "&gt;");
            proof { reveal_strlit("&gt;"); }
        } else if c == '\'' {
            push_str(&mut result, "&apos;");
            proof { reveal_strlit("&apos;"); }
        } else if c == '"' {
            push_str(&mut result, "&quot;");
            proof { reveal_strlit("&quot;"); }
        } else {
            push_char(&mut result, c);
        }
        assert(result@ == escaped(cs@.take(i as int + 1)));
        i = i + 1;
    }
    assert(cs@.take(cs.len() as int) =~= cs@);
    result
}

/// Appends the escaped form of `text` to `writer`.
pub fn write_text(text: &str, writer: &mut String)
    ensures
        final(writer)@ == old(writer)@ + escaped(text@),
{
    let e = escape(text);
    push_str(writer, e.as_str());
}


/// Whether `s` starts with `p`.
pub open spec fn starts_with(s: Seq<char>, p: Seq<char>) -> bool {
    p.len() <= s.len() && s.take(p.len() as int) == p
}

/// The first index from `i` on that holds `c`.
pub open spec fn index_from(s: Seq<char>, i: int, c: char) -> Option<int>
    decreases s.len() - i,
{
    if i < 0 || i >= s.len() {
        None
    } else if s[i] == c {
        Some(i)
    } else {
        index_from(s, i + 1, c)
    }
}

pub(crate) proof fn lemma_index_from_bounds(s: Seq<char>, i: int, c: char)
    ensures
        index_from(s, i, c) matches Some(k) ==> i <= k < s.len() && s[k] == c,
    decreases s.len() - i,
{
    if 0 <= i < s.len() && s[i] != c {
        lemma_index_from_bounds(s, i + 1, c);
    }
}

/// The value of `c` as a digit in base `radix` (10 or 16).
pub open spec fn digit_value(c: char, radix: int) -> Option<int> {
    if '0' <= c <= '9' {
        Some(c as int - '0' as int)
    } else if radix == 16 && 'a' <= c <= 'f' {
        Some(c as int - 'a' as int + 10)
    } else if radix == 16 && 'A' <= c <= 'F' {
        Some(c as int - 'A' as int + 10)
    } else {
        None
    }
}

pub open spec fn all_digits_in(d: Seq<char>, radix: int) -> bool {
    forall|i: int| 0 <= i < d.len() ==> #[trigger] digit_value(d[i], radix) is Some
}

/// The number that the digits `d` write in base `radix`.
pub open spec fn digits_value(d: Seq<char>, radix: int) -> int
    decreases d.len(),
{
    if d.len() == 0 {
        0
    } else {
        digits_value(d.drop_last(), radix) * radix + digit_value(d.last(), radix)->0
    }
}

/// Whether `v` is a character that XML documents may hold.
pub open spec fn is_xml_char(v: int) -> bool {
    v == 0x9 || v == 0xA || v == 0xD || (0x20 <= v <= 0xD7FF) || (0xE000 <= v <= 0xFFFD) || (
    0x10000 <= v <= 0x10FFFF)
}

/// The character reference (`&#N;` or `&#xH;`) at the start of `s`, if any:
/// the character it stands for and its length.
pub open spec fn char_ref_at(s: Seq<char>) -> Option<(char, int)> {
    if s.len() >= 3 && s[0] == '&' && s[1] == '#' {
        let radix: int = if s[2] == 'x' {
            16
        } else {
            10
        };
        let start: int = if s[2] == 'x' {
            3
        } else {
            2
        };
        match index_from(s, start, ';') {
            Some(e) => {
                let d = s.subrange(start, e);
                let v = digits_value(d, radix);
                if d.len() > 0 && all_digits_in(d, radix) && is_xml_char(v) {
                    Some(((v as u32) as char, e + 1))
                } else {
                    None
                }
            },
            None => None,
        }
    } else {
        None
    }
}

/// The entity or character reference at the start of `s`, if any: the
/// character it stands for and its length.
pub open spec fn entity_at(s: Seq<char>) -> Option<(char, int)> {
    if starts_with(s, escape_char('&')) {
        Some(('&', 5))
    } else if starts_with(s, escape_char('<')) {
        Some(('<', 4))
    } else if starts_with(s, escape_char('>')) {
        Some(('>', 4))
    } else if starts_with(s, escape_char('\'')) {
        Some(('\'', 6))
    } else if starts_with(s, escape_char('"')) {
        Some(('"', 6))
    } else {
        char_ref_at(s)
    }
}

/// `p` followed by the content of `o`, if there is one.
pub open spec fn prepend(p: Seq<char>, o: Option<Seq<char>>) -> Option<Seq<char>> {
    match o {
        Some(r) => Some(p + r),
        None => None,
    }
}

/// Character data with its entity references replaced; `None` where an `&`
/// starts no predefined entity reference.
pub open spec fn unescaped(s: Seq<char>) -> Option<Seq<char>>
    decreases s.len(),
{
    if s.len() == 0 {
        Some(seq![])
    } else if s[0] == '&' {
        match entity_at(s) {
            Some((c, n)) => if 0 < n <= s.len() {
                prepend(seq![c], unescaped(s.skip(n)))
            } else {
                None
            },
            None => None,
        }
    } else {
        prepend(seq![s[0]], unescaped(s.skip(1)))
    }
}

proof fn lemma_escape_char_head(c: char)
    ensures
        escape_char(c).len() >= 1,
        (escape_char(c)[0] == '&') <==> (c == '&' || c == '<' || c == '>' || c == '\'' || c
            == '"'),
        entity_at(escape_char(c)) == (if escape_char(c)[0] == '&' {
            Some((c, escape_char(c).len() as int))
        } else {
            None::<(char, int)>
        }),
{
    let e = escape_char(c);
    assert(e.take(e.len() as int) =~= e);
    if c == '<' {
        assert(!starts_with(e, escape_char('&')));
    } else if c == '>' {
        assert(!starts_with(e, escape_char('&')));
        assert(!starts_with(e, escape_char('<')));
    } else if c == '\'' {
        assert(e.take(5) != escape_char('&'));
        assert(!starts_with(e, escape_char('&')));
        assert(!starts_with(e, escape_char('<')));
        assert(!starts_with(e, escape_char('>')));
    } else if c == '"' {
        assert(e.take(5) != escape_char('&'));
        assert(!starts_with(e, escape_char('&')));
        assert(!starts_with(e, escape_char('<')));
        assert(!starts_with(e, escape_char('>')));
        assert(e.take(6) != escape_char('\''));
        assert(!starts_with(e, escape_char('\'')));
    }
}

proof fn lemma_entity_at_prefix(c: char, t: Seq<char>)
    requires
        c == '&' || c == '<' || c == '>' || c == '\'' || c == '"',
    ensures
        entity_at(escape_char(c) + t) == Some((c, escape_char(c).len() as int)),
{
    let e = escape_char(c);
    let x = e + t;
    assert(x.take(e.len() as int) =~= e);
    if c != '&' && x.len() >= 5 {
        assert(x.take(5)[1] == x[1] && x.take(5)[2] == x[2]);
        assert(!starts_with(x, escape_char('&')));
    }
    if c != '&' && c != '<' && x.len() >= 4 {
        assert(x.take(4)[1] == x[1]);
        assert(!starts_with(x, escape_char('<')));
    }
    if c != '&' && c != '<' && c != '>' && x.len() >= 4 {
        assert(x.take(4)[1] == x[1]);
        assert(!starts_with(x, escape_char('>')));
    }
    if c == '"' && x.len() >= 6 {
        assert(x.take(6)[1] == x[1]);
        assert(!starts_with(x, escape_char('\'')));
    }
}

proof fn lemma_entity_at_bounds(s: Seq<char>)
    ensures
        entity_at(s) matches Some((_, n)) ==> 0 < n <= s.len(),
{
    if s.len() >= 3 && s[0] == '&' && s[1] == '#' {
        let start: int = if s[2] == 'x' {
            3
        } else {
            2
        };
        lemma_index_from_bounds(s, start, ';');
    }
}

/// Unescaping the escaped form of any text gives the text back.
pub proof fn lemma_unescape_escaped(s: Seq<char>)
    ensures
        unescaped(escaped(s)) == Some(s),
    decreases s.len(),
{
    if s.len() > 0 {
        let c = s[0];
        let e = escape_char(c);
        let rest = escaped(s.drop_first());
        let x = escaped(s);
        assert(x == e + rest);
        lemma_escape_char_head(c);
        lemma_unescape_escaped(s.drop_first());
        assert(x.skip(e.len() as int) =~= rest);
        assert(x[0] == e[0]);
        if e[0] == '&' {
            lemma_entity_at_prefix(c, rest);
            assert(entity_at(x) == Some((c, e.len() as int)));
        } else {
            assert(e =~= seq![c]);
        }
        assert(seq![c] + s.drop_first() =~= s);
    }
}

/// Whether `cs` holds `pat` from position `i` on.
fn matches_at(cs: &Vec<char>, i: usize, pat: &str) -> (r: bool)
    requires
        i <= cs@.len(),
    ensures
        r == starts_with(cs@.skip(i as int), pat@),
{
    let p = chars_of(pat);
    if p.len() > cs.len() - i {
        return false;
    }
    let mut k: usize = 0;
    while k < p.len()
        invariant
            p@ == pat@,
            i + p@.len() <= cs@.len(),
            cs@.len() <= usize::MAX,
            k <= p@.len(),
            forall|j: int| 0 <= j < k ==> cs@[i + j] == p@[j],
        decreases p.len() - k,
    {
        if cs[i + k] != p[k] {
            assert(cs@.skip(i as int).take(p@.len() as int)[k as int] != p@[k as int]);
            return false;
        }
        k = k + 1;
    }
    assert(cs@.skip(i as int).take(p@.len() as int) =~= p@);
    true
}

fn entity_at_exec(cs: &Vec<char>, i: usize) -> (r: Option<(char, usize)>)
    requires
        i <= cs@.len(),
    ensures
        match r {
            Some((c, n)) => entity_at(cs@.skip(i as int)) == Some((c, n as int)),
            None => entity_at(cs@.skip(i as int)) is None,
        },
{
    proof {
        reveal_strlit("&amp;");
        reveal_strlit("&lt;");
        reveal_strlit("&gt;");
        reveal_strlit("&apos;");
        reveal_strlit("&quot;");
        assert("&amp;"@ =~= escape_char('&'));
        assert("&lt;"@ =~= escape_char('<'));
        assert("&gt;"@ =~= escape_char('>'));
        assert("&apos;"@ =~= escape_char('\''));
        assert("&quot;"@ =~= escape_char('"'));
    }
    if matches_at(cs, i, "&amp;") {
        Some(('&', 5))
    } else if matches_at(cs, i, "&lt;") {
        Some(('<', 4))
    } else if matches_at(cs, i, "&gt;") {
        Some(('>', 4))
    } else if matches_at(cs, i, "&apos;") {
        Some(('\'', 6))
    } else if matches_at(cs, i, "&quot;") {
        Some(('"', 6))
    } else {
        char_ref_exec(cs, i)
    }
}

/// Relies on `char::from_u32`: the character with code `v`, where `v` is a
/// Unicode scalar value.
#[verifier::external_body]
fn char_from_code(v: u32) -> (r: Option<char>)
    ensures
        r is Some <==> vstd::utf8::is_scalar(v),
        r is Some ==> r->0 == v as char,
{
    char::from_u32(v)
}

fn digit_exec(c: char, radix: u32) -> (r: Option<u32>)
    requires
        radix == 10 || radix == 16,
    ensures
        match r {
            Some(v) => digit_value(c, radix as int) == Some(v as int) && v < radix,
            None => digit_value(c, radix as int) is None,
        },
{
    if '0' <= c && c <= '9' {
        Some((c as u32) - ('0' as u32))
    } else if radix == 16 && 'a' <= c && c <= 'f' {
        Some((c as u32) - ('a' as u32) + 10)
    } else if radix == 16 && 'A' <= c && c <= 'F' {
        Some((c as u32) - ('A' as u32) + 10)
    } else {
        None
    }
}

proof fn lemma_digits_prefix_grows(d: Seq<char>, radix: int, i: int)
    requires
        0 <= i <= d.len(),
        radix == 10 || radix == 16,
        all_digits_in(d, radix),
    ensures
        0 <= digits_value(d.take(i), radix) <= digits_value(d, radix),
    decreases d.len() - i,
{
    lemma_digits_nonneg(d.take(i), radix);
    if i < d.len() {
        lemma_digits_prefix_grows(d, radix, i + 1);
        let p = d.take(i + 1);
        assert(p.drop_last() =~= d.take(i));
        assert(p.last() == d[i]);
        assert(digit_value(d[i], radix) is Some);
        let a = digits_value(d.take(i), radix);
        let x = digit_value(d[i], radix)->0;
        assert(x >= 0);
        assert(a <= a * radix + x) by (nonlinear_arith)
            requires
                a >= 0,
                radix >= 10,
                x >= 0,
        ;
    } else {
        assert(d.take(i) =~= d);
    }
}

proof fn lemma_digits_nonneg(d: Seq<char>, radix: int)
    requires
        radix == 10 || radix == 16,
        all_digits_in(d, radix),
    ensures
        digits_value(d, radix) >= 0,
    decreases d.len(),
{
    if d.len() > 0 {
        let p = d.drop_last();
        assert(all_digits_in(p, radix)) by {
            assert forall|i: int| 0 <= i < p.len() implies #[trigger] digit_value(p[i], radix) is Some by {
                assert(p[i] == d[i]);
            }
        }
        lemma_digits_nonneg(p, radix);
        assert(digit_value(d[d.len() - 1], radix) is Some);
        let a = digits_value(p, radix);
        assert(a * radix >= 0) by (nonlinear_arith)
            requires
                a >= 0,
                radix >= 10,
        ;
    }
}

fn char_ref_exec(cs: &Vec<char>, i: usize) -> (r: Option<(char, usize)>)
    requires
        i <= cs@.len(),
    ensures
        match r {
            Some((c, n)) => char_ref_at(cs@.skip(i as int)) == Some((c, n as int)),
            None => char_ref_at(cs@.skip(i as int)) is None,
        },
{
    let ghost s = cs@.skip(i as int);
    let n = cs.len();
    if n - i < 3 || cs[i] != '&' || cs[i + 1] != '#' {
        return None;
    }
    let hex = cs[i + 2] == 'x';
    let radix: u32 = if hex { 16 } else { 10 };
    let start: usize = if hex { 3 } else { 2 };
    assert(s[0] == '&' && s[1] == '#' && s[2] == cs@[i + 2] && s.len() >= 3);
    assert(start as int == (if s[2] == 'x' { 3int } else { 2int }));
    assert(radix as int == (if s[2] == 'x' { 16int } else { 10int }));
    // The terminating ';'.
    let mut e = i + start;
    while e < n && cs[e] != ';'
        invariant
            i + start <= e <= n,
            n == cs@.len(),
            s == cs@.skip(i as int),
            index_from(s, start as int, ';') == index_from(s, e - i, ';'),
        decreases n - e,
    {
        e = e + 1;
    }
    if e == n {
        assert(index_from(s, e - i, ';') is None);
        assert(index_from(s, start as int, ';') is None);
        assert(char_ref_at(s) is None);
        return None;
    }
    assert(index_from(s, start as int, ';') == Some(e - i));
    let ghost d = s.subrange(start as int, e - i);
    if e == i + start {
        return None;
    }
    let mut acc: u32 = 0;
    let mut k = i + start;
    while k < e
        invariant
            i + start <= k <= e < n,
            n == cs@.len(),
            s == cs@.skip(i as int),
            d == s.subrange(start as int, e - i),
            radix == 10 || radix == 16,
            all_digits_in(d.take(k - i - start), radix as int),
            acc as int == digits_value(d.take(k - i - start), radix as int),
            acc <= 0x10FFFF,
            s.len() >= 3 && s[0] == '&' && s[1] == '#',
            start as int == (if s[2] == 'x' { 3int } else { 2int }),
            radix as int == (if s[2] == 'x' { 16int } else { 10int }),
            index_from(s, start as int, ';') == Some(e - i),
        decreases e - k,
    {
        let j = k - i - start;
        assert(d[j as int] == cs@[k as int]);
        assert(d.take(j + 1).drop_last() =~= d.take(j as int));
        match digit_exec(cs[k], radix) {
            None => {
                assert(!all_digits_in(d, radix as int)) by {
                    assert(digit_value(d[j as int], radix as int) is None);
                }
                return None;
            },
            Some(v) => {
                assert(acc * radix <= 0x10FFFF * 16) by (nonlinear_arith)
                    requires
                        acc <= 0x10FFFF,
                        radix <= 16,
                ;
                let next = acc * radix + v;
                assert(all_digits_in(d.take(j + 1), radix as int)) by {
                    assert forall|x: int| 0 <= x < d.take(j + 1).len() implies #[trigger] digit_value(d.take(j + 1)[x], radix as int) is Some by {
                        if x < j {
                            assert(d.take(j + 1)[x] == d.take(j as int)[x]);
                        }
                    }
                }
                assert(next as int == digits_value(d.take(j + 1), radix as int));
                if next > 0x10FFFF {
                    proof {
                        if all_digits_in(d, radix as int) {
                            lemma_digits_prefix_grows(d, radix as int, j + 1);
                        }
                    }
                    return None;
                }
                acc = next;
            },
        }
        k = k + 1;
    }
    assert(d.take(d.len() as int) =~= d);
    let ok = acc == 0x9 || acc == 0xA || acc == 0xD || (0x20 <= acc && acc <= 0xD7FF) || (0xE000 <= acc
        && acc <= 0xFFFD) || (0x10000 <= acc && acc <= 0x10FFFF);
    if !ok {
        return None;
    }
    match char_from_code(acc) {
        Some(c) => Some((c, e + 1 - i)),
        None => None,
    }
}

/// Replaces the predefined entity references of XML character data by the
/// characters they stand for; `None` on an `&` that starts none of them.
pub fn unescape(input: &str) -> (r: Option<String>)
    ensures
        match r {
            Some(t) => unescaped(input@) == Some(t@),
            None => unescaped(input@) is None,
        },
{
    let cs = chars_of(input);
    let mut out = String::new();
    let mut i: usize = 0;
    assert(cs@.skip(0) =~= cs@);
    assert(out@ + Seq::<char>::empty() =~= Seq::<char>::empty());
    while i < cs.len()
        invariant
            cs@ == input@,
            i <= cs.len(),
            unescaped(cs@) == prepend(out@, unescaped(cs@.skip(i as int))),
        decreases cs.len() - i,
    {
        let ghost s = cs@.skip(i as int);
        proof {
            lemma_entity_at_bounds(s);
        }
        let c = cs[i];
        if c == '&' {
            match entity_at_exec(&cs, i) {
                Some((d, n)) => {
                    assert(s.skip(n as int) =~= cs@.skip(i + n));
                    proof {
                        let u = unescaped(cs@.skip(i + n));
                        if u is Some {
                            assert(out@ + (seq![d] + u->0) =~= out@.push(d) + u->0);
                        }
                    }
                    push_char(&mut out, d);
                    i = i + n;
                },
                None => {
                    return None;
                },
            }
        } else {
            assert(s.skip(1) =~= cs@.skip(i + 1));
            proof {
                let u = unescaped(cs@.skip(i + 1));
                if u is Some {
                    assert(out@ + (seq![c] + u->0) =~= out@.push(c) + u->0);
                }
            }
            push_char(&mut out, c);
            i = i + 1;
        }
    }
    assert(cs@.skip(i as int) =~= Seq::<char>::empty());
    assert(out@ + Seq::<char>::empty() =~= out@);
    Some(out)
}

} // verus!
