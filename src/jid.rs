//! Jabber IDs.

use vstd::prelude::*;
use crate::text::{chars_of, index_from, lemma_index_from_bounds, push_char, push_str};

verus! {

/// Why a string is not a Jabber ID.
#[derive(Debug, Clone, PartialEq, Eq)]
pub enum JidParseError {
    NoDomain,
}

/// A Jabber ID: an optional node (before `@`), a domain, and an optional
/// resource (after `/`).
#[derive(Debug, Clone, PartialEq, Eq)]
pub struct Jid {
    /// The node part of the Jabber ID, if it exists, else None.
    pub node: Option<String>,
    /// The domain of the Jabber ID.
    pub domain: String,
    /// The resource of the Jabber ID, if it exists, else None.
    pub resource: Option<String>,
}

pub open spec fn opt_chars(o: Option<String>) -> Option<Seq<char>> {
    match o {
        Some(s) => Some(s@),
        None => None,
    }
}

/// `Some(t)` for a non-empty `t`.
pub open spec fn non_empty(t: Seq<char>) -> Option<Seq<char>> {
    if t.len() == 0 {
        None
    } else {
        Some(t)
    }
}

/// The parts of a Jabber ID: the node runs up to the first `@` unless a `/`
/// comes first; the domain up to the first `/`; the resource after it. A
/// missing domain is an error; an empty resource is none.
pub open spec fn jid_parts(s: Seq<char>) -> Option<(Option<Seq<char>>, Seq<char>, Option<Seq<char>>)> {
    let at = index_from(s, 0, '@');
    let slash = index_from(s, 0, '/');
    match slash {
        Some(k) => if at is None || k < at->0 {
            Some((None, s.take(k), non_empty(s.skip(k + 1))))
        } else {
            Some((Some(s.take(at->0)), s.subrange(at->0 + 1, k), non_empty(s.skip(k + 1))))
        },
        None => match at {
            Some(a) => if s.len() > a + 1 {
                Some((Some(s.take(a)), s.skip(a + 1), None))
            } else {
                None
            },
            None => if s.len() > 0 {
                Some((None, s, None))
            } else {
                None
            },
        },
    }
}

impl Jid {
    pub open spec fn parts(&self) -> (Option<Seq<char>>, Seq<char>, Option<Seq<char>>) {
        (opt_chars(self.node), self.domain@, opt_chars(self.resource))
    }

    /// The text form: `node@domain/resource`, without the parts that are
    /// absent.
    pub open spec fn text(&self) -> Seq<char> {
        (match self.node {
            Some(n) => n@ + seq!['@'],
            None => seq![],
        }) + self.domain@ + (match self.resource {
            Some(r) => seq!['/'] + r@,
            None => seq![],
        })
    }

    /// A Jabber ID of the form `node@domain/resource`.
    pub fn full(node: &str, domain: &str, resource: &str) -> (r: Jid)
        ensures
            r.parts() == (Some(node@), domain@, Some(resource@)),
    {
        Jid {
            node: Some(node.to_owned()),
            domain: domain.to_owned(),
            resource: Some(resource.to_owned()),
        }
    }

    /// A Jabber ID of the form `node@domain`.
    pub fn bare(node: &str, domain: &str) -> (r: Jid)
        ensures
            r.parts() == (Some(node@), domain@, None::<Seq<char>>),
    {
        Jid { node: Some(node.to_owned()), domain: domain.to_owned(), resource: None }
    }

    /// A Jabber ID of the form `domain`.
    pub fn domain(domain: &str) -> (r: Jid)
        ensures
            r.parts() == (None::<Seq<char>>, domain@, None::<Seq<char>>),
    {
        Jid { node: None, domain: domain.to_owned(), resource: None }
    }

    /// A Jabber ID of the form `domain/resource`.
    pub fn domain_with_resource(domain: &str, resource: &str) -> (r: Jid)
        ensures
            r.parts() == (None::<Seq<char>>, domain@, Some(resource@)),
    {
        Jid { node: None, domain: domain.to_owned(), resource: Some(resource.to_owned()) }
    }

    /// Parses a Jabber ID.
    pub fn from_str(s: &str) -> (r: Result<Jid, JidParseError>)
        ensures
            match jid_parts(s@) {
                Some(p) => r matches Ok(j) && j.parts() == p,
                None => r == Err::<Jid, JidParseError>(JidParseError::NoDomain),
            },
    {
        let cs = chars_of(s);
        let n = cs.len();
        let at = find_char(&cs, '@');
        let slash = find_char(&cs, '/');
        proof {
            lemma_index_from_bounds(cs@, 0, '@');
            lemma_index_from_bounds(cs@, 0, '/');
        }
        match slash {
            Some(k) => {
                let resource = if k + 1 < n {
                    Some(substring(&cs, k + 1, n))
                } else {
                    None
                };
                assert(k + 1 >= n ==> cs@.skip(k + 1) =~= Seq::<char>::empty());
                let (node, domain) = match at {
                    Some(a) if a < k => (Some(substring(&cs, 0, a)), substring(&cs, a + 1, k)),
                    _ => (None, substring(&cs, 0, k)),
                };
                Ok(Jid { node, domain, resource })
            },
            None => match at {
                Some(a) => {
                    if n > a + 1 {
                        Ok(Jid { node: Some(substring(&cs, 0, a)), domain: substring(&cs, a + 1, n), resource: None })
                    } else {
                        Err(JidParseError::NoDomain)
                    }
                },
                None => {
                    if n > 0 {
                        Ok(Jid { node: None, domain: substring(&cs, 0, n), resource: None })
                    } else {
                        Err(JidParseError::NoDomain)
                    }
                },
            },
        }
    }

    /// The text form of the Jabber ID.
    pub fn to_string(&self) -> (r: String)
        ensures
            r@ == self.text(),
    {
        let mut out = String::new();
        if let Some(n) = &self.node {
            push_str(&mut out, n.as_str());
            push_char(&mut out, '@');
        }
        push_str(&mut out, self.domain.as_str());
        if let Some(res) = &self.resource {
            push_char(&mut out, '/');
            push_str(&mut out, res.as_str());
        }
        assert(out@ =~= self.text());
        out
    }
}

fn find_char(cs: &Vec<char>, c: char) -> (r: Option<usize>)
    ensures
        match r {
            Some(k) => index_from(cs@, 0, c) == Some(k as int),
            None => index_from(cs@, 0, c) is None,
        },
{
    let mut i: usize = 0;
    while i < cs.len()
        invariant
            index_from(cs@, 0, c) == index_from(cs@, i as int, c),
        decreases cs.len() - i,
    {
        if cs[i] == c {
            return Some(i);
        }
        i = i + 1;
    }
    None
}

/// The characters from `lo` up to `hi`, as a string.
pub(crate) fn substring(cs: &Vec<char>, lo: usize, hi: usize) -> (r: String)
    requires
        lo <= hi <= cs@.len(),
    ensures
        r@ == cs@.subrange(lo as int, hi as int),
{
    let mut out = String::new();
    let mut i = lo;
    while i < hi
        invariant
            lo <= i <= hi <= cs@.len(),
            out@ == cs@.subrange(lo as int, i as int),
        decreases hi - i,
    {
        push_char(&mut out, cs[i]);
        assert(out@ =~= cs@.subrange(lo as int, i + 1));
        i = i + 1;
    }
    out
}

} // verus!
