//! The `http://jabber.org/protocol/muc#user` payloads of multi-user chat.

use vstd::prelude::*;
use crate::element::{Element, Node, opt_view};
use crate::error::Error;
use crate::jid::{Jid, jid_parts};
use crate::text::text_eq;

verus! {

/// The namespace of MUC user payloads.
pub const MUC_USER: &'static str = "http://jabber.org/protocol/muc#user";

/// Whether every character is an ASCII digit.
pub open spec fn all_digits(s: Seq<char>) -> bool {
    forall|i: int| 0 <= i < s.len() ==> '0' <= #[trigger] s[i] <= '9'
}

/// The value of a string of decimal digits.
pub open spec fn decimal_value(s: Seq<char>) -> int
    decreases s.len(),
{
    if s.len() == 0 {
        0
    } else {
        decimal_value(s.drop_last()) * 10 + (s.last() as int - '0' as int)
    }
}

/// The number written in `s` in decimal, where it is one and fits in a `u32`.
pub open spec fn decimal(s: Seq<char>) -> Option<int> {
    if s.len() > 0 && all_digits(s) && decimal_value(s) <= u32::MAX {
        Some(decimal_value(s))
    } else {
        None
    }
}

proof fn lemma_decimal_prefix_grows(s: Seq<char>, i: int)
    requires
        0 <= i <= s.len(),
        all_digits(s),
    ensures
        decimal_value(s.take(i)) <= decimal_value(s),
    decreases s.len() - i,
{
    if i < s.len() {
        lemma_decimal_prefix_grows(s, i + 1);
        assert(s.take(i + 1).drop_last() =~= s.take(i));
        assert(s.take(i + 1).last() == s[i]);
        assert(decimal_value(s.take(i)) >= 0) by {
            lemma_decimal_nonneg(s.take(i));
        }
    } else {
        assert(s.take(i) =~= s);
    }
}

proof fn lemma_decimal_nonneg(s: Seq<char>)
    requires
        all_digits(s),
    ensures
        decimal_value(s) >= 0,
    decreases s.len(),
{
    if s.len() > 0 {
        assert(all_digits(s.drop_last())) by {
            assert forall|i: int| 0 <= i < s.drop_last().len() implies '0' <= #[trigger] s.drop_last()[i] <= '9' by {
                assert(s.drop_last()[i] == s[i]);
            }
        }
        lemma_decimal_nonneg(s.drop_last());
        assert('0' <= s[s.len() - 1] <= '9');
    }
}

/// Reads a decimal number that fits in a `u32`.
pub fn parse_decimal(s: &str) -> (r: Option<u32>)
    ensures
        match r {
            Some(v) => decimal(s@) == Some(v as int),
            None => decimal(s@) is None,
        },
{
    let cs = crate::text::chars_of(s);
    if cs.len() == 0 {
        return None;
    }
    let mut acc: u32 = 0;
    let mut i: usize = 0;
    while i < cs.len()
        invariant
            cs@ == s@,
            i <= cs@.len(),
            all_digits(cs@.take(i as int)),
            acc as int == decimal_value(cs@.take(i as int)),
        decreases cs.len() - i,
    {
        let c = cs[i];
        assert(cs@.take(i + 1).drop_last() =~= cs@.take(i as int));
        if c < '0' || c > '9' {
            assert(!all_digits(cs@));
            return None;
        }
        let d = (c as u32) - ('0' as u32);
        if acc > (u32::MAX - d) / 10 {
            proof {
                assert(all_digits(cs@.take(i + 1)));
                assert(decimal_value(cs@.take(i + 1)) > u32::MAX);
                if all_digits(cs@) {
                    lemma_decimal_prefix_grows(cs@, i + 1);
                }
            }
            return None;
        }
        acc = acc * 10 + d;
        assert(all_digits(cs@.take(i + 1)));
        i = i + 1;
    }
    assert(cs@.take(cs@.len() as int) =~= cs@);
    Some(acc)
}

/// Why a string that is no `u32` fails to parse as one.
pub fn number_error(s: &str) -> (r: &'static str)
    ensures
        s@.len() == 0 ==> r == "cannot parse integer from empty string",
        s@.len() > 0 && !all_digits(s@) ==> r == "invalid digit found in string",
        s@.len() > 0 && all_digits(s@) ==> r == "number too large to fit in target type",
{
    let cs = crate::text::chars_of(s);
    if cs.len() == 0 {
        return "cannot parse integer from empty string";
    }
    let mut i: usize = 0;
    while i < cs.len()
        invariant
            i <= cs@.len(),
            cs@ == s@,
            forall|k: int| 0 <= k < i ==> '0' <= #[trigger] cs@[k] <= '9',
        decreases cs.len() - i,
    {
        if cs[i] < '0' || cs[i] > '9' {
            return "invalid digit found in string";
        }
        i = i + 1;
    }
    "number too large to fit in target type"
}

/// A status code of an occupant's presence.
#[derive(Debug, Clone, Copy, PartialEq, Eq)]
pub enum Status {
    /// Status: 100
    NonAnonymousRoom,
    /// Status: 101
    AffiliationChange,
    /// Status: 102
    ConfigShowsUnavailableMembers,
    /// Status: 103
    ConfigHidesUnavailableMembers,
    /// Status: 104
    ConfigNonPrivacyRelated,
    /// Status: 110
    SelfPresence,
    /// Status: 170
    ConfigRoomLoggingEnabled,
    /// Status: 171
    ConfigRoomLoggingDisabled,
    /// Status: 172
    ConfigRoomNonAnonymous,
    /// Status: 173
    ConfigRoomSemiAnonymous,
    /// Status: 201
    RoomHasBeenCreated,
    /// Status: 210
    AssignedNick,
    /// Status: 301
    Banned,
    /// Status: 303
    NewNick,
    /// Status: 307
    Kicked,
    /// Status: 321
    RemovalFromRoom,
    /// Status: 322
    ConfigMembersOnly,
    /// Status: 332
    ServiceShutdown,
}

pub open spec fn status_code(s: Status) -> u32 {
    match s {
        Status::NonAnonymousRoom => 100,
        Status::AffiliationChange => 101,
        Status::ConfigShowsUnavailableMembers => 102,
        Status::ConfigHidesUnavailableMembers => 103,
        Status::ConfigNonPrivacyRelated => 104,
        Status::SelfPresence => 110,
        Status::ConfigRoomLoggingEnabled => 170,
        Status::ConfigRoomLoggingDisabled => 171,
        Status::ConfigRoomNonAnonymous => 172,
        Status::ConfigRoomSemiAnonymous => 173,
        Status::RoomHasBeenCreated => 201,
        Status::AssignedNick => 210,
        Status::Banned => 301,
        Status::NewNick => 303,
        Status::Kicked => 307,
        Status::RemovalFromRoom => 321,
        Status::ConfigMembersOnly => 322,
        Status::ServiceShutdown => 332,
    }
}


/// The decimal text of a status code.
pub open spec fn code_text(s: Status) -> Seq<char> {
    match s {
        Status::NonAnonymousRoom => seq!['1', '0', '0'],
        Status::AffiliationChange => seq!['1', '0', '1'],
        Status::ConfigShowsUnavailableMembers => seq!['1', '0', '2'],
        Status::ConfigHidesUnavailableMembers => seq!['1', '0', '3'],
        Status::ConfigNonPrivacyRelated => seq!['1', '0', '4'],
        Status::SelfPresence => seq!['1', '1', '0'],
        Status::ConfigRoomLoggingEnabled => seq!['1', '7', '0'],
        Status::ConfigRoomLoggingDisabled => seq!['1', '7', '1'],
        Status::ConfigRoomNonAnonymous => seq!['1', '7', '2'],
        Status::ConfigRoomSemiAnonymous => seq!['1', '7', '3'],
        Status::RoomHasBeenCreated => seq!['2', '0', '1'],
        Status::AssignedNick => seq!['2', '1', '0'],
        Status::Banned => seq!['3', '0', '1'],
        Status::NewNick => seq!['3', '0', '3'],
        Status::Kicked => seq!['3', '0', '7'],
        Status::RemovalFromRoom => seq!['3', '2', '1'],
        Status::ConfigMembersOnly => seq!['3', '2', '2'],
        Status::ServiceShutdown => seq!['3', '3', '2'],
    }
}

/// Whether `e` is the MUC user element `name`.
pub open spec fn is_muc(e: Element, name: Seq<char>) -> bool {
    e.name@ == name && opt_view(e.ns) == Some(MUC_USER@)
}

pub open spec fn has_child(e: Element) -> bool {
    exists|i: int| 0 <= i < e.children@.len() && e.children@[i] is Element
}

/// Whether `e` is a `<status/>` element that reads as a status.
pub open spec fn status_ok(e: Element) -> bool {
    &&& is_muc(e, seq!['s', 't', 'a', 't', 'u', 's'])
    &&& !has_child(e)
    &&& e.attrs_within(seq![seq!['c', 'o', 'd', 'e']])
    &&& e.attr_spec(seq!['c', 'o', 'd', 'e']) matches Some(c) && decimal(c) matches Some(v)
        && exists|s: Status| status_code(s) == v
}

impl Status {
    /// The numeric code.
    pub fn code(&self) -> (r: u32)
        ensures
            r == status_code(*self),
    {
        match self {
            Status::NonAnonymousRoom => 100,
            Status::AffiliationChange => 101,
            Status::ConfigShowsUnavailableMembers => 102,
            Status::ConfigHidesUnavailableMembers => 103,
            Status::ConfigNonPrivacyRelated => 104,
            Status::SelfPresence => 110,
            Status::ConfigRoomLoggingEnabled => 170,
            Status::ConfigRoomLoggingDisabled => 171,
            Status::ConfigRoomNonAnonymous => 172,
            Status::ConfigRoomSemiAnonymous => 173,
            Status::RoomHasBeenCreated => 201,
            Status::AssignedNick => 210,
            Status::Banned => 301,
            Status::NewNick => 303,
            Status::Kicked => 307,
            Status::RemovalFromRoom => 321,
            Status::ConfigMembersOnly => 322,
            Status::ServiceShutdown => 332,
        }
    }

    /// The status with numeric code `c`.
    pub fn from_code(c: u32) -> (r: Option<Status>)
        ensures
            r matches Some(s) ==> status_code(s) == c,
            r is None ==> forall|s: Status| status_code(s) != c,
    {
        match c {
            100 => Some(Status::NonAnonymousRoom),
            101 => Some(Status::AffiliationChange),
            102 => Some(Status::ConfigShowsUnavailableMembers),
            103 => Some(Status::ConfigHidesUnavailableMembers),
            104 => Some(Status::ConfigNonPrivacyRelated),
            110 => Some(Status::SelfPresence),
            170 => Some(Status::ConfigRoomLoggingEnabled),
            171 => Some(Status::ConfigRoomLoggingDisabled),
            172 => Some(Status::ConfigRoomNonAnonymous),
            173 => Some(Status::ConfigRoomSemiAnonymous),
            201 => Some(Status::RoomHasBeenCreated),
            210 => Some(Status::AssignedNick),
            301 => Some(Status::Banned),
            303 => Some(Status::NewNick),
            307 => Some(Status::Kicked),
            321 => Some(Status::RemovalFromRoom),
            322 => Some(Status::ConfigMembersOnly),
            332 => Some(Status::ServiceShutdown),
            _ => None,
        }
    }

    /// Reads a `<status code='…'/>` element.
    pub fn parse(elem: &Element) -> (r: Result<Status, Error>)
        ensures
            !is_muc(*elem, seq!['s', 't', 'a', 't', 'u', 's']) ==> r == Err::<Status, Error>(
                Error::ParseError("This is not a status element."),
            ),
            r matches Ok(s) ==> {
                &&& is_muc(*elem, seq!['s', 't', 'a', 't', 'u', 's'])
                &&& !has_child(*elem)
                &&& elem.attrs_within(seq![seq!['c', 'o', 'd', 'e']])
                &&& elem.attr_spec(seq!['c', 'o', 'd', 'e']) matches Some(c) && decimal(c) == Some(
                    status_code(s) as int,
                )
            },
            is_muc(*elem, seq!['s', 't', 'a', 't', 'u', 's']) && has_child(*elem) ==> r
                == Err::<Status, Error>(Error::ParseError("Unknown child in status element.")),
            r is Ok <==> status_ok(*elem),
            is_muc(*elem, seq!['s', 't', 'a', 't', 'u', 's']) && !has_child(*elem) ==> {
                let code = elem.attr_spec(seq!['c', 'o', 'd', 'e']);
                if !elem.attrs_within(seq![seq!['c', 'o', 'd', 'e']]) {
                    r == Err::<Status, Error>(
                        Error::ParseError("Unknown attribute in status element."),
                    )
                } else if code is None {
                    r == Err::<Status, Error>(
                        Error::ParseError("Required attribute 'code' missing."),
                    )
                } else if decimal(code->0) is None {
                    r matches Err(Error::ParseIntError(_))
                } else if forall|s: Status| status_code(s) != decimal(code->0)->0 {
                    r == Err::<Status, Error>(Error::ParseError("Invalid status code."))
                } else {
                    r is Ok
                }
            },
    {
        proof {
            reveal_strlit("status");
            reveal_strlit("code");
            assert("status"@ =~= seq!['s', 't', 'a', 't', 'u', 's']);
            assert("code"@ =~= seq!['c', 'o', 'd', 'e']);
        }
        if !elem.is("status", MUC_USER) {
            return Err(Error::ParseError("This is not a status element."));
        }
        if elem.has_element_child() {
            return Err(Error::ParseError("Unknown child in status element."));
        }
        let allowed: Vec<&str> = vec!["code"];
        assert(allowed@.map_values(|a: &str| a@) =~= seq![seq!['c', 'o', 'd', 'e']]);
        if !elem.only_attrs(&allowed) {
            return Err(Error::ParseError("Unknown attribute in status element."));
        }
        let code = match elem.attr("code") {
            Some(c) => c,
            None => {
                return Err(Error::ParseError("Required attribute 'code' missing."));
            },
        };
        let n = match parse_decimal(code.as_str()) {
            Some(n) => n,
            None => {
                return Err(Error::ParseIntError(number_error(code.as_str())));
            },
        };
        match Status::from_code(n) {
            Some(s) => Ok(s),
            None => Err(Error::ParseError("Invalid status code.")),
        }
    }

    /// The decimal text of the code.
    pub fn code_str(&self) -> (r: &'static str)
        ensures
            r@ == code_text(*self),
    {
        proof {
            reveal_strlit("100");
            reveal_strlit("101");
            reveal_strlit("102");
            reveal_strlit("103");
            reveal_strlit("104");
            reveal_strlit("110");
            reveal_strlit("170");
            reveal_strlit("171");
            reveal_strlit("172");
            reveal_strlit("173");
            reveal_strlit("201");
            reveal_strlit("210");
            reveal_strlit("301");
            reveal_strlit("303");
            reveal_strlit("307");
            reveal_strlit("321");
            reveal_strlit("322");
            reveal_strlit("332");
        }
        assert("100"@ =~= seq!['1', '0', '0']);
        assert("101"@ =~= seq!['1', '0', '1']);
        assert("102"@ =~= seq!['1', '0', '2']);
        assert("103"@ =~= seq!['1', '0', '3']);
        assert("104"@ =~= seq!['1', '0', '4']);
        assert("110"@ =~= seq!['1', '1', '0']);
        assert("170"@ =~= seq!['1', '7', '0']);
        assert("171"@ =~= seq!['1', '7', '1']);
        assert("172"@ =~= seq!['1', '7', '2']);
        assert("173"@ =~= seq!['1', '7', '3']);
        assert("201"@ =~= seq!['2', '0', '1']);
        assert("210"@ =~= seq!['2', '1', '0']);
        assert("301"@ =~= seq!['3', '0', '1']);
        assert("303"@ =~= seq!['3', '0', '3']);
        assert("307"@ =~= seq!['3', '0', '7']);
        assert("321"@ =~= seq!['3', '2', '1']);
        assert("322"@ =~= seq!['3', '2', '2']);
        assert("332"@ =~= seq!['3', '3', '2']);
        match self {
            Status::NonAnonymousRoom => "100",
            Status::AffiliationChange => "101",
            Status::ConfigShowsUnavailableMembers => "102",
            Status::ConfigHidesUnavailableMembers => "103",
            Status::ConfigNonPrivacyRelated => "104",
            Status::SelfPresence => "110",
            Status::ConfigRoomLoggingEnabled => "170",
            Status::ConfigRoomLoggingDisabled => "171",
            Status::ConfigRoomNonAnonymous => "172",
            Status::ConfigRoomSemiAnonymous => "173",
            Status::RoomHasBeenCreated => "201",
            Status::AssignedNick => "210",
            Status::Banned => "301",
            Status::NewNick => "303",
            Status::Kicked => "307",
            Status::RemovalFromRoom => "321",
            Status::ConfigMembersOnly => "322",
            Status::ServiceShutdown => "332",
        }
    }

    /// The `<status code='…'/>` element.
    pub fn into_element(self) -> (r: Element)
        ensures
            is_muc(r, seq!['s', 't', 'a', 't', 'u', 's']),
            r.attr_spec(seq!['c', 'o', 'd', 'e']) == Some(code_text(self)),
            r.attrs@.len() == 1,
            r.children@.len() == 0,
    {
        proof {
            reveal_strlit("status");
            reveal_strlit("code");
            assert("status"@ =~= seq!['s', 't', 'a', 't', 'u', 's']);
            assert("code"@ =~= seq!['c', 'o', 'd', 'e']);
        }
        let mut e = Element::new("status", MUC_USER);
        e.set_attr("code", self.code_str());
        assert(e.attrs@[0] == e.attrs@.last());
        assert(crate::element::attr_value(e.attrs@, seq!['c', 'o', 'd', 'e'], 0) is None);
        e
    }

    /// Reads a `<status code='…'/>` element.
    pub fn try_from(elem: Element) -> (r: Result<Status, Error>)
        ensures
            !is_muc(elem, seq!['s', 't', 'a', 't', 'u', 's']) ==> r == Err::<Status, Error>(
                Error::ParseError("This is not a status element."),
            ),
            r matches Ok(s) ==> {
                &&& is_muc(elem, seq!['s', 't', 'a', 't', 'u', 's'])
                &&& !has_child(elem)
                &&& elem.attrs_within(seq![seq!['c', 'o', 'd', 'e']])
                &&& elem.attr_spec(seq!['c', 'o', 'd', 'e']) matches Some(c) && decimal(c) == Some(
                    status_code(s) as int,
                )
            },
            is_muc(elem, seq!['s', 't', 'a', 't', 'u', 's']) && has_child(elem) ==> r
                == Err::<Status, Error>(Error::ParseError("Unknown child in status element.")),
            r is Ok <==> status_ok(elem),
            is_muc(elem, seq!['s', 't', 'a', 't', 'u', 's']) && !has_child(elem) ==> {
                let code = elem.attr_spec(seq!['c', 'o', 'd', 'e']);
                if !elem.attrs_within(seq![seq!['c', 'o', 'd', 'e']]) {
                    r == Err::<Status, Error>(
                        Error::ParseError("Unknown attribute in status element."),
                    )
                } else if code is None {
                    r == Err::<Status, Error>(
                        Error::ParseError("Required attribute 'code' missing."),
                    )
                } else if decimal(code->0) is None {
                    r matches Err(Error::ParseIntError(_))
                } else if forall|s: Status| status_code(s) != decimal(code->0)->0 {
                    r == Err::<Status, Error>(Error::ParseError("Invalid status code."))
                } else {
                    r is Ok
                }
            },
    {
        Status::parse(&elem)
    }
}


/// Whether `e` is an `<actor/>` element that reads as an actor: exactly one
/// of `jid` (a valid Jabber ID) and `nick`.
pub open spec fn actor_ok(e: Element) -> bool {
    &&& is_muc(e, "actor"@)
    &&& !has_child(e)
    &&& e.attrs_within(seq!["jid"@, "nick"@])
    &&& (e.attr_spec("jid"@) is Some != e.attr_spec("nick"@) is Some)
    &&& e.attr_spec("jid"@) matches Some(t) ==> jid_parts(t) is Some
}

proof fn lemma_three_digits(a: char, b: char, c: char)
    requires
        '0' <= a <= '9',
        '0' <= b <= '9',
        '0' <= c <= '9',
    ensures
        all_digits(seq![a, b, c]),
        decimal(seq![a, b, c]) == Some(
            100 * (a as int - '0' as int) + 10 * (b as int - '0' as int) + (c as int - '0' as int),
        ),
{
    let s = seq![a, b, c];
    assert(s.drop_last() =~= seq![a, b]);
    assert(seq![a, b].drop_last() =~= seq![a]);
    assert(seq![a].drop_last() =~= Seq::<char>::empty());
    assert(decimal_value(Seq::<char>::empty()) == 0);
    assert(decimal_value(seq![a]) == a as int - '0' as int);
    assert(decimal_value(seq![a, b]) == (a as int - '0' as int) * 10 + (b as int - '0' as int));
    assert(all_digits(s));
}

/// The element written for a status reads back as that status: it is a
/// `<status/>` element that reads, and its code is the status's code.
pub proof fn lemma_status_round_trip(st: Status, e: Element)
    requires
        is_muc(e, seq!['s', 't', 'a', 't', 'u', 's']),
        e.attr_spec(seq!['c', 'o', 'd', 'e']) == Some(code_text(st)),
        e.attrs@.len() == 1,
        e.children@.len() == 0,
    ensures
        status_ok(e),
        decimal(code_text(st)) == Some(status_code(st) as int),
        forall|x: Status| status_code(x) == status_code(st) ==> x == st,
{
    let t = code_text(st);
    lemma_three_digits(t[0], t[1], t[2]);
    assert(t =~= seq![t[0], t[1], t[2]]);
    assert(e.attrs@[0].0@ == seq!['c', 'o', 'd', 'e']) by {
        if e.attrs@[0].0@ != seq!['c', 'o', 'd', 'e'] {
            assert(crate::element::attr_value(e.attrs@, seq!['c', 'o', 'd', 'e'], 0) is None);
        }
    }
    assert(e.attrs_within(seq![seq!['c', 'o', 'd', 'e']])) by {
        assert(seq![seq!['c', 'o', 'd', 'e']][0] == seq!['c', 'o', 'd', 'e']);
    }
    assert(!has_child(e));
    assert(decimal(code_text(st)) == Some(status_code(st) as int));
    assert(exists|x: Status| status_code(x) == decimal(code_text(st))->0) by {
        assert(status_code(st) == decimal(code_text(st))->0);
    }
}

/// Who performed an action on an occupant: a real JID or a room nick.
#[derive(Debug, PartialEq, Eq)]
pub enum Actor {
    Jid(Jid),
    Nick(String),
}

impl Actor {
    /// Reads an `<actor/>` element, which has exactly one of `jid` and `nick`.
    pub fn parse(elem: &Element) -> (r: Result<Actor, Error>)
        ensures
            !is_muc(*elem, "actor"@) ==> r == Err::<Actor, Error>(
                Error::ParseError("This is not a actor element."),
            ),
            is_muc(*elem, "actor"@) && has_child(*elem) ==> r == Err::<Actor, Error>(
                Error::ParseError("Unknown child in actor element."),
            ),
            is_muc(*elem, "actor"@) && !has_child(*elem) && !elem.attrs_within(
                seq!["jid"@, "nick"@],
            ) ==> r == Err::<Actor, Error>(Error::ParseError("Unknown attribute in actor element.")),
            is_muc(*elem, "actor"@) && !has_child(*elem) && elem.attrs_within(seq!["jid"@, "nick"@])
                && (elem.attr_spec("jid"@) is Some == elem.attr_spec("nick"@) is Some) ==> r
                == Err::<Actor, Error>(
                Error::ParseError("Either 'jid' or 'nick' attribute is required."),
            ),
            r matches Ok(Actor::Nick(n)) ==> elem.attr_spec("jid"@) is None && elem.attr_spec(
                "nick"@,
            ) == Some(n@),
            r matches Ok(Actor::Jid(j)) ==> elem.attr_spec("nick"@) is None
                && (elem.attr_spec("jid"@) matches Some(t) && jid_parts(t) == Some(j.parts())),
            r is Ok ==> is_muc(*elem, "actor"@) && !has_child(*elem),
            r is Ok <==> actor_ok(*elem),
            is_muc(*elem, "actor"@) && !has_child(*elem) && elem.attrs_within(seq!["jid"@, "nick"@])
                && elem.attr_spec("nick"@) is None && (elem.attr_spec("jid"@) matches Some(t)
                && jid_parts(t) is None) ==> r == Err::<Actor, Error>(
                Error::ParseError("Invalid JID in actor element."),
            ),
    {
        if !elem.is("actor", MUC_USER) {
            return Err(Error::ParseError("This is not a actor element."));
        }
        if elem.has_element_child() {
            return Err(Error::ParseError("Unknown child in actor element."));
        }
        let allowed: Vec<&str> = vec!["jid", "nick"];
        assert(allowed@.map_values(|a: &str| a@) =~= seq!["jid"@, "nick"@]);
        if !elem.only_attrs(&allowed) {
            return Err(Error::ParseError("Unknown attribute in actor element."));
        }
        let jid = elem.attr("jid");
        let nick = elem.attr("nick");
        match (jid, nick) {
            (Some(j), None) => match Jid::from_str(j.as_str()) {
                Ok(j) => Ok(Actor::Jid(j)),
                Err(_) => Err(Error::ParseError("Invalid JID in actor element.")),
            },
            (None, Some(n)) => Ok(Actor::Nick(n)),
            _ => Err(Error::ParseError("Either 'jid' or 'nick' attribute is required.")),
        }
    }

    /// Reads an `<actor/>` element.
    pub fn try_from(elem: Element) -> (r: Result<Actor, Error>)
        ensures
            !is_muc(elem, "actor"@) ==> r == Err::<Actor, Error>(
                Error::ParseError("This is not a actor element."),
            ),
            is_muc(elem, "actor"@) && has_child(elem) ==> r == Err::<Actor, Error>(
                Error::ParseError("Unknown child in actor element."),
            ),
            is_muc(elem, "actor"@) && !has_child(elem) && !elem.attrs_within(
                seq!["jid"@, "nick"@],
            ) ==> r == Err::<Actor, Error>(Error::ParseError("Unknown attribute in actor element.")),
            is_muc(elem, "actor"@) && !has_child(elem) && elem.attrs_within(seq!["jid"@, "nick"@])
                && (elem.attr_spec("jid"@) is Some == elem.attr_spec("nick"@) is Some) ==> r
                == Err::<Actor, Error>(
                Error::ParseError("Either 'jid' or 'nick' attribute is required."),
            ),
            r matches Ok(Actor::Nick(n)) ==> elem.attr_spec("jid"@) is None && elem.attr_spec(
                "nick"@,
            ) == Some(n@),
            r matches Ok(Actor::Jid(j)) ==> elem.attr_spec("nick"@) is None
                && (elem.attr_spec("jid"@) matches Some(t) && jid_parts(t) == Some(j.parts())),
            r is Ok ==> is_muc(elem, "actor"@) && !has_child(elem),
            r is Ok <==> actor_ok(elem),
            is_muc(elem, "actor"@) && !has_child(elem) && elem.attrs_within(seq!["jid"@, "nick"@])
                && elem.attr_spec("nick"@) is None && (elem.attr_spec("jid"@) matches Some(t)
                && jid_parts(t) is None) ==> r == Err::<Actor, Error>(
                Error::ParseError("Invalid JID in actor element."),
            ),
    {
        Actor::parse(&elem)
    }

    /// The `<actor/>` element.
    pub fn into_element(self) -> (r: Element)
        ensures
            is_muc(r, "actor"@),
            r.children@.len() == 0,
            r.attrs@.len() == 1,
            match self {
                Actor::Jid(j) => r.attr_spec("jid"@) == Some(j.text()),
                Actor::Nick(n) => r.attr_spec("nick"@) == Some(n@),
            },
    {
        let mut e = Element::new("actor", MUC_USER);
        match self {
            Actor::Jid(j) => {
                let t = j.to_string();
                e.set_attr("jid", t.as_str());
                assert(crate::element::attr_value(e.attrs@, "jid"@, 0) is None);
            },
            Actor::Nick(n) => {
                e.set_attr("nick", n.as_str());
                assert(crate::element::attr_value(e.attrs@, "nick"@, 0) is None);
            },
        }
        assert(e.attrs@[0] == e.attrs@.last());
        e
    }
}

/// A request to continue a one-to-one discussion in a room.
#[derive(Debug, PartialEq, Eq)]
pub struct Continue {
    pub thread: Option<String>,
}

impl Continue {
    /// Reads a `<continue/>` element, with an optional `thread`.
    pub fn parse(elem: &Element) -> (r: Result<Continue, Error>)
        ensures
            !is_muc(*elem, "continue"@) ==> r == Err::<Continue, Error>(
                Error::ParseError("This is not a continue element."),
            ),
            is_muc(*elem, "continue"@) && has_child(*elem) ==> r == Err::<Continue, Error>(
                Error::ParseError("Unknown child in continue element."),
            ),
            is_muc(*elem, "continue"@) && !has_child(*elem) && !elem.attrs_within(seq!["thread"@])
                ==> r == Err::<Continue, Error>(
                Error::ParseError("Unknown attribute in continue element."),
            ),
            is_muc(*elem, "continue"@) && !has_child(*elem) && elem.attrs_within(seq!["thread"@])
                ==> (r matches Ok(c) && opt_view(c.thread) == elem.attr_spec("thread"@)),
    {
        if !elem.is("continue", MUC_USER) {
            return Err(Error::ParseError("This is not a continue element."));
        }
        if elem.has_element_child() {
            return Err(Error::ParseError("Unknown child in continue element."));
        }
        let allowed: Vec<&str> = vec!["thread"];
        assert(allowed@.map_values(|a: &str| a@) =~= seq!["thread"@]);
        if !elem.only_attrs(&allowed) {
            return Err(Error::ParseError("Unknown attribute in continue element."));
        }
        Ok(Continue { thread: elem.attr("thread") })
    }

    /// Reads a `<continue/>` element.
    pub fn try_from(elem: Element) -> (r: Result<Continue, Error>)
        ensures
            !is_muc(elem, "continue"@) ==> r is Err,
            is_muc(elem, "continue"@) && !has_child(elem) && elem.attrs_within(seq!["thread"@])
                ==> (r matches Ok(c) && opt_view(c.thread) == elem.attr_spec("thread"@)),
    {
        Continue::parse(&elem)
    }

    /// The `<continue/>` element.
    pub fn into_element(self) -> (r: Element)
        ensures
            is_muc(r, "continue"@),
            r.children@.len() == 0,
            r.attr_spec("thread"@) == opt_view(self.thread),
            r.attrs@.len() == (if self.thread is Some { 1int } else { 0 }),
    {
        let mut e = Element::new("continue", MUC_USER);
        if let Some(t) = &self.thread {
            e.set_attr("thread", t.as_str());
            assert(crate::element::attr_value(e.attrs@, "thread"@, 0) is None);
            assert(e.attrs@[0] == e.attrs@.last());
        }
        e
    }
}

/// A human-readable reason.
#[derive(Debug, PartialEq, Eq)]
pub struct Reason(pub String);

impl Reason {
    /// Reads a `<reason>…</reason>` element: no attributes, text only.
    pub fn parse(elem: &Element) -> (r: Result<Reason, Error>)
        ensures
            !is_muc(*elem, "reason"@) ==> r == Err::<Reason, Error>(
                Error::ParseError("This is not a reason element."),
            ),
            is_muc(*elem, "reason"@) && has_child(*elem) ==> r == Err::<Reason, Error>(
                Error::ParseError("Unknown child in reason element."),
            ),
            is_muc(*elem, "reason"@) && !has_child(*elem) && elem.attrs@.len() > 0 ==> r
                == Err::<Reason, Error>(Error::ParseError("Unknown attribute in reason element.")),
            is_muc(*elem, "reason"@) && !has_child(*elem) && elem.attrs@.len() == 0 ==> (r matches Ok(t) && t.0@ == crate::element::text_of(elem.children@, elem.children@.len() as int)),
    {
        if !elem.is("reason", MUC_USER) {
            return Err(Error::ParseError("This is not a reason element."));
        }
        if elem.has_element_child() {
            return Err(Error::ParseError("Unknown child in reason element."));
        }
        if elem.attrs.len() > 0 {
            return Err(Error::ParseError("Unknown attribute in reason element."));
        }
        Ok(Reason(elem.text()))
    }

    /// Reads a `<reason>…</reason>` element.
    pub fn try_from(elem: Element) -> (r: Result<Reason, Error>)
        ensures
            !is_muc(elem, "reason"@) ==> r is Err,
            is_muc(elem, "reason"@) && !has_child(elem) && elem.attrs@.len() == 0 ==> (r matches Ok(t) && t.0@ == crate::element::text_of(elem.children@, elem.children@.len() as int)),
    {
        Reason::parse(&elem)
    }

    /// The `<reason>…</reason>` element.
    pub fn into_element(self) -> (r: Element)
        ensures
            is_muc(r, "reason"@),
            r.attrs@.len() == 0,
            r.children@.len() == 1,
            r.children@[0] matches Node::Text(t) && t@ == self.0@,
    {
        let mut e = Element::new("reason", MUC_USER);
        e.append_text(self.0.as_str());
        assert(e.children@[0] == e.children@.last());
        e
    }
}


/// An occupant's long-lived relation to a room.
#[derive(Debug, Clone, Copy, PartialEq, Eq)]
pub enum Affiliation {
    Owner,
    Admin,
    Member,
    Outcast,
    /// `none`
    NoAffiliation,
}

pub open spec fn affiliation_text(a: Affiliation) -> Seq<char> {
    match a {
        Affiliation::Owner => "owner"@,
        Affiliation::Admin => "admin"@,
        Affiliation::Member => "member"@,
        Affiliation::Outcast => "outcast"@,
        Affiliation::NoAffiliation => "none"@,
    }
}

impl Affiliation {
    /// Reads an affiliation from its attribute value.
    pub fn from_str(s: &str) -> (r: Result<Affiliation, Error>)
        ensures
            r matches Ok(a) ==> affiliation_text(a) == s@,
            r is Err ==> r == Err::<Affiliation, Error>(Error::ParseError("Unknown affiliation."))
                && forall|a: Affiliation| affiliation_text(a) != s@,
    {
        if text_eq(s, "owner") {
            Ok(Affiliation::Owner)
        } else if text_eq(s, "admin") {
            Ok(Affiliation::Admin)
        } else if text_eq(s, "member") {
            Ok(Affiliation::Member)
        } else if text_eq(s, "outcast") {
            Ok(Affiliation::Outcast)
        } else if text_eq(s, "none") {
            Ok(Affiliation::NoAffiliation)
        } else {
            Err(Error::ParseError("Unknown affiliation."))
        }
    }

    /// The attribute value.
    pub fn into_attribute_value(self) -> (r: &'static str)
        ensures
            r@ == affiliation_text(self),
    {
        match self {
            Affiliation::Owner => "owner",
            Affiliation::Admin => "admin",
            Affiliation::Member => "member",
            Affiliation::Outcast => "outcast",
            Affiliation::NoAffiliation => "none",
        }
    }
}

/// An occupant's role for the current visit.
#[derive(Debug, Clone, Copy, PartialEq, Eq)]
pub enum Role {
    Moderator,
    Participant,
    Visitor,
    /// `none`
    NoRole,
}

pub open spec fn role_text(r: Role) -> Seq<char> {
    match r {
        Role::Moderator => "moderator"@,
        Role::Participant => "participant"@,
        Role::Visitor => "visitor"@,
        Role::NoRole => "none"@,
    }
}

impl Role {
    /// Reads a role from its attribute value.
    pub fn from_str(s: &str) -> (r: Result<Role, Error>)
        ensures
            r matches Ok(x) ==> role_text(x) == s@,
            r is Err ==> r == Err::<Role, Error>(Error::ParseError("Unknown role.")) && forall|
                x: Role,
            | role_text(x) != s@,
    {
        if text_eq(s, "moderator") {
            Ok(Role::Moderator)
        } else if text_eq(s, "participant") {
            Ok(Role::Participant)
        } else if text_eq(s, "visitor") {
            Ok(Role::Visitor)
        } else if text_eq(s, "none") {
            Ok(Role::NoRole)
        } else {
            Err(Error::ParseError("Unknown role."))
        }
    }

    /// The attribute value.
    pub fn into_attribute_value(self) -> (r: &'static str)
        ensures
            r@ == role_text(self),
    {
        match self {
            Role::Moderator => "moderator",
            Role::Participant => "participant",
            Role::Visitor => "visitor",
            Role::NoRole => "none",
        }
    }
}


/// Whether `e` is a `<continue/>` element that reads as one.
pub open spec fn continue_ok(e: Element) -> bool {
    is_muc(e, "continue"@) && !has_child(e) && e.attrs_within(seq!["thread"@])
}

/// Whether `e` is a `<reason/>` element that reads as one.
pub open spec fn reason_ok(e: Element) -> bool {
    is_muc(e, "reason"@) && !has_child(e) && e.attrs@.len() == 0
}

/// Whether a child of an `<item/>` element reads: text, or an actor, a
/// continue or a reason element that reads.
pub open spec fn item_child_ok(x: Node) -> bool {
    match x {
        Node::Text(_) => true,
        Node::Element(c) => actor_ok(c) || continue_ok(c) || reason_ok(c),
    }
}

/// Whether `e` is an `<item/>` element that reads as an item.
pub open spec fn item_ok(e: Element) -> bool {
    &&& is_muc(e, "item"@)
    &&& forall|i: int| 0 <= i < e.children@.len() ==> item_child_ok(#[trigger] e.children@[i])
    &&& e.attrs_within(item_attrs())
    &&& e.attr_spec("affiliation"@) matches Some(a) && exists|x: Affiliation| affiliation_text(x) == a
    &&& e.attr_spec("jid"@) matches Some(t) ==> jid_parts(t) is Some
    &&& e.attr_spec("role"@) matches Some(a) && exists|x: Role| role_text(x) == a
}

/// An occupant, as a MUC user payload describes it.
#[derive(Debug)]
pub struct Item {
    pub affiliation: Affiliation,
    pub jid: Option<Jid>,
    pub nick: Option<String>,
    pub role: Role,
    pub actor: Option<Actor>,
    pub continue_: Option<Continue>,
    pub reason: Option<Reason>,
}

pub open spec fn item_attrs() -> Seq<Seq<char>> {
    seq!["affiliation"@, "jid"@, "nick"@, "role"@]
}

impl Item {
    /// Reads an `<item/>` element: `affiliation` and `role` are required,
    /// `jid` and `nick` optional; `actor`, `continue` and `reason` children
    /// are read, any other child is refused.
    pub fn parse(elem: &Element) -> (r: Result<Item, Error>)
        ensures
            !is_muc(*elem, "item"@) ==> r == Err::<Item, Error>(
                Error::ParseError("This is not a item element."),
            ),
            r matches Ok(it) ==> {
                &&& is_muc(*elem, "item"@)
                &&& elem.attrs_within(item_attrs())
                &&& elem.attr_spec("affiliation"@) == Some(affiliation_text(it.affiliation))
                &&& elem.attr_spec("role"@) == Some(role_text(it.role))
                &&& opt_view(it.nick) == elem.attr_spec("nick"@)
                &&& (it.jid is None <==> elem.attr_spec("jid"@) is None)
                &&& (it.jid matches Some(j) ==> jid_parts(elem.attr_spec("jid"@)->0) == Some(j.parts()))
            },
            r is Ok <==> item_ok(*elem),
            r matches Ok(it) ==> (it.actor matches Some(Actor::Nick(x)) ==> exists|i: int|
                0 <= i < elem.children@.len() && (#[trigger] elem.children@[i] matches Node::Element(
                    c,
                ) && actor_ok(c) && c.attr_spec("nick"@) == Some(x@))),
    {
        if !elem.is("item", MUC_USER) {
            return Err(Error::ParseError("This is not a item element."));
        }
        proof {
            reveal_strlit("actor");
            reveal_strlit("continue");
            reveal_strlit("reason");
            assert("actor"@.len() != "continue"@.len());
            assert("actor"@.len() != "reason"@.len());
            assert("continue"@.len() != "reason"@.len());
        }
        let mut actor: Option<Actor> = None;
        let mut continue_: Option<Continue> = None;
        let mut reason: Option<Reason> = None;
        let mut i: usize = 0;
        while i < elem.children.len()
            invariant
                i <= elem.children@.len(),
                is_muc(*elem, "item"@),
                "actor"@ != "continue"@ && "actor"@ != "reason"@ && "continue"@ != "reason"@,
                forall|k: int| 0 <= k < i ==> item_child_ok(#[trigger] elem.children@[k]),
                actor matches Some(Actor::Nick(x)) ==> exists|k: int|
                    0 <= k < i && (#[trigger] elem.children@[k] matches Node::Element(c) && actor_ok(c)
                        && c.attr_spec("nick"@) == Some(x@)),
            decreases elem.children.len() - i,
        {
            if let Node::Element(child) = &elem.children[i] {
                assert(elem.children@[i as int] == Node::Element(*child));
                if child.is("actor", MUC_USER) {
                    actor = Some(Actor::parse(child)?);
                } else if child.is("continue", MUC_USER) {
                    continue_ = Some(Continue::parse(child)?);
                } else if child.is("reason", MUC_USER) {
                    reason = Some(Reason::parse(child)?);
                } else {
                    assert(!item_child_ok(elem.children@[i as int]));
                    return Err(Error::ParseError("Unknown child in item element."));
                }
            }
            i = i + 1;
        }
        let allowed: Vec<&str> = vec!["affiliation", "jid", "nick", "role"];
        assert(allowed@.map_values(|a: &str| a@) =~= item_attrs());
        if !elem.only_attrs(&allowed) {
            return Err(Error::ParseError("Unknown attribute in item element."));
        }
        let affiliation = match elem.attr("affiliation") {
            Some(a) => Affiliation::from_str(a.as_str())?,
            None => {
                return Err(Error::ParseError("Required attribute 'affiliation' missing."));
            },
        };
        let jid = match elem.attr("jid") {
            Some(j) => match Jid::from_str(j.as_str()) {
                Ok(j) => Some(j),
                Err(_) => {
                    return Err(Error::ParseError("Invalid JID in item element."));
                },
            },
            None => None,
        };
        let nick = elem.attr("nick");
        let role = match elem.attr("role") {
            Some(x) => Role::from_str(x.as_str())?,
            None => {
                return Err(Error::ParseError("Required attribute 'role' missing."));
            },
        };
        Ok(Item { affiliation, jid, nick, role, actor, continue_, reason })
    }

    /// Reads an `<item/>` element.
    pub fn try_from(elem: Element) -> (r: Result<Item, Error>)
        ensures
            !is_muc(elem, "item"@) ==> r == Err::<Item, Error>(
                Error::ParseError("This is not a item element."),
            ),
            r matches Ok(it) ==> {
                &&& is_muc(elem, "item"@)
                &&& elem.attrs_within(item_attrs())
                &&& elem.attr_spec("affiliation"@) == Some(affiliation_text(it.affiliation))
                &&& elem.attr_spec("role"@) == Some(role_text(it.role))
                &&& opt_view(it.nick) == elem.attr_spec("nick"@)
                &&& (it.jid is None <==> elem.attr_spec("jid"@) is None)
                &&& (it.jid matches Some(j) ==> jid_parts(elem.attr_spec("jid"@)->0) == Some(j.parts()))
            },
            r is Ok <==> item_ok(elem),
            r matches Ok(it) ==> (it.actor matches Some(Actor::Nick(x)) ==> exists|i: int|
                0 <= i < elem.children@.len() && (#[trigger] elem.children@[i] matches Node::Element(
                    c,
                ) && actor_ok(c) && c.attr_spec("nick"@) == Some(x@))),
    {
        Item::parse(&elem)
    }

    /// The `<item/>` element.
    pub fn into_element(self) -> (r: Element)
        ensures
            is_muc(r, "item"@),
            r.attr_spec("affiliation"@) == Some(affiliation_text(self.affiliation)),
    {
        let mut e = Element::new("item", MUC_USER);
        e.set_attr("affiliation", self.affiliation.into_attribute_value());
        assert(crate::element::attr_value(e.attrs@, "affiliation"@, 0) is None);
        assert(e.attr_spec("affiliation"@) == Some(affiliation_text(self.affiliation)));
        let ghost first = e.attrs@[0];
        if let Some(j) = &self.jid {
            let t = j.to_string();
            e.set_attr("jid", t.as_str());
        }
        if let Some(n) = &self.nick {
            e.set_attr("nick", n.as_str());
        }
        e.set_attr("role", self.role.into_attribute_value());
        proof {
            assert(e.attrs@[0] == first);
            lemma_attr_first(e.attrs@, "affiliation"@);
        }
        if let Some(a) = self.actor {
            e.append_child(a.into_element());
        }
        if let Some(c) = self.continue_ {
            e.append_child(c.into_element());
        }
        if let Some(x) = self.reason {
            e.append_child(x.into_element());
        }
        e
    }
}

proof fn lemma_attr_first(a: Seq<(String, String)>, name: Seq<char>)
    requires
        a.len() >= 1,
        a[0].0@ == name,
    ensures
        crate::element::attr_value(a, name, a.len() as int) == Some(a[0].1@),
    decreases a.len(),
{
    lemma_attr_first_upto(a, name, a.len() as int);
}

proof fn lemma_attr_first_upto(a: Seq<(String, String)>, name: Seq<char>, n: int)
    requires
        1 <= n <= a.len(),
        a[0].0@ == name,
    ensures
        crate::element::attr_value(a, name, n) == Some(a[0].1@),
    decreases n,
{
    if n > 1 {
        lemma_attr_first_upto(a, name, n - 1);
    } else {
        assert(crate::element::attr_value(a, name, 0) is None);
    }
}

/// The codes of the `status` children among the first `n` children of `e`.
pub open spec fn status_codes(e: Element, n: int) -> Seq<int>
    decreases n,
{
    if n <= 0 || n > e.children@.len() {
        seq![]
    } else {
        let rest = status_codes(e, n - 1);
        match e.children@[n - 1] {
            Node::Element(c) => if is_muc(c, "status"@) {
                rest.push(decimal(c.attr_spec("code"@)->0)->0)
            } else {
                rest
            },
            Node::Text(_) => rest,
        }
    }
}

/// The number of `item` children among the first `n` children of `e`.
pub open spec fn item_count(e: Element, n: int) -> int
    decreases n,
{
    if n <= 0 || n > e.children@.len() {
        0
    } else {
        item_count(e, n - 1) + match e.children@[n - 1] {
            Node::Element(c) => if is_muc(c, "item"@) {
                1int
            } else {
                0
            },
            Node::Text(_) => 0,
        }
    }
}

pub open spec fn codes_of(v: Seq<Status>) -> Seq<int> {
    v.map_values(|s: Status| status_code(s) as int)
}

/// Whether a child of an `<x/>` element reads: text, or a status or an item
/// element that reads.
pub open spec fn muc_child_ok(x: Node) -> bool {
    match x {
        Node::Text(_) => true,
        Node::Element(c) => status_ok(c) || item_ok(c),
    }
}

/// Whether `e` is an `<x/>` element that reads as a MUC user payload.
pub open spec fn muc_user_ok(e: Element) -> bool {
    &&& is_muc(e, "x"@)
    &&& forall|i: int| 0 <= i < e.children@.len() ==> muc_child_ok(#[trigger] e.children@[i])
    &&& e.attrs@.len() == 0
}

/// The MUC user payload of a presence or message.
#[derive(Debug)]
pub struct MucUser {
    pub status: Vec<Status>,
    pub items: Vec<Item>,
}

impl MucUser {
    /// Reads an `<x/>` element: `status` and `item` children, no attributes.
    pub fn try_from(elem: Element) -> (r: Result<MucUser, Error>)
        ensures
            !is_muc(elem, "x"@) ==> r == Err::<MucUser, Error>(
                Error::ParseError("This is not an x element."),
            ),
            r matches Ok(m) ==> {
                &&& is_muc(elem, "x"@)
                &&& elem.attrs@.len() == 0
                &&& codes_of(m.status@) == status_codes(elem, elem.children@.len() as int)
                &&& m.items@.len() == item_count(elem, elem.children@.len() as int)
            },
            r is Ok <==> muc_user_ok(elem),
            is_muc(elem, "x"@) && (forall|i: int| 0 <= i < elem.children@.len() ==> muc_child_ok(
                #[trigger] elem.children@[i],
            )) && elem.attrs@.len() > 0 ==> r == Err::<MucUser, Error>(
                Error::ParseError("Unknown attribute in x element."),
            ),
            is_muc(elem, "x"@) && (exists|i: int| 0 <= i < elem.children@.len() && (#[trigger] elem.children@[i] matches Node::Element(c) && !is_muc(c, "status"@) && !is_muc(c, "item"@))) && (forall|i: int| 0 <= i < elem.children@.len() && (elem.children@[i] matches Node::Element(c) && (is_muc(c, "status"@) || is_muc(c, "item"@))) ==> muc_child_ok(#[trigger] elem.children@[i])) ==> r == Err::<MucUser, Error>(
                Error::ParseError("Unknown child in x element."),
            ),
    {
        if !elem.is("x", MUC_USER) {
            return Err(Error::ParseError("This is not an x element."));
        }
        let mut status: Vec<Status> = Vec::new();
        let mut items: Vec<Item> = Vec::new();
        let mut i: usize = 0;
        proof {
            reveal_strlit("status");
            reveal_strlit("item");
            reveal_strlit("code");
            assert("status"@.len() != "item"@.len());
            assert("code"@ =~= seq!['c', 'o', 'd', 'e']);
            assert("status"@ =~= seq!['s', 't', 'a', 't', 'u', 's']);
        }
        assert(codes_of(status@) =~= seq![]);
        while i < elem.children.len()
            invariant
                i <= elem.children@.len(),
                is_muc(elem, "x"@),
                "status"@ != "item"@,
                "code"@ == seq!['c', 'o', 'd', 'e'],
                "status"@ == seq!['s', 't', 'a', 't', 'u', 's'],
                forall|k: int| 0 <= k < i ==> muc_child_ok(#[trigger] elem.children@[k]),
                codes_of(status@) == status_codes(elem, i as int),
                items@.len() == item_count(elem, i as int),
            decreases elem.children.len() - i,
        {
            if let Node::Element(child) = &elem.children[i] {
                assert(elem.children@[i as int] == Node::Element(*child));
                if child.is("status", MUC_USER) {
                    let st = Status::parse(child)?;
                    let ghost before = codes_of(status@);
                    status.push(st);
                    assert(codes_of(status@) =~= before.push(status_code(st) as int));
                    assert(elem.children@[i as int] == Node::Element(*child));
                    assert(child.attr_spec("code"@) matches Some(c) && decimal(c) == Some(
                        status_code(st) as int,
                    ));
                    assert(status_codes(elem, i + 1) == status_codes(elem, i as int).push(
                        status_code(st) as int,
                    ));
                } else if child.is("item", MUC_USER) {
                    items.push(Item::parse(child)?);
                } else {
                    assert(!muc_child_ok(elem.children@[i as int]));
                    return Err(Error::ParseError("Unknown child in x element."));
                }
            }
            i = i + 1;
        }
        if elem.attrs.len() > 0 {
            return Err(Error::ParseError("Unknown attribute in x element."));
        }
        Ok(MucUser { status, items })
    }

    /// The `<x/>` element, with one `status` child per status code.
    pub fn into_element(self) -> (r: Element)
        ensures
            is_muc(r, "x"@),
            r.attrs@.len() == 0,
            r.children@.len() == self.status@.len(),
    {
        let mut e = Element::new("x", MUC_USER);
        let mut i: usize = 0;
        while i < self.status.len()
            invariant
                i <= self.status@.len(),
                is_muc(e, "x"@),
                e.attrs@.len() == 0,
                e.children@.len() == i,
            decreases self.status.len() - i,
        {
            e.append_child(self.status[i].into_element());
            i = i + 1;
        }
        e
    }
}

} // verus!
