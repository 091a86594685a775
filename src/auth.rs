//! SASL negotiation as an explicit state machine.
//!
//! The negotiator performs no I/O and holds no mechanism: each call of
//! `step` takes what happened outside (a write completed, an event arrived,
//! the mechanism computed its data) and says what to do next.

use vstd::prelude::*;
use crate::encoding::{base64_bytes, base64_text, decode_base64, encode_base64};
use crate::codec::Packet;
use crate::element::{Element, Node, opt_view, text_of};
use crate::text::{text_eq, push_str};

verus! {

/// The namespace of SASL nonzas.
pub const NS_XMPP_SASL: &'static str = "urn:ietf:params:xml:ns:xmpp-sasl";

/// Why a negotiation ended without success.
#[derive(Debug, PartialEq, Eq)]
pub enum AuthError {
    /// The stream features offer no `mechanisms` element.
    NoMechanisms,
    /// None of the local mechanisms is offered: nothing was sent.
    NoCommonMechanism,
    /// A challenge whose payload is not valid base64.
    MalformedChallenge,
    /// The mechanism could not produce data for the server.
    MechanismRejected,
    /// Writing to or reading from the stream failed.
    Transport,
    /// The server declared failure, with this reason.
    Server(String),
}

/// Where a negotiation stands.
#[derive(Debug, PartialEq, Eq)]
pub enum AuthState {
    /// Waiting for the mechanism's data: its initial response (`initial`), or
    /// its answer to a challenge.
    AwaitMechanism { initial: bool },
    /// A nonza is being written; nothing else is sent meanwhile.
    WaitSend,
    /// Waiting for the server's next event.
    WaitRecv,
    /// Authenticated; waiting for the new stream header and features.
    Restarting,
    /// Finished, successfully.
    Done,
    /// Finished, unsuccessfully.
    Failed,
}

/// What happened outside since the last step.
#[derive(Debug, PartialEq, Eq)]
pub enum AuthEvent {
    /// Nothing new.
    Idle,
    /// The mechanism produced this data.
    MechanismData(Vec<u8>),
    /// The mechanism refused.
    MechanismFailed,
    /// The pending nonza was written.
    SendDone,
    /// Writing failed.
    SendFailed,
    /// An event arrived from the server.
    Received(Packet),
    /// Reading failed.
    RecvFailed,
    /// After the reset, the new stream header and features arrived.
    RestartDone,
}

/// What to do next.
#[derive(Debug, PartialEq, Eq)]
pub enum AuthAction {
    /// Nothing: wait for the operation already pending.
    Wait,
    /// Have the mechanism answer this challenge.
    Answer(Vec<u8>),
    /// Write this nonza.
    Send(Element),
    /// Reset the codec, then send a new stream header and await features.
    Restart,
    /// The stream is authenticated.
    Succeeded,
    /// The negotiation ended.
    Fail(AuthError),
}

/// A SASL negotiation in progress.
pub struct ClientAuth {
    pub state: AuthState,
    /// The name of the chosen mechanism.
    pub mechanism: String,
}

/// The index of the first of the first `n` names of `local` that `offered`
/// holds.
pub open spec fn first_offered(local: Seq<String>, offered: Seq<Seq<char>>, n: int) -> Option<int>
    decreases n,
{
    if n <= 0 || n > local.len() {
        None
    } else {
        match first_offered(local, offered, n - 1) {
            Some(i) => Some(i),
            None => if exists|j: int| 0 <= j < offered.len() && offered[j] == local[n - 1]@ {
                Some(n - 1)
            } else {
                None
            },
        }
    }
}

/// Whether `e` is the SASL nonza named `name`.
pub open spec fn is_nonza(e: Element, name: Seq<char>) -> bool {
    e.name@ == name && opt_view(e.ns) == Some(NS_XMPP_SASL@)
}

/// The index of the first element child among the first `n` children.
pub open spec fn first_element_child(c: Seq<Node>, n: int) -> Option<int>
    decreases n,
{
    if n <= 0 || n > c.len() {
        None
    } else {
        match first_element_child(c, n - 1) {
            Some(i) => Some(i),
            None => if c[n - 1] is Element {
                Some(n - 1)
            } else {
                None
            },
        }
    }
}

pub open spec fn default_failure_reason() -> Seq<char> {
    seq!['A', 'u', 't', 'h', 'e', 'n', 't', 'i', 'c', 'a', 't', 'i', 'o', 'n', ' ', 'f', 'a', 'i', 'l', 'u', 'r', 'e']
}

/// The reason a `failure` nonza gives: the name of its first child element.
pub open spec fn failure_reason(e: Element) -> Seq<char> {
    match first_element_child(e.children@, e.children@.len() as int) {
        Some(i) => match e.children@[i] {
            Node::Element(c) => c.name@,
            Node::Text(_) => default_failure_reason(),
        },
        None => default_failure_reason(),
    }
}

/// Whether `e` is the SASL nonza `name`, carrying `payload` in base64 and,
/// where given, the attribute `mechanism`.
pub open spec fn nonza_of(e: Element, name: Seq<char>, mechanism: Option<Seq<char>>, payload: Seq<u8>) -> bool {
    &&& is_nonza(e, name)
    &&& match mechanism {
        Some(m) => e.attrs@.len() == 1 && e.attrs@[0].0@ == seq!['m', 'e', 'c', 'h', 'a', 'n', 'i', 's', 'm']
            && e.attrs@[0].1@ == m,
        None => e.attrs@.len() == 0,
    }
    &&& e.children@.len() == 1
    &&& e.children@[0] matches Node::Text(t) && t@ == base64_text(payload)
}


/// The texts of the `mechanism` children among the first `n` children.
pub open spec fn mechanism_names(c: Seq<Node>, n: int) -> Seq<Seq<char>>
    decreases n,
{
    if n <= 0 || n > c.len() {
        seq![]
    } else {
        let rest = mechanism_names(c, n - 1);
        match c[n - 1] {
            Node::Element(m) => if is_nonza(m, seq!['m', 'e', 'c', 'h', 'a', 'n', 'i', 's', 'm']) {
                rest.push(text_of(m.children@, m.children@.len() as int))
            } else {
                rest
            },
            Node::Text(_) => rest,
        }
    }
}

/// The index of the first `mechanisms` child among the first `n` children.
pub open spec fn mechanisms_child(c: Seq<Node>, n: int) -> Option<int>
    decreases n,
{
    if n <= 0 || n > c.len() {
        None
    } else {
        match mechanisms_child(c, n - 1) {
            Some(i) => Some(i),
            None => match c[n - 1] {
                Node::Element(m) => if is_nonza(
                    m,
                    seq!['m', 'e', 'c', 'h', 'a', 'n', 'i', 's', 'm', 's'],
                ) {
                    Some(n - 1)
                } else {
                    None
                },
                Node::Text(_) => None,
            },
        }
    }
}

/// The mechanisms that stream features offer, in the order listed.
pub open spec fn offered_spec(features: Element) -> Option<Seq<Seq<char>>> {
    match mechanisms_child(features.children@, features.children@.len() as int) {
        Some(i) => match features.children@[i] {
            Node::Element(m) => Some(mechanism_names(m.children@, m.children@.len() as int)),
            Node::Text(_) => None,
        },
        None => None,
    }
}

pub open spec fn names_view(v: Seq<String>) -> Seq<Seq<char>> {
    v.map_values(|s: String| s@)
}

proof fn lemma_first_offered_found(local: Seq<String>, offered: Seq<Seq<char>>, n: int, m: int)
    requires
        0 <= n <= m <= local.len(),
        first_offered(local, offered, n) is Some,
    ensures
        first_offered(local, offered, m) == first_offered(local, offered, n),
    decreases m - n,
{
    if m > n {
        lemma_first_offered_found(local, offered, n, m - 1);
    }
}

proof fn lemma_first_offered_bounds(local: Seq<String>, offered: Seq<Seq<char>>, n: int)
    ensures
        first_offered(local, offered, n) matches Some(i) ==> 0 <= i < n,
    decreases n,
{
    if n > 0 {
        lemma_first_offered_bounds(local, offered, n - 1);
    }
}

/// The mechanism chosen depends on which names the server offers, not on
/// the order in which it lists them: two offers that hold the same names
/// select the same local mechanism.
pub proof fn lemma_selection_ignores_offer_order(
    local: Seq<String>,
    o1: Seq<Seq<char>>,
    o2: Seq<Seq<char>>,
    n: int,
)
    requires
        forall|x: Seq<char>| o1.contains(x) <==> o2.contains(x),
    ensures
        first_offered(local, o1, n) == first_offered(local, o2, n),
    decreases n,
{
    if 0 < n <= local.len() {
        lemma_selection_ignores_offer_order(local, o1, o2, n - 1);
        let x = local[n - 1]@;
        if exists|j: int| 0 <= j < o1.len() && o1[j] == x {
            assert(o1.contains(x));
            assert(o2.contains(x));
        }
        if exists|j: int| 0 <= j < o2.len() && o2[j] == x {
            assert(o2.contains(x));
            assert(o1.contains(x));
        }
    }
}

/// The index of the first name of `local` (the order of preference) that
/// `offered` holds; `None` where they share none.
pub fn select_mechanism(local: &Vec<String>, offered: &Vec<String>) -> (r: Option<usize>)
    ensures
        match r {
            Some(i) => first_offered(local@, names_view(offered@), local@.len() as int) == Some(
                i as int,
            ),
            None => first_offered(local@, names_view(offered@), local@.len() as int) is None,
        },
{
    let mut i: usize = 0;
    while i < local.len()
        invariant
            i <= local@.len(),
            first_offered(local@, names_view(offered@), i as int) is None,
        decreases local.len() - i,
    {
        let mut j: usize = 0;
        while j < offered.len()
            invariant
                i < local@.len(),
                first_offered(local@, names_view(offered@), i as int) is None,
                j <= offered@.len(),
                forall|k: int| 0 <= k < j ==> offered@[k]@ != local@[i as int]@,
            decreases offered.len() - j,
        {
            if text_eq(offered[j].as_str(), local[i].as_str()) {
                proof {
                    assert(names_view(offered@)[j as int] == local@[i as int]@);
                    assert(first_offered(local@, names_view(offered@), i + 1) == Some(i as int));
                    lemma_first_offered_found(
                        local@,
                        names_view(offered@),
                        i + 1,
                        local@.len() as int,
                    );
                }
                return Some(i);
            }
            j = j + 1;
        }
        assert(first_offered(local@, names_view(offered@), i + 1) is None);
        i = i + 1;
    }
    None
}

/// The mechanisms offered by stream features: the texts of the `mechanism`
/// children of their first SASL `mechanisms` child, or `None` without one.
pub fn offered_mechanisms(features: &Element) -> (r: Option<Vec<String>>)
    ensures
        match r {
            Some(v) => offered_spec(*features) == Some(names_view(v@)),
            None => offered_spec(*features) is None,
        },
{
    let mut i: usize = 0;
    while i < features.children.len()
        invariant
            i <= features.children@.len(),
            mechanisms_child(features.children@, i as int) is None,
        decreases features.children.len() - i,
    {
        if let Node::Element(m) = &features.children[i] {
            if m.is("mechanisms", NS_XMPP_SASL) {
                proof {
                    reveal_strlit("mechanisms");
                    assert("mechanisms"@ =~= seq!['m', 'e', 'c', 'h', 'a', 'n', 'i', 's', 'm', 's']);
                    lemma_mechanisms_child_found(features.children@, i + 1, features.children@.len() as int);
                }
                let mut names: Vec<String> = Vec::new();
                let mut j: usize = 0;
                while j < m.children.len()
                    invariant
                        j <= m.children@.len(),
                        names_view(names@) == mechanism_names(m.children@, j as int),
                    decreases m.children.len() - j,
                {
                    let ghost before = names_view(names@);
                    if let Node::Element(c) = &m.children[j] {
                        proof {
                            reveal_strlit("mechanism");
                            assert("mechanism"@ =~= seq!['m', 'e', 'c', 'h', 'a', 'n', 'i', 's', 'm']);
                        }
                        if c.is("mechanism", NS_XMPP_SASL) {
                            let t = c.text();
                            names.push(t);
                            assert(names_view(names@) =~= before.push(t@));
                        }
                    }
                    j = j + 1;
                }
                return Some(names);
            }
            proof {
                reveal_strlit("mechanisms");
                assert("mechanisms"@ =~= seq!['m', 'e', 'c', 'h', 'a', 'n', 'i', 's', 'm', 's']);
            }
        }
        i = i + 1;
    }
    None
}

proof fn lemma_mechanisms_child_found(c: Seq<Node>, n: int, m: int)
    requires
        0 <= n <= m <= c.len(),
        mechanisms_child(c, n) is Some,
    ensures
        mechanisms_child(c, m) == mechanisms_child(c, n),
    decreases m - n,
{
    if m > n {
        lemma_mechanisms_child_found(c, n, m - 1);
    }
}

proof fn lemma_first_element_child_found(c: Seq<Node>, n: int, m: int)
    requires
        0 <= n <= m <= c.len(),
        first_element_child(c, n) is Some,
    ensures
        first_element_child(c, m) == first_element_child(c, n),
    decreases m - n,
{
    if m > n {
        lemma_first_element_child_found(c, n, m - 1);
    }
}

/// The reason that a `failure` nonza gives.
pub fn failure_reason_of(e: &Element) -> (r: String)
    ensures
        r@ == failure_reason(*e),
{
    let mut i: usize = 0;
    while i < e.children.len()
        invariant
            i <= e.children@.len(),
            first_element_child(e.children@, i as int) is None,
        decreases e.children.len() - i,
    {
        if let Node::Element(c) = &e.children[i] {
            proof {
                lemma_first_element_child_found(e.children@, i + 1, e.children@.len() as int);
            }
            return c.name.clone();
        }
        i = i + 1;
    }
    let mut r = String::new();
    push_str(&mut r, "Authentication failure");
    proof {
        reveal_strlit("Authentication failure");
        assert(r@ =~= default_failure_reason());
    }
    r
}

/// The SASL nonza `name`, with `payload` in base64 and, where given, the
/// attribute `mechanism`.
pub fn nonza(name: &str, mechanism: Option<&str>, payload: &[u8]) -> (r: Element)
    ensures
        nonza_of(
            r,
            name@,
            match mechanism {
                Some(m) => Some(m@),
                None => None,
            },
            payload@,
        ),
{
    let mut e = Element::new(name, NS_XMPP_SASL);
    match mechanism {
        Some(m) => {
            e.set_attr("mechanism", m);
            proof {
                reveal_strlit("mechanism");
                assert("mechanism"@ =~= seq!['m', 'e', 'c', 'h', 'a', 'n', 'i', 's', 'm']);
                assert(e.attrs@.len() == 1);
                assert(e.attrs@[0] == e.attrs@.last());
            }
        },
        None => {},
    }
    let text = encode_base64(payload);
    e.append_text(text.as_str());
    assert(e.children@[0] == e.children@.last());
    e
}


impl ClientAuth {
    /// Starts a negotiation over stream `features`, choosing the first of the
    /// `local` mechanisms (in order of preference) that the server offers.
    /// The mechanism's initial data is awaited next.
    pub fn new(features: &Element, local: &Vec<String>) -> (r: Result<ClientAuth, AuthError>)
        ensures
            match offered_spec(*features) {
                None => r == Err::<ClientAuth, AuthError>(AuthError::NoMechanisms),
                Some(o) => match first_offered(local@, o, local@.len() as int) {
                    None => r == Err::<ClientAuth, AuthError>(AuthError::NoCommonMechanism),
                    Some(i) => {
                        &&& r matches Ok(a)
                        &&& r->Ok_0.mechanism@ == local@[i]@
                        &&& r->Ok_0.state == (AuthState::AwaitMechanism { initial: true })
                    },
                },
            },
    {
        let offered = match offered_mechanisms(features) {
            Some(o) => o,
            None => {
                return Err(AuthError::NoMechanisms);
            },
        };
        proof {
            lemma_first_offered_bounds(local@, names_view(offered@), local@.len() as int);
        }
        match select_mechanism(local, &offered) {
            Some(i) => Ok(
                ClientAuth {
                    state: AuthState::AwaitMechanism { initial: true },
                    mechanism: local[i].clone(),
                },
            ),
            None => Err(AuthError::NoCommonMechanism),
        }
    }

    /// Advances the negotiation by what happened outside. An event that the
    /// current state does not wait for changes nothing: no nonza is sent
    /// twice, and unrelated server events are ignored.
    pub fn step(&mut self, ev: AuthEvent) -> (r: AuthAction)
        ensures
            final(self).mechanism == old(self).mechanism,
            match (old(self).state, ev) {
                (AuthState::AwaitMechanism { initial }, AuthEvent::MechanismData(d)) => {
                    &&& final(self).state == AuthState::WaitSend
                    &&& r matches AuthAction::Send(e) && if initial {
                        nonza_of(e, seq!['a', 'u', 't', 'h'], Some(old(self).mechanism@), d@)
                    } else {
                        nonza_of(e, seq!['r', 'e', 's', 'p', 'o', 'n', 's', 'e'], None, d@)
                    }
                },
                (AuthState::AwaitMechanism { .. }, AuthEvent::MechanismFailed) => {
                    final(self).state == AuthState::Failed && r == AuthAction::Fail(
                        AuthError::MechanismRejected,
                    )
                },
                (AuthState::WaitSend, AuthEvent::SendDone) => {
                    final(self).state == AuthState::WaitRecv && r == AuthAction::Wait
                },
                (AuthState::WaitSend, AuthEvent::SendFailed) | (
                    AuthState::WaitRecv,
                    AuthEvent::RecvFailed,
                ) | (AuthState::Restarting, AuthEvent::RecvFailed) | (
                    AuthState::Restarting,
                    AuthEvent::SendFailed,
                ) => {
                    final(self).state == AuthState::Failed && r == AuthAction::Fail(
                        AuthError::Transport,
                    )
                },
                (AuthState::WaitRecv, AuthEvent::Received(Packet::Stanza(s))) => {
                    if is_nonza(s, seq!['c', 'h', 'a', 'l', 'l', 'e', 'n', 'g', 'e']) {
                        match base64_bytes(text_of(s.children@, s.children@.len() as int)) {
                            Some(b) => {
                                &&& final(self).state == (AuthState::AwaitMechanism {
                                    initial: false,
                                })
                                &&& r matches AuthAction::Answer(c) && c@ == b
                            },
                            None => final(self).state == AuthState::Failed && r
                                == AuthAction::Fail(AuthError::MalformedChallenge),
                        }
                    } else if is_nonza(s, seq!['s', 'u', 'c', 'c', 'e', 's', 's']) {
                        final(self).state == AuthState::Restarting && r == AuthAction::Restart
                    } else if is_nonza(s, seq!['f', 'a', 'i', 'l', 'u', 'r', 'e']) {
                        &&& final(self).state == AuthState::Failed
                        &&& r matches AuthAction::Fail(AuthError::Server(reason))
                        &&& reason@ == failure_reason(s)
                    } else {
                        final(self).state == AuthState::WaitRecv && r == AuthAction::Wait
                    }
                },
                (AuthState::Restarting, AuthEvent::RestartDone) => {
                    final(self).state == AuthState::Done && r == AuthAction::Succeeded
                },
                _ => final(self).state == old(self).state && r == AuthAction::Wait,
            },
    {
        match (&self.state, ev) {
            (AuthState::AwaitMechanism { initial }, AuthEvent::MechanismData(d)) => {
                let e = if *initial {
                    proof { reveal_strlit("auth"); assert("auth"@ =~= seq!['a', 'u', 't', 'h']); }
                    nonza("auth", Some(self.mechanism.as_str()), d.as_slice())
                } else {
                    proof {
                        reveal_strlit("response");
                        assert("response"@ =~= seq!['r', 'e', 's', 'p', 'o', 'n', 's', 'e']);
                    }
                    nonza("response", None, d.as_slice())
                };
                self.state = AuthState::WaitSend;
                AuthAction::Send(e)
            },
            (AuthState::AwaitMechanism { .. }, AuthEvent::MechanismFailed) => {
                self.state = AuthState::Failed;
                AuthAction::Fail(AuthError::MechanismRejected)
            },
            (AuthState::WaitSend, AuthEvent::SendDone) => {
                self.state = AuthState::WaitRecv;
                AuthAction::Wait
            },
            (AuthState::WaitSend, AuthEvent::SendFailed)
            | (AuthState::WaitRecv, AuthEvent::RecvFailed)
            | (AuthState::Restarting, AuthEvent::RecvFailed)
            | (AuthState::Restarting, AuthEvent::SendFailed) => {
                self.state = AuthState::Failed;
                AuthAction::Fail(AuthError::Transport)
            },
            (AuthState::WaitRecv, AuthEvent::Received(Packet::Stanza(s))) => {
                proof {
                    reveal_strlit("challenge");
                    reveal_strlit("success");
                    reveal_strlit("failure");
                    assert("challenge"@ =~= seq!['c', 'h', 'a', 'l', 'l', 'e', 'n', 'g', 'e']);
                    assert("success"@ =~= seq!['s', 'u', 'c', 'c', 'e', 's', 's']);
                    assert("failure"@ =~= seq!['f', 'a', 'i', 'l', 'u', 'r', 'e']);
                }
                if s.is("challenge", NS_XMPP_SASL) {
                    let t = s.text();
                    match decode_base64(t.as_str()) {
                        Some(b) => {
                            self.state = AuthState::AwaitMechanism { initial: false };
                            AuthAction::Answer(b)
                        },
                        None => {
                            self.state = AuthState::Failed;
                            AuthAction::Fail(AuthError::MalformedChallenge)
                        },
                    }
                } else if s.is("success", NS_XMPP_SASL) {
                    self.state = AuthState::Restarting;
                    AuthAction::Restart
                } else if s.is("failure", NS_XMPP_SASL) {
                    self.state = AuthState::Failed;
                    AuthAction::Fail(AuthError::Server(failure_reason_of(&s)))
                } else {
                    AuthAction::Wait
                }
            },
            (AuthState::Restarting, AuthEvent::RestartDone) => {
                self.state = AuthState::Done;
                AuthAction::Succeeded
            },
            _ => AuthAction::Wait,
        }
    }
}

} // verus!
