//! XMPP ping payloads.

use vstd::prelude::*;
use crate::element::{Element, opt_view};
use crate::error::Error;

verus! {

/// The namespace of pings.
pub const PING_NS: &'static str = "urn:xmpp:ping";

/// A ping request; it carries nothing.
#[derive(Debug, PartialEq, Eq)]
pub struct Ping {}

/// Reads a `<ping/>` element, which has no children.
pub fn parse_ping(root: &Element) -> (r: Result<Ping, Error>)
    requires
        root.name@ == "ping"@,
        opt_view(root.ns) == Some(PING_NS@),
    ensures
        r is Ok <==> !(exists|i: int| 0 <= i < root.children@.len() && root.children@[i] is Element),
        r is Err ==> r == Err::<Ping, Error>(Error::ParseError("Unknown child in ping element.")),
{
    if root.has_element_child() {
        return Err(Error::ParseError("Unknown child in ping element."));
    }
    Ok(Ping {})
}

} // verus!
