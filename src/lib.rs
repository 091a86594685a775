//! Client-side XMPP transport core: an incremental XML tokenizer, a tree
//! builder, a stream codec and a SASL negotiation state machine, with Jabber
//! IDs and a few payload schemas (MUC user, message archive, ping) read from
//! and written to the generic element tree.

pub mod auth;
pub mod codec;
pub mod element;
pub mod encoding;
pub mod error;
pub mod jid;
pub mod lexer;
pub mod mam;
pub mod muc_user;
pub mod ping;
pub mod round_trip;
pub mod text;
pub mod tree;

pub use codec::{Packet, XMPPCodec};
pub use element::{Element, Node};
pub use error::Error;
pub use jid::{Jid, JidParseError};
pub use tree::parse_document;
