//! A verified codec for the socket.io wire protocol.
//!
//! The crate decodes one text packet into a structured [`Message`],
//! encodes a [`Message`] back to wire text, and splices binary
//! attachments into a decoded JSON payload in place of the placeholder
//! objects that stood in for them on the wire.

use vstd::prelude::*;

pub mod error;
pub mod jsontext;
pub mod json;
pub mod message;
pub mod reconstruct;

verus! {

pub use error::SocketError;
pub use json::Json;
pub use message::Body;
pub use message::Message;

} // verus!
