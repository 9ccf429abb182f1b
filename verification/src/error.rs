//! The error taxonomy.
//!
//! One closed kind set covers every failure the codec can report:
//! malformed packet text, JSON syntax faults, reconstruction faults,
//! and the conditions forwarded from the surrounding transport layer.

use vstd::prelude::*;

verus! {

/// An error within the socket.io codec.
#[derive(Clone, Debug, PartialEq)]
pub enum SocketError {
    /// The first character of the packet was not a digit in `0..=6`.
    /// Carries the offending character.
    MalformedType(char),
    /// The input ended where the packet grammar required more text.
    UnexpectedEof,
    /// A binary packet's attachment count was missing or not a number
    /// in range.
    InvalidAttachmentCount,
    /// An `Ack` or `BinaryAck` packet carried no acknowledgement id.
    MissingAckId,
    /// An ack id's digit run did not fit a signed 32-bit integer.
    AckIdOutOfRange,
    /// The JSON payload was malformed; carries the line and column of
    /// the offending character, both counted from one.
    JsonSyntax { line: usize, col: usize },
    /// An event payload's JSON value was not an array.
    PayloadNotArray,
    /// An event payload's JSON array held no elements.
    PayloadArrayEmpty,
    /// The first element of an event payload array was not a string.
    NameNotString,
    /// A placeholder named an attachment index with no buffer behind
    /// it.
    AttachmentIndexOutOfRange,
    /// Binary data arrived that was not valid base64 text.
    Base64,
    /// A failure inside the transport below the codec, forwarded as an
    /// opaque description.
    Engine(String),
    /// The operation was attempted while the component was in a state
    /// that does not admit it; carries a description of the cause.
    InvalidState(String),
    /// An I/O failure below the codec, forwarded as an opaque
    /// description.
    Io(String),
    /// Text data was not valid UTF-8.
    Utf8,
    /// Room for conditions a future revision may add; current code
    /// never constructs it.
    Unknown,
}

/// The description text of each failure kind.
pub open spec fn spec_description(e: SocketError) -> Seq<char> {
    match e {
        SocketError::MalformedType(_) => "Message type could not be parsed: the leading character must be a digit between 0 and 6."@,
        SocketError::UnexpectedEof => "Packet could not be read because the end of the buffer string was reached."@,
        SocketError::InvalidAttachmentCount => "The attachment count of a binary packet was missing or not a number."@,
        SocketError::MissingAckId => "Received ack packet without an ID."@,
        SocketError::AckIdOutOfRange => "The ack ID did not fit a signed 32-bit integer."@,
        SocketError::JsonSyntax { .. } => "The JSON payload was malformed."@,
        SocketError::PayloadNotArray => "Packet could not be parsed because the message JSON data was not an array."@,
        SocketError::PayloadArrayEmpty => "Packet could not be parsed because the data array did not contain enough elements."@,
        SocketError::NameNotString => "Packet could not be parsed because the array element that should've been the packet's name was not a string."@,
        SocketError::AttachmentIndexOutOfRange => "Attachments could not be reattached because the attachment array was too short."@,
        SocketError::Base64 => "Base64 data was invalid."@,
        SocketError::Engine(_) => "An error occured within the transport layer."@,
        SocketError::InvalidState(_) => "The action could not be performed because the component was in an invalid state."@,
        SocketError::Io(_) => "An I/O error occured."@,
        SocketError::Utf8 => "UTF-8 data was invalid."@,
        SocketError::Unknown => "Unknown socket.io error."@,
    }
}

impl SocketError {
    /// A human-readable description of the failure kind.
    pub fn description(&self) -> (r: String)
        ensures
            r@ == spec_description(*self),
            r@.len() > 0,
    {
        match self {
            SocketError::MalformedType(_) => {
                proof {
                    reveal_strlit("Message type could not be parsed: the leading character must be a digit between 0 and 6.");
                }
                "Message type could not be parsed: the leading character must be a digit between 0 and 6.".to_owned()
            },
            SocketError::UnexpectedEof => {
                proof {
                    reveal_strlit("Packet could not be read because the end of the buffer string was reached.");
                }
                "Packet could not be read because the end of the buffer string was reached.".to_owned()
            },
            SocketError::InvalidAttachmentCount => {
                proof {
                    reveal_strlit("The attachment count of a binary packet was missing or not a number.");
                }
                "The attachment count of a binary packet was missing or not a number.".to_owned()
            },
            SocketError::MissingAckId => {
                proof {
                    reveal_strlit("Received ack packet without an ID.");
                }
                "Received ack packet without an ID.".to_owned()
            },
            SocketError::AckIdOutOfRange => {
                proof {
                    reveal_strlit("The ack ID did not fit a signed 32-bit integer.");
                }
                "The ack ID did not fit a signed 32-bit integer.".to_owned()
            },
            SocketError::JsonSyntax { .. } => {
                proof {
                    reveal_strlit("The JSON payload was malformed.");
                }
                "The JSON payload was malformed.".to_owned()
            },
            SocketError::PayloadNotArray => {
                proof {
                    reveal_strlit("Packet could not be parsed because the message JSON data was not an array.");
                }
                "Packet could not be parsed because the message JSON data was not an array.".to_owned()
            },
            SocketError::PayloadArrayEmpty => {
                proof {
                    reveal_strlit("Packet could not be parsed because the data array did not contain enough elements.");
                }
                "Packet could not be parsed because the data array did not contain enough elements.".to_owned()
            },
            SocketError::NameNotString => {
                proof {
                    reveal_strlit("Packet could not be parsed because the array element that should've been the packet's name was not a string.");
                }
                "Packet could not be parsed because the array element that should've been the packet's name was not a string.".to_owned()
            },
            SocketError::AttachmentIndexOutOfRange => {
                proof {
                    reveal_strlit("Attachments could not be reattached because the attachment array was too short.");
                }
                "Attachments could not be reattached because the attachment array was too short.".to_owned()
            },
            SocketError::Base64 => {
                proof {
                    reveal_strlit("Base64 data was invalid.");
                }
                "Base64 data was invalid.".to_owned()
            },
            SocketError::Engine(_) => {
                proof {
                    reveal_strlit("An error occured within the transport layer.");
                }
                "An error occured within the transport layer.".to_owned()
            },
            SocketError::InvalidState(_) => {
                proof {
                    reveal_strlit("The action could not be performed because the component was in an invalid state.");
                }
                "The action could not be performed because the component was in an invalid state.".to_owned()
            },
            SocketError::Io(_) => {
                proof {
                    reveal_strlit("An I/O error occured.");
                }
                "An I/O error occured.".to_owned()
            },
            SocketError::Utf8 => {
                proof {
                    reveal_strlit("UTF-8 data was invalid.");
                }
                "UTF-8 data was invalid.".to_owned()
            },
            SocketError::Unknown => {
                proof {
                    reveal_strlit("Unknown socket.io error.");
                }
                "Unknown socket.io error.".to_owned()
            },
        }
    }

    /// Builds the error that marks data as invalid for the operation
    /// at hand, from a description of the fault.
    pub fn invalid_data(msg: &str) -> (r: SocketError)
        ensures
            r matches SocketError::Io(s) && s@ == msg@,
    {
        SocketError::Io(msg.to_owned())
    }

    /// Builds an [`SocketError::InvalidState`] from a description of
    /// the cause.
    pub fn invalid_state(msg: &str) -> (r: SocketError)
        ensures
            r matches SocketError::InvalidState(s) && s@ == msg@,
    {
        SocketError::InvalidState(msg.to_owned())
    }
}

} // verus!
