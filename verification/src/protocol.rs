//! The messages of PostgreSQL's protocol, as far as the proxy looks at them.
use vstd::prelude::*;

verus! {

/// The versions of the protocol that exist.
#[derive(Clone, Copy, Debug, PartialEq, Eq, Structural)]
pub enum ProtocolVersion {
    V3_0,
    V3_2,
    /// What a client asks for that wants the newest version.
    V3_9999,
}

/// The version with the given numbers that a server can accept.
pub open spec fn supported_version(major: u16, minor: u16) -> Option<ProtocolVersion> {
    if major == 3 && minor == 0 {
        Some(ProtocolVersion::V3_0)
    } else if major == 3 && minor == 2 {
        Some(ProtocolVersion::V3_2)
    } else {
        None
    }
}

/// `ProtocolVersion::from_version_number` of the `pgwire` crate.
///
/// Relied on: versions 3.0 and 3.2 are accepted and no others.
#[verifier::external_body]
pub(crate) fn version_from_number(major: u16, minor: u16) -> (res: Option<ProtocolVersion>)
    ensures
        res == supported_version(major, minor),
{
    match pgwire::messages::ProtocolVersion::from_version_number(major, minor) {
        Some(pgwire::messages::ProtocolVersion::PROTOCOL3_0) => Some(ProtocolVersion::V3_0),
        Some(pgwire::messages::ProtocolVersion::PROTOCOL3_2) => Some(ProtocolVersion::V3_2),
        Some(pgwire::messages::ProtocolVersion::PROTOCOL3_9999) => Some(ProtocolVersion::V3_9999),
        None => None,
    }
}

/// Whether a transaction is under way, as the server reports it.
#[derive(Clone, Copy, Debug, PartialEq, Eq, Structural)]
pub enum TransactionStatus {
    Idle,
    Transaction,
    Error,
}

/// A message of a client.
#[derive(Debug)]
pub enum ClientMessage {
    /// The client asks for encryption with SSL.
    SslRequest,
    /// The client asks for encryption with GSSAPI.
    GssEncryptionRequest,
    /// The client asks for no encryption.
    NoEncryption,
    /// The first message proper: the protocol's version, and the connection's parameters.
    Startup { major: u16, minor: u16, parameters: Vec<(String, String)> },
    /// A query of the simple protocol.
    Query { query: String },
    /// The first step of a query of the extended protocol.
    Parse { query: String },
    /// The end of an exchange of the extended protocol.
    Sync,
    /// The client takes its leave.
    Terminate,
    /// Any other message.
    Other,
}

/// A message of the server.
#[derive(Clone, Copy, Debug, PartialEq, Eq, Structural)]
pub enum ServerMessage {
    /// The server waits for the next query.
    ReadyForQuery(TransactionStatus),
    /// Any other message.
    Other,
}

} // verus!
