//! The connection-acceptance policy of a proxy-aware listener.
//!
//! A listener peeks a bounded prefix of each new connection, has
//! [`classify`] decide what the preamble said, consumes exactly the reported
//! number of bytes, and reports an [`Addr`] to the application in place of
//! the transport's peer address.  A connection whose preamble is malformed
//! is discarded; the listener itself never fails.

use vstd::prelude::*;

use crate::net::{unspecified_sockaddr, SockAddr};
use crate::parser::{parse, wire_parse_spec, Error, ParseResult, Where};

verus! {

/// The resolved endpoints reported to the application for one connection.
#[derive(Clone, Copy, Debug, PartialEq, Eq, Structural)]
pub struct Addr {
    /// The original client.
    pub source: SockAddr,
    /// The endpoint the client connected to, or the all-zero address when
    /// the preamble did not disclose one.
    pub destination: SockAddr,
}

impl Addr {
    /// An address from both endpoints.
    pub fn new(source: SockAddr, destination: SockAddr) -> (r: Self)
        ensures
            r == (Addr { source, destination }),
    {
        Addr { source, destination }
    }

    /// The address reported when no preamble was present: the transport's
    /// own peer address, with an unspecified destination.
    pub fn from_transport(peer: SockAddr) -> (r: Self)
        ensures
            r == (Addr { source: peer, destination: unspecified_sockaddr() }),
    {
        Addr { source: peer, destination: crate::net::unspecified() }
    }
}

/// Where the address of an accepted connection is to be resolved from.
#[derive(Clone, Copy, Debug, PartialEq, Eq, Structural)]
pub enum Resolution {
    /// The preamble disclosed both endpoints.
    FromHeader(Addr),
    /// Nothing was disclosed: ask the transport for its peer address.
    FromTransport,
}

/// What the listener does with one peeked connection.
#[derive(Clone, Copy, Debug, PartialEq, Eq, Structural)]
pub enum Classified {
    /// Consume exactly `advance_by` bytes from the live stream — the
    /// application must see only what follows the preamble — then hand the
    /// stream onward with the resolution.
    Accept {
        /// How many bytes of preamble to consume.
        advance_by: usize,
        /// Where the reported address comes from.
        resolution: Resolution,
    },
    /// Drop this connection and accept the next one.
    Discard {
        /// Why the preamble was refused.
        reason: Error,
    },
}

/// What `classify` decides for a peeked prefix, stated over the wire
/// parser's own specification.
pub open spec fn classify_spec(s: Seq<u8>) -> Classified {
    match wire_parse_spec(s) {
        Ok(p) => Classified::Accept {
            advance_by: p.0,
            resolution: match p.1 {
                Where::Header { source, destination } => Resolution::FromHeader(
                    Addr { source, destination },
                ),
                Where::Underlying => Resolution::FromTransport,
            },
        },
        Err(e) => Classified::Discard { reason: e },
    }
}

/// The preamble never claims more bytes than the buffer holds: a successful
/// parse reports a consumed length within the peeked prefix, so the bytes
/// the application reads start exactly after the preamble.
pub proof fn lemma_consumed_within_buffer(s: Seq<u8>)
    ensures
        match wire_parse_spec(s) {
            Ok(p) => p.0 <= s.len(),
            Err(_) => true,
        },
{
    match crate::parser::sniff_spec(s) {
        Some(crate::parser::Version::V1) => {
            crate::bytes::lemma_find_pair_from(s, 13, 10, 0);
        },
        _ => {},
    }
}

/// Classify one peeked connection prefix: how many preamble bytes to
/// consume, and where the reported address comes from.  A parse error
/// discards the connection, never the listener.
pub fn classify(peeked: &[u8]) -> (c: Classified)
    ensures
        c == classify_spec(peeked@),
        match c {
            Classified::Accept { advance_by, .. } => advance_by <= peeked@.len(),
            Classified::Discard { .. } => true,
        },
{
    match parse(peeked) {
        Ok(p) => {
            let ParseResult(advance_by, where_) = p;
            match where_ {
                Where::Underlying => Classified::Accept {
                    advance_by,
                    resolution: Resolution::FromTransport,
                },
                Where::Header { source, destination } => Classified::Accept {
                    advance_by,
                    resolution: Resolution::FromHeader(Addr { source, destination }),
                },
            }
        },
        Err(e) => Classified::Discard { reason: e },
    }
}

} // verus!
