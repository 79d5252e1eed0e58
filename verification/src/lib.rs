//! Resolution of the real client address of a proxied TCP connection.
//!
//! Two independent disclosure mechanisms are decoded:
//!
//! * the PROXY protocol (versions 1 and 2), a preamble prepended to the TCP
//!   stream by an intermediary ([`parser`], [`proxy`]), and
//! * the HTTP request headers `Forwarded` and `X-Forwarded-For` ([`extract`]).

pub mod bytes;
pub mod extract;
pub mod net;
pub mod parser;
pub mod proxy;
