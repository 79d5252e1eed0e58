//! Decoders for the HTTP request headers by which an intermediary declares
//! forwarding metadata: `Forwarded` and `X-Forwarded-For`.

pub mod forwarded;
pub mod xforwardedfor;

pub use crate::extract::forwarded::{
    Forward, Forwarded, ForwardedRejection, Interface, Protocol,
};
pub use crate::extract::xforwardedfor::{XForwardedFor, XForwardedForRejection};
