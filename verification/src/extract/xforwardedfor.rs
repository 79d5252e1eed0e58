//! Decoder for the `X-Forwarded-For` request header.
//!
//! A header value is a comma-separated list of bare IP addresses.  Unlike
//! the `Forwarded` decoder this one fails fast: the moment any entry does
//! not parse as an IP address the whole header is rejected, with no partial
//! result, since any entry may be the real client address and partial trust
//! is unsafe.

use vstd::prelude::*;

use crate::bytes::{seq_views, split_bytes, split_on, trim, trim_spec};
use crate::net::{parse_ip, parse_ip_spec, IpAddress};

verus! {

/// The decoded `X-Forwarded-For` header: the addresses in header order.
#[derive(Debug, PartialEq, Eq)]
pub struct XForwardedFor {
    forwards: Vec<IpAddress>,
}

/// The rejection raised when any entry of the header is not an IP address.
#[derive(Clone, Copy, Debug, PartialEq, Eq, Structural)]
pub struct XForwardedForRejection;

impl View for XForwardedFor {
    type V = Seq<IpAddress>;

    closed spec fn view(&self) -> Seq<IpAddress> {
        self.forwards@
    }
}

impl XForwardedFor {
    /// A header value from its addresses.
    pub fn new(forwards: Vec<IpAddress>) -> (r: Self)
        ensures
            r@ == forwards@,
    {
        XForwardedFor { forwards }
    }

    /// The addresses, in header order.
    pub fn forwards(&self) -> (r: &Vec<IpAddress>)
        ensures
            r@ == self@,
    {
        &self.forwards
    }
}

/// What a whole header value denotes: the trimmed comma-separated entries,
/// each parsed as an IP address, or nothing at all if any entry fails.
pub open spec fn xff_of_text(s: Seq<u8>) -> Option<Seq<IpAddress>> {
    let parts = split_on(s, 44);
    if forall|i: int| 0 <= i < parts.len() ==> parse_ip_spec(trim_spec(#[trigger] parts[i])) is Some {
        Some(Seq::new(parts.len(), |i: int| parse_ip_spec(trim_spec(parts[i]))->Some_0))
    } else {
        None
    }
}

impl XForwardedFor {
    /// Decode an `X-Forwarded-For` header value: all entries parse, or the
    /// header is rejected whole.
    pub fn decode(s: &[u8]) -> (r: Result<XForwardedFor, XForwardedForRejection>)
        ensures
            match r {
                Ok(x) => xff_of_text(s@) == Some(x@),
                Err(_) => xff_of_text(s@) is None,
            },
    {
        let parts = split_bytes(s, 44);
        let ghost sparts = split_on(s@, 44);
        let n = parts.len();
        let mut forwards: Vec<IpAddress> = Vec::new();
        let mut i: usize = 0;
        while i < n
            invariant
                0 <= i <= n == sparts.len(),
                sparts == split_on(s@, 44),
                seq_views(parts@) == sparts,
                parts@.len() == n,
                forwards@.len() == i,
                forall|k: int|
                    0 <= k < i ==> parse_ip_spec(trim_spec(#[trigger] sparts[k])) == Some(
                        forwards@[k],
                    ),
            decreases n - i,
        {
            assert(parts@[i as int]@ == sparts[i as int]);
            let entry = trim(parts[i].as_slice());
            match parse_ip(entry) {
                Some(ip) => {
                    forwards.push(ip);
                },
                None => {
                    assert(parse_ip_spec(trim_spec(sparts[i as int])) is None);
                    return Err(XForwardedForRejection);
                },
            }
            i += 1;
        }
        let x = XForwardedFor { forwards };
        proof {
            let parts_s = split_on(s@, 44);
            assert(forall|k: int|
                0 <= k < parts_s.len() ==> parse_ip_spec(trim_spec(#[trigger] parts_s[k]))
                    is Some);
            assert(xff_of_text(s@) == Some(
                Seq::new(parts_s.len(), |k: int| parse_ip_spec(trim_spec(parts_s[k]))->Some_0),
            ));
            assert(x@ =~= Seq::new(
                parts_s.len(),
                |k: int| parse_ip_spec(trim_spec(parts_s[k]))->Some_0,
            ));
        }
        Ok(x)
    }
}

} // verus!
