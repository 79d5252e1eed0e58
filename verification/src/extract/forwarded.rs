//! Decoder for the `Forwarded` request header.
//!
//! A header value is a comma-separated list of hops; each hop is a
//! semicolon-separated list of `key=value` parameters with the keys `by`,
//! `for`, `host` and `proto` recognised case-insensitively and unknown keys
//! ignored.  Decoding never fails on content: unparsable address tokens
//! degrade to opaque identifiers.  Only a value that is not well-formed
//! UTF-8 is rejected.

use vstd::prelude::*;

use crate::bytes::{
    eq_ignore_case, eq_ignore_case_spec, find_byte, find_byte_from, is_utf8, is_ws, lower,
    seq_views, split_bytes, split_on, trim, trim_end_spec, trim_spec, trim_start_spec,
    validate_utf8,
};
use crate::net::{
    lemma_sockaddr_text_roundtrip, lemma_sockaddr_text_shape, parse_ip, parse_ip_spec,
    parse_port, parse_port_spec, parse_sockaddr, parse_sockaddr_spec, sockaddr_text, SockAddr,
};

verus! {

/// The protocol which initiated the request.
#[derive(Debug)]
pub enum Protocol {
    /// Plain HTTP.
    Http,
    /// HTTP over TLS.
    Https,
    /// Any other protocol token, kept verbatim.
    Other(Vec<u8>),
}

/// The specification-level value of a [`Protocol`].
pub enum ProtocolView {
    /// Plain HTTP.
    Http,
    /// HTTP over TLS.
    Https,
    /// Any other protocol token.
    Other(Seq<u8>),
}

impl View for Protocol {
    type V = ProtocolView;

    open spec fn view(&self) -> ProtocolView {
        match self {
            Protocol::Http => ProtocolView::Http,
            Protocol::Https => ProtocolView::Https,
            Protocol::Other(s) => ProtocolView::Other(s@),
        }
    }
}

impl PartialEq for Protocol {
    fn eq(&self, other: &Protocol) -> (r: bool) {
        match (self, other) {
            (Protocol::Http, Protocol::Http) => true,
            (Protocol::Https, Protocol::Https) => true,
            (Protocol::Other(a), Protocol::Other(b)) => crate::bytes::bytes_eq(
                a.as_slice(),
                b.as_slice(),
            ),
            _ => false,
        }
    }
}

impl vstd::std_specs::cmp::PartialEqSpecImpl for Protocol {
    open spec fn obeys_eq_spec() -> bool {
        true
    }

    open spec fn eq_spec(&self, other: &Protocol) -> bool {
        self@ == other@
    }
}

impl Eq for Protocol {}

/// The forwarding interface named by one token: an opaque name, a socket
/// address, or the literal `unknown`.
#[derive(Debug)]
pub enum Interface {
    /// Probably a hostname or an internal name of some sort.
    Identifier(Vec<u8>),
    /// A parsed socket address.
    Socket(SockAddr),
    /// The literal `unknown`.
    Unknown,
}

/// The specification-level value of an [`Interface`].
pub enum InterfaceView {
    /// An opaque name.
    Identifier(Seq<u8>),
    /// A parsed socket address.
    Socket(SockAddr),
    /// The literal `unknown`.
    Unknown,
}

impl View for Interface {
    type V = InterfaceView;

    open spec fn view(&self) -> InterfaceView {
        match self {
            Interface::Identifier(s) => InterfaceView::Identifier(s@),
            Interface::Socket(sa) => InterfaceView::Socket(*sa),
            Interface::Unknown => InterfaceView::Unknown,
        }
    }
}

impl PartialEq for Interface {
    fn eq(&self, other: &Interface) -> (r: bool) {
        match (self, other) {
            (Interface::Identifier(a), Interface::Identifier(b)) => crate::bytes::bytes_eq(
                a.as_slice(),
                b.as_slice(),
            ),
            (Interface::Socket(a), Interface::Socket(b)) => a == b,
            (Interface::Unknown, Interface::Unknown) => true,
            _ => false,
        }
    }
}

impl vstd::std_specs::cmp::PartialEqSpecImpl for Interface {
    open spec fn obeys_eq_spec() -> bool {
        true
    }

    open spec fn eq_spec(&self, other: &Interface) -> bool {
        self@ == other@
    }
}

impl Eq for Interface {}

/// The ASCII text `unknown`.
pub open spec fn unknown_lit() -> Seq<u8> {
    seq![117u8, 110u8, 107u8, 110u8, 111u8, 119u8, 110u8]
}

/// The ASCII text `"unknown"`.
pub open spec fn quoted_unknown_lit() -> Seq<u8> {
    seq![34u8, 117u8, 110u8, 107u8, 110u8, 111u8, 119u8, 110u8, 34u8]
}

/// The ASCII text `https`.
pub open spec fn https_lit() -> Seq<u8> {
    seq![104u8, 116u8, 116u8, 112u8, 115u8]
}

/// The ASCII text `http`.
pub open spec fn http_lit() -> Seq<u8> {
    seq![104u8, 116u8, 116u8, 112u8]
}

/// `s` without one pair of wrapping double quotes, if it has one.
pub open spec fn strip_quotes(s: Seq<u8>) -> Seq<u8> {
    if s.len() >= 2 && s[0] == 34 && s[s.len() - 1] == 34 {
        s.subrange(1, s.len() - 1)
    } else {
        s
    }
}

/// The indices the bracket scan settles on: the character after the first
/// `[`, the first `]` after it, and the character after the first `:` after
/// that, each defaulting to zero when its trigger never occurs.
pub open spec fn bracket_indices(t: Seq<u8>) -> (int, int, int) {
    match find_byte_from(t, 91, 0) {
        None => (0, 0, 0),
        Some(i) => match find_byte_from(t, 93, i + 1) {
            None => (i + 1, 0, 0),
            Some(j) => match find_byte_from(t, 58, j + 1) {
                None => (i + 1, j, 0),
                Some(k) => (i + 1, j, k + 1),
            },
        },
    }
}

/// What the bracket scan makes of a token that is neither `unknown` nor a
/// directly parsable address: a socket address recovered from `[ip]` with an
/// optional port, else an opaque identifier.
pub open spec fn bracket_scan(t: Seq<u8>) -> InterfaceView {
    let (ip_start, ip_end, port_start) = bracket_indices(t);
    let ip_opt = if 0 <= ip_start <= ip_end <= t.len() {
        parse_ip_spec(t.subrange(ip_start, ip_end))
    } else {
        None
    };
    let port_opt = if 0 <= port_start <= t.len() {
        parse_port_spec(t.subrange(port_start, t.len() as int))
    } else {
        None
    };
    match (ip_opt, port_opt) {
        (Some(ip), Some(port)) => InterfaceView::Socket(SockAddr { ip, port }),
        (Some(ip), None) => InterfaceView::Socket(SockAddr { ip, port: 0 }),
        _ => InterfaceView::Identifier(t),
    }
}

/// What one forwarding-interface token denotes.  Every token denotes some
/// value: the literal `unknown` (optionally quoted), then — after trimming
/// whitespace and one pair of quotes — a socket address, a bare address with
/// port zero, a bracketed address recovered by the scan, and finally an
/// opaque identifier.
pub open spec fn interface_of_text(s: Seq<u8>) -> InterfaceView {
    if eq_ignore_case_spec(s, unknown_lit()) || eq_ignore_case_spec(s, quoted_unknown_lit()) {
        InterfaceView::Unknown
    } else {
        let t = strip_quotes(trim_spec(s));
        match parse_sockaddr_spec(t) {
            Some(sa) => InterfaceView::Socket(sa),
            None => match parse_ip_spec(t) {
                Some(ip) => InterfaceView::Socket(SockAddr { ip, port: 0 }),
                None => bracket_scan(t),
            },
        }
    }
}

/// `s` without one pair of wrapping double quotes, if it has one.
fn strip_quotes_exec(s: &[u8]) -> (r: &[u8])
    ensures
        r@ == strip_quotes(s@),
{
    let n = s.len();
    if n >= 2 && s[0] == 34 && s[n - 1] == 34 {
        let r = vstd::slice::slice_subrange(s, 1, n - 1);
        assert(r@ =~= s@.subrange(1, s@.len() - 1));
        r
    } else {
        s
    }
}

impl Interface {
    /// Parse one forwarding-interface token.  Every input yields a value;
    /// nothing is rejected.
    pub fn parse(s: &[u8]) -> (r: Interface)
        ensures
            r@ == interface_of_text(s@),
    {
        let unknown_arr: [u8; 7] = [117, 110, 107, 110, 111, 119, 110];
        let quoted_arr: [u8; 9] = [34, 117, 110, 107, 110, 111, 119, 110, 34];
        assert(unknown_arr@ =~= unknown_lit());
        assert(quoted_arr@ =~= quoted_unknown_lit());
        if eq_ignore_case(s, unknown_arr.as_slice()) || eq_ignore_case(s, quoted_arr.as_slice()) {
            return Interface::Unknown;
        }
        let t = strip_quotes_exec(trim(s));
        match parse_sockaddr(t) {
            Some(sa) => {
                return Interface::Socket(sa);
            },
            None => {},
        }
        match parse_ip(t) {
            Some(ip) => {
                return Interface::Socket(SockAddr { ip, port: 0 });
            },
            None => {},
        }
        let n = t.len();
        let mut ip_start: usize = 0;
        let mut ip_end: usize = 0;
        let mut port_start: usize = 0;
        match find_byte(t, 91, 0) {
            Some(i) => {
                ip_start = i + 1;
                match find_byte(t, 93, i + 1) {
                    Some(j) => {
                        ip_end = j;
                        match find_byte(t, 58, j + 1) {
                            Some(k) => {
                                port_start = k + 1;
                            },
                            None => {},
                        }
                    },
                    None => {},
                }
            },
            None => {},
        }
        assert((ip_start as int, ip_end as int, port_start as int) == bracket_indices(t@));
        let ip_o = if ip_start <= ip_end {
            let inside = vstd::slice::slice_subrange(t, ip_start, ip_end);
            assert(inside@ =~= t@.subrange(ip_start as int, ip_end as int));
            parse_ip(inside)
        } else {
            None
        };
        let after = vstd::slice::slice_subrange(t, port_start, n);
        assert(after@ =~= t@.subrange(port_start as int, t@.len() as int));
        let port_o = parse_port(after);
        match (ip_o, port_o) {
            (Some(ip), Some(port)) => Interface::Socket(SockAddr { ip, port }),
            (Some(ip), None) => Interface::Socket(SockAddr { ip, port: 0 }),
            _ => Interface::Identifier(vstd::slice::slice_to_vec(t)),
        }
    }
}

/// What one protocol token denotes: `http` and `https` case-insensitively,
/// any other token kept verbatim.
pub open spec fn protocol_of_text(s: Seq<u8>) -> ProtocolView {
    if eq_ignore_case_spec(s, https_lit()) {
        ProtocolView::Https
    } else if eq_ignore_case_spec(s, http_lit()) {
        ProtocolView::Http
    } else {
        ProtocolView::Other(s)
    }
}

impl Protocol {
    /// Parse one protocol token.  Every input yields a value.
    pub fn parse(s: &[u8]) -> (r: Protocol)
        ensures
            r@ == protocol_of_text(s@),
    {
        let https_arr: [u8; 5] = [104, 116, 116, 112, 115];
        let http_arr: [u8; 4] = [104, 116, 116, 112];
        assert(https_arr@ =~= https_lit());
        assert(http_arr@ =~= http_lit());
        if eq_ignore_case(s, https_arr.as_slice()) {
            return Protocol::Https;
        }
        if eq_ignore_case(s, http_arr.as_slice()) {
            return Protocol::Http;
        }
        Protocol::Other(vstd::slice::slice_to_vec(s))
    }
}

/// Parsing the textual form of any socket address yields that socket again.
pub proof fn lemma_interface_socket_roundtrip(sa: SockAddr)
    ensures
        interface_of_text(sockaddr_text(sa)) == InterfaceView::Socket(sa),
{
    let s = sockaddr_text(sa);
    lemma_sockaddr_text_roundtrip(sa);
    lemma_sockaddr_text_shape(sa);
    assert(!eq_ignore_case_spec(s, unknown_lit())) by {
        if eq_ignore_case_spec(s, unknown_lit()) {
            assert(lower(s[0]) == lower(unknown_lit()[0]));
        }
    }
    assert(!eq_ignore_case_spec(s, quoted_unknown_lit())) by {
        if eq_ignore_case_spec(s, quoted_unknown_lit()) {
            assert(lower(s[0]) == lower(quoted_unknown_lit()[0]));
        }
    }
    assert(!is_ws(s[0]));
    assert(!is_ws(s.last()));
    assert(trim_start_spec(s) == s);
    assert(trim_end_spec(s) == s);
    assert(trim_spec(s) == s);
    assert(s[0] != 34);
    assert(strip_quotes(s) == s);
    assert(interface_of_text(s) == InterfaceView::Socket(sa));
}

/// A single forwarding hop.  All fields are optional.
#[derive(Debug)]
pub struct Forward {
    /// The forwarder (proxy server).
    by: Option<Interface>,
    /// The request initiator.
    for_: Option<Interface>,
    /// The `Host` header, as seen by the proxy.
    host: Option<Vec<u8>>,
    /// The protocol used during this forward.
    proto: Option<Protocol>,
}

/// The specification-level value of a [`Forward`].
pub struct ForwardView {
    /// The forwarder.
    pub by: Option<InterfaceView>,
    /// The request initiator.
    pub for_: Option<InterfaceView>,
    /// The `Host` header, as seen by the proxy.
    pub host: Option<Seq<u8>>,
    /// The protocol used during this forward.
    pub proto: Option<ProtocolView>,
}

/// The view of an optional interface.
pub open spec fn opt_iface_view(o: Option<Interface>) -> Option<InterfaceView> {
    match o {
        Some(i) => Some(i@),
        None => None,
    }
}

/// The view of an optional byte vector.
pub open spec fn opt_bytes_view(o: Option<Vec<u8>>) -> Option<Seq<u8>> {
    match o {
        Some(v) => Some(v@),
        None => None,
    }
}

/// The view of an optional protocol.
pub open spec fn opt_proto_view(o: Option<Protocol>) -> Option<ProtocolView> {
    match o {
        Some(p) => Some(p@),
        None => None,
    }
}

impl View for Forward {
    type V = ForwardView;

    closed spec fn view(&self) -> ForwardView {
        ForwardView {
            by: opt_iface_view(self.by),
            for_: opt_iface_view(self.for_),
            host: opt_bytes_view(self.host),
            proto: opt_proto_view(self.proto),
        }
    }
}

fn opt_iface_eq(a: &Option<Interface>, b: &Option<Interface>) -> (r: bool)
    ensures
        r == (opt_iface_view(*a) == opt_iface_view(*b)),
{
    match (a, b) {
        (Some(x), Some(y)) => x == y,
        (None, None) => true,
        _ => false,
    }
}

fn opt_bytes_eq(a: &Option<Vec<u8>>, b: &Option<Vec<u8>>) -> (r: bool)
    ensures
        r == (opt_bytes_view(*a) == opt_bytes_view(*b)),
{
    match (a, b) {
        (Some(x), Some(y)) => crate::bytes::bytes_eq(x.as_slice(), y.as_slice()),
        (None, None) => true,
        _ => false,
    }
}

fn opt_proto_eq(a: &Option<Protocol>, b: &Option<Protocol>) -> (r: bool)
    ensures
        r == (opt_proto_view(*a) == opt_proto_view(*b)),
{
    match (a, b) {
        (Some(x), Some(y)) => x == y,
        (None, None) => true,
        _ => false,
    }
}

impl PartialEq for Forward {
    fn eq(&self, other: &Forward) -> (r: bool) {
        opt_iface_eq(&self.by, &other.by) && opt_iface_eq(&self.for_, &other.for_)
            && opt_bytes_eq(&self.host, &other.host) && opt_proto_eq(&self.proto, &other.proto)
    }
}

impl vstd::std_specs::cmp::PartialEqSpecImpl for Forward {
    open spec fn obeys_eq_spec() -> bool {
        true
    }

    open spec fn eq_spec(&self, other: &Forward) -> bool {
        self@ == other@
    }
}

impl Eq for Forward {}

impl Forward {
    /// A hop from its four fields.
    pub fn new(
        by: Option<Interface>,
        for_: Option<Interface>,
        host: Option<Vec<u8>>,
        proto: Option<Protocol>,
    ) -> (r: Self)
        ensures
            r@ == (ForwardView {
                by: opt_iface_view(by),
                for_: opt_iface_view(for_),
                host: opt_bytes_view(host),
                proto: opt_proto_view(proto),
            }),
    {
        Forward { by, for_, host, proto }
    }

    /// The forwarder (proxy server).
    pub fn by(&self) -> (r: &Option<Interface>)
        ensures
            opt_iface_view(*r) == self@.by,
    {
        &self.by
    }

    /// The request initiator.
    pub fn for_(&self) -> (r: &Option<Interface>)
        ensures
            opt_iface_view(*r) == self@.for_,
    {
        &self.for_
    }

    /// The `Host` header, as seen by the proxy.
    pub fn host(&self) -> (r: &Option<Vec<u8>>)
        ensures
            opt_bytes_view(*r) == self@.host,
    {
        &self.host
    }

    /// The protocol used during this forward.
    pub fn proto(&self) -> (r: &Option<Protocol>)
        ensures
            opt_proto_view(*r) == self@.proto,
    {
        &self.proto
    }
}

/// The decoded `Forwarded` header: one record per hop, in header order.
#[derive(Debug, PartialEq, Eq)]
pub struct Forwarded {
    forwards: Vec<Forward>,
}

impl View for Forwarded {
    type V = Seq<ForwardView>;

    closed spec fn view(&self) -> Seq<ForwardView> {
        Seq::new(self.forwards@.len(), |i: int| self.forwards@[i]@)
    }
}

impl Forwarded {
    /// A header value from its hops.
    pub fn new(forwards: Vec<Forward>) -> (r: Self)
        ensures
            r@ == Seq::new(forwards@.len(), |i: int| forwards@[i]@),
    {
        Forwarded { forwards }
    }

    /// The hops, in header order.
    pub fn forwards(&self) -> (r: &Vec<Forward>)
        ensures
            r@.len() == self@.len(),
            forall|i: int| 0 <= i < r@.len() ==> r@[i]@ == self@[i],
    {
        &self.forwards
    }
}

/// The rejection raised when a `Forwarded` header value is not valid text.
#[derive(Clone, Copy, Debug, PartialEq, Eq, Structural)]
pub struct ForwardedRejection;

/// The ASCII text `by`.
pub open spec fn by_lit() -> Seq<u8> {
    seq![98u8, 121u8]
}

/// The ASCII text `for`.
pub open spec fn for_lit() -> Seq<u8> {
    seq![102u8, 111u8, 114u8]
}

/// The ASCII text `host`.
pub open spec fn host_lit() -> Seq<u8> {
    seq![104u8, 111u8, 115u8, 116u8]
}

/// The ASCII text `proto`.
pub open spec fn proto_lit() -> Seq<u8> {
    seq![112u8, 114u8, 111u8, 116u8, 111u8]
}

/// The record with no fields set.
pub open spec fn empty_record() -> ForwardView {
    ForwardView { by: None, for_: None, host: None, proto: None }
}

/// One `key=value` assignment applied to a record: the keys `by`, `for`,
/// `host` and `proto` are matched case-insensitively, any other key changes
/// nothing, and a later assignment overwrites an earlier one.
pub open spec fn apply_kv(r: ForwardView, key: Seq<u8>, value: Seq<u8>) -> ForwardView {
    if eq_ignore_case_spec(key, by_lit()) {
        ForwardView { by: Some(interface_of_text(value)), ..r }
    } else if eq_ignore_case_spec(key, for_lit()) {
        ForwardView { for_: Some(interface_of_text(value)), ..r }
    } else if eq_ignore_case_spec(key, host_lit()) {
        ForwardView { host: Some(value), ..r }
    } else if eq_ignore_case_spec(key, proto_lit()) {
        ForwardView { proto: Some(protocol_of_text(value)), ..r }
    } else {
        r
    }
}

/// One semicolon-separated parameter applied to a record: the text splits
/// at the first `=` into a trimmed key and a trimmed value — the value may
/// itself contain `=` — and a parameter without `=` changes nothing.
pub open spec fn apply_param(r: ForwardView, param: Seq<u8>) -> ForwardView {
    match find_byte_from(param, 61, 0) {
        None => r,
        Some(p) => if 0 <= p <= param.len() {
            apply_kv(r, trim_spec(param.take(p)), trim_spec(param.skip(p + 1)))
        } else {
            r
        },
    }
}

/// A hop's parameters applied in order to the empty record.
pub open spec fn record_of_params(params: Seq<Seq<u8>>) -> ForwardView
    decreases params.len(),
{
    if params.len() == 0 {
        empty_record()
    } else {
        apply_param(record_of_params(params.drop_last()), params.last())
    }
}

/// The record denoted by one comma-separated hop.
pub open spec fn record_of_hop(hop: Seq<u8>) -> ForwardView {
    record_of_params(split_on(hop, 59))
}

/// The records denoted by a whole header value, one per hop, in order.
pub open spec fn forwarded_of_text(s: Seq<u8>) -> Seq<ForwardView> {
    split_on(s, 44).map_values(|h: Seq<u8>| record_of_hop(h))
}

fn apply_kv_exec(rec: Forward, key: &[u8], value: &[u8]) -> (r: Forward)
    ensures
        r@ == apply_kv(rec@, key@, value@),
{
    let by_arr: [u8; 2] = [98, 121];
    let for_arr: [u8; 3] = [102, 111, 114];
    let host_arr: [u8; 4] = [104, 111, 115, 116];
    let proto_arr: [u8; 5] = [112, 114, 111, 116, 111];
    assert(by_arr@ =~= by_lit());
    assert(for_arr@ =~= for_lit());
    assert(host_arr@ =~= host_lit());
    assert(proto_arr@ =~= proto_lit());
    let Forward { by, for_, host, proto } = rec;
    if eq_ignore_case(key, by_arr.as_slice()) {
        Forward { by: Some(Interface::parse(value)), for_, host, proto }
    } else if eq_ignore_case(key, for_arr.as_slice()) {
        Forward { by, for_: Some(Interface::parse(value)), host, proto }
    } else if eq_ignore_case(key, host_arr.as_slice()) {
        Forward { by, for_, host: Some(vstd::slice::slice_to_vec(value)), proto }
    } else if eq_ignore_case(key, proto_arr.as_slice()) {
        Forward { by, for_, host, proto: Some(Protocol::parse(value)) }
    } else {
        Forward { by, for_, host, proto }
    }
}

fn apply_param_exec(rec: Forward, param: &[u8]) -> (r: Forward)
    ensures
        r@ == apply_param(rec@, param@),
{
    match find_byte(param, 61, 0) {
        None => rec,
        Some(p) => {
            let n = param.len();
            let before = vstd::slice::slice_subrange(param, 0, p);
            let after = vstd::slice::slice_subrange(param, p + 1, n);
            assert(before@ =~= param@.take(p as int));
            assert(after@ =~= param@.skip(p + 1));
            let key = trim(before);
            let value = trim(after);
            apply_kv_exec(rec, key, value)
        },
    }
}

fn decode_hop(hop: &[u8]) -> (r: Forward)
    ensures
        r@ == record_of_hop(hop@),
{
    let params = split_bytes(hop, 59);
    let ghost sparams = split_on(hop@, 59);
    let n = params.len();
    let mut rec = Forward { by: None, for_: None, host: None, proto: None };
    assert(rec@ == empty_record());
    assert(record_of_params(sparams.take(0)) == empty_record()) by {
        assert(sparams.take(0) =~= Seq::<Seq<u8>>::empty());
    }
    let mut i: usize = 0;
    while i < n
        invariant
            0 <= i <= n == sparams.len(),
            seq_views(params@) == sparams,
            params@.len() == n,
            rec@ == record_of_params(sparams.take(i as int)),
        decreases n - i,
    {
        proof {
            assert(params@[i as int]@ == sparams[i as int]);
            assert(sparams.take(i + 1).drop_last() =~= sparams.take(i as int));
            assert(sparams.take(i + 1).last() == sparams[i as int]);
        }
        rec = apply_param_exec(rec, params[i].as_slice());
        i += 1;
    }
    assert(sparams.take(i as int) =~= sparams);
    rec
}

impl Forwarded {
    /// Decode a `Forwarded` header value.  Content never fails: every hop
    /// yields a record.  Only a value that is not well-formed UTF-8 is
    /// rejected.
    pub fn decode(s: &[u8]) -> (r: Result<Forwarded, ForwardedRejection>)
        ensures
            match r {
                Ok(f) => is_utf8(s@) && f@ == forwarded_of_text(s@),
                Err(_) => !is_utf8(s@),
            },
    {
        if !validate_utf8(s) {
            return Err(ForwardedRejection);
        }
        let hops = split_bytes(s, 44);
        let ghost shops = split_on(s@, 44);
        let n = hops.len();
        let mut forwards: Vec<Forward> = Vec::new();
        let mut i: usize = 0;
        while i < n
            invariant
                0 <= i <= n == shops.len(),
                seq_views(hops@) == shops,
                hops@.len() == n,
                forwards@.len() == i,
                forall|k: int| 0 <= k < i ==> forwards@[k]@ == record_of_hop(shops[k]),
            decreases n - i,
        {
            assert(hops@[i as int]@ == shops[i as int]);
            let rec = decode_hop(hops[i].as_slice());
            forwards.push(rec);
            i += 1;
        }
        let f = Forwarded { forwards };
        assert(f@ =~= forwarded_of_text(s@));
        Ok(f)
    }
}

} // verus!
