//! Network addresses as plain values, and their textual grammar.
//!
//! Addresses are modelled by [`IpAddress`] and [`SockAddr`], which hold the
//! octets, hextets and port directly.  The module gives the textual grammar of
//! both address families as specification functions — dotted-quad IPv4,
//! hex-group IPv6 with a single `::` compression and an optional embedded
//! dotted-quad tail, `ip:port` and `[ip]:port` socket forms — and verified
//! parsers and formatters for them.

use vstd::prelude::*;

use crate::bytes::{
    find_byte, find_byte_from, find_pair, find_pair_from, has_byte, lemma_find_byte_from,
    lemma_find_pair_from, lemma_find_some_iff_has, lemma_split_on_concat, lemma_split_on_len,
    lemma_split_on_whole, seq_views, split_bytes, split_on,
};

verus! {

/// An IP address, by family, as plain numbers.
#[derive(Clone, Copy, Debug, PartialEq, Eq, Structural)]
pub enum IpAddress {
    /// An IPv4 address as its four octets.
    V4 { a: u8, b: u8, c: u8, d: u8 },
    /// An IPv6 address as its eight 16-bit groups.
    V6 { g0: u16, g1: u16, g2: u16, g3: u16, g4: u16, g5: u16, g6: u16, g7: u16 },
}

/// An IP address together with a port.
#[derive(Clone, Copy, Debug, PartialEq, Eq, Structural)]
pub struct SockAddr {
    /// The address.
    pub ip: IpAddress,
    /// The port.
    pub port: u16,
}

impl IpAddress {
    /// An IPv4 address from its octets.
    pub fn v4(a: u8, b: u8, c: u8, d: u8) -> (r: Self)
        ensures
            r == (IpAddress::V4 { a, b, c, d }),
    {
        IpAddress::V4 { a, b, c, d }
    }

    /// An IPv6 address from its groups.
    pub fn v6(g0: u16, g1: u16, g2: u16, g3: u16, g4: u16, g5: u16, g6: u16, g7: u16) -> (r:
        Self)
        ensures
            r == (IpAddress::V6 { g0, g1, g2, g3, g4, g5, g6, g7 }),
    {
        IpAddress::V6 { g0, g1, g2, g3, g4, g5, g6, g7 }
    }
}

impl SockAddr {
    /// A socket address from its parts.
    pub fn new(ip: IpAddress, port: u16) -> (r: Self)
        ensures
            r == (SockAddr { ip, port }),
    {
        SockAddr { ip, port }
    }
}

/// The all-zero IPv4 socket address, reported when no address was disclosed.
pub open spec fn unspecified_sockaddr() -> SockAddr {
    SockAddr { ip: IpAddress::V4 { a: 0, b: 0, c: 0, d: 0 }, port: 0 }
}

/// The all-zero IPv4 socket address.
pub fn unspecified() -> (r: SockAddr)
    ensures
        r == unspecified_sockaddr(),
{
    SockAddr { ip: IpAddress::V4 { a: 0, b: 0, c: 0, d: 0 }, port: 0 }
}

/// Whether a byte is an ASCII decimal digit.
pub open spec fn is_digit(b: u8) -> bool {
    48 <= b && b <= 57
}

/// The value of a decimal digit byte.
pub open spec fn digit_val(b: u8) -> int {
    b - 48
}

/// Whether every byte of `s` is a decimal digit.
pub open spec fn all_digits(s: Seq<u8>) -> bool {
    forall|i: int| 0 <= i < s.len() ==> is_digit(s[i])
}

/// The number denoted by a string of decimal digits.
pub open spec fn dec_value(s: Seq<u8>) -> int
    decreases s.len(),
{
    if s.len() == 0 {
        0
    } else {
        dec_value(s.drop_last()) * 10 + digit_val(s.last())
    }
}

/// A digit string denotes a non-negative number.
pub proof fn lemma_dec_value_nonneg(s: Seq<u8>)
    requires
        all_digits(s),
    ensures
        dec_value(s) >= 0,
    decreases s.len(),
{
    if s.len() > 0 {
        assert(all_digits(s.drop_last()));
        lemma_dec_value_nonneg(s.drop_last());
    }
}

/// Extending a digit string to the right never shrinks its value.
pub proof fn lemma_dec_value_prefix(s: Seq<u8>, i: int)
    requires
        all_digits(s),
        0 <= i <= s.len(),
    ensures
        dec_value(s.take(i)) <= dec_value(s),
    decreases s.len() - i,
{
    if i < s.len() {
        assert(all_digits(s.take(i)));
        lemma_dec_value_nonneg(s.take(i));
        assert(s.take(i + 1).drop_last() =~= s.take(i));
        assert(s.take(i + 1).last() == s[i]);
        lemma_dec_value_prefix(s, i + 1);
    } else {
        assert(s.take(i) =~= s);
    }
}

/// A non-empty all-digit token whose value is at most `max`.
pub open spec fn parse_dec_spec(s: Seq<u8>, max: int) -> Option<int> {
    if s.len() >= 1 && all_digits(s) && dec_value(s) <= max {
        Some(dec_value(s))
    } else {
        None
    }
}

/// Parse a bounded decimal number.
pub fn parse_dec(s: &[u8], max: u32) -> (r: Option<u32>)
    ensures
        match r {
            Some(v) => parse_dec_spec(s@, max as int) == Some(v as int),
            None => parse_dec_spec(s@, max as int) is None,
        },
{
    if s.len() == 0 {
        return None;
    }
    let mut acc: u64 = 0;
    let mut i: usize = 0;
    while i < s.len()
        invariant
            0 <= i <= s@.len(),
            all_digits(s@.take(i as int)),
            acc == dec_value(s@.take(i as int)),
            acc <= max,
        decreases s@.len() - i,
    {
        let b = s[i];
        if !(48 <= b && b <= 57) {
            assert(!is_digit(s@[i as int]));
            return None;
        }
        proof {
            assert(s@.take(i + 1).drop_last() =~= s@.take(i as int));
            assert(s@.take(i + 1).last() == s@[i as int]);
        }
        acc = acc * 10 + ((b - 48) as u64);
        if acc > max as u64 {
            proof {
                if all_digits(s@) {
                    lemma_dec_value_prefix(s@, i + 1);
                }
            }
            return None;
        }
        i += 1;
    }
    assert(s@.take(i as int) =~= s@);
    Some(acc as u32)
}

/// A valid dotted-quad component: decimal, at most 255, no leading zero.
pub open spec fn is_octet_text(s: Seq<u8>) -> bool {
    1 <= s.len() && all_digits(s) && dec_value(s) <= 255 && (s[0] == 48 ==> s.len() == 1)
}

/// The octet denoted by a dotted-quad component.
pub open spec fn octet_val(s: Seq<u8>) -> u8 {
    dec_value(s) as u8
}

/// Parse one dotted-quad component.
fn parse_octet(s: &[u8]) -> (r: Option<u8>)
    ensures
        match r {
            Some(v) => is_octet_text(s@) && v == octet_val(s@),
            None => !is_octet_text(s@),
        },
{
    if s.len() > 1 && s[0] == 48 {
        return None;
    }
    match parse_dec(s, 255) {
        Some(v) => {
            proof {
                lemma_dec_value_nonneg(s@);
            }
            Some(v as u8)
        },
        None => None,
    }
}

/// The dotted-quad IPv4 grammar: four octet components joined by `.`.
pub open spec fn parse_ipv4_spec(s: Seq<u8>) -> Option<IpAddress> {
    let parts = split_on(s, 46);
    if parts.len() == 4 && is_octet_text(parts[0]) && is_octet_text(parts[1]) && is_octet_text(
        parts[2],
    ) && is_octet_text(parts[3]) {
        Some(
            IpAddress::V4 {
                a: octet_val(parts[0]),
                b: octet_val(parts[1]),
                c: octet_val(parts[2]),
                d: octet_val(parts[3]),
            },
        )
    } else {
        None
    }
}

/// Parse a dotted-quad IPv4 address.
pub fn parse_ipv4(s: &[u8]) -> (r: Option<IpAddress>)
    ensures
        r == parse_ipv4_spec(s@),
{
    let parts = split_bytes(s, 46);
    assert(parts@.len() == split_on(s@, 46).len());
    if parts.len() != 4 {
        return None;
    }
    assert(forall|k: int| 0 <= k < 4 ==> parts@[k]@ == split_on(s@, 46)[k]);
    let a = match parse_octet(parts[0].as_slice()) {
        Some(v) => v,
        None => {
            return None;
        },
    };
    let b = match parse_octet(parts[1].as_slice()) {
        Some(v) => v,
        None => {
            return None;
        },
    };
    let c = match parse_octet(parts[2].as_slice()) {
        Some(v) => v,
        None => {
            return None;
        },
    };
    let d = match parse_octet(parts[3].as_slice()) {
        Some(v) => v,
        None => {
            return None;
        },
    };
    Some(IpAddress::V4 { a, b, c, d })
}

/// The port grammar: decimal digits denoting at most 65535.
pub open spec fn parse_port_spec(s: Seq<u8>) -> Option<u16> {
    match parse_dec_spec(s, 65535) {
        Some(v) => Some(v as u16),
        None => None,
    }
}

/// Parse a port.
pub fn parse_port(s: &[u8]) -> (r: Option<u16>)
    ensures
        r == parse_port_spec(s@),
{
    match parse_dec(s, 65535) {
        Some(v) => {
            proof {
                lemma_dec_value_nonneg(s@);
            }
            Some(v as u16)
        },
        None => None,
    }
}

/// Whether a byte is an ASCII hexadecimal digit.
pub open spec fn is_hex_digit(b: u8) -> bool {
    is_digit(b) || (97 <= b && b <= 102) || (65 <= b && b <= 70)
}

/// The value of a hexadecimal digit byte.
pub open spec fn hex_digit_val(b: u8) -> int {
    if is_digit(b) {
        b - 48
    } else if 97 <= b && b <= 102 {
        b - 87
    } else {
        b - 55
    }
}

/// Whether every byte of `s` is a hexadecimal digit.
pub open spec fn all_hex(s: Seq<u8>) -> bool {
    forall|i: int| 0 <= i < s.len() ==> is_hex_digit(s[i])
}

/// The number denoted by a string of hexadecimal digits.
pub open spec fn hex_value(s: Seq<u8>) -> int
    decreases s.len(),
{
    if s.len() == 0 {
        0
    } else {
        hex_value(s.drop_last()) * 16 + hex_digit_val(s.last())
    }
}

/// A valid IPv6 group: one to four hexadecimal digits.
pub open spec fn is_group_text(s: Seq<u8>) -> bool {
    1 <= s.len() <= 4 && all_hex(s)
}

/// The group denoted by a run of hexadecimal digits.
pub open spec fn group_val(s: Seq<u8>) -> u16 {
    hex_value(s) as u16
}

/// Parse one IPv6 group.
fn parse_hex_group(s: &[u8]) -> (r: Option<u16>)
    ensures
        match r {
            Some(v) => is_group_text(s@) && v == group_val(s@),
            None => !is_group_text(s@),
        },
{
    if s.len() < 1 || s.len() > 4 {
        return None;
    }
    let mut acc: u32 = 0;
    let mut i: usize = 0;
    while i < s.len()
        invariant
            0 <= i <= s@.len() <= 4,
            all_hex(s@.take(i as int)),
            acc == hex_value(s@.take(i as int)),
            i == 0 ==> acc == 0,
            i == 1 ==> acc < 16,
            i == 2 ==> acc < 256,
            i == 3 ==> acc < 4096,
            i == 4 ==> acc < 65536,
        decreases s@.len() - i,
    {
        let b = s[i];
        let v: u8 = if 48 <= b && b <= 57 {
            b - 48
        } else if 97 <= b && b <= 102 {
            b - 87
        } else if 65 <= b && b <= 70 {
            b - 55
        } else {
            assert(!is_hex_digit(s@[i as int]));
            return None;
        };
        proof {
            assert(s@.take(i + 1).drop_last() =~= s@.take(i as int));
            assert(s@.take(i + 1).last() == s@[i as int]);
        }
        acc = acc * 16 + (v as u32);
        i += 1;
    }
    assert(s@.take(i as int) =~= s@);
    Some(acc as u16)
}

/// The groups contributed by one colon-separated piece of an IPv6 literal:
/// a hexadecimal group, or — in the final piece, where the grammar allows
/// it — an embedded dotted-quad contributing two groups.
pub open spec fn groups_of_part(part: Seq<u8>, last: bool, allow_v4: bool) -> Option<Seq<u16>> {
    if allow_v4 && last && has_byte(part, 46) {
        match parse_ipv4_spec(part) {
            Some(ip) => match ip {
                IpAddress::V4 { a, b, c, d } => Some(
                    seq![(a * 256 + b) as u16, (c * 256 + d) as u16],
                ),
                _ => None,
            },
            None => None,
        }
    } else if is_group_text(part) {
        Some(seq![group_val(part)])
    } else {
        None
    }
}

/// The groups contributed by a list of colon-separated pieces.
pub open spec fn groups_of_parts(parts: Seq<Seq<u8>>, allow_v4: bool) -> Option<Seq<u16>>
    decreases parts.len(),
{
    if parts.len() == 0 {
        Some(seq![])
    } else {
        match (
            groups_of_part(parts[0], parts.len() == 1, allow_v4),
            groups_of_parts(parts.drop_first(), allow_v4),
        ) {
            (Some(g), Some(rest)) => Some(g + rest),
            _ => None,
        }
    }
}

/// The groups denoted by a `::`-free region of an IPv6 literal; the empty
/// region denotes no groups.
pub open spec fn parse_group_list(s: Seq<u8>, allow_v4: bool) -> Option<Seq<u16>> {
    if s.len() == 0 {
        Some(seq![])
    } else {
        groups_of_parts(split_on(s, 58), allow_v4)
    }
}

/// Parse a `::`-free region of an IPv6 literal into its groups.
fn parse_group_vec(s: &[u8], allow_v4: bool) -> (r: Option<Vec<u16>>)
    ensures
        match r {
            Some(v) => parse_group_list(s@, allow_v4) == Some(v@),
            None => parse_group_list(s@, allow_v4) is None,
        },
{
    if s.len() == 0 {
        let v: Vec<u16> = Vec::new();
        assert(v@ =~= Seq::<u16>::empty());
        return Some(v);
    }
    let parts = split_bytes(s, 58);
    let ghost sparts = split_on(s@, 58);
    proof {
        lemma_split_on_len(s@, 58);
    }
    let n = parts.len();
    let mut acc: Vec<u16> = Vec::new();
    let mut i: usize = 0;
    proof {
        assert(sparts.skip(0) =~= sparts);
        match groups_of_parts(sparts, allow_v4) {
            Some(rest) => {
                assert(Seq::<u16>::empty() + rest =~= rest);
            },
            None => {},
        }
    }
    while i < n
        invariant
            0 <= i <= n == sparts.len(),
            s@.len() > 0,
            sparts == split_on(s@, 58),
            seq_views(parts@) == sparts,
            parts@.len() == n,
            match groups_of_parts(sparts.skip(i as int), allow_v4) {
                Some(rest) => groups_of_parts(sparts, allow_v4) == Some(acc@ + rest),
                None => groups_of_parts(sparts, allow_v4) is None,
            },
        decreases n - i,
    {
        let is_last = i == n - 1;
        proof {
            assert(sparts.skip(i as int).len() == n - i);
            assert(sparts.skip(i as int)[0] == sparts[i as int]);
            assert(sparts.skip(i as int).drop_first() =~= sparts.skip(i + 1));
            assert(parts@[i as int]@ == sparts[i as int]);
        }
        let part = &parts[i];
        let ghost spart = sparts[i as int];
        let ghost acc0 = acc@;
        let dot = find_byte(part.as_slice(), 46, 0);
        proof {
            lemma_find_some_iff_has(part@, 46);
        }
        let embedded = allow_v4 && is_last && dot.is_some();
        assert(embedded == (allow_v4 && is_last && has_byte(spart, 46)));
        let ghost gopt = groups_of_part(spart, is_last, allow_v4);
        if embedded {
            match parse_ipv4(part.as_slice()) {
                Some(ip) => match ip {
                    IpAddress::V4 { a, b, c, d } => {
                        acc.push((a as u16) * 256 + (b as u16));
                        acc.push((c as u16) * 256 + (d as u16));
                        assert(gopt == Some(
                            seq![(a * 256 + b) as u16, (c * 256 + d) as u16],
                        ));
                        assert(acc@ =~= acc0 + gopt->Some_0);
                    },
                    _ => {
                        assert(gopt is None);
                        assert(groups_of_parts(sparts.skip(i as int), allow_v4) is None);
                        return None;
                    },
                },
                None => {
                    assert(gopt is None);
                    assert(groups_of_parts(sparts.skip(i as int), allow_v4) is None);
                    return None;
                },
            }
        } else {
            match parse_hex_group(part.as_slice()) {
                Some(g) => {
                    acc.push(g);
                    assert(gopt == Some(seq![g]));
                    assert(acc@ =~= acc0 + gopt->Some_0);
                },
                None => {
                    assert(gopt is None);
                    assert(groups_of_parts(sparts.skip(i as int), allow_v4) is None);
                    return None;
                },
            }
        }
        proof {
            let gv = gopt->Some_0;
            match groups_of_parts(sparts.skip(i + 1), allow_v4) {
                Some(rest) => {
                    assert(groups_of_parts(sparts.skip(i as int), allow_v4) == Some(gv + rest));
                    assert(acc0 + (gv + rest) =~= acc@ + rest);
                },
                None => {
                    assert(groups_of_parts(sparts.skip(i as int), allow_v4) is None);
                },
            }
        }
        i += 1;
    }
    proof {
        assert(sparts.skip(i as int) =~= Seq::<Seq<u8>>::empty());
        assert(groups_of_parts(sparts.skip(i as int), allow_v4) == Some(Seq::<u16>::empty()));
        assert(acc@ + Seq::<u16>::empty() =~= acc@);
    }
    Some(acc)
}

/// `n` zero groups.
pub open spec fn zero_groups(n: int) -> Seq<u16> {
    Seq::new(n as nat, |i: int| 0u16)
}

/// The address assembled from eight groups.
pub open spec fn ip6_of_groups(g: Seq<u16>) -> IpAddress {
    IpAddress::V6 {
        g0: g[0],
        g1: g[1],
        g2: g[2],
        g3: g[3],
        g4: g[4],
        g5: g[5],
        g6: g[6],
        g7: g[7],
    }
}

/// The IPv6 literal grammar: eight groups, or two group lists around a
/// single `::` standing for at least one zero group, the final group
/// optionally an embedded dotted-quad.
pub open spec fn parse_ipv6_spec(s: Seq<u8>) -> Option<IpAddress> {
    match find_pair_from(s, 58, 58, 0) {
        None => match parse_group_list(s, true) {
            Some(g) => if g.len() == 8 {
                Some(ip6_of_groups(g))
            } else {
                None
            },
            None => None,
        },
        Some(i) => if 0 <= i && i + 2 <= s.len() {
            match (parse_group_list(s.take(i), false), parse_group_list(s.skip(i + 2), true)) {
                (Some(h), Some(t)) => if h.len() + t.len() <= 7 {
                    Some(ip6_of_groups(h + zero_groups(8 - h.len() - t.len()) + t))
                } else {
                    None
                },
                _ => None,
            }
        } else {
            None
        },
    }
}

/// Parse an IPv6 literal.
pub fn parse_ipv6(s: &[u8]) -> (r: Option<IpAddress>)
    ensures
        r == parse_ipv6_spec(s@),
{
    let n = s.len();
    match find_pair(s, 58, 58, 0) {
        None => {
            match parse_group_vec(s, true) {
                Some(g) => {
                    if g.len() == 8 {
                        Some(
                            IpAddress::V6 {
                                g0: g[0],
                                g1: g[1],
                                g2: g[2],
                                g3: g[3],
                                g4: g[4],
                                g5: g[5],
                                g6: g[6],
                                g7: g[7],
                            },
                        )
                    } else {
                        None
                    }
                },
                None => None,
            }
        },
        Some(i) => {
            let head = vstd::slice::slice_subrange(s, 0, i);
            let tail = vstd::slice::slice_subrange(s, i + 2, n);
            assert(head@ =~= s@.take(i as int));
            assert(tail@ =~= s@.skip(i + 2));
            let hg = match parse_group_vec(head, false) {
                Some(h) => h,
                None => {
                    return None;
                },
            };
            let tg = match parse_group_vec(tail, true) {
                Some(t) => t,
                None => {
                    return None;
                },
            };
            if hg.len() > 7 || tg.len() > 7 - hg.len() {
                return None;
            }
            let fill = 8 - hg.len() - tg.len();
            let mut g: Vec<u16> = hg;
            let ghost h0 = g@;
            let mut k: usize = 0;
            while k < fill
                invariant
                    0 <= k <= fill,
                    g@ =~= h0 + zero_groups(k as int),
                decreases fill - k,
            {
                g.push(0);
                assert(g@ =~= h0 + zero_groups(k + 1));
                k += 1;
            }
            let mut j: usize = 0;
            let ghost hz = g@;
            while j < tg.len()
                invariant
                    0 <= j <= tg@.len(),
                    g@ =~= hz + tg@.take(j as int),
                decreases tg@.len() - j,
            {
                let x = tg[j];
                g.push(x);
                assert(g@ =~= hz + tg@.take(j + 1));
                j += 1;
            }
            assert(g@ =~= h0 + zero_groups(fill as int) + tg@);
            assert(g@.len() == 8);
            Some(
                IpAddress::V6 {
                    g0: g[0],
                    g1: g[1],
                    g2: g[2],
                    g3: g[3],
                    g4: g[4],
                    g5: g[5],
                    g6: g[6],
                    g7: g[7],
                },
            )
        },
    }
}

/// The IP grammar: a dotted-quad, or else an IPv6 literal.
pub open spec fn parse_ip_spec(s: Seq<u8>) -> Option<IpAddress> {
    if parse_ipv4_spec(s) is Some {
        parse_ipv4_spec(s)
    } else {
        parse_ipv6_spec(s)
    }
}

/// Parse an IP address of either family.
pub fn parse_ip(s: &[u8]) -> (r: Option<IpAddress>)
    ensures
        r == parse_ip_spec(s@),
{
    match parse_ipv4(s) {
        Some(ip) => Some(ip),
        None => parse_ipv6(s),
    }
}

/// The socket-address grammar: `v4:port`, or `[v6]:port`.
pub open spec fn parse_sockaddr_spec(s: Seq<u8>) -> Option<SockAddr> {
    if s.len() > 0 && s[0] == 91 {
        match find_byte_from(s, 93, 0) {
            Some(j) => if 1 <= j && j + 2 <= s.len() && s[j + 1] == 58 {
                match (parse_ipv6_spec(s.subrange(1, j)), parse_port_spec(s.skip(j + 2))) {
                    (Some(ip), Some(port)) => Some(SockAddr { ip, port }),
                    _ => None,
                }
            } else {
                None
            },
            None => None,
        }
    } else {
        match find_byte_from(s, 58, 0) {
            Some(p) => if 0 <= p && p < s.len() {
                match (parse_ipv4_spec(s.take(p)), parse_port_spec(s.skip(p + 1))) {
                    (Some(ip), Some(port)) => Some(SockAddr { ip, port }),
                    _ => None,
                }
            } else {
                None
            },
            None => None,
        }
    }
}

/// Parse a socket address.
pub fn parse_sockaddr(s: &[u8]) -> (r: Option<SockAddr>)
    ensures
        r == parse_sockaddr_spec(s@),
{
    let n = s.len();
    if n > 0 && s[0] == 91 {
        match find_byte(s, 93, 0) {
            Some(j) => {
                proof {
                    lemma_find_byte_from(s@, 93, 0);
                }
                assert(j >= 1);
                if j + 1 < n && s[j + 1] == 58 {
                    let inside = vstd::slice::slice_subrange(s, 1, j);
                    let after = vstd::slice::slice_subrange(s, j + 2, n);
                    assert(inside@ =~= s@.subrange(1, j as int));
                    assert(after@ =~= s@.skip(j + 2));
                    match (parse_ipv6(inside), parse_port(after)) {
                        (Some(ip), Some(port)) => Some(SockAddr { ip, port }),
                        _ => None,
                    }
                } else {
                    None
                }
            },
            None => None,
        }
    } else {
        match find_byte(s, 58, 0) {
            Some(p) => {
                let before = vstd::slice::slice_subrange(s, 0, p);
                let after = vstd::slice::slice_subrange(s, p + 1, n);
                assert(before@ =~= s@.take(p as int));
                assert(after@ =~= s@.skip(p + 1));
                match (parse_ipv4(before), parse_port(after)) {
                    (Some(ip), Some(port)) => Some(SockAddr { ip, port }),
                    _ => None,
                }
            },
            None => None,
        }
    }
}

/// Decimal text of a non-negative number, most significant digit first.
pub open spec fn dec_text(n: int) -> Seq<u8>
    decreases n,
{
    if n < 0 {
        seq![]
    } else if n < 10 {
        seq![(48 + n) as u8]
    } else {
        dec_text(n / 10) + seq![(48 + n % 10) as u8]
    }
}

/// Decimal text denotes the number it was made from, without leading zeros.
pub proof fn lemma_dec_text(n: int)
    requires
        0 <= n,
    ensures
        dec_text(n).len() >= 1,
        all_digits(dec_text(n)),
        dec_value(dec_text(n)) == n,
        n >= 1 ==> dec_text(n)[0] != 48,
        n == 0 ==> dec_text(n) == seq![48u8],
    decreases n,
{
    if n < 10 {
        let s = dec_text(n);
        assert(s == seq![(48 + n) as u8]);
        assert(s.drop_last() =~= Seq::<u8>::empty());
        assert(dec_value(Seq::<u8>::empty()) == 0);
        assert(s.last() == (48 + n) as u8);
        assert(dec_value(s) == n);
    } else {
        lemma_dec_text(n / 10);
        vstd::arithmetic::div_mod::lemma_fundamental_div_mod(n, 10);
        let t = dec_text(n / 10);
        let d = (48 + n % 10) as u8;
        let s = t + seq![d];
        assert(s.drop_last() =~= t);
        assert(s.last() == d);
        assert(dec_value(s) == dec_value(t) * 10 + digit_val(d));
        assert(digit_val(d) == n % 10);
        assert(dec_value(t) == n / 10);
        assert(dec_value(s) == n);
        assert(all_digits(s)) by {
            assert(forall|i: int| 0 <= i < t.len() ==> s[i] == t[i]);
            assert(is_digit(d));
        }
        assert(s[0] == t[0]);
    }
}

/// A lowercase hexadecimal digit byte.
pub open spec fn hex_digit_text(d: int) -> u8 {
    if d < 10 {
        (48 + d) as u8
    } else {
        (87 + d) as u8
    }
}

/// Lowercase hexadecimal text of a non-negative number.
pub open spec fn hex_text(n: int) -> Seq<u8>
    decreases n,
{
    if n < 0 {
        seq![]
    } else if n < 16 {
        seq![hex_digit_text(n)]
    } else {
        hex_text(n / 16) + seq![hex_digit_text(n % 16)]
    }
}

/// Hexadecimal text denotes the number it was made from, in at most four
/// digits for a 16-bit value.
pub proof fn lemma_hex_text(n: int)
    requires
        0 <= n <= 65535,
    ensures
        hex_text(n).len() >= 1,
        all_hex(hex_text(n)),
        hex_value(hex_text(n)) == n,
        n < 16 ==> hex_text(n).len() == 1,
        n < 256 ==> hex_text(n).len() <= 2,
        n < 4096 ==> hex_text(n).len() <= 3,
        hex_text(n).len() <= 4,
    decreases n,
{
    if n < 16 {
        let s = hex_text(n);
        assert(s.drop_last() =~= Seq::<u8>::empty());
        assert(hex_value(Seq::<u8>::empty()) == 0);
        assert(s.last() == hex_digit_text(n));
        assert(is_hex_digit(hex_digit_text(n)));
        assert(hex_digit_val(hex_digit_text(n)) == n);
    } else {
        lemma_hex_text(n / 16);
        vstd::arithmetic::div_mod::lemma_fundamental_div_mod(n, 16);
        let t = hex_text(n / 16);
        let d = hex_digit_text(n % 16);
        let s = t + seq![d];
        assert(s.drop_last() =~= t);
        assert(s.last() == d);
        assert(is_hex_digit(d) && hex_digit_val(d) == n % 16);
        assert(hex_value(s) == hex_value(t) * 16 + hex_digit_val(d));
        assert(all_hex(s)) by {
            assert(forall|i: int| 0 <= i < t.len() ==> s[i] == t[i]);
        }
    }
}

/// The textual form of an address: a dotted quad, or eight lowercase
/// hexadecimal groups joined by `:`.
pub open spec fn ip_text(ip: IpAddress) -> Seq<u8> {
    match ip {
        IpAddress::V4 { a, b, c, d } => dec_text(a as int) + seq![46u8] + dec_text(b as int)
            + seq![46u8] + dec_text(c as int) + seq![46u8] + dec_text(d as int),
        IpAddress::V6 { g0, g1, g2, g3, g4, g5, g6, g7 } => join_hex(
            seq![g0, g1, g2, g3, g4, g5, g6, g7],
        ),
    }
}

/// The groups joined by `:`, each in lowercase hexadecimal.
pub open spec fn join_hex(gs: Seq<u16>) -> Seq<u8>
    decreases gs.len(),
{
    if gs.len() == 0 {
        seq![]
    } else if gs.len() == 1 {
        hex_text(gs[0] as int)
    } else {
        hex_text(gs[0] as int) + seq![58u8] + join_hex(gs.drop_first())
    }
}

/// The textual form of a socket address: `v4:port` or `[v6]:port`.
pub open spec fn sockaddr_text(sa: SockAddr) -> Seq<u8> {
    match sa.ip {
        IpAddress::V4 { .. } => ip_text(sa.ip) + seq![58u8] + dec_text(sa.port as int),
        IpAddress::V6 { .. } => seq![91u8] + ip_text(sa.ip) + seq![93u8, 58u8] + dec_text(
            sa.port as int,
        ),
    }
}

/// Joined hexadecimal groups parse back to the groups they were made from;
/// the text never holds two adjacent colons, starts with a hexadecimal
/// digit, and holds nothing but hexadecimal digits and colons.
pub proof fn lemma_join_hex(gs: Seq<u16>, allow_v4: bool)
    requires
        gs.len() >= 1,
    ensures
        join_hex(gs).len() >= 1,
        is_hex_digit(join_hex(gs)[0]),
        forall|j: int|
            0 <= j < join_hex(gs).len() ==> (#[trigger] join_hex(gs)[j] == 58 || is_hex_digit(
                join_hex(gs)[j],
            )),
        forall|j: int|
            0 <= j && j + 1 < join_hex(gs).len() ==> !(#[trigger] join_hex(gs)[j] == 58
                && join_hex(gs)[j + 1] == 58),
        groups_of_parts(split_on(join_hex(gs), 58), allow_v4) == Some(gs),
    decreases gs.len(),
{
    let s = join_hex(gs);
    if gs.len() == 1 {
        lemma_hex_text(gs[0] as int);
        assert(forall|i: int| 0 <= i < s.len() ==> is_hex_digit(s[i]));
        lemma_split_on_whole(s, 58);
        assert(split_on(s, 58) == seq![s]);
        assert(!has_byte(s, 46));
        assert(is_group_text(s));
        assert(group_val(s) == gs[0]);
        assert(groups_of_part(s, true, allow_v4) == Some(seq![gs[0]]));
        assert(seq![s].drop_first() =~= Seq::<Seq<u8>>::empty());
        assert(groups_of_parts(seq![s].drop_first(), allow_v4) == Some(Seq::<u16>::empty()));
        assert(seq![gs[0]] + Seq::<u16>::empty() =~= gs);
    } else {
        let h = hex_text(gs[0] as int);
        let rest = join_hex(gs.drop_first());
        lemma_hex_text(gs[0] as int);
        lemma_join_hex(gs.drop_first(), allow_v4);
        assert(s == h + seq![58u8] + rest);
        assert(forall|i: int| 0 <= i < h.len() ==> s[i] == h[i]);
        assert(s[h.len() as int] == 58);
        assert(forall|i: int| 0 <= i < rest.len() ==> s[h.len() + 1 + i] == rest[i]);
        assert(s[0] == h[0]);
        assert(forall|j: int|
            0 <= j < s.len() ==> (#[trigger] s[j] == 58 || is_hex_digit(s[j]))) by {
            assert(forall|j: int|
                h.len() + 1 <= j < s.len() ==> #[trigger] s[j] == rest[j - h.len() - 1]);
        }
        assert(forall|j: int|
            0 <= j && j + 1 < s.len() ==> !(#[trigger] s[j] == 58 && s[j + 1] == 58)) by {
            assert forall|j: int|
                0 <= j && j + 1 < s.len() && #[trigger] s[j] == 58 implies s[j + 1] != 58 by {
                if j < h.len() {
                    assert(is_hex_digit(h[j]));
                } else if j == h.len() {
                    assert(s[j + 1] == rest[0]);
                    assert(is_hex_digit(rest[0]));
                } else {
                    assert(s[j] == rest[j - h.len() - 1]);
                    assert(s[j + 1] == rest[j - h.len()]);
                }
            }
        }
        lemma_split_on_concat(h, rest, 58);
        assert(split_on(s, 58) == seq![h] + split_on(rest, 58));
        crate::bytes::lemma_split_on_len(rest, 58);
        let parts = split_on(s, 58);
        assert(parts.len() >= 2);
        assert(parts[0] == h);
        assert(parts.drop_first() =~= split_on(rest, 58));
        assert(!has_byte(h, 46));
        assert(is_group_text(h));
        assert(groups_of_part(h, false, allow_v4) == Some(seq![gs[0]]));
        assert(groups_of_parts(parts, allow_v4) == Some(seq![gs[0]] + gs.drop_first()));
        assert(seq![gs[0]] + gs.drop_first() =~= gs);
    }
}

/// A formatted IPv4 address parses back to itself.
pub proof fn lemma_ipv4_text_roundtrip(ip: IpAddress)
    requires
        ip is V4,
    ensures
        parse_ipv4_spec(ip_text(ip)) == Some(ip),
{
    let (a, b, c, d) = (ip->V4_a, ip->V4_b, ip->V4_c, ip->V4_d);
    let ta = dec_text(a as int);
    let tb = dec_text(b as int);
    let tc = dec_text(c as int);
    let td = dec_text(d as int);
    lemma_dec_text(a as int);
    lemma_dec_text(b as int);
    lemma_dec_text(c as int);
    lemma_dec_text(d as int);
    let s = ip_text(ip);
    assert(s =~= ta + seq![46u8] + (tb + seq![46u8] + (tc + seq![46u8] + td)));
    lemma_split_on_concat(ta, tb + seq![46u8] + (tc + seq![46u8] + td), 46);
    lemma_split_on_concat(tb, tc + seq![46u8] + td, 46);
    lemma_split_on_concat(tc, td, 46);
    lemma_split_on_whole(td, 46);
    let parts = split_on(s, 46);
    assert(parts =~= seq![ta, tb, tc, td]);
    assert(is_octet_text(ta) && octet_val(ta) == a);
    assert(is_octet_text(tb) && octet_val(tb) == b);
    assert(is_octet_text(tc) && octet_val(tc) == c);
    assert(is_octet_text(td) && octet_val(td) == d);
    assert(parse_ipv4_spec(s) == Some(IpAddress::V4 { a, b, c, d }));
}

/// A formatted IPv6 address parses back to itself.
pub proof fn lemma_ipv6_text_roundtrip(ip: IpAddress)
    requires
        ip is V6,
    ensures
        parse_ipv6_spec(ip_text(ip)) == Some(ip),
{
    let gs = seq![ip->V6_g0, ip->V6_g1, ip->V6_g2, ip->V6_g3, ip->V6_g4, ip->V6_g5, ip->V6_g6,
        ip->V6_g7];
    let s = ip_text(ip);
    assert(s == join_hex(gs));
    lemma_join_hex(gs, true);
    lemma_find_pair_from(s, 58, 58, 0);
    match find_pair_from(s, 58, 58, 0) {
        Some(i) => {
            assert(false);
        },
        None => {},
    }
    assert(s.len() >= 1);
    assert(parse_group_list(s, true) == Some(gs));
    assert(gs.len() == 8);
    assert(ip6_of_groups(gs) == ip);
}

/// A formatted socket address parses back to itself.
pub proof fn lemma_sockaddr_text_roundtrip(sa: SockAddr)
    ensures
        parse_sockaddr_spec(sockaddr_text(sa)) == Some(sa),
{
    let s = sockaddr_text(sa);
    let p = dec_text(sa.port as int);
    lemma_dec_text(sa.port as int);
    match sa.ip {
        IpAddress::V4 { a, b, c, d } => {
            let t = ip_text(sa.ip);
            lemma_ipv4_text_roundtrip(sa.ip);
            lemma_dec_text(a as int);
            assert(t.len() >= 1);
            assert(s == t + seq![58u8] + p);
            assert(forall|i: int| 0 <= i < t.len() ==> s[i] == t[i]);
            assert(s[0] == t[0]);
            assert(t[0] == dec_text(a as int)[0]);
            assert(is_digit(s[0]));
            assert(s[0] != 91);
            assert(forall|i: int| 0 <= i < t.len() ==> (is_digit(t[i]) || t[i] == 46)) by {
                lemma_dec_text(b as int);
                lemma_dec_text(c as int);
                lemma_dec_text(d as int);
            }
            assert(forall|i: int| 0 <= i < t.len() ==> s[i] != 58);
            assert(s[t.len() as int] == 58);
            lemma_find_byte_from(s, 58, 0);
            match find_byte_from(s, 58, 0) {
                Some(q) => {
                    assert(!(q < t.len()));
                    assert(!(q > t.len()));
                    assert(q == t.len());
                    assert(s.take(q) =~= t);
                    assert(s.skip(q + 1) =~= p);
                    assert(parse_port_spec(p) == Some(sa.port));
                    assert(parse_sockaddr_spec(s) == Some(SockAddr { ip: sa.ip, port: sa.port }));
                    assert(SockAddr { ip: sa.ip, port: sa.port } == sa);
                },
                None => {
                    assert(false);
                },
            }
        },
        IpAddress::V6 { .. } => {
            let t = ip_text(sa.ip);
            let gs = seq![sa.ip->V6_g0, sa.ip->V6_g1, sa.ip->V6_g2, sa.ip->V6_g3, sa.ip->V6_g4,
                sa.ip->V6_g5, sa.ip->V6_g6, sa.ip->V6_g7];
            lemma_ipv6_text_roundtrip(sa.ip);
            lemma_join_hex(gs, true);
            assert(t == join_hex(gs));
            assert(s == seq![91u8] + t + seq![93u8, 58u8] + p);
            assert(s[0] == 91);
            assert(forall|i: int| 0 <= i < t.len() ==> s[1 + i] == t[i]);
            assert(forall|j: int| 1 <= j < 1 + t.len() ==> #[trigger] s[j] == t[j - 1]);
            assert(forall|j: int| 1 <= j < 1 + t.len() ==> s[j] != 93);
            assert(s[1 + t.len() as int] == 93);
            assert(s[2 + t.len() as int] == 58);
            lemma_find_byte_from(s, 93, 0);
            match find_byte_from(s, 93, 0) {
                Some(j) => {
                    assert(!(j < 1 + t.len()));
                    assert(!(j > 1 + t.len()));
                    assert(j == 1 + t.len());
                    assert(s.subrange(1, j) =~= t);
                    assert(s.skip(j + 2) =~= p);
                    assert(parse_port_spec(p) == Some(sa.port));
                    assert(parse_sockaddr_spec(s) == Some(SockAddr { ip: sa.ip, port: sa.port }));
                    assert(SockAddr { ip: sa.ip, port: sa.port } == sa);
                },
                None => {
                    assert(false);
                },
            }
        },
    }
}

/// A formatted socket address is non-empty, starts with a digit or `[`,
/// and ends with a digit.
pub proof fn lemma_sockaddr_text_shape(sa: SockAddr)
    ensures
        sockaddr_text(sa).len() >= 1,
        is_digit(sockaddr_text(sa)[0]) || sockaddr_text(sa)[0] == 91,
        is_digit(sockaddr_text(sa).last()),
{
    let s = sockaddr_text(sa);
    let p = dec_text(sa.port as int);
    lemma_dec_text(sa.port as int);
    match sa.ip {
        IpAddress::V4 { a, b, c, d } => {
            lemma_dec_text(a as int);
            let t = ip_text(sa.ip);
            assert(s == t + seq![58u8] + p);
            assert(t[0] == dec_text(a as int)[0]);
            assert(s[0] == t[0]);
            assert(is_digit(dec_text(a as int)[0]));
            assert(s.last() == p.last());
            assert(is_digit(p.last()));
        },
        IpAddress::V6 { .. } => {
            let t = ip_text(sa.ip);
            assert(s == seq![91u8] + t + seq![93u8, 58u8] + p);
            assert(s[0] == 91);
            assert(s.last() == p.last());
            assert(is_digit(p.last()));
        },
    }
}

/// Appending a group extends the joined text by a colon and that group.
pub proof fn lemma_join_hex_push(gs: Seq<u16>, g: u16)
    requires
        gs.len() >= 1,
    ensures
        join_hex(gs.push(g)) == join_hex(gs) + seq![58u8] + hex_text(g as int),
    decreases gs.len(),
{
    let e = gs.push(g);
    if gs.len() == 1 {
        assert(e.drop_first() =~= seq![g]);
        assert(e[0] == gs[0]);
        assert(join_hex(seq![g]) == hex_text(g as int));
        assert(join_hex(e) =~= join_hex(gs) + seq![58u8] + hex_text(g as int));
    } else {
        lemma_join_hex_push(gs.drop_first(), g);
        assert(e.drop_first() =~= gs.drop_first().push(g));
        assert(e[0] == gs[0]);
        assert(join_hex(e) =~= join_hex(gs) + seq![58u8] + hex_text(g as int));
    }
}

fn push_dec(v: &mut Vec<u8>, n: u16)
    ensures
        final(v)@ == old(v)@ + dec_text(n as int),
    decreases n,
{
    if n < 10 {
        v.push(48 + (n as u8));
        assert(v@ =~= old(v)@ + dec_text(n as int));
    } else {
        push_dec(v, n / 10);
        v.push(48 + ((n % 10) as u8));
        assert(v@ =~= old(v)@ + dec_text(n as int));
    }
}

fn push_hex(v: &mut Vec<u8>, n: u16)
    ensures
        final(v)@ == old(v)@ + hex_text(n as int),
    decreases n,
{
    if n < 16 {
        let d: u8 = if n < 10 {
            48 + (n as u8)
        } else {
            87 + (n as u8)
        };
        v.push(d);
        assert(v@ =~= old(v)@ + hex_text(n as int));
    } else {
        push_hex(v, n / 16);
        let m = n % 16;
        let d: u8 = if m < 10 {
            48 + (m as u8)
        } else {
            87 + (m as u8)
        };
        v.push(d);
        assert(v@ =~= old(v)@ + hex_text(n as int));
    }
}

fn push_groups(v: &mut Vec<u8>, gs: &[u16])
    requires
        gs@.len() >= 1,
    ensures
        final(v)@ == old(v)@ + join_hex(gs@),
{
    let ghost base = old(v)@;
    let first = gs[0];
    push_hex(v, first);
    assert(gs@.take(1) =~= seq![gs@[0]]);
    assert(join_hex(gs@.take(1)) == hex_text(gs@[0] as int));
    let mut i: usize = 1;
    while i < gs.len()
        invariant
            1 <= i <= gs@.len(),
            v@ == base + join_hex(gs@.take(i as int)),
        decreases gs@.len() - i,
    {
        v.push(58);
        let g = gs[i];
        push_hex(v, g);
        proof {
            lemma_join_hex_push(gs@.take(i as int), gs@[i as int]);
            assert(gs@.take(i as int).push(gs@[i as int]) =~= gs@.take(i + 1));
            assert(v@ =~= base + join_hex(gs@.take(i + 1)));
        }
        i += 1;
    }
    assert(gs@.take(i as int) =~= gs@);
}

impl SockAddr {
    /// The textual form of this socket address, `v4:port` or `[v6]:port`.
    pub fn to_text(&self) -> (r: Vec<u8>)
        ensures
            r@ == sockaddr_text(*self),
    {
        let mut v: Vec<u8> = Vec::new();
        match self.ip {
            IpAddress::V4 { a, b, c, d } => {
                push_dec(&mut v, a as u16);
                v.push(46);
                push_dec(&mut v, b as u16);
                v.push(46);
                push_dec(&mut v, c as u16);
                v.push(46);
                push_dec(&mut v, d as u16);
                assert(v@ =~= ip_text(self.ip));
                v.push(58);
                push_dec(&mut v, self.port);
                assert(v@ =~= sockaddr_text(*self));
            },
            IpAddress::V6 { g0, g1, g2, g3, g4, g5, g6, g7 } => {
                v.push(91);
                let mut gv: Vec<u16> = Vec::new();
                gv.push(g0);
                gv.push(g1);
                gv.push(g2);
                gv.push(g3);
                gv.push(g4);
                gv.push(g5);
                gv.push(g6);
                gv.push(g7);
                assert(gv@ =~= seq![g0, g1, g2, g3, g4, g5, g6, g7]);
                push_groups(&mut v, gv.as_slice());
                assert(v@ =~= seq![91u8] + ip_text(self.ip));
                v.push(93);
                v.push(58);
                push_dec(&mut v, self.port);
                assert(v@ =~= sockaddr_text(*self));
            },
        }
        v
    }
}

} // verus!
