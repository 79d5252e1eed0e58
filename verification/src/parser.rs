//! A parser for the PROXY protocol wire preamble, versions 1 and 2.
//!
//! [`parse`] inspects the first bytes of a TCP stream.  A buffer that starts
//! with neither magic sequence is not an error: the connection simply is not
//! proxy-wrapped, and the caller keeps the transport address.  The whole
//! behaviour of the parser is stated by [`wire_parse_spec`].

use vstd::prelude::*;

use crate::bytes::{
    bytes_eq, find_pair, find_pair_from, lemma_find_pair_from, lemma_split_on_len, seq_views,
    split_bytes, split_on, starts_with_spec,
};
use crate::net::{
    parse_ip, parse_ip_spec, parse_port, parse_port_spec, IpAddress, SockAddr,
};

verus! {

/// Why decoding a present preamble stopped.
#[derive(Clone, Copy, Debug, PartialEq, Eq, Structural)]
pub enum Error {
    /// The buffer ends before the preamble does.
    ShortHeader,
    /// A field of the preamble does not parse.
    InvalidFormat,
    /// The version nibble is not a supported version.
    UnsupportedVersion(u8),
    /// The command nibble is not a recognised command.
    UnsupportedCommand(u8),
    /// The family nibble is not a supported address family.
    UnsupportedFamily(u8),
    /// The protocol nibble is not a recognised socket kind.
    UnsupportedProtocol(u8),
}

/// Where the resolved address of the connection comes from.
#[derive(Clone, Copy, Debug, PartialEq, Eq, Structural)]
pub enum Where {
    /// The preamble disclosed both endpoints.
    Header {
        /// The original client.
        source: SockAddr,
        /// The endpoint the client connected to.
        destination: SockAddr,
    },
    /// No address was disclosed; report the transport's own peer address.
    Underlying,
}

/// How many bytes the preamble occupies, and what it said.
#[derive(Clone, Copy, Debug, PartialEq, Eq, Structural)]
pub struct ParseResult(pub usize, pub Where);

/// The protocol version announced by the magic bytes.
#[derive(Clone, Copy, Debug, PartialEq, Eq, Structural)]
pub enum Version {
    /// The ASCII `PROXY ` form.
    V1,
    /// The binary form.
    V2,
    /// Any other version nibble in a v2 header.
    Other(u8),
}

/// The command nibble of a v2 header.
#[derive(Clone, Copy, Debug, PartialEq, Eq, Structural)]
pub enum Command {
    /// Health-check traffic from the proxy itself.
    Local,
    /// Proxied traffic.
    Proxy,
    /// Any other command nibble.
    Other(u8),
}

/// The address-family nibble of a v2 header.
#[derive(Clone, Copy, Debug, PartialEq, Eq, Structural)]
pub enum Family {
    /// No address disclosed.
    Unspecified,
    /// IPv4.
    Inet,
    /// IPv6.
    Inet6,
    /// Unix-domain sockets, which this parser does not support.
    Unix,
    /// Any other family nibble.
    Other(u8),
}

/// The socket-kind nibble of a v2 header.
#[derive(Clone, Copy, Debug, PartialEq, Eq, Structural)]
pub enum Protocol {
    /// No socket kind disclosed.
    Unspecified,
    /// A stream socket.
    Stream,
    /// A datagram socket.
    Datagram,
    /// Any other socket-kind nibble.
    Other(u8),
}

/// The ASCII magic `PROXY ` that opens a v1 preamble.
pub open spec fn v1_magic() -> Seq<u8> {
    seq![80u8, 82u8, 79u8, 88u8, 89u8, 32u8]
}

/// The twelve binary magic bytes that open a v2 preamble.
pub open spec fn v2_magic() -> Seq<u8> {
    seq![13u8, 10u8, 13u8, 10u8, 0u8, 13u8, 10u8, 81u8, 85u8, 73u8, 84u8, 10u8]
}

/// The ASCII text `UNKNOWN`.
pub open spec fn unknown_text() -> Seq<u8> {
    seq![85u8, 78u8, 75u8, 78u8, 79u8, 87u8, 78u8]
}

/// The version named by the high nibble of byte 12.
pub open spec fn version_of(b: u8) -> Version {
    if b / 16 == 1 {
        Version::V1
    } else if b / 16 == 2 {
        Version::V2
    } else {
        Version::Other((b / 16) as u8)
    }
}

/// The command named by the low nibble of byte 12.
pub open spec fn command_of(b: u8) -> Command {
    if b % 16 == 0 {
        Command::Local
    } else if b % 16 == 1 {
        Command::Proxy
    } else {
        Command::Other((b % 16) as u8)
    }
}

/// The family named by the high nibble of byte 13.
pub open spec fn family_of(b: u8) -> Family {
    if b / 16 == 0 {
        Family::Unspecified
    } else if b / 16 == 1 {
        Family::Inet
    } else if b / 16 == 2 {
        Family::Inet6
    } else if b / 16 == 3 {
        Family::Unix
    } else {
        Family::Other((b / 16) as u8)
    }
}

/// The socket kind named by the low nibble of byte 13.
pub open spec fn protocol_of(b: u8) -> Protocol {
    if b % 16 == 0 {
        Protocol::Unspecified
    } else if b % 16 == 1 {
        Protocol::Stream
    } else if b % 16 == 2 {
        Protocol::Datagram
    } else {
        Protocol::Other((b % 16) as u8)
    }
}

/// Split a v2 version/command byte into its two nibbles.
pub fn version_command_from_u8(value: u8) -> (r: (Version, Command))
    ensures
        r == (version_of(value), command_of(value)),
{
    let hi = value / 16;
    let lo = value % 16;
    let v = if hi == 1 {
        Version::V1
    } else if hi == 2 {
        Version::V2
    } else {
        Version::Other(hi)
    };
    let c = if lo == 0 {
        Command::Local
    } else if lo == 1 {
        Command::Proxy
    } else {
        Command::Other(lo)
    };
    (v, c)
}

/// Split a v2 family/protocol byte into its two nibbles.
pub fn family_protocol_from_u8(value: u8) -> (r: (Family, Protocol))
    ensures
        r == (family_of(value), protocol_of(value)),
{
    let hi = value / 16;
    let lo = value % 16;
    let f = if hi == 0 {
        Family::Unspecified
    } else if hi == 1 {
        Family::Inet
    } else if hi == 2 {
        Family::Inet6
    } else if hi == 3 {
        Family::Unix
    } else {
        Family::Other(hi)
    };
    let p = if lo == 0 {
        Protocol::Unspecified
    } else if lo == 1 {
        Protocol::Stream
    } else if lo == 2 {
        Protocol::Datagram
    } else {
        Protocol::Other(lo)
    };
    (f, p)
}

/// Which version's magic, if either, opens the buffer.
pub open spec fn sniff_spec(s: Seq<u8>) -> Option<Version> {
    if starts_with_spec(s, v1_magic()) {
        Some(Version::V1)
    } else if starts_with_spec(s, v2_magic()) {
        Some(Version::V2)
    } else {
        None
    }
}

/// Recognise a PROXY preamble by its magic bytes.
pub fn is_proxy_protocol(buf: &[u8]) -> (r: Option<Version>)
    ensures
        r == sniff_spec(buf@),
{
    if buf.len() >= 6 && buf[0] == 80 && buf[1] == 82 && buf[2] == 79 && buf[3] == 88
        && buf[4] == 89 && buf[5] == 32 {
        assert(buf@.take(6) =~= v1_magic());
        return Some(Version::V1);
    }
    assert(!starts_with_spec(buf@, v1_magic())) by {
        if starts_with_spec(buf@, v1_magic()) {
            assert(forall|k: int| 0 <= k < 6 ==> buf@[k] == buf@.take(6)[k]);
        }
    }
    if buf.len() >= 12 && buf[0] == 13 && buf[1] == 10 && buf[2] == 13 && buf[3] == 10
        && buf[4] == 0 && buf[5] == 13 && buf[6] == 10 && buf[7] == 81 && buf[8] == 85
        && buf[9] == 73 && buf[10] == 84 && buf[11] == 10 {
        assert(buf@.take(12) =~= v2_magic());
        return Some(Version::V2);
    }
    assert(!starts_with_spec(buf@, v2_magic())) by {
        if starts_with_spec(buf@, v2_magic()) {
            assert(forall|k: int| 0 <= k < 12 ==> buf@[k] == buf@.take(12)[k]);
        }
    }
    None
}

/// What a v1 preamble says: fields between the magic and the first `\r\n`,
/// either the literal `UNKNOWN` or source address, destination address,
/// source port and destination port; the bytes through the delimiter are
/// consumed either way.  Once the delimiter is present the line is
/// complete, so a missing or unparsable field is a format error, not a
/// short header.
pub open spec fn v1_parse_spec(s: Seq<u8>) -> Result<ParseResult, Error> {
    match find_pair_from(s, 13, 10, 0) {
        None => Err(Error::ShortHeader),
        Some(e) => if 6 <= e && e + 2 <= s.len() {
            let fields = split_on(s.subrange(6, e), 32);
            if fields[0] == unknown_text() {
                Ok(ParseResult((e + 2) as usize, Where::Underlying))
            } else if fields.len() < 5 {
                Err(Error::InvalidFormat)
            } else if parse_ip_spec(fields[1]) is None {
                Err(Error::InvalidFormat)
            } else if parse_ip_spec(fields[2]) is None {
                Err(Error::InvalidFormat)
            } else if parse_port_spec(fields[3]) is None {
                Err(Error::InvalidFormat)
            } else if parse_port_spec(fields[4]) is None {
                Err(Error::InvalidFormat)
            } else {
                Ok(
                    ParseResult(
                        (e + 2) as usize,
                        Where::Header {
                            source: SockAddr {
                                ip: parse_ip_spec(fields[1])->Some_0,
                                port: parse_port_spec(fields[3])->Some_0,
                            },
                            destination: SockAddr {
                                ip: parse_ip_spec(fields[2])->Some_0,
                                port: parse_port_spec(fields[4])->Some_0,
                            },
                        },
                    ),
                )
            }
        } else {
            Err(Error::ShortHeader)
        },
    }
}

/// Compare a field against the literal `UNKNOWN`.
fn is_unknown_field(f: &[u8]) -> (r: bool)
    ensures
        r == (f@ == unknown_text()),
{
    if f.len() != 7 {
        return false;
    }
    if f[0] == 85 && f[1] == 78 && f[2] == 75 && f[3] == 78 && f[4] == 79 && f[5] == 87
        && f[6] == 78 {
        assert(f@ =~= unknown_text());
        true
    } else {
        assert(f@ != unknown_text());
        false
    }
}

/// Parse a v1 preamble.
fn parse_v1(buf: &[u8]) -> (r: Result<ParseResult, Error>)
    requires
        starts_with_spec(buf@, v1_magic()),
    ensures
        r == v1_parse_spec(buf@),
        match r {
            Ok(p) => p.0 <= buf@.len(),
            Err(_) => true,
        },
{
    let n = buf.len();
    match find_pair(buf, 13, 10, 0) {
        None => Err(Error::ShortHeader),
        Some(e) => {
            proof {
                lemma_find_pair_from(buf@, 13, 10, 0);
                assert(forall|k: int| 0 <= k < 6 ==> buf@[k] == buf@.take(6)[k]);
                assert(buf@[e as int] == 13);
                assert(e >= 6);
            }
            let contents = vstd::slice::slice_subrange(buf, 6, e);
            assert(contents@ =~= buf@.subrange(6, e as int));
            let fields = split_bytes(contents, 32);
            let ghost sfields = split_on(buf@.subrange(6, e as int), 32);
            proof {
                lemma_split_on_len(contents@, 32);
                assert(forall|k: int|
                    0 <= k < sfields.len() ==> #[trigger] fields@[k]@ == sfields[k]);
            }
            let end = e + 2;
            if is_unknown_field(fields[0].as_slice()) {
                return Ok(ParseResult(end, Where::Underlying));
            }
            if fields.len() < 5 {
                return Err(Error::InvalidFormat);
            }
            let src_ip = match parse_ip(fields[1].as_slice()) {
                Some(ip) => ip,
                None => {
                    return Err(Error::InvalidFormat);
                },
            };
            let dst_ip = match parse_ip(fields[2].as_slice()) {
                Some(ip) => ip,
                None => {
                    return Err(Error::InvalidFormat);
                },
            };
            let src_port = match parse_port(fields[3].as_slice()) {
                Some(p) => p,
                None => {
                    return Err(Error::InvalidFormat);
                },
            };
            let dst_port = match parse_port(fields[4].as_slice()) {
                Some(p) => p,
                None => {
                    return Err(Error::InvalidFormat);
                },
            };
            Ok(
                ParseResult(
                    end,
                    Where::Header {
                        source: SockAddr { ip: src_ip, port: src_port },
                        destination: SockAddr { ip: dst_ip, port: dst_port },
                    },
                ),
            )
        },
    }
}

/// What the IPv4 address block of a v2 preamble says: four source octets,
/// four destination octets, then two big-endian ports, all from offset 16.
/// The twelve-byte block must fit within the declared length, else the
/// header is short: bytes past the declared end belong to the payload and
/// are never read as addresses.
pub open spec fn v2_inet_spec(s: Seq<u8>, length: int, end: usize) -> Result<ParseResult, Error> {
    if length < 12 {
        Err(Error::ShortHeader)
    } else {
        Ok(
            ParseResult(
                end,
                Where::Header {
                    source: SockAddr {
                        ip: IpAddress::V4 { a: s[16], b: s[17], c: s[18], d: s[19] },
                        port: (s[24] * 256 + s[25]) as u16,
                    },
                    destination: SockAddr {
                        ip: IpAddress::V4 { a: s[20], b: s[21], c: s[22], d: s[23] },
                        port: (s[26] * 256 + s[27]) as u16,
                    },
                },
            ),
        )
    }
}

/// The group at byte offset `o`, big-endian.
pub open spec fn be_group(s: Seq<u8>, o: int) -> u16 {
    (s[o] * 256 + s[o + 1]) as u16
}

/// What the IPv6 address block of a v2 preamble says: sixteen source bytes,
/// sixteen destination bytes, then two big-endian ports, all from offset 16.
/// The thirty-six-byte block must fit within the declared length, else the
/// header is short: bytes past the declared end belong to the payload and
/// are never read as addresses.
pub open spec fn v2_inet6_spec(s: Seq<u8>, length: int, end: usize) -> Result<ParseResult, Error> {
    if length < 36 {
        Err(Error::ShortHeader)
    } else {
        Ok(
            ParseResult(
                end,
                Where::Header {
                    source: SockAddr {
                        ip: IpAddress::V6 {
                            g0: be_group(s, 16),
                            g1: be_group(s, 18),
                            g2: be_group(s, 20),
                            g3: be_group(s, 22),
                            g4: be_group(s, 24),
                            g5: be_group(s, 26),
                            g6: be_group(s, 28),
                            g7: be_group(s, 30),
                        },
                        port: be_group(s, 48),
                    },
                    destination: SockAddr {
                        ip: IpAddress::V6 {
                            g0: be_group(s, 32),
                            g1: be_group(s, 34),
                            g2: be_group(s, 36),
                            g3: be_group(s, 38),
                            g4: be_group(s, 40),
                            g5: be_group(s, 42),
                            g6: be_group(s, 44),
                            g7: be_group(s, 46),
                        },
                        port: be_group(s, 50),
                    },
                },
            ),
        )
    }
}

/// What a v2 preamble says: fixed-offset version/command and family/protocol
/// nibbles, a declared length at bytes 14–15, and an address block sized by
/// the family; the declared length is consumed whole, trailing extension
/// bytes included.  A buffer that ends anywhere before the declared end —
/// even before the length field itself — is a short header.
pub open spec fn v2_parse_spec(s: Seq<u8>) -> Result<ParseResult, Error> {
    if s.len() < 16 {
        Err(Error::ShortHeader)
    } else {
        let length = s[14] * 256 + s[15];
        let header_end = 16 + length;
        if s.len() < header_end {
            Err(Error::ShortHeader)
        } else {
            let ver = version_of(s[12]);
            let cmd = command_of(s[12]);
            let fam = family_of(s[13]);
            let proto = protocol_of(s[13]);
            if ver is V1 {
                Err(Error::UnsupportedVersion(1))
            } else if ver is Other {
                Err(Error::UnsupportedVersion(ver->Other_0))
            } else if cmd is Other {
                Err(Error::UnsupportedCommand(cmd->Other_0))
            } else if fam is Other {
                Err(Error::UnsupportedFamily(fam->Other_0))
            } else if fam is Unix {
                Err(Error::UnsupportedFamily(3))
            } else if proto is Other {
                Err(Error::UnsupportedProtocol(proto->Other_0))
            } else if fam is Unspecified {
                Ok(ParseResult(header_end as usize, Where::Underlying))
            } else if proto is Unspecified {
                Ok(ParseResult(header_end as usize, Where::Underlying))
            } else if fam is Inet {
                v2_inet_spec(s, length, header_end as usize)
            } else {
                v2_inet6_spec(s, length, header_end as usize)
            }
        }
    }
}

/// Read the big-endian group at byte offset `o`.
fn read_be_group(buf: &[u8], o: usize) -> (r: u16)
    requires
        o + 1 < buf@.len(),
    ensures
        r == be_group(buf@, o as int),
{
    (buf[o] as u16) * 256 + (buf[o + 1] as u16)
}

/// Parse a v2 preamble.
fn parse_v2(buf: &[u8]) -> (r: Result<ParseResult, Error>)
    ensures
        r == v2_parse_spec(buf@),
        match r {
            Ok(p) => p.0 <= buf@.len(),
            Err(_) => true,
        },
{
    let n = buf.len();
    if n < 16 {
        return Err(Error::ShortHeader);
    }
    let length: usize = (buf[14] as usize) * 256 + (buf[15] as usize);
    let header_end: usize = 16 + length;
    if n < header_end {
        return Err(Error::ShortHeader);
    }
    let (ver, cmd) = version_command_from_u8(buf[12]);
    let (fam, proto) = family_protocol_from_u8(buf[13]);
    match ver {
        Version::V2 => {},
        Version::V1 => {
            return Err(Error::UnsupportedVersion(1));
        },
        Version::Other(v) => {
            return Err(Error::UnsupportedVersion(v));
        },
    }
    if let Command::Other(c) = cmd {
        return Err(Error::UnsupportedCommand(c));
    }
    if let Family::Other(f) = fam {
        return Err(Error::UnsupportedFamily(f));
    }
    if let Family::Unix = fam {
        return Err(Error::UnsupportedFamily(3));
    }
    if let Protocol::Other(p) = proto {
        return Err(Error::UnsupportedProtocol(p));
    }
    if let Family::Unspecified = fam {
        return Ok(ParseResult(header_end, Where::Underlying));
    }
    if let Protocol::Unspecified = proto {
        return Ok(ParseResult(header_end, Where::Underlying));
    }
    if let Family::Inet = fam {
        if length < 12 {
            return Err(Error::ShortHeader);
        }
        return Ok(
            ParseResult(
                header_end,
                Where::Header {
                    source: SockAddr {
                        ip: IpAddress::V4 { a: buf[16], b: buf[17], c: buf[18], d: buf[19] },
                        port: read_be_group(buf, 24),
                    },
                    destination: SockAddr {
                        ip: IpAddress::V4 { a: buf[20], b: buf[21], c: buf[22], d: buf[23] },
                        port: read_be_group(buf, 26),
                    },
                },
            ),
        );
    }
    if length < 36 {
        return Err(Error::ShortHeader);
    }
    Ok(
        ParseResult(
            header_end,
            Where::Header {
                source: SockAddr {
                    ip: IpAddress::V6 {
                        g0: read_be_group(buf, 16),
                        g1: read_be_group(buf, 18),
                        g2: read_be_group(buf, 20),
                        g3: read_be_group(buf, 22),
                        g4: read_be_group(buf, 24),
                        g5: read_be_group(buf, 26),
                        g6: read_be_group(buf, 28),
                        g7: read_be_group(buf, 30),
                    },
                    port: read_be_group(buf, 48),
                },
                destination: SockAddr {
                    ip: IpAddress::V6 {
                        g0: read_be_group(buf, 32),
                        g1: read_be_group(buf, 34),
                        g2: read_be_group(buf, 36),
                        g3: read_be_group(buf, 38),
                        g4: read_be_group(buf, 40),
                        g5: read_be_group(buf, 42),
                        g6: read_be_group(buf, 44),
                        g7: read_be_group(buf, 46),
                    },
                    port: read_be_group(buf, 50),
                },
            },
        ),
    )
}

/// What the whole wire parser says of a buffer: dispatch on the magic, and
/// report an absent preamble as zero consumed bytes and the transport
/// address, never as an error.
pub open spec fn wire_parse_spec(s: Seq<u8>) -> Result<ParseResult, Error> {
    match sniff_spec(s) {
        Some(Version::V1) => v1_parse_spec(s),
        Some(Version::V2) => v2_parse_spec(s),
        Some(Version::Other(v)) => Err(Error::UnsupportedVersion(v)),
        None => Ok(ParseResult(0, Where::Underlying)),
    }
}

/// A buffer that starts with the v2 magic cannot also start with the v1
/// magic.
proof fn lemma_magics_differ(s: Seq<u8>)
    requires
        starts_with_spec(s, v2_magic()),
    ensures
        !starts_with_spec(s, v1_magic()),
{
    assert(s.take(12)[0] == s[0]);
    assert(s[0] == 13);
    if starts_with_spec(s, v1_magic()) {
        assert(s.take(6)[0] == s[0]);
    }
}

/// A v1 preamble whose four address fields all parse consumes exactly the
/// bytes through the first `\r\n`, and resolves to the parsed source and
/// destination.
pub proof fn lemma_v1_resolves(s: Seq<u8>)
    requires
        starts_with_spec(s, v1_magic()),
        find_pair_from(s, 13, 10, 0) is Some,
        ({
            let e = find_pair_from(s, 13, 10, 0)->Some_0;
            let fields = split_on(s.subrange(6, e), 32);
            fields[0] != unknown_text() && fields.len() >= 5 && parse_ip_spec(fields[1]) is Some
                && parse_ip_spec(fields[2]) is Some && parse_port_spec(fields[3]) is Some
                && parse_port_spec(fields[4]) is Some
        }),
    ensures
        ({
            let e = find_pair_from(s, 13, 10, 0)->Some_0;
            let fields = split_on(s.subrange(6, e), 32);
            wire_parse_spec(s) == Ok::<ParseResult, Error>(
                ParseResult(
                    (e + 2) as usize,
                    Where::Header {
                        source: SockAddr {
                            ip: parse_ip_spec(fields[1])->Some_0,
                            port: parse_port_spec(fields[3])->Some_0,
                        },
                        destination: SockAddr {
                            ip: parse_ip_spec(fields[2])->Some_0,
                            port: parse_port_spec(fields[4])->Some_0,
                        },
                    },
                ),
            )
        }),
{
    lemma_find_pair_from(s, 13, 10, 0);
    let e = find_pair_from(s, 13, 10, 0)->Some_0;
    assert(forall|k: int| 0 <= k < 6 ==> s[k] == s.take(6)[k]);
    assert(s[e] == 13);
    assert(e >= 6);
}

/// A v2 buffer shorter than its declared length — even one that ends
/// before the length field itself — fails as a short header; it is never
/// silently truncated.
pub proof fn lemma_v2_short_is_short_header(s: Seq<u8>)
    requires
        starts_with_spec(s, v2_magic()),
        s.len() < 16 || s.len() < 16 + s[14] * 256 + s[15],
    ensures
        wire_parse_spec(s) == Err::<ParseResult, Error>(Error::ShortHeader),
{
    lemma_magics_differ(s);
}

/// A buffer that opens with neither magic is not proxy-wrapped, and that is
/// no error: nothing is consumed, and the transport address is used.
pub proof fn lemma_no_magic_uses_transport(s: Seq<u8>)
    requires
        sniff_spec(s) is None,
    ensures
        wire_parse_spec(s) == Ok::<ParseResult, Error>(ParseResult(0, Where::Underlying)),
{
}

/// A complete v2 preamble whose version and command are in range but whose
/// family names Unix-domain sockets is refused as an unsupported family,
/// whatever the socket kind and address block hold.
pub proof fn lemma_v2_unix_family_unsupported(s: Seq<u8>)
    requires
        starts_with_spec(s, v2_magic()),
        s.len() >= 16,
        s.len() >= 16 + s[14] * 256 + s[15],
        s[12] / 16 == 2,
        s[12] % 16 <= 1,
        s[13] / 16 == 3,
    ensures
        wire_parse_spec(s) == Err::<ParseResult, Error>(Error::UnsupportedFamily(3)),
{
    lemma_magics_differ(s);
}

/// Parse the preamble, if any, at the start of a stream.  On success the
/// consumed length never exceeds the buffer.
pub fn parse(buf: &[u8]) -> (r: Result<ParseResult, Error>)
    ensures
        r == wire_parse_spec(buf@),
        match r {
            Ok(p) => p.0 <= buf@.len(),
            Err(_) => true,
        },
{
    match is_proxy_protocol(buf) {
        Some(v) => match v {
            Version::V1 => parse_v1(buf),
            Version::V2 => parse_v2(buf),
            Version::Other(o) => Err(Error::UnsupportedVersion(o)),
        },
        None => Ok(ParseResult(0, Where::Underlying)),
    }
}

} // verus!
