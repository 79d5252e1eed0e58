//! Tests for the PROXY protocol wire parser and the acceptance policy.

use proxied::net::{IpAddress, SockAddr};
use proxied::parser::{parse, Error, ParseResult, Where};
use proxied::proxy::{classify, Addr, Classified, Resolution};

const V2_MAGIC: [u8; 12] = [
    0x0d, 0x0a, 0x0d, 0x0a, 0x00, 0x0d, 0x0a, 0x51, 0x55, 0x49, 0x54, 0x0a,
];

fn v2_buf(version_command: u8, family_protocol: u8, payload: &[u8]) -> Vec<u8> {
    let mut buf = V2_MAGIC.to_vec();
    buf.push(version_command);
    buf.push(family_protocol);
    let len = payload.len() as u16;
    buf.push((len / 256) as u8);
    buf.push((len % 256) as u8);
    buf.extend_from_slice(payload);
    buf
}

#[test]
fn v1_header_resolves_addresses() {
    let buf = b"PROXY TCP4 192.168.0.1 192.168.0.11 56324 443\r\n";
    assert_eq!(
        parse(buf),
        Ok(ParseResult(
            buf.len(),
            Where::Header {
                source: SockAddr::new(IpAddress::v4(192, 168, 0, 1), 56324),
                destination: SockAddr::new(IpAddress::v4(192, 168, 0, 11), 443),
            }
        ))
    );
}

#[test]
fn v1_header_ipv6_resolves_addresses() {
    let buf = b"PROXY TCP6 2001:db8::1 ::1 4242 80\r\n";
    assert_eq!(
        parse(buf),
        Ok(ParseResult(
            buf.len(),
            Where::Header {
                source: SockAddr::new(IpAddress::v6(0x2001, 0x0db8, 0, 0, 0, 0, 0, 1), 4242),
                destination: SockAddr::new(IpAddress::v6(0, 0, 0, 0, 0, 0, 0, 1), 80),
            }
        ))
    );
}

#[test]
fn v1_unknown_drains_header() {
    let buf = b"PROXY UNKNOWN\r\n";
    assert_eq!(parse(buf), Ok(ParseResult(buf.len(), Where::Underlying)));
}

#[test]
fn v1_unknown_with_fields_drains_header() {
    let buf = b"PROXY UNKNOWN ffff::1 ffff::2 1 2\r\n";
    assert_eq!(parse(buf), Ok(ParseResult(buf.len(), Where::Underlying)));
}

#[test]
fn v1_without_delimiter_is_short() {
    assert_eq!(parse(b"PROXY TCP4 192.168.0.1"), Err(Error::ShortHeader));
}

#[test]
fn v1_missing_fields_is_invalid() {
    // The delimiter is present, so the line is complete and the missing
    // fields are a format error, not a short header.
    assert_eq!(parse(b"PROXY TCP4 192.168.0.1\r\n"), Err(Error::InvalidFormat));
    assert_eq!(parse(b"PROXY TCP4\r\n"), Err(Error::InvalidFormat));
}

#[test]
fn v1_malformed_address_is_invalid() {
    assert_eq!(
        parse(b"PROXY TCP4 192.168.0.300 192.168.0.11 56324 443\r\n"),
        Err(Error::InvalidFormat)
    );
    assert_eq!(
        parse(b"PROXY TCP4 192.168.0.1 192.168.0.11 porty 443\r\n"),
        Err(Error::InvalidFormat)
    );
}

#[test]
fn no_magic_uses_transport_address() {
    assert_eq!(
        parse(b"GET / HTTP/1.1\r\n"),
        Ok(ParseResult(0, Where::Underlying))
    );
    assert_eq!(parse(b""), Ok(ParseResult(0, Where::Underlying)));
}

#[test]
fn v2_inet_resolves_addresses() {
    let payload = [10, 0, 0, 1, 10, 0, 0, 2, 0x01, 0x02, 0x01, 0xbb];
    let buf = v2_buf(0x21, 0x11, &payload);
    assert_eq!(
        parse(&buf),
        Ok(ParseResult(
            buf.len(),
            Where::Header {
                source: SockAddr::new(IpAddress::v4(10, 0, 0, 1), 258),
                destination: SockAddr::new(IpAddress::v4(10, 0, 0, 2), 443),
            }
        ))
    );
}

#[test]
fn v2_inet6_resolves_addresses() {
    let mut payload = [0u8; 36];
    payload[0] = 0x20;
    payload[1] = 0x01;
    payload[15] = 0x17;
    payload[31] = 0x01;
    payload[32] = 0x1f;
    payload[33] = 0x90;
    payload[34] = 0x00;
    payload[35] = 0x50;
    let buf = v2_buf(0x21, 0x21, &payload);
    assert_eq!(
        parse(&buf),
        Ok(ParseResult(
            buf.len(),
            Where::Header {
                source: SockAddr::new(IpAddress::v6(0x2001, 0, 0, 0, 0, 0, 0, 0x17), 8080),
                destination: SockAddr::new(IpAddress::v6(0, 0, 0, 0, 0, 0, 0, 1), 80),
            }
        ))
    );
}

#[test]
fn v2_shorter_than_declared_is_short() {
    // Declares twelve payload bytes but carries none.
    let buf = v2_buf(0x21, 0x11, &[0u8; 12]);
    assert_eq!(parse(&buf[..16]), Err(Error::ShortHeader));
    assert_eq!(parse(&buf[..27]), Err(Error::ShortHeader));
}

#[test]
fn v2_unix_family_is_unsupported() {
    assert_eq!(
        parse(&v2_buf(0x21, 0x31, &[0u8; 4])),
        Err(Error::UnsupportedFamily(3))
    );
    // The socket kind does not matter.
    assert_eq!(
        parse(&v2_buf(0x21, 0x3f, &[0u8; 4])),
        Err(Error::UnsupportedFamily(3))
    );
}

#[test]
fn v2_version_errors() {
    assert_eq!(
        parse(&v2_buf(0x11, 0x11, &[])),
        Err(Error::UnsupportedVersion(1))
    );
    assert_eq!(
        parse(&v2_buf(0x31, 0x11, &[])),
        Err(Error::UnsupportedVersion(3))
    );
}

#[test]
fn v2_command_error() {
    assert_eq!(
        parse(&v2_buf(0x2f, 0x11, &[])),
        Err(Error::UnsupportedCommand(15))
    );
}

#[test]
fn v2_family_error() {
    assert_eq!(
        parse(&v2_buf(0x21, 0x41, &[])),
        Err(Error::UnsupportedFamily(4))
    );
}

#[test]
fn v2_protocol_error() {
    assert_eq!(
        parse(&v2_buf(0x21, 0x13, &[])),
        Err(Error::UnsupportedProtocol(3))
    );
}

#[test]
fn v2_unspecified_family_uses_transport() {
    let buf = v2_buf(0x21, 0x01, &[1, 2, 3]);
    assert_eq!(parse(&buf), Ok(ParseResult(buf.len(), Where::Underlying)));
}

#[test]
fn v2_unspecified_protocol_uses_transport() {
    let buf = v2_buf(0x21, 0x10, &[]);
    assert_eq!(parse(&buf), Ok(ParseResult(buf.len(), Where::Underlying)));
}

#[test]
fn v2_largest_declared_length_is_drained() {
    let buf = v2_buf(0x20, 0x01, &[0u8; 65535]);
    assert_eq!(buf.len(), 16 + 65535);
    assert_eq!(parse(&buf), Ok(ParseResult(buf.len(), Where::Underlying)));
    assert_eq!(parse(&buf[..buf.len() - 1]), Err(Error::ShortHeader));
}

#[test]
fn v2_truncated_before_length_is_short() {
    // Every truncation of a v2 preamble is a short header, even one that
    // ends before the length field itself.
    let buf = v2_buf(0x21, 0x11, &[]);
    assert_eq!(parse(&buf[..12]), Err(Error::ShortHeader));
    assert_eq!(parse(&buf[..13]), Err(Error::ShortHeader));
    assert_eq!(parse(&buf[..14]), Err(Error::ShortHeader));
    assert_eq!(parse(&buf[..15]), Err(Error::ShortHeader));
}

#[test]
fn v2_address_block_must_fit_declared_length() {
    // Family Inet needs twelve declared bytes and Inet6 thirty-six; a
    // declared length too small for the family is a short header even when
    // the buffer itself is long: the bytes past the declared end are
    // payload and are never read as addresses.
    let mut buf = v2_buf(0x21, 0x11, &[0, 1, 2, 3]);
    buf.extend_from_slice(&[9u8; 24]);
    assert_eq!(parse(&buf), Err(Error::ShortHeader));
    let mut buf6 = v2_buf(0x21, 0x21, &[0u8; 35]);
    buf6.extend_from_slice(&[9u8; 64]);
    assert_eq!(parse(&buf6), Err(Error::ShortHeader));
}

#[test]
fn classify_accepts_header_address() {
    let buf = b"PROXY TCP4 192.168.0.1 192.168.0.11 56324 443\r\n";
    let c = classify(buf);
    assert_eq!(
        c,
        Classified::Accept {
            advance_by: buf.len(),
            resolution: Resolution::FromHeader(Addr::new(
                SockAddr::new(IpAddress::v4(192, 168, 0, 1), 56324),
                SockAddr::new(IpAddress::v4(192, 168, 0, 11), 443),
            )),
        }
    );
}

#[test]
fn classify_plain_stream_uses_transport() {
    let c = classify(b"GET / HTTP/1.1\r\n");
    assert_eq!(
        c,
        Classified::Accept { advance_by: 0, resolution: Resolution::FromTransport }
    );
}

#[test]
fn classify_discards_malformed_preamble() {
    let c = classify(b"PROXY TCP4 bogus\r\n");
    assert_eq!(c, Classified::Discard { reason: Error::InvalidFormat });
}

#[test]
fn transport_address_has_unspecified_destination() {
    let peer = SockAddr::new(IpAddress::v4(198, 51, 100, 9), 61000);
    assert_eq!(
        Addr::from_transport(peer),
        Addr::new(peer, SockAddr::new(IpAddress::v4(0, 0, 0, 0), 0))
    );
}
