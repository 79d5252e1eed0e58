//! Tests for the forwarding-interface token parser.

use proxied::extract::forwarded::Interface;
use proxied::net::{IpAddress, SockAddr};

#[test]
fn parse_simple_ipv6() {
    let simple = br#""[::0]:338""#;
    let parsed = Interface::parse(simple);
    assert_eq!(
        parsed,
        Interface::Socket(SockAddr::new(IpAddress::v6(0, 0, 0, 0, 0, 0, 0, 0), 338))
    );
}

#[test]
fn parse_simple_ipv6_no_port() {
    let simple = br#""[::0]""#;
    let parsed = Interface::parse(simple);
    assert_eq!(
        parsed,
        Interface::Socket(SockAddr::new(IpAddress::v6(0, 0, 0, 0, 0, 0, 0, 0), 0))
    );
}

#[test]
fn parse_simple_ipv4() {
    let simple = br#"127.0.0.1:338"#;
    let parsed = Interface::parse(simple);
    assert_eq!(
        parsed,
        Interface::Socket(SockAddr::new(IpAddress::v4(127, 0, 0, 1), 338))
    );
}

#[test]
fn parse_simple_ipv4_no_port() {
    let simple = br#"127.0.0.1"#;
    let parsed = Interface::parse(simple);
    assert_eq!(
        parsed,
        Interface::Socket(SockAddr::new(IpAddress::v4(127, 0, 0, 1), 0))
    );
}

#[test]
fn parse_unknown_any_case() {
    assert_eq!(Interface::parse(b"unknown"), Interface::Unknown);
    assert_eq!(Interface::parse(b"UNKNOWN"), Interface::Unknown);
    assert_eq!(Interface::parse(b"Unknown"), Interface::Unknown);
    assert_eq!(Interface::parse(br#""unknown""#), Interface::Unknown);
}

#[test]
fn parse_padded_unknown_is_identifier() {
    // The literal check runs before trimming, so padding demotes the token.
    assert_eq!(
        Interface::parse(b" unknown"),
        Interface::Identifier(b"unknown".to_vec())
    );
}

#[test]
fn parse_opaque_identifier() {
    assert_eq!(
        Interface::parse(b"_hidden"),
        Interface::Identifier(b"_hidden".to_vec())
    );
    assert_eq!(
        Interface::parse(b"host.example.com"),
        Interface::Identifier(b"host.example.com".to_vec())
    );
}

#[test]
fn parse_port_out_of_range_is_identifier() {
    assert_eq!(
        Interface::parse(b"127.0.0.1:65536"),
        Interface::Identifier(b"127.0.0.1:65536".to_vec())
    );
}

#[test]
fn parse_full_ipv6_with_port() {
    let parsed = Interface::parse(b"[2001:db8:cafe::17]:8080");
    assert_eq!(
        parsed,
        Interface::Socket(SockAddr::new(
            IpAddress::v6(0x2001, 0x0db8, 0xcafe, 0, 0, 0, 0, 0x17),
            8080
        ))
    );
}

#[test]
fn parse_bare_ipv6() {
    let parsed = Interface::parse(b"2001:db8::1");
    assert_eq!(
        parsed,
        Interface::Socket(SockAddr::new(
            IpAddress::v6(0x2001, 0x0db8, 0, 0, 0, 0, 0, 1),
            0
        ))
    );
}

#[test]
fn parse_embedded_dotted_quad() {
    let parsed = Interface::parse(b"::ffff:192.0.2.1");
    assert_eq!(
        parsed,
        Interface::Socket(SockAddr::new(
            IpAddress::v6(0, 0, 0, 0, 0, 0xffff, 0xc000, 0x0201),
            0
        ))
    );
}

#[test]
fn formatted_socket_parses_back() {
    let v4 = SockAddr::new(IpAddress::v4(10, 0, 0, 7), 8443);
    assert_eq!(Interface::parse(&v4.to_text()), Interface::Socket(v4));
    let v6 = SockAddr::new(IpAddress::v6(0x2001, 0x0db8, 0, 0, 0, 0, 0, 0x17), 443);
    assert_eq!(Interface::parse(&v6.to_text()), Interface::Socket(v6));
    let zero = SockAddr::new(IpAddress::v6(0, 0, 0, 0, 0, 0, 0, 0), 0);
    assert_eq!(Interface::parse(&zero.to_text()), Interface::Socket(zero));
}

#[test]
fn socket_text_forms() {
    assert_eq!(
        SockAddr::new(IpAddress::v4(127, 0, 0, 1), 338).to_text(),
        b"127.0.0.1:338".to_vec()
    );
    assert_eq!(
        SockAddr::new(IpAddress::v6(0, 0, 0, 0, 0, 0, 0, 0), 443).to_text(),
        b"[0:0:0:0:0:0:0:0]:443".to_vec()
    );
}
