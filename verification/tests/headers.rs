//! Tests for the `Forwarded` and `X-Forwarded-For` header decoders.

use proxied::extract::forwarded::{Forward, Forwarded, Interface, Protocol};
use proxied::extract::xforwardedfor::XForwardedFor;
use proxied::net::{IpAddress, SockAddr};

#[test]
fn forwarded_simple() {
    let forwarded = Forwarded::decode(br#"by="[::0]:443";for=127.0.0.1;proto=https,for=5.5.5.5:444"#)
        .expect("could not parse Forwarded header");
    assert_eq!(
        forwarded,
        Forwarded::new(vec![
            Forward::new(
                Some(Interface::Socket(SockAddr::new(
                    IpAddress::v6(0, 0, 0, 0, 0, 0, 0, 0),
                    443
                ))),
                Some(Interface::Socket(SockAddr::new(IpAddress::v4(127, 0, 0, 1), 0))),
                None,
                Some(Protocol::Https),
            ),
            Forward::new(
                None,
                Some(Interface::Socket(SockAddr::new(IpAddress::v4(5, 5, 5, 5), 444))),
                None,
                None,
            ),
        ])
    );
}

#[test]
fn forwarded_keys_case_insensitive() {
    let forwarded = Forwarded::decode(b"For=192.0.2.60;PROTO=http;HOST=example.com")
        .expect("could not parse Forwarded header");
    assert_eq!(
        forwarded,
        Forwarded::new(vec![Forward::new(
            None,
            Some(Interface::Socket(SockAddr::new(IpAddress::v4(192, 0, 2, 60), 0))),
            Some(b"example.com".to_vec()),
            Some(Protocol::Http),
        )])
    );
}

#[test]
fn forwarded_unrecognised_keys_ignored() {
    let forwarded =
        Forwarded::decode(b"secret=1;for=unknown").expect("could not parse Forwarded header");
    assert_eq!(
        forwarded,
        Forwarded::new(vec![Forward::new(None, Some(Interface::Unknown), None, None)])
    );
}

#[test]
fn forwarded_bare_hop_yields_empty_record() {
    let forwarded = Forwarded::decode(b"a,b").expect("could not parse Forwarded header");
    assert_eq!(
        forwarded,
        Forwarded::new(vec![
            Forward::new(None, None, None, None),
            Forward::new(None, None, None, None),
        ])
    );
}

#[test]
fn forwarded_empty_value_yields_one_empty_record() {
    let forwarded = Forwarded::decode(b"").expect("could not parse Forwarded header");
    assert_eq!(
        forwarded,
        Forwarded::new(vec![Forward::new(None, None, None, None)])
    );
}

#[test]
fn forwarded_later_value_wins() {
    let forwarded = Forwarded::decode(b"proto=https;proto=gopher")
        .expect("could not parse Forwarded header");
    assert_eq!(
        forwarded,
        Forwarded::new(vec![Forward::new(
            None,
            None,
            None,
            Some(Protocol::Other(b"gopher".to_vec())),
        )])
    );
}

#[test]
fn forwarded_value_may_contain_equals() {
    // A parameter splits at its first `=` only, so the value keeps any
    // further `=` verbatim.
    let forwarded =
        Forwarded::decode(b"host=a=b").expect("could not parse Forwarded header");
    assert_eq!(
        forwarded,
        Forwarded::new(vec![Forward::new(None, None, Some(b"a=b".to_vec()), None)])
    );
    let forwarded = Forwarded::decode(b"by=10.0.0.8=for=unknown")
        .expect("could not parse Forwarded header");
    assert_eq!(
        forwarded,
        Forwarded::new(vec![Forward::new(
            Some(Interface::Identifier(b"10.0.0.8=for=unknown".to_vec())),
            None,
            None,
            None,
        )])
    );
}

#[test]
fn forwarded_rejects_invalid_text() {
    assert!(Forwarded::decode(&[0x66, 0x6f, 0xff, 0x6f]).is_err());
}

#[test]
fn forwarded_accessors() {
    let forwarded =
        Forwarded::decode(b"by=10.0.0.1;host=h").expect("could not parse Forwarded header");
    let hops = forwarded.forwards();
    assert_eq!(hops.len(), 1);
    assert_eq!(
        hops[0].by(),
        &Some(Interface::Socket(SockAddr::new(IpAddress::v4(10, 0, 0, 1), 0)))
    );
    assert_eq!(hops[0].for_(), &None);
    assert_eq!(hops[0].host(), &Some(b"h".to_vec()));
    assert_eq!(hops[0].proto(), &None);
}

#[test]
fn xforwardedfor_simple() {
    let xforwarded = XForwardedFor::decode(b"192.0.2.43, 2001:db8:cafe::17")
        .expect("could not parse X-Forwarded-For header");
    assert_eq!(
        xforwarded,
        XForwardedFor::new(vec![
            IpAddress::v4(192, 0, 2, 43),
            IpAddress::v6(0x2001, 0x0db8, 0xcafe, 0, 0, 0, 0, 0x17),
        ])
    );
}

#[test]
fn xforwardedfor_rejects_whole_header() {
    assert!(XForwardedFor::decode(b"192.0.2.43, not-an-ip").is_err());
}

#[test]
fn xforwardedfor_rejects_empty_value() {
    assert!(XForwardedFor::decode(b"").is_err());
}

#[test]
fn xforwardedfor_single_entry() {
    let xforwarded =
        XForwardedFor::decode(b"203.0.113.195").expect("could not parse X-Forwarded-For header");
    assert_eq!(
        xforwarded.forwards(),
        &vec![IpAddress::v4(203, 0, 113, 195)]
    );
}
