//! Targets on the wire.
use spark::tunnel::addr::{encode, parse, AddrError, IpAddress, Target, MAX_DOMAIN_LEN};

/// 2606:4700::1111
const V6: [u8; 16] = [0x26, 0x06, 0x47, 0, 0, 0, 0, 0, 0, 0, 0, 0, 0, 0, 0x11, 0x11];

fn v4(a: u8, b: u8, c: u8, d: u8, port: u16) -> Target {
    Target::Ip(IpAddress::V4([a, b, c, d]), port)
}

fn roundtrip(t: Target) {
    let encoded = encode(&t).expect("encodes");
    assert_eq!(parse(&encoded).expect("parses"), t, "round trip for {t:?}");
}

#[test]
fn round_trips_every_form() {
    roundtrip(v4(1, 2, 3, 4, 443));
    roundtrip(Target::Ip(IpAddress::V6(V6), 853));
    roundtrip(Target::Domain("df.iantem.io".into(), 443));
    roundtrip(Target::Domain("a".into(), 1));
    roundtrip(Target::Domain("x".repeat(MAX_DOMAIN_LEN), 65535));
}

#[test]
fn the_wire_layout_is_socks5() {
    assert_eq!(
        encode(&v4(1, 2, 3, 4, 443)).unwrap(),
        vec![0x01, 1, 2, 3, 4, 0x01, 0xbb]
    );
    assert_eq!(
        encode(&Target::Domain("ab".into(), 80)).unwrap(),
        vec![0x03, 2, b'a', b'b', 0x00, 0x50]
    );
}

#[test]
fn parses_what_the_old_ip_only_decoder_produced() {
    assert_eq!(
        parse(&[0x01, 93, 184, 216, 34, 0x01, 0xbb]).unwrap(),
        v4(93, 184, 216, 34, 443)
    );
    let mut localhost = [0u8; 16];
    localhost[15] = 1;
    let mut v6 = vec![0x04];
    v6.extend_from_slice(&localhost);
    v6.extend_from_slice(&443u16.to_be_bytes());
    assert_eq!(
        parse(&v6).unwrap(),
        Target::Ip(IpAddress::V6(localhost), 443)
    );
}

#[test]
fn a_domain_too_long_for_the_length_byte_is_refused_not_truncated() {
    let long = "x".repeat(MAX_DOMAIN_LEN + 1);
    assert_eq!(
        encode(&Target::Domain(long, 443)),
        Err(AddrError::DomainTooLong(MAX_DOMAIN_LEN + 1))
    );
}

#[test]
fn an_empty_domain_is_refused_on_both_sides() {
    assert_eq!(
        encode(&Target::Domain(String::new(), 443)),
        Err(AddrError::EmptyDomain)
    );
    assert_eq!(
        parse(&[0x03, 0x00, 0x01, 0xbb]),
        Err(AddrError::EmptyDomain)
    );
}

#[test]
fn every_truncation_errors_rather_than_panicking() {
    for t in [
        v4(1, 2, 3, 4, 443),
        Target::Ip(IpAddress::V6(V6), 853),
        Target::Domain("df.iantem.io".into(), 443),
    ] {
        let full = encode(&t).unwrap();
        for cut in 0..full.len() {
            assert!(
                parse(&full[..cut]).is_err(),
                "{t:?}: {cut}-byte prefix parsed but should not have"
            );
        }
        assert_eq!(parse(&full).unwrap(), t);
    }
}

#[test]
fn an_unknown_atyp_is_reported_not_guessed() {
    assert_eq!(parse(&[0x02, 1, 2, 3]), Err(AddrError::UnknownAtyp(0x02)));
    assert_eq!(parse(&[]), Err(AddrError::Truncated { got: 0, need: 1 }));
}

#[test]
fn a_non_utf8_domain_is_rejected() {
    assert_eq!(
        parse(&[0x03, 0x02, 0xff, 0xfe, 0x01, 0xbb]),
        Err(AddrError::InvalidUtf8)
    );
}

#[test]
fn trailing_bytes_are_ignored() {
    let mut b = encode(&Target::Domain("a.example".into(), 443)).unwrap();
    b.extend_from_slice(b"future field");
    assert_eq!(parse(&b).unwrap(), Target::Domain("a.example".into(), 443));
}

#[test]
fn a_target_tells_its_port() {
    assert_eq!(v4(9, 9, 9, 9, 53).port(), 53);
    assert_eq!(Target::Domain("a".into(), 65535).port(), 65535);
}
