//! How much fits.
use spark::tunnel::dns::{build_answer, build_query, question_end, DnsError, Name};
use spark::tunnel::mtu::{
    base32_capacity_bytes, max_base32_chars, max_downlink_payload, max_downlink_wire_bytes,
    max_uplink_payload, max_uplink_wire_bytes, wire_overhead,
};

#[test]
fn max_base32_chars_known_values() {
    assert_eq!(max_base32_chars(0), 0);
    assert_eq!(max_base32_chars(1), 0); // 1 spare byte cannot form a label
    assert_eq!(max_base32_chars(2), 1); // 1 length byte + 1 char
    assert_eq!(max_base32_chars(64), 63); // one full label
    assert_eq!(max_base32_chars(65), 63); // 1 spare, still one label
    assert_eq!(max_base32_chars(66), 64); // second label: 1 len + 1 char
    assert_eq!(max_base32_chars(128), 126); // two full labels
}

#[test]
fn base32_capacity_is_five_eighths() {
    assert_eq!(base32_capacity_bytes(8), 5);
    assert_eq!(base32_capacity_bytes(16), 10);
    assert_eq!(base32_capacity_bytes(7), 4); // floor
}

#[test]
fn uplink_bound_matches_build_query_exactly() {
    // The cross-check: `max_uplink_wire_bytes` must equal the largest `data` (wire packet) that
    // `dns::build_query` will base32-pack into a valid ≤255-byte QNAME under the zone.
    let zone = Name::parse("t.example.com").unwrap();
    let w = max_uplink_wire_bytes(zone.wire_len());
    assert!(w > 0);
    assert!(
        build_query(0, &vec![0u8; w], &zone, 1232).is_ok(),
        "a {w}-byte wire packet must fit"
    );
    assert!(
        matches!(
            build_query(0, &vec![0u8; w + 1], &zone, 1232),
            Err(DnsError::NameTooLong)
        ),
        "one byte more must overflow the QNAME"
    );
}

#[test]
fn a_longer_zone_leaves_less_uplink_room() {
    let short = Name::parse("t.ex.io").unwrap();
    let long = Name::parse("tunnel.a-much-longer-subdomain.example.co.uk").unwrap();
    assert!(max_uplink_wire_bytes(long.wire_len()) < max_uplink_wire_bytes(short.wire_len()));
}

#[test]
fn uplink_payload_subtracts_overhead_and_header() {
    let zone = Name::parse("t.example.com").unwrap();
    let zl = zone.wire_len();
    let wire = max_uplink_wire_bytes(zl);
    // A 3-byte minimal inner header.
    let payload = max_uplink_payload(zl, 3);
    assert_eq!(payload, wire - wire_overhead() - 3);
}

#[test]
fn downlink_capacity_is_bounded_and_monotonic() {
    let q = 40; // typical echoed-question length
    let small = max_downlink_wire_bytes(512, q);
    let big = max_downlink_wire_bytes(1232, q);
    assert!(small < big, "more EDNS room → more downlink capacity");
    assert!(big < 1232, "capacity is under the advertised UDP size");
    assert!(max_downlink_payload(1232, q, 5) > 0);
}

#[test]
fn downlink_bound_matches_build_answer_exactly() {
    let zone = Name::parse("t.example.com").unwrap();
    let q = build_query(7, b"up", &zone, 1232).unwrap();
    let question = question_end(&q).unwrap() - 12;
    for edns in [200usize, 255, 320, 321, 322, 512, 1000, 1232, 4096] {
        let cap = max_downlink_wire_bytes(edns, question);
        assert!(cap > 0);
        let fits = build_answer(&q, &vec![0xA5; cap], edns as u16).unwrap();
        assert!(fits.len() <= edns, "{edns}");
        let over = build_answer(&q, &vec![0xA5; cap + 1], edns as u16).unwrap();
        assert!(over.len() > edns, "{edns}");
    }
}
