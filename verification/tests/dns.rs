//! Queries and answers.
use spark::tunnel::dns::{
    b32_decode, b32_encode, b32_val, build_answer, build_nodata, build_query, eq_ci, parse_answer,
    parse_query, question_end, DnsError, Name,
};

#[test]
fn base32_round_trips_all_remainders() {
    for len in 0..40usize {
        let data: Vec<u8> = (0..len).map(|i| (i as u8).wrapping_mul(37).wrapping_add(11)).collect();
        let enc = b32_encode(&data);
        assert!(enc.iter().all(|&c| b32_val(c).is_some()));
        assert_eq!(b32_decode(&enc).unwrap(), data, "len {len}");
    }
}

#[test]
fn base32_decode_is_case_insensitive() {
    let data = b"tunnel payload 0x20";
    let enc = b32_encode(data);
    let upper: Vec<u8> = enc.iter().map(|c| c.to_ascii_uppercase()).collect();
    // Mixed case, as a 0x20-randomizing resolver might produce.
    let mixed: Vec<u8> = enc
        .iter()
        .enumerate()
        .map(|(i, &c)| if i % 2 == 0 { c.to_ascii_uppercase() } else { c })
        .collect();
    assert_eq!(b32_decode(&upper).unwrap(), data);
    assert_eq!(b32_decode(&mixed).unwrap(), data);
}

#[test]
fn query_round_trips_and_checks_zone() {
    let zone = Name::parse("t.example.com").unwrap();
    let data = b"the quick brown fox jumps over".to_vec();
    let q = build_query(0xABCD, &data, &zone, 1232).unwrap();
    // EDNS0 OPT present → ARCOUNT = 1.
    assert_eq!(u16::from_be_bytes([q[10], q[11]]), 1);
    let parsed = parse_query(&q, &zone).unwrap();
    assert_eq!(parsed.txn_id, 0xABCD);
    assert_eq!(parsed.data, data);

    // A query under a different zone is rejected.
    let other = Name::parse("t.evil.example").unwrap();
    assert!(matches!(parse_query(&q, &other), Err(DnsError::WrongZone)));
}

#[test]
fn query_rejects_oversized_name() {
    let zone = Name::parse("t.example.com").unwrap();
    // 200 bytes base32-expands to 320 chars → well over the 255-name limit.
    let big = vec![0x5A; 200];
    assert!(matches!(
        build_query(1, &big, &zone, 1232),
        Err(DnsError::NameTooLong)
    ));
}

#[test]
fn answer_round_trips_including_multi_char_string() {
    let zone = Name::parse("t.example.com").unwrap();
    let q = build_query(0x1234, b"up", &zone, 1232).unwrap();
    // 600 bytes → 3 character-strings (255+255+90).
    let downlink: Vec<u8> = (0..600u16).map(|i| (i & 0xff) as u8).collect();
    let a = build_answer(&q, &downlink, 1232).unwrap();
    let parsed = parse_answer(&a).unwrap();
    assert_eq!(parsed.txn_id, 0x1234);
    assert_eq!(parsed.data, downlink);
    // Response bit set.
    assert_eq!(a[2] & 0x80, 0x80);
}

#[test]
fn answer_round_trips_empty_downlink() {
    let zone = Name::parse("t.example.com").unwrap();
    let q = build_query(7, b"", &zone, 512).unwrap();
    let a = build_answer(&q, &[], 512).unwrap();
    let parsed = parse_answer(&a).unwrap();
    assert_eq!(parsed.txn_id, 7);
    assert!(parsed.data.is_empty());
}

#[test]
fn parsers_reject_truncation_without_panicking() {
    let zone = Name::parse("t.example.com").unwrap();
    let q = build_query(1, b"hello", &zone, 1232).unwrap();
    let a = build_answer(&q, b"world", 1232).unwrap();
    for n in 0..q.len() {
        let _ = parse_query(&q[..n], &zone); // must not panic
    }
    for n in 0..a.len() {
        let _ = parse_answer(&a[..n]); // must not panic
    }
}

#[test]
fn dns_parsers_never_panic_on_random_input() {
    let zone = Name::parse("t.example.com").unwrap();
    let mut state = 0x9E3779B97F4A7C15u64;
    for len in 0..300usize {
        let mut buf = Vec::with_capacity(len);
        for _ in 0..len {
            state = state.wrapping_mul(6364136223846793005).wrapping_add(1442695040888963407);
            buf.push((state >> 33) as u8);
        }
        let _ = parse_query(&buf, &zone);
        let _ = parse_answer(&buf);
    }
}

#[test]
fn base32_has_known_values() {
    assert_eq!(b32_encode(b"f"), b"my");
    assert_eq!(b32_encode(b"foobar"), b"mzxw6ytboi");
    assert_eq!(b32_decode(b"mzxw6ytboi").unwrap(), b"foobar");
    assert_eq!(b32_val(b'a'), Some(0));
    assert_eq!(b32_val(b'7'), Some(31));
    assert_eq!(b32_val(b'1'), None);
    assert!(b32_decode(b"my!").is_none());
}

#[test]
fn names_are_limited_and_compared_without_case() {
    assert_eq!(Name::parse("t.example.com").unwrap().wire_len(), 15);
    let long_label = "x".repeat(64);
    assert!(matches!(Name::parse(&long_label), Err(DnsError::NameTooLong)));
    assert!(eq_ci(b"ExAmple", b"eXample"));
    assert!(!eq_ci(b"example", b"examples"));
}

#[test]
fn a_query_is_read_whatever_its_case() {
    let zone = Name::parse("t.example.com").unwrap();
    let mut q = build_query(3, b"payload", &zone, 1232).unwrap();
    let end = question_end(&q).unwrap();
    for b in &mut q[12..end - 4] {
        *b = b.to_ascii_uppercase();
    }
    assert_eq!(parse_query(&q, &zone).unwrap().data, b"payload");
}

#[test]
fn an_answer_without_data_carries_none() {
    let zone = Name::parse("t.example.com").unwrap();
    let q = build_query(9, b"up", &zone, 1232).unwrap();
    let a = build_nodata(&q, &zone, 1232).unwrap();
    assert_eq!(&a[..2], &9u16.to_be_bytes());
    assert_eq!(a[2] & 0x80, 0x80);
    assert_eq!(u16::from_be_bytes([a[6], a[7]]), 0, "no answer record");
}

#[test]
fn one_final_dot_is_the_root_and_a_second_is_an_empty_label() {
    let zone = Name::parse("t.example.com").unwrap();
    assert_eq!(Name::parse("t.example.com.").unwrap().wire_len(), zone.wire_len());
    assert!(matches!(Name::parse("t.example.com.."), Err(DnsError::NameTooLong)));
    assert_eq!(Name::parse(".").unwrap().wire_len(), 1);
    assert_eq!(Name::parse("").unwrap().wire_len(), 1);
    assert!(matches!(Name::parse(".."), Err(DnsError::NameTooLong)));
    assert!(matches!(Name::parse(".example.com"), Err(DnsError::NameTooLong)));
    assert!(matches!(Name::parse("t..com"), Err(DnsError::NameTooLong)));
}
