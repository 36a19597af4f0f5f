//! Frames and packets.
use spark::tunnel::crypto::{
    random_conn_id, random_nonce, Aead, Cipher, CONN_ID_LEN, ED25519_SIG_LEN, NONCE_LEN, TAG_LEN,
    X25519_PUB_LEN,
};
use spark::tunnel::frame::{
    build_syn, build_synack, open_frame, parse_packet, seal_short, Frame, FrameError, Kind, Packet,
    FLAG_SEQ, FORM_SHORT, FORM_SYN, FORM_SYNACK, VERSION,
};
use spark::tunnel::mtu::wire_overhead;

fn test_aead() -> Aead {
    Aead::new(Cipher::ChaCha20Poly1305, &[0x5A; 32]).unwrap()
}

#[test]
fn inner_round_trips_bare() {
    let f = Frame::new(Kind::Fin);
    let enc = f.encode();
    assert_eq!(enc.len(), 3); // version + kind + flags, no options, no payload
    assert_eq!(Frame::decode(&enc).unwrap(), f);
}

#[test]
fn inner_round_trips_full() {
    let f = Frame {
        kind: Kind::Data,
        stream_id: Some(0xBEEF),
        seq: Some(0x0123_4567),
        fragment: Some((2, 5)),
        comp_algo: Some(1),
        payload: b"hello dns tunnel".to_vec(),
    };
    let enc = f.encode();
    let dec = Frame::decode(&enc).unwrap();
    assert_eq!(dec, f);
    assert_eq!(dec.stream_id, Some(0xBEEF));
    assert_eq!(dec.seq, Some(0x0123_4567));
    assert_eq!(dec.fragment, Some((2, 5)));
    assert_eq!(&dec.payload[..], b"hello dns tunnel");
}

#[test]
fn inner_decode_rejects_malformed() {
    assert!(matches!(Frame::decode(&[]), Err(FrameError::Truncated)));
    // Bad version.
    assert!(matches!(
        Frame::decode(&[9, Kind::Data.to_u8(), 0]),
        Err(FrameError::Version(9))
    ));
    // Unknown kind.
    assert!(matches!(
        Frame::decode(&[VERSION, 250, 0]),
        Err(FrameError::UnknownKind(250))
    ));
    // Undefined flag bit set.
    assert!(matches!(
        Frame::decode(&[VERSION, Kind::Data.to_u8(), 0b1000_0000]),
        Err(FrameError::UnknownFlags(_))
    ));
    // FLAG_SEQ set but the 4 seq bytes are missing.
    assert!(matches!(
        Frame::decode(&[VERSION, Kind::Data.to_u8(), FLAG_SEQ, 0, 0]),
        Err(FrameError::Truncated)
    ));
}

#[test]
fn data_packet_seal_parse_open_round_trips() {
    let aead = test_aead();
    let conn = random_conn_id().unwrap();
    let nonce = random_nonce().unwrap();
    let frame = Frame {
        kind: Kind::Data,
        stream_id: Some(7),
        seq: Some(42),
        fragment: None,
        comp_algo: None,
        payload: b"payload bytes".to_vec(),
    };
    let wire = seal_short(&aead, &conn, &nonce, &frame);
    assert_eq!(wire[0], FORM_SHORT);

    match parse_packet(&wire).unwrap() {
        Packet::Data {
            conn_id,
            nonce: n,
            ciphertext,
        } => {
            assert_eq!(conn_id, conn);
            assert_eq!(n, nonce);
            assert_eq!(open_frame(&aead, &n, ciphertext).unwrap(), frame);
        }
        other => panic!("expected Data, got {other:?}"),
    }
}

#[test]
fn syn_and_synack_round_trip() {
    let conn = random_conn_id().unwrap();
    let client_eph = [0x11u8; X25519_PUB_LEN];
    let server_eph = [0x22u8; X25519_PUB_LEN];
    let sig = [0x33u8; ED25519_SIG_LEN];

    let syn = build_syn(&conn, &client_eph);
    assert_eq!(syn[0], FORM_SYN);
    assert_eq!(
        parse_packet(&syn).unwrap(),
        Packet::Syn {
            conn_id: conn,
            client_eph
        }
    );

    let synack = build_synack(&conn, &server_eph, &sig);
    assert_eq!(synack[0], FORM_SYNACK);
    assert_eq!(
        parse_packet(&synack).unwrap(),
        Packet::SynAck {
            conn_id: conn,
            server_eph,
            sig
        }
    );
}

#[test]
fn open_rejects_tampered_ciphertext_and_nonce() {
    let aead = test_aead();
    let conn = random_conn_id().unwrap();
    let nonce = random_nonce().unwrap();
    let frame = {
        let mut f = Frame::new(Kind::Data);
        f.seq = Some(1);
        f.payload = b"abcd".to_vec();
        f
    };
    let mut wire = seal_short(&aead, &conn, &nonce, &frame);

    // Flip a ciphertext byte (last byte is in the tag region) → open fails.
    let last = wire.len() - 1;
    wire[last] ^= 0x01;
    if let Packet::Data {
        nonce, ciphertext, ..
    } = parse_packet(&wire).unwrap()
    {
        assert!(matches!(
            open_frame(&aead, &nonce, ciphertext),
            Err(FrameError::Crypto(_))
        ));
    } else {
        panic!("expected Data");
    }

    // Flip a nonce byte → open fails.
    let mut wire2 = seal_short(&aead, &conn, &nonce, &frame);
    wire2[1 + CONN_ID_LEN] ^= 0x01; // first nonce byte (after form + conn_id)
    if let Packet::Data {
        nonce, ciphertext, ..
    } = parse_packet(&wire2).unwrap()
    {
        assert!(matches!(
            open_frame(&aead, &nonce, ciphertext),
            Err(FrameError::Crypto(_))
        ));
    } else {
        panic!("expected Data");
    }
}

#[test]
fn parse_packet_rejects_bad_form_and_short_buffers() {
    // Unknown form byte.
    let mut buf = vec![0x09];
    buf.extend_from_slice(&[0u8; CONN_ID_LEN + NONCE_LEN + TAG_LEN]);
    assert!(matches!(parse_packet(&buf), Err(FrameError::BadForm(9))));
    // Truncated (no room for conn_id).
    assert!(matches!(
        parse_packet(&[FORM_SHORT, 1, 2, 3]),
        Err(FrameError::Truncated)
    ));
    // Data ciphertext shorter than a tag.
    let mut short = vec![FORM_SHORT];
    short.extend_from_slice(&[0u8; CONN_ID_LEN + NONCE_LEN]);
    short.extend_from_slice(&[0u8; TAG_LEN - 1]);
    assert!(matches!(parse_packet(&short), Err(FrameError::Truncated)));
    // Syn missing its ephemeral key.
    let mut syn_short = vec![FORM_SYN];
    syn_short.extend_from_slice(&[0u8; CONN_ID_LEN]);
    assert!(matches!(
        parse_packet(&syn_short),
        Err(FrameError::Truncated)
    ));
}

#[test]
fn frame_parsers_never_panic_on_random_input() {
    let aead = test_aead();
    let mut state = 0x0DDF_00D5_1234_5678u64;
    for len in 0..300usize {
        let mut buf = Vec::with_capacity(len);
        for _ in 0..len {
            state = state
                .wrapping_mul(6364136223846793005)
                .wrapping_add(1442695040888963407);
            buf.push((state >> 33) as u8);
        }
        let _ = Frame::decode(&buf);
        if let Ok(Packet::Data {
            nonce, ciphertext, ..
        }) = parse_packet(&buf)
        {
            let _ = open_frame(&aead, &nonce, ciphertext);
        }
    }
}

#[test]
fn every_kind_reads_back() {
    for v in 0..=255u8 {
        if let Some(k) = Kind::from_u8(v) {
            assert_eq!(k.to_u8(), v);
        }
    }
    assert_eq!(Kind::from_u8(250), None);
}

#[test]
fn every_packet_tells_its_connection() {
    let conn = [7u8; CONN_ID_LEN];
    let syn = build_syn(&conn, &[1u8; X25519_PUB_LEN]);
    assert_eq!(parse_packet(&syn).unwrap().conn_id(), conn);
}

#[test]
fn bytes_that_decode_encode_back() {
    for flags in 0..16u8 {
        let mut buf = vec![VERSION, 1, flags];
        buf.extend((0..20u8).map(|i| i.wrapping_mul(29).wrapping_add(7)));
        let f = Frame::decode(&buf).unwrap();
        assert_eq!(f.encode(), buf, "flags {flags}");
    }
}

#[test]
fn sealing_adds_the_same_length_whatever_the_frame() {
    let aead = test_aead();
    for len in [0usize, 1, 100, 70_000] {
        let mut f = Frame::new(Kind::Data);
        f.payload = vec![3; len];
        let wire = seal_short(&aead, &[1; CONN_ID_LEN], &[2; NONCE_LEN], &f);
        assert_eq!(wire.len(), wire_overhead() + f.encode().len());
        assert_eq!(wire_overhead(), 37);
    }
}
