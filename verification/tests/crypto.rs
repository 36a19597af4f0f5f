//! Keys, signatures and sealing.
use spark::tunnel::crypto::{
    array_drawn, base64_decode, base64_encode, decode_psk, decode_server_pub, derive_session_keys,
    derive_session_keys_ecdh, draw_result, fill_random, random_conn_id, random_nonce, random_salt,
    server_public_from_pkcs8, verify_server_sig, Aead, Cipher, CryptoError, Ephemeral,
    ServerStatic, CONN_ID_LEN, KEY_LEN, NONCE_LEN, SALT_LEN, TAG_LEN,
};
use spark::tunnel::server::exchange_with;
use spark::tunnel::session::nonce_drawn;

#[test]
fn decode_psk_accepts_valid_and_rejects_short_or_nonbase64() {
    // 32 'A' bytes, base64-encoded ("QUFB..." → 32 bytes of 0x41). 32 bytes / 3 → 44 b64 chars.
    let b64_32 = "QUFBQUFBQUFBQUFBQUFBQUFBQUFBQUFBQUFBQUFBQUE=";
    let psk = decode_psk(b64_32).unwrap();
    assert_eq!(psk.len(), 32);
    assert!(psk.iter().all(|&b| b == 0x41));
    // Too short (16 bytes) is rejected.
    assert!(matches!(
        decode_psk("QUFBQUFBQUFBQUFBQUFBQQ=="),
        Err(CryptoError::PskTooShort { got: 16, min: 32 })
    ));
    // Non-base64 is rejected.
    assert!(matches!(
        decode_psk("not valid base64 !!!"),
        Err(CryptoError::BadBase64)
    ));
}

#[test]
fn base64_decode_matches_known_vector() {
    // "Man" → "TWFu"; "hello world" → "aGVsbG8gd29ybGQ=".
    assert_eq!(base64_decode("TWFu").unwrap(), b"Man");
    assert_eq!(base64_decode("aGVsbG8gd29ybGQ=").unwrap(), b"hello world");
    assert!(base64_decode("").is_none());
}

#[test]
fn base64_encode_matches_and_round_trips() {
    assert_eq!(base64_encode(b"Man"), "TWFu");
    assert_eq!(base64_encode(b"hello world"), "aGVsbG8gd29ybGQ=");
    assert_eq!(base64_encode(b"Ma"), "TWE=");
    // Round-trips the key material shapes (32-byte pubkey, ~48-byte pkcs8).
    let pkcs8 = ServerStatic::generate().unwrap();
    assert_eq!(base64_decode(&base64_encode(&pkcs8)).unwrap(), pkcs8);
    let pubk = server_public_from_pkcs8(&pkcs8).unwrap();
    assert_eq!(decode_server_pub(&base64_encode(&pubk)).unwrap(), pubk);
}

#[test]
fn base64_ignores_white_space_around_and_refuses_it_inside() {
    assert_eq!(base64_decode("  TWFu\n").unwrap(), b"Man");
    assert!(base64_decode("TW Fu").is_none());
    assert!(base64_decode("TWF").is_none());
}

#[test]
fn a_public_key_of_the_wrong_length_is_refused() {
    assert_eq!(decode_server_pub("TWFu"), Err(CryptoError::BadKey));
    assert_eq!(decode_server_pub("?"), Err(CryptoError::BadBase64));
    assert_eq!(server_public_from_pkcs8(b"no key"), Err(CryptoError::BadKey));
}

#[test]
fn session_keys_are_deterministic_distinct_and_sensitive() {
    let psk = [7u8; 40];
    let salt = [9u8; SALT_LEN];
    let conn = [3u8; CONN_ID_LEN];

    let k1 = derive_session_keys(&psk, &salt, &conn);
    let k2 = derive_session_keys(&psk, &salt, &conn);
    assert_eq!(k1, k2, "deterministic in (psk, salt, conn_id)");

    // The three keys + commitment are independent.
    assert_ne!(k1.up, k1.down);
    assert_ne!(k1.up, k1.handshake);
    assert_ne!(k1.down, k1.handshake);

    // Changing the salt changes every key.
    let mut salt2 = salt;
    salt2[0] ^= 0xff;
    let k3 = derive_session_keys(&psk, &salt2, &conn);
    assert_ne!(k1.up, k3.up);
    assert_ne!(k1.down, k3.down);

    // Changing the ConnectionID changes every key.
    let mut conn2 = conn;
    conn2[0] ^= 0xff;
    let k4 = derive_session_keys(&psk, &salt, &conn2);
    assert_ne!(k1.up, k4.up);
}

#[test]
fn aead_round_trips_for_both_ciphers() {
    for cipher in [Cipher::ChaCha20Poly1305, Cipher::Aes256Gcm] {
        let key = [5u8; KEY_LEN];
        let aead = Aead::new(cipher, &key).unwrap();
        let nonce = [1u8; NONCE_LEN];
        let plain = b"the quick brown fox".to_vec();
        let mut buf = plain.clone();
        aead.seal(&nonce, &mut buf);
        assert_eq!(buf.len(), plain.len() + TAG_LEN);
        assert_ne!(&buf[..plain.len()], &plain[..], "sealed text is not the plain text");
        let opened = aead.open(&nonce, &mut buf).unwrap();
        assert_eq!(opened, &plain[..]);
    }
}

#[test]
fn aead_open_rejects_tamper_and_wrong_nonce() {
    let key = [5u8; KEY_LEN];
    let aead = Aead::new(Cipher::ChaCha20Poly1305, &key).unwrap();
    let nonce = [2u8; NONCE_LEN];
    let mut buf = b"secret".to_vec();
    aead.seal(&nonce, &mut buf);

    // Flip a ciphertext byte → auth failure.
    let mut tampered = buf.clone();
    tampered[0] ^= 0x80;
    assert!(matches!(
        aead.open(&nonce, &mut tampered),
        Err(CryptoError::Auth)
    ));

    // Wrong nonce → auth failure.
    let wrong = [3u8; NONCE_LEN];
    let mut buf2 = buf.clone();
    assert!(matches!(
        aead.open(&wrong, &mut buf2),
        Err(CryptoError::Auth)
    ));
}

#[test]
fn keys_from_derive_actually_decrypt() {
    // End-to-end: derive keys, seal with `up`, open with `up`.
    let psk = [0xABu8; 32];
    let salt = random_salt().unwrap();
    let conn = random_conn_id().unwrap();
    let keys = derive_session_keys(&psk, &salt, &conn);
    let up = Aead::new(Cipher::ChaCha20Poly1305, &keys.up).unwrap();
    let nonce = random_nonce().unwrap();
    let mut buf = b"uplink frame".to_vec();
    up.seal(&nonce, &mut buf);
    assert_eq!(up.open(&nonce, &mut buf).unwrap(), b"uplink frame");
}

#[test]
fn ecdh_handshake_agrees_and_derives_matching_keys() {
    // Client and server each make one ephemeral; ee must match on both sides, and the derived
    // session keys must be identical (so they can actually talk).
    let conn = [0x42u8; CONN_ID_LEN];
    let client_e = Ephemeral::generate().unwrap();
    let server_e = Ephemeral::generate().unwrap();
    let (e_pub, se_pub) = (client_e.public(), server_e.public());

    // transcript = client_eph_pub ‖ server_eph_pub ‖ conn_id (both sides build it identically).
    let mut transcript = Vec::new();
    transcript.extend_from_slice(&e_pub);
    transcript.extend_from_slice(&se_pub);
    transcript.extend_from_slice(&conn);

    let ee_client = client_e.agree(&se_pub).unwrap();
    let ee_server = server_e.agree(&e_pub).unwrap();
    assert_eq!(
        ee_client, ee_server,
        "both sides agree on the ephemeral secret"
    );

    let kc = derive_session_keys_ecdh(&ee_client, &transcript);
    let ks = derive_session_keys_ecdh(&ee_server, &transcript);
    assert_eq!(kc, ks, "identical session keys on both sides");
    assert_ne!(kc.up, kc.down, "directional keys are independent");

    // End-to-end: seal with the client's up key, open with the server's up key.
    let up_c = Aead::new(Cipher::ChaCha20Poly1305, &kc.up).unwrap();
    let up_s = Aead::new(Cipher::ChaCha20Poly1305, &ks.up).unwrap();
    let nonce = random_nonce().unwrap();
    let mut buf = b"forward-secret uplink".to_vec();
    up_c.seal(&nonce, &mut buf);
    assert_eq!(
        up_s.open(&nonce, &mut buf).unwrap(),
        b"forward-secret uplink"
    );
}

#[test]
fn distinct_ephemerals_give_distinct_keys() {
    // Forward secrecy hinges on the keys coming from the (ephemeral) secret, not any static input:
    // a fresh pair of ephemerals must yield different keys.
    let conn = [1u8; CONN_ID_LEN];
    let mk = || {
        let (c, s) = (
            Ephemeral::generate().unwrap(),
            Ephemeral::generate().unwrap(),
        );
        let (ep, sp) = (c.public(), s.public());
        let mut t = Vec::new();
        t.extend_from_slice(&ep);
        t.extend_from_slice(&sp);
        t.extend_from_slice(&conn);
        derive_session_keys_ecdh(&c.agree(&sp).unwrap(), &t)
    };
    assert_ne!(
        mk().up,
        mk().up,
        "each session's keys are unique to its ephemerals"
    );
}

#[test]
fn a_peer_key_that_gives_no_secret_is_refused() {
    // The point of order one gives the all-zero secret.
    let e = Ephemeral::generate().unwrap();
    assert_eq!(e.agree(&[0u8; 32]), Err(CryptoError::Agreement));
}

#[test]
fn server_signature_authenticates_and_rejects_tampering() {
    let pkcs8 = ServerStatic::generate().unwrap();
    let server = ServerStatic::from_pkcs8(&pkcs8).unwrap();
    let server_pub = server.public_key();
    assert_eq!(server_pub, server_public_from_pkcs8(&pkcs8).unwrap());

    let transcript = b"e_pub||se_pub||conn_id".to_vec();
    let sig = server.sign(&transcript);
    verify_server_sig(&server_pub, &transcript, &sig).expect("valid signature verifies");

    // Tampered transcript → reject.
    let mut bad = transcript.clone();
    bad[0] ^= 0xff;
    assert!(matches!(
        verify_server_sig(&server_pub, &bad, &sig),
        Err(CryptoError::BadSignature)
    ));
    // Wrong server key (MITM) → reject.
    let other = ServerStatic::from_pkcs8(&ServerStatic::generate().unwrap()).unwrap();
    assert!(matches!(
        verify_server_sig(&other.public_key(), &transcript, &sig),
        Err(CryptoError::BadSignature)
    ));
}

#[test]
fn random_helpers_are_sized_and_vary() {
    let a = random_nonce().unwrap();
    let b = random_nonce().unwrap();
    assert_eq!(a.len(), NONCE_LEN);
    assert_ne!(a, b, "two random nonces should differ (probabilistic)");
    assert_eq!(random_conn_id().unwrap().len(), CONN_ID_LEN);
    assert_eq!(random_salt().unwrap().len(), SALT_LEN);
    let mut buf = [0u8; 64];
    fill_random(&mut buf).unwrap();
    assert_ne!(buf, [0u8; 64], "a filled buffer is not all zero (probabilistic)");
}

#[test]
fn a_draw_is_handed_on_as_it_came() {
    assert_eq!(draw_result(true), Ok(()));
    assert_eq!(draw_result(false), Err(CryptoError::Rng));
    assert_eq!(array_drawn::<3>(Ok(()), &[1, 2, 3]), Ok([1, 2, 3]));
    assert_eq!(array_drawn::<3>(Err(CryptoError::Rng), &[1, 2, 3]), Err(CryptoError::Rng));
    let nonce = [7u8; NONCE_LEN];
    assert_eq!(nonce_drawn(Ok(nonce)), Some(nonce));
    assert_eq!(nonce_drawn(Err(CryptoError::Rng)), None);
    let mut buf = [0u8; 32];
    fill_random(&mut buf).unwrap();
    assert_ne!(buf, [0u8; 32], "32 random bytes are not all zero (probabilistic)");
}

#[test]
fn an_exchange_gives_both_sides_the_secret() {
    let client = Ephemeral::generate().unwrap();
    let server = Ephemeral::generate().unwrap();
    let server_public = server.public();
    let (public, secret) = exchange_with(server, &client.public()).unwrap();
    assert_eq!(public, server_public);
    assert_eq!(client.agree(&public).unwrap(), secret);
    // A point of small order gives no secret.
    assert!(exchange_with(Ephemeral::generate().unwrap(), &[0u8; 32]).is_none());
}

#[test]
fn base64_has_four_characters_for_three_bytes_begun() {
    for len in 1..40usize {
        let data: Vec<u8> = (0..len).map(|i| (i as u8).wrapping_mul(91)).collect();
        let text = base64_encode(&data);
        assert_eq!(text.len(), (len + 2) / 3 * 4);
        assert_eq!(base64_decode(&format!(" \t{text}\r\n")).unwrap(), data);
    }
}
