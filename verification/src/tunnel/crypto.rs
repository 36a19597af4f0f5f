//! Keys, signatures and sealing for the tunnel: the server's static Ed25519 identity, the
//! forward-secret X25519 handshake, the HKDF-SHA256 key schedule, the AEAD ciphers and secure
//! random values. The primitives are those of `ring`; what they compute has a name here, and the key
//! schedule and the codecs around them are stated over those names.
//!
//! Session keys derive only from the secret that the two ephemeral keys agree on. The server's static
//! key authenticates the handshake by signing its transcript and never enters the key schedule.
use ring::rand::SecureRandom;
use ring::signature::KeyPair;
use vstd::prelude::*;
use vstd::slice::slice_subrange;

use crate::text::{push_char, trim};
use crate::tunnel::bits::{bytes_of_symbols, read_bits};

verus! {

/// Sealing key length (bytes); both ciphers use 256-bit keys.
pub const KEY_LEN: usize = 32;

/// Nonce length (bytes).
pub const NONCE_LEN: usize = 12;

/// Authentication tag length (bytes).
pub const TAG_LEN: usize = 16;

/// Per-session salt length (bytes).
pub const SALT_LEN: usize = 16;

/// Connection id length (bytes): a wide random id that keys the server's session table.
pub const CONN_ID_LEN: usize = 8;

/// Key-commitment length (bytes).
pub const COMMIT_LEN: usize = 16;

/// Minimum accepted length of a decoded pre-shared key (bytes).
pub const MIN_PSK_LEN: usize = 32;

/// X25519 public-key length (bytes).
pub const X25519_PUB_LEN: usize = 32;

/// Ed25519 public-key length (bytes).
pub const ED25519_PUB_LEN: usize = 32;

/// Ed25519 signature length (bytes).
pub const ED25519_SIG_LEN: usize = 64;

/// The first segment of every HKDF info string.
pub open spec fn hkdf_base() -> Seq<u8> {
    seq![
        0x73u8, 0x70, 0x61, 0x72, 0x6b, 0x2d, 0x64, 0x6e, 0x73, 0x2d, 0x74, 0x75, 0x6e, 0x6e, 0x65,
        0x6c, 0x20, 0x76, 0x31,
    ]
}

/// Crypto errors.
#[derive(Debug, Clone, Copy, PartialEq, Eq, Structural)]
pub enum CryptoError {
    /// The configured key was not valid base64.
    BadBase64,
    /// The decoded pre-shared key was shorter than [`MIN_PSK_LEN`].
    PskTooShort {
        /// Its length.
        got: usize,
        /// The minimum.
        min: usize,
    },
    /// Opening failed: bad tag, tampered data, or the wrong key or nonce.
    Auth,
    /// Key setup failed.
    KeySetup,
    /// The secure random generator failed.
    Rng,
    /// A key was malformed or of the wrong length.
    BadKey,
    /// X25519 agreement failed: bad peer public key.
    Agreement,
    /// A signature did not verify: wrong server or tampered handshake.
    BadSignature,
}

/// The cipher of a session.
#[derive(Debug, Clone, Copy, PartialEq, Eq, Structural)]
pub enum Cipher {
    /// ChaCha20-Poly1305, the default.
    ChaCha20Poly1305,
    /// AES-256-GCM.
    Aes256Gcm,
}

// ---- base64 ----

/// The character that stands for a six-bit value.
pub open spec fn b64_char(v: int) -> u8 {
    if v < 26 {
        (0x41 + v) as u8
    } else if v < 52 {
        (0x61 + v - 26) as u8
    } else if v < 62 {
        (0x30 + v - 52) as u8
    } else if v == 62 {
        0x2b
    } else {
        0x2f
    }
}

/// The value of a base64 character, or `None`.
pub open spec fn b64_value(c: u8) -> Option<u8> {
    if 0x41 <= c <= 0x5a {
        Some((c - 0x41) as u8)
    } else if 0x61 <= c <= 0x7a {
        Some((c - 0x61 + 26) as u8)
    } else if 0x30 <= c <= 0x39 {
        Some((c - 0x30 + 52) as u8)
    } else if c == 0x2b {
        Some(62)
    } else if c == 0x2f {
        Some(63)
    } else {
        None
    }
}

/// The padding character.
pub const PAD: u8 = 0x3d;

/// The base64 text of `data`: one character for each group of six bits, the last group filled up
/// with zero bits, and padding up to a multiple of four characters.
#[verifier::opaque]
pub open spec fn b64_text(data: Seq<u8>) -> Seq<u8> {
    Seq::new(
        ((data.len() + 2) / 3 * 4) as nat,
        |i: int|
            if i < crate::tunnel::bits::group_count(data.len(), 6) {
                b64_char(crate::tunnel::bits::data_bits(data, 6 * i, 6))
            } else {
                PAD
            },
    )
}

/// Bytes as characters, one for one.
pub open spec fn as_chars(s: Seq<u8>) -> Seq<char> {
    Seq::new(s.len(), |i: int| s[i] as char)
}

/// Standard base64 encoding with padding.
pub fn base64_encode(data: &[u8]) -> (out: String)
    ensures
        out@ == as_chars(b64_text(data@)),
{
    reveal(b64_text);
    let count: u128 = (8 * data.len() as u128 + 5) / 6;
    let total: u128 = (data.len() as u128 + 2) / 3 * 4;
    let mut out: String = String::new();
    let mut i: u128 = 0;
    while i < total
        invariant
            b64_text(data@).len() == total,
            count == (8 * data.len() + 5) / 6,
            total == (data.len() + 2) / 3 * 4,
            data.len() <= usize::MAX,
            i <= total,
            out@.len() == i,
            forall|j: int| 0 <= j < i ==> #[trigger] out@[j] == b64_text(data@)[j] as char,
        decreases total - i,
    {
        reveal(b64_text);
        let c: u8 = if i < count {
            let v: u8 = read_bits(data, 6 * i, 6);
            proof {
                crate::tunnel::bits::lemma_data_bits_bound(data@, 6 * i, 6);
            }
            if v < 26 {
                0x41 + v
            } else if v < 52 {
                0x61 + (v - 26)
            } else if v < 62 {
                0x30 + (v - 52)
            } else if v == 62 {
                0x2b
            } else {
                0x2f
            }
        } else {
            PAD
        };
        push_char(&mut out, c as char);
        i = i + 1;
    }
    assert(out@ =~= as_chars(b64_text(data@)));
    out
}

/// How many padding characters end a group of four.
pub open spec fn b64_pad(group: Seq<u8>) -> int {
    if group[3] != PAD {
        0
    } else if group[2] != PAD {
        1
    } else if group[1] != PAD {
        2
    } else if group[0] != PAD {
        3
    } else {
        4
    }
}

/// The bytes of a group of four characters, or `None`: at most two characters of padding, and only
/// base64 characters in front of it.
#[verifier::opaque]
pub open spec fn b64_group(group: Seq<u8>) -> Option<Seq<u8>> {
    let pad = b64_pad(group);
    let symbols = group.subrange(0, 4 - pad);
    if pad <= 2 && (forall|i: int| 0 <= i < symbols.len() ==> b64_value(#[trigger] symbols[i]) is Some) {
        Some(
            crate::tunnel::bits::symbol_bytes(
                Seq::new(symbols.len(), |i: int| b64_value(symbols[i])->0),
                6,
            ),
        )
    } else {
        None
    }
}

/// The bytes of groups of four characters one after another, or `None`.
pub open spec fn b64_groups(s: Seq<u8>) -> Option<Seq<u8>>
    decreases s.len(),
{
    if s.len() < 4 {
        Some(Seq::empty())
    } else {
        match (b64_groups(s.subrange(0, s.len() - 4)), b64_group(s.subrange(s.len() - 4, s.len() as int))) {
            (Some(front), Some(last)) => Some(front + last),
            _ => None,
        }
    }
}

/// The bytes that base64 text stands for, or `None`: at least one group of four characters, and
/// whole groups only.
pub open spec fn b64_data(s: Seq<u8>) -> Option<Seq<u8>> {
    if s.len() == 0 || s.len() % 4 != 0 {
        None
    } else {
        b64_groups(s)
    }
}

/// The value of a base64 character, or `None`.
fn b64_val(c: u8) -> (v: Option<u8>)
    ensures
        v == b64_value(c),
{
    if 0x41 <= c && c <= 0x5a {
        Some(c - 0x41)
    } else if 0x61 <= c && c <= 0x7a {
        Some(c - 0x61 + 26)
    } else if 0x30 <= c && c <= 0x39 {
        Some(c - 0x30 + 52)
    } else if c == 0x2b {
        Some(62)
    } else if c == 0x2f {
        Some(63)
    } else {
        None
    }
}

/// The bytes of a group of four characters.
fn decode_group(group: &[u8]) -> (r: Option<Vec<u8>>)
    requires
        group.len() == 4,
    ensures
        match r {
            Some(v) => b64_group(group@) == Some(v@),
            None => b64_group(group@) is None,
        },
{
    reveal(b64_group);
    let pad: usize = if group[3] != PAD {
        0
    } else if group[2] != PAD {
        1
    } else if group[1] != PAD {
        2
    } else {
        return None;
    };
    let mut values: Vec<u8> = Vec::new();
    let mut i: usize = 0;
    let ghost symbols = group@.subrange(0, 4 - pad);
    while i < 4 - pad
        invariant
            group.len() == 4,
            pad <= 2,
            pad == b64_pad(group@),
            symbols == group@.subrange(0, 4 - pad),
            i <= 4 - pad,
            values@.len() == i,
            forall|j: int| 0 <= j < i ==> b64_value(#[trigger] symbols[j]) == Some(values@[j]),
        decreases 4 - pad - i,
    {
        reveal(b64_group);
        match b64_val(group[i]) {
            None => {
                assert(b64_value(symbols[i as int]) is None);
                return None;
            },
            Some(v) => {
                values.push(v);
            },
        }
        i = i + 1;
    }
    assert(values@ =~= Seq::new(symbols.len(), |j: int| b64_value(symbols[j])->0));
    Some(bytes_of_symbols(values.as_slice(), 6))
}

/// Standard base64 decoding with padding; white space around the text is ignored.
pub fn base64_decode(s: &str) -> (out: Option<Vec<u8>>)
    ensures
        match out {
            Some(v) => b64_data(vstd::utf8::encode_utf8(crate::text::trimmed(s@))) == Some(v@),
            None => b64_data(vstd::utf8::encode_utf8(crate::text::trimmed(s@))) is None,
        },
{
    let bytes: &[u8] = trim(s).as_bytes();
    if bytes.len() == 0 || bytes.len() % 4 != 0 {
        return None;
    }
    let mut out: Vec<u8> = Vec::new();
    let mut at: usize = 0;
    assert(bytes@.subrange(0, 0) =~= Seq::<u8>::empty());
    while at < bytes.len()
        invariant
            bytes@ == vstd::utf8::encode_utf8(crate::text::trimmed(s@)),
            bytes.len() > 0,
            at <= bytes.len(),
            at % 4 == 0,
            bytes.len() % 4 == 0,
            b64_groups(bytes@.subrange(0, at as int)) == Some(out@),
        decreases bytes.len() - at,
    {
        let group: &[u8] = slice_subrange(bytes, at, at + 4);
        proof {
            let upto = bytes@.subrange(0, at + 4);
            assert(upto.subrange(0, upto.len() - 4) =~= bytes@.subrange(0, at as int));
            assert(upto.subrange(upto.len() - 4, upto.len() as int) =~= group@);
        }
        match decode_group(group) {
            None => {
                proof {
                    lemma_bad_group(bytes@, at + 4);
                }
                return None;
            },
            Some(v) => {
                out.extend_from_slice(v.as_slice());
                assert(out@ =~= b64_groups(bytes@.subrange(0, at + 4))->0);
            },
        }
        at = at + 4;
    }
    assert(bytes@.subrange(0, at as int) =~= bytes@);
    Some(out)
}

/// Text with a bad group decodes to nothing.
proof fn lemma_bad_group(s: Seq<u8>, at: int)
    requires
        0 <= at <= s.len(),
        at % 4 == 0,
        s.len() % 4 == 0,
        b64_groups(s.subrange(0, at)) is None,
    ensures
        b64_groups(s) is None,
    decreases s.len() - at,
{
    if at == s.len() {
        assert(s.subrange(0, at) =~= s);
    } else {
        let upto = s.subrange(0, at + 4);
        assert(upto.subrange(0, upto.len() - 4) =~= s.subrange(0, at));
        lemma_bad_group(s, at + 4);
    }
}

proof fn lemma_data_bits_of_front(data: Seq<u8>, front: int, from: int, width: nat)
    requires
        0 <= front <= data.len(),
        0 <= from,
        from + width <= 8 * front,
    ensures
        crate::tunnel::bits::data_bits(data, from, width) == crate::tunnel::bits::data_bits(
            data.subrange(0, front),
            from,
            width,
        ),
    decreases width,
{
    if width > 0 {
        lemma_data_bits_of_front(data, front, from, (width - 1) as nat);
    }
}

proof fn lemma_data_bits_of_back(data: Seq<u8>, front: int, from: int, width: nat)
    requires
        0 <= front <= data.len(),
        0 <= from,
    ensures
        crate::tunnel::bits::data_bits(data, 8 * front + from, width)
            == crate::tunnel::bits::data_bits(
            data.subrange(front, data.len() as int),
            from,
            width,
        ),
    decreases width,
{
    if width > 0 {
        lemma_data_bits_of_back(data, front, from, (width - 1) as nat);
        let k = from + width - 1;
        assert((8 * front + k) / 8 == front + k / 8 && (8 * front + k) % 8 == k % 8);
    }
}

/// The last one to three bytes are encoded by themselves.
proof fn lemma_b64_append(data: Seq<u8>, front: int)
    requires
        0 <= front <= data.len(),
        front % 3 == 0,
    ensures
        b64_text(data) == b64_text(data.subrange(0, front)) + b64_text(
            data.subrange(front, data.len() as int),
        ),
{
    reveal(b64_text);
    let head = data.subrange(0, front);
    let tail = data.subrange(front, data.len() as int);
    let split = front / 3 * 4;
    assert(b64_text(head).len() == split);
    assert(b64_text(data).len() == split + b64_text(tail).len());
    assert forall|i: int| 0 <= i < b64_text(data).len() implies b64_text(data)[i] == (b64_text(head)
        + b64_text(tail))[i] by {
        if i < split {
            lemma_data_bits_of_front(data, front, 6 * i, 6);
        } else {
            let t = i - split;
            assert(6 * i == 8 * front + 6 * t);
            lemma_data_bits_of_back(data, front, 6 * t, 6);
        }
    }
    assert(b64_text(data) =~= b64_text(head) + b64_text(tail));
}

proof fn lemma_b64_char(v: int)
    requires
        0 <= v < 64,
    ensures
        b64_value(b64_char(v)) == Some(v as u8),
        b64_char(v) != PAD,
{
}

/// One to three bytes make one group that decodes to them.
proof fn lemma_b64_one_group(data: Seq<u8>)
    requires
        1 <= data.len() <= 3,
    ensures
        b64_text(data).len() == 4,
        b64_group(b64_text(data)) == Some(data),
{
    reveal(b64_text);
    reveal(b64_group);
    let text = b64_text(data);
    let n = crate::tunnel::bits::group_count(data.len(), 6) as int;
    assert(n == data.len() + 1);
    assert forall|i: int| 0 <= i < n implies b64_value(#[trigger] text[i]) == Some(
        crate::tunnel::bits::data_bits(data, 6 * i, 6) as u8,
    ) && text[i] != PAD by {
        crate::tunnel::bits::lemma_data_bits_bound(data, 6 * i, 6);
        lemma_b64_char(crate::tunnel::bits::data_bits(data, 6 * i, 6));
    }
    assert(b64_value(text[0]) is Some && b64_value(text[1]) is Some);
    assert(n > 2 ==> b64_value(text[2]) is Some);
    assert(n > 3 ==> b64_value(text[3]) is Some);
    assert(b64_pad(text) == 4 - n);
    let symbols = text.subrange(0, n);
    let values = Seq::new(symbols.len(), |i: int| b64_value(symbols[i])->0);
    assert forall|i: int| 0 <= i < values.len() implies #[trigger] values[i]
        == crate::tunnel::bits::data_bits(data, 6 * i, 6) by {
        assert(b64_value(text[i]) is Some);
        crate::tunnel::bits::lemma_data_bits_bound(data, 6 * i, 6);
    }
    assert forall|i: int| 0 <= i < symbols.len() implies b64_value(#[trigger] symbols[i]) is Some by {
        assert(b64_value(text[i]) is Some);
    }
    crate::tunnel::bits::lemma_spelled_bytes(values, 6, data);
}

proof fn lemma_b64_groups(data: Seq<u8>)
    ensures
        b64_groups(b64_text(data)) == Some(data),
    decreases data.len(),
{
    if data.len() == 0 {
        reveal(b64_text);
        assert(b64_text(data) =~= Seq::<u8>::empty());
        assert(data =~= Seq::<u8>::empty());
    } else {
        let front = (data.len() - 1) / 3 * 3;
        let head = data.subrange(0, front);
        let tail = data.subrange(front, data.len() as int);
        lemma_b64_append(data, front);
        lemma_b64_one_group(tail);
        lemma_b64_groups(head);
        lemma_groups_step(b64_text(head), b64_text(tail), head, tail);
        assert(head + tail =~= data);
    }
}

proof fn lemma_groups_step(
    front_text: Seq<u8>,
    last_text: Seq<u8>,
    front: Seq<u8>,
    last: Seq<u8>,
)
    requires
        last_text.len() == 4,
        b64_groups(front_text) == Some(front),
        b64_group(last_text) == Some(last),
    ensures
        b64_groups(front_text + last_text) == Some(front + last),
{
    let text = front_text + last_text;
    assert(text.subrange(0, text.len() - 4) =~= front_text);
    assert(text.subrange(text.len() - 4, text.len() as int) =~= last_text);
}

proof fn lemma_b64_text_is_plain(data: Seq<u8>)
    ensures
        forall|i: int|
            0 <= i < b64_text(data).len() ==> 0x21 <= #[trigger] b64_text(data)[i] <= 0x7e,
{
    reveal(b64_text);
    assert forall|i: int| 0 <= i < b64_text(data).len() implies 0x21 <= #[trigger] b64_text(
        data,
    )[i] <= 0x7e by {
        crate::tunnel::bits::lemma_data_bits_bound(data, 6 * i, 6);
    }
}

/// Printable ASCII text, with white space around it that is trimmed, is its own UTF-8 encoding.
proof fn lemma_plain_text(before: Seq<char>, text: Seq<u8>, after: Seq<char>)
    requires
        text.len() > 0,
        forall|i: int| 0 <= i < text.len() ==> 0x21 <= #[trigger] text[i] <= 0x7e,
        forall|i: int| 0 <= i < before.len() ==> crate::text::white_space(#[trigger] before[i]),
        forall|i: int| 0 <= i < after.len() ==> crate::text::white_space(#[trigger] after[i]),
    ensures
        vstd::utf8::encode_utf8(crate::text::trimmed(before + as_chars(text) + after)) == text,
{
    let chars = as_chars(text);
    assert(0x21 <= text[0] <= 0x7e);
    assert(0x21 <= text[text.len() - 1] <= 0x7e);
    assert(!crate::text::white_space(chars[0]));
    assert(!crate::text::white_space(chars[chars.len() - 1]));
    crate::text::lemma_trimmed_around(before, chars, after);
    assert forall|i| 0 <= i < chars.len() implies '\0' <= #[trigger] chars[i] <= '\u{7f}' by {
        assert(0x21 <= text[i] <= 0x7e);
    }
    vstd::utf8::is_ascii_chars_encode_utf8(chars);
    assert forall|i: int| 0 <= i < text.len() implies vstd::utf8::encode_utf8(chars)[i] == text[i] by {
        assert(0x21 <= text[i] <= 0x7e);
        assert(chars[i] as u8 == text[i]);
    }
    assert(vstd::utf8::encode_utf8(chars) =~= text);
}

/// Base64 text has four characters for every three bytes begun, and decodes to the bytes it was made
/// from, whatever white space stands before and after it; only the empty text does not decode.
pub proof fn lemma_base64_round_trip(data: Seq<u8>, before: Seq<char>, after: Seq<char>)
    requires
        data.len() > 0,
        forall|i: int| 0 <= i < before.len() ==> crate::text::white_space(#[trigger] before[i]),
        forall|i: int| 0 <= i < after.len() ==> crate::text::white_space(#[trigger] after[i]),
    ensures
        b64_text(data).len() == (data.len() + 2) / 3 * 4,
        b64_data(
            vstd::utf8::encode_utf8(
                crate::text::trimmed(before + as_chars(b64_text(data)) + after),
            ),
        ) == Some(data),
{
    lemma_b64_text_is_plain(data);
    lemma_b64_groups(data);
    assert(b64_text(data).len() == (data.len() + 2) / 3 * 4) by {
        reveal(b64_text);
    }
    lemma_plain_text(before, b64_text(data), after);
}

// ---- keys given as base64 ----

/// Decodes a base64 pre-shared key and checks that it holds at least [`MIN_PSK_LEN`] bytes.
pub fn decode_psk(b64: &str) -> (r: Result<Vec<u8>, CryptoError>)
    ensures
        match b64_data(vstd::utf8::encode_utf8(crate::text::trimmed(b64@))) {
            None => r == Err::<Vec<u8>, CryptoError>(CryptoError::BadBase64),
            Some(data) => if data.len() < MIN_PSK_LEN {
                r == Err::<Vec<u8>, CryptoError>(
                    (CryptoError::PskTooShort { got: data.len() as usize, min: MIN_PSK_LEN }),
                )
            } else {
                r matches Ok(psk) && psk@ == data
            },
        },
{
    match base64_decode(b64) {
        None => Err(CryptoError::BadBase64),
        Some(psk) => {
            if psk.len() < MIN_PSK_LEN {
                Err(CryptoError::PskTooShort { got: psk.len(), min: MIN_PSK_LEN })
            } else {
                Ok(psk)
            }
        },
    }
}

/// The first `N` bytes of a vector.
pub(crate) fn array_of<const N: usize>(v: &[u8]) -> (a: [u8; N])
    requires
        v.len() >= N,
    ensures
        a@ == v@.subrange(0, N as int),
{
    let mut a: [u8; N] = [0u8; N];
    let mut i: usize = 0;
    while i < N
        invariant
            v.len() >= N,
            i <= N,
            forall|j: int| 0 <= j < i ==> a@[j] == #[trigger] v@[j],
        decreases N - i,
    {
        a[i] = v[i];
        i = i + 1;
    }
    assert(a@ =~= v@.subrange(0, N as int));
    a
}

/// Decodes a base64 server public key.
pub fn decode_server_pub(b64: &str) -> (r: Result<[u8; ED25519_PUB_LEN], CryptoError>)
    ensures
        match b64_data(vstd::utf8::encode_utf8(crate::text::trimmed(b64@))) {
            None => r == Err::<[u8; ED25519_PUB_LEN], CryptoError>(CryptoError::BadBase64),
            Some(data) => if data.len() != ED25519_PUB_LEN {
                r == Err::<[u8; ED25519_PUB_LEN], CryptoError>(CryptoError::BadKey)
            } else {
                r matches Ok(key) && key@ == data
            },
        },
{
    match base64_decode(b64) {
        None => Err(CryptoError::BadBase64),
        Some(raw) => {
            if raw.len() != ED25519_PUB_LEN {
                Err(CryptoError::BadKey)
            } else {
                let key: [u8; ED25519_PUB_LEN] = array_of::<ED25519_PUB_LEN>(raw.as_slice());
                assert(raw@.subrange(0, ED25519_PUB_LEN as int) =~= raw@);
                Ok(key)
            }
        },
    }
}

// ---- the key schedule ----

/// What `ring`'s HKDF-SHA256 (extract with `salt`, then expand with `info`) gives as its first 32
/// bytes.
pub uninterp spec fn hkdf_sha256_of(salt: Seq<u8>, secret: Seq<u8>, info: Seq<u8>) -> Seq<u8>;

/// `ring::hkdf`: `Salt::extract`, `Prk::expand` and `Okm::fill` with SHA-256 and 32 bytes of output.
/// The output depends on the salt, the secret and the info alone. Expanding to fewer bytes gives a
/// prefix of it.
#[verifier::external_body]
fn hkdf_sha256(salt: &[u8], secret: &[u8], info: &[u8]) -> (out: [u8; KEY_LEN])
    requires
        salt@.len() < 0x1000_0000_0000_0000,
        secret@.len() < 0x1000_0000_0000_0000,
        info@.len() < 0x1000_0000_0000_0000,
    ensures
        out@ == hkdf_sha256_of(salt@, secret@, info@),
{
    let prk = ring::hkdf::Salt::new(ring::hkdf::HKDF_SHA256, salt).extract(secret);
    let mut out = [0u8; KEY_LEN];
    prk.expand(&[info], ring::hkdf::HKDF_SHA256)
        .and_then(|okm| okm.fill(&mut out))
        .expect("32 bytes are within the HKDF limit");
    out
}

/// The role segments of the HKDF info string.
pub open spec fn role_up() -> Seq<u8> {
    seq![0x20u8, 0x75, 0x70]
}

/// The role segments of the HKDF info string.
pub open spec fn role_down() -> Seq<u8> {
    seq![0x20u8, 0x64, 0x6f, 0x77, 0x6e]
}

/// The role segments of the HKDF info string.
pub open spec fn role_handshake() -> Seq<u8> {
    seq![0x20u8, 0x68, 0x73]
}

/// The role segments of the HKDF info string.
pub open spec fn role_commit() -> Seq<u8> {
    seq![0x20u8, 0x63, 0x6f, 0x6d, 0x6d, 0x69, 0x74]
}

/// The key material of a session.
#[derive(Debug, Clone, PartialEq, Eq)]
pub struct SessionKeys {
    /// Client to server key.
    pub up: [u8; KEY_LEN],
    /// Server to client key.
    pub down: [u8; KEY_LEN],
    /// Handshake key.
    pub handshake: [u8; KEY_LEN],
    /// Key commitment.
    pub commit: [u8; COMMIT_LEN],
}

/// The key material that a salt, a secret and the end of the info string give.
pub open spec fn keys_from(keys: SessionKeys, salt: Seq<u8>, secret: Seq<u8>, tail: Seq<u8>) -> bool {
    &&& keys.up@ == hkdf_sha256_of(salt, secret, hkdf_base() + role_up() + tail)
    &&& keys.down@ == hkdf_sha256_of(salt, secret, hkdf_base() + role_down() + tail)
    &&& keys.handshake@ == hkdf_sha256_of(salt, secret, hkdf_base() + role_handshake() + tail)
    &&& keys.commit@ == hkdf_sha256_of(salt, secret, hkdf_base() + role_commit() + tail).subrange(
        0,
        COMMIT_LEN as int,
    )
}

/// Appends the first segment of every info string.
fn put_base(out: &mut Vec<u8>)
    ensures
        final(out)@ == old(out)@ + hkdf_base(),
{
    let base: [u8; 19] = [
        0x73u8, 0x70, 0x61, 0x72, 0x6b, 0x2d, 0x64, 0x6e, 0x73, 0x2d, 0x74, 0x75, 0x6e, 0x6e, 0x65,
        0x6c, 0x20, 0x76, 0x31,
    ];
    out.extend_from_slice(base.as_slice());
    assert(base@ =~= hkdf_base());
    assert(out@ =~= old(out)@ + hkdf_base());
}

/// Expands one key: the base segment, the role and the tail make the info string.
fn expand(salt: &[u8], secret: &[u8], role: &[u8], tail: &[u8]) -> (out: [u8; KEY_LEN])
    requires
        salt@.len() < 0x1000_0000_0000_0000,
        secret@.len() < 0x1000_0000_0000_0000,
        role@.len() <= 16,
        tail@.len() <= 16,
    ensures
        out@ == hkdf_sha256_of(salt@, secret@, hkdf_base() + role@ + tail@),
{
    let mut info: Vec<u8> = Vec::new();
    put_base(&mut info);
    info.extend_from_slice(role);
    info.extend_from_slice(tail);
    assert(info@ =~= hkdf_base() + role@ + tail@);
    hkdf_sha256(salt, secret, info.as_slice())
}

/// Expands the four values of a session.
fn expand_all(salt: &[u8], secret: &[u8], tail: &[u8]) -> (keys: SessionKeys)
    requires
        salt@.len() < 0x1000_0000_0000_0000,
        secret@.len() < 0x1000_0000_0000_0000,
        tail@.len() <= 16,
    ensures
        keys_from(keys, salt@, secret@, tail@),
{
    let r_up: [u8; 3] = [0x20u8, 0x75, 0x70];
    let r_down: [u8; 5] = [0x20u8, 0x64, 0x6f, 0x77, 0x6e];
    let r_hs: [u8; 3] = [0x20u8, 0x68, 0x73];
    let r_commit: [u8; 7] = [0x20u8, 0x63, 0x6f, 0x6d, 0x6d, 0x69, 0x74];
    assert(r_up@ =~= role_up());
    assert(r_down@ =~= role_down());
    assert(r_hs@ =~= role_handshake());
    assert(r_commit@ =~= role_commit());
    let commit: [u8; KEY_LEN] = expand(salt, secret, r_commit.as_slice(), tail);
    SessionKeys {
        up: expand(salt, secret, r_up.as_slice(), tail),
        down: expand(salt, secret, r_down.as_slice(), tail),
        handshake: expand(salt, secret, r_hs.as_slice(), tail),
        commit: array_of::<COMMIT_LEN>(commit.as_slice()),
    }
}

/// Derives the keys of a session from a pre-shared key, a session salt and the connection id.
pub fn derive_session_keys(
    psk: &[u8],
    salt: &[u8; SALT_LEN],
    conn_id: &[u8; CONN_ID_LEN],
) -> (keys: SessionKeys)
    requires
        psk@.len() < 0x1000_0000_0000_0000,
    ensures
        keys_from(keys, salt@, psk@, conn_id@),
{
    expand_all(salt.as_slice(), psk, conn_id.as_slice())
}

/// Derives the keys of a session from the secret that the two ephemeral keys agreed on, with the
/// handshake transcript as the salt.
pub fn derive_session_keys_ecdh(ee: &[u8], transcript: &[u8]) -> (keys: SessionKeys)
    requires
        ee@.len() < 0x1000_0000_0000_0000,
        transcript@.len() < 0x1000_0000_0000_0000,
    ensures
        keys_from(keys, transcript@, ee@, Seq::empty()),
{
    let none: Vec<u8> = Vec::new();
    expand_all(transcript, ee, none.as_slice())
}

/// The same secret and the same transcript give both sides the same keys.
pub proof fn lemma_same_secret_same_keys(
    a: SessionKeys,
    b: SessionKeys,
    transcript: Seq<u8>,
    secret: Seq<u8>,
    tail: Seq<u8>,
)
    requires
        keys_from(a, transcript, secret, tail),
        keys_from(b, transcript, secret, tail),
    ensures
        a.up@ == b.up@,
        a.down@ == b.down@,
        a.handshake@ == b.handshake@,
        a.commit@ == b.commit@,
{
}

// ---- the server's identity ----

/// The public key of an Ed25519 key pair in PKCS#8 form, or `None` where `ring` rejects it.
pub uninterp spec fn ed25519_public_of(pkcs8: Seq<u8>) -> Option<Seq<u8>>;

/// The Ed25519 signature of a message under a key pair in PKCS#8 form.
pub uninterp spec fn ed25519_sign_of(pkcs8: Seq<u8>, msg: Seq<u8>) -> Seq<u8>;

/// Whether an Ed25519 signature of a message verifies under a public key.
pub uninterp spec fn ed25519_verify_of(public: Seq<u8>, msg: Seq<u8>, sig: Seq<u8>) -> bool;

/// `ring::signature::Ed25519KeyPair::generate_pkcs8` with the system generator: a fresh key pair in
/// PKCS#8 form, which `from_pkcs8` accepts, or nothing where the generator fails.
#[verifier::external_body]
fn ed25519_generate() -> (r: Option<Vec<u8>>)
    ensures
        r matches Some(pkcs8) ==> ed25519_public_of(pkcs8@) is Some,
{
    let rng = ring::rand::SystemRandom::new();
    let doc = ring::signature::Ed25519KeyPair::generate_pkcs8(&rng).ok()?;
    Some(doc.as_ref().to_vec())
}

/// `ring::signature::Ed25519KeyPair::from_pkcs8` and `public_key`: the 32-byte public key, or nothing
/// where the key pair is rejected.
#[verifier::external_body]
fn ed25519_public(pkcs8: &[u8]) -> (r: Option<[u8; ED25519_PUB_LEN]>)
    ensures
        match r {
            Some(key) => ed25519_public_of(pkcs8@) == Some(key@),
            None => ed25519_public_of(pkcs8@) is None,
        },
{
    let pair = ring::signature::Ed25519KeyPair::from_pkcs8(pkcs8).ok()?;
    pair.public_key().as_ref().try_into().ok()
}

/// `ring::signature::Ed25519KeyPair::sign` with a key pair that `from_pkcs8` accepts: the 64-byte
/// signature, which verifies under the pair's public key.
#[verifier::external_body]
fn ed25519_sign(pkcs8: &[u8], msg: &[u8]) -> (sig: [u8; ED25519_SIG_LEN])
    requires
        ed25519_public_of(pkcs8@) is Some,
        msg@.len() < 0x1000_0000_0000_0000,
    ensures
        sig@ == ed25519_sign_of(pkcs8@, msg@),
        ed25519_verify_of(ed25519_public_of(pkcs8@)->0, msg@, sig@),
{
    let pair = ring::signature::Ed25519KeyPair::from_pkcs8(pkcs8).expect("an accepted key pair");
    pair.sign(msg).as_ref().try_into().expect("64 bytes")
}

/// `ring::signature::UnparsedPublicKey::verify` with Ed25519.
#[verifier::external_body]
fn ed25519_verify(public: &[u8], msg: &[u8], sig: &[u8]) -> (ok: bool)
    requires
        msg@.len() < 0x1000_0000_0000_0000,
    ensures
        ok == ed25519_verify_of(public@, msg@, sig@),
{
    let key = ring::signature::UnparsedPublicKey::new(&ring::signature::ED25519, public);
    key.verify(msg, sig).is_ok()
}

/// The server's static identity (Ed25519): loaded once, signs every handshake.
pub struct ServerStatic {
    pkcs8: Vec<u8>,
    public: [u8; ED25519_PUB_LEN],
}

impl ServerStatic {
    /// The key pair in PKCS#8 form.
    pub closed spec fn key_pair(&self) -> Seq<u8> {
        self.pkcs8@
    }

    /// The key pair is one that `ring` accepts, and the public key is its own.
    pub closed spec fn wf(&self) -> bool {
        ed25519_public_of(self.pkcs8@) == Some(self.public@)
    }

    /// The key pair of an identity has a public key.
    pub proof fn lemma_wf(&self)
        requires
            self.wf(),
        ensures
            ed25519_public_of(self.key_pair()) is Some,
    {
    }

    /// Generates a fresh identity in PKCS#8 form. Fails only where the generator fails.
    pub fn generate() -> (r: Result<Vec<u8>, CryptoError>)
        ensures
            match r {
                Ok(pkcs8) => ed25519_public_of(pkcs8@) is Some,
                Err(e) => e == CryptoError::Rng,
            },
    {
        match ed25519_generate() {
            Some(pkcs8) => Ok(pkcs8),
            None => Err(CryptoError::Rng),
        }
    }

    /// Loads an identity from PKCS#8 form.
    pub fn from_pkcs8(pkcs8: &[u8]) -> (r: Result<ServerStatic, CryptoError>)
        ensures
            match r {
                Ok(server) => {
                    &&& server.wf()
                    &&& server.key_pair() == pkcs8@
                    &&& ed25519_public_of(pkcs8@) is Some
                },
                Err(e) => e == CryptoError::BadKey && ed25519_public_of(pkcs8@) is None,
            },
    {
        match ed25519_public(pkcs8) {
            Some(public) => Ok(ServerStatic { pkcs8: vstd::slice::slice_to_vec(pkcs8), public }),
            None => Err(CryptoError::BadKey),
        }
    }

    /// The public key, to be handed to clients.
    pub fn public_key(&self) -> (key: [u8; ED25519_PUB_LEN])
        requires
            self.wf(),
        ensures
            ed25519_public_of(self.key_pair()) == Some(key@),
    {
        self.public
    }

    /// Signs a handshake transcript.
    pub fn sign(&self, msg: &[u8]) -> (sig: [u8; ED25519_SIG_LEN])
        requires
            self.wf(),
            msg@.len() < 0x1000_0000_0000_0000,
        ensures
            sig@ == ed25519_sign_of(self.key_pair(), msg@),
            ed25519_verify_of(ed25519_public_of(self.key_pair())->0, msg@, sig@),
    {
        ed25519_sign(self.pkcs8.as_slice(), msg)
    }
}

/// The public key of a server identity in PKCS#8 form.
pub fn server_public_from_pkcs8(pkcs8: &[u8]) -> (r: Result<[u8; ED25519_PUB_LEN], CryptoError>)
    ensures
        match r {
            Ok(key) => ed25519_public_of(pkcs8@) == Some(key@),
            Err(e) => e == CryptoError::BadKey && ed25519_public_of(pkcs8@) is None,
        },
{
    match ServerStatic::from_pkcs8(pkcs8) {
        Ok(server) => Ok(server.public_key()),
        Err(e) => Err(e),
    }
}

/// Verifies a server's handshake signature against its public key.
pub fn verify_server_sig(server_pub: &[u8; ED25519_PUB_LEN], msg: &[u8], sig: &[u8]) -> (r: Result<
    (),
    CryptoError,
>)
    requires
        msg@.len() < 0x1000_0000_0000_0000,
    ensures
        r == if ed25519_verify_of(server_pub@, msg@, sig@) {
            Ok::<(), CryptoError>(())
        } else {
            Err(CryptoError::BadSignature)
        },
{
    if ed25519_verify(server_pub.as_slice(), msg, sig) {
        Ok(())
    } else {
        Err(CryptoError::BadSignature)
    }
}

// ---- ephemeral keys ----

/// `ring`'s single-use X25519 private key, carried through as it is.
#[verifier::external_type_specification]
#[verifier::external_body]
pub struct ExEphemeralPrivateKey(ring::agreement::EphemeralPrivateKey);

/// The public key that `ring::agreement::EphemeralPrivateKey::compute_public_key` gives.
pub uninterp spec fn x25519_public_of(key: ring::agreement::EphemeralPrivateKey) -> Seq<u8>;

/// The secret that `ring::agreement::agree_ephemeral` gives with X25519, if it gives one.
pub uninterp spec fn x25519_secret_of(
    key: ring::agreement::EphemeralPrivateKey,
    peer: Seq<u8>,
) -> Option<Seq<u8>>;

/// `ring::agreement::EphemeralPrivateKey::generate` and `compute_public_key` with the system
/// generator: a private key and its public key. The key is random, so nothing is said of which one comes
/// back.
#[verifier::external_body]
fn x25519_generate() -> (r: Option<
    (ring::agreement::EphemeralPrivateKey, [u8; X25519_PUB_LEN]),
>)
    ensures
        r matches Some((private, public)) ==> public@ == x25519_public_of(private),
{
    let rng = ring::rand::SystemRandom::new();
    let alg = &ring::agreement::X25519;
    let private = ring::agreement::EphemeralPrivateKey::generate(alg, &rng).ok()?;
    let public = private.compute_public_key().ok()?.as_ref().try_into().ok()?;
    Some((private, public))
}

/// `ring::agreement::agree_ephemeral` with X25519: the 32-byte shared secret, or nothing where the
/// peer's key is rejected. It depends on the two keys alone. Whoever holds the private key of the peer's
/// public key gets the same secret with the public key of this one.
#[verifier::external_body]
fn x25519_agree(private: ring::agreement::EphemeralPrivateKey, peer: &[u8; X25519_PUB_LEN]) -> (r:
    Option<[u8; 32]>)
    ensures
        match r {
            Some(secret) => x25519_secret_of(private, peer@) == Some(secret@),
            None => x25519_secret_of(private, peer@) is None,
        },
        r matches Some(secret) ==> shared_by(peer@, x25519_public_of(private), secret@),
{
    let peer = ring::agreement::UnparsedPublicKey::new(&ring::agreement::X25519, peer);
    ring::agreement::agree_ephemeral(private, &peer, |shared| shared.try_into().ok()).ok()?
}

/// Whether whoever holds the private key of the public key `holder` gets `secret` with `other`.
pub open spec fn shared_by(holder: Seq<u8>, other: Seq<u8>, secret: Seq<u8>) -> bool {
    forall|key: ring::agreement::EphemeralPrivateKey| #[trigger]
        x25519_public_of(key) == holder ==> x25519_secret_of(key, other) == Some(secret)
}

/// An exchange with the holder of `peer`: `public` belongs to a private key that agrees with `peer` on
/// `secret`, and the holder of `peer` gets the same secret.
pub open spec fn exchanged(peer: Seq<u8>, public: Seq<u8>, secret: Seq<u8>) -> bool {
    &&& exists|key: ring::agreement::EphemeralPrivateKey| #[trigger]
        x25519_public_of(key) == public && x25519_secret_of(key, peer) == Some(secret)
    &&& shared_by(peer, public, secret)
}

/// One ephemeral X25519 key for exactly one agreement. Both sides make one for each session.
pub struct Ephemeral {
    private: ring::agreement::EphemeralPrivateKey,
    public: [u8; X25519_PUB_LEN],
}

impl Ephemeral {
    /// The private key.
    pub closed spec fn key(&self) -> ring::agreement::EphemeralPrivateKey {
        self.private
    }

    #[verifier::type_invariant]
    spec fn belongs(self) -> bool {
        self.public@ == x25519_public_of(self.private)
    }

    /// Generates a fresh key. Fails only where the generator fails.
    pub fn generate() -> (r: Result<Ephemeral, CryptoError>)
        ensures
            r matches Err(e) ==> e == CryptoError::Rng,
    {
        match x25519_generate() {
            Some((private, public)) => Ok(Ephemeral { private, public }),
            None => Err(CryptoError::Rng),
        }
    }

    /// The public key, to be sent.
    pub fn public(&self) -> (key: [u8; X25519_PUB_LEN])
        ensures
            key@ == x25519_public_of(self.key()),
    {
        proof {
            use_type_invariant(self);
        }
        self.public
    }

    /// Agrees with the peer's public key on a shared secret and consumes this key. The peer gets the same
    /// secret with the public key of this one.
    pub fn agree(self, peer_public: &[u8; X25519_PUB_LEN]) -> (r: Result<[u8; 32], CryptoError>)
        ensures
            match r {
                Ok(secret) => {
                    &&& x25519_secret_of(self.key(), peer_public@) == Some(secret@)
                    &&& shared_by(peer_public@, x25519_public_of(self.key()), secret@)
                },
                Err(e) => e == CryptoError::Agreement && x25519_secret_of(
                    self.key(),
                    peer_public@,
                ) is None,
            },
    {
        match x25519_agree(self.private, peer_public) {
            Some(secret) => Ok(secret),
            None => Err(CryptoError::Agreement),
        }
    }
}

// ---- sealing ----

/// What sealing `plain` gives: the ciphertext and its tag.
pub uninterp spec fn aead_seal_of(
    aes: bool,
    key: Seq<u8>,
    nonce: Seq<u8>,
    plain: Seq<u8>,
) -> Seq<u8>;

/// What opening `sealed` gives, or `None` where its tag does not fit.
pub uninterp spec fn aead_open_of(
    aes: bool,
    key: Seq<u8>,
    nonce: Seq<u8>,
    sealed: Seq<u8>,
) -> Option<Seq<u8>>;

/// `ring::aead::UnboundKey::new` with ChaCha20-Poly1305 or AES-256-GCM accepts exactly the keys of 32
/// bytes.
#[verifier::external_body]
fn aead_accepts(aes: bool, key: &[u8]) -> (ok: bool)
    ensures
        ok == (key@.len() == KEY_LEN),
{
    let alg = if aes { &ring::aead::AES_256_GCM } else { &ring::aead::CHACHA20_POLY1305 };
    ring::aead::UnboundKey::new(alg, key).is_ok()
}

/// The longest plaintext that a cipher seals under one nonce.
pub open spec fn seal_limit(aes: bool) -> int {
    if aes {
        68_719_476_704
    } else {
        274_877_906_880
    }
}

/// `ring::aead::LessSafeKey::seal_in_place_append_tag` without associated data: the plaintext becomes
/// ciphertext and tag. The result depends on cipher, key, nonce and plaintext alone, is a tag longer
/// than the plaintext, and opens to the plaintext under the same cipher, key and nonce.
#[verifier::external_body]
fn aead_seal(aes: bool, key: &[u8; KEY_LEN], nonce: &[u8; NONCE_LEN], buf: &mut Vec<u8>)
    requires
        old(buf)@.len() <= seal_limit(aes),
    ensures
        final(buf)@ == aead_seal_of(aes, key@, nonce@, old(buf)@),
        final(buf)@.len() == old(buf)@.len() + TAG_LEN,
        aead_open_of(aes, key@, nonce@, final(buf)@) == Some(old(buf)@),
{
    let alg = if aes { &ring::aead::AES_256_GCM } else { &ring::aead::CHACHA20_POLY1305 };
    let key = ring::aead::UnboundKey::new(alg, key).expect("a 32-byte key");
    let nonce = ring::aead::Nonce::assume_unique_for_key(*nonce);
    ring::aead::LessSafeKey::new(key)
        .seal_in_place_append_tag(nonce, ring::aead::Aad::empty(), buf)
        .expect("an input within the cipher's limit");
}

/// `ring::aead::LessSafeKey::open_in_place` without associated data: the plaintext of ciphertext and
/// tag, or nothing where the tag does not fit. The result depends on cipher, key, nonce and input
/// alone; the plaintext is a tag shorter than the input.
#[verifier::external_body]
fn aead_open<'a>(
    aes: bool,
    key: &[u8; KEY_LEN],
    nonce: &[u8; NONCE_LEN],
    buf: &'a mut [u8],
) -> (r: Option<&'a [u8]>)
    ensures
        match r {
            Some(plain) => {
                &&& aead_open_of(aes, key@, nonce@, old(buf)@) == Some(plain@)
                &&& plain@.len() + TAG_LEN == old(buf)@.len()
            },
            None => aead_open_of(aes, key@, nonce@, old(buf)@) is None,
        },
{
    let alg = if aes { &ring::aead::AES_256_GCM } else { &ring::aead::CHACHA20_POLY1305 };
    let key = ring::aead::UnboundKey::new(alg, key).expect("a 32-byte key");
    let nonce = ring::aead::Nonce::assume_unique_for_key(*nonce);
    let key = ring::aead::LessSafeKey::new(key);
    let plain = key.open_in_place(nonce, ring::aead::Aad::empty(), buf).ok()?;
    Some(plain)
}

/// What sealing `plain` under a cipher and a key gives.
pub open spec fn sealed_under(
    cipher: Cipher,
    key: Seq<u8>,
    nonce: Seq<u8>,
    plain: Seq<u8>,
) -> Seq<u8> {
    aead_seal_of(cipher == Cipher::Aes256Gcm, key, nonce, plain)
}

/// What opening `sealed` under a cipher and a key gives.
pub open spec fn opened_under(
    cipher: Cipher,
    key: Seq<u8>,
    nonce: Seq<u8>,
    sealed: Seq<u8>,
) -> Option<Seq<u8>> {
    aead_open_of(cipher == Cipher::Aes256Gcm, key, nonce, sealed)
}

/// A cipher with its key. The caller gives a fresh nonce for every message.
pub struct Aead {
    cipher: Cipher,
    key: [u8; KEY_LEN],
}

impl Aead {
    /// What sealing `plain` gives.
    pub open spec fn sealed(&self, nonce: Seq<u8>, plain: Seq<u8>) -> Seq<u8> {
        sealed_under(self.cipher_of(), self.key_of(), nonce, plain)
    }

    /// What opening `sealed` gives.
    pub open spec fn opened(&self, nonce: Seq<u8>, sealed: Seq<u8>) -> Option<Seq<u8>> {
        opened_under(self.cipher_of(), self.key_of(), nonce, sealed)
    }

    /// The cipher.
    pub closed spec fn cipher_of(&self) -> Cipher {
        self.cipher
    }

    /// The key.
    pub closed spec fn key_of(&self) -> Seq<u8> {
        self.key@
    }

    /// The cipher with a 32-byte key.
    pub fn new(cipher: Cipher, key: &[u8; KEY_LEN]) -> (r: Result<Aead, CryptoError>)
        ensures
            r matches Ok(aead) && aead.cipher_of() == cipher && aead.key_of() == key@,
    {
        if aead_accepts(cipher == Cipher::Aes256Gcm, key.as_slice()) {
            Ok(Aead { cipher, key: *key })
        } else {
            Err(CryptoError::KeySetup)
        }
    }

    /// The longest plaintext that the cipher seals under one nonce.
    pub(crate) fn max_plaintext(&self) -> (n: u64)
        ensures
            n == seal_limit(self.cipher_of() == Cipher::Aes256Gcm),
    {
        if self.cipher == Cipher::Aes256Gcm {
            68_719_476_704
        } else {
            274_877_906_880
        }
    }

    /// Seals in place: the plaintext becomes ciphertext and tag.
    pub fn seal(&self, nonce: &[u8; NONCE_LEN], buf: &mut Vec<u8>)
        requires
            old(buf)@.len() <= seal_limit(self.cipher_of() == Cipher::Aes256Gcm),
        ensures
            final(buf)@ == self.sealed(nonce@, old(buf)@),
            final(buf)@.len() == old(buf)@.len() + TAG_LEN,
            self.opened(nonce@, final(buf)@) == Some(old(buf)@),
    {
        aead_seal(self.cipher == Cipher::Aes256Gcm, &self.key, nonce, buf)
    }

    /// Opens in place: gives the plaintext of ciphertext and tag.
    pub fn open<'a>(&self, nonce: &[u8; NONCE_LEN], buf: &'a mut [u8]) -> (r: Result<
        &'a [u8],
        CryptoError,
    >)
        ensures
            match r {
                Ok(plain) => {
                    &&& self.opened(nonce@, old(buf)@) == Some(plain@)
                    &&& plain@.len() + TAG_LEN == old(buf)@.len()
                },
                Err(e) => e == CryptoError::Auth && self.opened(nonce@, old(buf)@) is None,
            },
    {
        match aead_open(self.cipher == Cipher::Aes256Gcm, &self.key, nonce, buf) {
            Some(plain) => Ok(plain),
            None => Err(CryptoError::Auth),
        }
    }
}

/// Two holders of one cipher and one key open what the other seals.
pub proof fn lemma_same_key_opens(a: Aead, b: Aead, nonce: Seq<u8>, sealed: Seq<u8>)
    requires
        a.cipher_of() == b.cipher_of(),
        a.key_of() == b.key_of(),
    ensures
        a.opened(nonce, sealed) == b.opened(nonce, sealed),
{
}

/// The cipher that is named is the one that seals and opens: ChaCha20-Poly1305 under its own name,
/// AES-256-GCM under the other.
pub proof fn lemma_the_named_cipher_is_used(key: Seq<u8>, nonce: Seq<u8>, data: Seq<u8>)
    ensures
        sealed_under(Cipher::ChaCha20Poly1305, key, nonce, data) == aead_seal_of(
            false,
            key,
            nonce,
            data,
        ),
        sealed_under(Cipher::Aes256Gcm, key, nonce, data) == aead_seal_of(true, key, nonce, data),
        opened_under(Cipher::ChaCha20Poly1305, key, nonce, data) == aead_open_of(
            false,
            key,
            nonce,
            data,
        ),
        opened_under(Cipher::Aes256Gcm, key, nonce, data) == aead_open_of(true, key, nonce, data),
{
}

// ---- random values ----

/// `ring::rand::SecureRandom::fill` with the system generator. The bytes are random, so nothing is
/// said of them.
#[verifier::external_body]
fn random_fill(buf: &mut [u8]) -> (ok: bool)
    ensures
        final(buf)@.len() == old(buf)@.len(),
{
    ring::rand::SystemRandom::new().fill(buf).is_ok()
}

/// What is returned of a draw that the generator made, or failed to make.
pub fn draw_result(made: bool) -> (r: Result<(), CryptoError>)
    ensures
        r == if made {
            Ok::<(), CryptoError>(())
        } else {
            Err(CryptoError::Rng)
        },
{
    if made {
        Ok(())
    } else {
        Err(CryptoError::Rng)
    }
}

/// Fills `buf` with secure random bytes. Fails only where the generator fails. The bytes are random, so
/// nothing is said of them; what is returned of the generator's outcome is [`draw_result`].
pub fn fill_random(buf: &mut [u8]) -> (r: Result<(), CryptoError>)
    ensures
        final(buf)@.len() == old(buf)@.len(),
        r matches Err(e) ==> e == CryptoError::Rng,
{
    draw_result(random_fill(buf))
}

/// The bytes that were drawn, as an array; the error of a draw that failed.
pub fn array_drawn<const N: usize>(drawn: Result<(), CryptoError>, bytes: &[u8]) -> (r: Result<
    [u8; N],
    CryptoError,
>)
    requires
        bytes.len() == N,
    ensures
        match drawn {
            Ok(_) => r matches Ok(a) && a@ == bytes@,
            Err(e) => r == Err::<[u8; N], CryptoError>(e),
        },
{
    match drawn {
        Ok(_) => {
            let a: [u8; N] = array_of::<N>(bytes);
            assert(a@ =~= bytes@);
            Ok(a)
        },
        Err(e) => Err(e),
    }
}

/// `N` secure random bytes: those that were drawn, as [`array_drawn`] hands them on.
fn random_array<const N: usize>() -> (r: Result<[u8; N], CryptoError>)
    ensures
        r matches Err(e) ==> e == CryptoError::Rng,
{
    let mut v: Vec<u8> = vec![0u8; N];
    let drawn: Result<(), CryptoError> = fill_random(v.as_mut_slice());
    array_drawn::<N>(drawn, v.as_slice())
}

/// A fresh random nonce.
pub fn random_nonce() -> (r: Result<[u8; NONCE_LEN], CryptoError>)
    ensures
        r matches Err(e) ==> e == CryptoError::Rng,
{
    random_array::<NONCE_LEN>()
}

/// A fresh random connection id.
pub fn random_conn_id() -> (r: Result<[u8; CONN_ID_LEN], CryptoError>)
    ensures
        r matches Err(e) ==> e == CryptoError::Rng,
{
    random_array::<CONN_ID_LEN>()
}

/// A fresh random session salt.
pub fn random_salt() -> (r: Result<[u8; SALT_LEN], CryptoError>)
    ensures
        r matches Err(e) ==> e == CryptoError::Rng,
{
    random_array::<SALT_LEN>()
}

} // verus!
