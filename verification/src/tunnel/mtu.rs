//! Capacity arithmetic: how many payload bytes fit in a query name (uplink) or in a TXT answer
//! (downlink), given the tunnel zone and the negotiated EDNS0 UDP size.
use vstd::prelude::*;

use crate::tunnel::crypto::{CONN_ID_LEN, NONCE_LEN, TAG_LEN};
use crate::tunnel::dns::MAX_NAME_LEN;

verus! {

/// The form byte of a wire packet.
pub const FORM_LEN: usize = 1;

/// Subtraction that stops at zero.
pub open spec fn minus(a: int, b: int) -> int {
    if a >= b {
        a - b
    } else {
        0
    }
}

/// The most base32 characters that fit in `budget` bytes of a name, where every label of up to 63
/// characters costs one length byte.
pub open spec fn base32_chars(budget: int) -> int {
    budget / 64 * 63 + minus(budget % 64, 1)
}

/// The largest packet that fits in a query name under a zone of `zone_wire_len` bytes.
pub open spec fn uplink_wire_bytes(zone_wire_len: int) -> int {
    base32_chars(minus(MAX_NAME_LEN as int, zone_wire_len)) * 5 / 8
}

/// The bytes of a data packet around its inner frame: form byte, connection id, nonce and tag.
pub open spec fn overhead() -> int {
    FORM_LEN + CONN_ID_LEN + NONCE_LEN + TAG_LEN
}

/// The bytes of an answer around its TXT data: header, echoed question, the record's pointer and
/// fixed fields, and the OPT record.
pub open spec fn envelope(question_wire_len: int) -> int {
    12 + question_wire_len + 2 + 10 + 11
}

/// The largest packet that is taken to fit in a TXT answer.
pub open spec fn downlink_wire_bytes(edns_udp: int, question_wire_len: int) -> int {
    let raw = minus(edns_udp, envelope(question_wire_len));
    minus(raw, (raw + 255) / 256)
}

/// The most base32 characters that fit in `budget` bytes of a name.
pub fn max_base32_chars(budget: usize) -> (n: usize)
    ensures
        n == base32_chars(budget as int),
{
    let full: usize = budget / 64;
    let rem: usize = budget % 64;
    full * 63 + rem.saturating_sub(1)
}

/// Bytes recoverable from `chars` base32 characters: eight characters carry five bytes.
pub fn base32_capacity_bytes(chars: usize) -> (n: usize)
    requires
        chars * 5 <= usize::MAX,
    ensures
        n == chars * 5 / 8,
{
    chars * 5 / 8
}

/// The largest packet that fits in a query name under a zone of `zone_wire_len` bytes.
pub fn max_uplink_wire_bytes(zone_wire_len: usize) -> (n: usize)
    ensures
        n == uplink_wire_bytes(zone_wire_len as int),
{
    let budget: usize = MAX_NAME_LEN.saturating_sub(zone_wire_len);
    base32_capacity_bytes(max_base32_chars(budget))
}

/// The bytes of a data packet around its inner frame.
pub fn wire_overhead() -> (n: usize)
    ensures
        n == overhead(),
{
    FORM_LEN + CONN_ID_LEN + NONCE_LEN + TAG_LEN
}

/// The most uplink payload bytes, given the zone size and the inner header's length.
pub fn max_uplink_payload(zone_wire_len: usize, header_len: usize) -> (n: usize)
    requires
        overhead() + header_len <= usize::MAX,
    ensures
        n == minus(uplink_wire_bytes(zone_wire_len as int), overhead() + header_len),
{
    max_uplink_wire_bytes(zone_wire_len).saturating_sub(wire_overhead() + header_len)
}

/// The bytes of an answer around its TXT data.
fn answer_envelope_overhead(question_wire_len: usize) -> (n: usize)
    requires
        envelope(question_wire_len as int) <= usize::MAX,
    ensures
        n == envelope(question_wire_len as int),
{
    12 + question_wire_len + 2 + 10 + 11
}

/// The largest packet that is taken to fit in a TXT answer of `edns_udp` bytes with an echoed
/// question of `question_wire_len` bytes, with one length byte set aside for every 256 bytes.
pub fn max_downlink_wire_bytes(edns_udp: usize, question_wire_len: usize) -> (n: usize)
    requires
        envelope(question_wire_len as int) <= usize::MAX,
    ensures
        n == downlink_wire_bytes(edns_udp as int, question_wire_len as int),
{
    let raw: usize = edns_udp.saturating_sub(answer_envelope_overhead(question_wire_len));
    let full: usize = raw / 256;
    let lengths: usize = if raw % 256 == 0 {
        full
    } else {
        full + 1
    };
    raw.saturating_sub(lengths)
}

/// The most downlink payload bytes.
pub fn max_downlink_payload(edns_udp: usize, question_wire_len: usize, header_len: usize) -> (n:
    usize)
    requires
        envelope(question_wire_len as int) <= usize::MAX,
        overhead() + header_len <= usize::MAX,
    ensures
        n == minus(
            downlink_wire_bytes(edns_udp as int, question_wire_len as int),
            overhead() + header_len,
        ),
{
    max_downlink_wire_bytes(edns_udp, question_wire_len).saturating_sub(
        wire_overhead() + header_len,
    )
}

/// The uplink bound is exact: a packet fits in a query under the zone if and only if it is no longer
/// than the bound.
pub proof fn lemma_uplink_bound_is_exact(data: Seq<u8>, zone: Seq<Seq<u8>>)
    requires
        crate::tunnel::dns::labels_wire_len(zone) + 1 <= MAX_NAME_LEN,
    ensures
        crate::tunnel::dns::query_name_len(data, zone) <= MAX_NAME_LEN <==> data.len()
            <= uplink_wire_bytes((crate::tunnel::dns::labels_wire_len(zone) + 1) as int),
{
    crate::tunnel::dns::lemma_query_name_len(data, zone);
    let budget: int = MAX_NAME_LEN - (crate::tunnel::dns::labels_wire_len(zone) + 1);
    let chars = (8 * data.len() + 4) as int / 5;
    assert(chars + (chars + 62) / 63 <= budget <==> chars <= base32_chars(budget));
    assert(chars <= base32_chars(budget) <==> data.len() <= base32_chars(budget) * 5 / 8);
}

/// A longer zone leaves no more uplink room.
pub proof fn lemma_longer_zone_leaves_less_room(a: int, b: int)
    requires
        0 <= a <= b,
    ensures
        uplink_wire_bytes(b) <= uplink_wire_bytes(a),
{
    let ba = minus(MAX_NAME_LEN as int, a);
    let bb = minus(MAX_NAME_LEN as int, b);
    assert(bb <= ba);
    assert(base32_chars(bb) <= base32_chars(ba));
}

/// More EDNS room never means less downlink capacity, and the capacity stays under the advertised
/// size.
pub proof fn lemma_downlink_is_bounded_and_monotonic(small: int, big: int, question_wire_len: int)
    requires
        0 <= small <= big,
        0 <= question_wire_len,
    ensures
        downlink_wire_bytes(small, question_wire_len) <= downlink_wire_bytes(
            big,
            question_wire_len,
        ),
        downlink_wire_bytes(big, question_wire_len) <= big,
        0 < big ==> downlink_wire_bytes(big, question_wire_len) < big,
{
    let rs = minus(small, envelope(question_wire_len));
    let rb = minus(big, envelope(question_wire_len));
    assert(rs <= rb);
    assert(rs - (rs + 255) / 256 <= rb - (rb + 255) / 256);
}

/// The downlink bound is exact: an answer that carries data stays within the advertised size if and
/// only if the data is no longer than the bound.
pub proof fn lemma_downlink_bound_is_exact(request: Seq<u8>, downlink: Seq<u8>, edns_udp: u16)
    requires
        crate::tunnel::dns::question_end_of(request) is Ok,
        0 < downlink.len(),
    ensures
        crate::tunnel::dns::answer_message(
            request,
            crate::tunnel::dns::question_end_of(request)->Ok_0,
            downlink,
            edns_udp,
        ).len() <= edns_udp <==> downlink.len() <= downlink_wire_bytes(
            edns_udp as int,
            crate::tunnel::dns::question_end_of(request)->Ok_0 - 12,
        ),
{
    crate::tunnel::dns::lemma_answer_len(request, downlink, edns_udp);
    let q = crate::tunnel::dns::question_end_of(request)->Ok_0 - 12;
    let raw = minus(edns_udp as int, envelope(q));
    let n = downlink.len() as int;
    assert(n + (n + 254) / 255 <= raw <==> n <= raw - (raw + 255) / 256);
}

} // verus!
