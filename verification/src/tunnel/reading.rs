//! What bytes are read as: which queries belong to a zone and what they carry, which records of an answer
//! carry data, and for what a frame or a packet is refused.
use vstd::prelude::*;

use crate::tunnel::addr;
use crate::tunnel::addr::TargetModel;
use crate::tunnel::crypto::{Aead, CryptoError};
use crate::tunnel::dns;
use crate::tunnel::dns::DnsError;
use crate::tunnel::frame;
use crate::tunnel::frame::{FrameError, FrameModel, PacketModel};

verus! {

/// A letter with its case taken away.
pub open spec fn caseless(c: u8) -> int {
    if 65 <= c <= 90 {
        c + 32
    } else {
        c as int
    }
}

/// A query is taken only under the zone: where its name is shorter than the zone's, or one of the
/// zone's labels differs by more than the case of its letters, the query is refused as one of another
/// zone.
pub proof fn lemma_other_zones_are_refused(
    buf: Seq<u8>,
    zone: Seq<Seq<u8>>,
    labels: Seq<Seq<u8>>,
    end: int,
    i: int,
    k: int,
)
    requires
        buf.len() >= 12,
        buf[4] > 0 || buf[5] > 0,
        dns::name_at(buf, 12, 0) == Ok::<(Seq<Seq<u8>>, int), DnsError>((labels, end)),
        labels.len() < zone.len() || ({
            &&& 0 <= i < zone.len()
            &&& 0 <= k
            &&& labels[labels.len() - zone.len() + i].len() != zone[i].len() || (k < zone[i].len()
                && caseless(labels[labels.len() - zone.len() + i][k]) != caseless(zone[i][k]))
        }),
    ensures
        dns::query_of(buf, zone) == Err::<(u16, Seq<u8>), DnsError>(DnsError::WrongZone),
{
    assert(crate::tunnel::wire::be16_at(buf, 4) == buf[4] * 256 + buf[5]);
    if dns::under_zone(labels, zone) {
        let (a, b) = (labels[labels.len() - zone.len() + i], zone[i]);
        assert(dns::same_text(a, b));
        assert(dns::same_letter(a[k], b[k]));
    }
}

/// A query under the zone gives what stands before the zone: the labels in front of it, dns::joined, are the
/// base32 text of the data, and the id stands first. A query without a whole header, and one without a
/// question, give nothing.
pub proof fn lemma_query_is_read_before_the_zone(
    buf: Seq<u8>,
    front: Seq<Seq<u8>>,
    zone: Seq<Seq<u8>>,
    end: int,
    data: Seq<u8>,
)
    requires
        buf.len() >= 12,
    ensures
        buf[4] == 0 && buf[5] == 0 ==> dns::query_of(buf, zone) == Err::<(u16, Seq<u8>), DnsError>(
            DnsError::NoQuestion,
        ),
        (buf[4] > 0 || buf[5] > 0) && dns::name_at(buf, 12, 0) == Ok::<(Seq<Seq<u8>>, int), DnsError>(
            (front + zone, end),
        ) && dns::joined(front) == dns::b32_text(data) ==> dns::query_of(buf, zone) == Ok::<
            (u16, Seq<u8>),
            DnsError,
        >(((buf[0] * 256 + buf[1]) as u16, data)),
{
    assert(crate::tunnel::wire::be16_at(buf, 4) == buf[4] * 256 + buf[5]);
    assert(crate::tunnel::wire::be16_at(buf, 0) == buf[0] * 256 + buf[1]);
    let labels = front + zone;
    assert(labels.subrange(0, labels.len() - zone.len()) =~= front);
    dns::lemma_b32_round_trip(data);
}

/// The records of an answer are read one after the other: a TXT record gives its strings, one of
/// another type is passed over, and the next one begins behind its data.
pub proof fn lemma_records_are_read_in_order(buf: Seq<u8>, pos: int, n: nat, at: int)
    requires
        dns::name_end(buf, pos) == Ok::<int, DnsError>(at),
        0 <= at,
        at + 10 + buf[at + 8] * 256 + buf[at + 9] <= buf.len(),
    ensures
        dns::records_data(buf, pos, 0) == Ok::<Seq<u8>, DnsError>(Seq::empty()),
        ({
            let end = at + 10 + buf[at + 8] * 256 + buf[at + 9];
            let rest = dns::records_data(buf, end, n);
            let all = dns::records_data(buf, pos, n + 1);
            if buf[at] == 0 && buf[at + 1] == 16 {
                match (dns::txt_strings(buf.subrange(at + 10, end), 0), rest) {
                    (Ok(own), Ok(data)) => all == Ok::<Seq<u8>, DnsError>(own + data),
                    _ => all is Err,
                }
            } else {
                match rest {
                    Ok(data) => all == Ok::<Seq<u8>, DnsError>(data),
                    Err(e) => all == Err::<Seq<u8>, DnsError>(e),
                }
            }
        }),
{
    let end = at + 10 + buf[at + 8] * 256 + buf[at + 9];
    assert(crate::tunnel::wire::be16_at(buf, at) == buf[at] * 256 + buf[at + 1]);
    assert(crate::tunnel::wire::be16_at(buf, at + 8) == buf[at + 8] * 256 + buf[at + 9]);
    reveal_with_fuel(dns::records_data, 2);
    if let Ok(data) = dns::records_data(buf, end, n) {
        assert(Seq::<u8>::empty() + data =~= data);
    }
}

/// The strings of a TXT record are joined: each is as long as its first byte says, and a string that
/// would reach past the record's end is an error.
pub proof fn lemma_strings_are_joined(s: Seq<u8>, rest: Seq<u8>)
    requires
        s.len() <= 255,
    ensures
        dns::txt_strings(Seq::empty(), 0) == Ok::<Seq<u8>, DnsError>(Seq::empty()),
        match dns::txt_strings(seq![s.len() as u8] + s + rest, 1 + s.len() as int) {
            Ok(data) => dns::txt_strings(seq![s.len() as u8] + s + rest, 0) == Ok::<Seq<u8>, DnsError>(
                s + data,
            ),
            Err(_) => dns::txt_strings(seq![s.len() as u8] + s + rest, 0) is Err,
        },
        s.len() < 255 ==> dns::txt_strings(seq![(s.len() + 1) as u8] + s, 0) == Err::<
            Seq<u8>,
            DnsError,
        >(DnsError::Truncated),
{
    let whole = seq![s.len() as u8] + s + rest;
    assert(whole[0] == s.len());
    assert(whole.subrange(1, 1 + s.len() as int) =~= s);
    let cut = seq![(s.len() + 1) as u8] + s;
    assert(s.len() < 255 ==> cut[0] == s.len() + 1);
}

/// A frame is refused for the first thing that is wrong with it, and told with the byte that is: another
/// version than 1, a kind that is none of the eleven, a flag above the four. One that ends before its
/// fields do is cut short; any other is read.
pub proof fn lemma_frame_is_refused_for_its_first_fault(buf: Seq<u8>)
    ensures
        ({
            let r = frame::decoded(buf);
            &&& buf.len() == 0 ==> r == Err::<FrameModel, FrameError>(FrameError::Truncated)
            &&& buf.len() >= 1 && buf[0] != 1 ==> r == Err::<FrameModel, FrameError>(
                FrameError::Version(buf[0]),
            )
            &&& buf.len() >= 2 && buf[0] == 1 && !(1 <= buf[1] <= 11) ==> r == Err::<
                FrameModel,
                FrameError,
            >(FrameError::UnknownKind(buf[1]))
            &&& buf.len() >= 3 && buf[0] == 1 && 1 <= buf[1] <= 11 && buf[2] > 15 ==> r == Err::<
                FrameModel,
                FrameError,
            >(FrameError::UnknownFlags(buf[2]))
            &&& 1 <= buf.len() < 3 && buf[0] == 1 && (buf.len() == 2 ==> 1 <= buf[1] <= 11) ==> r
                == Err::<FrameModel, FrameError>(FrameError::Truncated)
            &&& buf.len() >= 12 && buf[0] == 1 && 1 <= buf[1] <= 11 && buf[2] <= 15 ==> r is Ok
            &&& buf.len() >= 3 && buf[0] == 1 && 1 <= buf[1] <= 11 && buf[2] == 0 ==> r is Ok
        }),
{
}

/// A packet is told by its first byte: 1 opens a session and takes 41 bytes, 2 answers that and takes
/// 105, 0 carries a sealed frame and takes at least 37. Shorter ones are cut short, and any other first
/// byte is told.
pub proof fn lemma_packet_is_told_by_its_first_byte(buf: Seq<u8>)
    ensures
        ({
            let r = frame::packet_of(buf);
            let cut = Err::<PacketModel, FrameError>(FrameError::Truncated);
            &&& buf.len() < 9 ==> r == cut
            &&& buf.len() >= 9 && buf[0] > 2 ==> r == Err::<PacketModel, FrameError>(
                FrameError::BadForm(buf[0]),
            )
            &&& buf.len() >= 9 && buf[0] == 1 ==> if buf.len() < 41 {
                r == cut
            } else {
                r matches Ok(PacketModel::Syn { conn_id, client_eph }) && conn_id == buf.subrange(
                    1,
                    9,
                ) && client_eph == buf.subrange(9, 41)
            }
            &&& buf.len() >= 9 && buf[0] == 2 ==> if buf.len() < 105 {
                r == cut
            } else {
                r matches Ok(PacketModel::SynAck { conn_id, server_eph, sig }) && conn_id
                    == buf.subrange(1, 9) && server_eph == buf.subrange(9, 41) && sig
                    == buf.subrange(41, 105)
            }
            &&& buf.len() >= 9 && buf[0] == 0 ==> if buf.len() < 37 {
                r == cut
            } else {
                r matches Ok(PacketModel::Data { conn_id, nonce, ciphertext }) && conn_id
                    == buf.subrange(1, 9) && nonce == buf.subrange(9, 21) && ciphertext
                    == buf.subrange(21, buf.len() as int)
            }
        }),
{
}

/// Labels with dots between them.
pub open spec fn dotted(labels: Seq<Seq<u8>>) -> Seq<u8>
    decreases labels.len(),
{
    if labels.len() == 0 {
        Seq::empty()
    } else if labels.len() == 1 {
        labels[0]
    } else {
        dotted(labels.drop_last()) + seq![0x2eu8] + labels.last()
    }
}

/// A name is read as the labels between its dots, in order, whether or not a dot stands at its end.
pub proof fn lemma_name_is_read_label_by_label(labels: Seq<Seq<u8>>)
    requires
        labels.len() > 0,
        forall|i: int| 0 <= i < labels.len() ==> (#[trigger] labels[i]).len() > 0,
        forall|i: int, k: int|
            0 <= i < labels.len() && 0 <= k < labels[i].len() ==> (#[trigger] labels[i][k]) != 0x2e,
    ensures
        dns::dotted_labels(dotted(labels)) == labels,
        dns::dotted_labels(dotted(labels) + seq![0x2eu8]) == labels,
{
    let name = dotted(labels);
    lemma_split_dotted(labels);
    let last = labels.last();
    assert(labels[labels.len() - 1] == last);
    assert(labels[labels.len() - 1][last.len() - 1] != 0x2e);
    assert(name.len() > 0 && name.last() == last.last());
    assert(dns::without_root_dot(name) == name);
    let ended = name + seq![0x2eu8];
    assert(ended.drop_last() =~= name);
    assert(dns::without_root_dot(ended) == name);
}

proof fn lemma_split_dotted(labels: Seq<Seq<u8>>)
    requires
        labels.len() > 0,
        forall|i: int| 0 <= i < labels.len() ==> (#[trigger] labels[i]).len() > 0,
        forall|i: int, k: int|
            0 <= i < labels.len() && 0 <= k < labels[i].len() ==> (#[trigger] labels[i][k]) != 0x2e,
    ensures
        dns::split_dots(dotted(labels)) == labels,
    decreases labels.len(),
{
    let last = labels[labels.len() - 1];
    assert forall|k: int| 0 <= k < last.len() implies (#[trigger] last[k]) != 0x2e by {
        assert(labels[labels.len() - 1][k] != 0x2e);
    }
    if labels.len() == 1 {
        lemma_split_within(Seq::empty(), last);
        assert(Seq::<u8>::empty() + last =~= last);
        assert(dns::split_dots(Seq::<u8>::empty()) == seq![Seq::<u8>::empty()]);
        assert(dns::split_dots(last) =~= labels);
    } else {
        let front = labels.drop_last();
        assert forall|i: int| 0 <= i < front.len() implies (#[trigger] front[i]).len() > 0 by {
            assert(labels[i].len() > 0);
        }
        assert forall|i: int, k: int|
            0 <= i < front.len() && 0 <= k < front[i].len() implies (#[trigger] front[i][k])
            != 0x2e by {
            assert(labels[i][k] != 0x2e);
        }
        lemma_split_dotted(front);
        let head = dotted(front) + seq![0x2eu8];
        assert(head.drop_last() =~= dotted(front));
        assert(dns::split_dots(head) == front.push(Seq::<u8>::empty()));
        lemma_split_within(head, last);
        assert(dotted(labels) == head + labels.last());
        assert(front.push(Seq::<u8>::empty()).drop_last() =~= front);
        assert(Seq::<u8>::empty() + last =~= last);
        assert(front.push(last) =~= labels);
    }
}

proof fn lemma_split_within(head: Seq<u8>, word: Seq<u8>)
    requires
        forall|k: int| 0 <= k < word.len() ==> (#[trigger] word[k]) != 0x2e,
    ensures
        dns::split_dots(head).len() > 0,
        dns::split_dots(head + word) == dns::split_dots(head).drop_last().push(
            dns::split_dots(head).last() + word,
        ),
    decreases word.len(),
{
    lemma_some_piece(head);
    let pieces = dns::split_dots(head);
    if word.len() == 0 {
        assert(head + word =~= head);
        assert(pieces.last() + word =~= pieces.last());
        assert(pieces.drop_last().push(pieces.last()) =~= pieces);
    } else {
        let w = word.drop_last();
        assert forall|k: int| 0 <= k < w.len() implies (#[trigger] w[k]) != 0x2e by {
            assert(word[k] != 0x2e);
        }
        lemma_split_within(head, w);
        assert(word[word.len() - 1] != 0x2e);
        assert((head + word).drop_last() =~= head + w);
        let before = dns::split_dots(head + w);
        assert(before.drop_last() =~= pieces.drop_last());
        assert((pieces.last() + w).push(word.last()) =~= pieces.last() + word);
    }
}

proof fn lemma_some_piece(b: Seq<u8>)
    ensures
        dns::split_dots(b).len() > 0,
    decreases b.len(),
{
    if b.len() > 0 {
        lemma_some_piece(b.drop_last());
    }
}

/// What was sealed from a frame opens to that frame; what does not open is told as such, and what opens
/// to something else is read as that.
pub proof fn lemma_sealed_frame_opens_to_itself(
    aead: Aead,
    nonce: Seq<u8>,
    ciphertext: Seq<u8>,
    f: FrameModel,
)
    ensures
        aead.opened(nonce, ciphertext) == Some(frame::encoded(f)) ==> frame::opened_frame(
            aead,
            nonce,
            ciphertext,
        ) == Ok::<FrameModel, FrameError>(f),
        aead.opened(nonce, ciphertext) is None ==> frame::opened_frame(aead, nonce, ciphertext)
            == Err::<FrameModel, FrameError>(FrameError::Crypto(CryptoError::Auth)),
{
    frame::lemma_frame_round_trip(f);
}

/// Every packet carries its connection id, whichever form it has: what was put in comes out.
pub proof fn lemma_packets_carry_their_connection(
    conn_id: Seq<u8>,
    key: Seq<u8>,
    sig: Seq<u8>,
    nonce: Seq<u8>,
    ciphertext: Seq<u8>,
)
    requires
        conn_id.len() == 8,
        key.len() == 32,
        sig.len() == 64,
        nonce.len() == 12,
        ciphertext.len() >= 16,
    ensures
        frame::packet_of(frame::syn_bytes(conn_id, key)) matches Ok(p) && frame::packet_conn_id(p)
            == conn_id,
        frame::packet_of(frame::synack_bytes(conn_id, key, sig)) matches Ok(p)
            && frame::packet_conn_id(p) == conn_id,
        frame::packet_of(frame::data_bytes(conn_id, nonce, ciphertext)) matches Ok(p)
            && frame::packet_conn_id(p) == conn_id,
{
    frame::lemma_syn_round_trip(conn_id, key);
    frame::lemma_synack_round_trip(conn_id, key, sig);
    frame::lemma_data_round_trip(conn_id, nonce, ciphertext);
}

/// The port of a target is the one in its last two bytes, the high one first, whichever form it has.
pub proof fn lemma_port_stands_last(t: TargetModel)
    requires
        addr::encodable(t),
    ensures
        ({
            let b = addr::target_bytes(t);
            addr::port_of(t) == b[b.len() - 2] * 256 + b[b.len() - 1]
        }),
        addr::parsed(addr::target_bytes(t)) matches Ok(p) && addr::port_of(p) == addr::port_of(t),
{
    addr::lemma_target_round_trip(t, Seq::empty());
    assert(addr::target_bytes(t) + Seq::<u8>::empty() =~= addr::target_bytes(t));
}

/// The flags of every message that is built: an answer, with data or without, is a response (QR) to a
/// query that asked for recursion (RD) and could have it (RA), without an error (RCODE 0); a query is
/// none (QR clear) and asks for recursion. Each carries the id of its request or its own.
pub proof fn lemma_flags_tell_answers_from_queries(
    request: Seq<u8>,
    qend: int,
    downlink: Seq<u8>,
    zone: Seq<Seq<u8>>,
    txn_id: u16,
    edns_udp: u16,
)
    requires
        request.len() >= 12,
        12 <= qend <= request.len(),
    ensures
        ({
            let answer = dns::answer_message(request, qend, downlink, edns_udp);
            let nodata = dns::nodata_message(request, qend, zone, edns_udp);
            let query = dns::query_message(txn_id, downlink, zone, edns_udp);
            &&& answer[0] == request[0] && answer[1] == request[1]
            &&& nodata[0] == request[0] && nodata[1] == request[1]
            &&& answer[2] == 0x81 && nodata[2] == 0x81
            &&& answer[3] == 0x80 && nodata[3] == 0x80
            &&& answer[3] % 16 == 0 && nodata[3] % 16 == 0
            &&& answer[2] >= 128 && nodata[2] >= 128
            &&& query[0] * 256 + query[1] == txn_id
            &&& query[2] == 1 && query[3] == 0
        }),
{
    let id = crate::tunnel::wire::be16_at(request, 0);
    assert(id == request[0] * 256 + request[1]);
    let answer = dns::answer_message(request, qend, downlink, edns_udp);
    let nodata = dns::nodata_message(request, qend, zone, edns_udp);
    let query = dns::query_message(txn_id, downlink, zone, edns_udp);
    assert(answer.take(12) =~= dns::header(id, seq![0x81u8, 0x80u8], 1, 1, 0, 1));
    assert(nodata.take(12) =~= dns::header(id, seq![0x81u8, 0x80u8], 1, 0, 1, 1));
    assert(query.take(12) =~= dns::header(txn_id, seq![1u8, 0u8], 1, 0, 0, 1));
    lemma_starts_with_header(answer, id, seq![0x81u8, 0x80u8], 1, 1, 0, 1);
    lemma_starts_with_header(nodata, id, seq![0x81u8, 0x80u8], 1, 0, 1, 1);
    lemma_starts_with_header(query, txn_id, seq![1u8, 0u8], 1, 0, 0, 1);
}

/// What stands first in a message that begins with a header.
proof fn lemma_starts_with_header(
    m: Seq<u8>,
    id: u16,
    flags: Seq<u8>,
    qd: u16,
    an: u16,
    ns: u16,
    ar: u16,
)
    requires
        flags.len() == 2,
        m.len() >= 12,
        m.take(12) == dns::header(id, flags, qd, an, ns, ar),
    ensures
        m[0] * 256 + m[1] == id,
        m[0] == id / 256,
        m[1] == id % 256,
        m[2] == flags[0],
        m[3] == flags[1],
{
    let h = dns::header(id, flags, qd, an, ns, ar);
    assert(m[0] == h[0] && m[1] == h[1] && m[2] == h[2] && m[3] == h[3]) by {
        assert(m.take(12)[0] == m[0] && m.take(12)[1] == m[1] && m.take(12)[2] == m[2] && m.take(
            12,
        )[3] == m[3]);
    }
}

} // verus!
