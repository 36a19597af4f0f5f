//! What the two ends of a session guarantee together: a genuine handshake gives both the same keys, a
//! forged one gives none, and a sealed frame that is carried whole arrives as it was sent.
use vstd::prelude::*;

use crate::table;
use crate::tunnel::crypto;
use crate::tunnel::crypto::{
    Cipher, CONN_ID_LEN, ED25519_SIG_LEN, NONCE_LEN, TAG_LEN, X25519_PUB_LEN,
};
use crate::tunnel::dns;
use crate::tunnel::frame;
use crate::tunnel::frame::{FrameModel, Kind, PacketModel};
use crate::tunnel::lanes;
use crate::tunnel::lanes::LaneModel;
use crate::tunnel::server;
use crate::tunnel::server::{ServerModel, SessionModel};
use crate::tunnel::session;
use crate::tunnel::session::{AnswerOutcome, ClientModel};

verus! {

// ---- the handshake ----

/// A session gets its keys only from a handshake that verifies under the server's public key: whatever
/// else an answer holds, a session without keys stays without.
pub proof fn lemma_forged_handshake_gives_no_keys(
    m: ClientModel,
    answer: Seq<u8>,
    now: u64,
)
    requires
        m.keys is None,
        session::answer_taken(m, answer, now).0.keys is Some,
    ensures
        exists|c: Seq<u8>, server_eph: Seq<u8>, sig: Seq<u8>|
            {
                &&& dns::answer_of(answer) matches Ok((_, data)) && frame::packet_of(data) == Ok::<
                    PacketModel,
                    frame::FrameError,
                >(#[trigger] handshake(c, server_eph, sig))
                &&& session::accepted(m, server_eph, sig)
            },
{
    let (_, data) = dns::answer_of(answer)->Ok_0;
    if let PacketModel::SynAck { conn_id, server_eph, sig } = frame::packet_of(data)->Ok_0 {
        assert(frame::packet_of(data)->Ok_0 == handshake(conn_id, server_eph, sig));
    }
}

/// The server's handshake packet.
pub open spec fn handshake(c: Seq<u8>, server_eph: Seq<u8>, sig: Seq<u8>) -> PacketModel {
    PacketModel::SynAck { conn_id: c, server_eph, sig }
}

/// The client and the server are set up for one another: one zone, one cipher, and the client holds the
/// server's public key.
pub open spec fn paired(client: ClientModel, server: ServerModel) -> bool {
    &&& client.zone == server.zone
    &&& dns::labels_ok(client.zone)
    &&& client.cfg.cipher == server.cfg.cipher
    &&& crypto::ed25519_public_of(server.key_pair) == Some(client.server_pub)
}

/// A client's handshake query under the server's zone sets a session up, and the answer gives the client
/// the keys that the server has. The client gets the secret of the server's exchange, as with every
/// exchange that the server makes, and the server's signature verifies, as every one that it makes.
pub proof fn lemma_handshake_gives_both_the_same_keys(
    client: ClientModel,
    server: ServerModel,
    txn: u16,
    now: u64,
    server_eph: Seq<u8>,
    secret: Seq<u8>,
)
    requires
        paired(client, server),
        session::client_ok(client),
        client.keys is None,
        client.eph is Some,
        crypto::shared_by(client.eph_pub, server_eph, secret),
        server_eph.len() == X25519_PUB_LEN,
        table::keyed(server.sessions),
        !server::has_session_of(server, client.conn_id),
        dns::query_name_len(frame::syn_bytes(client.conn_id, client.eph_pub), client.zone)
            <= dns::MAX_NAME_LEN,
        ({
            let msg = session::signed_of(
                session::transcript_of(client.eph_pub, server_eph, client.conn_id),
            );
            let sig = crypto::ed25519_sign_of(server.key_pair, msg);
            sig.len() == ED25519_SIG_LEN && crypto::ed25519_verify_of(client.server_pub, msg, sig)
        }),
    ensures
        ({
            let query = dns::query_message(
                txn,
                frame::syn_bytes(client.conn_id, client.eph_pub),
                client.zone,
                client.cfg.edns_udp,
            );
            let (s, answer) = server::query_answered(
                server,
                query,
                now,
                Some((server_eph, secret)),
                None,
            );
            let (c, outcome) = session::answer_taken(client, answer->0, now);
            let sess = server::session_of(s, client.conn_id);
            &&& answer is Some
            &&& server::has_session_of(s, client.conn_id)
            &&& c.keys == Some((sess.up, sess.down))
            &&& outcome == AnswerOutcome::Consumed
        }),
{
    let data = frame::syn_bytes(client.conn_id, client.eph_pub);
    let query = dns::query_message(txn, data, client.zone, client.cfg.edns_udp);
    dns::lemma_query_round_trip(txn, data, client.zone, client.cfg.edns_udp);
    dns::lemma_query_has_question(txn, data, client.zone, client.cfg.edns_udp);
    frame::lemma_syn_round_trip(client.conn_id, client.eph_pub);
    let n = server::new_session(
        server,
        client.conn_id,
        client.eph_pub,
        server_eph,
        secret,
        now,
    );
    let k = server::id_key(client.conn_id);
    table::lemma_with(server.sessions, k, n);
    dns::lemma_answer_len(query, n.synack, server.cfg.edns_udp);
    dns::lemma_answer_round_trip(query, n.synack, server.cfg.edns_udp);
    let msg = session::signed_of(
        session::transcript_of(client.eph_pub, server_eph, client.conn_id),
    );
    assert(crypto::x25519_secret_of(client.eph->0, server_eph) == Some(secret));
    frame::lemma_synack_round_trip(
        client.conn_id,
        server_eph,
        crypto::ed25519_sign_of(server.key_pair, msg),
    );
}

/// ASCII text as bytes.
pub open spec fn ascii(s: Seq<char>) -> Seq<u8> {
    s.map_values(|c: char| c as u8)
}

/// The two keys of a session come from the same secret and transcript under labels of their own: the one
/// for what the client sends under `spark-dns-tunnel v1 up`, the one for what the server sends under
/// `spark-dns-tunnel v1 down`. The transcript, which the server signs behind the words
/// `spark-dns-tunnel v1 synack`, is the client's ephemeral key, the server's, and the connection id.
pub proof fn lemma_keys_and_signature_are_bound_to_the_session(
    client_eph: Seq<u8>,
    server_eph: Seq<u8>,
    c: Seq<u8>,
    secret: Seq<u8>,
)
    ensures
        ({
            let t = client_eph + server_eph + c;
            let (up, down) = session::session_keys(
                session::transcript_of(client_eph, server_eph, c),
                secret,
            );
            &&& up == crypto::hkdf_sha256_of(t, secret, ascii("spark-dns-tunnel v1 up"@))
            &&& down == crypto::hkdf_sha256_of(t, secret, ascii("spark-dns-tunnel v1 down"@))
            &&& session::signed_of(session::transcript_of(client_eph, server_eph, c)) == ascii(
                "spark-dns-tunnel v1 synack"@,
            ) + t
        }),
{
    reveal_strlit("spark-dns-tunnel v1 up");
    reveal_strlit("spark-dns-tunnel v1 down");
    reveal_strlit("spark-dns-tunnel v1 synack");
    assert(crypto::hkdf_base() + crypto::role_up() + Seq::<u8>::empty() =~= ascii(
        "spark-dns-tunnel v1 up"@,
    ));
    assert(crypto::hkdf_base() + crypto::role_down() + Seq::<u8>::empty() =~= ascii(
        "spark-dns-tunnel v1 down"@,
    ));
    assert(session::sig_context() =~= ascii("spark-dns-tunnel v1 synack"@));
}

/// Each of the four values that a secret gives has a label of its own.
pub proof fn lemma_key_material_has_labels(
    keys: crypto::SessionKeys,
    salt: Seq<u8>,
    secret: Seq<u8>,
    tail: Seq<u8>,
)
    requires
        crypto::keys_from(keys, salt, secret, tail),
    ensures
        keys.up@ == crypto::hkdf_sha256_of(salt, secret, ascii("spark-dns-tunnel v1 up"@) + tail),
        keys.down@ == crypto::hkdf_sha256_of(
            salt,
            secret,
            ascii("spark-dns-tunnel v1 down"@) + tail,
        ),
        keys.handshake@ == crypto::hkdf_sha256_of(
            salt,
            secret,
            ascii("spark-dns-tunnel v1 hs"@) + tail,
        ),
        keys.commit@ == crypto::hkdf_sha256_of(
            salt,
            secret,
            ascii("spark-dns-tunnel v1 commit"@) + tail,
        ).subrange(0, 16),
{
    reveal_strlit("spark-dns-tunnel v1 up");
    reveal_strlit("spark-dns-tunnel v1 down");
    reveal_strlit("spark-dns-tunnel v1 hs");
    reveal_strlit("spark-dns-tunnel v1 commit");
    assert(crypto::hkdf_base() + crypto::role_up() =~= ascii("spark-dns-tunnel v1 up"@));
    assert(crypto::hkdf_base() + crypto::role_down() =~= ascii("spark-dns-tunnel v1 down"@));
    assert(crypto::hkdf_base() + crypto::role_handshake() =~= ascii("spark-dns-tunnel v1 hs"@));
    assert(crypto::hkdf_base() + crypto::role_commit() =~= ascii("spark-dns-tunnel v1 commit"@));
}

// ---- sealed frames ----

/// Sealing under the key and opening again gives the frame back, as it does for every frame that is
/// sealed.
pub open spec fn opens(cipher: Cipher, key: Seq<u8>, nonce: Seq<u8>, f: FrameModel) -> bool {
    let sealed = crypto::sealed_under(cipher, key, nonce, frame::encoded(f));
    &&& sealed.len() >= TAG_LEN
    &&& crypto::opened_under(cipher, key, nonce, sealed) == Some(frame::encoded(f))
}

proof fn lemma_sealed_packet(
    cipher: Cipher,
    key: Seq<u8>,
    c: Seq<u8>,
    nonce: Seq<u8>,
    f: FrameModel,
)
    requires
        c.len() == CONN_ID_LEN,
        nonce.len() == NONCE_LEN,
        opens(cipher, key, nonce, f),
    ensures
        ({
            let sealed = crypto::sealed_under(cipher, key, nonce, frame::encoded(f));
            &&& frame::packet_of(session::sealed_packet(cipher, key, c, nonce, f)) == Ok::<
                PacketModel,
                frame::FrameError,
            >((PacketModel::Data { conn_id: c, nonce, ciphertext: sealed }))
            &&& session::inner_frame(cipher, key, nonce, sealed) == Some(f)
        }),
{
    let sealed = crypto::sealed_under(cipher, key, nonce, frame::encoded(f));
    frame::lemma_data_round_trip(c, nonce, sealed);
    frame::lemma_frame_round_trip(f);
}

/// A frame that the client seals into a query reaches its session on the server as it was sent.
pub proof fn lemma_frame_reaches_server(
    server: ServerModel,
    c: Seq<u8>,
    txn: u16,
    nonce: Seq<u8>,
    f: FrameModel,
    edns_udp: u16,
    now: u64,
    fresh: Option<Seq<u8>>,
)
    requires
        dns::labels_ok(server.zone),
        c.len() == CONN_ID_LEN,
        nonce.len() == NONCE_LEN,
        server::has_session_of(server, c),
        opens(server.cfg.cipher, server::session_of(server, c).up, nonce, f),
        dns::query_name_len(
            session::sealed_packet(
                server.cfg.cipher,
                server::session_of(server, c).up,
                c,
                nonce,
                f,
            ),
            server.zone,
        ) <= dns::MAX_NAME_LEN,
    ensures
        ({
            let s = server::session_of(server, c);
            let packet = session::sealed_packet(server.cfg.cipher, s.up, c, nonce, f);
            let query = dns::query_message(txn, packet, server.zone, edns_udp);
            let (t, reply) = server::responded(
                SessionModel { last_seen: now, ..s },
                server.cfg,
                Some(f),
                now,
            );
            server::query_answered(server, query, now, None, fresh).0 == server::session_set(
                server,
                c,
                t,
            )
        }),
{
    let s = server::session_of(server, c);
    let packet = session::sealed_packet(server.cfg.cipher, s.up, c, nonce, f);
    dns::lemma_query_round_trip(txn, packet, server.zone, edns_udp);
    lemma_sealed_packet(server.cfg.cipher, s.up, c, nonce, f);
}

/// A frame that the server seals into an answer reaches the client as it was sent, where the answer's
/// text is not too long.
pub proof fn lemma_frame_reaches_client(
    client: ClientModel,
    query: Seq<u8>,
    nonce: Seq<u8>,
    f: FrameModel,
    edns_udp: u16,
    now: u64,
)
    requires
        client.keys is Some,
        client.conn_id.len() == CONN_ID_LEN,
        nonce.len() == NONCE_LEN,
        dns::question_end_of(query) is Ok,
        ({
            let (_, down) = client.keys->0;
            &&& opens(client.cfg.cipher, down, nonce, f)
            &&& dns::txt_data_len(
                session::sealed_packet(client.cfg.cipher, down, client.conn_id, nonce, f),
            ) <= 0xffff
        }),
    ensures
        ({
            let (_, down) = client.keys->0;
            let packet = session::sealed_packet(
                client.cfg.cipher,
                down,
                client.conn_id,
                nonce,
                f,
            );
            let answer = server::answer_with(query, packet, edns_udp)->0;
            let n = ClientModel {
                outstanding: session::freed(
                    client.outstanding,
                    crate::tunnel::wire::be16_at(query, 0),
                ),
                ..client
            };
            session::answer_taken(client, answer, now) == session::frame_taken(n, f, now)
        }),
{
    let (_, down) = client.keys->0;
    let packet = session::sealed_packet(client.cfg.cipher, down, client.conn_id, nonce, f);
    dns::lemma_answer_round_trip(query, packet, edns_udp);
    lemma_sealed_packet(client.cfg.cipher, down, client.conn_id, nonce, f);
}

/// An MTU probe of a size that the server answers is reported with that size.
pub proof fn lemma_probe_reports_its_size(
    s: SessionModel,
    cfg: session::Config,
    client: ClientModel,
    target: u16,
    now: u64,
)
    requires
        2 <= target <= server::MAX_PROBE_PAYLOAD,
    ensures
        ({
            let (t, reply) = server::responded(
                s,
                cfg,
                Some(session::number_frame(Kind::MtuProbe, target)),
                now,
            );
            &&& t == s
            &&& reply is Some
            &&& reply->0.payload.len() == target
            &&& session::frame_taken(client, reply->0, now) == (
                client,
                AnswerOutcome::ProbeResp { target },
            )
        }),
{
    let asked = crate::tunnel::wire::be16(target);
    crate::tunnel::wire::lemma_be16_round_trip(asked, 0, target);
    assert(asked.subrange(0, 2) =~= asked);
    let reply = server::probe_reply(asked);
    assert(reply.payload.subrange(0, 2) =~= crate::tunnel::wire::be16(target));
    crate::tunnel::wire::lemma_be16_round_trip(reply.payload, 0, target);
}

/// A new segment size reaches every stream of the session.
pub proof fn lemma_set_mtu_resizes_every_stream(s: Seq<(u64, LaneModel)>, size: u16, i: int)
    requires
        0 <= i < s.len(),
    ensures
        lanes::all_resized(s, size as usize)[i].1.stream.cfg.max_segment == if size > 0 {
            size as usize
        } else {
            1
        },
        lanes::all_resized(s, size as usize)[i].0 == s[i].0,
{
}

// ---- targets ----

/// Targets are handed out once: asked again, a session has none, until a stream is opened.
pub proof fn lemma_targets_are_handed_out_once(m: ServerModel, c: Seq<u8>)
    requires
        table::keyed(m.sessions),
        server::has_session_of(m, c),
    ensures
        ({
            let n = server::targets_taken(m, c);
            &&& server::has_session_of(n, c)
            &&& server::undialed(server::session_of(n, c).lanes).len() == 0
            &&& server::targets_taken(n, c) == n
        }),
{
    let s = server::session_of(m, c);
    let t = SessionModel { lanes: server::all_dialed(s.lanes), ..s };
    let k = server::id_key(c);
    table::lemma_with(m.sessions, k, t);
    lemma_none_undialed(s.lanes);
    let n = server::targets_taken(m, c);
    assert(server::all_dialed(t.lanes) =~= t.lanes);
    assert(table::with(n.sessions, k, t) =~= n.sessions);
}

proof fn lemma_none_undialed(s: Seq<(u64, LaneModel)>)
    ensures
        server::undialed(server::all_dialed(s)).len() == 0,
    decreases s.len(),
{
    if s.len() > 0 {
        lemma_none_undialed(s.drop_last());
        assert(server::all_dialed(s).drop_last() =~= server::all_dialed(s.drop_last()));
    }
}

// ---- the query budget ----

proof fn lemma_unexpired_fewer(o: Seq<(u16, u64)>, now: u64)
    ensures
        session::unexpired(o, now).len() <= o.len(),
    decreases o.len(),
{
    reveal(Seq::filter);
    if o.len() > 0 {
        lemma_unexpired_fewer(o.drop_last(), now);
    }
}

/// Never are more queries in flight than the budget allows, and before the handshake is complete never
/// more than one.
pub proof fn lemma_query_budget_is_kept(
    m: ClientModel,
    now: u64,
    opening: Option<Seq<u8>>,
    nonce: Option<Seq<u8>>,
)
    requires
        m.outstanding.len() <= m.cfg.max_query_inflight,
    ensures
        ({
            let n = session::polled_query(m, now, opening, nonce).0;
            &&& n.outstanding.len() <= m.cfg.max_query_inflight
            &&& m.keys is None && m.outstanding.len() <= 1 ==> n.outstanding.len() <= 1
        }),
{
    lemma_unexpired_fewer(m.outstanding, now);
}

} // verus!
