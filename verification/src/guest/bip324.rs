//! The BIP324 module around its protocol: how it is configured, in which order it may be called, and how
//! it frames what it hands back. A call that is not allowed ends the connection.
use vstd::prelude::*;

verus! {

/// Which side the module plays.
#[derive(Debug, PartialEq, Eq, Structural, Clone, Copy)]
pub enum Role {
    /// It begins.
    Initiator,
    /// It answers.
    Responder,
}

/// The configuration of the module.
#[derive(Debug)]
pub struct InitConfig {
    /// Which side it plays.
    pub role: Role,
    /// The network's four bytes.
    pub magic: Vec<u8>,
    /// The key for the side door; none where it is empty.
    pub k_srv: Vec<u8>,
    /// What is sent first.
    pub garbage: Vec<u8>,
}

/// The configuration of the module.
pub struct InitModel {
    /// Which side it plays.
    pub role: Role,
    /// The network's four bytes.
    pub magic: Seq<u8>,
    /// The key for the side door.
    pub k_srv: Seq<u8>,
    /// What is sent first.
    pub garbage: Seq<u8>,
}

impl View for InitConfig {
    type V = InitModel;

    open spec fn view(&self) -> InitModel {
        InitModel {
            role: self.role,
            magic: self.magic@,
            k_srv: self.k_srv@,
            garbage: self.garbage@,
        }
    }
}

/// The role that a byte stands for.
pub open spec fn role_of(b: u8) -> Option<Role> {
    if b == 0 {
        Some(Role::Initiator)
    } else if b == 1 {
        Some(Role::Responder)
    } else {
        None
    }
}

/// The length of the side door's key.
pub open spec fn key_len(cfg: Seq<u8>) -> int {
    cfg[5] * 256 + cfg[6]
}

/// What a configuration says: a byte for the role, four for the network, two for the length of the key,
/// the key, and the rest. Nothing where it is too short or the role is not known.
pub open spec fn init_of(cfg: Seq<u8>) -> Option<InitModel> {
    if cfg.len() < 7 || role_of(cfg[0]) is None || cfg.len() < 7 + key_len(cfg) {
        None
    } else {
        Some(
            InitModel {
                role: role_of(cfg[0])->0,
                magic: cfg.subrange(1, 5),
                k_srv: cfg.subrange(7, 7 + key_len(cfg)),
                garbage: cfg.skip(7 + key_len(cfg)),
            },
        )
    }
}

/// Reads a configuration.
pub fn parse_init(cfg: &[u8]) -> (r: Option<InitConfig>)
    ensures
        match r {
            Some(c) => init_of(cfg@) == Some(c@),
            None => init_of(cfg@) is None,
        },
{
    if cfg.len() < 7 {
        return None;
    }
    let role: Role = match cfg[0] {
        0 => Role::Initiator,
        1 => Role::Responder,
        _ => {
            return None;
        },
    };
    let end: usize = 7 + cfg[5] as usize * 256 + cfg[6] as usize;
    if cfg.len() < end {
        return None;
    }
    let garbage: Vec<u8> = vstd::slice::slice_to_vec(
        vstd::slice::slice_subrange(cfg, end, cfg.len()),
    );
    assert(cfg@.subrange(end as int, cfg@.len() as int) =~= cfg@.skip(end as int));
    Some(
        InitConfig {
            role,
            magic: vstd::slice::slice_to_vec(vstd::slice::slice_subrange(cfg, 1, 5)),
            k_srv: vstd::slice::slice_to_vec(vstd::slice::slice_subrange(cfg, 7, end)),
            garbage,
        },
    )
}

/// The bytes of a configuration.
pub open spec fn init_bytes(c: InitModel) -> Seq<u8> {
    seq![if c.role is Initiator { 0u8 } else { 1u8 }] + c.magic + seq![
        (c.k_srv.len() / 256) as u8,
        (c.k_srv.len() % 256) as u8,
    ] + c.k_srv + c.garbage
}

/// A configuration that was written is read back as it was.
pub proof fn lemma_init_round_trip(c: InitModel)
    requires
        c.magic.len() == 4,
        c.k_srv.len() < 0x1_0000,
    ensures
        init_of(init_bytes(c)) == Some(c),
{
    let b = init_bytes(c);
    let n = c.k_srv.len() as int;
    assert(b.len() == 7 + n + c.garbage.len());
    assert(b[5] == (n / 256) as u8);
    assert(b[6] == (n % 256) as u8);
    assert(n / 256 < 256) by (nonlinear_arith)
        requires
            n < 0x1_0000,
    ;
    assert(key_len(b) == n);
    assert(b.subrange(1, 5) =~= c.magic);
    assert(b.subrange(7, 7 + n) =~= c.k_srv);
    assert(b.skip(7 + n) =~= c.garbage);
}

/// Where a connection stands.
#[derive(Debug, PartialEq, Eq, Structural, Clone, Copy)]
pub enum GuestState {
    /// It is not configured.
    New,
    /// It is shaking hands.
    Handshaking,
    /// It carries bytes.
    Established,
}

/// Whether a handshake step is allowed.
pub fn may_step(s: GuestState) -> (r: bool)
    ensures
        r == (s is Handshaking),
{
    match s {
        GuestState::Handshaking => true,
        _ => false,
    }
}

/// Whether bytes may be carried.
pub fn may_transform(s: GuestState) -> (r: bool)
    ensures
        r == (s is Established),
{
    match s {
        GuestState::Established => true,
        _ => false,
    }
}

/// Where a connection stands after a handshake step.
pub fn after_step(done: bool) -> (s: GuestState)
    ensures
        s == if done {
            GuestState::Established
        } else {
            GuestState::Handshaking
        },
{
    if done {
        GuestState::Established
    } else {
        GuestState::Handshaking
    }
}

/// What a handshake step hands back: whether it is done, then what is to be sent.
pub fn step_frame(done: bool, outbound: &[u8]) -> (frame: Vec<u8>)
    ensures
        frame@ == seq![if done { 1u8 } else { 0u8 }] + outbound@,
{
    let mut frame: Vec<u8> = Vec::new();
    frame.push(
        if done {
            1
        } else {
            0
        },
    );
    frame.extend_from_slice(outbound);
    assert(frame@ =~= seq![if done { 1u8 } else { 0u8 }] + outbound@);
    frame
}

/// The contents of messages, one after the other.
pub open spec fn joined(messages: Seq<Vec<u8>>) -> Seq<u8>
    decreases messages.len(),
{
    if messages.len() == 0 {
        Seq::empty()
    } else {
        joined(messages.drop_last()) + messages.last()@
    }
}

/// The bytes for the app from the messages that were opened: none where there were none.
pub fn app_bytes(messages: &Vec<Vec<u8>>) -> (app: Vec<u8>)
    ensures
        app@ == joined(messages@),
{
    let mut app: Vec<u8> = Vec::new();
    let mut i: usize = 0;
    assert(messages@.take(0) =~= Seq::empty());
    while i < messages.len()
        invariant
            i <= messages@.len(),
            app@ == joined(messages@.take(i as int)),
        decreases messages@.len() - i,
    {
        assert(messages@.take(i + 1).drop_last() =~= messages@.take(i as int));
        app.extend_from_slice(messages[i].as_slice());
        i = i + 1;
    }
    assert(messages@.take(i as int) =~= messages@);
    app
}

/// The room for a sealed text: the text and a tag.
pub fn sealed_room(plain: usize) -> (n: usize)
    requires
        plain <= usize::MAX - 16,
    ensures
        n == plain + 16,
{
    plain + 16
}

/// The room for an opened text: nothing where there is not even a tag.
pub fn opened_room(sealed: usize) -> (r: Option<usize>)
    ensures
        r == if sealed < 16 {
            None
        } else {
            Some((sealed - 16) as usize)
        },
{
    if sealed < 16 {
        None
    } else {
        Some(sealed - 16)
    }
}

/// What came of opening: a negative number from the host means that the tag does not fit, another one is
/// how much was opened.
pub fn opened(n: i64, out: Vec<u8>) -> (r: Option<Vec<u8>>)
    ensures
        n < 0 ==> r is None,
        n >= 0 ==> (r matches Some(v) && v@ == if n < out@.len() {
            out@.take(n as int)
        } else {
            out@
        }),
{
    if n < 0 {
        return None;
    }
    let mut out: Vec<u8> = out;
    let ghost was = out@;
    let wide: u64 = n as u64;
    if wide < out.len() as u64 {
        out.truncate(wide as usize);
        assert(out@ =~= was.take(n as int));
    }
    Some(out)
}

/// Messages are joined in order, with nothing between them: those of two lists one after the other are
/// what each of them gives, one after the other, and one message gives itself.
pub proof fn lemma_messages_are_joined_in_order(a: Seq<Vec<u8>>, b: Seq<Vec<u8>>, one: Vec<u8>)
    ensures
        joined(a + b) == joined(a) + joined(b),
        joined(seq![one]) == one@,
    decreases b.len(),
{
    reveal_with_fuel(joined, 2);
    assert(seq![one].drop_last() =~= Seq::empty());
    assert(joined(seq![one]) =~= one@);
    if b.len() == 0 {
        assert(a + b =~= a);
        assert(joined(a) + joined(b) =~= joined(a));
    } else {
        lemma_messages_are_joined_in_order(a, b.drop_last(), one);
        assert((a + b).drop_last() =~= a + b.drop_last());
        assert(joined(a + b) =~= joined(a) + joined(b));
    }
}

} // verus!
