//! The stream target that a session open carries, as SOCKS5 address bytes: type, address, port.
//!
//! With a domain target the exit resolves the name, so that a network that poisons or blocks DNS
//! cannot interfere with the lookup of the destination.
use vstd::prelude::*;
use vstd::slice::{slice_subrange, slice_to_vec};

use crate::text::from_utf8;
use crate::tunnel::crypto::array_of;
use crate::tunnel::wire::{get16, put, put16};

verus! {

/// Address type: four bytes of IPv4.
pub const ATYP_IPV4: u8 = 0x01;

/// Address type: a domain name behind its length.
pub const ATYP_DOMAIN: u8 = 0x03;

/// Address type: sixteen bytes of IPv6.
pub const ATYP_IPV6: u8 = 0x04;

/// Longest domain that the single length byte can express.
pub const MAX_DOMAIN_LEN: usize = 255;

/// An IP address by its octets.
#[derive(Debug, Clone, Copy, PartialEq, Eq)]
pub enum IpAddress {
    /// IPv4.
    V4([u8; 4]),
    /// IPv6.
    V6([u8; 16]),
}

/// Where a stream should be connected.
#[derive(Debug, PartialEq, Eq)]
pub enum Target {
    /// An address that is already resolved, and its port.
    Ip(IpAddress, u16),
    /// A name for the exit to resolve, and its port.
    Domain(String, u16),
}

/// What a target names.
pub enum TargetModel {
    /// An IPv4 address and a port.
    V4(Seq<u8>, u16),
    /// An IPv6 address and a port.
    V6(Seq<u8>, u16),
    /// A domain and a port.
    Domain(Seq<char>, u16),
}

impl View for Target {
    type V = TargetModel;

    open spec fn view(&self) -> TargetModel {
        match *self {
            Target::Ip(IpAddress::V4(ip), port) => TargetModel::V4(ip@, port),
            Target::Ip(IpAddress::V6(ip), port) => TargetModel::V6(ip@, port),
            Target::Domain(host, port) => TargetModel::Domain(host@, port),
        }
    }
}

/// The port of a target.
pub open spec fn port_of(t: TargetModel) -> u16 {
    match t {
        TargetModel::V4(_, port) => port,
        TargetModel::V6(_, port) => port,
        TargetModel::Domain(_, port) => port,
    }
}

impl Target {
    /// The port, whichever form this is.
    pub fn port(&self) -> (port: u16)
        ensures
            port == port_of(self@),
    {
        match self {
            Target::Ip(_, port) => *port,
            Target::Domain(_, port) => *port,
        }
    }
}

/// Why a target could not be encoded or parsed.
#[derive(Debug, Clone, Copy, PartialEq, Eq, Structural)]
pub enum AddrError {
    /// A domain of no length.
    EmptyDomain,
    /// A domain longer than its length byte can express.
    DomainTooLong(usize),
    /// The first byte is not a known address type.
    UnknownAtyp(u8),
    /// The buffer ended before the address that its type promised.
    Truncated {
        /// Bytes available.
        got: usize,
        /// Bytes that the declared form requires.
        need: usize,
    },
    /// A domain that is not valid UTF-8.
    InvalidUtf8,
}

/// Why a target cannot be encoded, if it cannot.
pub open spec fn encode_error(t: TargetModel) -> Option<AddrError> {
    match t {
        TargetModel::Domain(host, _) => {
            let len = vstd::utf8::encode_utf8(host).len();
            if len == 0 {
                Some(AddrError::EmptyDomain)
            } else if len > MAX_DOMAIN_LEN {
                Some(AddrError::DomainTooLong(len as usize))
            } else {
                None
            }
        },
        _ => None,
    }
}

/// The bytes of a target that can be encoded.
pub open spec fn target_bytes(t: TargetModel) -> Seq<u8> {
    match t {
        TargetModel::V4(ip, port) => seq![ATYP_IPV4] + ip + crate::tunnel::wire::be16(port),
        TargetModel::V6(ip, port) => seq![ATYP_IPV6] + ip + crate::tunnel::wire::be16(port),
        TargetModel::Domain(host, port) => {
            let name = vstd::utf8::encode_utf8(host);
            seq![ATYP_DOMAIN, name.len() as u8] + name + crate::tunnel::wire::be16(port)
        },
    }
}

/// Encodes a target as type, address and port. Fails only for a domain that the length byte cannot
/// express; cutting it short would name another destination.
pub fn encode(target: &Target) -> (r: Result<Vec<u8>, AddrError>)
    ensures
        match r {
            Ok(v) => encode_error(target@) is None && v@ == target_bytes(target@),
            Err(e) => encode_error(target@) == Some(e),
        },
{
    let mut v: Vec<u8> = Vec::new();
    match target {
        Target::Ip(IpAddress::V4(ip), _) => {
            v.push(ATYP_IPV4);
            put(&mut v, ip.as_slice());
        },
        Target::Ip(IpAddress::V6(ip), _) => {
            v.push(ATYP_IPV6);
            put(&mut v, ip.as_slice());
        },
        Target::Domain(host, _) => {
            let name: &[u8] = host.as_str().as_bytes();
            if name.len() == 0 {
                return Err(AddrError::EmptyDomain);
            }
            if name.len() > MAX_DOMAIN_LEN {
                return Err(AddrError::DomainTooLong(name.len()));
            }
            v.push(ATYP_DOMAIN);
            v.push(name.len() as u8);
            put(&mut v, name);
        },
    }
    put16(&mut v, target.port());
    assert(v@ =~= target_bytes(target@));
    Ok(v)
}

/// A buffer of `got` bytes where `need` are required.
pub open spec fn short(got: nat, need: int) -> AddrError {
    AddrError::Truncated { got: got as usize, need: need as usize }
}

/// What parsing the front of `b` gives.
pub open spec fn parsed(b: Seq<u8>) -> Result<TargetModel, AddrError> {
    if b.len() == 0 {
        Err(short(0, 1))
    } else if b[0] == ATYP_IPV4 {
        if b.len() < 7 {
            Err(short(b.len(), 7))
        } else {
            Ok(TargetModel::V4(b.subrange(1, 5), crate::tunnel::wire::be16_at(b, 5)))
        }
    } else if b[0] == ATYP_IPV6 {
        if b.len() < 19 {
            Err(short(b.len(), 19))
        } else {
            Ok(TargetModel::V6(b.subrange(1, 17), crate::tunnel::wire::be16_at(b, 17)))
        }
    } else if b[0] == ATYP_DOMAIN {
        if b.len() < 2 {
            Err(short(b.len(), 2))
        } else if b[1] == 0 {
            Err(AddrError::EmptyDomain)
        } else {
            let end = 2 + b[1] as int;
            if b.len() < end {
                Err(short(b.len(), end + 2))
            } else if !vstd::utf8::valid_utf8(b.subrange(2, end)) {
                Err(AddrError::InvalidUtf8)
            } else if b.len() < end + 2 {
                Err(short(b.len(), end + 2))
            } else {
                Ok(
                    TargetModel::Domain(
                        vstd::utf8::decode_utf8(b.subrange(2, end)),
                        crate::tunnel::wire::be16_at(b, end),
                    ),
                )
            }
        }
    } else {
        Err(AddrError::UnknownAtyp(b[0]))
    }
}

/// Parses type, address and port from the front of `b`. Bytes behind them are ignored, so that a later
/// revision can append fields.
pub fn parse(b: &[u8]) -> (r: Result<Target, AddrError>)
    ensures
        match r {
            Ok(t) => parsed(b@) == Ok::<TargetModel, AddrError>(t@),
            Err(e) => parsed(b@) == Err::<TargetModel, AddrError>(e),
        },
{
    if b.len() == 0 {
        return Err(AddrError::Truncated { got: 0, need: 1 });
    }
    let atyp: u8 = b[0];
    if atyp == ATYP_IPV4 {
        match port_at(b, 5) {
            Err(e) => Err(e),
            Ok(port) => {
                let s: &[u8] = slice_subrange(b, 1, 5);
                let ip: [u8; 4] = array_of::<4>(s);
                assert(ip@ =~= b@.subrange(1, 5));
                Ok(Target::Ip(IpAddress::V4(ip), port))
            },
        }
    } else if atyp == ATYP_IPV6 {
        match port_at(b, 17) {
            Err(e) => Err(e),
            Ok(port) => {
                let s: &[u8] = slice_subrange(b, 1, 17);
                let ip: [u8; 16] = array_of::<16>(s);
                assert(ip@ =~= b@.subrange(1, 17));
                Ok(Target::Ip(IpAddress::V6(ip), port))
            },
        }
    } else if atyp == ATYP_DOMAIN {
        if b.len() < 2 {
            return Err(AddrError::Truncated { got: b.len(), need: 2 });
        }
        let len: usize = b[1] as usize;
        if len == 0 {
            return Err(AddrError::EmptyDomain);
        }
        let end: usize = 2 + len;
        if b.len() < end {
            return Err(AddrError::Truncated { got: b.len(), need: end + 2 });
        }
        let name: Vec<u8> = slice_to_vec(slice_subrange(b, 2, end));
        match from_utf8(name) {
            None => Err(AddrError::InvalidUtf8),
            Some(host) => {
                proof {
                    vstd::utf8::encode_utf8_decode_utf8(host@);
                }
                match port_at(b, end) {
                    Ok(port) => Ok(Target::Domain(host, port)),
                    Err(e) => Err(e),
                }
            },
        }
    } else {
        Err(AddrError::UnknownAtyp(atyp))
    }
}

/// The big-endian port at `off`.
fn port_at(b: &[u8], off: usize) -> (r: Result<u16, AddrError>)
    requires
        off <= 0xffff,
    ensures
        match r {
            Ok(port) => b@.len() >= off + 2 && port == crate::tunnel::wire::be16_at(
                b@,
                off as int,
            ),
            Err(e) => b@.len() < off + 2 && e == short(b@.len(), off + 2),
        },
{
    if b.len() < off + 2 {
        return Err(AddrError::Truncated { got: b.len(), need: off + 2 });
    }
    Ok(get16(b, off))
}

/// A target that the wire can carry: an address has the octets of its kind, and a domain can be
/// encoded.
pub open spec fn encodable(t: TargetModel) -> bool {
    &&& encode_error(t) is None
    &&& t matches TargetModel::V4(ip, _) ==> ip.len() == 4
    &&& t matches TargetModel::V6(ip, _) ==> ip.len() == 16
}

/// A target parses from its bytes, whatever stands behind them.
pub proof fn lemma_target_round_trip(t: TargetModel, extra: Seq<u8>)
    requires
        encodable(t),
    ensures
        parsed(target_bytes(t) + extra) == Ok::<TargetModel, AddrError>(t),
{
    let b = target_bytes(t) + extra;
    match t {
        TargetModel::V4(ip, port) => {
            assert(b.subrange(1, 5) =~= ip);
            assert(b.subrange(5, 7) =~= crate::tunnel::wire::be16(port));
            crate::tunnel::wire::lemma_be16_round_trip(b, 5, port);
        },
        TargetModel::V6(ip, port) => {
            assert(b.subrange(1, 17) =~= ip);
            assert(b.subrange(17, 19) =~= crate::tunnel::wire::be16(port));
            crate::tunnel::wire::lemma_be16_round_trip(b, 17, port);
        },
        TargetModel::Domain(host, port) => {
            let name = vstd::utf8::encode_utf8(host);
            let end = 2 + name.len() as int;
            assert(b[1] == name.len());
            assert(b.subrange(2, end) =~= name);
            assert(b.subrange(end, end + 2) =~= crate::tunnel::wire::be16(port));
            crate::tunnel::wire::lemma_be16_round_trip(b, end, port);
            vstd::utf8::encode_utf8_valid_utf8(host);
            vstd::utf8::encode_utf8_decode_utf8(host);
        },
    }
}

/// No proper prefix of a target's bytes parses.
pub proof fn lemma_truncated_target_errs(t: TargetModel, cut: int)
    requires
        encodable(t),
        0 <= cut < target_bytes(t).len(),
    ensures
        parsed(target_bytes(t).subrange(0, cut)) is Err,
{
    let full = target_bytes(t);
    let b = full.subrange(0, cut);
    if cut > 0 {
        assert(b[0] == full[0]);
        if cut > 1 {
            assert(b[1] == full[1]);
        }
    }
}

/// A target stands on the wire as SOCKS5 has it: a type of 1, 4 or 3, the octets of the address or the
/// length of the name and the name, and the port with its high byte first.
pub proof fn lemma_target_layout(ip4: Seq<u8>, ip6: Seq<u8>, host: Seq<char>, port: u16)
    requires
        ip4.len() == 4,
        ip6.len() == 16,
        1 <= vstd::utf8::encode_utf8(host).len() <= 255,
    ensures
        target_bytes(TargetModel::V4(ip4, port)) == seq![1u8] + ip4 + seq![
            (port / 256) as u8,
            (port % 256) as u8,
        ],
        target_bytes(TargetModel::V6(ip6, port)) == seq![4u8] + ip6 + seq![
            (port / 256) as u8,
            (port % 256) as u8,
        ],
        target_bytes(TargetModel::Domain(host, port)) == seq![
            3u8,
            vstd::utf8::encode_utf8(host).len() as u8,
        ] + vstd::utf8::encode_utf8(host) + seq![(port / 256) as u8, (port % 256) as u8],
{
}

/// What is cut short is told with what was there and what the form takes: the type alone where
/// nothing is there, 7 bytes for a version 4 address, 19 for a version 6 address, and for a name
/// first its length and then the whole of it.
pub proof fn lemma_truncation_is_measured(b: Seq<u8>)
    requires
        b.len() <= usize::MAX,
    ensures
        b.len() == 0 ==> parsed(b) == Err::<TargetModel, AddrError>(
            AddrError::Truncated { got: 0, need: 1 },
        ),
        0 < b.len() < 7 && b[0] == 1 ==> parsed(b) == Err::<TargetModel, AddrError>(
            AddrError::Truncated { got: b.len() as usize, need: 7 },
        ),
        0 < b.len() < 19 && b[0] == 4 ==> parsed(b) == Err::<TargetModel, AddrError>(
            AddrError::Truncated { got: b.len() as usize, need: 19 },
        ),
        b.len() == 1 && b[0] == 3 ==> parsed(b) == Err::<TargetModel, AddrError>(
            AddrError::Truncated { got: 1, need: 2 },
        ),
        b.len() >= 2 && b[0] == 3 && b[1] == 0 ==> parsed(b) == Err::<TargetModel, AddrError>(
            AddrError::EmptyDomain,
        ),
        b.len() >= 2 && b[0] == 3 && b[1] > 0 && b.len() < 2 + b[1] ==> parsed(b) == Err::<
            TargetModel,
            AddrError,
        >(AddrError::Truncated { got: b.len() as usize, need: (4 + b[1]) as usize }),
        b.len() > 0 && b[0] != 1 && b[0] != 3 && b[0] != 4 ==> parsed(b) == Err::<
            TargetModel,
            AddrError,
        >(AddrError::UnknownAtyp(b[0])),
{
}

} // verus!
