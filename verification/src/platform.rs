//! What the mobile platforms hand over when they start or steer the tunnel, and what they get back.
use vstd::prelude::*;

use crate::ui::config;

verus! {

/// A text that the platform handed over.
#[derive(Debug)]
pub enum HostText {
    /// None was.
    Null,
    /// A text.
    Text(String),
    /// Something that is no text.
    Undecodable,
}

/// The configuration to use: none means that it is to be fetched. Something that is no text is an error,
/// since a configuration was meant.
pub fn explicit_config(t: HostText) -> (r: Result<Option<String>, ()>)
    ensures
        match t {
            HostText::Null => r matches Ok(None),
            HostText::Text(s) => r matches Ok(Some(c)) && c == s,
            HostText::Undecodable => r is Err,
        },
{
    match t {
        HostText::Null => Ok(None),
        HostText::Text(s) => Ok(Some(s)),
        HostText::Undecodable => Err(()),
    }
}

/// The directory for what is kept: nothing where it is missing, blank or no text.
pub fn data_dir(t: HostText) -> (r: Option<String>)
    ensures
        config::seen_string(r) == match t {
            HostText::Text(s) => config::non_blank(s@),
            _ => None,
        },
{
    match t {
        HostText::Text(s) => config::given_text(Some(s.as_str())),
        _ => None,
    }
}

/// A setting that the tunnel can do without: nothing where it is missing or no text.
pub fn optional_setting(t: HostText) -> (r: Option<String>)
    ensures
        match t {
            HostText::Text(s) => r == Some(s),
            _ => r is None,
        },
{
    match t {
        HostText::Text(s) => Some(s),
        _ => None,
    }
}

/// What the platform gets back: 0 where it was done, -1 where not.
pub fn outcome(done: bool) -> (r: i32)
    ensures
        r == if done {
            0int
        } else {
            -1int
        },
{
    if done {
        0
    } else {
        -1
    }
}

/// What the platform gets back for a text that the tunnel is to take: -1 without asking the tunnel where
/// it is no text.
pub fn applied(t: &HostText, taken: bool) -> (r: i32)
    ensures
        r == if t is Text && taken {
            0int
        } else {
            -1int
        },
{
    match t {
        HostText::Text(_) => outcome(taken),
        _ => -1,
    }
}

/// The four parts of an address that is packed into a number, first part highest.
pub open spec fn address_parts(addr: u32) -> Seq<u8> {
    seq![(addr >> 24) as u8, (addr >> 16) as u8, (addr >> 8) as u8, addr as u8]
}

/// The four parts of an address that the platform packed into a number.
pub fn tun_address(addr: i32) -> (r: [u8; 4])
    ensures
        r@ == address_parts(addr as u32),
{
    let a: u32 = addr as u32;
    let r: [u8; 4] = [(a >> 24) as u8, (a >> 16) as u8, (a >> 8) as u8, a as u8];
    assert(r@ =~= address_parts(a));
    r
}

/// How long the platform waits for the tunnel (ms): not at all where it says less than nothing.
pub fn wait_ms(timeout: i32) -> (ms: u32)
    ensures
        ms == if timeout < 0 {
            0
        } else {
            timeout as u32
        },
{
    if timeout < 0 {
        0
    } else {
        timeout as u32
    }
}

} // verus!
