//! The DNS tunnel itself: codecs, reliable streams, key schedule and sessions.
pub mod addr;
pub mod agreement;
pub mod arq;
pub mod arrival;
pub mod bits;
pub mod compress;
pub mod crypto;
pub mod delivery;
pub mod dns;
pub mod double;
pub mod frame;
pub mod lanes;
pub mod lasting;
pub mod mtu;
pub mod pacing;
pub mod polling;
pub mod reading;
pub mod segments;
pub mod server;
pub mod serving;
pub mod session;
pub mod steering;
pub mod waiting;
pub mod wire;
