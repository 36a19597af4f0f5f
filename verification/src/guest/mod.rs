//! The rules of the transport modules that run in a WebAssembly host: how they take and hand back bytes,
//! and the order in which they may be called.
pub mod abi;
pub mod bip324;
pub mod xor;
