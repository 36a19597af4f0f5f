//! The control-plane protocol between the client and the tunnel service: commands, status and logs. Data
//! never cross it.
pub mod client;
pub mod codec;
pub mod message;
