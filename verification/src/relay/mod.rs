//! The tunnel server around the sessions: its counters, their export, and what it does with streams.
pub mod carrying;
pub mod collector;
pub mod dialing;
pub mod egress;
pub mod export;
pub mod metrics;
pub mod otlp;
