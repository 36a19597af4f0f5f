//! The rules behind the user interface: what is shown, what a click does, what is kept.
pub mod apps;
pub mod clicks;
pub mod config;
pub mod control;
pub mod diag;
pub mod kept;
pub mod labels;
pub mod models;
pub mod persist;
pub mod pins;
pub mod provider;
pub mod service;
pub mod timeline;
pub mod told;
pub mod tray;
pub mod unbounded;
pub mod unbounded_diag;
