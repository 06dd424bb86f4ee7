//! Automatic muting of background applications: the decision logic.
//!
//! The library holds the state machines that turn foreground-window changes
//! and user commands into mute and unmute directives, the debounce logic that
//! keeps newly launched processes unmuted, the managed-apps policy with its
//! text encoding, and the tray's recent-apps state. Platform access (window
//! hooks, process queries, the audio backend, files) stays with the caller,
//! which hands plain values in and performs the actions that come back.

pub mod config;
pub mod controller;
pub mod error;
pub mod mute_proxy;
pub mod path;
pub mod tray;
pub mod window;
