//! Resolves public keys for accounts on a remote identity service and
//! reconciles them into a local authorized-keys file.
//!
//! The verified core is the layered configuration merge and the idempotent
//! managed-block text synchronization; network and file plumbing live in the
//! surrounding application.

pub mod config;
pub mod orchestrate;
pub mod sync;
