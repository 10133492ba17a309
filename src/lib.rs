//! Enclave boundary types and the core of a tree-based group key agreement.
//!
//! - `types`: status codes and owned buffers handed across the enclave boundary.
//! - `tree_math`: index arithmetic over the array-backed tree.
//! - `ratchet_tree`: per-node key material; resolution, Add, Remove, Update,
//!   and where a path is encrypted to and decrypted from.
//! - `application`: per-sender generations of an epoch's key schedule.
//! - `handshake`: credentials and handshake messages.
//! - `group_state`: the state machine that applies handshakes epoch by epoch.
//! - `cert`: the fields of an attestation report certificate.
pub mod types;
pub mod tree_math;
pub mod ratchet_tree;
pub mod application;
pub mod handshake;
pub mod group_state;
pub mod cert;
