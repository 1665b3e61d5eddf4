//! A per-user versioned store for opaque, end-to-end encrypted room-key
//! backups. The server never interprets the stored blobs; it stores, counts
//! and returns ciphertext keyed by (user, backup version, room, session).
//!
//! Backup versions are created with strictly increasing identifiers, only the
//! most recently created version of a user accepts key mutations, and every
//! successful mutation of a version advances its etag so clients can detect
//! staleness without enumerating keys.

use vstd::prelude::*;

pub mod decimal;
pub mod features;
pub mod laws;
pub mod model;
pub mod store;

verus! {

/// Failures of the store, surfaced to the dispatch layer.
///
/// `NotFound` classifies reads of a version, room or session that does not
/// exist, and metadata updates of a missing version. `InvalidParam` rejects a
/// key mutation aimed at a version that is not the user's most recently
/// created one.
#[derive(Clone, Copy, Debug, PartialEq, Eq, Structural)]
pub enum BackupError {
    NotFound,
    InvalidParam,
}

} // verus!
