//! A personal content-addressed artifact store: named snapshots of files and
//! directory trees whose file contents are deduplicated by fingerprint, with
//! garbage collection of unreferenced blobs and two-way reconciliation of
//! two stores.
use vstd::prelude::*;

pub mod config;
pub mod digest;
pub mod error;
pub mod laws;
pub mod node;
pub mod remote;
pub mod restore;
pub mod store;
pub mod strs;
pub mod sync;

verus! {

/// Environment variable that names the store's home directory.
pub const HBX_HOME_ENV: &'static str = "HBX_HOME";

/// File name of the persisted item collection inside a store directory.
pub const CONFIG_NAME: &'static str = "config";

/// Directory name of the blob store inside a store directory.
pub const STORE_DIRECTORY: &'static str = "store";

} // verus!
