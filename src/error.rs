//! Errors of the store's operations.
use vstd::prelude::*;

verus! {

/// Why an operation of the store failed.
#[derive(Debug, Clone, Copy, PartialEq, Eq, Structural)]
pub enum StoreError {
    /// No item of the requested name.
    UnknownItem,
    /// The remote host lacks the tool, and installing it was not asked for.
    RemoteNotInstalled,
    /// The remote manifest lacks the config or the storage path.
    RemoteInfoError,
    /// A remote address is not of the form `user@host`.
    InvalidAddress,
}

} // verus!
