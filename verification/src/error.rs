//! What can go wrong in a store.
use vstd::prelude::*;

use crate::types::Address;

verus! {

/// Why an operation failed for a reason that callers do not tell apart.
#[derive(Clone, Copy, Debug, PartialEq, Eq, Structural, Hash)]
pub enum InternalError {
    /// The fragment claims a payload of no bytes.
    InvalidPayload,
    /// The fragment claims more payload than a fragment may have.
    FragmentTooLarge,
    /// The payload is not as long as the fragment claims.
    PayloadLengthMismatch,
    /// Two contents of different sizes have one hash.
    HashCollision,
    /// A new entry needs a payload and none was given.
    PayloadRequired,
    /// A lookup asked for no match at all.
    InvalidQuery,
    /// The payload is not held locally.
    NoLocalData,
    /// The pack files could not be read.
    PackstoreRead,
    /// The pack files could not be written.
    PackstoreWrite,
    /// The payload could not be unpacked.
    DecompressionFailed,
    /// The payload does not have the hash it is filed under.
    HashMismatch,
    /// A bucket file was written by a newer version.
    IncompatibleVersion,
    /// A bucket file could not be read, written or removed.
    BucketFile,
    /// The index of a bucket does not fit its entries.
    IndexMismatch,
    /// A level marker could not be read or written.
    LevelMarker,
    /// A directory could not be made or a file not renamed.
    FileSystem,
    /// The store keeps nothing on disk.
    NoPath,
    /// A task ended without a result.
    TaskFailed,
    /// The client of a replica is being replaced.
    ClientUnhealthy,
    /// The connection to a replica is gone.
    ConnectionFailed,
    /// A replica answered for another number of addresses than it was asked.
    ResponseMismatch,
    /// The store does not offer the operation.
    OperationNotSupported,
    /// Replication to another server failed.
    ReplicationFailed,
    /// A fragment without bytes, or with the hash of none, was to be stored.
    EmptyFragment,
    /// The task that wrote the same fragment left nothing behind.
    LeaderFailed,
    /// A tracker was to be drained while someone else could still use it.
    TrackerShared,
    /// A file could not be opened or read.
    FileRead,
    /// A remote store answered with a failure.
    Protocol,
}

/// Why the local store refused.
#[derive(Clone, Copy, Debug, PartialEq, Eq, Structural, Hash)]
pub enum LocalImmutableStoreError {
    NotSupported,
    Internal(InternalError),
}

/// Why a store refused.
#[derive(Clone, Copy, Debug, PartialEq, Eq, Structural, Hash)]
pub enum StoreError {
    Internal(InternalError),
    AddressNotFound(Address),
    PayloadNotFound(crate::types::Hash),
    Oversized,
    SlowDown,
    NotSupported,
}

/// Why content could not be written or read.
#[derive(Clone, Copy, Debug, PartialEq, Eq, Structural, Hash)]
pub enum StorageError {
    Internal(InternalError),
    AddressNotFound(Address),
    PayloadNotFound(crate::types::Hash),
    Oversized,
    SlowDown,
    NotSupported,
}

impl StoreError {
    /// The same failure as those who write and read content see it.
    pub open spec fn forwarded(self) -> StorageError {
        match self {
            StoreError::Internal(e) => StorageError::Internal(e),
            StoreError::AddressNotFound(a) => StorageError::AddressNotFound(a),
            StoreError::PayloadNotFound(h) => StorageError::PayloadNotFound(h),
            StoreError::Oversized => StorageError::Oversized,
            StoreError::SlowDown => StorageError::SlowDown,
            StoreError::NotSupported => StorageError::NotSupported,
        }
    }

    /// Hands the failure on to those who write and read content.
    pub fn forward(self) -> (r: StorageError)
        ensures
            r == self.forwarded(),
    {
        match self {
            StoreError::Internal(e) => StorageError::Internal(e),
            StoreError::AddressNotFound(a) => StorageError::AddressNotFound(a),
            StoreError::PayloadNotFound(h) => StorageError::PayloadNotFound(h),
            StoreError::Oversized => StorageError::Oversized,
            StoreError::SlowDown => StorageError::SlowDown,
            StoreError::NotSupported => StorageError::NotSupported,
        }
    }
}

impl LocalImmutableStoreError {
    /// The same failure as callers of a store see it.
    pub open spec fn forwarded(self) -> StoreError {
        match self {
            LocalImmutableStoreError::NotSupported => StoreError::NotSupported,
            LocalImmutableStoreError::Internal(e) => StoreError::Internal(e),
        }
    }

    /// Hands the failure on to the callers of a store.
    pub fn forward(self) -> (r: StoreError)
        ensures
            r == self.forwarded(),
    {
        match self {
            LocalImmutableStoreError::NotSupported => StoreError::NotSupported,
            LocalImmutableStoreError::Internal(e) => StoreError::Internal(e),
        }
    }
}

/// An error that is passed on to callers says what it said before.
pub proof fn law_errors_are_passed_on(
    store: StoreError,
    local: LocalImmutableStoreError,
    internal: InternalError,
    address: Address,
    hash: crate::types::Hash,
)
    ensures
        local.forwarded() == StoreError::Internal(internal) <==> local
            == LocalImmutableStoreError::Internal(internal),
        local.forwarded() == StoreError::NotSupported <==> local
            == LocalImmutableStoreError::NotSupported,
        store.forwarded() == StorageError::Internal(internal) <==> store == StoreError::Internal(
            internal,
        ),
        store.forwarded() == StorageError::AddressNotFound(address) <==> store
            == StoreError::AddressNotFound(address),
        store.forwarded() == StorageError::PayloadNotFound(hash) <==> store
            == StoreError::PayloadNotFound(hash),
        store.forwarded() == StorageError::Oversized <==> store == StoreError::Oversized,
        store.forwarded() == StorageError::SlowDown <==> store == StoreError::SlowDown,
        store.forwarded() == StorageError::NotSupported <==> store == StoreError::NotSupported,
{
}

} // verus!
