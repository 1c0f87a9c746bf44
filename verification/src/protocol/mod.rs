//! Messages of the storage protocol.
pub mod copy;
