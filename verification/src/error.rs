//! The engine's error taxonomy; every failure of the public API surface
//! is one of these.

use vstd::prelude::*;

verus! {

/// Why an engine operation failed.
#[derive(Debug, Clone, Copy, PartialEq, Eq, Structural)]
pub enum EngineError {
    /// The backend refused to initialize the device.
    BsInitError,
    /// The chunk's metadata row is absent.
    MetaNotExist,
    /// A stored checksum disagrees with the data read back.
    CheckSumErr,
    /// A read reaches past the chunk's size.
    ReadOutRange,
    /// A write starts strictly past the chunk's size.
    HoleNotAllowed,
    /// Reload could not find usable global metadata.
    RestoreFail,
    /// The global metadata row is missing on the write path.
    GlobalGetFail,
    /// The allocator has no free page left.
    NoSpace,
    /// The metadata store failed.
    MetaKvError,
    /// The block backend failed.
    BackendError,
}

impl EngineError {
    /// A short description of the failure.
    pub fn message(&self) -> &'static str {
        match self {
            EngineError::BsInitError => "cannot init bs",
            EngineError::MetaNotExist => "chunk metadata not found",
            EngineError::CheckSumErr => "checksum mismatch",
            EngineError::ReadOutRange => "read out of range",
            EngineError::HoleNotAllowed => "hole is not allowed",
            EngineError::RestoreFail => "restore fail",
            EngineError::GlobalGetFail => "fail to get global metadata",
            EngineError::NoSpace => "no free page left",
            EngineError::MetaKvError => "metadata store error",
            EngineError::BackendError => "block backend error",
        }
    }
}

} // verus!
