//! The messages posted to a blobstore's core: one variant per operation,
//! each carrying exactly the payload that operation needs.

use vstd::prelude::*;

verus! {

/// Operation tags.
#[derive(Debug, Clone, Copy, PartialEq, Eq, Structural)]
pub enum Op {
    /// Get I/O size.
    IoSize,
    /// Get an I/O channel.
    Channel,
    /// Write one page of a blob.
    Write,
    /// Read one page of a blob.
    Read,
    /// Create a blob.
    Create,
    /// Delete a blob.
    Delete,
    /// Get the free cluster count.
    ClusterCount,
    /// Open a blob.
    Open,
    /// Unload the blobstore.
    Unload,
    /// Sync a blob's metadata to disk.
    Sync,
    /// Resize a blob.
    Resize,
    /// Close a blob.
    Close,
}

/// One posted operation with its payload.
#[derive(Debug)]
pub enum Msg {
    Unload,
    Write { offset: u64, bid: u64, data: Vec<u8> },
    Read { offset: u64, bid: u64 },
    Create,
    Delete { bid: u64 },
    Open { bid: u64 },
    Sync { bid: u64 },
    Resize { bid: u64, blob_size: u64 },
    Close { bid: u64 },
}

impl Msg {
    /// The tag of this message.
    pub open spec fn spec_op(self) -> Op {
        match self {
            Msg::Unload => Op::Unload,
            Msg::Write { .. } => Op::Write,
            Msg::Read { .. } => Op::Read,
            Msg::Create => Op::Create,
            Msg::Delete { .. } => Op::Delete,
            Msg::Open { .. } => Op::Open,
            Msg::Sync { .. } => Op::Sync,
            Msg::Resize { .. } => Op::Resize,
            Msg::Close { .. } => Op::Close,
        }
    }

    pub fn op(&self) -> (r: Op)
        ensures
            r == self.spec_op(),
    {
        match self {
            Msg::Unload => Op::Unload,
            Msg::Write { .. } => Op::Write,
            Msg::Read { .. } => Op::Read,
            Msg::Create => Op::Create,
            Msg::Delete { .. } => Op::Delete,
            Msg::Open { .. } => Op::Open,
            Msg::Sync { .. } => Op::Sync,
            Msg::Resize { .. } => Op::Resize,
            Msg::Close { .. } => Op::Close,
        }
    }

    /// Close a blob.
    pub fn gen_close(bid: u64) -> (r: Msg)
        ensures
            r == (Msg::Close { bid }),
    {
        Msg::Close { bid }
    }

    /// Unload the blobstore.
    pub fn gen_unload() -> (r: Msg)
        ensures
            r == Msg::Unload,
    {
        Msg::Unload
    }

    /// Write one page of data to a blob.
    pub fn gen_write(offset: u64, bid: u64, data: Vec<u8>) -> (r: Msg)
        ensures
            r == (Msg::Write { offset, bid, data }),
    {
        Msg::Write { offset, bid, data }
    }

    /// Read one page of a blob.
    pub fn gen_read(offset: u64, bid: u64) -> (r: Msg)
        ensures
            r == (Msg::Read { offset, bid }),
    {
        Msg::Read { offset, bid }
    }

    /// Create a blob.
    pub fn gen_create() -> (r: Msg)
        ensures
            r == Msg::Create,
    {
        Msg::Create
    }

    /// Delete a blob.
    pub fn gen_delete(bid: u64) -> (r: Msg)
        ensures
            r == (Msg::Delete { bid }),
    {
        Msg::Delete { bid }
    }

    /// Open a blob.
    pub fn gen_open(bid: u64) -> (r: Msg)
        ensures
            r == (Msg::Open { bid }),
    {
        Msg::Open { bid }
    }

    /// Sync a blob's metadata.
    pub fn gen_sync(bid: u64) -> (r: Msg)
        ensures
            r == (Msg::Sync { bid }),
    {
        Msg::Sync { bid }
    }

    /// Resize a blob to a cluster count.
    pub fn gen_resize(bid: u64, blob_size: u64) -> (r: Msg)
        ensures
            r == (Msg::Resize { bid, blob_size }),
    {
        Msg::Resize { bid, blob_size }
    }
}

} // verus!
