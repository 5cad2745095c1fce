//! Global and per-chunk metadata: the engine's data model.

use vstd::prelude::*;

use crate::utils::BitMap;
use crate::utils::BLOB_PAGES;
use crate::utils::PAGE_SIZE;

verus! {

/// Physical position of one page: a blob and a page offset inside it.
#[derive(Debug, Clone, Copy, PartialEq, Eq, Structural)]
pub struct PagePos {
    pub bid: u64,
    pub offset: u64,
}

/// Ghost image of one chunk's metadata row.
#[verifier::ext_equal]
pub ghost struct ChunkMetaV {
    pub size: u64,
    pub location: Seq<PagePos>,
    pub csum_type: Seq<char>,
    pub csum_data: Seq<u32>,
}

/// Metadata of one named chunk: byte size, the dense map from logical page
/// index to physical position, and one checksum per logical page.
#[derive(Debug)]
pub struct ChunkMeta {
    pub(crate) size: u64,
    pub(crate) location: Vec<PagePos>,
    pub(crate) csum_type: String,
    pub(crate) csum_data: Vec<u32>,
}

impl View for ChunkMeta {
    type V = ChunkMetaV;

    closed spec fn view(&self) -> ChunkMetaV {
        ChunkMetaV {
            size: self.size,
            location: self.location@,
            csum_type: self.csum_type@,
            csum_data: self.csum_data@,
        }
    }
}

/// Number of pages a chunk of `size` bytes occupies.
pub open spec fn pages_of_size(size: u64) -> int {
    (size + PAGE_SIZE - 1) as int / PAGE_SIZE as int
}

/// Compute the page count of a byte size.
pub fn pages_for_size(size: u64) -> (r: u64)
    ensures
        r as int == pages_of_size(size),
        r <= 0x10_0000_0000_0000,
{
    if size == 0 {
        0
    } else {
        let r = (size - 1) / PAGE_SIZE + 1;
        assert((size - 1) as int / 4096 + 1 == (size + 4095) as int / 4096) by (nonlinear_arith)
            requires
                1 <= size <= u64::MAX,
        ;
        assert((size + 4095) as int / 4096 <= 0x10_0000_0000_0000) by (nonlinear_arith)
            requires
                size <= u64::MAX,
        ;
        r
    }
}

impl ChunkMetaV {
    /// Shape invariant: one position and one checksum per logical page,
    /// and the checksum algorithm label is one of the two known names.
    pub open spec fn wf_shape(self) -> bool {
        &&& self.location.len() == pages_of_size(self.size)
        &&& self.csum_data.len() == pages_of_size(self.size)
        &&& (self.csum_type == "crc32"@ || self.csum_type == "CRC32"@)
    }
}

impl Default for ChunkMeta {
    /// A fresh chunk: no bytes, no pages, default checksum label.
    fn default() -> (r: Self)
        ensures
            r@.size == 0,
            r@.location.len() == 0,
            r@.csum_data.len() == 0,
            r@.csum_type == "crc32"@,
            r@.wf_shape(),
    {
        let r = ChunkMeta {
            size: 0,
            location: Vec::new(),
            csum_type: String::from_str("crc32"),
            csum_data: Vec::new(),
        };
        r
    }
}

impl ChunkMeta {
    /// Spell out the view for the sibling modules that build and encode rows.
    pub(crate) proof fn lemma_view(&self)
        ensures
            self@ == (ChunkMetaV {
                size: self.size,
                location: self.location@,
                csum_type: self.csum_type@,
                csum_data: self.csum_data@,
            }),
    {
    }

    pub fn get_size(&self) -> (r: u64)
        ensures
            r == self@.size,
    {
        self.size
    }
}

/// What `stat` reports about a chunk.
#[derive(Debug)]
pub struct StatMeta {
    pub size: u64,
    pub csum_type: String,
}

impl StatMeta {
    pub fn get_size(&self) -> (r: u64)
        ensures
            r == self.size,
    {
        self.size
    }
}

/// Description of the device below the engine.
#[derive(Debug, Clone, Copy, PartialEq, Eq, Structural)]
pub struct DeviceInfo {
    pub cluster_size: u64,
    pub page_size: u64,
    pub io_unit: u64,
    pub total_cluster: u64,
}

impl DeviceInfo {
    pub fn new(total_cluster: u64) -> (r: Self)
        ensures
            r.cluster_size == 1,
            r.page_size == PAGE_SIZE,
            r.io_unit == PAGE_SIZE,
            r.total_cluster == total_cluster,
    {
        Self { cluster_size: 1, page_size: PAGE_SIZE, io_unit: PAGE_SIZE, total_cluster }
    }
}

/// Ghost image of the global engine metadata; each bitmap appears as its
/// sequence of bits.
#[verifier::ext_equal]
pub ghost struct MadEngineV {
    pub blobs: Seq<u64>,
    pub free_list: Seq<Seq<bool>>,
    pub device: DeviceInfo,
    pub blob_size: u64,
}

/// Global engine metadata: the blobs the engine owns and, for each, the
/// authoritative free/used bitmap, aligned index by index with `blobs`.
#[derive(Debug)]
pub struct MadEngine {
    pub(crate) free_list: Vec<BitMap>,
    pub(crate) blobs: Vec<u64>,
    pub(crate) device: DeviceInfo,
    pub(crate) blob_size: u64,
}

impl View for MadEngine {
    type V = MadEngineV;

    closed spec fn view(&self) -> MadEngineV {
        MadEngineV {
            blobs: self.blobs@,
            free_list: self.free_list@.map_values(|b: BitMap| b@),
            device: self.device,
            blob_size: self.blob_size,
        }
    }
}

impl MadEngineV {
    /// Shape invariant: one bitmap of the fixed blob capacity per blob,
    /// and no blob listed twice.
    pub open spec fn wf_shape(self) -> bool {
        &&& self.free_list.len() == self.blobs.len()
        &&& forall|i: int|
            0 <= i < self.free_list.len() ==> (#[trigger] self.free_list[i]).len()
                == BLOB_PAGES
        &&& forall|i: int, j: int|
            0 <= i < j < self.blobs.len() ==> self.blobs[i] != self.blobs[j]
    }
}

impl MadEngine {
    /// The stored bitmaps are well-formed, of the fixed blob capacity, one
    /// per blob.
    pub(crate) open spec fn lists_wf(&self) -> bool {
        &&& self.free_list@.len() == self.blobs@.len()
        &&& forall|i: int|
            0 <= i < self.free_list@.len() ==> (#[trigger] self.free_list@[i]).wf()
                && self.free_list@[i].spec_size() == BLOB_PAGES
    }

    /// Spell out the view for the sibling modules that build and encode rows.
    pub(crate) proof fn lemma_view(&self)
        ensures
            self@ == (MadEngineV {
                blobs: self.blobs@,
                free_list: self.free_list@.map_values(|b: BitMap| b@),
                device: self.device,
                blob_size: self.blob_size,
            }),
    {
    }

    pub fn new(total_cluster: u64, init_blob_size: u64) -> (r: Self)
        ensures
            r@.blobs.len() == 0,
            r@.free_list.len() == 0,
            r@.device == (DeviceInfo {
                cluster_size: 1,
                page_size: PAGE_SIZE,
                io_unit: PAGE_SIZE,
                total_cluster,
            }),
            r@.blob_size == init_blob_size,
            r@.wf_shape(),
    {
        Self {
            free_list: Vec::new(),
            blobs: Vec::new(),
            device: DeviceInfo::new(total_cluster),
            blob_size: init_blob_size,
        }
    }

    pub fn set_total_cluster(&mut self, total_cluster: u64)
        ensures
            final(self)@ == (MadEngineV {
                device: DeviceInfo {
                    cluster_size: total_cluster,
                    ..old(self)@.device
                },
                ..old(self)@
            }),
    {
        self.device.cluster_size = total_cluster;
    }
}

/// One worker's shard: the blobs it owns and its own copies of their
/// bitmaps, aligned index by index with `tblobs`.
#[derive(Debug)]
pub struct ThreadData {
    pub tblobs: Vec<u64>,
    pub tfree_list: Vec<BitMap>,
}

impl Default for ThreadData {
    fn default() -> (r: Self)
        ensures
            r.tblobs@.len() == 0,
            r.tfree_list@.len() == 0,
    {
        Self { tblobs: Vec::new(), tfree_list: Vec::new() }
    }
}

/// Capacity summary of the file-system substrate.
#[derive(Debug, Clone, Copy, PartialEq, Eq, Structural)]
pub struct FsInfo {
    pub cluster_size: u64,
    pub cluster_total: u64,
    pub cluster_free: u64,
}

impl FsInfo {
    pub fn set(cluster_size: u64, cluster_total: u64, cluster_free: u64) -> (r: Self)
        ensures
            r == (FsInfo { cluster_size, cluster_total, cluster_free }),
    {
        Self { cluster_size, cluster_total, cluster_free }
    }
}

} // verus!
