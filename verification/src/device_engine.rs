//! The block backend the engine drives: blobs addressed by id, each a run
//! of fixed-size pages. This model holds the page bytes directly; a page
//! never written reads as zeros.

use vstd::prelude::*;
use vstd::pervasive::VecAdditionalExecFns;
use vstd::slice::slice_to_vec;

use crate::common::PagePos;
use crate::utils::CLUSTER_SIZE_PAGES;
use crate::utils::PAGE_SIZE;

verus! {

/// A page of zeros.
pub open spec fn zero_page() -> Seq<u8> {
    Seq::new(PAGE_SIZE as nat, |i: int| 0u8)
}

/// Build a zeroed page buffer.
pub fn make_zero_page() -> (r: Vec<u8>)
    ensures
        r@ == zero_page(),
{
    let mut r: Vec<u8> = Vec::new();
    let mut i: usize = 0;
    while i < 4096
        invariant
            i <= 4096,
            r@.len() == i,
            forall|j: int| 0 <= j < i ==> r@[j] == 0u8,
        decreases 4096 - i,
    {
        r.push(0);
        i = i + 1;
    }
    proof {
        assert(r@ =~= zero_page());
    }
    r
}

/// Handle of one blobstore: the blobs it holds, each a run of pages.
#[derive(Debug)]
pub struct DeviceEngine {
    pub(crate) blobs: Vec<Vec<Vec<u8>>>,
    pub(crate) name: String,
    pub(crate) io_size: u64,
    pub(crate) total_clusters: u64,
}

/// A created blob, known by its id.
#[derive(Debug, Clone, Copy, PartialEq, Eq, Structural)]
pub struct EngineBlob {
    pub bl: u64,
}

impl EngineBlob {
    pub fn get_id(&self) -> (r: u64)
        ensures
            r == self.bl,
    {
        self.bl
    }
}

impl DeviceEngine {
    /// Every stored page holds either a full page of bytes or nothing yet.
    pub closed spec fn wf(self) -> bool {
        forall|b: int, p: int|
            0 <= b < self.blobs@.len() && 0 <= p < self.blobs@[b]@.len() ==> ((
            #[trigger] self.blobs@[b]@[p])@.len() == PAGE_SIZE || self.blobs@[b]@[p]@.len() == 0)
    }

    /// The device's label.
    pub closed spec fn spec_name(self) -> Seq<char> {
        self.name@
    }

    /// The io unit size reported by the backend.
    pub closed spec fn spec_io_size(self) -> u64 {
        self.io_size
    }

    /// The cluster count reported by the backend.
    pub closed spec fn spec_total_clusters(self) -> u64 {
        self.total_clusters
    }

    /// Number of blobs created so far.
    pub closed spec fn blob_count(self) -> nat {
        self.blobs@.len()
    }

    /// Capacity of blob `b`, in pages.
    pub closed spec fn page_count(self, b: int) -> nat {
        self.blobs@[b]@.len()
    }

    /// The content of page `p` of blob `b`.
    pub closed spec fn page(self, b: int, p: int) -> Seq<u8> {
        if self.blobs@[b]@[p]@.len() == PAGE_SIZE {
            self.blobs@[b]@[p]@
        } else {
            zero_page()
        }
    }

    /// A page always reads as exactly one page of bytes.
    pub proof fn lemma_page_len(self, b: int, p: int)
        ensures
            self.page(b, p).len() == PAGE_SIZE,
    {
    }

    /// The content of the page a position names.
    pub open spec fn page_at(self, pos: PagePos) -> Seq<u8> {
        self.page(pos.bid as int, pos.offset as int)
    }

    /// The position names a page this device holds.
    pub open spec fn valid_pos(self, pos: PagePos) -> bool {
        pos.bid < self.blob_count() && pos.offset < self.page_count(pos.bid as int)
    }

    /// A fresh device handle with no blobs.
    pub fn new(name: &str) -> (r: DeviceEngine)
        ensures
            r.wf(),
            r.blob_count() == 0,
            r.spec_io_size() == PAGE_SIZE,
            r.spec_name() == name@,
    {
        DeviceEngine {
            blobs: Vec::new(),
            name: String::from_str(name),
            io_size: PAGE_SIZE,
            total_clusters: 0,
        }
    }

    pub fn get_name(&self) -> (r: String)
        ensures
            r@ == self.spec_name(),
    {
        self.name.clone()
    }

    pub fn get_io_size(&self) -> (r: u64)
        ensures
            r == self.spec_io_size(),
    {
        self.io_size
    }

    pub fn total_data_cluster_count(&self) -> (r: u64)
        ensures
            r == self.spec_total_clusters(),
    {
        self.total_clusters
    }

    /// Number of blobs this store holds.
    pub fn count_blobs(&self) -> (r: u64)
        ensures
            r == self.blob_count(),
    {
        self.blobs.len() as u64
    }

    /// Page capacity of one blob.
    pub fn pages_of(&self, b: u64) -> (r: u64)
        requires
            b < self.blob_count(),
        ensures
            r == self.page_count(b as int),
    {
        let nb = self.blobs.len();
        assert(b < nb as u64);
        self.blobs[b as usize].len() as u64
    }

    /// Create a blob of `size` clusters; its id is the number of blobs
    /// created before it.
    pub fn create_blob(&mut self, size: u64) -> (r: EngineBlob)
        requires
            old(self).wf(),
            size <= 0x10_0000,
        ensures
            final(self).wf(),
            r.bl == old(self).blob_count(),
            final(self).blob_count() == old(self).blob_count() + 1,
            final(self).page_count(r.bl as int) == size * CLUSTER_SIZE_PAGES,
            forall|p: int|
                0 <= p < size * CLUSTER_SIZE_PAGES ==> final(self).page(r.bl as int, p)
                    == zero_page(),
            forall|b: int|
                0 <= b < old(self).blob_count() ==> final(self).page_count(b) == old(self).page_count(b),
            forall|b: int, p: int|
                0 <= b < old(self).blob_count() && 0 <= p < old(self).page_count(b) ==> final(self).page(b, p) == old(self).page(b, p),
    {
        let id = self.blobs.len() as u64;
        let count = (size * CLUSTER_SIZE_PAGES) as usize;
        let mut pages: Vec<Vec<u8>> = Vec::new();
        let mut i: usize = 0;
        while i < count
            invariant
                i <= count,
                pages@.len() == i,
                forall|j: int| 0 <= j < i ==> (#[trigger] pages@[j])@.len() == 0,
            decreases count - i,
        {
            pages.push(Vec::new());
            i = i + 1;
        }
        self.blobs.push(pages);
        EngineBlob { bl: id }
    }

    /// Set the capacity of blob `blob_id` to `clusters` clusters; pages in
    /// range before and after keep their bytes, new pages read as zeros.
    pub fn resize_blob(&mut self, blob_id: u64, clusters: u64) -> (r: bool)
        requires
            old(self).wf(),
            blob_id < old(self).blob_count(),
            clusters <= 0x10_0000,
        ensures
            final(self).wf(),
            final(self).blob_count() == old(self).blob_count(),
            final(self).page_count(blob_id as int) == clusters * CLUSTER_SIZE_PAGES,
            forall|p: int|
                0 <= p < clusters * CLUSTER_SIZE_PAGES && p < old(self).page_count(blob_id as int)
                    ==> final(self).page(blob_id as int, p) == old(self).page(blob_id as int, p),
            forall|p: int|
                old(self).page_count(blob_id as int) <= p < clusters * CLUSTER_SIZE_PAGES
                    ==> final(self).page(blob_id as int, p) == zero_page(),
            forall|b: int|
                0 <= b < old(self).blob_count() && b != blob_id as int ==> final(self).page_count(b)
                    == old(self).page_count(b),
            forall|b: int, p: int|
                0 <= b < old(self).blob_count() && 0 <= p < old(self).page_count(b) && b
                    != blob_id as int ==> final(self).page(b, p) == old(self).page(b, p),
            r == true,
    {
        let nb = self.blobs.len();
        assert(blob_id < nb as u64);
        let b = blob_id as usize;
        let mut blob: Vec<Vec<u8>> = Vec::new();
        self.blobs.set_and_swap(b, &mut blob);
        let ghost oldblob = blob@;
        let target = (clusters * CLUSTER_SIZE_PAGES) as usize;
        while blob.len() > target
            invariant
                blob@.len() >= target || blob@ == oldblob,
                blob@.len() <= oldblob.len(),
                forall|p: int| 0 <= p < blob@.len() ==> blob@[p] == oldblob[p],
            decreases blob@.len(),
        {
            blob.pop();
        }
        assert(blob@.len() <= target);
        while blob.len() < target
            invariant
                blob@.len() <= target,
                blob@.len() >= oldblob.len() || blob@.len() == target,
                forall|p: int|
                    0 <= p < blob@.len() && p < oldblob.len() ==> blob@[p] == oldblob[p],
                forall|p: int|
                    oldblob.len() <= p < blob@.len() ==> (#[trigger] blob@[p])@.len() == 0,
            decreases target - blob@.len(),
        {
            blob.push(Vec::new());
        }
        assert(blob@.len() == target);
        self.blobs.set_and_swap(b, &mut blob);
        proof {
            assert(self.blobs@.len() == old(self).blobs@.len());
            assert forall|x: int|
                0 <= x < self.blobs@.len() && x != b as int implies self.blobs@[x] == old(self).blobs@[x] by {}
            assert forall|x: int, p: int|
                0 <= x < self.blobs@.len() && 0 <= p < self.blobs@[x]@.len() implies ((
            #[trigger] self.blobs@[x]@[p])@.len() == PAGE_SIZE || self.blobs@[x]@[p]@.len()
                == 0) by {
                if x == b as int {
                    if p < oldblob.len() {
                        assert(old(self).blobs@[x]@[p]@.len() == PAGE_SIZE || old(self).blobs@[x]@[p]@.len() == 0);
                    }
                } else {
                    assert(self.blobs@[x] == old(self).blobs@[x]);
                    assert(old(self).blobs@[x]@[p]@.len() == PAGE_SIZE || old(self).blobs@[x]@[p]@.len() == 0);
                }
            }
        }
        true
    }

    /// Read the page at `offset` of blob `blob_id` into `buf`.
    pub fn read(&self, offset: u64, blob_id: u64, buf: &mut Vec<u8>) -> (r: bool)
        requires
            self.wf(),
            self.valid_pos(PagePos { bid: blob_id, offset }),
        ensures
            final(buf)@ == self.page(blob_id as int, offset as int),
            final(buf)@.len() == PAGE_SIZE,
            r == true,
    {
        let nb = self.blobs.len();
        assert(blob_id < nb as u64);
        let b = blob_id as usize;
        let pages = &self.blobs[b];
        let np = pages.len();
        assert(offset < np as u64);
        let page = &pages[offset as usize];
        if page.len() == PAGE_SIZE as usize {
            *buf = slice_to_vec(page.as_slice());
        } else {
            *buf = make_zero_page();
        }
        true
    }

    /// Write `buf` as the page at `offset` of blob `blob_id`; every other
    /// page keeps its bytes.
    pub fn write(&mut self, offset: u64, blob_id: u64, buf: &Vec<u8>) -> (r: bool)
        requires
            old(self).wf(),
            old(self).valid_pos(PagePos { bid: blob_id, offset }),
            buf@.len() == PAGE_SIZE,
        ensures
            final(self).wf(),
            final(self).blob_count() == old(self).blob_count(),
            forall|b: int|
                0 <= b < old(self).blob_count() ==> final(self).page_count(b) == old(self).page_count(b),
            final(self).page(blob_id as int, offset as int) == buf@,
            forall|b: int, p: int|
                0 <= b < old(self).blob_count() && 0 <= p < old(self).page_count(b) && !(b
                    == blob_id as int && p == offset as int) ==> final(self).page(b, p) == old(self).page(b, p),
            r == true,
    {
        let nb = self.blobs.len();
        assert(blob_id < nb as u64);
        let b = blob_id as usize;
        let mut blob: Vec<Vec<u8>> = Vec::new();
        self.blobs.set_and_swap(b, &mut blob);
        let np = blob.len();
        assert(offset < np as u64);
        let copy = slice_to_vec(buf.as_slice());
        blob[offset as usize] = copy;
        self.blobs.set_and_swap(b, &mut blob);
        proof {
            assert(self.blobs@.len() == old(self).blobs@.len());
            assert forall|x: int|
                0 <= x < self.blobs@.len() && x != b as int implies self.blobs@[x] == old(self).blobs@[x] by {}
            assert(self.blobs@[b as int]@ =~= old(self).blobs@[b as int]@.update(
                offset as int,
                copy,
            ));
        }
        true
    }

    /// Flip one byte of a stored page, as a fault-injection hook for
    /// exercising checksum verification.
    pub fn corrupt_byte(&mut self, blob_id: u64, offset: u64, i: usize)
        requires
            old(self).wf(),
            old(self).valid_pos(PagePos { bid: blob_id, offset }),
            i < PAGE_SIZE,
        ensures
            final(self).wf(),
            final(self).blob_count() == old(self).blob_count(),
            forall|b: int|
                0 <= b < old(self).blob_count() ==> final(self).page_count(b) == old(self).page_count(b),
            final(self).page(blob_id as int, offset as int) == old(self).page(
                blob_id as int,
                offset as int,
            ).update(i as int, old(self).page(blob_id as int, offset as int)[i as int] ^ 0xff),
            forall|b: int, p: int|
                0 <= b < old(self).blob_count() && 0 <= p < old(self).page_count(b) && !(b
                    == blob_id as int && p == offset as int) ==> final(self).page(b, p) == old(self).page(b, p),
    {
        let ghost oldpage = self.page(blob_id as int, offset as int);
        let mut buf: Vec<u8> = Vec::new();
        let ok = self.read(offset, blob_id, &mut buf);
        let x = buf[i];
        buf[i] = x ^ 0xff;
        proof {
            assert(buf@ =~= oldpage.update(i as int, (oldpage[i as int] ^ 0xff)));
        }
        let ok2 = self.write(offset, blob_id, &buf);
    }

    /// Drop a blob's pages; its id stays taken.
    pub fn delete_blob(&mut self, blob_id: u64) -> (r: bool)
        requires
            old(self).wf(),
            blob_id < old(self).blob_count(),
        ensures
            final(self).wf(),
            final(self).blob_count() == old(self).blob_count(),
            final(self).page_count(blob_id as int) == 0,
            forall|b: int|
                0 <= b < old(self).blob_count() && b != blob_id as int ==> final(self).page_count(
                    b,
                ) == old(self).page_count(b),
            forall|b: int, p: int|
                0 <= b < old(self).blob_count() && 0 <= p < old(self).page_count(b) && b
                    != blob_id as int ==> final(self).page(b, p) == old(self).page(b, p),
            r == true,
    {
        let nb = self.blobs.len();
        assert(blob_id < nb as u64);
        let empty: Vec<Vec<u8>> = Vec::new();
        self.blobs[blob_id as usize] = empty;
        true
    }

    /// Release the handle; nothing to tear down in this model.
    pub fn close_bs(&self) -> (r: bool)
        ensures
            r == true,
    {
        true
    }
}

} // verus!
