//! Typed blob operations: each call packages a message and has the core
//! owning the blobstore execute it.

use vstd::prelude::*;
use vstd::slice::slice_to_vec;

use crate::common::PagePos;
use crate::device_engine::zero_page;
use crate::device_engine::DeviceEngine;
use crate::error::EngineError;
use crate::message::Msg;
use crate::utils::CLUSTER_SIZE_PAGES;
use crate::utils::PAGE_SIZE;

verus! {

/// What executing a message hands back.
#[derive(Debug)]
pub enum Reply {
    /// The operation finished with nothing to return.
    Done,
    /// A blob was created, with this id.
    Created { bid: u64 },
    /// A blob was opened, with this handle.
    Opened { bid: u64 },
    /// One page read from a blob.
    Data { buf: Vec<u8> },
}

/// The engine's interface to one blobstore.
#[derive(Debug)]
pub struct BlobEngine {
    pub(crate) name: String,
    pub(crate) core: u32,
    pub(crate) io_size: u64,
    pub(crate) bs: DeviceEngine,
}

impl BlobEngine {
    /// The blobstore behind this engine.
    pub closed spec fn dev(self) -> DeviceEngine {
        self.bs
    }

    /// Spell out the device for the sibling modules that drive it.
    pub(crate) proof fn lemma_dev(&self)
        ensures
            self.dev() == self.bs,
    {
    }

    pub closed spec fn spec_name(self) -> Seq<char> {
        self.name@
    }

    pub closed spec fn spec_core(self) -> u32 {
        self.core
    }

    pub closed spec fn spec_io_size(self) -> u64 {
        self.io_size
    }

    pub open spec fn wf(self) -> bool {
        self.dev().wf()
    }

    /// Bind a blobstore to its core.
    pub fn new(name: &str, core: u32, io_size: u64, bs: DeviceEngine) -> (r: BlobEngine)
        ensures
            r.dev() == bs,
            r.spec_name() == name@,
            r.spec_core() == core,
            r.spec_io_size() == io_size,
    {
        BlobEngine { name: String::from_str(name), core, io_size, bs }
    }

    pub fn get_name(&self) -> (r: Result<String, EngineError>)
        ensures
            match r {
                Ok(s) => s@ == self.spec_name(),
                Err(_) => false,
            },
    {
        Ok(self.name.clone())
    }

    pub fn get_core_id(&self) -> (r: Result<u32, EngineError>)
        ensures
            match r {
                Ok(c) => c == self.spec_core(),
                Err(_) => false,
            },
    {
        Ok(self.core)
    }

    pub fn get_io_size(&self) -> (r: Result<u64, EngineError>)
        ensures
            match r {
                Ok(s) => s == self.spec_io_size(),
                Err(_) => false,
            },
    {
        Ok(self.io_size)
    }

    /// Run one message on the owning core. This is where every typed
    /// operation lands; the match plays the role of the per-core helper.
    pub fn execute(&mut self, msg: Msg) -> (r: Reply)
        requires
            old(self).wf(),
            match msg {
                Msg::Write { offset, bid, ref data } => old(self).dev().valid_pos(
                    PagePos { bid, offset },
                ) && data@.len() == PAGE_SIZE,
                Msg::Read { offset, bid } => old(self).dev().valid_pos(PagePos { bid, offset }),
                Msg::Delete { bid } => bid < old(self).dev().blob_count(),
                Msg::Open { bid } => bid < old(self).dev().blob_count(),
                Msg::Resize { bid, blob_size } => bid < old(self).dev().blob_count() && blob_size
                    <= 0x10_0000,
                _ => true,
            },
        ensures
            final(self).wf(),
            final(self).spec_name() == old(self).spec_name(),
            final(self).spec_core() == old(self).spec_core(),
            final(self).spec_io_size() == old(self).spec_io_size(),
            match msg {
                Msg::Unload => final(self).dev() == old(self).dev() && (r matches Reply::Done),
                Msg::Write { offset, bid, ref data } => {
                    &&& final(self).dev().blob_count() == old(self).dev().blob_count()
                    &&& forall|b: int|
                        0 <= b < old(self).dev().blob_count() ==> final(self).dev().page_count(b)
                            == old(self).dev().page_count(b)
                    &&& final(self).dev().page(bid as int, offset as int) == data@
                    &&& forall|b: int, p: int|
                        0 <= b < old(self).dev().blob_count() && 0 <= p < old(self).dev().page_count(b) && !(b == bid as int && p == offset as int)
                            ==> final(self).dev().page(b, p) == old(self).dev().page(b, p)
                    &&& (r matches Reply::Done)
                },
                Msg::Read { offset, bid } => final(self).dev() == old(self).dev() && (r matches
                    Reply::Data { buf } && buf@ == old(self).dev().page(bid as int, offset as int)),
                Msg::Create => {
                    &&& final(self).dev().blob_count() == old(self).dev().blob_count() + 1
                    &&& forall|b: int|
                        0 <= b < old(self).dev().blob_count() ==> final(self).dev().page_count(b)
                            == old(self).dev().page_count(b)
                    &&& forall|b: int, p: int|
                        0 <= b < old(self).dev().blob_count() && 0 <= p < old(self).dev().page_count(b) ==> final(self).dev().page(b, p) == old(self).dev().page(b, p)
                    &&& final(self).dev().page_count(old(self).dev().blob_count() as int) == 0
                    &&& (r matches Reply::Created { bid } && bid == old(self).dev().blob_count())
                },
                Msg::Delete { bid } => {
                    &&& final(self).dev().blob_count() == old(self).dev().blob_count()
                    &&& final(self).dev().page_count(bid as int) == 0
                    &&& forall|b: int|
                        0 <= b < old(self).dev().blob_count() && b != bid as int ==> final(self).dev().page_count(b) == old(self).dev().page_count(b)
                    &&& forall|b: int, p: int|
                        0 <= b < old(self).dev().blob_count() && 0 <= p < old(self).dev().page_count(b) && b != bid as int ==> final(self).dev().page(b, p)
                            == old(self).dev().page(b, p)
                    &&& (r matches Reply::Done)
                },
                Msg::Open { bid } => final(self).dev() == old(self).dev() && (r matches
                    Reply::Opened { bid: h } && h == bid),
                Msg::Sync { .. } => final(self).dev() == old(self).dev() && (r matches
                    Reply::Done),
                Msg::Resize { bid, blob_size } => {
                    &&& final(self).dev().blob_count() == old(self).dev().blob_count()
                    &&& final(self).dev().page_count(bid as int) == blob_size * CLUSTER_SIZE_PAGES
                    &&& forall|p: int|
                        0 <= p < blob_size * CLUSTER_SIZE_PAGES && p < old(self).dev().page_count(
                            bid as int,
                        ) ==> final(self).dev().page(bid as int, p) == old(self).dev().page(
                            bid as int,
                            p,
                        )
                    &&& forall|p: int|
                        old(self).dev().page_count(bid as int) <= p < blob_size
                            * CLUSTER_SIZE_PAGES ==> final(self).dev().page(bid as int, p)
                            == zero_page()
                    &&& forall|b: int|
                        0 <= b < old(self).dev().blob_count() && b != bid as int ==> final(self).dev().page_count(b) == old(self).dev().page_count(b)
                    &&& forall|b: int, p: int|
                        0 <= b < old(self).dev().blob_count() && 0 <= p < old(self).dev().page_count(b) && b != bid as int ==> final(self).dev().page(b, p)
                            == old(self).dev().page(b, p)
                    &&& (r matches Reply::Done)
                },
                Msg::Close { .. } => final(self).dev() == old(self).dev() && (r matches
                    Reply::Done),
            },
    {
        match msg {
            Msg::Unload => {
                let ok = self.bs.close_bs();
                Reply::Done
            },
            Msg::Write { offset, bid, data } => {
                let ok = self.bs.write(offset, bid, &data);
                Reply::Done
            },
            Msg::Read { offset, bid } => {
                let mut buf: Vec<u8> = Vec::new();
                let ok = self.bs.read(offset, bid, &mut buf);
                Reply::Data { buf }
            },
            Msg::Create => {
                let blob = self.bs.create_blob(0);
                Reply::Created { bid: blob.get_id() }
            },
            Msg::Delete { bid } => {
                let ok = self.bs.delete_blob(bid);
                Reply::Done
            },
            Msg::Open { bid } => Reply::Opened { bid },
            Msg::Sync { .. } => Reply::Done,
            Msg::Resize { bid, blob_size } => {
                let ok = self.bs.resize_blob(bid, blob_size);
                Reply::Done
            },
            Msg::Close { .. } => Reply::Done,
        }
    }

    /// Unload the blobstore; all blobs must be closed first.
    pub fn unload(&mut self)
        requires
            old(self).wf(),
        ensures
            final(self).wf(),
            final(self).dev() == old(self).dev(),
    {
        let m = Msg::gen_unload();
        let r = self.execute(m);
    }

    /// Write one page of data to the given blob.
    pub fn write(&mut self, offset: u64, bid: u64, buf: &Vec<u8>) -> (r: Result<
        (),
        EngineError,
    >)
        requires
            old(self).wf(),
            old(self).dev().valid_pos(PagePos { bid, offset }),
            buf@.len() == PAGE_SIZE,
        ensures
            final(self).wf(),
            final(self).dev().blob_count() == old(self).dev().blob_count(),
            forall|b: int|
                0 <= b < old(self).dev().blob_count() ==> final(self).dev().page_count(b) == old(self).dev().page_count(b),
            final(self).dev().page(bid as int, offset as int) == buf@,
            forall|b: int, p: int|
                0 <= b < old(self).dev().blob_count() && 0 <= p < old(self).dev().page_count(b)
                    && !(b == bid as int && p == offset as int) ==> final(self).dev().page(b, p)
                    == old(self).dev().page(b, p),
            r is Ok,
    {
        let data = slice_to_vec(buf.as_slice());
        let m = Msg::gen_write(offset, bid, data);
        let r = self.execute(m);
        Ok(())
    }

    /// Read one page of the given blob into `buf`.
    pub fn read(&mut self, offset: u64, bid: u64, buf: &mut Vec<u8>) -> (r: Result<
        (),
        EngineError,
    >)
        requires
            old(self).wf(),
            old(self).dev().valid_pos(PagePos { bid, offset }),
        ensures
            final(self).wf(),
            final(self).dev() == old(self).dev(),
            final(buf)@ == old(self).dev().page(bid as int, offset as int),
            final(buf)@.len() == PAGE_SIZE,
            r is Ok,
    {
        let m = Msg::gen_read(offset, bid);
        let reply = self.execute(m);
        match reply {
            Reply::Data { buf: page } => {
                proof {
                    old(self).dev().lemma_page_len(bid as int, offset as int);
                }
                *buf = page;
                Ok(())
            },
            _ => {
                proof {
                    assert(false);
                }
                Err(EngineError::BackendError)
            },
        }
    }

    /// Create an empty blob and hand back its id.
    pub fn create_blob(&mut self) -> (r: Result<u64, EngineError>)
        requires
            old(self).wf(),
        ensures
            final(self).wf(),
            final(self).dev().blob_count() == old(self).dev().blob_count() + 1,
            forall|b: int|
                0 <= b < old(self).dev().blob_count() ==> final(self).dev().page_count(b) == old(self).dev().page_count(b),
            forall|b: int, p: int|
                0 <= b < old(self).dev().blob_count() && 0 <= p < old(self).dev().page_count(b)
                    ==> final(self).dev().page(b, p) == old(self).dev().page(b, p),
            final(self).dev().page_count(old(self).dev().blob_count() as int) == 0,
            match r {
                Ok(bid) => bid == old(self).dev().blob_count(),
                Err(_) => false,
            },
    {
        let m = Msg::gen_create();
        let reply = self.execute(m);
        match reply {
            Reply::Created { bid } => Ok(bid),
            _ => {
                proof {
                    assert(false);
                }
                Err(EngineError::BackendError)
            },
        }
    }

    /// Open a blob; the handle is its id.
    pub fn open_blob(&mut self, bid: u64) -> (r: Result<u64, EngineError>)
        requires
            old(self).wf(),
            bid < old(self).dev().blob_count(),
        ensures
            final(self).wf(),
            final(self).dev() == old(self).dev(),
            match r {
                Ok(h) => h == bid,
                Err(_) => false,
            },
    {
        let m = Msg::gen_open(bid);
        let reply = self.execute(m);
        match reply {
            Reply::Opened { bid: h } => Ok(h),
            _ => {
                proof {
                    assert(false);
                }
                Err(EngineError::BackendError)
            },
        }
    }

    /// Delete a blob's pages; its id stays taken.
    pub fn delete_blob(&mut self, bid: u64) -> (r: Result<(), EngineError>)
        requires
            old(self).wf(),
            bid < old(self).dev().blob_count(),
        ensures
            final(self).wf(),
            final(self).dev().blob_count() == old(self).dev().blob_count(),
            final(self).dev().page_count(bid as int) == 0,
            forall|b: int|
                0 <= b < old(self).dev().blob_count() && b != bid as int ==> final(self).dev().page_count(b) == old(self).dev().page_count(b),
            forall|b: int, p: int|
                0 <= b < old(self).dev().blob_count() && 0 <= p < old(self).dev().page_count(b)
                    && b != bid as int ==> final(self).dev().page(b, p) == old(self).dev().page(
                    b,
                    p,
                ),
            r is Ok,
    {
        let m = Msg::gen_delete(bid);
        let r = self.execute(m);
        Ok(())
    }

    /// Resize a blob to the given cluster count.
    pub fn resize_blob(&mut self, bid: u64, size: u64) -> (r: Result<(), EngineError>)
        requires
            old(self).wf(),
            bid < old(self).dev().blob_count(),
            size <= 0x10_0000,
        ensures
            final(self).wf(),
            final(self).dev().blob_count() == old(self).dev().blob_count(),
            final(self).dev().page_count(bid as int) == size * CLUSTER_SIZE_PAGES,
            forall|p: int|
                0 <= p < size * CLUSTER_SIZE_PAGES && p < old(self).dev().page_count(bid as int)
                    ==> final(self).dev().page(bid as int, p) == old(self).dev().page(
                    bid as int,
                    p,
                ),
            forall|p: int|
                old(self).dev().page_count(bid as int) <= p < size * CLUSTER_SIZE_PAGES ==> final(self).dev().page(bid as int, p) == zero_page(),
            forall|b: int|
                0 <= b < old(self).dev().blob_count() && b != bid as int ==> final(self).dev().page_count(b) == old(self).dev().page_count(b),
            forall|b: int, p: int|
                0 <= b < old(self).dev().blob_count() && 0 <= p < old(self).dev().page_count(b)
                    && b != bid as int ==> final(self).dev().page(b, p) == old(self).dev().page(
                    b,
                    p,
                ),
            r is Ok,
    {
        let m = Msg::gen_resize(bid, size);
        let r = self.execute(m);
        Ok(())
    }

    /// Sync a blob's metadata to disk; immediate in this model.
    pub fn sync_blob(&mut self, bid: u64) -> (r: Result<(), EngineError>)
        requires
            old(self).wf(),
        ensures
            final(self).wf(),
            final(self).dev() == old(self).dev(),
            r is Ok,
    {
        let m = Msg::gen_sync(bid);
        let r = self.execute(m);
        Ok(())
    }

    /// Close a blob; all blobs must be closed before unload.
    pub fn close_blob(&mut self, bid: u64) -> (r: Result<(), EngineError>)
        requires
            old(self).wf(),
        ensures
            final(self).wf(),
            final(self).dev() == old(self).dev(),
            r is Ok,
    {
        let m = Msg::gen_close(bid);
        let r = self.execute(m);
        Ok(())
    }
}

} // verus!
