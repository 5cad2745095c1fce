//! The chunk engine: named byte-addressable objects stored in fixed-size
//! pages on the block backend, with per-page checksums and metadata rows
//! in the key-value store.

use vstd::prelude::*;
use vstd::slice::slice_to_vec;
use vstd::utf8::encode_utf8;

use crate::blob_engine::BlobEngine;
use crate::codec::dec_chunk_spec;
use crate::codec::dec_engine_spec;
use crate::codec::decode_chunk;
use crate::codec::decode_engine;
use crate::codec::encode_chunk;
use crate::codec::le64_at;
use crate::codec::encode_engine;
use crate::common::ChunkMeta;
use crate::common::DeviceInfo;
use crate::common::ChunkMetaV;
use crate::common::MadEngine;
use crate::common::MadEngineV;
use crate::common::pages_for_size;
use crate::common::pages_of_size;
use crate::common::PagePos;
use crate::common::StatMeta;
use crate::common::ThreadData;
use crate::db_engine::DbEngine;
use crate::device_engine::make_zero_page;
use crate::device_engine::zero_page;
use crate::device_engine::DeviceEngine;
use crate::error::EngineError;
use crate::utils::crc32_of;
use crate::utils::dec_digits;
use crate::utils::u32_to_dec;
use crate::utils::BitMap;
use crate::utils::Hasher;
use crate::utils::BLOB_PAGES;
use crate::utils::CLUSTER_SIZE_PAGES;
use crate::utils::MAGIC;
use crate::utils::NUM_THREAD;
use crate::utils::PAGE_SIZE;

verus! {

/// The key bytes of a chunk name.
pub open spec fn name_key_spec(name: Seq<char>) -> Seq<u8> {
    encode_utf8(name)
}

/// The reserved key of the global engine row: the decimal digits of the
/// CRC-32 checksum of the magic name.
pub open spec fn magic_key_spec() -> Seq<u8> {
    dec_digits(crc32_of(encode_utf8(MAGIC@)) as nat)
}

/// The blob id occurs in the global blob list.
pub open spec fn has_blob(g: MadEngineV, bid: u64) -> bool {
    exists|i: int| 0 <= i < g.blobs.len() && g.blobs[i] == bid
}

/// Index of a blob id in the global blob list.
pub open spec fn blob_index(g: MadEngineV, bid: u64) -> int {
    choose|i: int| 0 <= i < g.blobs.len() && g.blobs[i] == bid
}

/// A position that the global metadata can describe.
pub open spec fn valid_slot(g: MadEngineV, pos: PagePos) -> bool {
    has_blob(g, pos.bid) && pos.offset < BLOB_PAGES
}

/// The allocation bit of a position in the global free list.
pub open spec fn gbit(g: MadEngineV, pos: PagePos) -> bool {
    g.free_list[blob_index(g, pos.bid)][pos.offset as int]
}

/// Byte content after writing `data` at `offset` into `oldc`.
pub open spec fn overwrite(oldc: Seq<u8>, offset: int, data: Seq<u8>) -> Seq<u8> {
    Seq::new(
        (if oldc.len() as int >= offset + data.len() {
            oldc.len() as int
        } else {
            offset + data.len()
        }) as nat,
        |i: int|
            if offset <= i < offset + data.len() {
                data[i - offset]
            } else {
                oldc[i]
            },
    )
}

/// Compute the key bytes of a chunk name.
fn name_key(name: &str) -> (r: Vec<u8>)
    ensures
        r@ == name_key_spec(name@),
{
    slice_to_vec(name.as_bytes())
}

/// Compute the reserved key of the global engine row.
fn magic_key_bytes() -> (r: Vec<u8>)
    ensures
        r@ == magic_key_spec(),
{
    let h = Hasher::new();
    let c = h.checksum(MAGIC.as_bytes());
    u32_to_dec(c)
}



/// One worker's shard on reload: the blobs whose global index is
/// congruent to `s` round-robin, each bitmap copied from the global list.
fn build_shard(mad: &MadEngine, s: usize) -> (td: ThreadData)
    requires
        mad.lists_wf(),
        mad@.wf_shape(),
        s < NUM_THREAD,
        mad.blobs@.len() + 4 <= usize::MAX,
    ensures
        td.tblobs@.len() == td.tfree_list@.len(),
        s + 4 * td.tblobs@.len() >= mad@.blobs.len(),
        forall|t: int|
            #![trigger td.tblobs@[t]]
            0 <= t < td.tblobs@.len() ==> s + 4 * t < mad@.blobs.len() && td.tblobs@[t]
                == mad@.blobs[s + 4 * t],
        forall|t: int|
            #![trigger td.tfree_list@[t]]
            0 <= t < td.tblobs@.len() ==> td.tfree_list@[t].wf() && td.tfree_list@[t].spec_size()
                == BLOB_PAGES && td.tfree_list@[t]@ == mad@.free_list[s + 4 * t],
{
    let mut td = ThreadData::default();
    let mut idx = s;
    let n3 = mad.blobs.len();
    proof {
        mad.lemma_view();
    }
    while idx < n3
        invariant
            s < NUM_THREAD,
            n3 == mad.blobs@.len(),
            mad.lists_wf(),
            mad@.wf_shape(),
            mad@.blobs == mad.blobs@,
            n3 + 4 <= usize::MAX,
            idx >= s,
            idx == s + 4 * td.tblobs@.len(),
            idx <= n3 + 3,
            td.tblobs@.len() == td.tfree_list@.len(),
            forall|t: int|
                #![trigger td.tblobs@[t]]
                0 <= t < td.tblobs@.len() ==> s + 4 * t < n3 && td.tblobs@[t] == mad.blobs@[s + 4
                    * t],
            forall|t: int|
                #![trigger td.tfree_list@[t]]
                0 <= t < td.tblobs@.len() ==> td.tfree_list@[t].wf()
                    && td.tfree_list@[t].spec_size() == BLOB_PAGES && td.tfree_list@[t]@
                    == mad@.free_list[s + 4 * t],
        decreases n3 + 4 - idx,
    {
        proof {
            mad.lemma_view();
        }
        td.tblobs.push(mad.blobs[idx]);
        let bm = mad.free_list[idx].clone();
        proof {
            mad.lemma_view();
            assert(bm@ =~= mad@.free_list[idx as int]);
        }
        td.tfree_list.push(bm);
        proof {
            let nt = td.tblobs@.len() - 1;
            assert(td.tblobs@[nt] == mad.blobs@[idx as int]);
            assert(idx as int == s + 4 * nt);
        }
        idx = idx + 4;
    }
    td
}

/// Find the index of a blob id in the global blob list.
fn find_blob_index(mad: &MadEngine, bid: u64) -> (r: Option<usize>)
    requires
        mad.lists_wf(),
    ensures
        match r {
            Some(i) => i < mad@.blobs.len() && mad@.blobs[i as int] == bid && (mad@.wf_shape()
                ==> i as int == blob_index(mad@, bid)),
            None => !has_blob(mad@, bid),
        },
{
    proof {
        mad.lemma_view();
    }
    let n = mad.blobs.len();
    let mut i: usize = 0;
    while i < n
        invariant
            i <= n,
            n == mad.blobs@.len(),
            mad@.blobs == mad.blobs@,
            forall|j: int| 0 <= j < i ==> mad@.blobs[j] != bid,
        decreases n - i,
    {
        if mad.blobs[i] == bid {
            proof {
                if mad@.wf_shape() {
                    let w = blob_index(mad@, bid);
                    assert(0 <= w < mad@.blobs.len() && mad@.blobs[w] == bid);
                    if w != i as int {
                        assert(mad@.blobs[w] != mad@.blobs[i as int]);
                    }
                }
            }
            return Some(i);
        }
        i = i + 1;
    }
    None
}

/// Set one bit of one global bitmap; everything else keeps its value.
fn global_set_bit(mad: &mut MadEngine, gi: usize, idx: u64)
    requires
        old(mad).lists_wf(),
        gi < old(mad)@.free_list.len(),
        idx < BLOB_PAGES,
    ensures
        final(mad).lists_wf(),
        final(mad)@.blobs == old(mad)@.blobs,
        final(mad)@.device == old(mad)@.device,
        final(mad)@.blob_size == old(mad)@.blob_size,
        final(mad)@.free_list =~= old(mad)@.free_list.update(
            gi as int,
            old(mad)@.free_list[gi as int].update(idx as int, true),
        ),
{
    proof {
        old(mad).lemma_view();
    }
    let mut bm = BitMap::new(0);
    mad.free_list.set_and_swap(gi, &mut bm);
    bm.set(idx);
    mad.free_list.set_and_swap(gi, &mut bm);
    proof {
        mad.lemma_view();
        assert(mad.free_list@.len() == old(mad).free_list@.len());
        assert forall|x: int|
            0 <= x < mad.free_list@.len() && x != gi as int implies mad.free_list@[x] == old(
            mad,
        ).free_list@[x] by {}
        assert(mad.free_list@[gi as int]@ =~= old(mad).free_list@[gi as int]@.update(
            idx as int,
            true,
        ));
        assert forall|x: int| 0 <= x < mad.free_list@.len() implies mad@.free_list[x]
            == old(mad)@.free_list.update(
            gi as int,
            old(mad)@.free_list[gi as int].update(idx as int, true),
        )[x] by {
            assert(mad@.free_list[x] == mad.free_list@[x]@);
            assert(old(mad)@.free_list[x] == old(mad).free_list@[x]@);
        }
    }
}

/// Clear one bit of one global bitmap; everything else keeps its value.
fn global_clear_bit(mad: &mut MadEngine, gi: usize, idx: u64)
    requires
        old(mad).lists_wf(),
        gi < old(mad)@.free_list.len(),
        idx < BLOB_PAGES,
    ensures
        final(mad).lists_wf(),
        final(mad)@.blobs == old(mad)@.blobs,
        final(mad)@.device == old(mad)@.device,
        final(mad)@.blob_size == old(mad)@.blob_size,
        final(mad)@.free_list =~= old(mad)@.free_list.update(
            gi as int,
            old(mad)@.free_list[gi as int].update(idx as int, false),
        ),
{
    proof {
        old(mad).lemma_view();
    }
    let mut bm = BitMap::new(0);
    mad.free_list.set_and_swap(gi, &mut bm);
    bm.clear(idx);
    mad.free_list.set_and_swap(gi, &mut bm);
    proof {
        mad.lemma_view();
        assert(mad.free_list@.len() == old(mad).free_list@.len());
        assert forall|x: int|
            0 <= x < mad.free_list@.len() && x != gi as int implies mad.free_list@[x] == old(
            mad,
        ).free_list@[x] by {}
        assert(mad.free_list@[gi as int]@ =~= old(mad).free_list@[gi as int]@.update(
            idx as int,
            false,
        ));
        assert forall|x: int| 0 <= x < mad.free_list@.len() implies mad@.free_list[x]
            == old(mad)@.free_list.update(
            gi as int,
            old(mad)@.free_list[gi as int].update(idx as int, false),
        )[x] by {
            assert(mad@.free_list[x] == mad.free_list@[x]@);
            assert(old(mad)@.free_list[x] == old(mad).free_list@[x]@);
        }
    }
}

/// Set or clear one bit of one shard bitmap; everything else keeps its
/// value.
fn shard_write_bit(td: &mut ThreadData, t: usize, idx: u64, value: bool)
    requires
        t < old(td).tfree_list@.len(),
        old(td).tfree_list@[t as int].wf(),
        old(td).tfree_list@[t as int].spec_size() == BLOB_PAGES,
        idx < BLOB_PAGES,
    ensures
        final(td).tblobs == old(td).tblobs,
        final(td).tfree_list@.len() == old(td).tfree_list@.len(),
        forall|x: int|
            0 <= x < old(td).tfree_list@.len() && x != t as int ==> final(td).tfree_list@[x]
                == old(td).tfree_list@[x],
        final(td).tfree_list@[t as int].wf(),
        final(td).tfree_list@[t as int].spec_size() == BLOB_PAGES,
        final(td).tfree_list@[t as int]@ =~= old(td).tfree_list@[t as int]@.update(
            idx as int,
            value,
        ),
{
    let mut bm = BitMap::new(0);
    td.tfree_list.set_and_swap(t, &mut bm);
    if value {
        bm.set(idx);
    } else {
        bm.clear(idx);
    }
    td.tfree_list.set_and_swap(t, &mut bm);
    proof {
        assert(td.tfree_list@[t as int]@ =~= old(td).tfree_list@[t as int]@.update(
            idx as int,
            value,
        ));
    }
}


/// Uniqueness facts about the index of a blob in a duplicate-free list.
proof fn lemma_blob_index_props(g: MadEngineV, bid: u64)
    requires
        g.wf_shape(),
        has_blob(g, bid),
    ensures
        0 <= blob_index(g, bid) < g.blobs.len(),
        g.blobs[blob_index(g, bid)] == bid,
        forall|j: int| 0 <= j < g.blobs.len() && g.blobs[j] == bid ==> j == blob_index(g, bid),
{
    let bi = blob_index(g, bid);
    assert(0 <= bi < g.blobs.len() && g.blobs[bi] == bid);
    assert forall|j: int| 0 <= j < g.blobs.len() && g.blobs[j] == bid implies j == bi by {
        if j < bi {
            assert(g.blobs[j] != g.blobs[bi]);
        } else if bi < j {
            assert(g.blobs[bi] != g.blobs[j]);
        }
    }
}

/// Two global states with the same blob list agree on blob indices.
proof fn lemma_blob_index_eq(g1: MadEngineV, g2: MadEngineV, bid: u64)
    requires
        g1.wf_shape(),
        g1.blobs == g2.blobs,
        has_blob(g1, bid),
    ensures
        blob_index(g1, bid) == blob_index(g2, bid),
{
    lemma_blob_index_props(g1, bid);
    let b2 = blob_index(g2, bid);
    assert(0 <= b2 < g2.blobs.len() && g2.blobs[b2] == bid);
}

/// Find the index of a blob id within one shard.
fn shard_find_blob(td: &ThreadData, bid: u64) -> (r: Option<usize>)
    ensures
        match r {
            Some(t) => t < td.tblobs@.len() && td.tblobs@[t as int] == bid,
            None => forall|t: int| 0 <= t < td.tblobs@.len() ==> td.tblobs@[t] != bid,
        },
{
    let n = td.tblobs.len();
    let mut t: usize = 0;
    while t < n
        invariant
            t <= n,
            n == td.tblobs@.len(),
            forall|x: int| 0 <= x < t ==> td.tblobs@[x] != bid,
        decreases n - t,
    {
        if td.tblobs[t] == bid {
            return Some(t);
        }
        t = t + 1;
    }
    None
}


impl FileEngine {
    /// The bitmap discipline of the shard under work against the other
    /// shards and the current global free list.
    spec fn shard_discipline(self, o: FileEngine, s: int, td: ThreadData) -> bool {
        let g0 = o.global();
        let g = self.global();
        &&& td.tblobs@.len() == td.tfree_list@.len()
        &&& forall|t: int|
            0 <= t < td.tblobs@.len() ==> (#[trigger] td.tfree_list@[t]).wf()
                && td.tfree_list@[t].spec_size() == BLOB_PAGES && has_blob(g0, td.tblobs@[t])
        &&& forall|t1: int, t2: int|
            #![trigger td.tblobs@[t1], td.tblobs@[t2]]
            0 <= t1 < t2 < td.tblobs@.len() ==> td.tblobs@[t1] != td.tblobs@[t2]
        &&& forall|t: int, i: int|
            #![trigger td.tfree_list@[t]@[i]]
            0 <= t < td.tblobs@.len() && 0 <= i < BLOB_PAGES && !td.tfree_list@[t]@[i] ==> !gbit(
                g,
                PagePos { bid: td.tblobs@[t], offset: i as u64 },
            )
        &&& forall|x: int, t: int, i: int|
            #![trigger self.shards@[x].tfree_list@[t]@[i]]
            0 <= x < self.shards@.len() && x != s && 0 <= t < self.shards@[x].tblobs@.len() && 0
                <= i < BLOB_PAGES && !self.shards@[x].tfree_list@[t]@[i] ==> !gbit(
                g,
                PagePos { bid: self.shards@[x].tblobs@[t], offset: i as u64 },
            )
        &&& forall|x: int, t1: int, t2: int, i: int|
            #![trigger self.shards@[x].tfree_list@[t1]@[i], td.tfree_list@[t2]@[i]]
            0 <= x < self.shards@.len() && x != s && 0 <= t1 < self.shards@[x].tblobs@.len() && 0
                <= t2 < td.tblobs@.len() && self.shards@[x].tblobs@[t1] == td.tblobs@[t2] && 0 <= i
                < BLOB_PAGES ==> (self.shards@[x].tfree_list@[t1]@[i] || td.tfree_list@[t2]@[i])
    }

    /// After the shard under work is back in place, the whole shard set
    /// obeys the invariant again.
    proof fn lemma_assemble_shards(&self, o: FileEngine, s: int)
        requires
            o.wf(),
            0 <= s < self.shards@.len(),
            self.shards@.len() == o.shards@.len(),
            forall|x: int|
                0 <= x < self.shards@.len() && x != s ==> self.shards@[x] == o.shards@[x],
            self.global().blobs == o.global().blobs,
            self.global().wf_shape(),
            self.shard_discipline(o, s, self.shards@[s]),
        ensures
            self.shards_wf(),
    {
        let td = self.shards@[s];
        let g = self.global();
        let g0 = o.global();
        assert forall|x: int, t: int|
            0 <= x < self.shards@.len() && 0 <= t < self.shards@[x].tblobs@.len() implies (
        #[trigger] self.shards@[x].tfree_list@[t]).wf()
            && self.shards@[x].tfree_list@[t].spec_size() == BLOB_PAGES && has_blob(
            g,
            self.shards@[x].tblobs@[t],
        ) by {
            if x == s {
                assert(td.tfree_list@[t].wf() && td.tfree_list@[t].spec_size() == BLOB_PAGES
                    && has_blob(g0, td.tblobs@[t]));
                let w = choose|w: int| 0 <= w < g0.blobs.len() && g0.blobs[w] == td.tblobs@[t];
                assert(g.blobs[w] == td.tblobs@[t]);
            } else {
                assert(self.shards@[x] == o.shards@[x]);
                assert(o.shards@[x].tfree_list@[t].wf() && o.shards@[x].tfree_list@[
                    t
                ].spec_size() == BLOB_PAGES && has_blob(g0, o.shards@[x].tblobs@[t]));
                let w = choose|w: int|
                    0 <= w < g0.blobs.len() && g0.blobs[w] == o.shards@[x].tblobs@[t];
                assert(g.blobs[w] == o.shards@[x].tblobs@[t]);
            }
        }
        assert forall|x: int, t: int, i: int|
            #![trigger self.shards@[x].tfree_list@[t]@[i]]
            0 <= x < self.shards@.len() && 0 <= t < self.shards@[x].tblobs@.len() && 0 <= i
                < BLOB_PAGES && !(self.shards@[x].tfree_list@[t]@[i]) implies !gbit(
            g,
            PagePos { bid: self.shards@[x].tblobs@[t], offset: i as u64 },
        ) by {
            if x == s {
            } else {
                assert(self.shards@[x] == o.shards@[x]);
            }
        }
        assert forall|s1: int, t1: int, s2: int, t2: int, i: int|
            #![trigger self.shards@[s1].tfree_list@[t1]@[i], self.shards@[s2].tfree_list@[t2]@[i]]
            0 <= s1 < self.shards@.len() && 0 <= t1 < self.shards@[s1].tblobs@.len() && 0 <= s2
                < self.shards@.len() && 0 <= t2 < self.shards@[s2].tblobs@.len() && (s1 != s2 || t1
                != t2) && self.shards@[s1].tblobs@[t1] == self.shards@[s2].tblobs@[t2] && 0 <= i
                < BLOB_PAGES implies (self.shards@[s1].tfree_list@[t1]@[i]
                || self.shards@[s2].tfree_list@[t2]@[i]) by {
            if s1 == s && s2 == s {
                assert(td.tblobs@[t1] != td.tblobs@[t2]) by {
                    if t1 < t2 {
                    } else {
                    }
                }
            } else if s1 == s {
                assert(self.shards@[s2] == o.shards@[s2]);
            } else if s2 == s {
                assert(self.shards@[s1] == o.shards@[s1]);
            } else {
                assert(self.shards@[s1] == o.shards@[s1]);
                assert(self.shards@[s2] == o.shards@[s2]);
            }
        }
    }

    /// What an allocation round keeps intact and what discipline the
    /// bitmaps follow while pages move: `recycled` is the prefix of old
    /// positions already released, `newp` the fresh positions handed out.
    spec fn arinv(
        self,
        o: FileEngine,
        s: int,
        td: ThreadData,
        newp: Seq<PagePos>,
        recycled: Seq<PagePos>,
    ) -> bool {
        let g0 = o.global();
        let g = self.global();
        &&& self.db == o.db
        &&& self.blob_engine == o.blob_engine
        &&& self.magic_key == o.magic_key
        &&& self.next_shard == o.next_shard
        &&& o.next_shard == s
        &&& self.shards@.len() == o.shards@.len()
        &&& forall|x: int| 0 <= x < self.shards@.len() && x != s ==> self.shards@[x] == o.shards@[x]
        &&& self.mad_engine.lists_wf()
        &&& g.wf_shape()
        &&& g.blobs == g0.blobs
        &&& g.free_list.len() == g0.free_list.len()
        &&& g.device == g0.device
        &&& g.blob_size == g0.blob_size
        &&& self.shard_discipline(o, s, td)
        &&& forall|j: int|
            0 <= j < newp.len() ==> valid_slot(g0, #[trigger] newp[j]) && !gbit(g0, newp[j])
        &&& forall|j1: int, j2: int|
            #![trigger newp[j1], newp[j2]]
            0 <= j1 < j2 < newp.len() ==> newp[j1] != newp[j2]
        &&& forall|pos: PagePos|
            valid_slot(g0, pos) ==> #[trigger] gbit(g, pos) == (newp.contains(pos) || (gbit(
                g0,
                pos,
            ) && !recycled.contains(pos)))
    }

    /// Hand out `total_page_num` fresh page positions from this worker's
    /// shard, round-robin over its blobs, and release the old positions
    /// being replaced; persist the updated global free list either way.
    /// With no free page left the round fails with `NoSpace`, keeping
    /// what it already reserved.
    fn allocate_and_recycle_poses(&mut self, poses: &Vec<PagePos>, total_page_num: u64) -> (r:
        Result<Vec<PagePos>, EngineError>)
        requires
            old(self).wf(),
            forall|j: int|
                0 <= j < poses@.len() ==> valid_slot(old(self).global(), #[trigger] poses@[j])
                    && gbit(old(self).global(), poses@[j]),
            forall|j1: int, j2: int|
                #![trigger poses@[j1], poses@[j2]]
                0 <= j1 < j2 < poses@.len() ==> poses@[j1] != poses@[j2],
        ensures
            final(self).dev() == old(self).dev(),
            final(self).spec_magic_key() == old(self).spec_magic_key(),
            final(self).db.wf(),
            final(self).blob_engine.wf(),
            final(self).mad_engine.lists_wf(),
            final(self).global().wf_shape(),
            final(self).global().blobs == old(self).global().blobs,
            final(self).global().device == old(self).global().device,
            final(self).global().blob_size == old(self).global().blob_size,
            final(self).shards_wf(),
            final(self).next_shard < NUM_THREAD,
            final(self).rows() == old(self).rows().insert(
                magic_key_spec(),
                final(self).rows()[magic_key_spec()],
            ),
            final(self).rows().contains_key(magic_key_spec()),
            dec_engine_spec(final(self).rows()[magic_key_spec()]) == Some(final(self).global()),
            shard_free_pages(old(self).shards@[old(self).next_shard as int]) >= total_page_num
                <==> r is Ok,
            match r {
                Ok(newp) => {
                    &&& newp@.len() == total_page_num
                    &&& forall|j: int|
                        0 <= j < newp@.len() ==> valid_slot(
                            old(self).global(),
                            #[trigger] newp@[j],
                        ) && !gbit(old(self).global(), newp@[j])
                    &&& forall|j1: int, j2: int|
                        #![trigger newp@[j1], newp@[j2]]
                        0 <= j1 < j2 < newp@.len() ==> newp@[j1] != newp@[j2]
                    &&& forall|pos: PagePos|
                        valid_slot(old(self).global(), pos) ==> #[trigger] gbit(
                            final(self).global(),
                            pos,
                        ) == (newp@.contains(pos) || (gbit(old(self).global(), pos)
                            && !poses@.contains(pos)))
                },
                Err(e) => {
                    &&& e == EngineError::NoSpace
                    &&& final(self).wf()
                    &&& forall|pos: PagePos|
                        valid_slot(old(self).global(), pos) && gbit(old(self).global(), pos)
                            ==> #[trigger] gbit(final(self).global(), pos)
                },
            },
    {
        let ghost g0 = old(self).global();
        let s = self.next_shard;
        let mut td = ThreadData::default();
        self.shards.set_and_swap(s, &mut td);
        let ghost td_start = td;
        let ghost empty_rec = Seq::<PagePos>::empty();
        proof {
            assert(td == old(self).shards@[s as int]);
            assert forall|pos: PagePos| valid_slot(g0, pos) implies #[trigger] gbit(
                self.global(),
                pos,
            ) == (Seq::<PagePos>::empty().contains(pos) || (gbit(g0, pos)
                && !empty_rec.contains(pos))) by {
                assert(!Seq::<PagePos>::empty().contains(pos));
            }
            assert(self.arinv(*old(self), s as int, td, Seq::<PagePos>::empty(), empty_rec));
        }
        let mut newp: Vec<PagePos> = Vec::new();
        let mut progress = true;
        while (newp.len() as u64) < total_page_num && progress
            invariant
                self.arinv(*old(self), s as int, td, newp@, Seq::<PagePos>::empty()),
                old(self).wf(),
                s == old(self).next_shard,
                s < NUM_THREAD,
                g0 == old(self).global(),
                empty_rec == Seq::<PagePos>::empty(),
                newp@.len() <= total_page_num,
                td_start == old(self).shards@[s as int],
                shard_free_pages(td) + newp@.len() == shard_free_pages(td_start),
                !progress && newp@.len() < total_page_num ==> shard_free_pages(td) == 0,
            decreases total_page_num - newp@.len(), (if progress {
                1int
            } else {
                0int
            }),
        {
            progress = false;
            let ghost n_start = newp@.len();
            let tn = td.tblobs.len();
            let mut t: usize = 0;
            while t < tn && (newp.len() as u64) < total_page_num
                invariant
                    self.arinv(*old(self), s as int, td, newp@, Seq::<PagePos>::empty()),
                    old(self).wf(),
                    s == old(self).next_shard,
                    s < NUM_THREAD,
                    g0 == old(self).global(),
                    empty_rec == Seq::<PagePos>::empty(),
                    newp@.len() <= total_page_num,
                    tn == td.tblobs@.len(),
                    t <= tn,
                    progress ==> newp@.len() > n_start,
                    n_start <= newp@.len(),
                    td_start == old(self).shards@[s as int],
                    shard_free_pages(td) + newp@.len() == shard_free_pages(td_start),
                    !progress ==> forall|t2: int, j: int|
                        #![trigger td.tfree_list@[t2]@[j]]
                        0 <= t2 < t && 0 <= j < BLOB_PAGES ==> td.tfree_list@[t2]@[j],
                decreases tn - t,
            {
                let found = td.tfree_list[t].find();
                match found {
                    Some(idx) => {
                        let bid = td.tblobs[t];
                        let ghost pos = PagePos { bid, offset: idx };
                        let ghost gpre = self.global();
                        let ghost tdpre = td;
                        let ghost newpre = newp@;
                        proof {
                            assert(td.tfree_list@[t as int].wf() && td.tfree_list@[
                                t as int
                            ].spec_size() == BLOB_PAGES && has_blob(g0, td.tblobs@[t as int]));
                            assert(!td.tfree_list@[t as int]@[idx as int]);
                            assert(!gbit(gpre, pos));
                            assert(has_blob(g0, bid));
                            assert(!(newpre.contains(pos) || (gbit(g0, pos)
                                && !empty_rec.contains(pos))));
                            assert(!newpre.contains(pos));
                            assert(!gbit(g0, pos));
                        }
                        shard_write_bit(&mut td, t, idx, true);
                        proof {
                            assert forall|j: int|
                                0 <= j < BLOB_PAGES implies td.tfree_list@[t as int]@[j] == (
                            tdpre.tfree_list@[t as int]@[j] || j == idx as int) by {}
                            lemma_shard_count_set(
                                tdpre,
                                td,
                                t as int,
                                idx as int,
                                td.tfree_list@.len() as int,
                            );
                        }
                        let gio = find_blob_index(&self.mad_engine, bid);
                        let gi = match gio {
                            Some(gi) => gi,
                            None => {
                                proof {
                                    self.mad_engine.lemma_view();
                                    assert(false);
                                }
                                return Err(EngineError::NoSpace);
                            },
                        };
                        proof {
                            self.mad_engine.lemma_view();
                            lemma_blob_index_props(gpre, bid);
                        }
                        global_set_bit(&mut self.mad_engine, gi, idx);
                        newp.push(PagePos { bid, offset: idx });
                        progress = true;
                        proof {
                            let g = self.global();
                            assert(g0.wf_shape());
                            assert(gi as int == blob_index(gpre, bid));
                            lemma_blob_index_eq(g0, gpre, bid);
                            assert(gi as int == blob_index(g0, bid));
                            assert forall|pp: PagePos| valid_slot(g0, pp) implies #[trigger] gbit(
                                g,
                                pp,
                            ) == (newp@.contains(pp) || (gbit(g0, pp) && !empty_rec.contains(
                                pp,
                            ))) by {
                                lemma_blob_index_props(g0, pp.bid);
                                lemma_blob_index_eq(g0, gpre, pp.bid);
                                lemma_blob_index_eq(g0, g, pp.bid);
                                let bi = blob_index(g0, pp.bid);
                                if pp == pos {
                                    assert(gbit(g, pp));
                                    assert(newp@[newp@.len() - 1] == pos);
                                    assert(newp@.contains(pp));
                                } else {
                                    if pp.bid == bid {
                                        assert(bi == gi as int);
                                        assert(pp.offset != idx);
                                        assert(gbit(g, pp) == gbit(gpre, pp));
                                    } else {
                                        assert(bi != gi as int) by {
                                            if bi == gi as int {
                                                assert(g0.blobs[bi] == pp.bid);
                                                lemma_blob_index_props(g0, bid);
                                                assert(g0.blobs[blob_index(g0, bid)] == bid);
                                            }
                                        }
                                        assert(gbit(g, pp) == gbit(gpre, pp));
                                    }
                                    assert(newp@.contains(pp) == newpre.contains(pp)) by {
                                        if newpre.contains(pp) {
                                            let w = choose|w: int|
                                                0 <= w < newpre.len() && newpre[w] == pp;
                                            assert(newp@[w] == pp);
                                        }
                                        if newp@.contains(pp) {
                                            let w = choose|w: int|
                                                0 <= w < newp@.len() && newp@[w] == pp;
                                            assert(w < newpre.len());
                                            assert(newpre[w] == pp);
                                        }
                                    }
                                }
                            }
                            assert forall|t2: int, i: int|
                                #![trigger td.tfree_list@[t2]@[i]]
                                0 <= t2 < td.tblobs@.len() && 0 <= i < BLOB_PAGES
                                    && !td.tfree_list@[t2]@[i] implies !gbit(
                                self.global(),
                                PagePos { bid: td.tblobs@[t2], offset: i as u64 },
                            ) by {
                                let qp = PagePos { bid: td.tblobs@[t2], offset: i as u64 };
                                assert(!tdpre.tfree_list@[t2]@[i]);
                                assert(!gbit(gpre, qp));
                                assert(valid_slot(g0, qp));
                                if qp == pos {
                                    assert(td.tfree_list@[t as int]@[idx as int]);
                                    assert(t2 != t as int);
                                    assert(td.tblobs@[t2] == td.tblobs@[t as int]);
                                    assert(false);
                                }
                            }
                            assert(self.arinv(*old(self), s as int, td, newp@, empty_rec));
                        }
                    },
                    None => {
                        proof {
                            if !progress {
                                assert forall|t2: int, j: int|
                                    #![trigger td.tfree_list@[t2]@[j]]
                                    0 <= t2 < t + 1 && 0 <= j < BLOB_PAGES implies td.tfree_list@[
                                    t2
                                ]@[j] by {
                                    if t2 == t as int {
                                        assert(td.tfree_list@[t2].bit(j));
                                    }
                                }
                            }
                        }
                    },
                }
                t = t + 1;
            }
            proof {
                if !progress && (newp@.len() as u64) < total_page_num {
                    lemma_shard_count_empty(td, td.tfree_list@.len() as int);
                }
            }
        }
        let ghost td_alloc = td;
        proof {
            assert(shard_free_pages(td_alloc) + newp@.len() == shard_free_pages(td_start));
        }
        if (newp.len() as u64) < total_page_num {
            // Exhausted: hand the shard back, keep the reservations made
            // so far persisted, and report the device full.
            proof {
                assert(shard_free_pages(td) == 0);
                assert(shard_free_pages(td_start) < total_page_num);
            }
            self.shards.set_and_swap(s, &mut td);
            proof {
                assert(self.shard_discipline(*old(self), s as int, self.shards@[s as int]));
                self.lemma_assemble_shards(*old(self), s as int);
            }
            let ghost pre_put = *self;
            let row = encode_engine(&self.mad_engine);
            let mk = slice_to_vec(self.magic_key.as_slice());
            self.db.put(mk, row);
            proof {
                assert(mk@ == magic_key_spec());
                assert(self.rows() == pre_put.rows().insert(magic_key_spec(), row@));
                assert(self.rows() == old(self).rows().insert(
                    magic_key_spec(),
                    self.rows()[magic_key_spec()],
                )) by {
                    assert(self.rows() =~= old(self).rows().insert(magic_key_spec(), row@));
                    assert(self.rows()[magic_key_spec()] == row@);
                }
                assert(self.shards_wf());
                assert forall|k: Seq<u8>| #[trigger]
                    self.has_chunk(k) implies dec_chunk_spec(self.rows()[k]) is Some
                    && self.chunk_wf(self.chunk_at(k)) by {
                    assert(old(self).has_chunk(k));
                    assert(self.rows()[k] == old(self).rows()[k]);
                    let m = self.chunk_at(k);
                    assert(m == old(self).chunk_at(k));
                    assert(old(self).chunk_wf(m));
                    assert forall|p: int| 0 <= p < m.location.len() implies valid_slot(
                        self.global(),
                        #[trigger] m.location[p],
                    ) && gbit(self.global(), m.location[p]) by {
                        assert(valid_slot(old(self).global(), m.location[p]));
                        assert(gbit(old(self).global(), m.location[p]));
                        let w = choose|w: int|
                            0 <= w < old(self).global().blobs.len() && old(self).global().blobs[w] == m.location[p].bid;
                        assert(self.global().blobs[w] == m.location[p].bid);
                        assert(!empty_rec.contains(m.location[p]));
                    }
                }
                assert forall|k1: Seq<u8>, p1: int, k2: Seq<u8>, p2: int|
                    #![trigger self.chunk_at(k1).location[p1], self.chunk_at(k2).location[p2]]
                    self.has_chunk(k1) && self.has_chunk(k2) && 0 <= p1 < self.chunk_at(
                        k1,
                    ).location.len() && 0 <= p2 < self.chunk_at(k2).location.len() && (k1 != k2
                        || p1 != p2) implies self.chunk_at(k1).location[p1] != self.chunk_at(
                    k2,
                ).location[p2] by {
                    assert(self.chunk_at(k1) == old(self).chunk_at(k1));
                    assert(self.chunk_at(k2) == old(self).chunk_at(k2));
                    assert(old(self).chunk_at(k1).location[p1] != old(self).chunk_at(
                        k2,
                    ).location[p2]);
                }
                assert(self.wf());
                assert forall|pos: PagePos|
                    valid_slot(old(self).global(), pos) && gbit(
                        old(self).global(),
                        pos,
                    ) implies #[trigger] gbit(self.global(), pos) by {
                    assert(!empty_rec.contains(pos));
                }
            }
            return Err(EngineError::NoSpace);
        }
        // Recycle the replaced positions.
        let np = poses.len();
        let mut j: usize = 0;
        while j < np
            invariant
                self.arinv(*old(self), s as int, td, newp@, poses@.subrange(0, j as int)),
                old(self).wf(),
                s == old(self).next_shard,
                s < NUM_THREAD,
                g0 == old(self).global(),
                np == poses@.len(),
                j <= np,
                newp@.len() == total_page_num,
                forall|x: int|
                    0 <= x < poses@.len() ==> valid_slot(g0, #[trigger] poses@[x]) && gbit(
                        g0,
                        poses@[x],
                    ),
                forall|x1: int, x2: int|
                    #![trigger poses@[x1], poses@[x2]]
                    0 <= x1 < x2 < poses@.len() ==> poses@[x1] != poses@[x2],
            decreases np - j,
        {
            let pos = poses[j];
            let ghost gpre = self.global();
            let ghost tdpre = td;
            let ghost recpre = poses@.subrange(0, j as int);
            proof {
                assert(valid_slot(g0, pos) && gbit(g0, pos));
                assert(!newp@.contains(pos)) by {
                    if newp@.contains(pos) {
                        let w = choose|w: int| 0 <= w < newp@.len() && newp@[w] == pos;
                        assert(!gbit(g0, newp@[w]));
                    }
                }
                assert(!recpre.contains(pos)) by {
                    if recpre.contains(pos) {
                        let w = choose|w: int| 0 <= w < recpre.len() && recpre[w] == pos;
                        assert(poses@[w] == pos);
                        assert(poses@[w] != poses@[j as int]);
                    }
                }
                assert(gbit(gpre, pos));
            }
            let gio = find_blob_index(&self.mad_engine, pos.bid);
            let gi = match gio {
                Some(gi) => gi,
                None => {
                    proof {
                        self.mad_engine.lemma_view();
                        assert(false);
                    }
                    return Err(EngineError::NoSpace);
                },
            };
            proof {
                self.mad_engine.lemma_view();
                lemma_blob_index_props(gpre, pos.bid);
            }
            global_clear_bit(&mut self.mad_engine, gi, pos.offset);
            let ghost gmid = self.global();
            proof {
                let g = self.global();
                assert(gi as int == blob_index(gpre, pos.bid));
                assert forall|pp: PagePos| valid_slot(g0, pp) implies #[trigger] gbit(g, pp) == (
                newp@.contains(pp) || (gbit(g0, pp) && !poses@.subrange(0, j + 1).contains(
                    pp,
                ))) by {
                    lemma_blob_index_props(g0, pp.bid);
                    lemma_blob_index_eq(g0, gpre, pp.bid);
                    lemma_blob_index_eq(g0, g, pp.bid);
                    let bi = blob_index(g0, pp.bid);
                    let recnext = poses@.subrange(0, j + 1);
                    assert(recnext[j as int] == pos);
                    if pp == pos {
                        assert(!gbit(g, pp));
                        assert(recnext.contains(pp));
                        assert(!newp@.contains(pp));
                    } else {
                        if pp.bid == pos.bid {
                            assert(bi == gi as int);
                            assert(pp.offset != pos.offset);
                            assert(gbit(g, pp) == gbit(gpre, pp));
                        } else {
                            assert(bi != gi as int) by {
                                if bi == gi as int {
                                    assert(g0.blobs[bi] == pp.bid);
                                    lemma_blob_index_props(g0, pos.bid);
                                }
                            }
                            assert(gbit(g, pp) == gbit(gpre, pp));
                        }
                        assert(recnext.contains(pp) == recpre.contains(pp)) by {
                            if recpre.contains(pp) {
                                let w = choose|w: int| 0 <= w < recpre.len() && recpre[w] == pp;
                                assert(recnext[w] == pp);
                            }
                            if recnext.contains(pp) {
                                let w = choose|w: int| 0 <= w < recnext.len() && recnext[w] == pp;
                                assert(w != j as int);
                                assert(recpre[w] == pp);
                            }
                        }
                    }
                }
            }
            let tio = shard_find_blob(&td, pos.bid);
            match tio {
                Some(ti) => {
                    proof {
                        assert(td.tfree_list@[ti as int].wf());
                    }
                    shard_write_bit(&mut td, ti, pos.offset, false);
                    proof {
                        let g = self.global();
                        let recnext = poses@.subrange(0, j + 1);
                        assert(td.tblobs@[ti as int] == pos.bid);
                        assert(recnext.contains(pos)) by {
                            assert(recnext[j as int] == pos);
                        }
                        assert(!gbit(g, pos));
                        assert forall|t2: int, i: int|
                            #![trigger td.tfree_list@[t2]@[i]]
                            0 <= t2 < td.tblobs@.len() && 0 <= i < BLOB_PAGES
                                && !td.tfree_list@[t2]@[i] implies !gbit(
                            g,
                            PagePos { bid: td.tblobs@[t2], offset: i as u64 },
                        ) by {
                            let qp = PagePos { bid: td.tblobs@[t2], offset: i as u64 };
                            if t2 == ti as int && i == pos.offset as int {
                                assert(qp == pos);
                            } else {
                                assert(!tdpre.tfree_list@[t2]@[i]);
                                assert(!gbit(gpre, qp));
                                assert(valid_slot(g0, qp));
                                if gbit(g, qp) {
                                    assert(newp@.contains(qp) || (gbit(g0, qp)
                                        && !recnext.contains(qp)));
                                    assert(recpre.contains(qp) ==> recnext.contains(qp)) by {
                                        if recpre.contains(qp) {
                                            let w = choose|w: int|
                                                0 <= w < recpre.len() && recpre[w] == qp;
                                            assert(recnext[w] == qp);
                                        }
                                    }
                                    assert(gbit(gpre, qp));
                                }
                            }
                        }
                        assert forall|x: int, t1: int, t2: int, i: int|
                            #![trigger self.shards@[x].tfree_list@[t1]@[i], td.tfree_list@[t2]@[i]]
                            0 <= x < self.shards@.len() && x != s as int && 0 <= t1
                                < self.shards@[x].tblobs@.len() && 0 <= t2 < td.tblobs@.len()
                                && self.shards@[x].tblobs@[t1] == td.tblobs@[t2] && 0 <= i
                                < BLOB_PAGES implies (self.shards@[x].tfree_list@[t1]@[i]
                                || td.tfree_list@[t2]@[i]) by {
                            if t2 == ti as int && i == pos.offset as int {
                                if !self.shards@[x].tfree_list@[t1]@[i] {
                                    assert(!gbit(gpre, PagePos {
                                        bid: self.shards@[x].tblobs@[t1],
                                        offset: i as u64,
                                    }));
                                    assert(gbit(gpre, pos));
                                }
                            } else {
                                assert(td.tfree_list@[t2]@[i] == tdpre.tfree_list@[t2]@[i]);
                            }
                        }
                        assert(self.arinv(*old(self), s as int, td, newp@, recnext));
                    }
                },
                None => {
                    let mut bm = BitMap::new_set_ones(BLOB_PAGES);
                    bm.clear(pos.offset);
                    td.tblobs.push(pos.bid);
                    td.tfree_list.push(bm);
                    proof {
                        let g = self.global();
                        let recnext = poses@.subrange(0, j + 1);
                        let nt = td.tblobs@.len() - 1;
                        assert(td.tblobs@[nt] == pos.bid);
                        assert(recnext.contains(pos)) by {
                            assert(recnext[j as int] == pos);
                        }
                        assert(!gbit(g, pos));
                        assert forall|t2: int, i: int|
                            #![trigger td.tfree_list@[t2]@[i]]
                            0 <= t2 < td.tblobs@.len() && 0 <= i < BLOB_PAGES
                                && !td.tfree_list@[t2]@[i] implies !gbit(
                            g,
                            PagePos { bid: td.tblobs@[t2], offset: i as u64 },
                        ) by {
                            let qp = PagePos { bid: td.tblobs@[t2], offset: i as u64 };
                            if t2 == nt {
                                assert(qp == pos);
                            } else {
                                assert(!tdpre.tfree_list@[t2]@[i]);
                                assert(!gbit(gpre, qp));
                                assert(valid_slot(g0, qp));
                                if gbit(g, qp) {
                                    assert(recpre.contains(qp) ==> recnext.contains(qp)) by {
                                        if recpre.contains(qp) {
                                            let w = choose|w: int|
                                                0 <= w < recpre.len() && recpre[w] == qp;
                                            assert(recnext[w] == qp);
                                        }
                                    }
                                    assert(gbit(gpre, qp));
                                }
                            }
                        }
                        assert forall|x: int, t1: int, t2: int, i: int|
                            #![trigger self.shards@[x].tfree_list@[t1]@[i], td.tfree_list@[t2]@[i]]
                            0 <= x < self.shards@.len() && x != s as int && 0 <= t1
                                < self.shards@[x].tblobs@.len() && 0 <= t2 < td.tblobs@.len()
                                && self.shards@[x].tblobs@[t1] == td.tblobs@[t2] && 0 <= i
                                < BLOB_PAGES implies (self.shards@[x].tfree_list@[t1]@[i]
                                || td.tfree_list@[t2]@[i]) by {
                            if t2 == nt {
                                if i == pos.offset as int {
                                    if !self.shards@[x].tfree_list@[t1]@[i] {
                                        assert(!gbit(gpre, PagePos {
                                            bid: self.shards@[x].tblobs@[t1],
                                            offset: i as u64,
                                        }));
                                        assert(gbit(gpre, pos));
                                    }
                                } else {
                                    assert(td.tfree_list@[nt]@[i]);
                                }
                            } else {
                                assert(td.tfree_list@[t2]@[i] == tdpre.tfree_list@[t2]@[i]);
                            }
                        }
                        assert(self.arinv(*old(self), s as int, td, newp@, recnext));
                    }
                },
            }
            j = j + 1;
        }
        proof {
            assert(poses@.subrange(0, np as int) =~= poses@);
        }
        self.shards.set_and_swap(s, &mut td);
        proof {
            assert(self.shard_discipline(*old(self), s as int, self.shards@[s as int]));
            self.lemma_assemble_shards(*old(self), s as int);
        }
        self.next_shard = if s + 1 < NUM_THREAD {
            s + 1
        } else {
            0
        };
        let ghost pre_put = *self;
        let row = encode_engine(&self.mad_engine);
        let mk = slice_to_vec(self.magic_key.as_slice());
        self.db.put(mk, row);
        proof {
            lemma_shard_count_nonneg(td_alloc, td_alloc.tfree_list@.len() as int);
            assert(shard_free_pages(td_start) >= total_page_num);
            assert(mk@ == magic_key_spec());
            assert(self.rows() == pre_put.rows().insert(magic_key_spec(), row@));
            assert(self.rows() == old(self).rows().insert(
                magic_key_spec(),
                self.rows()[magic_key_spec()],
            )) by {
                assert(self.rows() =~= old(self).rows().insert(magic_key_spec(), row@));
                assert(self.rows()[magic_key_spec()] == row@);
            }
            assert(self.shards_wf());
            assert forall|pos: PagePos| valid_slot(old(self).global(), pos) implies #[trigger] gbit(
                self.global(),
                pos,
            ) == (newp@.contains(pos) || (gbit(old(self).global(), pos) && !poses@.contains(
                pos,
            ))) by {}
        }
        Ok(newp)
    }
}


/// One page of the staged write: `data` laid over `base` wherever the
/// write's byte range crosses page `p`.
pub open spec fn staged_page(base: Seq<u8>, data: Seq<u8>, offset: int, p: int) -> Seq<u8> {
    Seq::new(
        PAGE_SIZE as nat,
        |b: int|
            if offset <= p * (PAGE_SIZE as int) + b < offset + data.len() {
                data[p * (PAGE_SIZE as int) + b - offset]
            } else {
                base[b]
            },
    )
}


proof fn lemma_div_le(a: int, b: int)
    by (nonlinear_arith)
    requires
        0 <= a <= b,
    ensures
        a / 4096 <= b / 4096,
{
}

proof fn lemma_same_page_off(i: int, offset: int)
    by (nonlinear_arith)
    requires
        0 <= i < offset,
        i / 4096 == offset / 4096,
    ensures
        offset % 4096 != 0,
{
}

proof fn lemma_page_of_index(i: int)
    by (nonlinear_arith)
    requires
        0 <= i,
    ensures
        i == (i / 4096) * 4096 + i % 4096,
        0 <= i % 4096 < 4096,
        0 <= i / 4096,
{
}


/// Stage one page of a write.
fn build_page(base: &Vec<u8>, data: &Vec<u8>, offset: u64, p: u64) -> (r: Vec<u8>)
    requires
        base@.len() == PAGE_SIZE,
        p * PAGE_SIZE + PAGE_SIZE <= u64::MAX,
        offset + data@.len() <= u64::MAX,
    ensures
        r@ == staged_page(base@, data@, offset as int, p as int),
        r@.len() == PAGE_SIZE,
{
    let dlen = data.len();
    let mut r: Vec<u8> = Vec::new();
    let mut b: usize = 0;
    proof {
        assert((p * 4096) as int == (p as int) * 4096) by (nonlinear_arith);
    }
    while b < 4096
        invariant
            b <= 4096,
            r@.len() == b,
            dlen == data@.len(),
            base@.len() == PAGE_SIZE,
            p * PAGE_SIZE + PAGE_SIZE <= u64::MAX,
            offset + data@.len() <= u64::MAX,
            forall|x: int|
                0 <= x < b ==> r@[x] == staged_page(base@, data@, offset as int, p as int)[x],
        decreases 4096 - b,
    {
        let abs = p * PAGE_SIZE + b as u64;
        proof {
            assert(abs as int == (p as int) * 4096 + b as int) by (nonlinear_arith)
                requires
                    abs == p * 4096 + b,
                    b <= 4096,
                    p * 4096 + 4096 <= u64::MAX,
            ;
        }
        let byte = if offset <= abs && abs - offset < dlen as u64 {
            data[(abs - offset) as usize]
        } else {
            base[b]
        };
        r.push(byte);
        b = b + 1;
    }
    proof {
        assert(r@ =~= staged_page(base@, data@, offset as int, p as int));
    }
    r
}




/// The rows and the device an engine can be reloaded from: the global
/// row decodes and lists blobs the device holds, every chunk row decodes,
/// and the chunk pages name distinct valid pages of listed blobs.
pub open spec fn restorable(rows: Map<Seq<u8>, Seq<u8>>, dev: DeviceEngine) -> bool {
    &&& rows.contains_key(magic_key_spec())
    &&& dec_engine_spec(rows[magic_key_spec()]) is Some
    &&& ({
        let g = dec_engine_spec(rows[magic_key_spec()]).unwrap();
        &&& forall|i: int|
            0 <= i < g.blobs.len() ==> (#[trigger] g.blobs[i]) < dev.blob_count()
                && dev.page_count(g.blobs[i] as int) >= BLOB_PAGES
        &&& forall|k: Seq<u8>|
            k != magic_key_spec() && #[trigger] rows.contains_key(k) ==> dec_chunk_spec(
                rows[k],
            ) is Some
        &&& forall|k: Seq<u8>, p: int|
            #![trigger dec_chunk_spec(rows[k]).unwrap().location[p]]
            k != magic_key_spec() && rows.contains_key(k) && 0 <= p < dec_chunk_spec(
                rows[k],
            ).unwrap().location.len() ==> (exists|i: int|
                0 <= i < g.blobs.len() && g.blobs[i] == dec_chunk_spec(
                    rows[k],
                ).unwrap().location[p].bid) && dec_chunk_spec(rows[k]).unwrap().location[p].offset
                < BLOB_PAGES
        &&& forall|k1: Seq<u8>, p1: int, k2: Seq<u8>, p2: int|
            #![trigger dec_chunk_spec(rows[k1]).unwrap().location[p1], dec_chunk_spec(rows[k2]).unwrap().location[p2]]
            k1 != magic_key_spec() && rows.contains_key(k1) && k2 != magic_key_spec()
                && rows.contains_key(k2) && 0 <= p1 < dec_chunk_spec(
                rows[k1],
            ).unwrap().location.len() && 0 <= p2 < dec_chunk_spec(rows[k2]).unwrap().location.len()
                && (k1 != k2 || p1 != p2) ==> dec_chunk_spec(rows[k1]).unwrap().location[p1]
                != dec_chunk_spec(rows[k2]).unwrap().location[p2]
    })
}

/// Every decodable chunk row's checksums match the page bytes on `dev`.
pub open spec fn rows_csum_ok(rows: Map<Seq<u8>, Seq<u8>>, dev: DeviceEngine) -> bool {
    forall|kk: Seq<u8>, p: int|
        #![trigger dec_chunk_spec(rows[kk]).unwrap().csum_data[p]]
        kk != magic_key_spec() && rows.contains_key(kk) && dec_chunk_spec(rows[kk]) is Some && 0
            <= p < dec_chunk_spec(rows[kk]).unwrap().location.len() ==> dec_chunk_spec(
            rows[kk],
        ).unwrap().csum_data[p] == crc32_of(dev.page_at(dec_chunk_spec(rows[kk]).unwrap().location[p]))
}


/// Number of clear bits among the first `n` entries of a bit sequence.
pub open spec fn clear_count(bits: Seq<bool>, n: int) -> int
    decreases n,
{
    if n <= 0 {
        0
    } else {
        clear_count(bits, n - 1) + (if bits[n - 1] {
            0int
        } else {
            1int
        })
    }
}

/// Clear bits across a shard's bitmaps, entries `[0, t)`.
pub open spec fn shard_clear_upto(td: ThreadData, t: int) -> int
    decreases t,
{
    if t <= 0 {
        0
    } else {
        shard_clear_upto(td, t - 1) + clear_count(td.tfree_list@[t - 1]@, BLOB_PAGES as int)
    }
}

/// Free pages a worker shard can still hand out.
pub open spec fn shard_free_pages(td: ThreadData) -> int {
    shard_clear_upto(td, td.tfree_list@.len() as int)
}

proof fn lemma_clear_count_nonneg(bits: Seq<bool>, n: int)
    ensures
        clear_count(bits, n) >= 0,
    decreases n,
{
    if n > 0 {
        lemma_clear_count_nonneg(bits, n - 1);
    }
}

proof fn lemma_shard_count_nonneg(td: ThreadData, upto: int)
    ensures
        shard_clear_upto(td, upto) >= 0,
    decreases upto,
{
    if upto > 0 {
        lemma_shard_count_nonneg(td, upto - 1);
        lemma_clear_count_nonneg(td.tfree_list@[upto - 1]@, BLOB_PAGES as int);
    }
}

proof fn lemma_clear_count_frame(b1: Seq<bool>, b2: Seq<bool>, n: int)
    requires
        forall|j: int| 0 <= j < n ==> b1[j] == b2[j],
    ensures
        clear_count(b1, n) == clear_count(b2, n),
    decreases n,
{
    if n > 0 {
        lemma_clear_count_frame(b1, b2, n - 1);
    }
}

proof fn lemma_clear_count_set(b1: Seq<bool>, b2: Seq<bool>, i: int, n: int)
    requires
        0 <= i < n,
        !b1[i],
        forall|j: int| 0 <= j < n ==> b2[j] == (b1[j] || j == i),
    ensures
        clear_count(b2, n) == clear_count(b1, n) - 1,
    decreases n,
{
    if i == n - 1 {
        lemma_clear_count_frame(b1, b2, n - 1);
    } else {
        lemma_clear_count_set(b1, b2, i, n - 1);
    }
}

proof fn lemma_clear_count_all_set(bits: Seq<bool>, n: int)
    requires
        forall|j: int| 0 <= j < n ==> bits[j],
    ensures
        clear_count(bits, n) == 0,
    decreases n,
{
    if n > 0 {
        lemma_clear_count_all_set(bits, n - 1);
    }
}

proof fn lemma_clear_count_all_clear(bits: Seq<bool>, n: int)
    requires
        0 <= n,
        forall|j: int| 0 <= j < n ==> !bits[j],
    ensures
        clear_count(bits, n) == n,
    decreases n,
{
    if n > 0 {
        lemma_clear_count_all_clear(bits, n - 1);
    }
}

/// Setting one clear bit of one entry costs the shard exactly one free
/// page.
proof fn lemma_shard_count_set(td1: ThreadData, td2: ThreadData, t: int, i: int, upto: int)
    requires
        0 <= t < td1.tfree_list@.len(),
        td2.tfree_list@.len() == td1.tfree_list@.len(),
        0 <= i < BLOB_PAGES,
        !td1.tfree_list@[t]@[i],
        forall|x: int|
            0 <= x < td1.tfree_list@.len() && x != t ==> td2.tfree_list@[x] == td1.tfree_list@[x],
        forall|j: int|
            0 <= j < BLOB_PAGES ==> td2.tfree_list@[t]@[j] == (td1.tfree_list@[t]@[j] || j == i),
        upto <= td1.tfree_list@.len(),
    ensures
        shard_clear_upto(td2, upto) == shard_clear_upto(td1, upto) - (if t < upto {
            1int
        } else {
            0int
        }),
    decreases upto,
{
    if upto > 0 {
        lemma_shard_count_set(td1, td2, t, i, upto - 1);
        if t == upto - 1 {
            lemma_clear_count_set(
                td1.tfree_list@[t]@,
                td2.tfree_list@[t]@,
                i,
                BLOB_PAGES as int,
            );
        } else {
            assert(td2.tfree_list@[upto - 1] == td1.tfree_list@[upto - 1]);
        }
    }
}

/// A shard whose bitmaps are all set has no free page left.
proof fn lemma_shard_count_empty(td: ThreadData, upto: int)
    requires
        upto <= td.tfree_list@.len(),
        forall|t: int, j: int|
            #![trigger td.tfree_list@[t]@[j]]
            0 <= t < td.tfree_list@.len() && 0 <= j < BLOB_PAGES ==> td.tfree_list@[t]@[j],
        forall|t: int|
            0 <= t < td.tfree_list@.len() ==> (#[trigger] td.tfree_list@[t])@.len() == BLOB_PAGES,
    ensures
        shard_clear_upto(td, upto) == 0,
    decreases upto,
{
    if upto > 0 {
        lemma_shard_count_empty(td, upto - 1);
        lemma_clear_count_all_set(td.tfree_list@[upto - 1]@, BLOB_PAGES as int);
    }
}

/// Position occurs among the first `q` entries.
spec fn among(s: Seq<PagePos>, q: int, pos: PagePos) -> bool {
    exists|j: int| 0 <= j < q && s[j] == pos
}

impl FileEngine {
    /// The base bytes a staged page starts from: the page's old bytes for
    /// a partial head or a partial tail that keeps later data, zeros
    /// otherwise.
    spec fn stage_base(self, k: Seq<u8>, data: Seq<u8>, offset: int, p: int) -> Seq<u8> {
        let m = self.chunk_at(k);
        if (p == offset / 4096 && offset % 4096 != 0) || (p == (offset + data.len() - 1) / 4096
            && offset + data.len() < m.size) {
            self.dev().page_at(m.location[p])
        } else {
            zero_page()
        }
    }

    /// The bytes page `p` holds after the write is staged.
    spec fn staged(self, k: Seq<u8>, data: Seq<u8>, offset: int, p: int) -> Seq<u8> {
        staged_page(self.stage_base(k, data, offset, p), data, offset, p)
    }
}

/// The file-like storage engine.
pub struct FileEngine {
    pub(crate) db: DbEngine,
    pub(crate) blob_engine: BlobEngine,
    pub(crate) mad_engine: MadEngine,
    pub(crate) shards: Vec<ThreadData>,
    pub(crate) next_shard: usize,
    pub(crate) magic_key: Vec<u8>,
}

impl FileEngine {
    /// The device behind the blob service.
    pub closed spec fn dev(self) -> DeviceEngine {
        self.blob_engine.dev()
    }

    /// The metadata rows.
    pub closed spec fn rows(self) -> Map<Seq<u8>, Seq<u8>> {
        self.db@
    }

    /// The global engine metadata.
    pub closed spec fn global(self) -> MadEngineV {
        self.mad_engine@
    }

    /// A chunk row exists under this key.
    pub open spec fn has_chunk(self, k: Seq<u8>) -> bool {
        k != magic_key_spec() && self.rows().contains_key(k)
    }

    /// The metadata of the chunk stored under key `k`.
    pub open spec fn chunk_at(self, k: Seq<u8>) -> ChunkMetaV {
        dec_chunk_spec(self.rows()[k]).unwrap()
    }

    /// The byte content of the chunk stored under key `k`.
    pub open spec fn chunk_content(self, k: Seq<u8>) -> Seq<u8> {
        Seq::new(
            self.chunk_at(k).size as nat,
            |i: int|
                self.dev().page_at(self.chunk_at(k).location[i / (PAGE_SIZE as int)])[i % (
                PAGE_SIZE as int)],
        )
    }

    /// A chunk's metadata fits the global metadata: one valid, allocated
    /// position per page.
    pub open spec fn chunk_wf(self, m: ChunkMetaV) -> bool {
        &&& m.wf_shape()
        &&& forall|p: int|
            0 <= p < m.location.len() ==> valid_slot(self.global(), #[trigger] m.location[p])
        &&& forall|p: int|
            0 <= p < m.location.len() ==> gbit(self.global(), #[trigger] m.location[p])
    }

    /// No two live logical pages, of any chunks, share a physical page.
    pub open spec fn disjoint_chunks(self) -> bool {
        forall|k1: Seq<u8>, p1: int, k2: Seq<u8>, p2: int|
            #![trigger self.chunk_at(k1).location[p1], self.chunk_at(k2).location[p2]]
            self.has_chunk(k1) && self.has_chunk(k2) && 0 <= p1 < self.chunk_at(
                k1,
            ).location.len() && 0 <= p2 < self.chunk_at(k2).location.len() && (k1 != k2 || p1
                != p2) ==> self.chunk_at(k1).location[p1] != self.chunk_at(k2).location[p2]
    }

    /// The worker shards: each owns bitmaps of the right shape over blobs
    /// of the engine; a page its bitmap shows free is free in the global
    /// list, and no two shard entries show the same page free.
    pub closed spec fn shards_wf(self) -> bool {
        &&& self.shards@.len() == NUM_THREAD
        &&& forall|s: int|
            0 <= s < self.shards@.len() ==> (#[trigger] self.shards@[s]).tblobs@.len()
                == self.shards@[s].tfree_list@.len()
        &&& forall|s: int, t: int|
            0 <= s < self.shards@.len() && 0 <= t < self.shards@[s].tblobs@.len() ==> (
            #[trigger] self.shards@[s].tfree_list@[t]).wf()
                && self.shards@[s].tfree_list@[t].spec_size() == BLOB_PAGES && has_blob(
                self.global(),
                self.shards@[s].tblobs@[t],
            )
        &&& forall|s: int, t1: int, t2: int|
            #![trigger self.shards@[s].tblobs@[t1], self.shards@[s].tblobs@[t2]]
            0 <= s < self.shards@.len() && 0 <= t1 < t2 < self.shards@[s].tblobs@.len()
                ==> self.shards@[s].tblobs@[t1] != self.shards@[s].tblobs@[t2]
        &&& forall|s: int, t: int, i: int|
            #![trigger self.shards@[s].tfree_list@[t]@[i]]
            0 <= s < self.shards@.len() && 0 <= t < self.shards@[s].tblobs@.len() && 0 <= i
                < BLOB_PAGES && !(self.shards@[s].tfree_list@[t]@[i]) ==> !gbit(
                self.global(),
                PagePos { bid: self.shards@[s].tblobs@[t], offset: i as u64 },
            )
        &&& forall|s1: int, t1: int, s2: int, t2: int, i: int|
            #![trigger self.shards@[s1].tfree_list@[t1]@[i], self.shards@[s2].tfree_list@[t2]@[i]]
            0 <= s1 < self.shards@.len() && 0 <= t1 < self.shards@[s1].tblobs@.len() && 0 <= s2
                < self.shards@.len() && 0 <= t2 < self.shards@[s2].tblobs@.len() && (s1 != s2 || t1
                != t2) && self.shards@[s1].tblobs@[t1] == self.shards@[s2].tblobs@[t2] && 0 <= i
                < BLOB_PAGES ==> (self.shards@[s1].tfree_list@[t1]@[i]
                || self.shards@[s2].tfree_list@[t2]@[i])
    }

    /// The engine invariant.
    pub closed spec fn wf(self) -> bool {
        &&& self.db.wf()
        &&& self.blob_engine.wf()
        &&& self.spec_magic_key() == magic_key_spec()
        &&& self.mad_engine.lists_wf()
        &&& self.global().wf_shape()
        &&& self.rows().contains_key(magic_key_spec())
        &&& dec_engine_spec(self.rows()[magic_key_spec()]) == Some(self.global())
        &&& forall|i: int|
            0 <= i < self.global().blobs.len() ==> (#[trigger] self.global().blobs[i])
                < self.dev().blob_count() && self.dev().page_count(self.global().blobs[i] as int)
                >= BLOB_PAGES
        &&& forall|k: Seq<u8>|
            #[trigger] self.has_chunk(k) ==> dec_chunk_spec(self.rows()[k]) is Some
                && self.chunk_wf(self.chunk_at(k))
        &&& self.disjoint_chunks()
        &&& self.shards_wf()
        &&& self.next_shard < NUM_THREAD
    }

    /// Every stored checksum matches the bytes of its physical page.
    pub open spec fn csum_ok(self) -> bool {
        forall|k: Seq<u8>, p: int|
            #![trigger self.chunk_at(k).csum_data[p]]
            self.has_chunk(k) && 0 <= p < self.chunk_at(k).location.len() ==> self.chunk_at(
                k,
            ).csum_data[p] == crc32_of(self.dev().page_at(self.chunk_at(k).location[p]))
    }

    /// The stored magic key.
    pub closed spec fn spec_magic_key(self) -> Seq<u8> {
        self.magic_key@
    }

    /// Worker shard `s`.
    pub closed spec fn shard(self, s: int) -> ThreadData {
        self.shards@[s]
    }

    /// The worker shard the next allocation round draws from.
    pub closed spec fn current_shard(self) -> ThreadData {
        self.shards@[self.next_shard as int]
    }

    /// A live position sits on the device.
    pub proof fn lemma_slot_on_device(self, pos: PagePos)
        requires
            self.wf(),
            valid_slot(self.global(), pos),
        ensures
            self.dev().valid_pos(pos),
            pos.offset < BLOB_PAGES,
    {
        let i = blob_index(self.global(), pos.bid);
        assert(0 <= i < self.global().blobs.len() && self.global().blobs[i] == pos.bid);
        assert(self.global().blobs[i] < self.dev().blob_count());
    }

    /// Create a chunk: store a fresh default metadata row under the name,
    /// replacing any earlier row.
    pub fn create(&mut self, name: String) -> (r: Result<(), EngineError>)
        requires
            old(self).wf(),
        ensures
            final(self).wf(),
            old(self).csum_ok() ==> final(self).csum_ok(),
            final(self).dev() == old(self).dev(),
            final(self).global() == old(self).global(),
            ({
                let k = name_key_spec(name@);
                if k == magic_key_spec() {
                    r == Err::<(), EngineError>(EngineError::MetaKvError) && final(self).rows()
                        == old(self).rows()
                } else {
                    &&& r is Ok
                    &&& final(self).has_chunk(k)
                    &&& final(self).chunk_at(k).size == 0
                    &&& final(self).chunk_at(k).location.len() == 0
                    &&& final(self).chunk_at(k).csum_type == "crc32"@
                    &&& final(self).chunk_content(k) == Seq::<u8>::empty()
                    &&& forall|k2: Seq<u8>|
                        k2 != k ==> final(self).has_chunk(k2) == old(self).has_chunk(k2)
                    &&& forall|k2: Seq<u8>|
                        k2 != k && old(self).has_chunk(k2) ==> final(self).chunk_at(k2) == old(self).chunk_at(k2) && final(self).chunk_content(k2) == old(self).chunk_content(
                            k2,
                        )
                }
            }),
    {
        let key = name_key(name.as_str());
        if key == self.magic_key {
            assert(key@ == self.spec_magic_key());
            assert(key@ == magic_key_spec());
            return Err(EngineError::MetaKvError);
        }
        assert(key@ != magic_key_spec());
        let meta = ChunkMeta::default();
        let row = encode_chunk(&meta);
        let ghost k = key@;
        self.db.put(key, row);
        proof {
            assert(final(self).chunk_at(k) == meta@);
            assert(final(self).chunk_content(k) =~= Seq::<u8>::empty());
            assert forall|k2: Seq<u8>| #[trigger]
                final(self).has_chunk(k2) implies dec_chunk_spec(final(self).rows()[k2]) is Some
                && final(self).chunk_wf(final(self).chunk_at(k2)) by {
                if k2 != k {
                    assert(old(self).has_chunk(k2));
                }
            }
            assert forall|k2: Seq<u8>|
                k2 != k && old(self).has_chunk(k2) implies final(self).chunk_at(k2) == old(self).chunk_at(k2) && final(self).chunk_content(k2) == old(self).chunk_content(k2) by {
                assert(final(self).rows()[k2] == old(self).rows()[k2]);
                assert(final(self).chunk_content(k2) =~= old(self).chunk_content(k2));
            }
        }
        Ok(())
    }

    /// Remove a chunk: delete its metadata row. The pages it used remain
    /// marked used in the free list; they are not synchronously reclaimed.
    pub fn remove(&mut self, name: String) -> (r: Result<(), EngineError>)
        requires
            old(self).wf(),
        ensures
            final(self).wf(),
            old(self).csum_ok() ==> final(self).csum_ok(),
            final(self).dev() == old(self).dev(),
            final(self).global() == old(self).global(),
            ({
                let k = name_key_spec(name@);
                if k == magic_key_spec() {
                    r == Err::<(), EngineError>(EngineError::MetaNotExist) && final(self).rows()
                        == old(self).rows()
                } else {
                    &&& r is Ok
                    &&& !final(self).has_chunk(k)
                    &&& forall|k2: Seq<u8>|
                        k2 != k ==> final(self).has_chunk(k2) == old(self).has_chunk(k2)
                    &&& forall|k2: Seq<u8>|
                        k2 != k && old(self).has_chunk(k2) ==> final(self).chunk_at(k2) == old(self).chunk_at(k2) && final(self).chunk_content(k2) == old(self).chunk_content(
                            k2,
                        )
                }
            }),
    {
        let key = name_key(name.as_str());
        if key == self.magic_key {
            assert(key@ == self.spec_magic_key());
            assert(key@ == magic_key_spec());
            return Err(EngineError::MetaNotExist);
        }
        assert(key@ != magic_key_spec());
        let ghost k = key@;
        self.db.delete(&key);
        proof {
            assert forall|k2: Seq<u8>| #[trigger]
                final(self).has_chunk(k2) implies dec_chunk_spec(final(self).rows()[k2]) is Some
                && final(self).chunk_wf(final(self).chunk_at(k2)) by {
                assert(old(self).has_chunk(k2));
            }
            assert forall|k2: Seq<u8>|
                k2 != k && old(self).has_chunk(k2) implies final(self).chunk_at(k2) == old(self).chunk_at(k2) && final(self).chunk_content(k2) == old(self).chunk_content(k2) by {
                assert(final(self).rows()[k2] == old(self).rows()[k2]);
                assert(final(self).chunk_content(k2) =~= old(self).chunk_content(k2));
            }
        }
        Ok(())
    }


    /// Write `data` at byte `offset` of the named chunk: each touched
    /// logical page is staged in a fresh physical page, checksummed and
    /// written; the old pages are recycled and the metadata row updated.
    /// A write may start anywhere up to the current size, but not past it.
    pub fn write(&mut self, name: String, offset: u64, data: &Vec<u8>) -> (r: Result<
        (),
        EngineError,
    >)
        requires
            old(self).wf(),
            1 <= data@.len(),
            offset + data@.len() <= u64::MAX - PAGE_SIZE,
        ensures
            final(self).wf(),
            old(self).csum_ok() ==> final(self).csum_ok(),
            forall|k2: Seq<u8>| final(self).has_chunk(k2) == old(self).has_chunk(k2),
            ({
                let k = name_key_spec(name@);
                let needed = (offset + data@.len() - 1) / 4096 - offset as int / 4096 + 1;
                (old(self).has_chunk(k) && offset <= old(self).chunk_at(k).size
                    && shard_free_pages(old(self).current_shard()) >= needed) ==> r is Ok
            }),
            ({
                let k = name_key_spec(name@);
                match r {
                    Ok(u) => {
                        &&& old(self).has_chunk(k)
                        &&& offset <= old(self).chunk_at(k).size
                        &&& final(self).chunk_at(k).size as int == (if old(self).chunk_at(k).size
                            as int >= offset + data@.len() {
                            old(self).chunk_at(k).size as int
                        } else {
                            offset + data@.len()
                        })
                        &&& final(self).chunk_at(k).csum_type == "CRC32"@
                        &&& final(self).chunk_content(k) == overwrite(
                            old(self).chunk_content(k),
                            offset as int,
                            data@,
                        )
                        &&& forall|k2: Seq<u8>|
                            k2 != k && old(self).has_chunk(k2) ==> final(self).chunk_at(k2) == old(self).chunk_at(k2) && final(self).chunk_content(k2) == old(self).chunk_content(k2)
                    },
                    Err(e) => {
                        &&& forall|k2: Seq<u8>|
                            old(self).has_chunk(k2) ==> final(self).chunk_at(k2) == old(self).chunk_at(k2) && final(self).chunk_content(k2) == old(self).chunk_content(k2)
                        &&& (e == EngineError::MetaNotExist <==> !old(self).has_chunk(k))
                        &&& (e == EngineError::HoleNotAllowed <==> (old(self).has_chunk(k)
                            && offset > old(self).chunk_at(k).size))
                        &&& (e == EngineError::MetaNotExist || e == EngineError::HoleNotAllowed
                            || e == EngineError::NoSpace)
                        &&& ((e == EngineError::MetaNotExist || e == EngineError::HoleNotAllowed)
                            ==> final(self).rows() == old(self).rows() && final(self).global()
                            == old(self).global() && final(self).dev() == old(self).dev())
                        &&& (e == EngineError::NoSpace ==> shard_free_pages(
                            old(self).current_shard(),
                        ) < (offset + data@.len() - 1) / 4096 - offset as int / 4096 + 1)
                    },
                }
            }),
    {
        let ghost o = *old(self);
        let dlen = data.len() as u64;
        let key = name_key(name.as_str());
        if key == self.magic_key {
            assert(key@ == self.spec_magic_key());
            assert(key@ == magic_key_spec());
            return Err(EngineError::MetaNotExist);
        }
        assert(key@ != magic_key_spec());
        let ghost k = key@;
        let row0 = self.db.get(&key);
        let row0 = match row0 {
            None => {
                return Err(EngineError::MetaNotExist);
            },
            Some(b) => b,
        };
        let meta = decode_chunk(&row0);
        let mut meta = match meta {
            Some(m) => m,
            None => {
                proof {
                    assert(self.has_chunk(k));
                    assert(false);
                }
                return Err(EngineError::MetaNotExist);
            },
        };
        proof {
            meta.lemma_view();
            assert(o.has_chunk(k));
            assert(o.chunk_at(k) == meta@);
            assert(o.chunk_wf(meta@));
        }
        let size = meta.get_size();
        if offset > size {
            return Err(EngineError::HoleNotAllowed);
        }
        let start = offset / PAGE_SIZE;
        let end = (offset + dlen - 1) / PAGE_SIZE;
        let cover_min = if size < offset + dlen {
            size
        } else {
            offset + dlen
        };
        let cover_end = if cover_min == 0 {
            0
        } else {
            (cover_min - 1) / PAGE_SIZE
        };
        let total = end - start + 1;
        let ghost m0 = o.chunk_at(k);
        proof {
            assert(start <= end) by (nonlinear_arith)
                requires
                    start == offset / 4096,
                    end == (offset + dlen - 1) / 4096,
                    1 <= dlen,
                    offset + dlen <= u64::MAX,
            ;
            assert(m0.location.len() == pages_of_size(size));
            if size > 0 {
                assert(cover_end as int <= (size - 1) as int / 4096) by (nonlinear_arith)
                    requires
                        cover_min <= size,
                        0 < cover_min ==> cover_end == (cover_min - 1) / 4096,
                        cover_min == 0 ==> cover_end == 0,
                        0 < size,
                        PAGE_SIZE == 4096,
                ;
                assert((size - 1) as int / 4096 < pages_of_size(size)) by (nonlinear_arith)
                    requires
                        0 < size <= u64::MAX,
                ;
            }
        }
        // gather the positions being replaced
        let mut old_poses: Vec<PagePos> = Vec::new();
        if size > 0 && start <= cover_end {
            let loc_len = meta.location.len();
            let mut p: u64 = start;
            while p <= cover_end
                invariant
                    start <= p <= cover_end + 1,
                    cover_end < loc_len,
                    loc_len == meta.location@.len(),
                    old_poses@.len() == p - start,
                    forall|x: int|
                        0 <= x < old_poses@.len() ==> old_poses@[x] == meta.location@[start + x],
                decreases cover_end + 1 - p,
            {
                old_poses.push(meta.location[p as usize]);
                p = p + 1;
            }
        }
        proof {
            meta.lemma_view();
            assert forall|j: int| 0 <= j < old_poses@.len() implies valid_slot(
                o.global(),
                #[trigger] old_poses@[j],
            ) && gbit(o.global(), old_poses@[j]) by {
                assert(old_poses@[j] == m0.location[start + j]);
            }
            assert forall|j1: int, j2: int|
                #![trigger old_poses@[j1], old_poses@[j2]]
                0 <= j1 < j2 < old_poses@.len() implies old_poses@[j1] != old_poses@[j2] by {
                assert(old_poses@[j1] == m0.location[start + j1]);
                assert(old_poses@[j2] == m0.location[start + j2]);
                assert(o.chunk_at(k).location[start + j1] != o.chunk_at(k).location[start + j2]);
            }
            assert(old_poses@.len() >= (if end + 1 <= m0.location.len() {
                end as int + 1
            } else {
                m0.location.len() as int
            }) - start) by {
                if m0.location.len() > 0 {
                    assert(0 < size) by {
                        if size == 0 {
                            assert(m0.location.len() == 0);
                        }
                    }
                    assert((size - 1) as int / 4096 == m0.location.len() - 1)
                        by (nonlinear_arith)
                        requires
                            0 < size <= u64::MAX,
                            m0.location.len() == pages_of_size(size),
                    ;
                    assert(cover_end as int == (if end as int <= (size - 1) as int / 4096 {
                        end as int
                    } else {
                        (size - 1) as int / 4096
                    })) by (nonlinear_arith)
                        requires
                            0 < size,
                            1 <= dlen,
                            offset + dlen <= u64::MAX,
                            cover_min == (if size < offset + dlen {
                                size as int
                            } else {
                                offset + dlen
                            }),
                            0 < cover_min,
                            cover_end as int == (cover_min - 1) / 4096,
                            end as int == (offset + dlen - 1) / 4096,
                    ;
                    if start <= cover_end {
                        assert(old_poses@.len() == cover_end + 1 - start);
                    }
                }
            }
        }
        let newp = match self.allocate_and_recycle_poses(&old_poses, total) {
            Ok(v) => v,
            Err(e) => {
                proof {
                    assert(e == EngineError::NoSpace);
                    assert(o.current_shard() == o.shards@[o.next_shard as int]);
                    assert(shard_free_pages(o.current_shard()) < total as int);
                    assert forall|k2: Seq<u8>| o.has_chunk(k2) implies self.chunk_at(k2)
                        == o.chunk_at(k2) && self.chunk_content(k2) == o.chunk_content(k2) by {
                        assert(self.rows()[k2] == o.rows()[k2]);
                        assert(self.chunk_content(k2) =~= o.chunk_content(k2));
                    }
                    assert forall|k2: Seq<u8>| self.has_chunk(k2) == o.has_chunk(k2) by {}
                    if o.csum_ok() {
                        assert forall|k2: Seq<u8>, p: int|
                            #![trigger self.chunk_at(k2).csum_data[p]]
                            self.has_chunk(k2) && 0 <= p < self.chunk_at(
                                k2,
                            ).location.len() implies self.chunk_at(k2).csum_data[p] == crc32_of(
                            self.dev().page_at(self.chunk_at(k2).location[p]),
                        ) by {
                            assert(o.has_chunk(k2));
                            assert(self.chunk_at(k2) == o.chunk_at(k2));
                            assert(o.chunk_at(k2).csum_data[p] == crc32_of(
                                o.dev().page_at(o.chunk_at(k2).location[p]),
                            ));
                        }
                        assert(self.csum_ok());
                    }
                }
                return Err(EngineError::NoSpace);
            },
        };
        let ghost mid = *self;
        proof {
            assert(mid.global().wf_shape());
            assert(o.has_chunk(k) && mid.rows()[k] == o.rows()[k]);
            assert(mid.db.wf());
            assert(mid.mad_engine.lists_wf());
            assert(mid.global().blobs == o.global().blobs);
            assert(mid.shards_wf());
            assert(mid.next_shard < NUM_THREAD);
            assert(mid.spec_magic_key() == magic_key_spec());
            assert(mid.dev() == o.dev());
            assert(mid.rows() == o.rows().insert(
                magic_key_spec(),
                mid.rows()[magic_key_spec()],
            ));
            assert(mid.rows().contains_key(magic_key_spec()));
            assert(dec_engine_spec(mid.rows()[magic_key_spec()]) == Some(mid.global()));
            assert(forall|pos: PagePos|
                valid_slot(o.global(), pos) ==> #[trigger] gbit(mid.global(), pos) == (
                newp@.contains(pos) || (gbit(o.global(), pos) && !old_poses@.contains(pos))));
            assert(old_poses@.len() <= end - start + 1) by {
                if size > 0 && start <= cover_end {
                    lemma_div_le(cover_min - 1, offset + dlen - 1);
                }
            }
            assert(old_poses@.len() == 0 || start + old_poses@.len() <= m0.location.len());
        }
        // stage and write each touched page
        let mut new_csums: Vec<u32> = Vec::new();
        let mut q: usize = 0;
        proof {
            assert(total <= dlen) by (nonlinear_arith)
                requires
                    total == end - start + 1,
                    start == offset / 4096,
                    end == (offset + dlen - 1) / 4096,
                    1 <= dlen,
                    offset + dlen <= u64::MAX,
            ;
        }
        while (q as u64) < total
            invariant
                old(self).wf(),
                o == *old(self),
                o.wf(),
                q as u64 <= total,
                new_csums@.len() == q,
                dlen == data@.len(),
                1 <= dlen,
                offset + dlen <= u64::MAX - PAGE_SIZE,
                k == key@,
                k != magic_key_spec(),
                o.has_chunk(k),
                m0 == o.chunk_at(k),
                meta@ == m0,
                o.chunk_wf(m0),
                size == m0.size,
                offset <= size,
                start == offset / PAGE_SIZE,
                end as int == (offset + dlen - 1) / 4096,
                start <= end,
                total == end - start + 1,
                total <= dlen,
                dlen <= usize::MAX,
                // allocator results
                newp@.len() == total,
                forall|j: int|
                    0 <= j < newp@.len() ==> valid_slot(o.global(), #[trigger] newp@[j]) && !gbit(
                        o.global(),
                        newp@[j],
                    ),
                forall|j1: int, j2: int|
                    #![trigger newp@[j1], newp@[j2]]
                    0 <= j1 < j2 < newp@.len() ==> newp@[j1] != newp@[j2],
                // unchanged engine parts
                self.db == mid.db,
                self.mad_engine == mid.mad_engine,
                self.shards == mid.shards,
                self.next_shard == mid.next_shard,
                self.magic_key == mid.magic_key,
                self.blob_engine.wf(),
                mid.dev() == o.dev(),
                self.dev().blob_count() == o.dev().blob_count(),
                forall|b: int|
                    0 <= b < o.dev().blob_count() ==> self.dev().page_count(b) == o.dev().page_count(
                        b,
                    ),
                // device pages written so far
                forall|pos: PagePos|
                    #![trigger self.dev().page_at(pos)]
                    o.dev().valid_pos(pos) && !among(newp@, q as int, pos) ==> self.dev().page_at(
                        pos,
                    ) == o.dev().page_at(pos),
                forall|j: int|
                    0 <= j < q ==> self.dev().page_at(#[trigger] newp@[j]) == o.staged(
                        k,
                        data@,
                        offset as int,
                        start + j,
                    ),
                forall|j: int|
                    0 <= j < q ==> new_csums@[j] == crc32_of(
                        o.staged(k, data@, offset as int, start + j),
                    ),
            decreases total - q,
        {
            let p = start + q as u64;
            let read_old = (p == start && offset % PAGE_SIZE != 0) || (p == end && offset + dlen
                < size);
            let mut buf: Vec<u8>;
            if read_old {
                proof {
                    assert(size > 0 && p as int <= (size - 1) as int / 4096) by (nonlinear_arith)
                        requires
                            (p == start && offset % 4096 != 0) || (p == end && offset + dlen
                                < size),
                            start == offset / 4096,
                            end as int == (offset + dlen - 1) / 4096,
                            offset <= size,
                            1 <= dlen,
                            offset + dlen <= u64::MAX,
                            size <= u64::MAX,
                    ;
                    assert((size - 1) as int / 4096 < pages_of_size(size)) by (nonlinear_arith)
                        requires
                            0 < size <= u64::MAX,
                    ;
                    assert(p < m0.location.len());
                    meta.lemma_view();
                }
                let loclen = meta.location.len();
                assert(p < loclen as u64);
                let pos_old = meta.location[p as usize];
                proof {
                    assert(pos_old == m0.location[p as int]);
                    assert(valid_slot(o.global(), pos_old) && gbit(o.global(), pos_old));
                    o.lemma_slot_on_device(pos_old);
                    assert(!among(newp@, q as int, pos_old)) by {
                        if among(newp@, q as int, pos_old) {
                            let j = choose|j: int| 0 <= j < q && newp@[j] == pos_old;
                            assert(!gbit(o.global(), newp@[j]));
                        }
                    }
                }
                proof {
                    assert(self.dev().page_at(pos_old) == o.dev().page_at(pos_old));
                }
                buf = Vec::new();
                let rr = self.blob_engine.read(pos_old.offset, pos_old.bid, &mut buf);
                proof {
                    assert(buf@ == o.dev().page_at(pos_old));
                    assert(buf@ == o.stage_base(k, data@, offset as int, p as int));
                }
            } else {
                buf = make_zero_page();
                proof {
                    assert(buf@ == o.stage_base(k, data@, offset as int, p as int));
                }
            }
            proof {
                assert(p * PAGE_SIZE + PAGE_SIZE <= u64::MAX) by (nonlinear_arith)
                    requires
                        p <= end,
                        end == (offset + dlen - 1) / 4096,
                        offset + dlen <= u64::MAX - 4096,
                        PAGE_SIZE == 4096,
                ;
            }
            let page = build_page(&buf, data, offset, p);
            let h = Hasher::new();
            let csum = h.checksum(page.as_slice());
            let np = newp[q];
            proof {
                assert(valid_slot(o.global(), np));
                o.lemma_slot_on_device(np);
                assert(self.dev().valid_pos(np)) by {
                    assert(o.dev().valid_pos(np));
                }
            }
            let ghost devpre = self.dev();
            let rw = self.blob_engine.write(np.offset, np.bid, &page);
            new_csums.push(csum);
            proof {
                assert(page@ == o.staged(k, data@, offset as int, p as int));
                assert(self.dev().page_at(np) == o.staged(k, data@, offset as int, p as int));
                assert forall|pos: PagePos|
                    #![trigger self.dev().page_at(pos)]
                    o.dev().valid_pos(pos) && !among(newp@, q + 1, pos) implies self.dev().page_at(
                    pos,
                ) == o.dev().page_at(pos) by {
                    assert(pos != np) by {
                        assert(newp@[q as int] == np);
                        if pos == np {
                            assert(among(newp@, q + 1, pos));
                        }
                    }
                    assert(!among(newp@, q as int, pos)) by {
                        if among(newp@, q as int, pos) {
                            let j = choose|j: int| 0 <= j < q && newp@[j] == pos;
                            assert(among(newp@, q + 1, pos));
                        }
                    }
                    assert(devpre.page_at(pos) == o.dev().page_at(pos));
                    assert(self.dev().page(pos.bid as int, pos.offset as int) == devpre.page(
                        pos.bid as int,
                        pos.offset as int,
                    ));
                }
                assert forall|j: int| 0 <= j < q + 1 implies self.dev().page_at(
                    #[trigger] newp@[j],
                ) == o.staged(k, data@, offset as int, start + j) by {
                    if j < q {
                        assert(newp@[j] != np);
                        assert(devpre.page_at(newp@[j]) == o.staged(
                            k,
                            data@,
                            offset as int,
                            start + j,
                        ));
                        assert(o.dev().valid_pos(newp@[j])) by {
                            o.lemma_slot_on_device(newp@[j]);
                        }
                        assert(self.dev().page(newp@[j].bid as int, newp@[j].offset as int)
                            == devpre.page(newp@[j].bid as int, newp@[j].offset as int));
                    }
                }
            }
            q = q + 1;
        }
        // merge the new positions and checksums into the metadata row
        let ghost loc_len0 = meta.location@.len() as int;
        let mut pi: u64 = start;
        let mut j2: usize = 0;
        while pi <= end
            invariant
                start <= pi <= end + 1,
                j2 == pi - start,
                end as int == (offset + dlen - 1) / 4096,
                offset + dlen <= u64::MAX - PAGE_SIZE,
                newp@.len() == total,
                new_csums@.len() == total,
                total == end - start + 1,
                loc_len0 == m0.location.len(),
                end - start + 1 <= dlen,
                dlen <= usize::MAX,
                meta.location@.len() == (if pi as int > loc_len0 {
                    pi as int
                } else {
                    loc_len0
                }),
                meta.csum_data@.len() == meta.location@.len(),
                meta.size == m0.size,
                meta.csum_type@ == m0.csum_type,
                forall|x: int|
                    0 <= x < start && x < meta.location@.len() ==> meta.location@[x]
                        == m0.location[x] && meta.csum_data@[x] == m0.csum_data[x],
                forall|x: int|
                    start <= x < pi ==> meta.location@[x] == newp@[x - start]
                        && meta.csum_data@[x] == new_csums@[x - start],
                forall|x: int|
                    pi <= x < loc_len0 ==> meta.location@[x] == m0.location[x]
                        && meta.csum_data@[x] == m0.csum_data[x],
            decreases end + 1 - pi,
        {
            let ll = meta.location.len();
            if pi < ll as u64 {
                meta.location[pi as usize] = newp[j2];
                meta.csum_data[pi as usize] = new_csums[j2];
            } else {
                assert(pi == ll as u64);
                meta.location.push(newp[j2]);
                meta.csum_data.push(new_csums[j2]);
            }
            pi = pi + 1;
            j2 = j2 + 1;
        }
        let new_size = if size < offset + dlen {
            offset + dlen
        } else {
            size
        };
        meta.size = new_size;
        meta.csum_type = String::from_str("CRC32");
        proof {
            meta.lemma_view();
            assert(meta@.location.len() == (if end + 1 > loc_len0 {
                end + 1
            } else {
                loc_len0
            }));
            assert(pages_of_size(new_size) == (if end + 1 > loc_len0 {
                end + 1
            } else {
                loc_len0
            })) by (nonlinear_arith)
                requires
                    loc_len0 == pages_of_size(size),
                    new_size == (if size < offset + dlen {
                        (offset + dlen) as int
                    } else {
                        size as int
                    }),
                    end as int == (offset + dlen - 1) / 4096,
                    start == offset / 4096,
                    offset <= size,
                    1 <= dlen,
                    offset + dlen <= u64::MAX - 4096,
                    size <= u64::MAX,
                    PAGE_SIZE == 4096,
            ;
            assert(meta@.wf_shape());
        }
        let row = encode_chunk(&meta);
        let ghost m_fin = meta@;
        let ghost pre_put = *self;
        self.db.put(key, row);
        proof {
            self.finish_write_proof(
                o,
                mid,
                pre_put,
                k,
                m0,
                m_fin,
                data@,
                offset,
                dlen,
                size,
                start,
                end,
                newp@,
                old_poses@,
                new_csums@,
            );
        }
        Ok(())
    }

    /// The whole-engine argument that one completed write leaves the
    /// invariant standing and changes exactly the written byte range.
    #[verifier::rlimit(100)]
    #[verifier::spinoff_prover]
    proof fn finish_write_proof(
        &self,
        o: FileEngine,
        mid: FileEngine,
        pre_put: FileEngine,
        k: Seq<u8>,
        m0: ChunkMetaV,
        m_fin: ChunkMetaV,
        data: Seq<u8>,
        offset: u64,
        dlen: u64,
        size: u64,
        start: u64,
        end: u64,
        newp: Seq<PagePos>,
        old_poses: Seq<PagePos>,
        new_csums: Seq<u32>,
    )
        requires
            o.wf(),
            k != magic_key_spec(),
            o.has_chunk(k),
            m0 == o.chunk_at(k),
            o.chunk_wf(m0),
            dlen == data.len(),
            1 <= dlen,
            offset + dlen <= u64::MAX - PAGE_SIZE,
            size == m0.size,
            offset <= size,
            start == offset / PAGE_SIZE,
            end as int == (offset + dlen - 1) / 4096,
            start <= end,
            // what the allocator established (mid is the post-allocation state)
            mid.db.wf(),
            mid.global().wf_shape(),
            mid.mad_engine.lists_wf(),
            mid.global().blobs == o.global().blobs,
            mid.shards_wf(),
            mid.next_shard < NUM_THREAD,
            mid.spec_magic_key() == magic_key_spec(),
            mid.dev() == o.dev(),
            mid.rows() == o.rows().insert(magic_key_spec(), mid.rows()[magic_key_spec()]),
            mid.rows().contains_key(magic_key_spec()),
            dec_engine_spec(mid.rows()[magic_key_spec()]) == Some(mid.global()),
            newp.len() == end - start + 1,
            forall|j: int|
                0 <= j < newp.len() ==> valid_slot(o.global(), #[trigger] newp[j]) && !gbit(
                    o.global(),
                    newp[j],
                ),
            forall|j1: int, j2: int|
                #![trigger newp[j1], newp[j2]]
                0 <= j1 < j2 < newp.len() ==> newp[j1] != newp[j2],
            forall|pos: PagePos|
                valid_slot(o.global(), pos) ==> #[trigger] gbit(mid.global(), pos) == (
                newp.contains(pos) || (gbit(o.global(), pos) && !old_poses.contains(pos))),
            old_poses.len() <= end - start + 1,
            old_poses.len() == 0 || start + old_poses.len() <= m0.location.len(),
            forall|j: int|
                0 <= j < old_poses.len() ==> #[trigger] old_poses[j] == m0.location[start + j],
            old_poses.len() >= (if end + 1 <= m0.location.len() {
                end + 1
            } else {
                m0.location.len() as int
            }) - start,
            // what the page loop established (pre_put is the pre-persist state)
            pre_put.db == mid.db,
            pre_put.mad_engine == mid.mad_engine,
            pre_put.shards == mid.shards,
            pre_put.next_shard == mid.next_shard,
            pre_put.magic_key == mid.magic_key,
            pre_put.blob_engine.wf(),
            pre_put.dev().blob_count() == o.dev().blob_count(),
            forall|b: int|
                0 <= b < o.dev().blob_count() ==> pre_put.dev().page_count(b)
                    == o.dev().page_count(b),
            forall|pos: PagePos|
                #![trigger pre_put.dev().page_at(pos)]
                o.dev().valid_pos(pos) && !among(newp, newp.len() as int, pos)
                    ==> pre_put.dev().page_at(pos) == o.dev().page_at(pos),
            forall|j: int|
                0 <= j < newp.len() ==> pre_put.dev().page_at(#[trigger] newp[j]) == o.staged(
                    k,
                    data,
                    offset as int,
                    start + j,
                ),
            new_csums.len() == newp.len(),
            forall|j: int|
                0 <= j < newp.len() ==> new_csums[j] == crc32_of(
                    o.staged(k, data, offset as int, start + j),
                ),
            // the updated metadata row
            m_fin.size as int == (if size < offset + dlen {
                offset + dlen
            } else {
                size as int
            }),
            m_fin.csum_type == "CRC32"@,
            m_fin.wf_shape(),
            m_fin.location.len() == (if end + 1 > m0.location.len() {
                end + 1
            } else {
                m0.location.len() as int
            }),
            m_fin.csum_data.len() == m_fin.location.len(),
            forall|x: int|
                0 <= x < start && x < m_fin.location.len() ==> #[trigger] m_fin.location[x]
                    == m0.location[x] && m_fin.csum_data[x] == m0.csum_data[x],
            forall|x: int|
                start <= x <= end ==> #[trigger] m_fin.location[x] == newp[x - start]
                    && m_fin.csum_data[x] == new_csums[x - start],
            forall|x: int|
                end < x < m0.location.len() ==> #[trigger] m_fin.location[x] == m0.location[x]
                    && m_fin.csum_data[x] == m0.csum_data[x],
            // the final state is pre_put with the chunk row replaced
            self.db.wf(),
            self.rows() == pre_put.rows().insert(k, self.rows()[k]),
            dec_chunk_spec(self.rows()[k]) == Some(m_fin),
            self.blob_engine == pre_put.blob_engine,
            self.mad_engine == pre_put.mad_engine,
            self.shards == pre_put.shards,
            self.next_shard == pre_put.next_shard,
            self.magic_key == pre_put.magic_key,
        ensures
            self.wf(),
            o.csum_ok() ==> self.csum_ok(),
            forall|k2: Seq<u8>| self.has_chunk(k2) == o.has_chunk(k2),
            self.chunk_at(k).size as int == (if size as int >= offset + dlen {
                size as int
            } else {
                offset + dlen
            }),
            self.chunk_at(k).csum_type == "CRC32"@,
            self.chunk_content(k) == overwrite(o.chunk_content(k), offset as int, data),
            forall|k2: Seq<u8>|
                k2 != k && o.has_chunk(k2) ==> self.chunk_at(k2) == o.chunk_at(k2)
                    && self.chunk_content(k2) == o.chunk_content(k2),
            forall|p: int|
                0 <= p < m0.location.len() && !(start <= p <= end) ==> #[trigger] self.chunk_at(
                    k,
                ).location[p] == m0.location[p] && self.chunk_at(k).csum_data[p]
                    == m0.csum_data[p],
            forall|p: int|
                start <= p <= end ==> valid_slot(
                    o.global(),
                    #[trigger] self.chunk_at(k).location[p],
                ) && !gbit(o.global(), self.chunk_at(k).location[p]) && gbit(
                    self.global(),
                    self.chunk_at(k).location[p],
                ),
            forall|p1: int, p2: int|
                #![trigger self.chunk_at(k).location[p1], self.chunk_at(k).location[p2]]
                start <= p1 < p2 <= end ==> self.chunk_at(k).location[p1] != self.chunk_at(
                    k,
                ).location[p2],
            forall|pos: PagePos|
                #![trigger self.dev().page_at(pos)]
                valid_slot(o.global(), pos) && gbit(o.global(), pos) ==> self.dev().page_at(pos)
                    == o.dev().page_at(pos),
            forall|p: int|
                start <= p <= end && p < m0.location.len() ==> !gbit(
                    self.global(),
                    #[trigger] m0.location[p],
                ),
            dec_engine_spec(self.rows()[magic_key_spec()]) == Some(self.global()),
            forall|k2: Seq<u8>|
                k2 != k && k2 != magic_key_spec() ==> (self.rows().contains_key(k2)
                    == o.rows().contains_key(k2) && (o.rows().contains_key(k2)
                    ==> self.rows()[k2] == o.rows()[k2])),
    {
        let g = self.global();
        let g0 = o.global();
        assert(self.global() == mid.global());
        assert(self.dev() == pre_put.dev());
        assert(self.chunk_at(k) == m_fin);
        // every key other than k keeps its row
        assert forall|k2: Seq<u8>| self.has_chunk(k2) == o.has_chunk(k2) by {
            if k2 != k {
                if k2 != magic_key_spec() {
                    assert(self.rows().contains_key(k2) == mid.rows().contains_key(k2));
                }
            }
        }
        // positions of other chunks are live in o and never touched
        assert forall|k2: Seq<u8>, p: int|
            k2 != k && o.has_chunk(k2) && 0 <= p < o.chunk_at(k2).location.len() implies !(
        #[trigger] old_poses.contains(o.chunk_at(k2).location[p])) && !newp.contains(
            o.chunk_at(k2).location[p],
        ) && gbit(g, o.chunk_at(k2).location[p]) && o.dev().valid_pos(
            o.chunk_at(k2).location[p],
        ) && self.dev().page_at(o.chunk_at(k2).location[p]) == o.dev().page_at(
            o.chunk_at(k2).location[p],
        ) by {
            let pos2 = o.chunk_at(k2).location[p];
            assert(valid_slot(g0, pos2) && gbit(g0, pos2));
            o.lemma_slot_on_device(pos2);
            assert(!old_poses.contains(pos2)) by {
                if old_poses.contains(pos2) {
                    let w = choose|w: int| 0 <= w < old_poses.len() && old_poses[w] == pos2;
                    assert(old_poses[w] == m0.location[start + w]);
                    assert(o.chunk_at(k).location[start + w] != o.chunk_at(k2).location[p]);
                }
            }
            assert(!newp.contains(pos2)) by {
                if newp.contains(pos2) {
                    let w = choose|w: int| 0 <= w < newp.len() && newp[w] == pos2;
                    assert(!gbit(g0, newp[w]));
                }
            }
            assert(!among(newp, newp.len() as int, pos2)) by {
                if among(newp, newp.len() as int, pos2) {
                    let w = choose|w: int| 0 <= w < newp.len() && newp[w] == pos2;
                    assert(newp.contains(pos2)) by {
                        assert(newp[w] == pos2);
                    }
                }
            }
        }
        // other chunks keep their metadata and bytes
        assert forall|k2: Seq<u8>|
            k2 != k && o.has_chunk(k2) implies self.chunk_at(k2) == o.chunk_at(k2)
            && self.chunk_content(k2) == o.chunk_content(k2) by {
            assert(self.rows()[k2] == o.rows()[k2]);
            assert forall|i: int| 0 <= i < o.chunk_at(k2).size implies self.chunk_content(k2)[i]
                == o.chunk_content(k2)[i] by {
                lemma_page_of_index(i);
                let pp = i / 4096;
                assert(0 <= pp < o.chunk_at(k2).location.len()) by {
                    assert(o.chunk_wf(o.chunk_at(k2)));
                    assert((o.chunk_at(k2).size - 1) as int / 4096 < pages_of_size(
                        o.chunk_at(k2).size,
                    )) by (nonlinear_arith)
                        requires
                            0 < o.chunk_at(k2).size <= u64::MAX,
                    ;
                    lemma_div_le(i, o.chunk_at(k2).size - 1);
                }
            }
            assert(self.chunk_content(k2) =~= o.chunk_content(k2));
        }
        // the new positions of chunk k sit on the device
        assert forall|x: int| 0 <= x < m_fin.location.len() implies valid_slot(
            g0,
            #[trigger] m_fin.location[x],
        ) && gbit(g, m_fin.location[x]) && o.dev().valid_pos(m_fin.location[x]) by {
            if start <= x <= end {
                assert(m_fin.location[x] == newp[x - start]);
                assert(valid_slot(g0, newp[x - start]));
                assert(gbit(g, newp[x - start])) by {
                    assert(newp.contains(newp[x - start]));
                }
                o.lemma_slot_on_device(newp[x - start]);
            } else {
                assert(m_fin.location[x] == m0.location[x]);
                assert(valid_slot(g0, m0.location[x]) && gbit(g0, m0.location[x]));
                assert(!old_poses.contains(m0.location[x])) by {
                    if old_poses.contains(m0.location[x]) {
                        let w = choose|w: int|
                            0 <= w < old_poses.len() && old_poses[w] == m0.location[x];
                        assert(old_poses[w] == m0.location[start + w]);
                        assert(start <= start + w <= end);
                        assert(o.chunk_at(k).location[start + w] != o.chunk_at(k).location[x]);
                    }
                }
                assert(gbit(g, m0.location[x])) by {
                    if newp.contains(m0.location[x]) {
                    }
                }
                o.lemma_slot_on_device(m0.location[x]);
            }
        }
        // the invariant stands again
        assert forall|k2: Seq<u8>| #[trigger]
            self.has_chunk(k2) implies dec_chunk_spec(self.rows()[k2]) is Some && self.chunk_wf(
            self.chunk_at(k2),
        ) by {
            if k2 == k {
                assert(self.chunk_at(k) == m_fin);
            } else {
                assert(o.has_chunk(k2));
                assert(self.chunk_at(k2) == o.chunk_at(k2));
                assert(o.chunk_wf(o.chunk_at(k2)));
                assert forall|p: int|
                    0 <= p < self.chunk_at(k2).location.len() implies valid_slot(
                    g,
                    #[trigger] self.chunk_at(k2).location[p],
                ) && gbit(g, self.chunk_at(k2).location[p]) by {
                    assert(valid_slot(g0, o.chunk_at(k2).location[p]));
                }
            }
        }
        assert forall|k1: Seq<u8>, p1: int, k2: Seq<u8>, p2: int|
            #![trigger self.chunk_at(k1).location[p1], self.chunk_at(k2).location[p2]]
            self.has_chunk(k1) && self.has_chunk(k2) && 0 <= p1 < self.chunk_at(
                k1,
            ).location.len() && 0 <= p2 < self.chunk_at(k2).location.len() && (k1 != k2 || p1
                != p2) implies self.chunk_at(k1).location[p1] != self.chunk_at(k2).location[p2] by {
            let q1 = self.chunk_at(k1).location[p1];
            let q2 = self.chunk_at(k2).location[p2];
            if k1 == k && k2 == k {
                if start <= p1 <= end && start <= p2 <= end {
                    assert(q1 == newp[p1 - start] && q2 == newp[p2 - start]);
                } else if start <= p1 <= end {
                    assert(!gbit(g0, newp[p1 - start]) && gbit(g0, m0.location[p2]));
                } else if start <= p2 <= end {
                    assert(gbit(g0, m0.location[p1]) && !gbit(g0, newp[p2 - start]));
                } else {
                    assert(q1 == o.chunk_at(k).location[p1] && q2 == o.chunk_at(k).location[p2]);
                }
            } else if k1 == k {
                assert(gbit(g0, o.chunk_at(k2).location[p2]));
                if start <= p1 <= end {
                    assert(!gbit(g0, newp[p1 - start]));
                } else {
                    assert(q1 == o.chunk_at(k).location[p1]);
                    assert(o.chunk_at(k).location[p1] != o.chunk_at(k2).location[p2]);
                }
            } else if k2 == k {
                assert(gbit(g0, o.chunk_at(k1).location[p1]));
                if start <= p2 <= end {
                    assert(!gbit(g0, newp[p2 - start]));
                } else {
                    assert(q2 == o.chunk_at(k).location[p2]);
                    assert(o.chunk_at(k1).location[p1] != o.chunk_at(k).location[p2]);
                }
            } else {
                assert(q1 == o.chunk_at(k1).location[p1] && q2 == o.chunk_at(k2).location[p2]);
            }
        }
        assert(self.wf());
        // byte-for-byte content of the written chunk
        assert forall|i: int| 0 <= i < m_fin.size implies self.chunk_content(k)[i] == overwrite(
            o.chunk_content(k),
            offset as int,
            data,
        )[i] by {
            lemma_page_of_index(i);
            let pp = i / 4096;
            let b = i % 4096;
            assert(0 <= pp < m_fin.location.len()) by {
                assert((m_fin.size - 1) as int / 4096 < pages_of_size(m_fin.size))
                    by (nonlinear_arith)
                    requires
                        0 < m_fin.size <= u64::MAX,
                ;
                lemma_div_le(i, m_fin.size - 1);
            }
            if offset <= i < offset + dlen {
                assert(start <= pp <= end) by {
                    lemma_div_le(offset as int, i);
                    lemma_div_le(i, offset + dlen - 1);
                }
                assert(m_fin.location[pp] == newp[pp - start]);
                assert(self.dev().page_at(newp[pp - start]) == o.staged(
                    k,
                    data,
                    offset as int,
                    pp,
                ));
                assert(self.chunk_content(k)[i] == o.staged(k, data, offset as int, pp)[b]);
                assert(o.staged(k, data, offset as int, pp)[b] == data[i - offset]);
            } else if i < offset {
                assert(pp <= start) by {
                    lemma_div_le(i, offset as int);
                }
                if pp == start {
                    lemma_same_page_off(i, offset as int);
                    assert(m_fin.location[pp] == newp[0]);
                    assert(self.dev().page_at(newp[0]) == o.staged(k, data, offset as int, pp));
                    assert(o.staged(k, data, offset as int, pp)[b] == o.stage_base(
                        k,
                        data,
                        offset as int,
                        pp,
                    )[b]);
                    assert(o.stage_base(k, data, offset as int, pp) == o.dev().page_at(
                        m0.location[pp],
                    ));
                    assert(self.chunk_content(k)[i] == o.dev().page_at(m0.location[pp])[b]);
                    assert(o.chunk_content(k)[i] == o.dev().page_at(m0.location[pp])[b]);
                } else {
                    assert(pp < start);
                    assert(m_fin.location[pp] == m0.location[pp]) by {
                        assert(pp < m0.location.len()) by {
                            assert(i < size);
                            assert((size - 1) as int / 4096 < pages_of_size(size))
                                by (nonlinear_arith)
                                requires
                                    0 < size <= u64::MAX,
                            ;
                            lemma_div_le(i, size - 1);
                        }
                    }
                    assert(!newp.contains(m0.location[pp])) by {
                        if newp.contains(m0.location[pp]) {
                            let w = choose|w: int| 0 <= w < newp.len() && newp[w] == m0.location[pp];
                            assert(!gbit(g0, newp[w]));
                            assert(gbit(g0, m0.location[pp]));
                        }
                    }
                    assert(!among(newp, newp.len() as int, m0.location[pp])) by {
                        if among(newp, newp.len() as int, m0.location[pp]) {
                            let w = choose|w: int| 0 <= w < newp.len() && newp[w] == m0.location[pp];
                            assert(newp[w] == m0.location[pp]);
                            assert(newp.contains(m0.location[pp]));
                        }
                    }
                    assert(o.dev().valid_pos(m0.location[pp])) by {
                        o.lemma_slot_on_device(m0.location[pp]);
                    }
                    assert(self.dev().page_at(m0.location[pp]) == o.dev().page_at(
                        m0.location[pp],
                    ));
                    assert(self.chunk_content(k)[i] == o.chunk_content(k)[i]);
                }
            } else {
                // i >= offset + dlen, so the write did not extend this far
                assert(i < size);
                assert(pp < m0.location.len()) by {
                    assert((size - 1) as int / 4096 < pages_of_size(size)) by (nonlinear_arith)
                        requires
                            0 < size <= u64::MAX,
                    ;
                    lemma_div_le(i, size - 1);
                }
                assert(end <= pp) by {
                    lemma_div_le(offset + dlen - 1, i);
                }
                if pp == end {
                    assert(offset + dlen < size) by {
                        assert(i >= offset + dlen && i < size);
                    }
                    assert(m_fin.location[pp] == newp[pp - start]);
                    assert(self.dev().page_at(newp[pp - start]) == o.staged(
                        k,
                        data,
                        offset as int,
                        pp,
                    ));
                    assert(o.staged(k, data, offset as int, pp)[b] == o.stage_base(
                        k,
                        data,
                        offset as int,
                        pp,
                    )[b]);
                    assert(o.stage_base(k, data, offset as int, pp) == o.dev().page_at(
                        m0.location[pp],
                    ));
                    assert(self.chunk_content(k)[i] == o.dev().page_at(m0.location[pp])[b]);
                    assert(o.chunk_content(k)[i] == o.dev().page_at(m0.location[pp])[b]);
                } else {
                    assert(pp > end);
                    assert(m_fin.location[pp] == m0.location[pp]);
                    assert(!newp.contains(m0.location[pp])) by {
                        if newp.contains(m0.location[pp]) {
                            let w = choose|w: int| 0 <= w < newp.len() && newp[w] == m0.location[pp];
                            assert(!gbit(g0, newp[w]));
                            assert(gbit(g0, m0.location[pp]));
                        }
                    }
                    assert(!among(newp, newp.len() as int, m0.location[pp])) by {
                        if among(newp, newp.len() as int, m0.location[pp]) {
                            let w = choose|w: int| 0 <= w < newp.len() && newp[w] == m0.location[pp];
                            assert(newp[w] == m0.location[pp]);
                            assert(newp.contains(m0.location[pp]));
                        }
                    }
                    assert(o.dev().valid_pos(m0.location[pp])) by {
                        o.lemma_slot_on_device(m0.location[pp]);
                    }
                    assert(self.dev().page_at(m0.location[pp]) == o.dev().page_at(
                        m0.location[pp],
                    ));
                    assert(self.chunk_content(k)[i] == o.chunk_content(k)[i]);
                }
            }
        }
        assert(self.chunk_content(k) =~= overwrite(o.chunk_content(k), offset as int, data));
        // checksums still match the pages on the device
        // the allocation effects stated publicly
        assert forall|p: int|
            0 <= p < m0.location.len() && !(start <= p <= end) implies #[trigger] self.chunk_at(
            k,
        ).location[p] == m0.location[p] && self.chunk_at(k).csum_data[p] == m0.csum_data[p] by {
            assert(m_fin.location.len() >= m0.location.len());
            if p < start {
                assert(0 <= p < start && p < m_fin.location.len());
                assert(m_fin.location[p] == m0.location[p]);
                assert(m_fin.csum_data[p] == m0.csum_data[p]);
            } else {
                assert(end < p < m0.location.len());
                assert(m_fin.location[p] == m0.location[p]);
                assert(m_fin.csum_data[p] == m0.csum_data[p]);
            }
            assert(self.chunk_at(k) == m_fin);
        }
        assert forall|p: int| start <= p <= end implies valid_slot(
            o.global(),
            #[trigger] self.chunk_at(k).location[p],
        ) && !gbit(o.global(), self.chunk_at(k).location[p]) && gbit(
            self.global(),
            self.chunk_at(k).location[p],
        ) by {
            assert(m_fin.location[p] == newp[p - start]);
            assert(valid_slot(o.global(), newp[p - start]) && !gbit(
                o.global(),
                newp[p - start],
            ));
            assert(gbit(self.global(), newp[p - start])) by {
                assert(newp.contains(newp[p - start]));
            }
        }
        assert forall|p1: int, p2: int|
            #![trigger self.chunk_at(k).location[p1], self.chunk_at(k).location[p2]]
            start <= p1 < p2 <= end implies self.chunk_at(k).location[p1] != self.chunk_at(
            k,
        ).location[p2] by {
            assert(m_fin.location[p1] == newp[p1 - start]);
            assert(m_fin.location[p2] == newp[p2 - start]);
        }
        assert forall|pos: PagePos|
            #![trigger self.dev().page_at(pos)]
            valid_slot(o.global(), pos) && gbit(o.global(), pos) implies self.dev().page_at(pos)
            == o.dev().page_at(pos) by {
            o.lemma_slot_on_device(pos);
            assert(!among(newp, newp.len() as int, pos)) by {
                if among(newp, newp.len() as int, pos) {
                    let w = choose|w: int| 0 <= w < newp.len() && newp[w] == pos;
                    assert(!gbit(o.global(), newp[w]));
                }
            }
            assert(pre_put.dev().page_at(pos) == o.dev().page_at(pos));
        }
        assert forall|p: int|
            start <= p <= end && p < m0.location.len() implies !gbit(
            self.global(),
            #[trigger] m0.location[p],
        ) by {
            let j = p - start;
            assert(p + 1 <= (if end + 1 <= m0.location.len() {
                end as int + 1
            } else {
                m0.location.len() as int
            }));
            assert(j < old_poses.len());
            assert(old_poses[j] == m0.location[p]);
            assert(old_poses.contains(m0.location[p])) by {
                assert(old_poses[j] == m0.location[p]);
            }
            assert(valid_slot(o.global(), m0.location[p]) && gbit(o.global(), m0.location[p]));
            assert(!newp.contains(m0.location[p])) by {
                if newp.contains(m0.location[p]) {
                    let w = choose|w: int| 0 <= w < newp.len() && newp[w] == m0.location[p];
                    assert(!gbit(o.global(), newp[w]));
                }
            }
        }
        assert(self.rows()[magic_key_spec()] == mid.rows()[magic_key_spec()]);
        assert(dec_engine_spec(self.rows()[magic_key_spec()]) == Some(self.global()));
        assert forall|k2: Seq<u8>|
            k2 != k && k2 != magic_key_spec() implies (self.rows().contains_key(k2)
            == o.rows().contains_key(k2) && (o.rows().contains_key(k2) ==> self.rows()[k2]
            == o.rows()[k2])) by {
            assert(self.rows().contains_key(k2) == pre_put.rows().contains_key(k2));
            assert(pre_put.rows().contains_key(k2) == o.rows().contains_key(k2));
            if o.rows().contains_key(k2) {
                assert(self.rows()[k2] == pre_put.rows()[k2]);
                assert(pre_put.rows()[k2] == o.rows()[k2]);
            }
        }
        if o.csum_ok() {
            assert forall|k2: Seq<u8>, p: int|
                #![trigger self.chunk_at(k2).csum_data[p]]
                self.has_chunk(k2) && 0 <= p < self.chunk_at(k2).location.len() implies
                self.chunk_at(k2).csum_data[p] == crc32_of(
                self.dev().page_at(self.chunk_at(k2).location[p]),
            ) by {
                if k2 == k {
                    if start <= p <= end {
                        assert(m_fin.location[p] == newp[p - start]);
                        assert(m_fin.csum_data[p] == new_csums[p - start]);
                        assert(self.dev().page_at(newp[p - start]) == o.staged(
                            k,
                            data,
                            offset as int,
                            p,
                        ));
                    } else {
                        assert(m_fin.location[p] == m0.location[p]);
                        assert(m_fin.csum_data[p] == m0.csum_data[p]);
                        assert(p < m0.location.len());
                        assert(o.chunk_at(k).csum_data[p] == crc32_of(
                            o.dev().page_at(o.chunk_at(k).location[p]),
                        ));
                        assert(!among(newp, newp.len() as int, m0.location[p])) by {
                            if among(newp, newp.len() as int, m0.location[p]) {
                                let w = choose|w: int|
                                    0 <= w < newp.len() && newp[w] == m0.location[p];
                                assert(!gbit(g0, newp[w]));
                                assert(gbit(g0, m0.location[p]));
                            }
                        }
                        assert(o.dev().valid_pos(m0.location[p])) by {
                            o.lemma_slot_on_device(m0.location[p]);
                        }
                        assert(self.dev().page_at(m0.location[p]) == o.dev().page_at(
                            m0.location[p],
                        ));
                    }
                } else {
                    assert(o.has_chunk(k2));
                    assert(self.chunk_at(k2) == o.chunk_at(k2));
                    assert(o.chunk_at(k2).csum_data[p] == crc32_of(
                        o.dev().page_at(o.chunk_at(k2).location[p]),
                    ));
                }
            }
            assert(self.csum_ok());
        }
    }



    /// An operation that left the rows, the global metadata and the device
    /// unchanged leaves the invariant and the checksum property standing.
    proof fn lemma_same_state_wf(&self, o: FileEngine)
        requires
            o.wf(),
            self.db == o.db,
            self.blob_engine.wf(),
            self.dev() == o.dev(),
            self.mad_engine == o.mad_engine,
            self.shards == o.shards,
            self.next_shard == o.next_shard,
            self.magic_key == o.magic_key,
        ensures
            self.wf(),
            o.csum_ok() ==> self.csum_ok(),
            forall|k2: Seq<u8>| self.has_chunk(k2) == o.has_chunk(k2),
    {
        assert forall|k2: Seq<u8>| #[trigger]
            self.has_chunk(k2) implies dec_chunk_spec(self.rows()[k2]) is Some && self.chunk_wf(
            self.chunk_at(k2),
        ) by {
            assert(o.has_chunk(k2));
            assert(o.chunk_wf(o.chunk_at(k2)));
        }
        assert forall|k1: Seq<u8>, p1: int, k2: Seq<u8>, p2: int|
            #![trigger self.chunk_at(k1).location[p1], self.chunk_at(k2).location[p2]]
            self.has_chunk(k1) && self.has_chunk(k2) && 0 <= p1 < self.chunk_at(
                k1,
            ).location.len() && 0 <= p2 < self.chunk_at(k2).location.len() && (k1 != k2 || p1
                != p2) implies self.chunk_at(k1).location[p1] != self.chunk_at(k2).location[p2] by {
            assert(o.chunk_at(k1).location[p1] != o.chunk_at(k2).location[p2]);
        }
        assert forall|s1: int, t1: int, s2: int, t2: int, i: int|
            #![trigger self.shards@[s1].tfree_list@[t1]@[i], self.shards@[s2].tfree_list@[t2]@[i]]
            0 <= s1 < self.shards@.len() && 0 <= t1 < self.shards@[s1].tblobs@.len() && 0 <= s2
                < self.shards@.len() && 0 <= t2 < self.shards@[s2].tblobs@.len() && (s1 != s2 || t1
                != t2) && self.shards@[s1].tblobs@[t1] == self.shards@[s2].tblobs@[t2] && 0 <= i
                < BLOB_PAGES implies (self.shards@[s1].tfree_list@[t1]@[i]
                || self.shards@[s2].tfree_list@[t2]@[i]) by {
            assert(o.shards@[s1].tfree_list@[t1]@[i] || o.shards@[s2].tfree_list@[t2]@[i]);
        }
        assert(self.shards_wf());
        assert(self.wf());
        if o.csum_ok() {
            assert forall|k2: Seq<u8>, p: int|
                #![trigger self.chunk_at(k2).csum_data[p]]
                self.has_chunk(k2) && 0 <= p < self.chunk_at(k2).location.len() implies
                self.chunk_at(k2).csum_data[p] == crc32_of(
                self.dev().page_at(self.chunk_at(k2).location[p]),
            ) by {
                assert(o.has_chunk(k2));
                assert(o.chunk_at(k2).csum_data[p] == crc32_of(
                    o.dev().page_at(o.chunk_at(k2).location[p]),
                ));
            }
            assert(self.csum_ok());
        }
    }

    /// Read `buf.len()` bytes at byte `offset` of the named chunk into
    /// `buf`, verifying each touched page against its stored checksum.
    pub fn read(&mut self, name: String, offset: u64, buf: &mut Vec<u8>) -> (r: Result<
        (),
        EngineError,
    >)
        requires
            old(self).wf(),
            1 <= old(buf)@.len(),
            offset + old(buf)@.len() <= u64::MAX - PAGE_SIZE,
        ensures
            final(self).wf(),
            final(self).rows() == old(self).rows(),
            final(self).dev() == old(self).dev(),
            final(self).global() == old(self).global(),
            old(self).csum_ok() ==> final(self).csum_ok(),
            forall|k2: Seq<u8>| final(self).has_chunk(k2) == old(self).has_chunk(k2),
            ({
                let k = name_key_spec(name@);
                let len = old(buf)@.len() as int;
                match r {
                    Ok(u) => {
                        &&& old(self).has_chunk(k)
                        &&& offset < old(self).chunk_at(k).size
                        &&& offset + len <= old(self).chunk_at(k).size
                        &&& final(buf)@ == old(self).chunk_content(k).subrange(
                            offset as int,
                            offset + len,
                        )
                        &&& forall|p: int|
                            offset as int / 4096 <= p <= (offset + len - 1) / 4096 ==> old(
                                self,
                            ).chunk_at(k).csum_data[p] == crc32_of(
                                old(self).dev().page_at(#[trigger] old(self).chunk_at(
                                    k,
                                ).location[p]),
                            )
                    },
                    Err(e) => {
                        &&& *final(buf) == *old(buf)
                        &&& (e == EngineError::MetaNotExist <==> !old(self).has_chunk(k))
                        &&& (e == EngineError::ReadOutRange <==> (old(self).has_chunk(k) && (
                        offset >= old(self).chunk_at(k).size || offset + len > old(self).chunk_at(k).size)))
                        &&& (e == EngineError::CheckSumErr <==> (old(self).has_chunk(k) && offset
                            < old(self).chunk_at(k).size && offset + len <= old(self).chunk_at(
                            k,
                        ).size && exists|p: int|
                            offset as int / 4096 <= p <= (offset + len - 1) / 4096 && old(
                                self,
                            ).chunk_at(k).csum_data[p] != crc32_of(
                                old(self).dev().page_at(#[trigger] old(self).chunk_at(
                                    k,
                                ).location[p]),
                            )))
                        &&& (e == EngineError::MetaNotExist || e == EngineError::ReadOutRange
                            || e == EngineError::CheckSumErr)
                    },
                }
            }),
    {
        let ghost o = *old(self);
        let len = buf.len() as u64;
        let key = name_key(name.as_str());
        if key == self.magic_key {
            assert(key@ == self.spec_magic_key());
            assert(key@ == magic_key_spec());
            return Err(EngineError::MetaNotExist);
        }
        assert(key@ != magic_key_spec());
        let ghost k = key@;
        let row0 = match self.db.get(&key) {
            None => {
                return Err(EngineError::MetaNotExist);
            },
            Some(b) => b,
        };
        let meta = match decode_chunk(&row0) {
            Some(m) => m,
            None => {
                proof {
                    assert(self.has_chunk(k));
                    assert(false);
                }
                return Err(EngineError::MetaNotExist);
            },
        };
        proof {
            meta.lemma_view();
            assert(o.has_chunk(k));
            assert(o.chunk_at(k) == meta@);
            assert(o.chunk_wf(meta@));
        }
        let ghost m0 = o.chunk_at(k);
        let size = meta.get_size();
        if offset >= size || offset + len > size {
            return Err(EngineError::ReadOutRange);
        }
        let start = offset / PAGE_SIZE;
        let end = (offset + len - 1) / PAGE_SIZE;
        proof {
            assert(start <= end && end as int <= (size - 1) as int / 4096) by (nonlinear_arith)
                requires
                    start == offset / 4096,
                    end as int == (offset + len - 1) / 4096,
                    1 <= len,
                    offset + len <= size,
                    size <= u64::MAX,
            ;
            assert((size - 1) as int / 4096 < pages_of_size(size)) by (nonlinear_arith)
                requires
                    0 < size <= u64::MAX,
            ;
        }
        let mut out: Vec<u8> = Vec::new();
        let mut q: u64 = 0;
        let total = end - start + 1;
        while q < total
            invariant
                o.wf(),
                o == *old(self),
                self.db == o.db,
                self.mad_engine == o.mad_engine,
                self.shards == o.shards,
                self.next_shard == o.next_shard,
                self.magic_key == o.magic_key,
                self.blob_engine.wf(),
                self.dev() == o.dev(),
                q <= total,
                total == end - start + 1,
                1 <= len,
                len == old(buf)@.len(),
                offset + len <= u64::MAX - PAGE_SIZE,
                offset + len <= size,
                offset < size,
                size == m0.size,
                k == key@,
                k == name_key_spec(name@),
                k != magic_key_spec(),
                o.has_chunk(k),
                m0 == o.chunk_at(k),
                meta@ == m0,
                o.chunk_wf(m0),
                start == offset / PAGE_SIZE,
                end as int == (offset + len - 1) / 4096,
                end as int <= (size - 1) as int / 4096,
                (size - 1) as int / 4096 < m0.location.len(),
                out@.len() == (if q == 0 {
                    0int
                } else {
                    (if (start + q) * 4096 < offset + len {
                        (start + q) * 4096
                    } else {
                        (offset + len) as int
                    }) - offset
                }),
                forall|x: int|
                    0 <= x < out@.len() ==> out@[x] == o.chunk_content(k)[offset + x],
                forall|x: int|
                    start <= x < start + q ==> m0.csum_data[x] == crc32_of(
                        o.dev().page_at(#[trigger] m0.location[x]),
                    ),
                *buf == *old(buf),
            decreases total - q,
        {
            let p = start + q;
            proof {
                assert(p as int <= (size - 1) as int / 4096);
                meta.lemma_view();
            }
            let loclen = meta.location.len();
            assert(p < loclen as u64);
            let pos = meta.location[p as usize];
            proof {
                assert(pos == m0.location[p as int]);
                assert(valid_slot(o.global(), pos));
                o.lemma_slot_on_device(pos);
            }
            let mut page: Vec<u8> = Vec::new();
            let rr = self.blob_engine.read(pos.offset, pos.bid, &mut page);
            proof {
                assert(page@ == o.dev().page_at(pos));
            }
            let h = Hasher::new();
            let c = h.checksum(page.as_slice());
            let stored = meta.csum_data[p as usize];
            if c != stored {
                proof {
                    assert(stored == m0.csum_data[p as int]);
                    assert(m0.csum_data[p as int] != crc32_of(
                        o.dev().page_at(m0.location[p as int]),
                    ));
                    assert(start <= p as int <= (offset + len - 1) / 4096);
                    self.lemma_same_state_wf(o);
                }
                return Err(EngineError::CheckSumErr);
            }
            proof {
                assert(m0.csum_data[p as int] == crc32_of(o.dev().page_at(m0.location[p as int])));
            }
            // copy this page's slice of the requested range
            let page_lo = p * PAGE_SIZE;
            proof {
                assert(p * 4096 + 4096 <= u64::MAX && (p * 4096) as int == (p as int) * 4096)
                    by (nonlinear_arith)
                    requires
                        p == start + q,
                        q < total,
                        total == end - start + 1,
                        end as int == (offset + len - 1) / 4096,
                        1 <= len,
                        offset + len <= u64::MAX - 4096,
                ;
            }
            let lo = if page_lo < offset {
                offset
            } else {
                page_lo
            };
            let page_hi = page_lo + PAGE_SIZE;
            let hi = if page_hi < offset + len {
                page_hi
            } else {
                offset + len
            };
            proof {
                assert(lo < hi && lo as int == out@.len() + offset && hi <= offset + len && page_lo
                    <= lo && hi <= page_hi) by (nonlinear_arith)
                    requires
                        page_lo as int == (p as int) * 4096,
                        page_hi == page_lo + 4096,
                        p == start + q,
                        q < total,
                        total == end - start + 1,
                        start == offset / 4096,
                        end as int == (offset + len - 1) / 4096,
                        1 <= len,
                        offset + len <= u64::MAX,
                        lo == (if page_lo < offset {
                            offset
                        } else {
                            page_lo
                        }),
                        hi == (if page_hi < offset + len {
                            page_hi
                        } else {
                            (offset + len) as u64
                        }),
                        out@.len() == (if q == 0 {
                            0int
                        } else {
                            (if (start + q) * 4096 < offset + len {
                                ((start + q) * 4096) as int
                            } else {
                                (offset + len) as int
                            }) - offset
                        }),
                ;
            }
            let mut a = lo;
            while a < hi
                invariant
                    lo <= a <= hi,
                    page_lo <= lo,
                    hi <= page_hi,
                    page_hi == page_lo + PAGE_SIZE,
                    page@.len() == PAGE_SIZE,
                    out@.len() == a - offset,
                    offset <= lo,
                    page@ == o.dev().page_at(m0.location[p as int]),
                    p as int == page_lo as int / 4096,
                    page_lo as int == (p as int) * 4096,
                    0 <= p < m0.location.len(),
                    forall|x: int|
                        0 <= x < out@.len() ==> out@[x] == o.chunk_content(k)[offset + x],
                    hi <= offset + len,
                    offset + len <= m0.size,
                    m0 == o.chunk_at(k),
                    *buf == *old(buf),
                decreases hi - a,
            {
                let b = (a - page_lo) as usize;
                out.push(page[b]);
                proof {
                    let i = a as int;
                    assert(i / 4096 == p as int && i % 4096 == b as int) by (nonlinear_arith)
                        requires
                            i == a,
                            page_lo as int == (p as int) * 4096,
                            page_lo <= a,
                            a < page_hi,
                            page_hi == page_lo + 4096,
                            b == a - page_lo,
                            0 <= p,
                    ;
                    assert(o.chunk_content(k)[i] == o.dev().page_at(m0.location[i / 4096])[i
                        % 4096]);
                }
                a = a + 1;
            }
            proof {
                assert(out@.len() == hi - offset);
            }
            q = q + 1;
        }
        proof {
            assert(out@.len() == len) by (nonlinear_arith)
                requires
                    out@.len() == (if total == 0 {
                        0int
                    } else {
                        (if (start + total) * 4096 < offset + len {
                            ((start + total) * 4096) as int
                        } else {
                            (offset + len) as int
                        }) - offset
                    }),
                    total == end - start + 1,
                    start == offset / 4096,
                    end as int == (offset + len - 1) / 4096,
                    1 <= len,
                    offset + len <= u64::MAX,
            ;
        }
        *buf = out;
        proof {
            self.lemma_same_state_wf(o);
            assert(final(buf)@ =~= o.chunk_content(k).subrange(offset as int, offset + len));
        }
        Ok(())
    }


    /// First-time initialization: create one blob per worker with
    /// `init_blob_size` clusters of capacity, give each worker its shard,
    /// and persist the initial global metadata under the magic key.
    pub fn create_me(db: DbEngine, blob_engine: BlobEngine, init_blob_size: u64) -> (r: Result<
        FileEngine,
        EngineError,
    >)
        requires
            db.wf(),
            db@ == Map::<Seq<u8>, Seq<u8>>::empty(),
            blob_engine.wf(),
            8 <= init_blob_size <= 0x10_0000,
        ensures
            match r {
                Ok(e) => {
                    &&& e.wf()
                    &&& e.csum_ok()
                    &&& forall|k: Seq<u8>| !e.has_chunk(k)
                    &&& e.global().blobs.len() == NUM_THREAD
                    &&& e.dev().blob_count() == blob_engine.dev().blob_count() + NUM_THREAD
                    &&& forall|i: int|
                        0 <= i < NUM_THREAD ==> (#[trigger] e.global().blobs[i])
                            < e.dev().blob_count() && e.dev().page_count(
                            e.global().blobs[i] as int,
                        ) == init_blob_size * CLUSTER_SIZE_PAGES
                    &&& forall|i: int, x: int|
                        0 <= i < NUM_THREAD && 0 <= x < BLOB_PAGES ==> !(
                        #[trigger] e.global().free_list[i][x])
                    &&& forall|s: int|
                        0 <= s < NUM_THREAD ==> (#[trigger] e.shard(s)).tblobs@.len() == 1
                            && e.shard(s).tblobs@[0] == e.global().blobs[s] && shard_free_pages(
                            e.shard(s),
                        ) == BLOB_PAGES
                    &&& dec_engine_spec(e.rows()[magic_key_spec()]) == Some(e.global())
                },
                Err(err) => false,
            },
    {
        let magic_key = magic_key_bytes();
        let mut be = blob_engine;
        let total_cluster = be.bs.total_data_cluster_count();
        let mut mad = MadEngine::new(total_cluster, init_blob_size);
        proof {
            mad.lemma_view();
        }
        let mut shards: Vec<ThreadData> = Vec::new();
        let ghost c0 = blob_engine.dev().blob_count() as int;
        let mut w: usize = 0;
        while w < NUM_THREAD
            invariant
                8 <= init_blob_size <= 0x10_0000,
                w <= NUM_THREAD,
                be.wf(),
                c0 == blob_engine.dev().blob_count(),
                be.dev().blob_count() == c0 + w,
                mad.lists_wf(),
                mad.blobs@.len() == w,
                mad@.blobs.len() == w,
                mad@.free_list.len() == w,
                mad@.device == (DeviceInfo {
                    cluster_size: 1,
                    page_size: PAGE_SIZE,
                    io_unit: PAGE_SIZE,
                    total_cluster,
                }),
                mad@.blob_size == init_blob_size,
                forall|i: int| 0 <= i < w ==> mad@.blobs[i] == c0 + i,
                forall|i: int|
                    0 <= i < w ==> (#[trigger] mad@.blobs[i]) < be.dev().blob_count()
                        && be.dev().page_count(mad@.blobs[i] as int) == init_blob_size
                        * CLUSTER_SIZE_PAGES,
                forall|i: int, x: int|
                    0 <= i < w && 0 <= x < BLOB_PAGES ==> !(#[trigger] mad@.free_list[i][x]),
                shards@.len() == w,
                forall|i: int|
                    0 <= i < w ==> (#[trigger] shards@[i]).tblobs@.len() == 1
                        && shards@[i].tfree_list@.len() == 1 && shards@[i].tblobs@[0] == c0 + i
                        && shards@[i].tfree_list@[0].wf() && shards@[i].tfree_list@[0].spec_size()
                        == BLOB_PAGES,
                forall|i: int, x: int|
                    0 <= i < w && 0 <= x < BLOB_PAGES ==> !(#[trigger] shards@[
                        i
                    ].tfree_list@[0]@[x]),
            decreases NUM_THREAD - w,
        {
            proof {
                mad.lemma_view();
            }
            let ghost madpre = mad@;
            let bid = match be.create_blob() {
                Ok(b) => b,
                Err(e) => {
                    proof {
                        assert(false);
                    }
                    return Err(EngineError::BsInitError);
                },
            };
            let handle = match be.open_blob(bid) {
                Ok(h) => h,
                Err(e) => {
                    proof {
                        assert(false);
                    }
                    return Err(EngineError::BsInitError);
                },
            };
            let r1 = be.resize_blob(handle, init_blob_size);
            let r2 = be.sync_blob(handle);
            let r3 = be.close_blob(handle);
            let bm = BitMap::new(BLOB_PAGES);
            mad.blobs.push(bid);
            mad.free_list.push(bm);
            let bm2 = BitMap::new(BLOB_PAGES);
            let mut td = ThreadData::default();
            td.tblobs.push(bid);
            td.tfree_list.push(bm2);
            shards.push(td);
            proof {
                mad.lemma_view();
                assert forall|ii: int, x: int|
                    0 <= ii < w + 1 && 0 <= x < BLOB_PAGES implies !(mad@.free_list[ii][x]) by {
                    assert(mad@.free_list[ii] == mad.free_list@[ii]@);
                    if ii < w {
                        assert(madpre.free_list[ii][x] == mad@.free_list[ii][x]);
                    }
                }
                assert(init_blob_size * CLUSTER_SIZE_PAGES >= BLOB_PAGES) by (nonlinear_arith)
                    requires
                        8 <= init_blob_size,
                        CLUSTER_SIZE_PAGES == 256,
                        BLOB_PAGES == 2048,
                ;
            }
            w = w + 1;
        }
        proof {
            mad.lemma_view();
            assert forall|i: int, j: int|
                0 <= i < j < mad@.blobs.len() implies mad@.blobs[i] != mad@.blobs[j] by {}
            assert(mad@.wf_shape());
        }
        let row = encode_engine(&mad);
        let mut db2 = db;
        let mk = slice_to_vec(magic_key.as_slice());
        db2.put(mk, row);
        let eng = FileEngine {
            db: db2,
            blob_engine: be,
            mad_engine: mad,
            shards,
            next_shard: 0,
            magic_key,
        };
        proof {
            assert(eng.rows() =~= Map::<Seq<u8>, Seq<u8>>::empty().insert(magic_key_spec(), row@));
            assert(eng.rows().contains_key(magic_key_spec()));
            assert(eng.rows()[magic_key_spec()] == row@);
            assert forall|k2: Seq<u8>| !eng.has_chunk(k2) by {
                if k2 != magic_key_spec() {
                    assert(!eng.rows().contains_key(k2));
                }
            }
            assert(eng.shards_wf()) by {
                assert forall|s1: int, t1: int, s2: int, t2: int, i: int|
                    #![trigger eng.shards@[s1].tfree_list@[t1]@[i], eng.shards@[s2].tfree_list@[t2]@[i]]
                    0 <= s1 < eng.shards@.len() && 0 <= t1 < eng.shards@[s1].tblobs@.len() && 0
                        <= s2 < eng.shards@.len() && 0 <= t2 < eng.shards@[s2].tblobs@.len() && (s1
                        != s2 || t1 != t2) && eng.shards@[s1].tblobs@[t1]
                        == eng.shards@[s2].tblobs@[t2] && 0 <= i < BLOB_PAGES implies (
                    eng.shards@[s1].tfree_list@[t1]@[i] || eng.shards@[s2].tfree_list@[t2]@[i]) by {
                    assert(t1 == 0 && t2 == 0);
                    assert(eng.shards@[s1].tblobs@[0] == c0 + s1);
                    assert(eng.shards@[s2].tblobs@[0] == c0 + s2);
                }
                assert forall|s: int, t: int, i: int|
                    #![trigger eng.shards@[s].tfree_list@[t]@[i]]
                    0 <= s < eng.shards@.len() && 0 <= t < eng.shards@[s].tblobs@.len() && 0 <= i
                        < BLOB_PAGES && !(eng.shards@[s].tfree_list@[t]@[i]) implies !gbit(
                    eng.global(),
                    PagePos { bid: eng.shards@[s].tblobs@[t], offset: i as u64 },
                ) by {
                    assert(t == 0);
                    let bid = eng.shards@[s].tblobs@[0];
                    assert(bid == c0 + s);
                    assert(eng.global().blobs[s] == bid);
                    assert(has_blob(eng.global(), bid));
                    lemma_blob_index_props(eng.global(), bid);
                    assert(blob_index(eng.global(), bid) == s);
                    assert(!eng.global().free_list[s][i]);
                }
                assert forall|s: int, t: int|
                    0 <= s < eng.shards@.len() && 0 <= t < eng.shards@[s].tblobs@.len() implies (
                #[trigger] eng.shards@[s].tfree_list@[t]).wf() && eng.shards@[s].tfree_list@[
                    t
                ].spec_size() == BLOB_PAGES && has_blob(eng.global(), eng.shards@[s].tblobs@[t]) by {
                    assert(t == 0);
                    assert(eng.global().blobs[s] == eng.shards@[s].tblobs@[0]);
                }
            }
            assert(eng.wf());
            assert(eng.global().blobs.len() == NUM_THREAD);
            assert forall|s2: int| 0 <= s2 < NUM_THREAD implies (
            #[trigger] eng.shard(s2)).tblobs@.len() == 1 && eng.shard(s2).tblobs@[0]
                == eng.global().blobs[s2] && shard_free_pages(eng.shard(s2)) == BLOB_PAGES by {
                assert(eng.shard(s2) == shards@[s2]);
                lemma_clear_count_all_clear(eng.shard(s2).tfree_list@[0]@, BLOB_PAGES as int);
                assert(shard_clear_upto(eng.shard(s2), 0) == 0);
                assert(shard_clear_upto(eng.shard(s2), 1) == clear_count(
                    eng.shard(s2).tfree_list@[0]@,
                    BLOB_PAGES as int,
                ));
            }
            assert(eng.csum_ok()) by {
                assert forall|k2: Seq<u8>, p: int|
                    #![trigger eng.chunk_at(k2).csum_data[p]]
                    eng.has_chunk(k2) && 0 <= p < eng.chunk_at(k2).location.len() implies
                    eng.chunk_at(k2).csum_data[p] == crc32_of(
                    eng.dev().page_at(eng.chunk_at(k2).location[p]),
                ) by {
                    assert(!eng.has_chunk(k2));
                }
            }
        }
        Ok(eng)
    }


    /// A row index names a chunk row (not the magic row).
    spec fn is_chunk_row(db: DbEngine, x: int) -> bool {
        db.spec_key(x) != magic_key_spec()
    }

    /// The decoded metadata of row `x`.
    spec fn rmeta(db: DbEngine, x: int) -> ChunkMetaV {
        dec_chunk_spec(db@[db.spec_key(x)]).unwrap()
    }

    /// Row `x`, page `p` lies before row `ri`, page `pp` in processing
    /// order.
    spec fn before(db: DbEngine, x: int, p: int, ri: int, pp: int) -> bool {
        &&& 0 <= x < db.spec_row_count()
        &&& Self::is_chunk_row(db, x)
        &&& dec_chunk_spec(db@[db.spec_key(x)]) is Some
        &&& 0 <= p < Self::rmeta(db, x).location.len()
        &&& (x < ri || (x == ri && p < pp))
    }

    /// Reload: decode the global row under the magic key, check every
    /// chunk row against the device and rebuild the free list from the
    /// rows (so that a page is marked used exactly when a live page maps
    /// to it), stripe the blobs round-robin over the worker shards, and
    /// persist the reconciled global row.
    #[verifier::rlimit(100)]
    pub fn restore(db: DbEngine, blob_engine: BlobEngine) -> (r: Result<FileEngine, EngineError>)
        requires
            db.wf(),
            blob_engine.wf(),
        ensures
            restorable(db@, blob_engine.dev()) ==> r is Ok,
            !db@.contains_key(magic_key_spec()) ==> r is Err,
            match r {
                Ok(e) => {
                    &&& e.wf()
                    &&& (forall|k: Seq<u8>|
                        e.has_chunk(k) == (k != magic_key_spec() && db@.contains_key(k)))
                    &&& (forall|k: Seq<u8>| e.has_chunk(k) ==> e.rows()[k] == db@[k])
                    &&& e.dev() == blob_engine.dev()
                    &&& (rows_csum_ok(db@, blob_engine.dev()) ==> e.csum_ok())
                    // the global shape is the persisted snapshot
                    &&& e.global().blobs == dec_engine_spec(db@[magic_key_spec()]).unwrap().blobs
                    &&& e.global().device == dec_engine_spec(db@[magic_key_spec()]).unwrap().device
                    &&& e.global().blob_size == dec_engine_spec(
                        db@[magic_key_spec()],
                    ).unwrap().blob_size
                    // the free list is rebuilt from the rows: a page is
                    // marked used exactly when a live chunk page maps there
                    &&& forall|pos: PagePos|
                        valid_slot(e.global(), pos) ==> (#[trigger] gbit(e.global(), pos)
                            <==> exists|k2: Seq<u8>, p: int|
                            e.has_chunk(k2) && 0 <= p < e.chunk_at(k2).location.len()
                                && e.chunk_at(k2).location[p] == pos)
                    &&& dec_engine_spec(e.rows()[magic_key_spec()]) == Some(e.global())
                    // blobs are striped round-robin over the worker shards,
                    // each entry a copy of its global bitmap
                    &&& forall|s: int|
                        #![trigger e.shard(s).tblobs@.len()]
                        0 <= s < NUM_THREAD ==> s + 4 * e.shard(s).tblobs@.len()
                            >= e.global().blobs.len() && (e.shard(s).tblobs@.len() > 0 ==> s + 4
                            * (e.shard(s).tblobs@.len() - 1) < e.global().blobs.len())
                    &&& forall|s: int, t: int|
                        #![trigger e.shard(s).tblobs@[t]]
                        #![trigger e.shard(s).tfree_list@[t]]
                        0 <= s < NUM_THREAD && 0 <= t < e.shard(s).tblobs@.len() ==> e.shard(
                            s,
                        ).tblobs@[t] == e.global().blobs[s + 4 * t] && e.shard(s).tfree_list@[t]@
                            == e.global().free_list[s + 4 * t]
                    &&& forall|i: int|
                        #![trigger e.global().blobs[i]]
                        #![trigger e.shard(i % 4).tblobs@[i / 4]]
                        0 <= i < e.global().blobs.len() ==> i / 4 < e.shard(i % 4).tblobs@.len()
                            && e.shard(i % 4).tblobs@[i / 4] == e.global().blobs[i]
                },
                Err(err) => err == EngineError::RestoreFail && !restorable(
                    db@,
                    blob_engine.dev(),
                ),
            },
    {
        let magic_key = magic_key_bytes();
        let grow = match db.get(&magic_key) {
            None => {
                return Err(EngineError::RestoreFail);
            },
            Some(b) => b,
        };
        let mad0 = match decode_engine(&grow) {
            None => {
                return Err(EngineError::RestoreFail);
            },
            Some(g) => g,
        };
        proof {
            mad0.lemma_view();
        }
        // keep the decoded shape; rebuild the free list from the rows
        let nb = mad0.blobs.len();
        let mut free_list: Vec<BitMap> = Vec::new();
        let mut i: usize = 0;
        while i < nb
            invariant
                i <= nb,
                free_list@.len() == i,
                forall|x: int|
                    0 <= x < i ==> (#[trigger] free_list@[x]).wf() && free_list@[x].spec_size()
                        == BLOB_PAGES,
                forall|x: int, y: int|
                    0 <= x < i && 0 <= y < BLOB_PAGES ==> !(#[trigger] free_list@[x]@[y]),
            decreases nb - i,
        {
            free_list.push(BitMap::new(BLOB_PAGES));
            i = i + 1;
        }
        let mut mad = MadEngine {
            free_list,
            blobs: mad0.blobs,
            device: mad0.device,
            blob_size: mad0.blob_size,
        };
        proof {
            mad.lemma_view();
            assert(mad@.blobs == mad0@.blobs);
            assert(mad@.wf_shape());
            assert(mad.lists_wf());
        }
        let ghost blobs0 = mad@.blobs;
        // every listed blob must sit on the device with full capacity
        proof {
            assert(grow@ == db@[magic_key_spec()]);
        }
        let nb2 = mad.blobs.len();
        let mut i2: usize = 0;
        while i2 < nb2
            invariant
                i2 <= nb2,
                nb2 == mad.blobs@.len(),
                blob_engine.wf(),
                mad@.blobs == blobs0,
                mad@.blobs == mad.blobs@,
                blobs0 == mad0@.blobs,
                db.wf(),
                dec_engine_spec(db@[magic_key_spec()]) == Some(mad0@),
                forall|x: int|
                    0 <= x < i2 ==> (#[trigger] mad.blobs@[x]) < blob_engine.dev().blob_count()
                        && blob_engine.dev().page_count(mad.blobs@[x] as int) >= BLOB_PAGES,
            decreases nb2 - i2,
        {
            proof {
                mad.lemma_view();
                blob_engine.lemma_dev();
            }
            let bid = mad.blobs[i2];
            if bid >= blob_engine.bs.count_blobs() {
                proof {
                    if restorable(db@, blob_engine.dev()) {
                        let g = dec_engine_spec(db@[magic_key_spec()]).unwrap();
                        assert(g.blobs[i2 as int] == bid);
                        assert(false);
                    }
                }
                return Err(EngineError::RestoreFail);
            }
            if blob_engine.bs.pages_of(bid) < BLOB_PAGES {
                proof {
                    if restorable(db@, blob_engine.dev()) {
                        let g = dec_engine_spec(db@[magic_key_spec()]).unwrap();
                        assert(g.blobs[i2 as int] == bid);
                        assert(false);
                    }
                }
                return Err(EngineError::RestoreFail);
            }
            proof {
                mad.lemma_view();
            }
            i2 = i2 + 1;
        }
        proof {
            mad.lemma_view();
        }
        // walk the rows: each chunk row must decode, and each of its pages
        // must map to a distinct valid page of a listed blob
        let nrows = db.row_count();
        proof {
            db.lemma_keys_cover();
        }
        let mut ri: usize = 0;
        while ri < nrows
            invariant
                db.wf(),
                blob_engine.wf(),
                magic_key@ == magic_key_spec(),
                nrows == db.spec_row_count(),
                ri <= nrows,
                blobs0 == mad0@.blobs,
                dec_engine_spec(db@[magic_key_spec()]) == Some(mad0@),
                forall|x: int|
                    0 <= x < nrows ==> db@.contains_key(#[trigger] db.spec_key(x)),
                forall|x: int, y: int|
                    0 <= x < y < nrows ==> db.spec_key(x) != db.spec_key(y),
                mad.lists_wf(),
                mad@.wf_shape(),
                mad@.blobs == blobs0,
                mad@.device == mad0@.device,
                mad@.blob_size == mad0@.blob_size,
                mad@.free_list.len() == blobs0.len(),
                forall|x: int|
                    0 <= x < blobs0.len() ==> (#[trigger] blobs0[x])
                        < blob_engine.dev().blob_count() && blob_engine.dev().page_count(
                        blobs0[x] as int,
                    ) >= BLOB_PAGES,
                forall|x: int|
                    0 <= x < ri && Self::is_chunk_row(db, x) ==> dec_chunk_spec(
                        db@[#[trigger] db.spec_key(x)],
                    ) is Some && Self::rmeta(db, x).wf_shape(),
                forall|x: int, p: int|
                    Self::before(db, x, p, ri as int, 0) ==> valid_slot(
                        mad@,
                        #[trigger] Self::rmeta(db, x).location[p],
                    ) && gbit(mad@, Self::rmeta(db, x).location[p]),
                forall|pos: PagePos|
                    valid_slot(mad@, pos) && #[trigger] gbit(mad@, pos) ==> exists|x: int, p: int|
                        Self::before(db, x, p, ri as int, 0) && Self::rmeta(db, x).location[p]
                            == pos,
                forall|x1: int, p1: int, x2: int, p2: int|
                    #![trigger Self::rmeta(db, x1).location[p1], Self::rmeta(db, x2).location[p2]]
                    Self::before(db, x1, p1, ri as int, 0) && Self::before(db, x2, p2, ri as int, 0)
                        && (x1 != x2 || p1 != p2) ==> Self::rmeta(db, x1).location[p1]
                        != Self::rmeta(db, x2).location[p2],
            decreases nrows - ri,
        {
            let kk = slice_to_vec(db.key_at_index(ri).as_slice());
            if !(kk == magic_key) {
                assert(kk@ == db.spec_key(ri as int));
                assert(Self::is_chunk_row(db, ri as int));
                let rowv = match db.get(&kk) {
                    None => {
                        proof {
                            assert(false);
                        }
                        return Err(EngineError::RestoreFail);
                    },
                    Some(v) => v,
                };
                let m = match decode_chunk(&rowv) {
                    None => {
                        proof {
                            if restorable(db@, blob_engine.dev()) {
                                assert(db@.contains_key(kk@) && kk@ != magic_key_spec());
                                assert(dec_chunk_spec(db@[kk@]) is Some);
                                assert(false);
                            }
                        }
                        return Err(EngineError::RestoreFail);
                    },
                    Some(m) => m,
                };
                proof {
                    m.lemma_view();
                    assert(rowv@ == db@[db.spec_key(ri as int)]);
                    assert(Self::rmeta(db, ri as int) == m@);
                }
                let npages = m.location.len();
                let mut pp: usize = 0;
                while pp < npages
                    invariant
                        db.wf(),
                        blob_engine.wf(),
                        nrows == db.spec_row_count(),
                        ri < nrows,
                        pp <= npages,
                        blobs0 == mad0@.blobs,
                        dec_engine_spec(db@[magic_key_spec()]) == Some(mad0@),
                        forall|x: int|
                            0 <= x < nrows ==> db@.contains_key(#[trigger] db.spec_key(x)),
                        forall|x: int, y: int|
                            0 <= x < y < nrows ==> db.spec_key(x) != db.spec_key(y),
                        Self::is_chunk_row(db, ri as int),
                        Self::rmeta(db, ri as int) == m@,
                        dec_chunk_spec(db@[db.spec_key(ri as int)]) is Some,
                        npages == m.location@.len(),
                        m@.location == m.location@,
                        mad.lists_wf(),
                        mad@.wf_shape(),
                        mad@.blobs == blobs0,
                        mad@.device == mad0@.device,
                        mad@.blob_size == mad0@.blob_size,
                        mad@.free_list.len() == blobs0.len(),
                        forall|x: int|
                            0 <= x < blobs0.len() ==> (#[trigger] blobs0[x])
                                < blob_engine.dev().blob_count() && blob_engine.dev().page_count(
                                blobs0[x] as int,
                            ) >= BLOB_PAGES,
                        forall|x: int|
                            0 <= x < ri && Self::is_chunk_row(db, x) ==> dec_chunk_spec(
                                db@[#[trigger] db.spec_key(x)],
                            ) is Some && Self::rmeta(db, x).wf_shape(),
                        forall|x: int, p: int|
                            Self::before(db, x, p, ri as int, pp as int) ==> valid_slot(
                                mad@,
                                #[trigger] Self::rmeta(db, x).location[p],
                            ) && gbit(mad@, Self::rmeta(db, x).location[p]),
                        forall|pos: PagePos|
                            valid_slot(mad@, pos) && #[trigger] gbit(mad@, pos) ==> exists|
                                x: int,
                                p: int,
                            |
                                Self::before(db, x, p, ri as int, pp as int) && Self::rmeta(
                                    db,
                                    x,
                                ).location[p] == pos,
                        forall|x1: int, p1: int, x2: int, p2: int|
                            #![trigger Self::rmeta(db, x1).location[p1], Self::rmeta(db, x2).location[p2]]
                            Self::before(db, x1, p1, ri as int, pp as int) && Self::before(
                                db,
                                x2,
                                p2,
                                ri as int,
                                pp as int,
                            ) && (x1 != x2 || p1 != p2) ==> Self::rmeta(db, x1).location[p1]
                                != Self::rmeta(db, x2).location[p2],
                    decreases npages - pp,
                {
                    let pos = m.location[pp];
                    proof {
                        assert(pos == Self::rmeta(db, ri as int).location[pp as int]);
                    }
                    if pos.offset >= BLOB_PAGES {
                        proof {
                            if restorable(db@, blob_engine.dev()) {
                                let k = db.spec_key(ri as int);
                                assert(db@.contains_key(k) && k != magic_key_spec());
                                assert(dec_chunk_spec(db@[k]).unwrap().location[pp as int]
                                    == pos);
                                assert(false);
                            }
                        }
                        return Err(EngineError::RestoreFail);
                    }
                    let gi = match find_blob_index(&mad, pos.bid) {
                        None => {
                            proof {
                                if restorable(db@, blob_engine.dev()) {
                                    let k = db.spec_key(ri as int);
                                    assert(db@.contains_key(k) && k != magic_key_spec());
                                    assert(dec_chunk_spec(db@[k]).unwrap().location[pp as int]
                                        == pos);
                                    let g = dec_engine_spec(db@[magic_key_spec()]).unwrap();
                                    let w = choose|w: int|
                                        0 <= w < g.blobs.len() && g.blobs[w] == pos.bid;
                                    mad.lemma_view();
                                    assert(mad.blobs@[w] == pos.bid);
                                    assert(false);
                                }
                            }
                            return Err(EngineError::RestoreFail);
                        },
                        Some(gi) => gi,
                    };
                    proof {
                        mad.lemma_view();
                        lemma_blob_index_props(mad@, pos.bid);
                        assert(valid_slot(mad@, pos));
                    }
                    let ghost gpre = mad@;
                    let mut bmref = BitMap::new(0);
                    mad.free_list.set_and_swap(gi, &mut bmref);
                    let taken = bmref.get(pos.offset);
                    mad.free_list.set_and_swap(gi, &mut bmref);
                    proof {
                        mad.lemma_view();
                        assert(mad@ == gpre);
                        assert(taken == gpre.free_list[gi as int][pos.offset as int]);
                        assert(taken == gbit(gpre, pos));
                    }
                    if taken {
                        proof {
                            if restorable(db@, blob_engine.dev()) {
                                assert(gbit(gpre, pos));
                                assert(valid_slot(gpre, pos)) by {
                                    mad.lemma_view();
                                    lemma_blob_index_props(gpre, pos.bid);
                                }
                                let (x, p) = choose|x: int, p: int|
                                    Self::before(db, x, p, ri as int, pp as int) && Self::rmeta(
                                        db,
                                        x,
                                    ).location[p] == pos;
                                let k1 = db.spec_key(x);
                                let k2 = db.spec_key(ri as int);
                                assert(db@.contains_key(k1) && db@.contains_key(k2));
                                if x != ri as int {
                                    assert(k1 != k2) by {
                                        if x < ri as int {
                                        } else {
                                        }
                                    }
                                }
                                assert(dec_chunk_spec(db@[k1]).unwrap().location[p] == pos);
                                assert(dec_chunk_spec(db@[k2]).unwrap().location[pp as int]
                                    == pos);
                                assert(false);
                            }
                        }
                        return Err(EngineError::RestoreFail);
                    }
                    global_set_bit(&mut mad, gi, pos.offset);
                    proof {
                        mad.lemma_view();
                        let g = mad@;
                        assert(g.wf_shape());
                        assert forall|qq: PagePos| valid_slot(gpre, qq) implies #[trigger] gbit(
                            g,
                            qq,
                        ) == (gbit(gpre, qq) || qq == pos) by {
                            lemma_blob_index_props(gpre, qq.bid);
                            let bi = blob_index(gpre, qq.bid);
                            assert(blob_index(g, qq.bid) == bi) by {
                                lemma_blob_index_eq(gpre, g, qq.bid);
                            }
                            if qq.bid == pos.bid {
                                assert(bi == gi as int);
                            } else {
                                assert(bi != gi as int) by {
                                    if bi == gi as int {
                                        assert(gpre.blobs[bi] == qq.bid);
                                        assert(gpre.blobs[gi as int] == pos.bid);
                                    }
                                }
                            }
                        }
                        assert forall|x: int, p: int|
                            Self::before(db, x, p, ri as int, pp + 1) implies valid_slot(
                            mad@,
                            #[trigger] Self::rmeta(db, x).location[p],
                        ) && gbit(mad@, Self::rmeta(db, x).location[p]) by {
                            if x == ri as int && p == pp as int {
                                assert(Self::rmeta(db, x).location[p] == pos);
                            } else {
                                assert(Self::before(db, x, p, ri as int, pp as int));
                            }
                        }
                        assert forall|pos2: PagePos|
                            valid_slot(mad@, pos2) && #[trigger] gbit(mad@, pos2) implies exists|
                            x: int,
                            p: int,
                        |
                            Self::before(db, x, p, ri as int, pp + 1) && Self::rmeta(
                                db,
                                x,
                            ).location[p] == pos2 by {
                            if pos2 == pos {
                                assert(Self::before(db, ri as int, pp as int, ri as int, pp + 1)
                                    && Self::rmeta(db, ri as int).location[pp as int] == pos2);
                            } else {
                                assert(gbit(gpre, pos2));
                                let (x, p) = choose|x: int, p: int|
                                    Self::before(db, x, p, ri as int, pp as int) && Self::rmeta(
                                        db,
                                        x,
                                    ).location[p] == pos2;
                                assert(Self::before(db, x, p, ri as int, pp + 1) && Self::rmeta(
                                    db,
                                    x,
                                ).location[p] == pos2);
                            }
                        }
                        assert forall|x1: int, p1: int, x2: int, p2: int|
                            #![trigger Self::rmeta(db, x1).location[p1], Self::rmeta(db, x2).location[p2]]
                            Self::before(db, x1, p1, ri as int, pp + 1) && Self::before(
                                db,
                                x2,
                                p2,
                                ri as int,
                                pp + 1,
                            ) && (x1 != x2 || p1 != p2) implies Self::rmeta(db, x1).location[p1]
                            != Self::rmeta(db, x2).location[p2] by {
                            if x1 == ri as int && p1 == pp as int {
                                assert(Self::before(db, x2, p2, ri as int, pp as int));
                                assert(gbit(gpre, Self::rmeta(db, x2).location[p2]));
                                assert(!gbit(gpre, pos));
                            } else if x2 == ri as int && p2 == pp as int {
                                assert(Self::before(db, x1, p1, ri as int, pp as int));
                                assert(gbit(gpre, Self::rmeta(db, x1).location[p1]));
                                assert(!gbit(gpre, pos));
                            } else {
                                assert(Self::before(db, x1, p1, ri as int, pp as int));
                                assert(Self::before(db, x2, p2, ri as int, pp as int));
                            }
                        }
                    }
                    pp = pp + 1;
                }
                proof {
                    assert forall|x: int, p: int|
                        Self::before(db, x, p, ri + 1, 0) implies valid_slot(
                        mad@,
                        #[trigger] Self::rmeta(db, x).location[p],
                    ) && gbit(mad@, Self::rmeta(db, x).location[p]) by {
                        assert(Self::before(db, x, p, ri as int, npages as int));
                    }
                    assert forall|pos2: PagePos|
                        valid_slot(mad@, pos2) && #[trigger] gbit(mad@, pos2) implies exists|
                        x: int,
                        p: int,
                    |
                        Self::before(db, x, p, ri + 1, 0) && Self::rmeta(db, x).location[p]
                            == pos2 by {
                        let (x, p) = choose|x: int, p: int|
                            Self::before(db, x, p, ri as int, npages as int) && Self::rmeta(
                                db,
                                x,
                            ).location[p] == pos2;
                        assert(Self::before(db, x, p, ri + 1, 0) && Self::rmeta(db, x).location[p]
                            == pos2);
                    }
                    assert forall|x1: int, p1: int, x2: int, p2: int|
                        #![trigger Self::rmeta(db, x1).location[p1], Self::rmeta(db, x2).location[p2]]
                        Self::before(db, x1, p1, ri + 1, 0) && Self::before(db, x2, p2, ri + 1, 0)
                            && (x1 != x2 || p1 != p2) implies Self::rmeta(db, x1).location[p1]
                        != Self::rmeta(db, x2).location[p2] by {
                        assert(Self::before(db, x1, p1, ri as int, npages as int));
                        assert(Self::before(db, x2, p2, ri as int, npages as int));
                    }
                }
            } else {
                proof {
                    assert(kk@ == db.spec_key(ri as int));
                    assert(kk@ == magic_key_spec());
                    assert(!Self::is_chunk_row(db, ri as int));
                    assert forall|x: int, p: int|
                        Self::before(db, x, p, ri + 1, 0) implies valid_slot(
                        mad@,
                        #[trigger] Self::rmeta(db, x).location[p],
                    ) && gbit(mad@, Self::rmeta(db, x).location[p]) by {
                        assert(Self::before(db, x, p, ri as int, 0));
                    }
                    assert forall|pos2: PagePos|
                        valid_slot(mad@, pos2) && #[trigger] gbit(mad@, pos2) implies exists|
                        x: int,
                        p: int,
                    |
                        Self::before(db, x, p, ri + 1, 0) && Self::rmeta(db, x).location[p]
                            == pos2 by {
                        let (x, p) = choose|x: int, p: int|
                            Self::before(db, x, p, ri as int, 0) && Self::rmeta(db, x).location[p]
                                == pos2;
                        assert(Self::before(db, x, p, ri + 1, 0) && Self::rmeta(db, x).location[p]
                            == pos2);
                    }
                    assert forall|x1: int, p1: int, x2: int, p2: int|
                        #![trigger Self::rmeta(db, x1).location[p1], Self::rmeta(db, x2).location[p2]]
                        Self::before(db, x1, p1, ri + 1, 0) && Self::before(db, x2, p2, ri + 1, 0)
                            && (x1 != x2 || p1 != p2) implies Self::rmeta(db, x1).location[p1]
                        != Self::rmeta(db, x2).location[p2] by {
                        assert(Self::before(db, x1, p1, ri as int, 0));
                        assert(Self::before(db, x2, p2, ri as int, 0));
                    }
                }
            }
            ri = ri + 1;
        }
        let eng = Self::finish_restore(db, blob_engine, mad, magic_key, grow);
        Ok(eng)
    }


    /// Finish a reload once every row has been validated: stripe the
    /// blobs over the worker shards, persist the reconciled global row
    /// and assemble the engine.
    #[verifier::rlimit(100)]
    #[verifier::spinoff_prover]
    fn finish_restore(
        db: DbEngine,
        blob_engine: BlobEngine,
        mad: MadEngine,
        magic_key: Vec<u8>,
        grow: Vec<u8>,
    ) -> (eng: FileEngine)
        requires
            db.wf(),
            blob_engine.wf(),
            magic_key@ == magic_key_spec(),
            mad.lists_wf(),
            mad@.wf_shape(),
            mad@.free_list.len() == mad@.blobs.len(),
            // the decoded snapshot the shape was taken from
            db@.contains_key(magic_key_spec()),
            grow@ == db@[magic_key_spec()],
            dec_engine_spec(grow@) is Some,
            dec_engine_spec(grow@).unwrap().blobs == mad@.blobs,
            dec_engine_spec(grow@).unwrap().device == mad@.device,
            dec_engine_spec(grow@).unwrap().blob_size == mad@.blob_size,
            // every listed blob sits on the device with full capacity
            forall|x: int|
                0 <= x < mad@.blobs.len() ==> (#[trigger] mad@.blobs[x])
                    < blob_engine.dev().blob_count() && blob_engine.dev().page_count(
                    mad@.blobs[x] as int,
                ) >= BLOB_PAGES,
            // every chunk row decodes and is in shape
            forall|x: int|
                0 <= x < db.spec_row_count() && Self::is_chunk_row(db, x) ==> dec_chunk_spec(
                    db@[#[trigger] db.spec_key(x)],
                ) is Some && Self::rmeta(db, x).wf_shape(),
            // every live page is valid and marked used
            forall|x: int, p: int|
                Self::before(db, x, p, db.spec_row_count() as int, 0) ==> valid_slot(
                    mad@,
                    #[trigger] Self::rmeta(db, x).location[p],
                ) && gbit(mad@, Self::rmeta(db, x).location[p]),
            // every used page belongs to some live chunk page
            forall|pos: PagePos|
                valid_slot(mad@, pos) && #[trigger] gbit(mad@, pos) ==> exists|x: int, p: int|
                    Self::before(db, x, p, db.spec_row_count() as int, 0) && Self::rmeta(
                        db,
                        x,
                    ).location[p] == pos,
            // live pages are pairwise distinct
            forall|x1: int, p1: int, x2: int, p2: int|
                #![trigger Self::rmeta(db, x1).location[p1], Self::rmeta(db, x2).location[p2]]
                Self::before(db, x1, p1, db.spec_row_count() as int, 0) && Self::before(
                    db,
                    x2,
                    p2,
                    db.spec_row_count() as int,
                    0,
                ) && (x1 != x2 || p1 != p2) ==> Self::rmeta(db, x1).location[p1] != Self::rmeta(
                    db,
                    x2,
                ).location[p2],
        ensures
            eng.wf(),
            forall|k: Seq<u8>| eng.has_chunk(k) == (k != magic_key_spec() && db@.contains_key(k)),
            forall|k: Seq<u8>| eng.has_chunk(k) ==> eng.rows()[k] == db@[k],
            eng.dev() == blob_engine.dev(),
            rows_csum_ok(db@, blob_engine.dev()) ==> eng.csum_ok(),
            eng.global().blobs == dec_engine_spec(db@[magic_key_spec()]).unwrap().blobs,
            eng.global().device == dec_engine_spec(db@[magic_key_spec()]).unwrap().device,
            eng.global().blob_size == dec_engine_spec(db@[magic_key_spec()]).unwrap().blob_size,
            forall|pos: PagePos|
                valid_slot(eng.global(), pos) ==> (#[trigger] gbit(eng.global(), pos)
                    <==> exists|k2: Seq<u8>, p: int|
                    eng.has_chunk(k2) && 0 <= p < eng.chunk_at(k2).location.len()
                        && eng.chunk_at(k2).location[p] == pos),
            // worker shards stripe the blobs round-robin, each entry a
            // copy of its global bitmap, covering every blob
            forall|s: int|
                #![trigger eng.shard(s).tblobs@.len()]
                0 <= s < NUM_THREAD ==> s + 4 * eng.shard(s).tblobs@.len()
                    >= eng.global().blobs.len() && (eng.shard(s).tblobs@.len() > 0 ==> s + 4 * (
                eng.shard(s).tblobs@.len() - 1) < eng.global().blobs.len()),
            forall|s: int, t: int|
                #![trigger eng.shard(s).tblobs@[t]]
                #![trigger eng.shard(s).tfree_list@[t]]
                0 <= s < NUM_THREAD && 0 <= t < eng.shard(s).tblobs@.len() ==> eng.shard(
                    s,
                ).tblobs@[t] == eng.global().blobs[s + 4 * t] && eng.shard(s).tfree_list@[t]@
                    == eng.global().free_list[s + 4 * t],
            forall|i: int|
                #![trigger eng.global().blobs[i]]
                #![trigger eng.shard(i % 4).tblobs@[i / 4]]
                0 <= i < eng.global().blobs.len() ==> i / 4 < eng.shard(i % 4).tblobs@.len()
                    && eng.shard(i % 4).tblobs@[i / 4] == eng.global().blobs[i],
            dec_engine_spec(eng.rows()[magic_key_spec()]) == Some(eng.global()),
    {
        let ghost mad0v = dec_engine_spec(grow@).unwrap();
        let ghost blobs0 = mad@.blobs;
        let ghost nrows = db.spec_row_count() as int;
        let gl = grow.len();
        proof {
            let n0 = le64_at(grow@, 0) as int;
            assert(dec_engine_spec(grow@) is Some);
            assert(grow@.len() == 48 + 264 * n0);
            assert(mad0v.blobs.len() == n0);
            assert(mad.blobs@.len() == n0) by {
                mad.lemma_view();
            }
            assert(mad.blobs@.len() + 4 <= usize::MAX) by (nonlinear_arith)
                requires
                    48 + 264 * (mad.blobs@.len() as int) <= usize::MAX,
            ;
        }
        let s0 = build_shard(&mad, 0);
        let s1 = build_shard(&mad, 1);
        let s2 = build_shard(&mad, 2);
        let s3 = build_shard(&mad, 3);
        let ghost s0v = s0;
        let ghost s1v = s1;
        let ghost s2v = s2;
        let ghost s3v = s3;
        let mut shards: Vec<ThreadData> = Vec::new();
        shards.push(s0);
        shards.push(s1);
        shards.push(s2);
        shards.push(s3);
        proof {
            assert(shards@ =~= seq![s0v, s1v, s2v, s3v]);
        }
        // persist the reconciled global row
        let ghost db0 = db;
        let ghost be = blob_engine;
        let mut db2 = db;
        let row = encode_engine(&mad);
        let mk = slice_to_vec(magic_key.as_slice());
        db2.put(mk, row);
        let eng = FileEngine {
            db: db2,
            blob_engine,
            mad_engine: mad,
            shards,
            next_shard: 0,
            magic_key,
        };
        proof {
            let g = eng.global();
            assert(eng.global() == mad@);
            assert(eng.rows() == db0@.insert(magic_key_spec(), row@));
            assert(eng.rows()[magic_key_spec()] == row@);
            db0.lemma_keys_cover();
            // the global shape equals the snapshot; the free list holds
            // exactly the live pages; the shards stripe the blobs
            assert(eng.global().blobs == blobs0);
            assert(eng.global().device == mad0v.device && eng.global().blob_size
                == mad0v.blob_size);
            let nr = nrows;
            assert forall|pos: PagePos| valid_slot(g, pos) implies (#[trigger] gbit(g, pos)
                <==> exists|k2: Seq<u8>, p: int|
                eng.has_chunk(k2) && 0 <= p < eng.chunk_at(k2).location.len() && eng.chunk_at(
                    k2,
                ).location[p] == pos) by {
                if gbit(g, pos) {
                    let (x, p) = choose|x: int, p: int|
                        Self::before(db0, x, p, nr, 0) && Self::rmeta(db0, x).location[p] == pos;
                    let k2 = db0.spec_key(x);
                    assert(db0@.contains_key(k2));
                    assert(eng.has_chunk(k2));
                    assert(eng.rows()[k2] == db0@[k2]);
                    assert(eng.chunk_at(k2) == Self::rmeta(db0, x));
                    assert(eng.has_chunk(k2) && 0 <= p < eng.chunk_at(k2).location.len()
                        && eng.chunk_at(k2).location[p] == pos);
                }
                if exists|k2: Seq<u8>, p: int|
                    eng.has_chunk(k2) && 0 <= p < eng.chunk_at(k2).location.len()
                        && eng.chunk_at(k2).location[p] == pos {
                    let (k2, p) = choose|k2: Seq<u8>, p: int|
                        eng.has_chunk(k2) && 0 <= p < eng.chunk_at(k2).location.len()
                            && eng.chunk_at(k2).location[p] == pos;
                    let x = choose|x: int| 0 <= x < nr && db0.spec_key(x) == k2;
                    assert(Self::is_chunk_row(db0, x));
                    assert(dec_chunk_spec(db0@[db0.spec_key(x)]) is Some);
                    assert(eng.chunk_at(k2) == Self::rmeta(db0, x));
                    assert(Self::before(db0, x, p, nr, 0));
                    assert(gbit(g, Self::rmeta(db0, x).location[p]));
                }
            }
            assert(eng.global() == mad@);
            assert(eng.shards@ == seq![s0v, s1v, s2v, s3v]);
            assert forall|sx: int|
                #![trigger eng.shard(sx).tblobs@.len()]
                0 <= sx < NUM_THREAD implies sx + 4 * eng.shard(sx).tblobs@.len()
                >= eng.global().blobs.len() && (eng.shard(sx).tblobs@.len() > 0 ==> sx + 4 * (
            eng.shard(sx).tblobs@.len() - 1) < eng.global().blobs.len()) by {
                let td = if sx == 0 {
                    s0v
                } else if sx == 1 {
                    s1v
                } else if sx == 2 {
                    s2v
                } else {
                    s3v
                };
                assert(eng.shard(sx) == td);
                assert(sx + 4 * td.tblobs@.len() >= mad@.blobs.len());
                if td.tblobs@.len() > 0 {
                    let v = td.tblobs@[td.tblobs@.len() - 1];
                    assert(sx + 4 * (td.tblobs@.len() - 1) < mad@.blobs.len());
                }
            }
            assert forall|sx: int, t: int|
                #![trigger eng.shard(sx).tblobs@[t]]
                0 <= sx < NUM_THREAD && 0 <= t < eng.shard(sx).tblobs@.len() implies sx + 4 * t
                < eng.global().blobs.len() && eng.shard(sx).tblobs@[t]
                == eng.global().blobs[sx + 4 * t] && eng.shard(sx).tfree_list@[t]@
                == eng.global().free_list[sx + 4 * t] by {
                if sx == 0 {
                    assert(eng.shard(sx) == s0v);
                    let v = s0v.tblobs@[t];
                    let w = s0v.tfree_list@[t];
                    assert(0 + 4 * t < mad@.blobs.len() && v == mad@.blobs[0 + 4 * t]);
                    assert(w@ == mad@.free_list[0 + 4 * t]);
                } else if sx == 1 {
                    assert(eng.shard(sx) == s1v);
                    let v = s1v.tblobs@[t];
                    let w = s1v.tfree_list@[t];
                    assert(1 + 4 * t < mad@.blobs.len() && v == mad@.blobs[1 + 4 * t]);
                    assert(w@ == mad@.free_list[1 + 4 * t]);
                } else if sx == 2 {
                    assert(eng.shard(sx) == s2v);
                    let v = s2v.tblobs@[t];
                    let w = s2v.tfree_list@[t];
                    assert(2 + 4 * t < mad@.blobs.len() && v == mad@.blobs[2 + 4 * t]);
                    assert(w@ == mad@.free_list[2 + 4 * t]);
                } else {
                    assert(eng.shard(sx) == s3v);
                    let v = s3v.tblobs@[t];
                    let w = s3v.tfree_list@[t];
                    assert(3 + 4 * t < mad@.blobs.len() && v == mad@.blobs[3 + 4 * t]);
                    assert(w@ == mad@.free_list[3 + 4 * t]);
                }
            }
            assert forall|i: int|
                #![trigger eng.global().blobs[i]]
                0 <= i < eng.global().blobs.len() implies exists|t: int|
                0 <= t < eng.shard(i % 4).tblobs@.len() && (#[trigger] eng.shard(
                    i % 4,
                ).tblobs@[t]) == eng.global().blobs[i] by {
                let sx = i % 4;
                let t = i / 4;
                assert(i == sx + 4 * t && 0 <= sx < 4 && 0 <= t) by (nonlinear_arith)
                    requires
                        0 <= i,
                        sx == i % 4,
                        t == i / 4,
                ;
                let td = if sx == 0 {
                    s0v
                } else if sx == 1 {
                    s1v
                } else if sx == 2 {
                    s2v
                } else {
                    s3v
                };
                assert(eng.shard(sx) == td);
                assert(sx + 4 * td.tblobs@.len() >= mad@.blobs.len());
                assert(t < td.tblobs@.len());
                let v = td.tblobs@[t];
                assert(v == mad@.blobs[sx + 4 * t]);
                assert(0 <= t < eng.shard(i % 4).tblobs@.len());
                assert(eng.shard(i % 4).tblobs@[t] == eng.global().blobs[i]);
            }
            assert(eng.rows() == db0@.insert(magic_key_spec(), row@));
            assert(eng.rows()[magic_key_spec()] == row@);
            assert(dec_engine_spec(row@) == Some(g));
            db0.lemma_keys_cover();
            // each chunk row decodes and its pages are valid, allocated
            // and mutually disjoint
            assert forall|k2: Seq<u8>| #[trigger]
                eng.has_chunk(k2) implies dec_chunk_spec(eng.rows()[k2]) is Some && eng.chunk_wf(
                eng.chunk_at(k2),
            ) by {
                assert(db0@.contains_key(k2));
                let x = choose|x: int|
                    0 <= x < db0.spec_row_count() && db0.spec_key(x) == k2;
                assert(Self::is_chunk_row(db0, x));
                assert(dec_chunk_spec(db0@[db0.spec_key(x)]) is Some);
                assert(eng.rows()[k2] == db0@[k2]);
                assert(eng.chunk_at(k2) == Self::rmeta(db0, x));
                assert(Self::rmeta(db0, x).wf_shape());
                assert forall|p: int|
                    0 <= p < eng.chunk_at(k2).location.len() implies valid_slot(
                    g,
                    #[trigger] eng.chunk_at(k2).location[p],
                ) && gbit(g, eng.chunk_at(k2).location[p]) by {
                    assert(Self::before(db0, x, p, nrows, 0));
                    assert(valid_slot(g, Self::rmeta(db0, x).location[p]));
                }
            }
            assert forall|k1: Seq<u8>, p1: int, k2: Seq<u8>, p2: int|
                #![trigger eng.chunk_at(k1).location[p1], eng.chunk_at(k2).location[p2]]
                eng.has_chunk(k1) && eng.has_chunk(k2) && 0 <= p1 < eng.chunk_at(
                    k1,
                ).location.len() && 0 <= p2 < eng.chunk_at(k2).location.len() && (k1 != k2 || p1
                    != p2) implies eng.chunk_at(k1).location[p1] != eng.chunk_at(
                k2,
            ).location[p2] by {
                let x1 = choose|x: int|
                    0 <= x < db0.spec_row_count() && db0.spec_key(x) == k1;
                let x2 = choose|x: int|
                    0 <= x < db0.spec_row_count() && db0.spec_key(x) == k2;
                assert(eng.chunk_at(k1) == Self::rmeta(db0, x1));
                assert(eng.chunk_at(k2) == Self::rmeta(db0, x2));
                assert(Self::before(db0, x1, p1, nrows, 0));
                assert(Self::before(db0, x2, p2, nrows, 0));
                if k1 != k2 {
                    assert(x1 != x2);
                } else {
                    assert(x1 == x2) by {
                        if x1 != x2 {
                            assert(db0.spec_key(x1) != db0.spec_key(x2));
                        }
                    }
                }
            }
            // the striped shards obey the bitmap discipline
            assert(eng.shards_wf()) by {
                assert forall|s: int, t: int|
                    0 <= s < eng.shards@.len() && 0 <= t < eng.shards@[s].tblobs@.len() implies (
                #[trigger] eng.shards@[s].tfree_list@[t]).wf() && eng.shards@[s].tfree_list@[
                    t
                ].spec_size() == BLOB_PAGES && has_blob(g, eng.shards@[s].tblobs@[t]) by {
                    assert(eng.shards@[s].tblobs@[t] == blobs0[s + 4 * t]);
                    assert(g.blobs[s + 4 * t] == eng.shards@[s].tblobs@[t]);
                }
                assert forall|s: int, t1: int, t2: int|
                    #![trigger eng.shards@[s].tblobs@[t1], eng.shards@[s].tblobs@[t2]]
                    0 <= s < eng.shards@.len() && 0 <= t1 < t2 < eng.shards@[s].tblobs@.len()
                        implies eng.shards@[s].tblobs@[t1] != eng.shards@[s].tblobs@[t2] by {
                    assert(eng.shards@[s].tblobs@[t1] == blobs0[s + 4 * t1]);
                    assert(eng.shards@[s].tblobs@[t2] == blobs0[s + 4 * t2]);
                    assert(s + 4 * t1 != s + 4 * t2);
                }
                assert forall|s: int, t: int, i: int|
                    #![trigger eng.shards@[s].tfree_list@[t]@[i]]
                    0 <= s < eng.shards@.len() && 0 <= t < eng.shards@[s].tblobs@.len() && 0 <= i
                        < BLOB_PAGES && !(eng.shards@[s].tfree_list@[t]@[i]) implies !gbit(
                    g,
                    PagePos { bid: eng.shards@[s].tblobs@[t], offset: i as u64 },
                ) by {
                    let bid = eng.shards@[s].tblobs@[t];
                    assert(bid == blobs0[s + 4 * t]);
                    assert(g.blobs[s + 4 * t] == bid);
                    lemma_blob_index_props(g, bid);
                    assert(blob_index(g, bid) == s + 4 * t);
                    assert(eng.shards@[s].tfree_list@[t]@ == g.free_list[s + 4 * t]);
                }
                assert forall|s1: int, t1: int, s2: int, t2: int, i: int|
                    #![trigger eng.shards@[s1].tfree_list@[t1]@[i], eng.shards@[s2].tfree_list@[t2]@[i]]
                    0 <= s1 < eng.shards@.len() && 0 <= t1 < eng.shards@[s1].tblobs@.len() && 0
                        <= s2 < eng.shards@.len() && 0 <= t2 < eng.shards@[s2].tblobs@.len() && (s1
                        != s2 || t1 != t2) && eng.shards@[s1].tblobs@[t1]
                        == eng.shards@[s2].tblobs@[t2] && 0 <= i < BLOB_PAGES implies (
                    eng.shards@[s1].tfree_list@[t1]@[i] || eng.shards@[s2].tfree_list@[t2]@[i]) by {
                    assert(eng.shards@[s1].tblobs@[t1] == blobs0[s1 + 4 * t1]);
                    assert(eng.shards@[s2].tblobs@[t2] == blobs0[s2 + 4 * t2]);
                    assert(s1 + 4 * t1 == s2 + 4 * t2) by {
                        if s1 + 4 * t1 != s2 + 4 * t2 {
                            assert(blobs0[s1 + 4 * t1] != blobs0[s2 + 4 * t2]);
                        }
                    }
                    assert(s1 == s2 && t1 == t2) by (nonlinear_arith)
                        requires
                            s1 + 4 * t1 == s2 + 4 * t2,
                            0 <= s1 < 4,
                            0 <= s2 < 4,
                            0 <= t1,
                            0 <= t2,
                    ;
                }
            }
            assert(eng.wf());
            assert forall|k2: Seq<u8>|
                eng.has_chunk(k2) == (k2 != magic_key_spec() && db0@.contains_key(k2)) by {}
            if rows_csum_ok(db0@, be.dev()) {
                assert forall|k2: Seq<u8>, p: int|
                    #![trigger eng.chunk_at(k2).csum_data[p]]
                    eng.has_chunk(k2) && 0 <= p < eng.chunk_at(k2).location.len() implies
                    eng.chunk_at(k2).csum_data[p] == crc32_of(
                    eng.dev().page_at(eng.chunk_at(k2).location[p]),
                ) by {
                    assert(eng.rows()[k2] == db0@[k2]);
                    assert(eng.chunk_at(k2) == dec_chunk_spec(db0@[k2]).unwrap());
                    assert(dec_chunk_spec(db0@[k2]).unwrap().csum_data[p] == crc32_of(
                        be.dev().page_at(dec_chunk_spec(db0@[k2]).unwrap().location[p]),
                    ));
                }
                assert(eng.csum_ok());
            }
        }
        eng
    }

    /// Get an engine handle: first-time initialization or reload.
    pub fn new(db: DbEngine, blob_engine: BlobEngine, init_blob_size: u64, is_reload: bool) -> (r:
        Result<FileEngine, EngineError>)
        requires
            db.wf(),
            blob_engine.wf(),
            8 <= init_blob_size <= 0x10_0000,
            !is_reload ==> db@ == Map::<Seq<u8>, Seq<u8>>::empty(),
        ensures
            !is_reload || restorable(db@, blob_engine.dev()) ==> r is Ok,
            match r {
                Ok(e) => {
                    &&& e.wf()
                    &&& (!is_reload ==> {
                        &&& e.csum_ok()
                        &&& forall|k: Seq<u8>| !e.has_chunk(k)
                        &&& e.global().blobs.len() == NUM_THREAD
                        &&& e.dev().blob_count() == blob_engine.dev().blob_count() + NUM_THREAD
                        &&& forall|i: int|
                            0 <= i < NUM_THREAD ==> (#[trigger] e.global().blobs[i])
                                < e.dev().blob_count() && e.dev().page_count(
                                e.global().blobs[i] as int,
                            ) == init_blob_size * CLUSTER_SIZE_PAGES
                        &&& forall|i: int, x: int|
                            0 <= i < NUM_THREAD && 0 <= x < BLOB_PAGES ==> !(
                            #[trigger] e.global().free_list[i][x])
                        &&& forall|s: int|
                            0 <= s < NUM_THREAD ==> (#[trigger] e.shard(s)).tblobs@.len() == 1
                                && e.shard(s).tblobs@[0] == e.global().blobs[s]
                                && shard_free_pages(e.shard(s)) == BLOB_PAGES
                        &&& dec_engine_spec(e.rows()[magic_key_spec()]) == Some(e.global())
                    })
                    &&& (is_reload ==> {
                        &&& (forall|k: Seq<u8>|
                            e.has_chunk(k) == (k != magic_key_spec() && db@.contains_key(k)))
                        &&& (forall|k: Seq<u8>| e.has_chunk(k) ==> e.rows()[k] == db@[k])
                        &&& e.dev() == blob_engine.dev()
                        &&& (rows_csum_ok(db@, blob_engine.dev()) ==> e.csum_ok())
                        &&& e.global().blobs == dec_engine_spec(
                            db@[magic_key_spec()],
                        ).unwrap().blobs
                        &&& e.global().device == dec_engine_spec(
                            db@[magic_key_spec()],
                        ).unwrap().device
                        &&& e.global().blob_size == dec_engine_spec(
                            db@[magic_key_spec()],
                        ).unwrap().blob_size
                        &&& forall|pos: PagePos|
                            valid_slot(e.global(), pos) ==> (#[trigger] gbit(e.global(), pos)
                                <==> exists|k2: Seq<u8>, p: int|
                                e.has_chunk(k2) && 0 <= p < e.chunk_at(k2).location.len()
                                    && e.chunk_at(k2).location[p] == pos)
                        &&& forall|s: int|
                            #![trigger e.shard(s).tblobs@.len()]
                            0 <= s < NUM_THREAD ==> s + 4 * e.shard(s).tblobs@.len()
                                >= e.global().blobs.len() && (e.shard(s).tblobs@.len() > 0 ==> s
                                + 4 * (e.shard(s).tblobs@.len() - 1) < e.global().blobs.len())
                        &&& forall|s: int, t: int|
                            #![trigger e.shard(s).tblobs@[t]]
                            #![trigger e.shard(s).tfree_list@[t]]
                            0 <= s < NUM_THREAD && 0 <= t < e.shard(s).tblobs@.len() ==> e.shard(
                                s,
                            ).tblobs@[t] == e.global().blobs[s + 4 * t] && e.shard(
                                s,
                            ).tfree_list@[t]@ == e.global().free_list[s + 4 * t]
                        &&& forall|i: int|
                            #![trigger e.global().blobs[i]]
                            #![trigger e.shard(i % 4).tblobs@[i / 4]]
                            0 <= i < e.global().blobs.len() ==> i / 4 < e.shard(
                                i % 4,
                            ).tblobs@.len() && e.shard(i % 4).tblobs@[i / 4]
                                == e.global().blobs[i]
                        &&& dec_engine_spec(e.rows()[magic_key_spec()]) == Some(e.global())
                    })
                },
                Err(err) => err == EngineError::RestoreFail && is_reload && !restorable(
                    db@,
                    blob_engine.dev(),
                ),
            },
    {
        if is_reload {
            Self::restore(db, blob_engine)
        } else {
            Self::create_me(db, blob_engine, init_blob_size)
        }
    }

    /// Unload the blobstore and hand back the durable state: the metadata
    /// store and the blob service over the device.
    pub fn unload_bs(self) -> (r: (DbEngine, BlobEngine))
        requires
            self.wf(),
        ensures
            r.0.wf(),
            r.1.wf(),
            r.0@ == self.rows(),
            r.1.dev() == self.dev(),
            restorable(r.0@, r.1.dev()),
            self.csum_ok() ==> rows_csum_ok(r.0@, r.1.dev()),
    {
        let FileEngine { db, mut blob_engine, mad_engine, shards, next_shard, magic_key } = self;
        blob_engine.unload();
        proof {
            // what the invariant guarantees is exactly what a reload needs
            assert(db@ == self.rows());
            assert(blob_engine.dev() == self.dev());
            let g = dec_engine_spec(db@[magic_key_spec()]).unwrap();
            assert(g == self.global());
            assert forall|i: int| 0 <= i < g.blobs.len() implies (#[trigger] g.blobs[i])
                < blob_engine.dev().blob_count() && blob_engine.dev().page_count(g.blobs[i] as int)
                >= BLOB_PAGES by {
                assert(self.global().blobs[i] < self.dev().blob_count());
            }
            assert forall|k: Seq<u8>|
                k != magic_key_spec() && #[trigger] db@.contains_key(k) implies dec_chunk_spec(
                db@[k],
            ) is Some by {
                assert(self.has_chunk(k));
            }
            assert forall|k: Seq<u8>, p: int|
                #![trigger dec_chunk_spec(db@[k]).unwrap().location[p]]
                k != magic_key_spec() && db@.contains_key(k) && 0 <= p < dec_chunk_spec(
                    db@[k],
                ).unwrap().location.len() implies (exists|i: int|
                0 <= i < g.blobs.len() && g.blobs[i] == dec_chunk_spec(
                    db@[k],
                ).unwrap().location[p].bid) && dec_chunk_spec(db@[k]).unwrap().location[p].offset
                < BLOB_PAGES by {
                assert(self.has_chunk(k));
                assert(self.chunk_at(k) == dec_chunk_spec(db@[k]).unwrap());
                assert(valid_slot(self.global(), self.chunk_at(k).location[p]));
            }
            assert forall|k1: Seq<u8>, p1: int, k2: Seq<u8>, p2: int|
                #![trigger dec_chunk_spec(db@[k1]).unwrap().location[p1], dec_chunk_spec(db@[k2]).unwrap().location[p2]]
                k1 != magic_key_spec() && db@.contains_key(k1) && k2 != magic_key_spec()
                    && db@.contains_key(k2) && 0 <= p1 < dec_chunk_spec(
                    db@[k1],
                ).unwrap().location.len() && 0 <= p2 < dec_chunk_spec(
                    db@[k2],
                ).unwrap().location.len() && (k1 != k2 || p1 != p2) implies dec_chunk_spec(
                db@[k1],
            ).unwrap().location[p1] != dec_chunk_spec(db@[k2]).unwrap().location[p2] by {
                assert(self.has_chunk(k1) && self.has_chunk(k2));
                assert(self.chunk_at(k1).location[p1] != self.chunk_at(k2).location[p2]);
            }
            assert(restorable(db@, blob_engine.dev()));
            if self.csum_ok() {
                assert forall|kk: Seq<u8>, p: int|
                    #![trigger dec_chunk_spec(db@[kk]).unwrap().csum_data[p]]
                    kk != magic_key_spec() && db@.contains_key(kk) && dec_chunk_spec(
                        db@[kk],
                    ) is Some && 0 <= p < dec_chunk_spec(db@[kk]).unwrap().location.len() implies
                    dec_chunk_spec(db@[kk]).unwrap().csum_data[p] == crc32_of(
                    blob_engine.dev().page_at(dec_chunk_spec(db@[kk]).unwrap().location[p]),
                ) by {
                    assert(self.has_chunk(kk));
                    assert(self.chunk_at(kk) == dec_chunk_spec(db@[kk]).unwrap());
                    assert(self.chunk_at(kk).csum_data[p] == crc32_of(
                        self.dev().page_at(self.chunk_at(kk).location[p]),
                    ));
                }
            }
        }
        (db, blob_engine)
    }

    /// Shut the engine's worker pool down; immediate in this model.
    pub fn close_engine(&mut self) -> (r: Result<(), EngineError>)
        ensures
            *final(self) == *old(self),
            r is Ok,
    {
        Ok(())
    }


    /// Set a chunk's size: truncating drops tail pages from the metadata
    /// (their pages stay marked used, as with `remove`), extending
    /// allocates zeroed pages; past the device's capacity this fails with
    /// `NoSpace`.
    #[verifier::rlimit(100)]
    pub fn resize(&mut self, name: String, new_size: u64) -> (r: Result<(), EngineError>)
        requires
            old(self).wf(),
            new_size <= u64::MAX - PAGE_SIZE,
        ensures
            final(self).wf(),
            old(self).csum_ok() ==> final(self).csum_ok(),
            forall|k2: Seq<u8>| final(self).has_chunk(k2) == old(self).has_chunk(k2),
            ({
                let k = name_key_spec(name@);
                (old(self).has_chunk(k) && (pages_of_size(new_size) <= old(self).chunk_at(
                    k,
                ).location.len() || shard_free_pages(old(self).current_shard()) >= pages_of_size(
                    new_size,
                ) - old(self).chunk_at(k).location.len())) ==> r is Ok
            }),
            ({
                let k = name_key_spec(name@);
                match r {
                    Ok(u) => {
                        &&& old(self).has_chunk(k)
                        &&& final(self).chunk_at(k).size == new_size
                        &&& final(self).chunk_content(k).len() == new_size
                        &&& forall|i: int|
                            0 <= i < new_size && i < old(self).chunk_at(k).size ==> final(self).chunk_content(k)[i] == old(self).chunk_content(k)[i]
                        &&& forall|k2: Seq<u8>|
                            k2 != k && old(self).has_chunk(k2) ==> final(self).chunk_at(k2) == old(self).chunk_at(k2) && final(self).chunk_content(k2) == old(self).chunk_content(k2)
                    },
                    Err(e) => {
                        &&& forall|k2: Seq<u8>|
                            old(self).has_chunk(k2) ==> final(self).chunk_at(k2) == old(self).chunk_at(k2) && final(self).chunk_content(k2) == old(self).chunk_content(k2)
                        &&& (e == EngineError::MetaNotExist <==> !old(self).has_chunk(k))
                        &&& (e == EngineError::MetaNotExist || e == EngineError::NoSpace)
                        &&& (e == EngineError::MetaNotExist ==> final(self).rows() == old(
                            self,
                        ).rows() && final(self).global() == old(self).global() && final(self).dev()
                            == old(self).dev())
                        &&& (e == EngineError::NoSpace ==> pages_of_size(new_size) > old(
                            self,
                        ).chunk_at(k).location.len() && shard_free_pages(old(self).current_shard())
                            < pages_of_size(new_size) - old(self).chunk_at(k).location.len())
                    },
                }
            }),
    {
        let ghost o = *old(self);
        let key = name_key(name.as_str());
        if key == self.magic_key {
            assert(key@ == self.spec_magic_key());
            assert(key@ == magic_key_spec());
            return Err(EngineError::MetaNotExist);
        }
        assert(key@ != magic_key_spec());
        let ghost k = key@;
        let row0 = match self.db.get(&key) {
            None => {
                return Err(EngineError::MetaNotExist);
            },
            Some(b) => b,
        };
        let mut meta = match decode_chunk(&row0) {
            Some(m) => m,
            None => {
                proof {
                    assert(self.has_chunk(k));
                    assert(false);
                }
                return Err(EngineError::MetaNotExist);
            },
        };
        proof {
            meta.lemma_view();
            assert(o.has_chunk(k));
            assert(o.chunk_at(k) == meta@);
            assert(o.chunk_wf(meta@));
        }
        let ghost m0 = o.chunk_at(k);
        let new_pages = pages_for_size(new_size);
        let cur = meta.location.len();
        if new_pages <= cur as u64 {
            // truncate (or resize within the same page count)
            while meta.location.len() as u64 > new_pages
                invariant
                    meta.location@.len() == meta.csum_data@.len(),
                    meta.location@.len() >= new_pages,
                    meta.size == m0.size,
                    meta.csum_type@ == m0.csum_type,
                    forall|x: int|
                        0 <= x < meta.location@.len() ==> meta.location@[x] == m0.location[x]
                            && meta.csum_data@[x] == m0.csum_data[x],
                    m0.location.len() >= meta.location@.len(),
                decreases meta.location@.len(),
            {
                meta.location.pop();
                meta.csum_data.pop();
            }
            meta.size = new_size;
            proof {
                meta.lemma_view();
                assert(meta@.location.len() == new_pages);
                assert(meta@.wf_shape());
            }
            let row = encode_chunk(&meta);
            let ghost m_fin = meta@;
            let ghost pre_put = *self;
            self.db.put(key, row);
            proof {
                self.finish_resize_proof(o, pre_put, k, m0, m_fin, new_size);
            }
            Ok(())
        } else {
            // extend: allocate zeroed pages for the new range
            let need = new_pages - cur as u64;
            let none: Vec<PagePos> = Vec::new();
            let newp = match self.allocate_and_recycle_poses(&none, need) {
                Ok(v) => v,
                Err(e) => {
                    proof {
                        assert(e == EngineError::NoSpace);
                        assert(o.current_shard() == o.shards@[o.next_shard as int]);
                        assert(shard_free_pages(o.current_shard()) < need as int);
                        assert(pages_of_size(new_size) == new_pages);
                        assert(o.chunk_at(k).location.len() == cur);
                        assert forall|k2: Seq<u8>| o.has_chunk(k2) implies self.chunk_at(k2)
                            == o.chunk_at(k2) && self.chunk_content(k2) == o.chunk_content(
                            k2,
                        ) by {
                            assert(self.rows()[k2] == o.rows()[k2]);
                            assert(self.chunk_content(k2) =~= o.chunk_content(k2));
                        }
                        assert forall|k2: Seq<u8>| self.has_chunk(k2) == o.has_chunk(k2) by {}
                        if o.csum_ok() {
                            assert forall|k2: Seq<u8>, p: int|
                                #![trigger self.chunk_at(k2).csum_data[p]]
                                self.has_chunk(k2) && 0 <= p < self.chunk_at(
                                    k2,
                                ).location.len() implies self.chunk_at(k2).csum_data[p] == crc32_of(
                                self.dev().page_at(self.chunk_at(k2).location[p]),
                            ) by {
                                assert(o.has_chunk(k2));
                                assert(self.chunk_at(k2) == o.chunk_at(k2));
                                assert(o.chunk_at(k2).csum_data[p] == crc32_of(
                                    o.dev().page_at(o.chunk_at(k2).location[p]),
                                ));
                            }
                            assert(self.csum_ok());
                        }
                    }
                    return Err(EngineError::NoSpace);
                },
            };
            let ghost mid = *self;
            proof {
                assert(mid.rows() == o.rows().insert(
                    magic_key_spec(),
                    mid.rows()[magic_key_spec()],
                ));
                assert(mid.dev() == o.dev());
                assert(forall|pos: PagePos|
                    valid_slot(o.global(), pos) ==> #[trigger] gbit(mid.global(), pos) == (
                    newp@.contains(pos) || gbit(o.global(), pos)));
            }
            let zp = make_zero_page();
            let h = Hasher::new();
            let zc = h.checksum(zp.as_slice());
            let mut j: usize = 0;
            let nn = newp.len();
            while j < nn
                invariant
                    o.wf(),
                    o == *old(self),
                    j <= nn,
                    nn == newp@.len(),
                    zp@ == zero_page(),
                    zc == crc32_of(zero_page()),
                    self.db == mid.db,
                    self.mad_engine == mid.mad_engine,
                    self.shards == mid.shards,
                    self.next_shard == mid.next_shard,
                    self.magic_key == mid.magic_key,
                    self.blob_engine.wf(),
                    mid.dev() == o.dev(),
                    self.dev().blob_count() == o.dev().blob_count(),
                    forall|b: int|
                        0 <= b < o.dev().blob_count() ==> self.dev().page_count(b)
                            == o.dev().page_count(b),
                    forall|x: int|
                        0 <= x < newp@.len() ==> valid_slot(o.global(), #[trigger] newp@[x])
                            && !gbit(o.global(), newp@[x]),
                    forall|x1: int, x2: int|
                        #![trigger newp@[x1], newp@[x2]]
                        0 <= x1 < x2 < newp@.len() ==> newp@[x1] != newp@[x2],
                    forall|pos: PagePos|
                        #![trigger self.dev().page_at(pos)]
                        o.dev().valid_pos(pos) && !among(newp@, j as int, pos)
                            ==> self.dev().page_at(pos) == o.dev().page_at(pos),
                    forall|x: int|
                        0 <= x < j ==> self.dev().page_at(#[trigger] newp@[x]) == zero_page(),
                decreases nn - j,
            {
                let np = newp[j];
                proof {
                    assert(valid_slot(o.global(), np));
                    o.lemma_slot_on_device(np);
                }
                let ghost devpre = self.dev();
                let rw = self.blob_engine.write(np.offset, np.bid, &zp);
                proof {
                    assert forall|pos: PagePos|
                        #![trigger self.dev().page_at(pos)]
                        o.dev().valid_pos(pos) && !among(newp@, j + 1, pos) implies
                        self.dev().page_at(pos) == o.dev().page_at(pos) by {
                        assert(pos != np) by {
                            assert(newp@[j as int] == np);
                            if pos == np {
                                assert(among(newp@, j + 1, pos));
                            }
                        }
                        assert(!among(newp@, j as int, pos)) by {
                            if among(newp@, j as int, pos) {
                                let x = choose|x: int| 0 <= x < j && newp@[x] == pos;
                                assert(among(newp@, j + 1, pos));
                            }
                        }
                        assert(devpre.page_at(pos) == o.dev().page_at(pos));
                        assert(self.dev().page(pos.bid as int, pos.offset as int) == devpre.page(
                            pos.bid as int,
                            pos.offset as int,
                        ));
                    }
                    assert forall|x: int| 0 <= x < j + 1 implies self.dev().page_at(
                        #[trigger] newp@[x],
                    ) == zero_page() by {
                        if x < j {
                            assert(newp@[x] != np);
                            assert(devpre.page_at(newp@[x]) == zero_page());
                            assert(o.dev().valid_pos(newp@[x])) by {
                                o.lemma_slot_on_device(newp@[x]);
                            }
                            assert(self.dev().page(newp@[x].bid as int, newp@[x].offset as int)
                                == devpre.page(newp@[x].bid as int, newp@[x].offset as int));
                        }
                    }
                }
                j = j + 1;
            }
            // extend the metadata with the new zeroed pages
            let mut t: usize = 0;
            while t < nn
                invariant
                    t <= nn,
                    nn == newp@.len(),
                    zc == crc32_of(zero_page()),
                    meta.location@.len() == cur + t,
                    meta.csum_data@.len() == cur + t,
                    cur == m0.location.len(),
                    meta.size == m0.size,
                    meta.csum_type@ == m0.csum_type,
                    forall|x: int|
                        0 <= x < cur ==> meta.location@[x] == m0.location[x]
                            && meta.csum_data@[x] == m0.csum_data[x],
                    forall|x: int|
                        cur <= x < cur + t ==> meta.location@[x] == newp@[x - cur]
                            && meta.csum_data@[x] == zc,
                decreases nn - t,
            {
                meta.location.push(newp[t]);
                meta.csum_data.push(zc);
                t = t + 1;
            }
            meta.size = new_size;
            proof {
                meta.lemma_view();
                assert(meta@.location.len() == new_pages);
                assert(meta@.wf_shape());
            }
            let row = encode_chunk(&meta);
            let ghost m_fin = meta@;
            let ghost pre_put = *self;
            self.db.put(key, row);
            proof {
                self.finish_resize_extend_proof(
                    o,
                    mid,
                    pre_put,
                    k,
                    m0,
                    m_fin,
                    new_size,
                    newp@,
                );
            }
            Ok(())
        }
    }


    /// One truncating resize leaves the invariant standing and keeps the
    /// surviving bytes.
    #[verifier::rlimit(100)]
    #[verifier::spinoff_prover]
    proof fn finish_resize_proof(
        &self,
        o: FileEngine,
        pre_put: FileEngine,
        k: Seq<u8>,
        m0: ChunkMetaV,
        m_fin: ChunkMetaV,
        new_size: u64,
    )
        requires
            o.wf(),
            k != magic_key_spec(),
            o.has_chunk(k),
            m0 == o.chunk_at(k),
            o.chunk_wf(m0),
            pre_put == o,
            m_fin.size == new_size,
            m_fin.wf_shape(),
            m_fin.location.len() <= m0.location.len(),
            m_fin.csum_data.len() == m_fin.location.len(),
            forall|x: int|
                0 <= x < m_fin.location.len() ==> #[trigger] m_fin.location[x] == m0.location[x]
                    && m_fin.csum_data[x] == m0.csum_data[x],
            self.db.wf(),
            self.rows() == o.rows().insert(k, self.rows()[k]),
            dec_chunk_spec(self.rows()[k]) == Some(m_fin),
            self.blob_engine == o.blob_engine,
            self.mad_engine == o.mad_engine,
            self.shards == o.shards,
            self.next_shard == o.next_shard,
            self.magic_key == o.magic_key,
        ensures
            self.wf(),
            o.csum_ok() ==> self.csum_ok(),
            forall|k2: Seq<u8>| self.has_chunk(k2) == o.has_chunk(k2),
            self.chunk_at(k).size == new_size,
            self.chunk_content(k).len() == new_size,
            forall|i: int|
                0 <= i < new_size && i < m0.size ==> self.chunk_content(k)[i] == o.chunk_content(
                    k,
                )[i],
            forall|k2: Seq<u8>|
                k2 != k && o.has_chunk(k2) ==> self.chunk_at(k2) == o.chunk_at(k2)
                    && self.chunk_content(k2) == o.chunk_content(k2),
    {
        let g = self.global();
        assert(self.chunk_at(k) == m_fin);
        assert forall|k2: Seq<u8>| self.has_chunk(k2) == o.has_chunk(k2) by {}
        assert forall|k2: Seq<u8>|
            k2 != k && o.has_chunk(k2) implies self.chunk_at(k2) == o.chunk_at(k2)
            && self.chunk_content(k2) == o.chunk_content(k2) by {
            assert(self.rows()[k2] == o.rows()[k2]);
            assert(self.chunk_content(k2) =~= o.chunk_content(k2));
        }
        assert forall|k2: Seq<u8>| #[trigger]
            self.has_chunk(k2) implies dec_chunk_spec(self.rows()[k2]) is Some && self.chunk_wf(
            self.chunk_at(k2),
        ) by {
            if k2 == k {
                assert forall|p: int|
                    0 <= p < m_fin.location.len() implies valid_slot(
                    g,
                    #[trigger] m_fin.location[p],
                ) && gbit(g, m_fin.location[p]) by {
                    assert(m_fin.location[p] == m0.location[p]);
                    assert(valid_slot(o.global(), m0.location[p]) && gbit(
                        o.global(),
                        m0.location[p],
                    ));
                }
            } else {
                assert(o.has_chunk(k2));
                assert(self.chunk_at(k2) == o.chunk_at(k2));
                assert(o.chunk_wf(o.chunk_at(k2)));
            }
        }
        assert forall|k1: Seq<u8>, p1: int, k2: Seq<u8>, p2: int|
            #![trigger self.chunk_at(k1).location[p1], self.chunk_at(k2).location[p2]]
            self.has_chunk(k1) && self.has_chunk(k2) && 0 <= p1 < self.chunk_at(
                k1,
            ).location.len() && 0 <= p2 < self.chunk_at(k2).location.len() && (k1 != k2 || p1
                != p2) implies self.chunk_at(k1).location[p1] != self.chunk_at(k2).location[p2] by {
            let q1 = if k1 == k {
                m0.location[p1]
            } else {
                o.chunk_at(k1).location[p1]
            };
            assert(self.chunk_at(k1).location[p1] == o.chunk_at(k1).location[p1]);
            assert(self.chunk_at(k2).location[p2] == o.chunk_at(k2).location[p2]);
            assert(o.chunk_at(k1).location[p1] != o.chunk_at(k2).location[p2]);
        }
        assert forall|s1: int, t1: int, s2: int, t2: int, i: int|
            #![trigger self.shards@[s1].tfree_list@[t1]@[i], self.shards@[s2].tfree_list@[t2]@[i]]
            0 <= s1 < self.shards@.len() && 0 <= t1 < self.shards@[s1].tblobs@.len() && 0 <= s2
                < self.shards@.len() && 0 <= t2 < self.shards@[s2].tblobs@.len() && (s1 != s2 || t1
                != t2) && self.shards@[s1].tblobs@[t1] == self.shards@[s2].tblobs@[t2] && 0 <= i
                < BLOB_PAGES implies (self.shards@[s1].tfree_list@[t1]@[i]
                || self.shards@[s2].tfree_list@[t2]@[i]) by {
            assert(o.shards@[s1].tfree_list@[t1]@[i] || o.shards@[s2].tfree_list@[t2]@[i]);
        }
        assert(self.shards_wf());
        assert(self.wf());
        assert forall|i: int|
            0 <= i < new_size && i < m0.size implies self.chunk_content(k)[i] == o.chunk_content(
            k,
        )[i] by {
            lemma_page_of_index(i);
            let pp = i / 4096;
            assert(0 <= pp < m_fin.location.len()) by {
                assert((m_fin.size - 1) as int / 4096 < pages_of_size(m_fin.size))
                    by (nonlinear_arith)
                    requires
                        0 < m_fin.size <= u64::MAX,
                ;
                lemma_div_le(i, m_fin.size - 1);
            }
            assert(m_fin.location[pp] == m0.location[pp]);
        }
        if o.csum_ok() {
            assert forall|k2: Seq<u8>, p: int|
                #![trigger self.chunk_at(k2).csum_data[p]]
                self.has_chunk(k2) && 0 <= p < self.chunk_at(k2).location.len() implies
                self.chunk_at(k2).csum_data[p] == crc32_of(
                self.dev().page_at(self.chunk_at(k2).location[p]),
            ) by {
                if k2 == k {
                    assert(self.chunk_at(k2) == m_fin);
                    assert(0 <= p < m_fin.location.len());
                    assert(m_fin.location[p] == m0.location[p]);
                    assert(m_fin.csum_data[p] == m0.csum_data[p]);
                    assert(o.chunk_at(k).csum_data[p] == crc32_of(
                        o.dev().page_at(o.chunk_at(k).location[p]),
                    ));
                } else {
                    assert(o.has_chunk(k2));
                    assert(o.chunk_at(k2).csum_data[p] == crc32_of(
                        o.dev().page_at(o.chunk_at(k2).location[p]),
                    ));
                }
            }
            assert(self.csum_ok());
        }
    }

    /// One extending resize leaves the invariant standing, keeps every
    /// old byte and checksums the new zeroed pages correctly.
    #[verifier::rlimit(100)]
    #[verifier::spinoff_prover]
    proof fn finish_resize_extend_proof(
        &self,
        o: FileEngine,
        mid: FileEngine,
        pre_put: FileEngine,
        k: Seq<u8>,
        m0: ChunkMetaV,
        m_fin: ChunkMetaV,
        new_size: u64,
        newp: Seq<PagePos>,
    )
        requires
            o.wf(),
            k != magic_key_spec(),
            o.has_chunk(k),
            m0 == o.chunk_at(k),
            o.chunk_wf(m0),
            // the allocation round
            mid.db.wf(),
            mid.global().wf_shape(),
            mid.mad_engine.lists_wf(),
            mid.global().blobs == o.global().blobs,
            mid.shards_wf(),
            mid.next_shard < NUM_THREAD,
            mid.spec_magic_key() == magic_key_spec(),
            mid.dev() == o.dev(),
            mid.rows() == o.rows().insert(magic_key_spec(), mid.rows()[magic_key_spec()]),
            mid.rows().contains_key(magic_key_spec()),
            dec_engine_spec(mid.rows()[magic_key_spec()]) == Some(mid.global()),
            forall|x: int|
                0 <= x < newp.len() ==> valid_slot(o.global(), #[trigger] newp[x]) && !gbit(
                    o.global(),
                    newp[x],
                ),
            forall|x1: int, x2: int|
                #![trigger newp[x1], newp[x2]]
                0 <= x1 < x2 < newp.len() ==> newp[x1] != newp[x2],
            forall|pos: PagePos|
                valid_slot(o.global(), pos) ==> #[trigger] gbit(mid.global(), pos) == (
                newp.contains(pos) || gbit(o.global(), pos)),
            // the zero-fill loop
            pre_put.db == mid.db,
            pre_put.mad_engine == mid.mad_engine,
            pre_put.shards == mid.shards,
            pre_put.next_shard == mid.next_shard,
            pre_put.magic_key == mid.magic_key,
            pre_put.blob_engine.wf(),
            pre_put.dev().blob_count() == o.dev().blob_count(),
            forall|b: int|
                0 <= b < o.dev().blob_count() ==> pre_put.dev().page_count(b)
                    == o.dev().page_count(b),
            forall|pos: PagePos|
                #![trigger pre_put.dev().page_at(pos)]
                o.dev().valid_pos(pos) && !among(newp, newp.len() as int, pos)
                    ==> pre_put.dev().page_at(pos) == o.dev().page_at(pos),
            forall|x: int|
                0 <= x < newp.len() ==> pre_put.dev().page_at(#[trigger] newp[x]) == zero_page(),
            // the updated metadata row
            m_fin.size == new_size,
            m_fin.wf_shape(),
            m_fin.location.len() == m0.location.len() + newp.len(),
            m_fin.csum_data.len() == m_fin.location.len(),
            forall|x: int|
                0 <= x < m0.location.len() ==> #[trigger] m_fin.location[x] == m0.location[x]
                    && m_fin.csum_data[x] == m0.csum_data[x],
            forall|x: int|
                m0.location.len() <= x < m_fin.location.len() ==> #[trigger] m_fin.location[x]
                    == newp[x - m0.location.len()] && m_fin.csum_data[x] == crc32_of(zero_page()),
            // the final state is pre_put with the chunk row replaced
            self.db.wf(),
            self.rows() == pre_put.rows().insert(k, self.rows()[k]),
            dec_chunk_spec(self.rows()[k]) == Some(m_fin),
            self.blob_engine == pre_put.blob_engine,
            self.mad_engine == pre_put.mad_engine,
            self.shards == pre_put.shards,
            self.next_shard == pre_put.next_shard,
            self.magic_key == pre_put.magic_key,
        ensures
            self.wf(),
            o.csum_ok() ==> self.csum_ok(),
            forall|k2: Seq<u8>| self.has_chunk(k2) == o.has_chunk(k2),
            self.chunk_at(k).size == new_size,
            self.chunk_content(k).len() == new_size,
            forall|i: int|
                0 <= i < new_size && i < m0.size ==> self.chunk_content(k)[i] == o.chunk_content(
                    k,
                )[i],
            forall|k2: Seq<u8>|
                k2 != k && o.has_chunk(k2) ==> self.chunk_at(k2) == o.chunk_at(k2)
                    && self.chunk_content(k2) == o.chunk_content(k2),
    {
        let g = self.global();
        assert(self.global() == mid.global());
        assert(self.dev() == pre_put.dev());
        assert(self.chunk_at(k) == m_fin);
        assert forall|k2: Seq<u8>| self.has_chunk(k2) == o.has_chunk(k2) by {}
        assert forall|k2: Seq<u8>, p: int|
            k2 != k && o.has_chunk(k2) && 0 <= p < o.chunk_at(k2).location.len() implies !(
        #[trigger] among(newp, newp.len() as int, o.chunk_at(k2).location[p])) && o.dev().valid_pos(
            o.chunk_at(k2).location[p],
        ) && self.dev().page_at(o.chunk_at(k2).location[p]) == o.dev().page_at(
            o.chunk_at(k2).location[p],
        ) by {
            let pos2 = o.chunk_at(k2).location[p];
            assert(valid_slot(o.global(), pos2) && gbit(o.global(), pos2));
            o.lemma_slot_on_device(pos2);
            assert(!among(newp, newp.len() as int, pos2)) by {
                if among(newp, newp.len() as int, pos2) {
                    let w = choose|w: int| 0 <= w < newp.len() && newp[w] == pos2;
                    assert(!gbit(o.global(), newp[w]));
                }
            }
        }
        assert forall|k2: Seq<u8>|
            k2 != k && o.has_chunk(k2) implies self.chunk_at(k2) == o.chunk_at(k2)
            && self.chunk_content(k2) == o.chunk_content(k2) by {
            assert(self.rows()[k2] == o.rows()[k2]);
            assert forall|i: int| 0 <= i < o.chunk_at(k2).size implies self.chunk_content(k2)[i]
                == o.chunk_content(k2)[i] by {
                lemma_page_of_index(i);
                let pp = i / 4096;
                assert(0 <= pp < o.chunk_at(k2).location.len()) by {
                    assert(o.chunk_wf(o.chunk_at(k2)));
                    assert((o.chunk_at(k2).size - 1) as int / 4096 < pages_of_size(
                        o.chunk_at(k2).size,
                    )) by (nonlinear_arith)
                        requires
                            0 < o.chunk_at(k2).size <= u64::MAX,
                    ;
                    lemma_div_le(i, o.chunk_at(k2).size - 1);
                }
            }
            assert(self.chunk_content(k2) =~= o.chunk_content(k2));
        }
        assert forall|k2: Seq<u8>| #[trigger]
            self.has_chunk(k2) implies dec_chunk_spec(self.rows()[k2]) is Some && self.chunk_wf(
            self.chunk_at(k2),
        ) by {
            if k2 == k {
                assert forall|p: int|
                    0 <= p < m_fin.location.len() implies valid_slot(
                    g,
                    #[trigger] m_fin.location[p],
                ) && gbit(g, m_fin.location[p]) by {
                    if p < m0.location.len() {
                        assert(m_fin.location[p] == m0.location[p]);
                        assert(valid_slot(o.global(), m0.location[p]) && gbit(
                            o.global(),
                            m0.location[p],
                        ));
                    } else {
                        assert(m_fin.location[p] == newp[p - m0.location.len()]);
                        assert(valid_slot(o.global(), newp[p - m0.location.len()]));
                        assert(newp.contains(newp[p - m0.location.len()]));
                    }
                }
            } else {
                assert(o.has_chunk(k2));
                assert(self.chunk_at(k2) == o.chunk_at(k2));
                assert(o.chunk_wf(o.chunk_at(k2)));
                assert forall|p: int|
                    0 <= p < self.chunk_at(k2).location.len() implies valid_slot(
                    g,
                    #[trigger] self.chunk_at(k2).location[p],
                ) && gbit(g, self.chunk_at(k2).location[p]) by {
                    assert(valid_slot(o.global(), o.chunk_at(k2).location[p]));
                }
            }
        }
        assert forall|k1: Seq<u8>, p1: int, k2: Seq<u8>, p2: int|
            #![trigger self.chunk_at(k1).location[p1], self.chunk_at(k2).location[p2]]
            self.has_chunk(k1) && self.has_chunk(k2) && 0 <= p1 < self.chunk_at(
                k1,
            ).location.len() && 0 <= p2 < self.chunk_at(k2).location.len() && (k1 != k2 || p1
                != p2) implies self.chunk_at(k1).location[p1] != self.chunk_at(k2).location[p2] by {
            let c1 = m0.location.len() as int;
            if k1 == k && k2 == k {
                if p1 >= c1 && p2 >= c1 {
                    assert(self.chunk_at(k1).location[p1] == newp[p1 - c1]);
                    assert(self.chunk_at(k2).location[p2] == newp[p2 - c1]);
                } else if p1 >= c1 {
                    assert(!gbit(o.global(), newp[p1 - c1]) && gbit(o.global(), m0.location[p2]));
                } else if p2 >= c1 {
                    assert(gbit(o.global(), m0.location[p1]) && !gbit(o.global(), newp[p2 - c1]));
                } else {
                    assert(o.chunk_at(k).location[p1] != o.chunk_at(k).location[p2]);
                }
            } else if k1 == k {
                assert(gbit(o.global(), o.chunk_at(k2).location[p2]));
                if p1 >= c1 {
                    assert(!gbit(o.global(), newp[p1 - c1]));
                } else {
                    assert(o.chunk_at(k).location[p1] != o.chunk_at(k2).location[p2]);
                }
            } else if k2 == k {
                assert(gbit(o.global(), o.chunk_at(k1).location[p1]));
                if p2 >= c1 {
                    assert(!gbit(o.global(), newp[p2 - c1]));
                } else {
                    assert(o.chunk_at(k1).location[p1] != o.chunk_at(k).location[p2]);
                }
            } else {
                assert(o.chunk_at(k1).location[p1] != o.chunk_at(k2).location[p2]);
            }
        }
        assert(self.wf());
        assert forall|i: int|
            0 <= i < new_size && i < m0.size implies self.chunk_content(k)[i] == o.chunk_content(
            k,
        )[i] by {
            lemma_page_of_index(i);
            let pp = i / 4096;
            assert(0 <= pp < m0.location.len()) by {
                assert((m0.size - 1) as int / 4096 < pages_of_size(m0.size)) by (nonlinear_arith)
                    requires
                        0 < m0.size <= u64::MAX,
                ;
                lemma_div_le(i, m0.size - 1);
            }
            assert(m_fin.location[pp] == m0.location[pp]);
            assert(!among(newp, newp.len() as int, m0.location[pp])) by {
                if among(newp, newp.len() as int, m0.location[pp]) {
                    let w = choose|w: int| 0 <= w < newp.len() && newp[w] == m0.location[pp];
                    assert(!gbit(o.global(), newp[w]));
                    assert(gbit(o.global(), m0.location[pp]));
                }
            }
            assert(o.dev().valid_pos(m0.location[pp])) by {
                o.lemma_slot_on_device(m0.location[pp]);
            }
            assert(self.dev().page_at(m0.location[pp]) == o.dev().page_at(m0.location[pp]));
        }
        if o.csum_ok() {
            assert forall|k2: Seq<u8>, p: int|
                #![trigger self.chunk_at(k2).csum_data[p]]
                self.has_chunk(k2) && 0 <= p < self.chunk_at(k2).location.len() implies
                self.chunk_at(k2).csum_data[p] == crc32_of(
                self.dev().page_at(self.chunk_at(k2).location[p]),
            ) by {
                if k2 == k {
                    let c1 = m0.location.len() as int;
                    if p < c1 {
                        assert(m_fin.location[p] == m0.location[p] && m_fin.csum_data[p]
                            == m0.csum_data[p]);
                        assert(o.chunk_at(k).csum_data[p] == crc32_of(
                            o.dev().page_at(o.chunk_at(k).location[p]),
                        ));
                        assert(!among(newp, newp.len() as int, m0.location[p])) by {
                            if among(newp, newp.len() as int, m0.location[p]) {
                                let w = choose|w: int|
                                    0 <= w < newp.len() && newp[w] == m0.location[p];
                                assert(!gbit(o.global(), newp[w]));
                                assert(gbit(o.global(), m0.location[p]));
                            }
                        }
                        assert(o.dev().valid_pos(m0.location[p])) by {
                            o.lemma_slot_on_device(m0.location[p]);
                        }
                        assert(self.dev().page_at(m0.location[p]) == o.dev().page_at(
                            m0.location[p],
                        ));
                    } else {
                        assert(m_fin.location[p] == newp[p - c1]);
                        assert(m_fin.csum_data[p] == crc32_of(zero_page()));
                        assert(pre_put.dev().page_at(newp[p - c1]) == zero_page());
                    }
                } else {
                    assert(o.has_chunk(k2));
                    assert(self.chunk_at(k2) == o.chunk_at(k2));
                    assert(o.chunk_at(k2).csum_data[p] == crc32_of(
                        o.dev().page_at(o.chunk_at(k2).location[p]),
                    ));
                }
            }
            assert(self.csum_ok());
        }
    }


    /// Flip one byte of a physical page: a fault-injection hook for
    /// exercising checksum verification on later reads.
    pub fn corrupt_page(&mut self, bid: u64, offset: u64, i: usize)
        requires
            old(self).wf(),
            bid < old(self).dev().blob_count(),
            offset < old(self).dev().page_count(bid as int),
            i < PAGE_SIZE,
        ensures
            final(self).wf(),
            final(self).rows() == old(self).rows(),
            final(self).global() == old(self).global(),
            forall|k2: Seq<u8>| final(self).has_chunk(k2) == old(self).has_chunk(k2),
            final(self).dev().blob_count() == old(self).dev().blob_count(),
            forall|b: int|
                0 <= b < old(self).dev().blob_count() ==> final(self).dev().page_count(b) == old(
                    self,
                ).dev().page_count(b),
            final(self).dev().page_at(PagePos { bid, offset }) == old(self).dev().page_at(
                PagePos { bid, offset },
            ).update(
                i as int,
                old(self).dev().page_at(PagePos { bid, offset })[i as int] ^ 0xff,
            ),
            forall|pos: PagePos|
                #![trigger final(self).dev().page_at(pos)]
                old(self).dev().valid_pos(pos) && pos != (PagePos { bid, offset })
                    ==> final(self).dev().page_at(pos) == old(self).dev().page_at(pos),
    {
        proof {
            self.blob_engine.lemma_dev();
        }
        self.blob_engine.bs.corrupt_byte(bid, offset, i);
        proof {
            self.blob_engine.lemma_dev();
            let o = *old(self);
            assert forall|pos: PagePos|
                #![trigger self.dev().page_at(pos)]
                o.dev().valid_pos(pos) && pos != (PagePos { bid, offset }) implies
                self.dev().page_at(pos) == o.dev().page_at(pos) by {
                assert(self.dev().page(pos.bid as int, pos.offset as int) == o.dev().page(
                    pos.bid as int,
                    pos.offset as int,
                ));
            }
            assert forall|k2: Seq<u8>| #[trigger]
                self.has_chunk(k2) implies dec_chunk_spec(self.rows()[k2]) is Some
                && self.chunk_wf(self.chunk_at(k2)) by {
                assert(o.has_chunk(k2));
                assert(o.chunk_wf(o.chunk_at(k2)));
            }
            assert forall|k1: Seq<u8>, p1: int, k2: Seq<u8>, p2: int|
                #![trigger self.chunk_at(k1).location[p1], self.chunk_at(k2).location[p2]]
                self.has_chunk(k1) && self.has_chunk(k2) && 0 <= p1 < self.chunk_at(
                    k1,
                ).location.len() && 0 <= p2 < self.chunk_at(k2).location.len() && (k1 != k2 || p1
                    != p2) implies self.chunk_at(k1).location[p1] != self.chunk_at(
                k2,
            ).location[p2] by {
                assert(o.chunk_at(k1).location[p1] != o.chunk_at(k2).location[p2]);
            }
            assert forall|s1: int, t1: int, s2: int, t2: int, i2: int|
                #![trigger self.shards@[s1].tfree_list@[t1]@[i2], self.shards@[s2].tfree_list@[t2]@[i2]]
                0 <= s1 < self.shards@.len() && 0 <= t1 < self.shards@[s1].tblobs@.len() && 0 <= s2
                    < self.shards@.len() && 0 <= t2 < self.shards@[s2].tblobs@.len() && (s1 != s2
                    || t1 != t2) && self.shards@[s1].tblobs@[t1] == self.shards@[s2].tblobs@[t2]
                    && 0 <= i2 < BLOB_PAGES implies (self.shards@[s1].tfree_list@[t1]@[i2]
                    || self.shards@[s2].tfree_list@[t2]@[i2]) by {
                assert(o.shards@[s1].tfree_list@[t1]@[i2] || o.shards@[s2].tfree_list@[t2]@[i2]);
            }
            assert(self.shards_wf());
            assert(self.wf());
        }
    }

    /// Report a chunk's size and checksum algorithm.
    pub fn stat(&self, name: String) -> (r: Result<StatMeta, EngineError>)
        requires
            self.wf(),
        ensures
            ({
                let k = name_key_spec(name@);
                match r {
                    Ok(st) => self.has_chunk(k) && st.size == self.chunk_at(k).size
                        && st.csum_type@ == self.chunk_at(k).csum_type,
                    Err(e) => e == EngineError::MetaNotExist && !self.has_chunk(k),
                }
            }),
    {
        let key = name_key(name.as_str());
        if key == self.magic_key {
            assert(key@ == self.spec_magic_key());
            assert(key@ == magic_key_spec());
            return Err(EngineError::MetaNotExist);
        }
        assert(key@ != magic_key_spec());
        let row = self.db.get(&key);
        match row {
            None => Err(EngineError::MetaNotExist),
            Some(bytes) => {
                let meta = decode_chunk(&bytes);
                match meta {
                    Some(m) => {
                        proof {
                            m.lemma_view();
                        }
                        Ok(StatMeta { size: m.get_size(), csum_type: m.csum_type })
                    },
                    None => {
                        proof {
                            assert(self.has_chunk(key@));
                            assert(false);
                        }
                        Err(EngineError::MetaNotExist)
                    },
                }
            },
        }
    }
}

/// Law: writing a fresh chunk at offset zero and reading the written
/// range back yields the data: the content after the write is the data
/// itself.
pub proof fn lemma_round_trip_within_page(data: Seq<u8>)
    ensures
        overwrite(Seq::<u8>::empty(), 0, data).subrange(0, data.len() as int) == data,
{
    assert(overwrite(Seq::<u8>::empty(), 0, data).subrange(0, data.len() as int) =~= data);
}

/// Law: after writing `data` into a fresh chunk at offset zero, a read of
/// any byte range returns that slice of `data`, also across page
/// boundaries.
pub proof fn lemma_cross_boundary_round_trip(data: Seq<u8>, a: int, b: int)
    requires
        0 <= a <= b <= data.len(),
    ensures
        overwrite(Seq::<u8>::empty(), 0, data).subrange(a, b) == data.subrange(a, b),
{
    assert(overwrite(Seq::<u8>::empty(), 0, data).subrange(a, b) =~= data.subrange(a, b));
}

/// Law: a write at a smaller offset that partially overlaps existing
/// bytes replaces exactly the bytes it covers and preserves every byte
/// after its end.
pub proof fn lemma_overwrite_semantics(c0: Seq<u8>, off: int, d: Seq<u8>, i: int)
    requires
        0 <= off,
        off + d.len() <= c0.len(),
        0 <= i < c0.len(),
    ensures
        overwrite(c0, off, d).len() == c0.len(),
        off <= i < off + d.len() ==> overwrite(c0, off, d)[i] == d[i - off],
        !(off <= i < off + d.len()) ==> overwrite(c0, off, d)[i] == c0[i],
{
}

/// Law: across any sequence of operations that keeps the engine
/// invariant, no two live logical pages of any chunks map to the same
/// physical page.
pub proof fn lemma_allocator_disjointness(
    e: &FileEngine,
    k1: Seq<u8>,
    p1: int,
    k2: Seq<u8>,
    p2: int,
)
    requires
        e.wf(),
        e.has_chunk(k1),
        e.has_chunk(k2),
        0 <= p1 < e.chunk_at(k1).location.len(),
        0 <= p2 < e.chunk_at(k2).location.len(),
        k1 != k2 || p1 != p2,
    ensures
        e.chunk_at(k1).location[p1] != e.chunk_at(k2).location[p2],
{
}

/// Law: every stored chunk's metadata is in shape: one physical position
/// and one checksum per logical page of its size.
pub proof fn lemma_chunk_shape(e: &FileEngine, k: Seq<u8>)
    requires
        e.wf(),
        e.has_chunk(k),
    ensures
        e.chunk_at(k).location.len() == pages_of_size(e.chunk_at(k).size),
        e.chunk_at(k).csum_data.len() == e.chunk_at(k).location.len(),
        e.chunk_at(k).csum_type == "crc32"@ || e.chunk_at(k).csum_type == "CRC32"@,
{
}

/// Law: a page position that is free in the global list is not mapped
/// by any live chunk page, so pages the allocator hands out (which were
/// free) never collide with live data.
pub proof fn lemma_fresh_pages_are_unused(e: &FileEngine, pos: PagePos, k: Seq<u8>, p: int)
    requires
        e.wf(),
        valid_slot(e.global(), pos),
        !gbit(e.global(), pos),
        e.has_chunk(k),
        0 <= p < e.chunk_at(k).location.len(),
    ensures
        pos != e.chunk_at(k).location[p],
{
    assert(gbit(e.global(), e.chunk_at(k).location[p]));
}

/// Law: the size reported by `stat` is the size tracked by the most
/// recent metadata row, so after a write it is the written extent.
pub proof fn lemma_stat_tracks_size(e: &FileEngine, k: Seq<u8>)
    requires
        e.wf(),
        e.has_chunk(k),
    ensures
        e.chunk_content(k).len() == e.chunk_at(k).size,
{
}

} // verus!
