//! The stable byte format of the metadata rows kept in the key-value
//! store: one row per chunk, and one row for the global engine metadata.
//!
//! A chunk row is `size (8) | tag (1) | page count n (8) | n positions
//! (16 each) | n checksums (4 each)`; the tag selects the checksum label.
//! The engine row is `blob count n (8) | n blob ids (8 each) | device
//! record (32) | blob size (8) | n bitmaps (256 each)`. All integers are
//! little-endian.

use vstd::prelude::*;
use vstd::bytes::lemma_auto_spec_u32_to_from_le_bytes;
use vstd::bytes::lemma_auto_spec_u64_to_from_le_bytes;
use vstd::bytes::spec_u32_from_le_bytes;
use vstd::bytes::spec_u32_to_le_bytes;
use vstd::bytes::spec_u64_from_le_bytes;
use vstd::bytes::spec_u64_to_le_bytes;
use vstd::bytes::u32_from_le_bytes;
use vstd::bytes::u32_to_le_bytes;
use vstd::bytes::u64_from_le_bytes;
use vstd::bytes::u64_to_le_bytes;
use vstd::slice::slice_subrange;

use crate::common::ChunkMeta;
use crate::common::MadEngine;
use crate::common::MadEngineV;
use crate::utils::bits_of_enc;
use crate::utils::BitMap;
use crate::utils::BLOB_PAGES;
use crate::common::ChunkMetaV;
use crate::common::DeviceInfo;
use crate::common::pages_for_size;
use crate::common::pages_of_size;
use crate::common::PagePos;

verus! {

/// The u64 stored little-endian at byte offset `at`.
pub open spec fn le64_at(s: Seq<u8>, at: int) -> u64 {
    spec_u64_from_le_bytes(s.subrange(at, at + 8))
}

/// The u32 stored little-endian at byte offset `at`.
pub open spec fn le32_at(s: Seq<u8>, at: int) -> u32 {
    spec_u32_from_le_bytes(s.subrange(at, at + 4))
}

/// What a chunk row decodes to; `None` for bytes no encoder produces.
pub open spec fn dec_chunk_spec(s: Seq<u8>) -> Option<ChunkMetaV> {
    if s.len() < 17 {
        None
    } else {
        let size = le64_at(s, 0);
        let tag = s[8];
        let n = le64_at(s, 9) as int;
        if tag > 1 || n != pages_of_size(size) || s.len() != 17 + 20 * n {
            None
        } else {
            Some(
                ChunkMetaV {
                    size,
                    csum_type: if tag == 1 {
                        "CRC32"@
                    } else {
                        "crc32"@
                    },
                    location: Seq::new(
                        n as nat,
                        |i: int|
                            PagePos {
                                bid: le64_at(s, 17 + 16 * i),
                                offset: le64_at(s, 17 + 16 * i + 8),
                            },
                    ),
                    csum_data: Seq::new(n as nat, |i: int| le32_at(s, 17 + 16 * n + 4 * i)),
                },
            )
        }
    }
}

/// Append the little-endian bytes of a u64.
fn push_u64(out: &mut Vec<u8>, x: u64)
    ensures
        final(out)@ == old(out)@ + spec_u64_to_le_bytes(x),
{
    let mut b = u64_to_le_bytes(x);
    out.append(&mut b);
}

/// Append the little-endian bytes of a u32.
fn push_u32(out: &mut Vec<u8>, x: u32)
    ensures
        final(out)@ == old(out)@ + spec_u32_to_le_bytes(x),
{
    let mut b = u32_to_le_bytes(x);
    out.append(&mut b);
}

/// Read the u64 stored at byte offset `at`.
fn read_u64(bytes: &Vec<u8>, at: usize) -> (r: u64)
    requires
        at + 8 <= bytes@.len(),
    ensures
        r == le64_at(bytes@, at as int),
{
    let l = bytes.len();
    let sl = slice_subrange(bytes.as_slice(), at, at + 8);
    u64_from_le_bytes(sl)
}

/// Read the u32 stored at byte offset `at`.
fn read_u32(bytes: &Vec<u8>, at: usize) -> (r: u32)
    requires
        at + 4 <= bytes@.len(),
    ensures
        r == le32_at(bytes@, at as int),
{
    let l = bytes.len();
    let sl = slice_subrange(bytes.as_slice(), at, at + 4);
    u32_from_le_bytes(sl)
}

/// Encode a chunk metadata row; the row decodes back to the same value.
pub fn encode_chunk(m: &ChunkMeta) -> (r: Vec<u8>)
    requires
        m@.wf_shape(),
    ensures
        dec_chunk_spec(r@) == Some(m@),
        r@.len() == 17 + 20 * m@.location.len(),
{
    proof {
        lemma_auto_spec_u64_to_from_le_bytes();
        lemma_auto_spec_u32_to_from_le_bytes();
        m.lemma_view();
    }
    let n = m.location.len();
    let upper = String::from_str("CRC32");
    let tag: u8 = if m.csum_type == upper {
        1
    } else {
        0
    };
    let mut out: Vec<u8> = Vec::new();
    push_u64(&mut out, m.size);
    out.push(tag);
    push_u64(&mut out, n as u64);
    assert(out@.len() == 17);
    assert(out@.subrange(0, 8) =~= spec_u64_to_le_bytes(m.size));
    assert(out@.subrange(9, 17) =~= spec_u64_to_le_bytes(n as u64));
    assert(out@[8] == tag);
    let ghost header = out@;
    let mut i: usize = 0;
    while i < n
        invariant
            i <= n,
            n == m@.location.len(),
            out@.len() == 17 + 16 * i,
            out@.subrange(0, 17) == header,
            header.len() == 17,
            forall|k: int|
                0 <= k < i ==> out@.subrange(17 + 16 * k, 17 + 16 * k + 8)
                    == spec_u64_to_le_bytes((#[trigger] m@.location[k]).bid),
            forall|k: int|
                0 <= k < i ==> out@.subrange(17 + 16 * k + 8, 17 + 16 * k + 16)
                    == spec_u64_to_le_bytes((#[trigger] m@.location[k]).offset),
        decreases n - i,
    {
        proof {
            m.lemma_view();
            lemma_auto_spec_u64_to_from_le_bytes();
        }
        let ghost prev = out@;
        let p = m.location[i];
        push_u64(&mut out, p.bid);
        push_u64(&mut out, p.offset);
        proof {
            assert(out@.subrange(0, 17) =~= prev.subrange(0, 17));
            assert forall|k: int| 0 <= k < i + 1 implies out@.subrange(
                17 + 16 * k,
                17 + 16 * k + 8,
            ) == spec_u64_to_le_bytes((#[trigger] m@.location[k]).bid) by {
                if k < i {
                    assert(out@.subrange(17 + 16 * k, 17 + 16 * k + 8) =~= prev.subrange(
                        17 + 16 * k,
                        17 + 16 * k + 8,
                    ));
                } else {
                    assert(out@.subrange(17 + 16 * k, 17 + 16 * k + 8) =~= spec_u64_to_le_bytes(
                        m@.location[k].bid,
                    ));
                }
            }
            assert forall|k: int| 0 <= k < i + 1 implies out@.subrange(
                17 + 16 * k + 8,
                17 + 16 * k + 16,
            ) == spec_u64_to_le_bytes((#[trigger] m@.location[k]).offset) by {
                if k < i {
                    assert(out@.subrange(17 + 16 * k + 8, 17 + 16 * k + 16) =~= prev.subrange(
                        17 + 16 * k + 8,
                        17 + 16 * k + 16,
                    ));
                } else {
                    assert(out@.subrange(17 + 16 * k + 8, 17 + 16 * k + 16)
                        =~= spec_u64_to_le_bytes(m@.location[k].offset));
                }
            }
        }
        i = i + 1;
    }
    let ghost mid = out@;
    let mut j: usize = 0;
    while j < n
        invariant
            j <= n,
            n == m@.csum_data.len(),
            mid.len() == 17 + 16 * n,
            out@.len() == 17 + 16 * n + 4 * j,
            out@.subrange(0, mid.len() as int) == mid,
            forall|k: int|
                0 <= k < j ==> out@.subrange(17 + 16 * n + 4 * k, 17 + 16 * n + 4 * k + 4)
                    == spec_u32_to_le_bytes(#[trigger] m@.csum_data[k]),
        decreases n - j,
    {
        proof {
            m.lemma_view();
            lemma_auto_spec_u32_to_from_le_bytes();
        }
        let ghost prev = out@;
        push_u32(&mut out, m.csum_data[j]);
        proof {
            assert(out@.subrange(0, mid.len() as int) =~= prev.subrange(0, mid.len() as int));
            assert forall|k: int| 0 <= k < j + 1 implies out@.subrange(
                17 + 16 * n + 4 * k,
                17 + 16 * n + 4 * k + 4,
            ) == spec_u32_to_le_bytes(#[trigger] m@.csum_data[k]) by {
                if k < j {
                    assert(out@.subrange(17 + 16 * n + 4 * k, 17 + 16 * n + 4 * k + 4)
                        =~= prev.subrange(17 + 16 * n + 4 * k, 17 + 16 * n + 4 * k + 4));
                } else {
                    assert(out@.subrange(17 + 16 * n + 4 * k, 17 + 16 * n + 4 * k + 4)
                        =~= spec_u32_to_le_bytes(m@.csum_data[k]));
                }
            }
        }
        j = j + 1;
    }
    proof {
        let s = out@;
        assert(s.len() == 17 + 20 * n);
        assert(s.subrange(0, mid.len() as int) == mid);
        assert(s.subrange(0, 17) =~= mid.subrange(0, 17));
        assert(mid.subrange(0, 17) == header);
        assert(s.subrange(0, 8) =~= header.subrange(0, 8));
        assert(s.subrange(9, 17) =~= header.subrange(9, 17));
        assert(le64_at(s, 0) == m@.size);
        assert(s[8] == s.subrange(0, 17)[8]);
        assert(s[8] == tag);
        assert(le64_at(s, 9) == n as u64);
        let v = dec_chunk_spec(s).unwrap();
        assert forall|k: int| 0 <= k < n implies v.location[k] == m@.location[k] by {
            assert(s.subrange(17 + 16 * k, 17 + 16 * k + 8) == mid.subrange(
                17 + 16 * k,
                17 + 16 * k + 8,
            ));
            assert(s.subrange(17 + 16 * k + 8, 17 + 16 * k + 16) == mid.subrange(
                17 + 16 * k + 8,
                17 + 16 * k + 16,
            ));
        }
        assert(v.location =~= m@.location);
        assert(v.csum_data =~= m@.csum_data);
        if tag == 1 {
            assert(m@.csum_type == "CRC32"@);
        } else {
            assert(m@.csum_type == "crc32"@);
        }
        assert(v =~= m@);
    }
    out
}

/// Decode a chunk metadata row; agrees exactly with `dec_chunk_spec`.
pub fn decode_chunk(bytes: &Vec<u8>) -> (r: Option<ChunkMeta>)
    ensures
        match r {
            Some(m) => dec_chunk_spec(bytes@) == Some(m@) && m@.wf_shape(),
            None => dec_chunk_spec(bytes@) is None,
        },
{
    let blen = bytes.len();
    if blen < 17 {
        return None;
    }
    let size = read_u64(bytes, 0);
    let tag = bytes[8];
    let n64 = read_u64(bytes, 9);
    if tag > 1 {
        return None;
    }
    let pages = pages_for_size(size);
    if n64 != pages {
        return None;
    }
    if (blen as u64) != 17 + 20 * n64 {
        assert(blen != 17 + 20 * (n64 as int));
        return None;
    }
    let n = n64 as usize;
    let mut location: Vec<PagePos> = Vec::new();
    let mut i: usize = 0;
    while i < n
        invariant
            i <= n,
            blen == bytes@.len(),
            blen == 17 + 20 * n,
            location@.len() == i,
            forall|k: int|
                0 <= k < i ==> #[trigger] location@[k] == (PagePos {
                    bid: le64_at(bytes@, 17 + 16 * k),
                    offset: le64_at(bytes@, 17 + 16 * k + 8),
                }),
        decreases n - i,
    {
        let bid = read_u64(bytes, 17 + 16 * i);
        let offset = read_u64(bytes, 17 + 16 * i + 8);
        location.push(PagePos { bid, offset });
        i = i + 1;
    }
    let mut csum_data: Vec<u32> = Vec::new();
    let mut j: usize = 0;
    while j < n
        invariant
            j <= n,
            blen == bytes@.len(),
            blen == 17 + 20 * n,
            csum_data@.len() == j,
            forall|k: int|
                0 <= k < j ==> csum_data@[k] == le32_at(bytes@, 17 + 16 * n + 4 * k),
        decreases n - j,
    {
        let c = read_u32(bytes, 17 + 16 * n + 4 * j);
        csum_data.push(c);
        j = j + 1;
    }
    let csum_type = if tag == 1 {
        String::from_str("CRC32")
    } else {
        String::from_str("crc32")
    };
    let m = ChunkMeta { size, location, csum_type, csum_data };
    proof {
        m.lemma_view();
        let v = dec_chunk_spec(bytes@).unwrap();
        assert(m@.location =~= v.location);
        assert(m@.csum_data =~= v.csum_data);
        assert(m@ =~= v);
    }
    Some(m)
}

/// What the global engine row decodes to; `None` for bytes no encoder
/// produces.
pub open spec fn dec_engine_spec(s: Seq<u8>) -> Option<MadEngineV> {
    if s.len() < 8 {
        None
    } else {
        let n = le64_at(s, 0) as int;
        if s.len() != 48 + 264 * n {
            None
        } else {
            let blobs = Seq::new(n as nat, |i: int| le64_at(s, 8 + 8 * i));
            if exists|i: int, j: int| 0 <= i < j < n && blobs[i] == blobs[j] {
                None
            } else {
                Some(
                    MadEngineV {
                        blobs,
                        device: DeviceInfo {
                            cluster_size: le64_at(s, 8 + 8 * n),
                            page_size: le64_at(s, 16 + 8 * n),
                            io_unit: le64_at(s, 24 + 8 * n),
                            total_cluster: le64_at(s, 32 + 8 * n),
                        },
                        blob_size: le64_at(s, 40 + 8 * n),
                        free_list: Seq::new(
                            n as nat,
                            |i: int|
                                bits_of_enc(
                                    s.subrange(48 + 8 * n + 256 * i, 48 + 8 * n + 256 * i + 256),
                                ),
                        ),
                    },
                )
            }
        }
    }
}

/// Encode the global engine row; the row decodes back to the same value.
pub(crate) fn encode_engine(g: &MadEngine) -> (r: Vec<u8>)
    requires
        g@.wf_shape(),
        g.lists_wf(),
    ensures
        dec_engine_spec(r@) == Some(g@),
        r@.len() == 48 + 264 * g@.blobs.len(),
{
    proof {
        lemma_auto_spec_u64_to_from_le_bytes();
        g.lemma_view();
    }
    let n = g.blobs.len();
    let mut out: Vec<u8> = Vec::new();
    push_u64(&mut out, n as u64);
    assert(out@.subrange(0, 8) =~= spec_u64_to_le_bytes(n as u64));
    let ghost header = out@;
    let mut i: usize = 0;
    while i < n
        invariant
            i <= n,
            n == g.blobs@.len(),
            out@.len() == 8 + 8 * i,
            out@.subrange(0, 8) == header,
            header.len() == 8,
            forall|k: int|
                0 <= k < i ==> out@.subrange(8 + 8 * k, 8 + 8 * k + 8) == spec_u64_to_le_bytes(
                    #[trigger] g.blobs@[k],
                ),
        decreases n - i,
    {
        proof {
            lemma_auto_spec_u64_to_from_le_bytes();
        }
        let ghost prev = out@;
        push_u64(&mut out, g.blobs[i]);
        proof {
            assert(out@.subrange(0, 8) =~= prev.subrange(0, 8));
            assert forall|k: int| 0 <= k < i + 1 implies out@.subrange(8 + 8 * k, 8 + 8 * k + 8)
                == spec_u64_to_le_bytes(#[trigger] g.blobs@[k]) by {
                if k < i {
                    assert(out@.subrange(8 + 8 * k, 8 + 8 * k + 8) =~= prev.subrange(
                        8 + 8 * k,
                        8 + 8 * k + 8,
                    ));
                } else {
                    assert(out@.subrange(8 + 8 * k, 8 + 8 * k + 8) =~= spec_u64_to_le_bytes(
                        g.blobs@[k],
                    ));
                }
            }
        }
        i = i + 1;
    }
    let ghost ids_done = out@;
    push_u64(&mut out, g.device.cluster_size);
    push_u64(&mut out, g.device.page_size);
    push_u64(&mut out, g.device.io_unit);
    push_u64(&mut out, g.device.total_cluster);
    push_u64(&mut out, g.blob_size);
    let ghost mid = out@;
    proof {
        assert(mid.subrange(0, ids_done.len() as int) =~= ids_done);
        assert(mid.subrange(8 + 8 * n, 16 + 8 * n) =~= spec_u64_to_le_bytes(
            g.device.cluster_size,
        ));
        assert(mid.subrange(16 + 8 * n, 24 + 8 * n) =~= spec_u64_to_le_bytes(g.device.page_size));
        assert(mid.subrange(24 + 8 * n, 32 + 8 * n) =~= spec_u64_to_le_bytes(g.device.io_unit));
        assert(mid.subrange(32 + 8 * n, 40 + 8 * n) =~= spec_u64_to_le_bytes(
            g.device.total_cluster,
        ));
        assert(mid.subrange(40 + 8 * n, 48 + 8 * n) =~= spec_u64_to_le_bytes(g.blob_size));
    }
    let mut w: usize = 0;
    while w < n
        invariant
            w <= n,
            n == g.free_list@.len(),
            g.lists_wf(),
            mid.len() == 48 + 8 * n,
            out@.len() == 48 + 8 * n + 256 * w,
            out@.subrange(0, mid.len() as int) == mid,
            forall|k: int|
                0 <= k < w ==> bits_of_enc(
                    out@.subrange(48 + 8 * n + 256 * k, 48 + 8 * n + 256 * k + 256),
                ) == (#[trigger] g.free_list@[k])@,
        decreases n - w,
    {
        let ghost prev = out@;
        self_encode_bitmap(&g.free_list[w], &mut out);
        proof {
            assert(out@.subrange(0, mid.len() as int) =~= prev.subrange(0, mid.len() as int));
            assert forall|k: int| 0 <= k < w + 1 implies bits_of_enc(
                out@.subrange(48 + 8 * n + 256 * k, 48 + 8 * n + 256 * k + 256),
            ) == (#[trigger] g.free_list@[k])@ by {
                if k < w {
                    assert(out@.subrange(48 + 8 * n + 256 * k, 48 + 8 * n + 256 * k + 256)
                        =~= prev.subrange(48 + 8 * n + 256 * k, 48 + 8 * n + 256 * k + 256));
                } else {
                    assert(out@.subrange(48 + 8 * n + 256 * k, 48 + 8 * n + 256 * k + 256)
                        =~= out@.subrange(prev.len() as int, out@.len() as int));
                }
            }
        }
        w = w + 1;
    }
    proof {
        let s = out@;
        assert(s.len() == 48 + 264 * n);
        assert(s.subrange(0, mid.len() as int) == mid);
        assert(s.subrange(0, 8) =~= mid.subrange(0, 8));
        assert(mid.subrange(0, 8) =~= ids_done.subrange(0, 8));
        assert(le64_at(s, 0) == n as u64);
        let bs = Seq::new(n as nat, |k: int| le64_at(s, 8 + 8 * k));
        assert forall|k: int| 0 <= k < n implies bs[k] == g.blobs@[k] by {
            assert(s.subrange(8 + 8 * k, 8 + 8 * k + 8) =~= mid.subrange(8 + 8 * k, 8 + 8 * k + 8));
            assert(mid.subrange(8 + 8 * k, 8 + 8 * k + 8) =~= ids_done.subrange(
                8 + 8 * k,
                8 + 8 * k + 8,
            ));
        }
        assert(bs =~= g@.blobs);
        assert forall|x: int, y: int| 0 <= x < y < n implies bs[x] != bs[y] by {
            assert(g@.blobs[x] != g@.blobs[y]);
        }
        assert(!(exists|x: int, y: int| 0 <= x < y < n && bs[x] == bs[y]));
        let v = dec_engine_spec(s).unwrap();
        assert(v.blobs =~= g@.blobs);
        assert(s.subrange(8 + 8 * n, 16 + 8 * n) =~= mid.subrange(8 + 8 * n, 16 + 8 * n));
        assert(s.subrange(16 + 8 * n, 24 + 8 * n) =~= mid.subrange(16 + 8 * n, 24 + 8 * n));
        assert(s.subrange(24 + 8 * n, 32 + 8 * n) =~= mid.subrange(24 + 8 * n, 32 + 8 * n));
        assert(s.subrange(32 + 8 * n, 40 + 8 * n) =~= mid.subrange(32 + 8 * n, 40 + 8 * n));
        assert(s.subrange(40 + 8 * n, 48 + 8 * n) =~= mid.subrange(40 + 8 * n, 48 + 8 * n));
        assert(le64_at(s, 8 + 8 * n) == g.device.cluster_size);
        assert(le64_at(s, 16 + 8 * n) == g.device.page_size);
        assert(le64_at(s, 24 + 8 * n) == g.device.io_unit);
        assert(le64_at(s, 32 + 8 * n) == g.device.total_cluster);
        assert(le64_at(s, 40 + 8 * n) == g.blob_size);
        assert(v.device == g@.device);
        assert(v.blob_size == g@.blob_size);
        assert forall|k: int| 0 <= k < n implies v.free_list[k] == g@.free_list[k] by {
            assert(g@.free_list[k] == (g.free_list@[k])@);
        }
        assert(v.free_list =~= g@.free_list);
        assert(v =~= g@);
    }
    out
}

/// Append one bitmap's encoding (helper keeping borrows simple).
fn self_encode_bitmap(b: &BitMap, out: &mut Vec<u8>)
    requires
        b.wf(),
        b.spec_size() == BLOB_PAGES,
    ensures
        final(out)@.len() == old(out)@.len() + 256,
        final(out)@.subrange(0, old(out)@.len() as int) == old(out)@,
        bits_of_enc(final(out)@.subrange(old(out)@.len() as int, final(out)@.len() as int))
            == b@,
{
    b.encode_into(out)
}

/// Decode the global engine row; agrees exactly with `dec_engine_spec`.
pub(crate) fn decode_engine(bytes: &Vec<u8>) -> (r: Option<MadEngine>)
    ensures
        match r {
            Some(g) => dec_engine_spec(bytes@) == Some(g@) && g@.wf_shape() && g.lists_wf(),
            None => dec_engine_spec(bytes@) is None,
        },
{
    let blen = bytes.len();
    if blen < 48 {
        return None;
    }
    let n64 = read_u64(bytes, 0);
    let cap = ((blen as u64) - 48) / 264;
    if n64 > cap {
        proof {
            assert(48 + 264 * (n64 as int) > blen) by (nonlinear_arith)
                requires
                    n64 > (blen - 48) as u64 / 264,
                    48 <= blen,
                    blen <= usize::MAX,
            ;
        }
        return None;
    }
    if (blen as u64) != 48 + 264 * n64 {
        return None;
    }
    let n = n64 as usize;
    let mut blobs: Vec<u64> = Vec::new();
    let mut i: usize = 0;
    while i < n
        invariant
            i <= n,
            blen == bytes@.len(),
            blen == 48 + 264 * n,
            blobs@.len() == i,
            forall|k: int| 0 <= k < i ==> blobs@[k] == le64_at(bytes@, 8 + 8 * k),
        decreases n - i,
    {
        let b = read_u64(bytes, 8 + 8 * i);
        blobs.push(b);
        i = i + 1;
    }
    // reject a row that lists a blob twice
    let mut a: usize = 1;
    while a < n
        invariant
            n == blobs@.len(),
            1 <= a,
            blen == bytes@.len(),
            blen == 48 + 264 * n,
            le64_at(bytes@, 0) == n as u64,
            forall|k: int| 0 <= k < n ==> blobs@[k] == le64_at(bytes@, 8 + 8 * k),
            forall|x: int, y: int| 0 <= x < y < a && y < n ==> blobs@[x] != blobs@[y],
        decreases n - a,
    {
        let mut b: usize = 0;
        while b < a
            invariant
                b <= a,
                a < n,
                n == blobs@.len(),
                blen == bytes@.len(),
                blen == 48 + 264 * n,
                le64_at(bytes@, 0) == n as u64,
                forall|k: int| 0 <= k < n ==> blobs@[k] == le64_at(bytes@, 8 + 8 * k),
                forall|y: int| 0 <= y < b ==> blobs@[y] != blobs@[a as int],
            decreases a - b,
        {
            if blobs[b] == blobs[a] {
                proof {
                    let sn = le64_at(bytes@, 0) as int;
                    let sb = Seq::new(sn as nat, |k: int| le64_at(bytes@, 8 + 8 * k));
                    assert(sn == n);
                    assert(sb[b as int] == blobs@[b as int]);
                    assert(sb[a as int] == blobs@[a as int]);
                    assert(sb[b as int] == sb[a as int]);
                    assert(exists|x: int, y: int| 0 <= x < y < sn && sb[x] == sb[y]);
                }
                return None;
            }
            b = b + 1;
        }
        a = a + 1;
    }
    let device = DeviceInfo {
        cluster_size: read_u64(bytes, 8 + 8 * n),
        page_size: read_u64(bytes, 16 + 8 * n),
        io_unit: read_u64(bytes, 24 + 8 * n),
        total_cluster: read_u64(bytes, 32 + 8 * n),
    };
    let blob_size = read_u64(bytes, 40 + 8 * n);
    let mut free_list: Vec<BitMap> = Vec::new();
    let mut w: usize = 0;
    while w < n
        invariant
            w <= n,
            blen == bytes@.len(),
            blen == 48 + 264 * n,
            free_list@.len() == w,
            forall|k: int|
                0 <= k < w ==> (#[trigger] free_list@[k]).wf() && free_list@[k].spec_size()
                    == BLOB_PAGES && free_list@[k]@ == bits_of_enc(
                    bytes@.subrange(48 + 8 * n + 256 * k, 48 + 8 * n + 256 * k + 256),
                ),
        decreases n - w,
    {
        let bm = BitMap::decode_from(bytes, 48 + 8 * n + 256 * w);
        free_list.push(bm);
        w = w + 1;
    }
    let g = MadEngine { free_list, blobs, device, blob_size };
    proof {
        g.lemma_view();
        let sn = le64_at(bytes@, 0) as int;
        assert(sn == n);
        assert(bytes@.len() == 48 + 264 * sn);
        let sb = Seq::new(sn as nat, |k: int| le64_at(bytes@, 8 + 8 * k));
        assert forall|k: int| 0 <= k < n implies sb[k] == g.blobs@[k] by {}
        assert(sb =~= g@.blobs);
        assert forall|x: int, y: int| 0 <= x < y < sn implies sb[x] != sb[y] by {
            assert(g.blobs@[x] != g.blobs@[y]);
        }
        assert(!(exists|x: int, y: int| 0 <= x < y < sn && sb[x] == sb[y]));
        let v = dec_engine_spec(bytes@).unwrap();
        assert(g@.blobs =~= v.blobs);
        assert forall|k: int| 0 <= k < n implies g@.free_list[k] == v.free_list[k] by {
            assert(g@.free_list[k] == (g.free_list@[k])@);
        }
        assert(g@.free_list =~= v.free_list);
        assert(g@ =~= v);
    }
    Some(g)
}

} // verus!
