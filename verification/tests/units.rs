//! Component-level checks: hasher vectors, bitmap laws, codecs,
//! messages and plain records.

use mad_engine::BitMap;
use mad_engine::ChunkMeta;
use mad_engine::DbEngine;
use mad_engine::DeviceEngine;
use mad_engine::DeviceInfo;
use mad_engine::EngineBlob;
use mad_engine::EngineError;
use mad_engine::FsInfo;
use mad_engine::Hasher;
use mad_engine::full_merge;
use mad_engine::partial_merge;
use mad_engine::MergeOp;
use mad_engine::Msg;
use mad_engine::Op;
use mad_engine::StatMeta;
use mad_engine::decode_chunk;
use mad_engine::encode_chunk;
use mad_engine::make_zero_page;
use mad_engine::u32_to_dec;

#[test]
fn test_hasher() {
    let h = Hasher::new();
    assert_eq!(0xCBF43926, h.checksum(b"123456789"));
    assert_eq!(0x3DCA6FAD, h.checksum(b"this is a hasher test"));
}

#[test]
fn magic_checksum_vector() {
    let h = Hasher::new();
    assert_eq!(0xF4AA8635, h.checksum(b"MadEngine"));
    assert_eq!(u32_to_dec(0xF4AA8635), b"4104816181".to_vec());
}

#[test]
fn decimal_digits() {
    assert_eq!(u32_to_dec(0), b"0".to_vec());
    assert_eq!(u32_to_dec(7), b"7".to_vec());
    assert_eq!(u32_to_dec(4294967295), b"4294967295".to_vec());
}

#[test]
fn bitmap_find_lowest_clear() {
    let mut bm = BitMap::new(128);
    assert_eq!(bm.get_size(), 128);
    assert_eq!(bm.find(), Some(0));
    assert!(!bm.get(0));
    bm.set(0);
    assert!(bm.get(0));
    // after setting the found bit, find reports a different index
    assert_eq!(bm.find(), Some(1));
    bm.set(77);
    assert!(bm.get(77));
    bm.clear(0);
    assert_eq!(bm.find(), Some(0));
}

#[test]
fn bitmap_all_ones_has_no_free_bit() {
    let mut bm = BitMap::new(64);
    let mut i = 0u64;
    while i < 64 {
        bm.set(i);
        i += 1;
    }
    assert_eq!(bm.find(), None);
    let mut ones = BitMap::new_set_ones(2048);
    assert_eq!(ones.find(), None);
    ones.clear(5);
    assert_eq!(ones.find(), Some(5));
}

#[test]
fn bitmap_encoding_round_trip() {
    let mut bm = BitMap::new(2048);
    bm.set(0);
    bm.set(63);
    bm.set(64);
    bm.set(2047);
    let mut bytes: Vec<u8> = Vec::new();
    bm.encode_into(&mut bytes);
    assert_eq!(bytes.len(), 256);
    let back = BitMap::decode_from(&bytes, 0);
    let mut i = 0u64;
    while i < 2048 {
        assert_eq!(bm.get(i), back.get(i));
        i += 1;
    }
}

#[test]
fn chunk_row_round_trip() {
    let meta = ChunkMeta::default();
    assert_eq!(meta.get_size(), 0);
    let row = encode_chunk(&meta);
    let back = decode_chunk(&row).expect("a fresh row decodes");
    assert_eq!(back.get_size(), 0);
    // bytes that no encoder produced are rejected
    assert!(decode_chunk(&vec![1, 2, 3]).is_none());
    assert!(decode_chunk(&vec![0u8; 16]).is_none());
}

#[test]
fn kv_store_put_get_delete() {
    let mut db = DbEngine::new();
    assert!(db.get(&b"alpha".to_vec()).is_none());
    db.put(b"alpha".to_vec(), b"one".to_vec());
    db.put(b"beta".to_vec(), b"two".to_vec());
    assert_eq!(db.get(&b"alpha".to_vec()), Some(b"one".to_vec()));
    db.put(b"alpha".to_vec(), b"three".to_vec());
    assert_eq!(db.get(&b"alpha".to_vec()), Some(b"three".to_vec()));
    assert_eq!(db.row_count(), 2);
    db.delete(&b"alpha".to_vec());
    assert!(db.get(&b"alpha".to_vec()).is_none());
    assert_eq!(db.get(&b"beta".to_vec()), Some(b"two".to_vec()));
}

#[test]
fn device_pages_read_back() {
    let mut dev = DeviceEngine::new("bdev0");
    let blob = dev.create_blob(8);
    assert_eq!(blob.get_id(), 0);
    assert_eq!(EngineBlob { bl: 3 }.get_id(), 3);
    let mut page = make_zero_page();
    page[0] = 0xAB;
    page[4095] = 0xCD;
    dev.write(5, 0, &page);
    let mut out: Vec<u8> = Vec::new();
    dev.read(5, 0, &mut out);
    assert_eq!(out, page);
    // an unwritten page reads as zeros
    let mut z: Vec<u8> = Vec::new();
    dev.read(6, 0, &mut z);
    assert_eq!(z, make_zero_page());
}

#[test]
fn messages_carry_their_tag() {
    assert_eq!(Msg::gen_write(3, 1, vec![0u8; 4096]).op(), Op::Write);
    assert_eq!(Msg::gen_read(3, 1).op(), Op::Read);
    assert_eq!(Msg::gen_create().op(), Op::Create);
    assert_eq!(Msg::gen_delete(1).op(), Op::Delete);
    assert_eq!(Msg::gen_open(1).op(), Op::Open);
    assert_eq!(Msg::gen_sync(1).op(), Op::Sync);
    assert_eq!(Msg::gen_resize(1, 8).op(), Op::Resize);
    assert_eq!(Msg::gen_close(1).op(), Op::Close);
    assert_eq!(Msg::gen_unload().op(), Op::Unload);
}

#[test]
fn merge_operator_folds_operands() {
    // seed an absent value, then raise and set its counter
    let ops = vec![
        MergeOp::PutIfAbsent(vec![0u8; 16]),
        MergeOp::UpdateU64NoLessThan { offset: 0, value: 7 },
        MergeOp::UpdateU64NoLessThan { offset: 0, value: 3 },
        MergeOp::SetU64 { offset: 8, value: 513 },
    ];
    let out = full_merge(None, &ops).expect("a seeded value stays");
    assert_eq!(&out[0..8], &7u64.to_le_bytes());
    assert_eq!(&out[8..16], &513u64.to_le_bytes());
    // an operand whose counter does not fit leaves the value unchanged
    let short = vec![1u8, 2, 3];
    let kept = full_merge(
        Some(&short),
        &vec![MergeOp::SetU64 { offset: 0, value: 9 }, MergeOp::PutIfAbsent(vec![9u8])],
    )
    .expect("a non-empty value stays");
    assert_eq!(kept, short);
    // with nothing stored and nothing seeded, nothing comes out
    assert!(full_merge(None, &vec![MergeOp::SetU64 { offset: 0, value: 9 }]).is_none());
    assert!(partial_merge(None, &vec![]).is_none());
}

#[test]
fn plain_records_report_their_fields() {
    let d = DeviceInfo::new(256);
    assert_eq!(d.total_cluster, 256);
    assert_eq!(d.page_size, 4096);
    let st = StatMeta { size: 42, csum_type: "CRC32".to_string() };
    assert_eq!(st.get_size(), 42);
    let fs = FsInfo::set(1, 256, 200);
    assert_eq!(fs.cluster_free, 200);
    assert_eq!(EngineError::NoSpace.message(), "no free page left");
    assert_ne!(EngineError::NoSpace, EngineError::CheckSumErr);
}
