//! End-to-end scenarios against the engine: create/remove, single-page
//! and cross-boundary round trips, partial overwrite, resize, reload and
//! the error paths.

use mad_engine::BlobEngine;
use mad_engine::BsBindOpts;
use mad_engine::DbEngine;
use mad_engine::DeviceEngine;
use mad_engine::EngineError;
use mad_engine::EngineOpts;
use mad_engine::FileEngine;

fn fresh_engine() -> FileEngine {
    let db = DbEngine::new();
    let dev = DeviceEngine::new("bdev0");
    let be = BlobEngine::new("bdev0", 0, 4096, dev);
    FileEngine::new(db, be, 8, false).expect("first-time init succeeds")
}

fn pattern(n: usize) -> Vec<u8> {
    let mut v = Vec::with_capacity(n);
    let mut i = 0usize;
    while i < n {
        v.push((i % 256) as u8);
        i += 1;
    }
    v
}

#[test]
fn s1_create_remove() {
    let mut e = fresh_engine();
    e.create("f1".to_string()).unwrap();
    e.remove("f1".to_string()).unwrap();
    match e.stat("f1".to_string()) {
        Err(EngineError::MetaNotExist) => {},
        _ => panic!("stat after remove must fail MetaNotExist"),
    }
}

#[test]
fn s2_single_page() {
    let mut e = fresh_engine();
    e.create("f2".to_string()).unwrap();
    let data = pattern(512);
    e.write("f2".to_string(), 0, &data).unwrap();
    let mut buf = vec![0u8; 512];
    e.read("f2".to_string(), 0, &mut buf).unwrap();
    assert_eq!(buf, data);
    assert_eq!(e.stat("f2".to_string()).unwrap().size, 512);
    assert_eq!(e.stat("f2".to_string()).unwrap().csum_type, "CRC32".to_string());
}

#[test]
fn s3_cross_boundary() {
    let mut e = fresh_engine();
    e.create("f3".to_string()).unwrap();
    let data = pattern(5120);
    e.write("f3".to_string(), 0, &data).unwrap();
    let mut buf = vec![0u8; 200];
    e.read("f3".to_string(), 4000, &mut buf).unwrap();
    assert_eq!(buf, data[4000..4200].to_vec());
}

#[test]
fn s4_partial_overwrite() {
    let mut e = fresh_engine();
    e.create("f4".to_string()).unwrap();
    let data = pattern(6144);
    e.write("f4".to_string(), 0, &data).unwrap();
    let patch = vec![13u8; 300];
    e.write("f4".to_string(), 3800, &patch).unwrap();
    let mut buf = vec![0u8; 200];
    e.read("f4".to_string(), 4000, &mut buf).unwrap();
    let mut expect = vec![13u8; 100];
    expect.extend_from_slice(&data[4100..4200]);
    assert_eq!(buf, expect);
    // untouched bytes before the patch survive
    let mut head = vec![0u8; 100];
    e.read("f4".to_string(), 3700, &mut head).unwrap();
    assert_eq!(head, data[3700..3800].to_vec());
    assert_eq!(e.stat("f4".to_string()).unwrap().size, 6144);
}

#[test]
fn s5_resize() {
    let mut e = fresh_engine();
    e.create("f5".to_string()).unwrap();
    assert_eq!(e.stat("f5".to_string()).unwrap().size, 0);
    e.resize("f5".to_string(), 6000).unwrap();
    assert_eq!(e.stat("f5".to_string()).unwrap().size, 6000);
    e.resize("f5".to_string(), 3000).unwrap();
    assert_eq!(e.stat("f5".to_string()).unwrap().size, 3000);
}

#[test]
fn s6_reload() {
    let mut e = fresh_engine();
    e.create("file6".to_string()).unwrap();
    let data = pattern(6144);
    e.write("file6".to_string(), 0, &data).unwrap();
    let (db, be) = e.unload_bs();
    let mut e2 = FileEngine::new(db, be, 8, true).expect("reload succeeds");
    let mut buf = vec![0u8; 200];
    e2.read("file6".to_string(), 4000, &mut buf).unwrap();
    assert_eq!(buf, data[4000..4200].to_vec());
    // and the engine keeps working after the reload
    let patch = vec![13u8; 300];
    e2.write("file6".to_string(), 3800, &patch).unwrap();
    let mut buf2 = vec![0u8; 200];
    e2.read("file6".to_string(), 4000, &mut buf2).unwrap();
    let mut expect = vec![13u8; 100];
    expect.extend_from_slice(&data[4100..4200]);
    assert_eq!(buf2, expect);
}

#[test]
fn round_trip_within_page() {
    let mut e = fresh_engine();
    e.create("small".to_string()).unwrap();
    let data = pattern(100);
    e.write("small".to_string(), 0, &data).unwrap();
    let mut buf = vec![0u8; 100];
    e.read("small".to_string(), 0, &mut buf).unwrap();
    assert_eq!(buf, data);
    // appending right at the end is allowed and read back intact
    let tail = vec![7u8; 50];
    e.write("small".to_string(), 100, &tail).unwrap();
    let mut buf2 = vec![0u8; 150];
    e.read("small".to_string(), 0, &mut buf2).unwrap();
    assert_eq!(&buf2[..100], &data[..]);
    assert_eq!(&buf2[100..], &tail[..]);
}

#[test]
fn hole_is_rejected() {
    let mut e = fresh_engine();
    e.create("n".to_string()).unwrap();
    match e.write("n".to_string(), 10, &vec![0u8]) {
        Err(EngineError::HoleNotAllowed) => {},
        _ => panic!("a write past the size must fail HoleNotAllowed"),
    }
}

#[test]
fn read_out_of_range() {
    let mut e = fresh_engine();
    e.create("n".to_string()).unwrap();
    e.write("n".to_string(), 0, &vec![0u8; 100]).unwrap();
    let mut buf = vec![0u8; 100];
    match e.read("n".to_string(), 50, &mut buf) {
        Err(EngineError::ReadOutRange) => {},
        _ => panic!("a read past the size must fail ReadOutRange"),
    }
}

#[test]
fn missing_chunk_is_reported() {
    let mut e = fresh_engine();
    let mut buf = vec![0u8; 10];
    match e.read("ghost".to_string(), 0, &mut buf) {
        Err(EngineError::MetaNotExist) => {},
        _ => panic!("reading an absent chunk must fail MetaNotExist"),
    }
    match e.write("ghost".to_string(), 0, &vec![1u8]) {
        Err(EngineError::MetaNotExist) => {},
        _ => panic!("writing an absent chunk must fail MetaNotExist"),
    }
}

#[test]
fn checksum_tamper_detected() {
    let mut e = fresh_engine();
    e.create("t".to_string()).unwrap();
    e.write("t".to_string(), 0, &pattern(512)).unwrap();
    // the first write of a fresh engine lands on page 0 of blob 0
    e.corrupt_page(0, 0, 3);
    let mut buf = vec![0u8; 512];
    match e.read("t".to_string(), 0, &mut buf) {
        Err(EngineError::CheckSumErr) => {},
        _ => panic!("a corrupted page must fail CheckSumErr"),
    }
}

#[test]
fn allocator_exhaustion_reports_no_space() {
    let mut e = fresh_engine();
    // each worker shard owns one blob of 2048 allocatable pages; four
    // full-blob chunks drain all of them
    let names = ["big0", "big1", "big2", "big3"];
    let mut i = 0usize;
    while i < 4 {
        e.create(names[i].to_string()).unwrap();
        e.resize(names[i].to_string(), 2048 * 4096).unwrap();
        i += 1;
    }
    e.create("one_more".to_string()).unwrap();
    match e.write("one_more".to_string(), 0, &vec![1u8]) {
        Err(EngineError::NoSpace) => {},
        _ => panic!("an exhausted allocator must fail NoSpace"),
    }
}

#[test]
fn reserved_name_is_refused() {
    let mut e = fresh_engine();
    // the decimal digits of CRC32("MadEngine") key the global row
    match e.create("4104816181".to_string()) {
        Err(EngineError::MetaKvError) => {},
        _ => panic!("the reserved key must be refused"),
    }
}

#[test]
fn reload_of_empty_store_fails() {
    let dev = DeviceEngine::new("bdev0");
    let be = BlobEngine::new("bdev0", 0, 4096, dev);
    match FileEngine::new(DbEngine::new(), be, 8, true) {
        Err(EngineError::RestoreFail) => {},
        _ => panic!("a reload without a global row must fail RestoreFail"),
    }
}

#[test]
fn create_overwrites_existing_chunk() {
    let mut e = fresh_engine();
    e.create("x".to_string()).unwrap();
    e.write("x".to_string(), 0, &pattern(100)).unwrap();
    e.create("x".to_string()).unwrap();
    assert_eq!(e.stat("x".to_string()).unwrap().size, 0);
    assert_eq!(e.stat("x".to_string()).unwrap().csum_type, "crc32".to_string());
}

#[test]
fn two_chunks_stay_apart() {
    let mut e = fresh_engine();
    e.create("a".to_string()).unwrap();
    e.create("b".to_string()).unwrap();
    let da = pattern(5000);
    let db_ = vec![99u8; 5000];
    e.write("a".to_string(), 0, &da).unwrap();
    e.write("b".to_string(), 0, &db_).unwrap();
    e.write("a".to_string(), 1000, &vec![1u8; 100]).unwrap();
    let mut buf = vec![0u8; 5000];
    e.read("b".to_string(), 0, &mut buf).unwrap();
    assert_eq!(buf, db_);
}

#[test]
fn opts_build_a_blob_service() {
    let mut opts = EngineOpts::default();
    opts.set_reactor_mask("0x3");
    opts.set_blobfs("fsdev");
    opts.set_name("engine-under-test");
    opts.set_config_file("cfg.json".to_string());
    opts.set_blobstore(vec![BsBindOpts { bdev_name: "bdev7".to_string(), core: 3 }]);
    assert!(opts.ready());
    let dev = DeviceEngine::new("bdev7");
    let mut be = opts.create_be(dev);
    assert_eq!(be.get_name().unwrap(), "bdev7".to_string());
    assert_eq!(be.get_core_id().unwrap(), 3);
    let bid = be.create_blob().unwrap();
    let h = be.open_blob(bid).unwrap();
    be.resize_blob(h, 8).unwrap();
    be.sync_blob(h).unwrap();
    be.close_blob(h).unwrap();
    opts.finish();
    assert!(opts.shutdown);
}
