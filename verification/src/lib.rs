//! A user-space storage engine that keeps named binary chunks on a
//! page-addressed block backend, with per-page CRC-32 checksums and
//! durable metadata rows in an embedded key-value store.

mod blob_engine;
mod codec;
mod common;
mod db_engine;
mod device_engine;
mod error;
mod file_engine;
mod message;
mod option;
mod utils;

pub use codec::dec_chunk_spec;
pub use codec::dec_engine_spec;
pub use codec::decode_chunk;
pub use codec::encode_chunk;
pub use codec::le32_at;
pub use codec::le64_at;
pub use blob_engine::BlobEngine;
pub use blob_engine::Reply;
pub use common::ChunkMeta;
pub use db_engine::full_merge;
pub use db_engine::merge_all;
pub use db_engine::merge_one;
pub use db_engine::partial_merge;
pub use db_engine::DbEngine;
pub use db_engine::MergeOp;
pub use device_engine::make_zero_page;
pub use device_engine::zero_page;
pub use device_engine::DeviceEngine;
pub use device_engine::EngineBlob;
pub use error::EngineError;
pub use file_engine::blob_index;
pub use file_engine::clear_count;
pub use file_engine::shard_clear_upto;
pub use file_engine::shard_free_pages;
pub use file_engine::gbit;
pub use file_engine::has_blob;
pub use file_engine::magic_key_spec;
pub use file_engine::name_key_spec;
pub use file_engine::overwrite;
pub use file_engine::valid_slot;
pub use file_engine::lemma_allocator_disjointness;
pub use file_engine::lemma_chunk_shape;
pub use file_engine::lemma_fresh_pages_are_unused;
pub use file_engine::lemma_cross_boundary_round_trip;
pub use file_engine::lemma_overwrite_semantics;
pub use file_engine::lemma_round_trip_within_page;
pub use file_engine::lemma_stat_tracks_size;
pub use file_engine::restorable;
pub use file_engine::rows_csum_ok;
pub use file_engine::FileEngine;
pub use option::BsBindOpts;
pub use option::EngineOpts;
pub use message::Msg;
pub use message::Op;
pub use common::ChunkMetaV;
pub use common::DeviceInfo;
pub use common::FsInfo;
pub use common::MadEngine;
pub use common::MadEngineV;
pub use common::PagePos;
pub use common::StatMeta;
pub use common::ThreadData;
pub use common::pages_of_size;

pub use utils::BitMap;
pub use utils::Hasher;
pub use utils::bits_of_enc;
pub use utils::crc32_of;
pub use utils::BLOB_PAGES;
pub use utils::BLOB_SIZE;
pub use utils::CLUSTER_SIZE;
pub use utils::CLUSTER_SIZE_PAGES;
pub use utils::dec_digits;
pub use utils::u32_to_dec;
pub use utils::lemma_find_is_fresh;
pub use utils::MAGIC;
pub use utils::NUM_THREAD;
pub use utils::PAGE_SIZE;
