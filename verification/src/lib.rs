//! The persistent cache of a bundler's builds: a scoped key-value store with
//! buffered writes, hash-sharded shard files in a length-prefixed binary
//! layout, and merge-on-flush. The order of a build's plugins is settled here
//! too.
//!
//! The library decides and the caller touches the disk: `FsStorage::idle`
//! hands out one batch per affected shard, `ShardBatch::merge` turns a
//! shard file's old contents into what is to become of it, and
//! `FsStorage::get_all` gathers the records from the files that the caller
//! has read.

pub mod assoc;
pub mod batch;
pub mod bytes;
pub mod cache;
pub mod decimal;
pub mod format;
pub mod laws;
pub mod plugins;
pub mod shard;
pub mod storage;
