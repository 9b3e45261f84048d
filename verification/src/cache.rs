//! The cache façade: the store together with the validity tracker that
//! decides whether what the store holds is still fresh.

use crate::batch::ShardBatch;
use crate::storage::{is_plan, view_batches, FsStorage, ScopedKey};
use std::path::PathBuf;
use vstd::prelude::*;

verus! {

/// The cache of one build: its store and its validity tracker. The tracker
/// is carried along for the owner of the cache; the cache itself never looks
/// into it.
#[derive(Debug)]
pub struct Cache<S> {
    pub storage: FsStorage,
    pub snapshot: S,
}

impl<S> Cache<S> {
    /// A cache over the cache directory `location`, with nothing buffered,
    /// together with the validity tracker `snapshot`.
    pub fn new(location: PathBuf, snapshot: S) -> (cache: Self)
        ensures
            cache.storage@ == Map::<ScopedKey, Option<Seq<u8>>>::empty(),
            cache.storage.root() == location,
            cache.snapshot == snapshot,
    {
        Cache { storage: FsStorage::new(location), snapshot }
    }

    /// Flushes the store, whatever it holds: see `FsStorage::idle`.
    pub fn idle(&mut self) -> (batches: Vec<ShardBatch>)
        ensures
            is_plan(old(self).storage@, view_batches(batches@)),
            final(self).storage@ == Map::<ScopedKey, Option<Seq<u8>>>::empty(),
            final(self).storage.root() == old(self).storage.root(),
            final(self).snapshot == old(self).snapshot,
    {
        self.storage.idle()
    }
}

} // verus!
