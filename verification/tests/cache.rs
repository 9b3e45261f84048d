use rspack_cache::cache::Cache;
use rspack_cache::batch::ShardOutcome;
use std::path::PathBuf;

#[test]
fn new_cache_has_nothing_to_flush() {
    let mut cache = Cache::new(PathBuf::from("root"), "tracker");
    assert_eq!(cache.storage.location(), &PathBuf::from("root"));
    assert_eq!(cache.snapshot, "tracker");
    assert_eq!(cache.idle().len(), 0);
}

#[test]
fn idle_flushes_the_store() {
    let mut cache = Cache::new(PathBuf::from("root"), 7u32);
    cache.storage.set("modules", b"a.js".to_vec(), b"content1".to_vec());
    let batches = cache.idle();
    assert_eq!(batches.len(), 1);
    assert_eq!(batches[0].shard.scope, "modules");
    assert_eq!(batches[0].merge(None), ShardOutcome::Write(b"4 8\na.jscontent1".to_vec()));
    assert_eq!(cache.idle().len(), 0);
    assert_eq!(cache.snapshot, 7);
}
