use rspack_cache::batch::{ShardBatch, ShardOutcome};
use rspack_cache::format::{decode_shard, encode_shard};
use rspack_cache::shard::{shard_for_key, ShardAddr};
use rspack_cache::storage::FsStorage;
use std::collections::BTreeMap;
use std::path::PathBuf;

/// A cache directory held in memory: scope, directory name, file name.
type Disk = BTreeMap<(String, String, String), Vec<u8>>;

type Record = (Vec<u8>, Vec<u8>);

fn store() -> FsStorage {
    FsStorage::new(PathBuf::from("cache-root"))
}

fn path_of(shard: &ShardAddr) -> (String, String, String) {
    (shard.scope.to_string(), shard.dir_name(), shard.file_name())
}

fn flush(storage: &mut FsStorage, disk: &mut Disk) -> usize {
    let batches = storage.idle();
    let touched = batches.len();
    for batch in batches {
        let path = path_of(&batch.shard);
        let existing = disk.get(&path).cloned();
        match batch.merge(existing.as_deref()) {
            ShardOutcome::Write(bytes) => {
                disk.insert(path, bytes);
            }
            ShardOutcome::Delete => {
                assert!(disk.remove(&path).is_some());
            }
            ShardOutcome::Nothing => {
                assert!(!disk.contains_key(&path));
            }
        }
    }
    touched
}

fn read(disk: &Disk, scope: &str) -> Vec<Record> {
    let files: Vec<Vec<u8>> =
        disk.iter().filter(|(path, _)| path.0 == scope).map(|(_, bytes)| bytes.clone()).collect();
    let mut records = store().get_all(&files);
    records.sort();
    records
}

fn rec(key: &str, value: &str) -> Record {
    (key.as_bytes().to_vec(), value.as_bytes().to_vec())
}

fn sorted(mut records: Vec<Record>) -> Vec<Record> {
    records.sort();
    records
}

#[test]
fn round_trip_returns_exactly_what_was_set() {
    let mut disk = Disk::new();
    let mut storage = store();
    let mut records = Vec::new();
    for i in 0..200usize {
        records.push((format!("src/module-{}.js", i).into_bytes(), vec![(i % 251) as u8; i % 17]));
    }
    for (key, value) in records.iter() {
        storage.set("modules", key.clone(), value.clone());
    }
    flush(&mut storage, &mut disk);
    assert_eq!(read(&disk, "modules"), sorted(records));
}

#[test]
fn round_trip_of_a_single_record() {
    let mut disk = Disk::new();
    let mut storage = store();
    storage.set("S", b"k".to_vec(), b"v".to_vec());
    assert_eq!(flush(&mut storage, &mut disk), 1);
    assert_eq!(disk.len(), 1);
    assert_eq!(disk.values().next().unwrap(), &b"1 1\nkv".to_vec());
    assert_eq!(read(&disk, "S"), vec![rec("k", "v")]);
}

#[test]
fn nothing_reaches_the_disk_before_a_flush() {
    let disk = Disk::new();
    let mut storage = store();
    storage.set("S", b"k".to_vec(), b"v".to_vec());
    storage.remove("S", b"other");
    assert!(disk.is_empty());
    assert_eq!(read(&disk, "S"), Vec::<Record>::new());
}

#[test]
fn get_all_does_not_consult_the_buffer() {
    let mut disk = Disk::new();
    let mut storage = store();
    storage.set("S", b"k".to_vec(), b"v1".to_vec());
    flush(&mut storage, &mut disk);
    storage.set("S", b"k".to_vec(), b"v2".to_vec());
    let files: Vec<Vec<u8>> = disk.values().cloned().collect();
    assert_eq!(storage.get_all(&files), vec![rec("k", "v1")]);
}

#[test]
fn get_all_of_no_files_is_empty() {
    assert_eq!(store().get_all(&Vec::new()), Vec::<Record>::new());
}

#[test]
fn tombstone_removes_a_stored_key() {
    let mut disk = Disk::new();
    let mut storage = store();
    storage.set("S", b"k".to_vec(), b"v".to_vec());
    flush(&mut storage, &mut disk);
    assert_eq!(read(&disk, "S"), vec![rec("k", "v")]);
    storage.remove("S", b"k");
    flush(&mut storage, &mut disk);
    assert_eq!(read(&disk, "S"), Vec::<Record>::new());
}

#[test]
fn tombstone_leaves_other_keys_alone() {
    let mut disk = Disk::new();
    let mut storage = store();
    storage.set("S", b"k".to_vec(), b"v".to_vec());
    storage.set("S", b"kept".to_vec(), b"w".to_vec());
    flush(&mut storage, &mut disk);
    storage.remove("S", b"k");
    flush(&mut storage, &mut disk);
    assert_eq!(read(&disk, "S"), vec![rec("kept", "w")]);
}

#[test]
fn last_write_wins_before_flush() {
    let mut disk = Disk::new();
    let mut storage = store();
    storage.set("S", b"k".to_vec(), b"v1".to_vec());
    storage.set("S", b"k".to_vec(), b"v2".to_vec());
    assert_eq!(flush(&mut storage, &mut disk), 1);
    assert_eq!(read(&disk, "S"), vec![rec("k", "v2")]);
}

#[test]
fn remove_after_set_before_flush_stores_nothing() {
    let mut disk = Disk::new();
    let mut storage = store();
    storage.set("S", b"k".to_vec(), b"v".to_vec());
    storage.remove("S", b"k");
    flush(&mut storage, &mut disk);
    assert!(disk.is_empty());
}

#[test]
fn set_after_remove_before_flush_stores_the_value() {
    let mut disk = Disk::new();
    let mut storage = store();
    storage.remove("S", b"k");
    storage.set("S", b"k".to_vec(), b"v".to_vec());
    flush(&mut storage, &mut disk);
    assert_eq!(read(&disk, "S"), vec![rec("k", "v")]);
}

#[test]
fn later_flush_overwrites_a_stored_value() {
    let mut disk = Disk::new();
    let mut storage = store();
    storage.set("S", b"k".to_vec(), b"old".to_vec());
    flush(&mut storage, &mut disk);
    storage.set("S", b"k".to_vec(), b"new".to_vec());
    flush(&mut storage, &mut disk);
    assert_eq!(read(&disk, "S"), vec![rec("k", "new")]);
    assert_eq!(disk.len(), 1);
}

#[test]
fn colliding_keys_both_survive_a_flush() {
    let first: Vec<u8> = vec![1];
    let second: Vec<u8> = vec![1, 0];
    assert_eq!(path_of(&shard_for_key("S", &first)), path_of(&shard_for_key("S", &second)));
    let mut disk = Disk::new();
    let mut storage = store();
    storage.set("S", first.clone(), b"one".to_vec());
    storage.set("S", second.clone(), b"two".to_vec());
    assert_eq!(flush(&mut storage, &mut disk), 1);
    assert_eq!(disk.len(), 1);
    assert_eq!(
        read(&disk, "S"),
        sorted(vec![(first, b"one".to_vec()), (second, b"two".to_vec())])
    );
}

#[test]
fn colliding_key_joins_a_sibling_stored_earlier() {
    let first: Vec<u8> = vec![1];
    let second: Vec<u8> = vec![1, 0];
    let mut disk = Disk::new();
    let mut storage = store();
    storage.set("S", first.clone(), b"one".to_vec());
    flush(&mut storage, &mut disk);
    storage.set("S", second.clone(), b"two".to_vec());
    flush(&mut storage, &mut disk);
    assert_eq!(disk.len(), 1);
    assert_eq!(
        read(&disk, "S"),
        sorted(vec![(first.clone(), b"one".to_vec()), (second, b"two".to_vec())])
    );
    storage.remove("S", &first);
    flush(&mut storage, &mut disk);
    assert_eq!(read(&disk, "S"), vec![(vec![1u8, 0], b"two".to_vec())]);
    assert_eq!(disk.len(), 1);
}

#[test]
fn removing_every_key_of_a_shard_removes_its_file() {
    let first: Vec<u8> = vec![1];
    let second: Vec<u8> = vec![1, 0];
    let mut disk = Disk::new();
    let mut storage = store();
    storage.set("S", first.clone(), b"one".to_vec());
    storage.set("S", second.clone(), b"two".to_vec());
    storage.set("S", b"elsewhere".to_vec(), b"three".to_vec());
    flush(&mut storage, &mut disk);
    let path = path_of(&shard_for_key("S", &first));
    assert!(disk.contains_key(&path));
    storage.remove("S", &first);
    storage.remove("S", &second);
    flush(&mut storage, &mut disk);
    assert!(!disk.contains_key(&path));
    assert_eq!(read(&disk, "S"), vec![rec("elsewhere", "three")]);
}

#[test]
fn removing_a_key_that_was_never_stored_touches_no_file() {
    let mut disk = Disk::new();
    let mut storage = store();
    storage.remove("S", b"ghost");
    let batches = storage.idle();
    assert_eq!(batches.len(), 1);
    assert_eq!(batches[0].merge(None), ShardOutcome::Nothing);
    storage.remove("S", b"ghost");
    flush(&mut storage, &mut disk);
    assert!(disk.is_empty());
}

#[test]
fn flush_of_an_empty_buffer_does_nothing() {
    let mut disk = Disk::new();
    let mut storage = store();
    assert_eq!(storage.idle().len(), 0);
    storage.set("S", b"k".to_vec(), b"v".to_vec());
    flush(&mut storage, &mut disk);
    let before = disk.clone();
    assert_eq!(flush(&mut storage, &mut disk), 0);
    assert_eq!(disk, before);
}

#[test]
fn flush_clears_the_buffer_of_every_scope() {
    let mut storage = store();
    storage.set("modules", b"a".to_vec(), b"1".to_vec());
    storage.set("assets", b"b".to_vec(), b"2".to_vec());
    storage.remove("chunks", b"c");
    assert_eq!(storage.idle().len(), 3);
    assert_eq!(storage.idle().len(), 0);
}

#[test]
fn scopes_do_not_interact() {
    let mut disk = Disk::new();
    let mut storage = store();
    storage.set("modules", b"k".to_vec(), b"m".to_vec());
    storage.set("assets", b"k".to_vec(), b"a".to_vec());
    assert_eq!(flush(&mut storage, &mut disk), 2);
    assert_eq!(disk.len(), 2);
    assert_eq!(read(&disk, "modules"), vec![rec("k", "m")]);
    assert_eq!(read(&disk, "assets"), vec![rec("k", "a")]);
    storage.remove("modules", b"k");
    flush(&mut storage, &mut disk);
    assert_eq!(read(&disk, "modules"), Vec::<Record>::new());
    assert_eq!(read(&disk, "assets"), vec![rec("k", "a")]);
    assert_eq!(read(&disk, "absent"), Vec::<Record>::new());
}

#[test]
fn one_batch_per_shard_holds_every_mutation_of_it() {
    let mut storage = store();
    storage.set("S", vec![1], b"one".to_vec());
    storage.set("S", b"lonely".to_vec(), b"x".to_vec());
    storage.remove("S", &[1, 0]);
    let batches = storage.idle();
    assert_eq!(batches.len(), 2);
    for batch in batches.iter() {
        for (key, _) in batch.entries.iter() {
            assert_eq!(shard_for_key("S", key).digest, batch.shard.digest);
        }
    }
    let sizes = sorted(batches.iter().map(|b| (vec![b.entries.len() as u8], vec![])).collect());
    assert_eq!(sizes, vec![(vec![1u8], vec![]), (vec![2u8], vec![])]);
}

#[test]
fn unreadable_shard_does_not_keep_others_from_being_read() {
    let good = encode_shard(&vec![rec("a", "1"), rec("b", "2")]);
    let overrun = b"4 100\na.jscontent1".to_vec();
    let garbage = b"not a shard".to_vec();
    let other = encode_shard(&vec![rec("c", "3")]);
    let records = store().get_all(&vec![good, overrun, garbage, other]);
    assert_eq!(records, vec![rec("a", "1"), rec("b", "2"), rec("c", "3")]);
}

#[test]
fn unreadable_shard_alone_yields_no_records() {
    let overrun = b"4 100\na.jscontent1".to_vec();
    assert_eq!(store().get_all(&vec![overrun]), Vec::<Record>::new());
}

#[test]
fn flush_heals_an_unreadable_shard() {
    let mut disk = Disk::new();
    let mut storage = store();
    let path = path_of(&shard_for_key("S", b"k"));
    disk.insert(path.clone(), b"9 9\ntruncated".to_vec());
    storage.set("S", b"k".to_vec(), b"v".to_vec());
    flush(&mut storage, &mut disk);
    assert_eq!(disk.get(&path), Some(&b"1 1\nkv".to_vec()));
    assert_eq!(read(&disk, "S"), vec![rec("k", "v")]);
}

#[test]
fn tombstone_on_an_unreadable_shard_deletes_it() {
    let batch = ShardBatch { shard: shard_for_key("S", b"k"), entries: vec![(b"k".to_vec(), None)] };
    assert_eq!(batch.merge(Some(b"broken")), ShardOutcome::Delete);
}

#[test]
fn merge_keeps_untouched_records_of_the_file() {
    let existing = encode_shard(&vec![rec("a", "1"), rec("b", "2"), rec("c", "3")]);
    let batch = ShardBatch {
        shard: ShardAddr { scope: "S", digest: 0 },
        entries: vec![(b"b".to_vec(), None), (b"d".to_vec(), Some(b"4".to_vec()))],
    };
    match batch.merge(Some(&existing)) {
        ShardOutcome::Write(bytes) => {
            assert_eq!(
                sorted(decode_shard(&bytes).unwrap()),
                vec![rec("a", "1"), rec("c", "3"), rec("d", "4")]
            );
        }
        other => panic!("unexpected outcome {:?}", other),
    }
}

#[test]
fn merge_applies_mutations_in_order() {
    let batch = ShardBatch {
        shard: ShardAddr { scope: "S", digest: 0 },
        entries: vec![
            (b"k".to_vec(), Some(b"1".to_vec())),
            (b"k".to_vec(), None),
            (b"k".to_vec(), Some(b"3".to_vec())),
        ],
    };
    assert_eq!(batch.merge(None), ShardOutcome::Write(b"1 1\nk3".to_vec()));
}

#[test]
fn merge_of_a_file_with_a_repeated_key_keeps_the_later_record() {
    let batch = ShardBatch {
        shard: ShardAddr { scope: "S", digest: 0 },
        entries: vec![(b"x".to_vec(), None)],
    };
    assert_eq!(batch.merge(Some(b"1 1 1 1\nkakb")), ShardOutcome::Write(b"1 1\nkb".to_vec()));
}

#[test]
fn merge_that_empties_a_file_deletes_it() {
    let existing = encode_shard(&vec![rec("a", "1")]);
    let batch = ShardBatch {
        shard: ShardAddr { scope: "S", digest: 0 },
        entries: vec![(b"a".to_vec(), None)],
    };
    assert_eq!(batch.merge(Some(&existing)), ShardOutcome::Delete);
}

#[test]
fn worked_example() {
    let mut disk = Disk::new();
    let mut storage = store();
    storage.set("modules", b"a.js".to_vec(), b"content1".to_vec());
    storage.set("modules", b"b.js".to_vec(), b"content2".to_vec());
    flush(&mut storage, &mut disk);
    assert!(disk.len() == 1 || disk.len() == 2);
    for (path, bytes) in disk.iter() {
        assert_eq!(path.0, "modules");
        assert_eq!(path.1.len(), 2);
        assert_eq!(path.2.len(), 14);
        let newline = bytes.iter().position(|b| *b == b'\n').unwrap();
        let header = std::str::from_utf8(&bytes[..newline]).unwrap();
        let declared: usize = header.split(' ').map(|field| field.parse::<usize>().unwrap()).sum();
        assert_eq!(declared, bytes.len() - newline - 1);
    }
    assert_eq!(read(&disk, "modules"), vec![rec("a.js", "content1"), rec("b.js", "content2")]);
}

#[test]
fn location_is_what_the_store_was_made_with() {
    let storage = FsStorage::new(PathBuf::from("/tmp/somewhere/cache"));
    assert_eq!(storage.location(), &PathBuf::from("/tmp/somewhere/cache"));
}
