//! Merging buffered mutations into one shard file.
//!
//! A flush handles each affected shard once. All the mutations that a flush
//! holds for a shard form one batch. The batch is merged with what the shard
//! file held before, and the result says what to do with the file: write the
//! new contents over it, delete it because nothing is left, or leave it
//! absent.

use crate::assoc::{
    assoc_map, distinct_keys, has_key, holds_nothing, lemma_assoc_dom, lemma_assoc_nothing,
    lemma_assoc_push, lemma_assoc_remove, lemma_assoc_update, lemma_overlay_insert,
    lemma_overlay_nothing, overlay,
};
use crate::bytes::bytes_eq;
use crate::format::{
    decode_shard, encode_shard, law_shard_round_trip, parse_shard, shard_image, view_records,
    Record, RecordView,
};
use crate::shard::{ShardAddr, ShardId};
use vstd::prelude::*;
use vstd::slice::slice_to_vec;

verus! {

/// A buffered mutation of one key: a new value, or `None` for a tombstone.
pub type Mutation = (Vec<u8>, Option<Vec<u8>>);

/// A mutation as byte sequences.
pub type MutationView = (Seq<u8>, Option<Seq<u8>>);

/// The records of a shard, by key.
pub type Records = Map<Seq<u8>, Seq<u8>>;

/// Mutations by key: a new value, or `None` where the key is to go.
pub type Changes = Map<Seq<u8>, Option<Seq<u8>>>;

/// A buffered value as a byte sequence.
pub open spec fn view_value(value: Option<Vec<u8>>) -> Option<Seq<u8>> {
    match value {
        Some(bytes) => Some(bytes@),
        None => None,
    }
}

/// The mutations of `ms` as byte sequences.
pub open spec fn view_mutations(ms: Seq<Mutation>) -> Seq<MutationView> {
    Seq::new(ms.len(), |i: int| (ms[i].0@, view_value(ms[i].1)))
}

/// The contents of a file that may be absent.
pub open spec fn view_file(file: Option<&[u8]>) -> Option<Seq<u8>> {
    match file {
        Some(bytes) => Some(bytes@),
        None => None,
    }
}

/// The records that a flush finds in a shard file: those the file stores, a
/// later record of a key replacing an earlier one; none if the file is absent
/// or cannot be read.
pub open spec fn stored_records(file: Option<Seq<u8>>) -> Records {
    match file {
        Some(bytes) => match parse_shard(bytes) {
            Ok(rs) => assoc_map(rs),
            Err(_) => Map::empty(),
        },
        None => Map::empty(),
    }
}

/// Whether `bytes` is a shard file written for `records`: the file stores
/// each key of `records` once, with its value, and nothing else.
pub open spec fn stores(bytes: Seq<u8>, records: Records) -> bool {
    match parse_shard(bytes) {
        Ok(rs) => bytes == shard_image(rs) && distinct_keys(rs) && assoc_map(rs) == records,
        Err(_) => false,
    }
}

/// Whether `after` is what a shard file is after the merge of `changes` into
/// `existing`: the file that stores the merged records, or no file where no
/// record is left.
pub open spec fn merged_file(
    existing: Option<Seq<u8>>,
    changes: Changes,
    after: Option<Seq<u8>>,
) -> bool {
    let merged = overlay(stored_records(existing), changes);
    match after {
        Some(bytes) => stores(bytes, merged) && !holds_nothing(merged),
        None => holds_nothing(merged),
    }
}

/// The mutations that a flush holds for one shard.
#[derive(Debug)]
pub struct ShardBatch {
    /// The shard that the keys of `entries` belong to.
    pub shard: ShardAddr,
    /// The mutations, in the order in which they apply.
    pub entries: Vec<Mutation>,
}

/// A batch as its shard and its mutations by key.
pub struct BatchView {
    pub shard: ShardId,
    pub changes: Changes,
}

impl View for ShardBatch {
    type V = BatchView;

    open spec fn view(&self) -> BatchView {
        BatchView { shard: self.shard@, changes: assoc_map(view_mutations(self.entries@)) }
    }
}

/// What a flush does with a shard file.
#[derive(Debug, PartialEq, Eq)]
pub enum ShardOutcome {
    /// Write these bytes over the file, creating it and its directories where they are missing.
    Write(Vec<u8>),
    /// Delete the file: no record is left in it.
    Delete,
    /// Do nothing: the file is absent and no record is to be stored.
    Nothing,
}

impl ShardOutcome {
    /// The shard file once the outcome is carried out: its contents, or
    /// `None` where there is no file.
    pub open spec fn file_after(&self) -> Option<Seq<u8>> {
        match self {
            ShardOutcome::Write(bytes) => Some(bytes@),
            ShardOutcome::Delete => None,
            ShardOutcome::Nothing => None,
        }
    }
}

/// The index of the record of `key`, if `records` holds one.
fn find_record(records: &Vec<Record>, key: &[u8]) -> (at: Option<usize>)
    ensures
        match at {
            Some(i) => i < records.len() && records[i as int].0@ == key@,
            None => forall|j: int| 0 <= j < records.len() ==> records[j].0@ != key@,
        },
{
    let mut i: usize = 0;
    while i < records.len()
        invariant
            i <= records.len(),
            forall|j: int| 0 <= j < i ==> records[j].0@ != key@,
        decreases records.len() - i,
    {
        if bytes_eq(records[i].0.as_slice(), key) {
            return Some(i);
        }
        i += 1;
    }
    None
}

/// Sets `key` to `value` in `records`.
fn upsert_record(records: &mut Vec<Record>, key: Vec<u8>, value: Vec<u8>)
    requires
        distinct_keys(view_records(old(records)@)),
    ensures
        distinct_keys(view_records(final(records)@)),
        assoc_map(view_records(final(records)@)) == assoc_map(view_records(old(records)@)).insert(
            key@,
            value@,
        ),
{
    let ghost before = view_records(records@);
    match find_record(records, key.as_slice()) {
        Some(i) => {
            records.set(i, (key, value));
            proof {
                let after = view_records(records@);
                assert(after =~= before.update(i as int, (before[i as int].0, value@)));
                lemma_assoc_update(before, i as int, value@);
                assert forall|a: int, b: int| 0 <= a < b < after.len() implies after[a].0
                    != after[b].0 by {
                    assert(after[a].0 == before[a].0);
                    assert(after[b].0 == before[b].0);
                }
            }
        },
        None => {
            records.push((key, value));
            proof {
                let after = view_records(records@);
                assert(after =~= before.push((key@, value@)));
                lemma_assoc_push(before, key@, value@);
                assert forall|a: int, b: int| 0 <= a < b < after.len() implies after[a].0
                    != after[b].0 by {
                    assert(after[a].0 == before[a].0);
                    if b < before.len() {
                        assert(after[b].0 == before[b].0);
                    }
                }
            }
        },
    }
}

/// Takes `key` out of `records`.
fn remove_record(records: &mut Vec<Record>, key: &[u8])
    requires
        distinct_keys(view_records(old(records)@)),
    ensures
        distinct_keys(view_records(final(records)@)),
        assoc_map(view_records(final(records)@)) == assoc_map(view_records(old(records)@)).remove(
            key@,
        ),
{
    let ghost before = view_records(records@);
    match find_record(records, key) {
        Some(i) => {
            records.remove(i);
            proof {
                let after = view_records(records@);
                assert(after =~= before.remove(i as int));
                lemma_assoc_remove(before, i as int);
                assert forall|a: int, b: int| 0 <= a < b < after.len() implies after[a].0
                    != after[b].0 by {
                    let a0 = if a < i { a } else { a + 1 };
                    let b0 = if b < i { b } else { b + 1 };
                    assert(after[a] == before[a0]);
                    assert(after[b] == before[b0]);
                }
            }
        },
        None => {
            proof {
                lemma_assoc_dom(before, key@);
                assert(!has_key(before, key@)) by {
                    if has_key(before, key@) {
                        let j = choose|j: int|
                            0 <= j < before.len() && (#[trigger] before[j]).0 == key@;
                        assert(records[j].0@ == key@);
                    }
                }
                assert(assoc_map(before).remove(key@) =~= assoc_map(before));
            }
        },
    }
}

/// The records that a flush finds in a shard file, each key once.
fn load_records(existing: Option<&[u8]>) -> (records: Vec<Record>)
    ensures
        distinct_keys(view_records(records@)),
        assoc_map(view_records(records@)) == stored_records(view_file(existing)),
{
    let mut records: Vec<Record> = Vec::new();
    let bytes = match existing {
        Some(bytes) => bytes,
        None => {
            return records;
        },
    };
    let read = match decode_shard(bytes) {
        Ok(read) => read,
        Err(_) => {
            return records;
        },
    };
    let ghost all = view_records(read@);
    assert(all.take(0) =~= Seq::<RecordView>::empty());
    let mut i: usize = 0;
    while i < read.len()
        invariant
            i <= read.len(),
            all == view_records(read@),
            distinct_keys(view_records(records@)),
            assoc_map(view_records(records@)) == assoc_map(all.take(i as int)),
        decreases read.len() - i,
    {
        let key = slice_to_vec(read[i].0.as_slice());
        let value = slice_to_vec(read[i].1.as_slice());
        proof {
            assert(all.take(i + 1) =~= all.take(i as int).push((key@, value@)));
            lemma_assoc_push(all.take(i as int), key@, value@);
        }
        upsert_record(&mut records, key, value);
        i += 1;
    }
    assert(all.take(i as int) =~= all);
    records
}

impl ShardBatch {
    /// Merges the batch into its shard file. `existing` is what the file
    /// holds now, `None` if there is no such file; a file that cannot be read
    /// counts as holding nothing. Every mutation of the batch is applied, an
    /// upsert setting its key and a tombstone removing it, and every other
    /// record of the file is kept.
    pub fn merge(&self, existing: Option<&[u8]>) -> (outcome: ShardOutcome)
        ensures
            merged_file(view_file(existing), self@.changes, outcome.file_after()),
            outcome is Delete ==> existing is Some,
            outcome is Nothing ==> existing is None,
    {
        let ghost base = stored_records(view_file(existing));
        let ghost changes = view_mutations(self.entries@);
        let mut records = load_records(existing);
        let mut i: usize = 0;
        proof {
            assert(changes.take(0) =~= Seq::<MutationView>::empty());
            lemma_overlay_nothing(base);
        }
        while i < self.entries.len()
            invariant
                i <= self.entries.len(),
                changes == view_mutations(self.entries@),
                distinct_keys(view_records(records@)),
                assoc_map(view_records(records@)) == overlay(
                    base,
                    assoc_map(changes.take(i as int)),
                ),
            decreases self.entries.len() - i,
        {
            proof {
                assert(changes.take(i + 1) =~= changes.take(i as int).push(changes[i as int]));
                lemma_assoc_push(changes.take(i as int), changes[i as int].0, changes[i as int].1);
                lemma_overlay_insert(
                    base,
                    assoc_map(changes.take(i as int)),
                    changes[i as int].0,
                    changes[i as int].1,
                );
            }
            match &self.entries[i].1 {
                Some(value) => {
                    let key = slice_to_vec(self.entries[i].0.as_slice());
                    upsert_record(&mut records, key, slice_to_vec(value.as_slice()));
                },
                None => {
                    remove_record(&mut records, self.entries[i].0.as_slice());
                },
            }
            i += 1;
        }
        proof {
            assert(changes.take(i as int) =~= changes);
            lemma_assoc_nothing(view_records(records@));
        }
        if records.len() == 0 {
            if existing.is_some() {
                ShardOutcome::Delete
            } else {
                ShardOutcome::Nothing
            }
        } else {
            let bytes = encode_shard(&records);
            proof {
                let rs = view_records(records@);
                assert forall|j: int| 0 <= j < rs.len() implies (#[trigger] rs[j]).0.len()
                    <= usize::MAX && rs[j].1.len() <= usize::MAX by {
                    assert(records[j].0.len() == rs[j].0.len());
                    assert(records[j].1.len() == rs[j].1.len());
                }
                law_shard_round_trip(rs);
            }
            ShardOutcome::Write(bytes)
        }
    }
}

} // verus!
