//! What holds of the store as a whole, over a model of the cache directory.
//!
//! The directory is modelled as the shard files present in it, each under
//! the shard it is the file of. A flush is carried out faithfully when every
//! batch of the plan has been merged into the file of its shard and no other
//! file has changed. The laws say what a reader then finds.

use crate::assoc::{
    assoc_map, distinct_keys, has_key, holds_nothing, lemma_assoc_dom, lemma_assoc_value, overlay,
};
use crate::batch::{merged_file, stored_records, BatchView, Changes};
use crate::format::{law_readable_shard_not_empty, parse_shard, RecordView};
use crate::shard::{
    dir_name, file_name, key_digest, lemma_shard_path_injective, shard_of, ShardId,
};
use crate::storage::{gathered, in_batches, is_plan, readable_records, Pending, ScopedKey};
use vstd::prelude::*;

verus! {

/// The shard files of a cache directory: the contents of each file that is
/// present, under its shard.
pub type Disk = Map<ShardId, Seq<u8>>;

/// The file of `shard`, if the directory holds one.
pub open spec fn file_at(disk: Disk, shard: ShardId) -> Option<Seq<u8>> {
    if disk.contains_key(shard) {
        Some(disk[shard])
    } else {
        None
    }
}

/// The value that the directory holds for `key` in `scope`: the one that the
/// file of the key's shard stores for it, if any.
pub open spec fn lookup(disk: Disk, scope: Seq<char>, key: Seq<u8>) -> Option<Seq<u8>> {
    let records = stored_records(file_at(disk, shard_of(scope, key)));
    if records.contains_key(key) {
        Some(records[key])
    } else {
        None
    }
}

/// The buffered mutations that belong to `shard`.
pub open spec fn changes_for(pending: Pending, shard: ShardId) -> Changes {
    Map::new(
        |k: Seq<u8>| pending.contains_key((shard.scope, k)) && key_digest(k) == shard.digest,
        |k: Seq<u8>| pending[(shard.scope, k)],
    )
}

/// Whether `after` is the directory `disk` once the batches of a flush have
/// been carried out: the file of each batch's shard is the merge of the batch
/// into what was there, and every other file is as it was.
pub open spec fn carried_out(disk: Disk, batches: Seq<BatchView>, after: Disk) -> bool {
    &&& forall|j: int|
        0 <= j < batches.len() ==> merged_file(
            file_at(disk, (#[trigger] batches[j]).shard),
            batches[j].changes,
            file_at(after, batches[j].shard),
        )
    &&& forall|shard: ShardId|
        (forall|j: int| 0 <= j < batches.len() ==> (#[trigger] batches[j]).shard != shard)
            ==> #[trigger] file_at(after, shard) == file_at(disk, shard)
}

/// Whether `after` is the directory `disk` after a flush of `pending`: each
/// shard that a buffered mutation belongs to holds the merge of its mutations
/// into what it held, or is gone where nothing is left; every other shard is
/// as it was.
pub open spec fn flushed(disk: Disk, pending: Pending, after: Disk) -> bool {
    forall|shard: ShardId|
        if holds_nothing(changes_for(pending, shard)) {
            #[trigger] file_at(after, shard) == file_at(disk, shard)
        } else {
            merged_file(file_at(disk, shard), changes_for(pending, shard), file_at(after, shard))
        }
}

/// A batch of a plan holds exactly the buffered mutations of its shard.
pub proof fn lemma_plan_batch(pending: Pending, batches: Seq<BatchView>, j: int)
    requires
        is_plan(pending, batches),
        0 <= j < batches.len(),
    ensures
        batches[j].changes == changes_for(pending, batches[j].shard),
{
    let shard = batches[j].shard;
    let ours = changes_for(pending, shard);
    assert forall|k: Seq<u8>| ours.contains_key(k) implies batches[j].changes.contains_key(k) by {
        assert(pending.contains_key((shard.scope, k)));
        assert(in_batches(batches, shard.scope, k));
        let i = choose|i: int|
            0 <= i < batches.len() && (#[trigger] batches[i]).shard == shard_of(shard.scope, k)
                && batches[i].changes.contains_key(k);
        assert(shard_of(shard.scope, k) == shard);
        if i < j {
            assert(batches[i].shard != batches[j].shard);
        } else if j < i {
            assert(batches[j].shard != batches[i].shard);
        }
    }
    assert forall|k: Seq<u8>| batches[j].changes.contains_key(k) implies ours.contains_key(k)
        && ours[k] == batches[j].changes[k] by {
        assert(shard_of(shard.scope, k) == shard);
    }
    assert(batches[j].changes =~= ours);
}

/// Carrying out a flush plan flushes the buffer: if every batch of a plan for
/// `pending` is merged into the file of its shard, and nothing else changes,
/// the directory is what a flush of `pending` leaves.
pub proof fn law_plan_flushes(disk: Disk, pending: Pending, batches: Seq<BatchView>, after: Disk)
    requires
        is_plan(pending, batches),
        carried_out(disk, batches, after),
    ensures
        flushed(disk, pending, after),
{
    assert forall|shard: ShardId|
        if holds_nothing(changes_for(pending, shard)) {
            #[trigger] file_at(after, shard) == file_at(disk, shard)
        } else {
            merged_file(file_at(disk, shard), changes_for(pending, shard), file_at(after, shard))
        } by {
        let ours = changes_for(pending, shard);
        if holds_nothing(ours) {
            assert forall|j: int| 0 <= j < batches.len() implies (#[trigger] batches[j]).shard
                != shard by {
                if batches[j].shard == shard {
                    lemma_plan_batch(pending, batches, j);
                    assert(!holds_nothing(batches[j].changes));
                }
            }
        } else {
            let k = choose|k: Seq<u8>| ours.contains_key(k);
            assert(pending.contains_key((shard.scope, k)));
            assert(in_batches(batches, shard.scope, k));
            let j = choose|j: int|
                0 <= j < batches.len() && (#[trigger] batches[j]).shard == shard_of(shard.scope, k)
                    && batches[j].changes.contains_key(k);
            assert(shard_of(shard.scope, k) == shard);
            lemma_plan_batch(pending, batches, j);
        }
    }
}

/// After a flush each key holds what was last buffered for it: a key with a
/// buffered upsert has the upsert's value, a key with a buffered tombstone is
/// gone, and a key with no buffered mutation is as it was, whatever other
/// keys share its shard.
pub proof fn law_flush_lookup(
    disk: Disk,
    pending: Pending,
    after: Disk,
    scope: Seq<char>,
    key: Seq<u8>,
)
    requires
        flushed(disk, pending, after),
    ensures
        lookup(after, scope, key) == if pending.contains_key((scope, key)) {
            pending[(scope, key)]
        } else {
            lookup(disk, scope, key)
        },
{
    let shard = shard_of(scope, key);
    let ours = changes_for(pending, shard);
    let held = stored_records(file_at(disk, shard));
    assert(file_at(after, shard) == file_at(after, shard));
    if holds_nothing(ours) {
        assert(!ours.contains_key(key));
    } else {
        let merged = overlay(held, ours);
        assert(ours.contains_key(key) <==> pending.contains_key((scope, key)));
        match file_at(after, shard) {
            Some(bytes) => {
                assert(stored_records(Some(bytes)) == merged);
            },
            None => {
                assert(!merged.contains_key(key));
            },
        }
    }
}

/// Whether a shard file is in order for the shard of digest `digest`: if it
/// can be read, it stores no key twice and only keys of that digest.
pub open spec fn tidy_file(bytes: Seq<u8>, digest: u64) -> bool {
    match parse_shard(bytes) {
        Ok(rs) => distinct_keys(rs) && forall|i: int|
            0 <= i < rs.len() ==> key_digest((#[trigger] rs[i]).0) == digest,
        Err(_) => true,
    }
}

/// Whether every shard file of the directory is in order for its shard. The
/// empty directory is, and a flush keeps a directory so.
pub open spec fn tidy(disk: Disk) -> bool {
    forall|shard: ShardId| #[trigger] disk.contains_key(shard) ==> tidy_file(disk[shard], shard.digest)
}

/// Whether `shards` lists the shard files of `scope`: each shard of the
/// scope whose file is present, once, in any order.
pub open spec fn lists(disk: Disk, scope: Seq<char>, shards: Seq<ShardId>) -> bool {
    &&& shards.no_duplicates()
    &&& forall|shard: ShardId|
        #![trigger shards.contains(shard)]
        #![trigger disk.contains_key(shard)]
        shards.contains(shard) <==> disk.contains_key(shard) && shard.scope == scope
}

/// The contents of the files of `shards`, in that order.
pub open spec fn files_of(disk: Disk, shards: Seq<ShardId>) -> Seq<Seq<u8>> {
    Seq::new(shards.len(), |i: int| disk[shards[i]])
}

/// The buffer after a `set` of each record of `records` in `scope`, in order.
pub open spec fn after_sets(pending: Pending, scope: Seq<char>, records: Seq<RecordView>) -> Pending
    decreases records.len(),
{
    if records.len() == 0 {
        pending
    } else {
        after_sets(pending, scope, records.drop_last()).insert(
            (scope, records.last().0),
            Some(records.last().1),
        )
    }
}

/// A flush leaves a directory in order that was in order before.
pub proof fn law_flush_keeps_tidy(disk: Disk, pending: Pending, after: Disk)
    requires
        tidy(disk),
        flushed(disk, pending, after),
    ensures
        tidy(after),
{
    assert forall|shard: ShardId| #[trigger] after.contains_key(shard) implies tidy_file(
        after[shard],
        shard.digest,
    ) by {
        let ours = changes_for(pending, shard);
        assert(file_at(after, shard) == Some(after[shard]));
        if holds_nothing(ours) {
            assert(disk.contains_key(shard));
        } else {
            let held = stored_records(file_at(disk, shard));
            let merged = overlay(held, ours);
            let rs = parse_shard(after[shard]).unwrap();
            assert forall|i: int| 0 <= i < rs.len() implies key_digest((#[trigger] rs[i]).0)
                == shard.digest by {
                let k = rs[i].0;
                lemma_assoc_value(rs, i);
                assert(merged.contains_key(k));
                if !ours.contains_key(k) {
                    assert(held.contains_key(k));
                    assert(disk.contains_key(shard));
                    let old = parse_shard(disk[shard]).unwrap();
                    lemma_assoc_dom(old, k);
                    let i0 = choose|i0: int| 0 <= i0 < old.len() && (#[trigger] old[i0]).0 == k;
                    assert(key_digest(old[i0].0) == shard.digest);
                }
            }
        }
    }
}

/// A record is among the gathered ones exactly if one of the files stores it.
pub proof fn lemma_gathered_contains(files: Seq<Seq<u8>>, r: RecordView)
    ensures
        gathered(files).contains(r) <==> exists|i: int|
            0 <= i < files.len() && (#[trigger] readable_records(files[i])).contains(r),
    decreases files.len(),
{
    if files.len() == 0 {
    } else {
        let front = files.drop_last();
        let g = gathered(front);
        let last = readable_records(files.last());
        let all = g + last;
        lemma_gathered_contains(front, r);
        if all.contains(r) {
            let p = choose|p: int| 0 <= p < all.len() && all[p] == r;
            if p < g.len() {
                assert(g[p] == r);
                assert(g.contains(r));
                let i = choose|i: int|
                    0 <= i < front.len() && (#[trigger] readable_records(front[i])).contains(r);
                assert(front[i] == files[i]);
                assert(readable_records(files[i]).contains(r));
            } else {
                assert(last[p - g.len()] == r);
                assert(last.contains(r));
                assert(readable_records(files[files.len() - 1]).contains(r));
            }
        }
        if exists|i: int|
            0 <= i < files.len() && (#[trigger] readable_records(files[i])).contains(r) {
            let i = choose|i: int|
                0 <= i < files.len() && (#[trigger] readable_records(files[i])).contains(r);
            if i < files.len() - 1 {
                assert(front[i] == files[i]);
                assert(readable_records(front[i]).contains(r));
                assert(g.contains(r));
                let p = choose|p: int| 0 <= p < g.len() && g[p] == r;
                assert(all[p] == r);
            } else {
                let q = choose|q: int| 0 <= q < last.len() && last[q] == r;
                assert(all[g.len() + q] == r);
            }
        }
    }
}

/// What is gathered from distinct shard files of one scope, in a directory
/// that is in order, holds no key twice.
pub proof fn lemma_gathered_distinct(disk: Disk, scope: Seq<char>, shards: Seq<ShardId>)
    requires
        tidy(disk),
        shards.no_duplicates(),
        forall|i: int|
            0 <= i < shards.len() ==> disk.contains_key(#[trigger] shards[i]) && shards[i].scope
                == scope,
    ensures
        distinct_keys(gathered(files_of(disk, shards))),
    decreases shards.len(),
{
    let files = files_of(disk, shards);
    if shards.len() > 0 {
        let front = shards.drop_last();
        let g = gathered(files_of(disk, front));
        let last = readable_records(files.last());
        let all = gathered(files);
        assert(files.drop_last() =~= files_of(disk, front));
        assert forall|i: int| 0 <= i < front.len() implies disk.contains_key(#[trigger] front[i])
            && front[i].scope == scope by {
            assert(front[i] == shards[i]);
        }
        lemma_gathered_distinct(disk, scope, front);
        let here = shards.last();
        assert(disk.contains_key(here));
        assert forall|a: int, b: int| 0 <= a < b < all.len() implies all[a].0 != all[b].0 by {
            if b < g.len() {
                assert(all[a] == g[a] && all[b] == g[b]);
            } else if a >= g.len() {
                assert(all[a] == last[a - g.len()] && all[b] == last[b - g.len()]);
            } else {
                let r = g[a];
                assert(all[a] == r);
                assert(all[b] == last[b - g.len()]);
                assert(key_digest(last[b - g.len()].0) == here.digest);
                assert(g.contains(r));
                lemma_gathered_contains(files_of(disk, front), r);
                let i = choose|i: int|
                    0 <= i < front.len() && (#[trigger] readable_records(
                        files_of(disk, front)[i],
                    )).contains(r);
                let there = front[i];
                assert(there == shards[i]);
                assert(disk.contains_key(there));
                let rs = readable_records(disk[there]);
                let q = choose|q: int| 0 <= q < rs.len() && rs[q] == r;
                assert(key_digest(rs[q].0) == there.digest);
                if all[a].0 == all[b].0 {
                    assert(there == here);
                    assert(shards[i] == shards[shards.len() - 1]);
                }
            }
        }
    }
}

/// What a read of a scope returns: in a directory that is in order, the
/// records gathered from the scope's shard files, in whatever order the
/// files are listed, are each key that the directory holds in the scope,
/// once, with the value it holds for it.
pub proof fn law_get_all(disk: Disk, scope: Seq<char>, shards: Seq<ShardId>)
    requires
        tidy(disk),
        lists(disk, scope, shards),
    ensures
        distinct_keys(gathered(files_of(disk, shards))),
        forall|k: Seq<u8>, v: Seq<u8>| #[trigger]
            gathered(files_of(disk, shards)).contains((k, v)) <==> lookup(disk, scope, k) == Some(
                v,
            ),
{
    let files = files_of(disk, shards);
    let all = gathered(files);
    assert forall|i: int| 0 <= i < shards.len() implies disk.contains_key(#[trigger] shards[i])
        && shards[i].scope == scope by {
        assert(shards.contains(shards[i]));
    }
    lemma_gathered_distinct(disk, scope, shards);
    assert forall|k: Seq<u8>, v: Seq<u8>| #[trigger] all.contains((k, v)) <==> lookup(disk, scope, k)
        == Some(v) by {
        let home = shard_of(scope, k);
        lemma_gathered_contains(files, (k, v));
        if all.contains((k, v)) {
            let i = choose|i: int|
                0 <= i < files.len() && (#[trigger] readable_records(files[i])).contains((k, v));
            let there = shards[i];
            assert(disk.contains_key(there));
            let rs = readable_records(disk[there]);
            let q = choose|q: int| 0 <= q < rs.len() && rs[q] == (k, v);
            assert(key_digest(rs[q].0) == there.digest);
            assert(there == home);
            lemma_assoc_value(rs, q);
        }
        if lookup(disk, scope, k) == Some(v) {
            assert(disk.contains_key(home));
            let rs = parse_shard(disk[home]).unwrap();
            lemma_assoc_dom(rs, k);
            let q = choose|q: int| 0 <= q < rs.len() && (#[trigger] rs[q]).0 == k;
            lemma_assoc_value(rs, q);
            assert(rs[q] == (k, v));
            assert(shards.contains(home));
            let i = choose|i: int| 0 <= i < shards.len() && shards[i] == home;
            assert(files[i] == disk[home]);
            assert(readable_records(files[i]).contains((k, v)));
        }
    }
}

/// What `set` leaves in an empty buffer: the records by scoped key.
pub proof fn lemma_after_sets(scope: Seq<char>, records: Seq<RecordView>, s: Seq<char>, k: Seq<u8>)
    ensures
        ({
            let pending = after_sets(Map::<ScopedKey, Option<Seq<u8>>>::empty(), scope, records);
            &&& pending.contains_key((s, k)) <==> s == scope && has_key(records, k)
            &&& pending.contains_key((s, k)) ==> pending[(s, k)] == Some(assoc_map(records)[k])
        }),
    decreases records.len(),
{
    if records.len() > 0 {
        let front = records.drop_last();
        lemma_after_sets(scope, front, s, k);
        if has_key(records, k) {
            let i = choose|i: int| 0 <= i < records.len() && (#[trigger] records[i]).0 == k;
            if i < front.len() {
                assert(front[i].0 == k);
            }
        }
        if has_key(front, k) {
            let i = choose|i: int| 0 <= i < front.len() && (#[trigger] front[i]).0 == k;
            assert(records[i].0 == k);
        }
        if records.last().0 == k {
            assert(records[records.len() - 1].0 == k);
        }
    }
}

/// Round trip: starting from an empty cache directory, after a `set` of each
/// of a list of records with distinct keys and a flush, a read of the scope
/// returns exactly those records, each once, in some order.
pub proof fn law_round_trip(
    scope: Seq<char>,
    records: Seq<RecordView>,
    after: Disk,
    shards: Seq<ShardId>,
)
    requires
        distinct_keys(records),
        flushed(
            Map::<ShardId, Seq<u8>>::empty(),
            after_sets(Map::<ScopedKey, Option<Seq<u8>>>::empty(), scope, records),
            after,
        ),
        lists(after, scope, shards),
    ensures
        distinct_keys(gathered(files_of(after, shards))),
        forall|r: RecordView| #[trigger]
            gathered(files_of(after, shards)).contains(r) <==> records.contains(r),
        gathered(files_of(after, shards)).to_multiset() == records.to_multiset(),
{
    let empty = Map::<ShardId, Seq<u8>>::empty();
    let pending = after_sets(Map::<ScopedKey, Option<Seq<u8>>>::empty(), scope, records);
    let all = gathered(files_of(after, shards));
    law_flush_keeps_tidy(empty, pending, after);
    law_get_all(after, scope, shards);
    assert forall|r: RecordView| #[trigger] all.contains(r) <==> records.contains(r) by {
        let k = r.0;
        let v = r.1;
        assert(r == (k, v));
        law_flush_lookup(empty, pending, after, scope, k);
        lemma_after_sets(scope, records, scope, k);
        assert(lookup(empty, scope, k) is None);
        if records.contains(r) {
            let i = choose|i: int| 0 <= i < records.len() && records[i] == r;
            assert(records[i].0 == k);
            lemma_assoc_value(records, i);
        }
        if all.contains((k, v)) {
            let i = choose|i: int| 0 <= i < records.len() && (#[trigger] records[i]).0 == k;
            lemma_assoc_value(records, i);
            assert(records[i] == r);
        }
    }
    lemma_same_members(all, records);
}

/// Two lists without repeated keys that hold the same pairs hold them equally often.
pub proof fn lemma_same_members<K, V>(a: Seq<(K, V)>, b: Seq<(K, V)>)
    requires
        distinct_keys(a),
        distinct_keys(b),
        forall|x: (K, V)| #[trigger] a.contains(x) <==> b.contains(x),
    ensures
        a.to_multiset() == b.to_multiset(),
{
    a.to_multiset_ensures();
    b.to_multiset_ensures();
    a.lemma_multiset_has_no_duplicates();
    b.lemma_multiset_has_no_duplicates();
    assert forall|x: (K, V)| a.to_multiset().count(x) == b.to_multiset().count(x) by {
        if a.contains(x) {
            assert(b.contains(x));
            assert(a.to_multiset().contains(x));
            assert(b.to_multiset().contains(x));
        } else {
            assert(!b.contains(x));
        }
    }
    assert(a.to_multiset() =~= b.to_multiset());
}

/// Tombstone: a key that was stored by one flush and removed by the next is
/// no longer held, and no read of its scope returns it.
pub proof fn law_tombstone(
    disk: Disk,
    scope: Seq<char>,
    key: Seq<u8>,
    value: Seq<u8>,
    stored: Disk,
    after: Disk,
    shards: Seq<ShardId>,
)
    requires
        tidy(disk),
        flushed(
            disk,
            Map::<ScopedKey, Option<Seq<u8>>>::empty().insert((scope, key), Some(value)),
            stored,
        ),
        flushed(
            stored,
            Map::<ScopedKey, Option<Seq<u8>>>::empty().insert((scope, key), None),
            after,
        ),
        lists(after, scope, shards),
    ensures
        lookup(stored, scope, key) == Some(value),
        lookup(after, scope, key) is None,
        forall|v: Seq<u8>| !(#[trigger] gathered(files_of(after, shards)).contains((key, v))),
{
    let first = Map::<ScopedKey, Option<Seq<u8>>>::empty().insert((scope, key), Some(value));
    let second = Map::<ScopedKey, Option<Seq<u8>>>::empty().insert((scope, key), None);
    law_flush_lookup(disk, first, stored, scope, key);
    law_flush_lookup(stored, second, after, scope, key);
    law_flush_keeps_tidy(disk, first, stored);
    law_flush_keeps_tidy(stored, second, after);
    law_get_all(after, scope, shards);
}

/// Last write wins before a flush: of two `set`s of one key only the second
/// reaches the directory, and a read of the scope returns the key with the
/// second value only.
pub proof fn law_last_write_wins(
    disk: Disk,
    scope: Seq<char>,
    key: Seq<u8>,
    first: Seq<u8>,
    second: Seq<u8>,
    after: Disk,
    shards: Seq<ShardId>,
)
    requires
        tidy(disk),
        flushed(
            disk,
            Map::<ScopedKey, Option<Seq<u8>>>::empty().insert((scope, key), Some(first)).insert(
                (scope, key),
                Some(second),
            ),
            after,
        ),
        lists(after, scope, shards),
    ensures
        lookup(after, scope, key) == Some(second),
        forall|v: Seq<u8>| #[trigger]
            gathered(files_of(after, shards)).contains((key, v)) <==> v == second,
        disk == Map::<ShardId, Seq<u8>>::empty() ==> gathered(files_of(after, shards)) == seq![
            (key, second),
        ],
{
    let pending = Map::<ScopedKey, Option<Seq<u8>>>::empty().insert(
        (scope, key),
        Some(first),
    ).insert((scope, key), Some(second));
    let all = gathered(files_of(after, shards));
    law_flush_lookup(disk, pending, after, scope, key);
    law_flush_keeps_tidy(disk, pending, after);
    law_get_all(after, scope, shards);
    if disk == Map::<ShardId, Seq<u8>>::empty() {
        assert forall|i: int| 0 <= i < all.len() implies all[i] == (key, second) by {
            let r = all[i];
            assert(all.contains((r.0, r.1)));
            law_flush_lookup(disk, pending, after, scope, r.0);
        }
        assert(all.contains((key, second)));
        if all.len() >= 2 {
            assert(all[0].0 == all[1].0);
        }
        assert(all =~= seq![(key, second)]);
    }
}

/// Shard-collision safety: two distinct keys of one digest, set in one
/// unflushed batch, are both held after the flush, each with its own value,
/// and a read of the scope returns both.
pub proof fn law_collision_safe(
    disk: Disk,
    pending: Pending,
    scope: Seq<char>,
    a: RecordView,
    b: RecordView,
    after: Disk,
    shards: Seq<ShardId>,
)
    requires
        tidy(disk),
        a.0 != b.0,
        key_digest(a.0) == key_digest(b.0),
        flushed(disk, pending.insert((scope, a.0), Some(a.1)).insert((scope, b.0), Some(b.1)), after),
        lists(after, scope, shards),
    ensures
        shard_of(scope, a.0) == shard_of(scope, b.0),
        lookup(after, scope, a.0) == Some(a.1),
        lookup(after, scope, b.0) == Some(b.1),
        gathered(files_of(after, shards)).contains(a),
        gathered(files_of(after, shards)).contains(b),
{
    let both = pending.insert((scope, a.0), Some(a.1)).insert((scope, b.0), Some(b.1));
    law_flush_lookup(disk, both, after, scope, a.0);
    law_flush_lookup(disk, both, after, scope, b.0);
    law_flush_keeps_tidy(disk, both, after);
    law_get_all(after, scope, shards);
    assert(a == (a.0, a.1));
    assert(b == (b.0, b.1));
}

/// Empty shard removal: if a flush holds mutations for a shard, all of them
/// tombstones, and a tombstone for every key that the shard's file stores,
/// then afterwards the directory holds no file for the shard, and so none at
/// the shard's path.
pub proof fn law_empty_shard_removed(disk: Disk, pending: Pending, after: Disk, shard: ShardId)
    requires
        flushed(disk, pending, after),
        !holds_nothing(changes_for(pending, shard)),
        forall|k: Seq<u8>| #[trigger]
            changes_for(pending, shard).contains_key(k) ==> changes_for(pending, shard)[k] is None,
        forall|k: Seq<u8>| #[trigger]
            stored_records(file_at(disk, shard)).contains_key(k) ==> changes_for(
                pending,
                shard,
            ).contains_key(k),
    ensures
        !after.contains_key(shard),
        forall|other: ShardId| #[trigger]
            after.contains_key(other) && other.scope == shard.scope ==> !(dir_name(other.digest)
                == dir_name(shard.digest) && file_name(other.digest) == file_name(shard.digest)),
{
    let merged = overlay(stored_records(file_at(disk, shard)), changes_for(pending, shard));
    assert(file_at(after, shard) == file_at(after, shard));
    assert(holds_nothing(merged));
    assert forall|other: ShardId| #[trigger]
        after.contains_key(other) && other.scope == shard.scope implies !(dir_name(other.digest)
        == dir_name(shard.digest) && file_name(other.digest) == file_name(shard.digest)) by {
        if dir_name(other.digest) == dir_name(shard.digest) && file_name(other.digest)
            == file_name(shard.digest) {
            lemma_shard_path_injective(other.digest, shard.digest);
            assert(other == shard);
        }
    }
}

/// Corruption resilience: a shard file that cannot be read adds nothing to a
/// read, and the other files are read as if it were not there.
pub proof fn law_unreadable_skipped(files: Seq<Seq<u8>>, i: int)
    requires
        0 <= i < files.len(),
        parse_shard(files[i]) is Err,
    ensures
        gathered(files) == gathered(files.remove(i)),
    decreases files.len(),
{
    let front = files.drop_last();
    if i == files.len() - 1 {
        assert(files.remove(i) =~= front);
        assert(gathered(files) =~= gathered(front));
    } else {
        law_unreadable_skipped(front, i);
        assert(files.remove(i).drop_last() =~= front.remove(i));
        assert(files.remove(i).last() == files.last());
    }
}

/// A flush of an empty buffer leaves the directory as it is.
pub proof fn law_empty_flush(disk: Disk, after: Disk)
    requires
        flushed(disk, Map::<ScopedKey, Option<Seq<u8>>>::empty(), after),
    ensures
        after == disk,
{
    let nothing = Map::<ScopedKey, Option<Seq<u8>>>::empty();
    assert forall|shard: ShardId|
        #![trigger after.dom().contains(shard)]
        #![trigger disk.dom().contains(shard)]
        after.dom().contains(shard) == disk.dom().contains(shard) && (after.dom().contains(shard)
            ==> after[shard] == disk[shard]) by {
        assert(holds_nothing(changes_for(nothing, shard)));
        assert(file_at(after, shard) == file_at(disk, shard));
    }
    assert(after =~= disk);
}

/// Scopes never interact: a flush that holds no mutation for a scope leaves
/// every key of that scope as it was.
pub proof fn law_scopes_apart(
    disk: Disk,
    pending: Pending,
    after: Disk,
    scope: Seq<char>,
    key: Seq<u8>,
)
    requires
        flushed(disk, pending, after),
        forall|s: Seq<char>, k: Seq<u8>| #[trigger] pending.contains_key((s, k)) ==> s != scope,
    ensures
        lookup(after, scope, key) == lookup(disk, scope, key),
        file_at(after, shard_of(scope, key)) == file_at(disk, shard_of(scope, key)),
{
    let shard = shard_of(scope, key);
    law_flush_lookup(disk, pending, after, scope, key);
    assert(holds_nothing(changes_for(pending, shard))) by {
        assert forall|k: Seq<u8>| !changes_for(pending, shard).contains_key(k) by {
            if pending.contains_key((scope, k)) {
                assert(scope != scope);
            }
        }
    }
    assert(file_at(after, shard) == file_at(disk, shard));
}

/// A flush heals what it touches: the file of a shard that a buffered
/// mutation belongs to can be read afterwards, whatever it held before, and
/// holds at least one record.
pub proof fn law_flush_heals(disk: Disk, pending: Pending, after: Disk, shard: ShardId)
    requires
        flushed(disk, pending, after),
        !holds_nothing(changes_for(pending, shard)),
        after.contains_key(shard),
    ensures
        parse_shard(after[shard]) matches Ok(rs) && rs.len() > 0,
{
    assert(file_at(after, shard) == Some(after[shard]));
    law_readable_shard_not_empty(after[shard]);
}

} // verus!
