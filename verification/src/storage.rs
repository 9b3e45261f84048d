//! The disk-backed store: an in-memory buffer of pending mutations in front
//! of the shard files of a cache directory.
//!
//! `set` and `remove` only touch the buffer. `idle` empties the buffer into
//! one batch per affected shard; whoever owns the files reads each batch's
//! shard file, has the batch merged into it, and carries out what the merge
//! decides. `get_all` gathers the records of the shard files that were read
//! from a scope's directory.

use crate::assoc::{
    assoc_map, distinct_keys, has_key, holds_nothing, lemma_assoc_dom, lemma_assoc_push,
    lemma_assoc_update, lemma_assoc_value,
};
use crate::batch::{view_mutations, view_value, BatchView, Mutation, MutationView, ShardBatch};
use crate::bytes::{bytes_eq, str_eq};
use crate::format::{decode_shard, parse_shard, view_records, Record, RecordView};
use crate::shard::{shard_for_key, shard_of, ShardAddr};
use std::path::PathBuf;
use vstd::prelude::*;

verus! {

/// `std::path::PathBuf`. The store carries the cache directory's location
/// as a value of this type and never looks into it.
#[verifier::external_type_specification]
#[verifier::external_body]
pub struct ExPathBuf(PathBuf);

/// A key within its scope.
pub type ScopedKey = (Seq<char>, Seq<u8>);

/// The buffered mutations: for each key of each scope a new value, or `None`
/// for a tombstone.
pub type Pending = Map<ScopedKey, Option<Seq<u8>>>;

/// One buffered mutation.
#[derive(Debug)]
struct PendingEntry {
    scope: &'static str,
    key: Vec<u8>,
    value: Option<Vec<u8>>,
}

/// The entries of `es` as pairs of scoped key and mutation.
spec fn view_pending(es: Seq<PendingEntry>) -> Seq<(ScopedKey, Option<Seq<u8>>)> {
    Seq::new(es.len(), |i: int| ((es[i].scope@, es[i].key@), view_value(es[i].value)))
}

/// The batches of `bs` as shards and mutations by key.
pub open spec fn view_batches(bs: Seq<ShardBatch>) -> Seq<BatchView> {
    Seq::new(bs.len(), |i: int| bs[i]@)
}

/// The contents of the files of `files`.
pub open spec fn view_files(files: Seq<Vec<u8>>) -> Seq<Seq<u8>> {
    Seq::new(files.len(), |i: int| files[i]@)
}

/// Whether some batch of `batches` is for the shard of `key` in `scope` and holds `key`.
pub open spec fn in_batches(batches: Seq<BatchView>, scope: Seq<char>, key: Seq<u8>) -> bool {
    exists|j: int|
        0 <= j < batches.len() && (#[trigger] batches[j]).shard == shard_of(scope, key)
            && batches[j].changes.contains_key(key)
}

/// Whether `batches` is a flush plan for `pending`: the buffered mutations
/// grouped by shard. Each affected shard has exactly one batch, no batch is
/// empty, each batch holds only keys that belong to its shard, with the
/// mutation that was buffered for them, and every buffered mutation is in the
/// batch of its shard.
pub open spec fn is_plan(pending: Pending, batches: Seq<BatchView>) -> bool {
    &&& forall|i: int, j: int|
        0 <= i < j < batches.len() ==> (#[trigger] batches[i]).shard != (#[trigger] batches[j]).shard
    &&& forall|j: int| 0 <= j < batches.len() ==> !holds_nothing((#[trigger] batches[j]).changes)
    &&& forall|j: int, k: Seq<u8>|
        0 <= j < batches.len() && #[trigger] batches[j].changes.contains_key(k) ==> {
            &&& shard_of(batches[j].shard.scope, k) == batches[j].shard
            &&& pending.contains_key((batches[j].shard.scope, k))
            &&& pending[(batches[j].shard.scope, k)] == batches[j].changes[k]
        }
    &&& forall|s: Seq<char>, k: Seq<u8>| #[trigger]
        pending.contains_key((s, k)) ==> in_batches(batches, s, k)
}

/// Whether `batches` is a flush plan for the mutations of `pending` that are
/// no longer in `rest`.
spec fn covers(pending: Pending, rest: Pending, batches: Seq<BatchView>) -> bool {
    &&& forall|i: int, j: int|
        0 <= i < j < batches.len() ==> (#[trigger] batches[i]).shard != (#[trigger] batches[j]).shard
    &&& forall|j: int| 0 <= j < batches.len() ==> !holds_nothing((#[trigger] batches[j]).changes)
    &&& forall|j: int, k: Seq<u8>|
        0 <= j < batches.len() && #[trigger] batches[j].changes.contains_key(k) ==> {
            &&& shard_of(batches[j].shard.scope, k) == batches[j].shard
            &&& pending.contains_key((batches[j].shard.scope, k))
            &&& pending[(batches[j].shard.scope, k)] == batches[j].changes[k]
            &&& !rest.contains_key((batches[j].shard.scope, k))
        }
    &&& forall|s: Seq<char>, k: Seq<u8>| #[trigger]
        pending.contains_key((s, k)) ==> rest.contains_key((s, k)) || in_batches(batches, s, k)
}

/// Moving one more mutation from the buffer into the batch of its shard keeps
/// the batches a plan for what has left the buffer. `at` is the index of that
/// batch, or the number of batches if the shard had none yet.
proof fn lemma_covers_step(
    pending: Pending,
    rest: Pending,
    before: Seq<BatchView>,
    after: Seq<BatchView>,
    s: Seq<char>,
    k: Seq<u8>,
    v: Option<Seq<u8>>,
    at: int,
)
    requires
        covers(pending, rest, before),
        rest.contains_key((s, k)),
        pending.contains_key((s, k)),
        pending[(s, k)] == v,
        0 <= at <= before.len(),
        at < before.len() ==> before[at].shard == shard_of(s, k) && after == before.update(
            at,
            BatchView { shard: before[at].shard, changes: before[at].changes.insert(k, v) },
        ),
        at == before.len() ==> (forall|j: int|
            0 <= j < before.len() ==> (#[trigger] before[j]).shard != shard_of(s, k)) && after
            == before.push(
            BatchView { shard: shard_of(s, k), changes: Map::<Seq<u8>, Option<Seq<u8>>>::empty().insert(k, v) },
        ),
    ensures
        covers(pending, rest.remove((s, k)), after),
{
    let left = rest.remove((s, k));
    assert(after[at].shard == shard_of(s, k));
    assert(after[at].changes.contains_key(k));
    assert forall|i: int, j: int| 0 <= i < j < after.len() implies (#[trigger] after[i]).shard != (
    #[trigger] after[j]).shard by {
        if i < before.len() {
            assert(after[i].shard == before[i].shard);
        }
        if j < before.len() {
            assert(after[j].shard == before[j].shard);
        }
    }
    assert forall|j: int| 0 <= j < after.len() implies !holds_nothing(
        (#[trigger] after[j]).changes,
    ) by {
        if j == at {
            assert(after[j].changes.contains_key(k));
        } else {
            assert(after[j] == before[j]);
            assert(!holds_nothing(before[j].changes));
        }
    }
    assert forall|j: int, q: Seq<u8>|
        0 <= j < after.len() && #[trigger] after[j].changes.contains_key(q) implies {
        &&& shard_of(after[j].shard.scope, q) == after[j].shard
        &&& pending.contains_key((after[j].shard.scope, q))
        &&& pending[(after[j].shard.scope, q)] == after[j].changes[q]
        &&& !left.contains_key((after[j].shard.scope, q))
    } by {
        if j == at && q == k {
        } else if j == at {
            assert(at < before.len());
            assert(before[j].changes.contains_key(q));
        } else {
            assert(after[j] == before[j]);
            assert(before[j].changes.contains_key(q));
        }
    }
    assert forall|s1: Seq<char>, k1: Seq<u8>| #[trigger]
        pending.contains_key((s1, k1)) implies left.contains_key((s1, k1)) || in_batches(
        after,
        s1,
        k1,
    ) by {
        if s1 == s && k1 == k {
            assert(in_batches(after, s1, k1));
        } else if rest.contains_key((s1, k1)) {
            assert((s1, k1) != (s, k));
        } else {
            assert(in_batches(before, s1, k1));
            let j = choose|j: int|
                0 <= j < before.len() && (#[trigger] before[j]).shard == shard_of(s1, k1)
                    && before[j].changes.contains_key(k1);
            assert(after[j].shard == shard_of(s1, k1));
            assert(after[j].changes.contains_key(k1));
        }
    }
}

/// The records that a read takes from the shard file `bytes`: those the file
/// stores, in file order, or none if the file cannot be read.
pub open spec fn readable_records(bytes: Seq<u8>) -> Seq<RecordView> {
    match parse_shard(bytes) {
        Ok(rs) => rs,
        Err(_) => Seq::empty(),
    }
}

/// The records of all the shard files `files`, file after file.
pub open spec fn gathered(files: Seq<Seq<u8>>) -> Seq<RecordView>
    decreases files.len(),
{
    if files.len() == 0 {
        Seq::empty()
    } else {
        gathered(files.drop_last()) + readable_records(files.last())
    }
}

/// The index of the batch for `shard`, if `batches` holds one.
fn find_batch(batches: &Vec<ShardBatch>, shard: &ShardAddr) -> (at: Option<usize>)
    ensures
        match at {
            Some(j) => j < batches.len() && batches[j as int].shard@ == shard@,
            None => forall|j: int| 0 <= j < batches.len() ==> batches[j].shard@ != shard@,
        },
{
    let mut j: usize = 0;
    while j < batches.len()
        invariant
            j <= batches.len(),
            forall|i: int| 0 <= i < j ==> batches[i].shard@ != shard@,
        decreases batches.len() - j,
    {
        if batches[j].shard.digest == shard.digest && str_eq(batches[j].shard.scope, shard.scope) {
            return Some(j);
        }
        j += 1;
    }
    None
}

/// The index of the buffered mutation of `key` in `scope`, if there is one.
fn find_entry(pending: &Vec<PendingEntry>, scope: &str, key: &[u8]) -> (at: Option<usize>)
    ensures
        match at {
            Some(i) => i < pending.len() && view_pending(pending@)[i as int].0 == (scope@, key@),
            None => forall|j: int|
                0 <= j < pending.len() ==> view_pending(pending@)[j].0 != (scope@, key@),
        },
{
    let mut i: usize = 0;
    while i < pending.len()
        invariant
            i <= pending.len(),
            forall|j: int| 0 <= j < i ==> view_pending(pending@)[j].0 != (scope@, key@),
        decreases pending.len() - i,
    {
        if str_eq(pending[i].scope, scope) && bytes_eq(pending[i].key.as_slice(), key) {
            return Some(i);
        }
        i += 1;
    }
    None
}

/// The store: the cache directory's location and the buffer of mutations
/// that have not been flushed yet.
#[derive(Debug)]
pub struct FsStorage {
    location: PathBuf,
    pending: Vec<PendingEntry>,
}

impl View for FsStorage {
    type V = Pending;

    closed spec fn view(&self) -> Pending {
        assoc_map(view_pending(self.pending@))
    }
}

impl FsStorage {
    /// No scoped key is buffered twice.
    #[verifier::type_invariant]
    spec fn well_formed(self) -> bool {
        distinct_keys(view_pending(self.pending@))
    }

    /// The directory under which the store keeps its scopes.
    pub closed spec fn root(&self) -> PathBuf {
        self.location
    }

    /// A store over the cache directory `location`, with an empty buffer.
    pub fn new(location: PathBuf) -> (storage: Self)
        ensures
            storage@ == Map::<ScopedKey, Option<Seq<u8>>>::empty(),
            storage.root() == location,
    {
        FsStorage { location, pending: Vec::new() }
    }

    /// The directory under which the store keeps its scopes.
    pub fn location(&self) -> (root: &PathBuf)
        ensures
            *root == self.root(),
    {
        &self.location
    }

    /// Buffers `value` as the mutation of `key` in `scope`, in place of any
    /// mutation buffered for that key before.
    fn put(&mut self, scope: &'static str, key: Vec<u8>, value: Option<Vec<u8>>)
        ensures
            final(self)@ == old(self)@.insert((scope@, key@), view_value(value)),
            final(self).root() == old(self).root(),
    {
        proof {
            use_type_invariant(&*self);
        }
        let mut pending: Vec<PendingEntry> = Vec::new();
        std::mem::swap(&mut self.pending, &mut pending);
        let ghost before = view_pending(pending@);
        let ghost entry = ((scope@, key@), view_value(value));
        match find_entry(&pending, scope, key.as_slice()) {
            Some(i) => {
                pending.set(i, PendingEntry { scope, key, value });
                proof {
                    let after = view_pending(pending@);
                    assert(after =~= before.update(i as int, (before[i as int].0, entry.1)));
                    lemma_assoc_update(before, i as int, entry.1);
                    assert forall|a: int, b: int| 0 <= a < b < after.len() implies after[a].0
                        != after[b].0 by {
                        assert(after[a].0 == before[a].0);
                        assert(after[b].0 == before[b].0);
                    }
                }
            },
            None => {
                pending.push(PendingEntry { scope, key, value });
                proof {
                    let after = view_pending(pending@);
                    assert(after =~= before.push(entry));
                    lemma_assoc_push(before, entry.0, entry.1);
                    assert forall|a: int, b: int| 0 <= a < b < after.len() implies after[a].0
                        != after[b].0 by {
                        assert(after[a].0 == before[a].0);
                        if b < before.len() {
                            assert(after[b].0 == before[b].0);
                        }
                    }
                }
            },
        }
        std::mem::swap(&mut self.pending, &mut pending);
    }

    /// Buffers an upsert: after the next flush `key` has `value` in `scope`.
    /// It takes the place of any mutation buffered for that key before, and
    /// nothing reaches the disk until then.
    pub fn set(&mut self, scope: &'static str, key: Vec<u8>, value: Vec<u8>)
        ensures
            final(self)@ == old(self)@.insert((scope@, key@), Some(value@)),
            final(self).root() == old(self).root(),
    {
        self.put(scope, key, Some(value));
    }

    /// Buffers a tombstone: after the next flush `scope` holds no `key`. It
    /// takes the place of any mutation buffered for that key before, and
    /// nothing reaches the disk until then.
    pub fn remove(&mut self, scope: &'static str, key: &[u8])
        ensures
            final(self)@ == old(self)@.insert((scope@, key@), None),
            final(self).root() == old(self).root(),
    {
        self.put(scope, vstd::slice::slice_to_vec(key), None);
    }

    /// Flushes the buffer: hands out every buffered mutation, grouped into
    /// one batch per affected shard, and leaves the buffer empty. With an
    /// empty buffer there is nothing to do and no batch comes back. Each
    /// batch is to be merged into its shard file, once.
    pub fn idle(&mut self) -> (batches: Vec<ShardBatch>)
        ensures
            is_plan(old(self)@, view_batches(batches@)),
            forall|j: int|
                0 <= j < batches@.len() ==> distinct_keys(
                    view_mutations((#[trigger] batches@[j]).entries@),
                ),
            holds_nothing(old(self)@) ==> batches@.len() == 0,
            final(self)@ == Map::<ScopedKey, Option<Seq<u8>>>::empty(),
            final(self).root() == old(self).root(),
    {
        proof {
            use_type_invariant(&*self);
        }
        let mut pending: Vec<PendingEntry> = Vec::new();
        std::mem::swap(&mut self.pending, &mut pending);
        let ghost all = view_pending(pending@);
        let ghost buffered = assoc_map(all);
        let mut batches: Vec<ShardBatch> = Vec::new();
        proof {
            assert(all.take(all.len() as int) =~= all);
            assert forall|s: Seq<char>, k: Seq<u8>| #[trigger]
                buffered.contains_key((s, k)) implies buffered.contains_key((s, k)) by {}
        }
        while pending.len() > 0
            invariant
                pending@.len() <= all.len(),
                view_pending(pending@) == all.take(pending@.len() as int),
                distinct_keys(all),
                buffered == assoc_map(all),
                covers(buffered, assoc_map(view_pending(pending@)), view_batches(batches@)),
                forall|j: int|
                    0 <= j < batches@.len() ==> distinct_keys(
                        view_mutations((#[trigger] batches@[j]).entries@),
                    ),
            decreases pending@.len(),
        {
            let ghost n = pending@.len() - 1;
            let ghost rest = assoc_map(all.take(n + 1));
            let ghost before = view_batches(batches@);
            let entry = pending.pop().unwrap();
            let ghost s = entry.scope@;
            let ghost k = entry.key@;
            let ghost v = view_value(entry.value);
            proof {
                assert(view_pending(pending@) =~= all.take(n));
                assert(all.take(n + 1).drop_last() =~= all.take(n));
                assert(all[n] == ((s, k), v));
                assert(rest == assoc_map(all.take(n)).insert((s, k), v));
                lemma_assoc_dom(all.take(n), (s, k));
                assert(!has_key(all.take(n), (s, k))) by {
                    if has_key(all.take(n), (s, k)) {
                        let j = choose|j: int|
                            0 <= j < all.take(n).len() && (#[trigger] all.take(n)[j]).0 == (s, k);
                        assert(all[j].0 == all[n].0);
                    }
                }
                assert(assoc_map(all.take(n)) =~= rest.remove((s, k)));
                lemma_assoc_value(all, n);
            }
            let shard = shard_for_key(entry.scope, entry.key.as_slice());
            match find_batch(&batches, &shard) {
                Some(j) => {
                    let ghost old_batches = batches@;
                    let ghost old_entries = view_mutations(batches[j as int].entries@);
                    proof {
                        assert(before[j as int].changes == assoc_map(old_entries));
                        lemma_assoc_dom(old_entries, k);
                        assert(!before[j as int].changes.contains_key(k));
                    }
                    batches[j].entries.push((entry.key, entry.value));
                    proof {
                        let new_entries = view_mutations(batches[j as int].entries@);
                        assert(new_entries =~= old_entries.push((k, v)));
                        assert forall|a: int, b: int|
                            0 <= a < b < new_entries.len() implies new_entries[a].0
                            != new_entries[b].0 by {
                            assert(new_entries[a] == old_entries[a]);
                            if b < old_entries.len() {
                                assert(new_entries[b] == old_entries[b]);
                            }
                        }
                        assert forall|i: int| 0 <= i < batches@.len() implies distinct_keys(
                            view_mutations((#[trigger] batches@[i]).entries@),
                        ) by {
                            if i != j {
                                assert(batches@[i] == old_batches[i]);
                            }
                        }
                        lemma_assoc_push(old_entries, k, v);
                        assert(view_batches(batches@) =~= before.update(
                            j as int,
                            BatchView {
                                shard: before[j as int].shard,
                                changes: before[j as int].changes.insert(k, v),
                            },
                        ));
                        lemma_covers_step(
                            buffered,
                            rest,
                            before,
                            view_batches(batches@),
                            s,
                            k,
                            v,
                            j as int,
                        );
                    }
                },
                None => {
                    let ghost old_batches = batches@;
                    let mut entries: Vec<Mutation> = Vec::new();
                    entries.push((entry.key, entry.value));
                    batches.push(ShardBatch { shard, entries });
                    proof {
                        assert forall|i: int| 0 <= i < batches@.len() implies distinct_keys(
                            view_mutations((#[trigger] batches@[i]).entries@),
                        ) by {
                            if i < old_batches.len() {
                                assert(batches@[i] == old_batches[i]);
                            }
                        }
                        assert(view_mutations(entries@) =~= Seq::<MutationView>::empty().push(
                            (k, v),
                        ));
                        lemma_assoc_push(Seq::<MutationView>::empty(), k, v);
                        assert(view_batches(batches@) =~= before.push(
                            BatchView {
                                shard: shard_of(s, k),
                                changes: Map::<Seq<u8>, Option<Seq<u8>>>::empty().insert(k, v),
                            },
                        ));
                        lemma_covers_step(
                            buffered,
                            rest,
                            before,
                            view_batches(batches@),
                            s,
                            k,
                            v,
                            before.len() as int,
                        );
                    }
                },
            }
        }
        proof {
            if holds_nothing(buffered) && batches@.len() > 0 {
                let first = view_batches(batches@)[0];
                let k = choose|k: Seq<u8>| first.changes.contains_key(k);
                assert(buffered.contains_key((first.shard.scope, k)));
            }
        }
        batches
    }

    /// Gathers the records of a scope from the shard files `files`, which
    /// were read from the scope's directory. The buffer is not consulted. A
    /// file that cannot be read adds nothing and does not keep the others
    /// from being read.
    pub fn get_all(&self, files: &Vec<Vec<u8>>) -> (records: Vec<Record>)
        ensures
            view_records(records@) == gathered(view_files(files@)),
    {
        let ghost all = view_files(files@);
        let mut records: Vec<Record> = Vec::new();
        let mut i: usize = 0;
        assert(view_records(records@) =~= gathered(all.take(0)));
        while i < files.len()
            invariant
                i <= files.len(),
                all == view_files(files@),
                view_records(records@) == gathered(all.take(i as int)),
            decreases files.len() - i,
        {
            let ghost before = records@;
            proof {
                assert(all.take(i + 1).drop_last() =~= all.take(i as int));
                assert(all.take(i + 1).last() == files[i as int]@);
            }
            match decode_shard(files[i].as_slice()) {
                Ok(read) => {
                    let mut read = read;
                    let ghost added = read@;
                    records.append(&mut read);
                    assert(view_records(records@) =~= view_records(before) + view_records(added));
                },
                Err(_) => {
                    assert(view_records(records@) =~= view_records(before) + Seq::<
                        RecordView,
                    >::empty());
                },
            }
            i += 1;
        }
        assert(all.take(i as int) =~= all);
        records
    }
}

} // verus!
