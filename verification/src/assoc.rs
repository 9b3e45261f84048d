//! Association lists and the maps they stand for.
//!
//! Records and buffered mutations are kept in vectors of pairs. What such a
//! vector means is a map: each key with the value of the last pair that
//! holds it. A list in which no key occurs twice stands for its pairs as they
//! are.

use vstd::prelude::*;

verus! {

/// The map that `pairs` stands for: each key with the value of its last pair.
pub open spec fn assoc_map<K, V>(pairs: Seq<(K, V)>) -> Map<K, V>
    decreases pairs.len(),
{
    if pairs.len() == 0 {
        Map::empty()
    } else {
        assoc_map(pairs.drop_last()).insert(pairs.last().0, pairs.last().1)
    }
}

/// Whether no key occurs twice in `pairs`.
pub open spec fn distinct_keys<K, V>(pairs: Seq<(K, V)>) -> bool {
    forall|i: int, j: int| 0 <= i < j < pairs.len() ==> pairs[i].0 != pairs[j].0
}

/// Whether some pair of `pairs` holds the key `k`.
pub open spec fn has_key<K, V>(pairs: Seq<(K, V)>, k: K) -> bool {
    exists|i: int| 0 <= i < pairs.len() && (#[trigger] pairs[i]).0 == k
}

/// Whether `m` holds no key.
pub open spec fn holds_nothing<K, V>(m: Map<K, V>) -> bool {
    forall|k: K| !m.contains_key(k)
}

/// `base` after `changes`: a key with a new value has that value, a key
/// marked `None` is gone, and every other key is as in `base`.
pub open spec fn overlay<K, V>(base: Map<K, V>, changes: Map<K, Option<V>>) -> Map<K, V> {
    Map::new(
        |k: K|
            if changes.contains_key(k) {
                changes[k] is Some
            } else {
                base.contains_key(k)
            },
        |k: K|
            if changes.contains_key(k) {
                changes[k].unwrap()
            } else {
                base[k]
            },
    )
}

/// The keys of the map are the keys of the pairs.
pub proof fn lemma_assoc_dom<K, V>(pairs: Seq<(K, V)>, k: K)
    ensures
        assoc_map(pairs).contains_key(k) <==> has_key(pairs, k),
    decreases pairs.len(),
{
    if pairs.len() == 0 {
    } else {
        let front = pairs.drop_last();
        lemma_assoc_dom(front, k);
        if has_key(pairs, k) {
            let i = choose|i: int| 0 <= i < pairs.len() && (#[trigger] pairs[i]).0 == k;
            if i < pairs.len() - 1 {
                assert(front[i].0 == k);
            }
        }
        if has_key(front, k) {
            let i = choose|i: int| 0 <= i < front.len() && (#[trigger] front[i]).0 == k;
            assert(pairs[i].0 == k);
        }
        if pairs.last().0 == k {
            assert(pairs[pairs.len() - 1].0 == k);
        }
    }
}

/// In a list without repeated keys the map gives each pair's key that pair's value.
pub proof fn lemma_assoc_value<K, V>(pairs: Seq<(K, V)>, i: int)
    requires
        distinct_keys(pairs),
        0 <= i < pairs.len(),
    ensures
        assoc_map(pairs).contains_key(pairs[i].0),
        assoc_map(pairs)[pairs[i].0] == pairs[i].1,
    decreases pairs.len(),
{
    if i < pairs.len() - 1 {
        let front = pairs.drop_last();
        assert(front[i] == pairs[i]);
        lemma_assoc_value(front, i);
    }
}

/// Appending a pair sets its key.
pub proof fn lemma_assoc_push<K, V>(pairs: Seq<(K, V)>, k: K, v: V)
    ensures
        assoc_map(pairs.push((k, v))) == assoc_map(pairs).insert(k, v),
{
    assert(pairs.push((k, v)).drop_last() =~= pairs);
}

/// Replacing the value of the last pair that holds a key sets that key.
pub proof fn lemma_assoc_update<K, V>(pairs: Seq<(K, V)>, i: int, v: V)
    requires
        0 <= i < pairs.len(),
        forall|j: int| i < j < pairs.len() ==> pairs[j].0 != pairs[i].0,
    ensures
        assoc_map(pairs.update(i, (pairs[i].0, v))) == assoc_map(pairs).insert(pairs[i].0, v),
    decreases pairs.len(),
{
    let k = pairs[i].0;
    let changed = pairs.update(i, (k, v));
    let front = pairs.drop_last();
    if i == pairs.len() - 1 {
        assert(changed.drop_last() =~= front);
        assert(assoc_map(changed) =~= assoc_map(pairs).insert(k, v));
    } else {
        assert(changed.drop_last() =~= front.update(i, (front[i].0, v)));
        lemma_assoc_update(front, i, v);
        assert(assoc_map(changed) =~= assoc_map(pairs).insert(k, v));
    }
}

/// Taking out the one pair that holds a key removes that key.
pub proof fn lemma_assoc_remove<K, V>(pairs: Seq<(K, V)>, i: int)
    requires
        distinct_keys(pairs),
        0 <= i < pairs.len(),
    ensures
        assoc_map(pairs.remove(i)) == assoc_map(pairs).remove(pairs[i].0),
    decreases pairs.len(),
{
    let k = pairs[i].0;
    let left = pairs.remove(i);
    let front = pairs.drop_last();
    if i == pairs.len() - 1 {
        assert(left =~= front);
        lemma_assoc_dom(front, k);
        assert(!has_key(front, k)) by {
            if has_key(front, k) {
                let j = choose|j: int| 0 <= j < front.len() && (#[trigger] front[j]).0 == k;
                assert(pairs[j].0 == k);
            }
        }
        assert(assoc_map(left) =~= assoc_map(pairs).remove(k));
    } else {
        assert(left.drop_last() =~= front.remove(i));
        assert(left.last() == pairs.last());
        lemma_assoc_remove(front, i);
        assert(assoc_map(left) =~= assoc_map(pairs).remove(k));
    }
}

/// A list stands for the empty map exactly if it is empty.
pub proof fn lemma_assoc_nothing<K, V>(pairs: Seq<(K, V)>)
    ensures
        holds_nothing(assoc_map(pairs)) <==> pairs.len() == 0,
{
    if pairs.len() > 0 {
        assert(assoc_map(pairs).contains_key(pairs.last().0));
    }
}

/// One more change on top of others is one more step of the overlay.
pub proof fn lemma_overlay_insert<K, V>(
    base: Map<K, V>,
    changes: Map<K, Option<V>>,
    k: K,
    change: Option<V>,
)
    ensures
        overlay(base, changes.insert(k, change)) == match change {
            Some(v) => overlay(base, changes).insert(k, v),
            None => overlay(base, changes).remove(k),
        },
{
    match change {
        Some(v) => {
            assert(overlay(base, changes.insert(k, change)) =~= overlay(base, changes).insert(
                k,
                v,
            ));
        },
        None => {
            assert(overlay(base, changes.insert(k, change)) =~= overlay(base, changes).remove(k));
        },
    }
}

/// No change leaves the base as it is.
pub proof fn lemma_overlay_nothing<K, V>(base: Map<K, V>)
    ensures
        overlay(base, Map::<K, Option<V>>::empty()) == base,
{
    assert(overlay(base, Map::<K, Option<V>>::empty()) =~= base);
}

} // verus!
