//! Lists of pairs read as maps: the model behind every table of this crate
//! that keeps its keys in the order of their first entry.

use vstd::prelude::*;

verus! {

/// Whether some pair of `es` has the key `key`.
pub open spec fn has_key<K, V>(es: Seq<(K, V)>, key: K) -> bool {
    exists|i: int| 0 <= i < es.len() && (#[trigger] es[i]).0 == key
}

/// The index of a pair of `es` with the key `key`.
pub open spec fn slot<K, V>(es: Seq<(K, V)>, key: K) -> int {
    choose|i: int| 0 <= i < es.len() && (#[trigger] es[i]).0 == key
}

/// No two pairs of `es` have the same key.
pub open spec fn keys_distinct<K, V>(es: Seq<(K, V)>) -> bool {
    forall|i: int, j: int| 0 <= i < j < es.len() ==> (#[trigger] es[i]).0 != (#[trigger] es[j]).0
}

/// The map that takes each key among the pairs to the value paired with it.
pub open spec fn as_map<K, V>(es: Seq<(K, V)>) -> Map<K, V> {
    Map::new(|key: K| has_key(es, key), |key: K| es[slot(es, key)].1)
}

/// The pairs after `value` is entered under `key`: the value replaces the
/// one that the key had, in place, or the pair comes last if the key is new.
pub open spec fn put<K, V>(es: Seq<(K, V)>, key: K, value: V) -> Seq<(K, V)> {
    if has_key(es, key) {
        es.update(slot(es, key), (key, value))
    } else {
        es.push((key, value))
    }
}

/// The map that results from entering the pairs one after the other into an
/// empty map: of two pairs with the same key, the later one stays.
pub open spec fn entered<K, V>(pairs: Seq<(K, V)>) -> Map<K, V>
    decreases pairs.len(),
{
    if pairs.len() == 0 {
        Map::empty()
    } else {
        entered(pairs.drop_last()).insert(pairs.last().0, pairs.last().1)
    }
}

/// With distinct keys, the pair at `i` is the one that `slot` finds for its key.
pub proof fn lemma_slot<K, V>(es: Seq<(K, V)>, i: int)
    requires
        keys_distinct(es),
        0 <= i < es.len(),
    ensures
        has_key(es, es[i].0),
        slot(es, es[i].0) == i,
        as_map(es).contains_key(es[i].0),
        as_map(es)[es[i].0] == es[i].1,
{
    let j = slot(es, es[i].0);
    assert(0 <= j < es.len() && es[j].0 == es[i].0);
    if j < i {
        assert(es[j].0 != es[i].0);
    } else if i < j {
        assert(es[i].0 != es[j].0);
    }
}

/// Entering a value keeps the keys distinct, and changes the map by one `insert`.
pub proof fn lemma_put<K, V>(es: Seq<(K, V)>, key: K, value: V)
    requires
        keys_distinct(es),
    ensures
        keys_distinct(put(es, key, value)),
        as_map(put(es, key, value)) == as_map(es).insert(key, value),
        put(es, key, value).len() == if has_key(es, key) {
            es.len()
        } else {
            es.len() + 1
        },
{
    let after = put(es, key, value);
    let at = if has_key(es, key) {
        slot(es, key)
    } else {
        es.len() as int
    };
    assert(0 <= at < after.len() && after[at] == (key, value));
    assert forall|i: int| 0 <= i < after.len() && i != at implies after[i] == es[i] && es[i].0
        != key by {
        if has_key(es, key) {
            lemma_slot(es, at);
            if i < at {
                assert(es[i].0 != es[at].0);
            } else {
                assert(es[at].0 != es[i].0);
            }
        }
    }
    assert(keys_distinct(after)) by {
        assert forall|i: int, j: int| 0 <= i < j < after.len() implies after[i].0 != after[j].0 by {
            if i != at && j != at {
                assert(es[i].0 != es[j].0);
            }
        }
    }
    let left = as_map(after);
    let right = as_map(es).insert(key, value);
    assert forall|k: K| left.contains_key(k) <==> right.contains_key(k) by {
        if left.contains_key(k) {
            let i = slot(after, k);
            assert(0 <= i < after.len() && after[i].0 == k);
            if i != at {
                assert(es[i].0 == k);
            }
        }
        if right.contains_key(k) {
            if k == key {
                assert(after[at].0 == k);
            } else {
                let i = slot(es, k);
                assert(0 <= i < es.len() && es[i].0 == k);
                assert(after[i].0 == k);
            }
        }
    }
    assert forall|k: K| left.contains_key(k) implies left[k] == right[k] by {
        let i = slot(after, k);
        assert(0 <= i < after.len() && after[i].0 == k);
        lemma_slot(after, i);
        if i != at {
            lemma_slot(es, i);
        }
    }
    assert(left =~= right);
}

/// With distinct keys, the map has as many keys as there are pairs.
pub proof fn lemma_size<K, V>(es: Seq<(K, V)>)
    requires
        keys_distinct(es),
    ensures
        as_map(es).dom().finite(),
        as_map(es).dom().len() == es.len(),
    decreases es.len(),
{
    if es.len() == 0 {
        assert(as_map(es).dom() =~= Set::<K>::empty());
    } else {
        let front = es.drop_last();
        let last = es.last();
        assert forall|i: int, j: int| 0 <= i < j < front.len() implies front[i].0
            != front[j].0 by {
            assert(es[i].0 != es[j].0);
        }
        lemma_size(front);
        if has_key(front, last.0) {
            let i = slot(front, last.0);
            assert(es[i].0 != es[es.len() - 1].0);
        }
        assert forall|key: K| has_key(es, key) <==> has_key(front, key) || key == last.0 by {
            if has_key(es, key) {
                let i = slot(es, key);
                if i < front.len() {
                    assert(front[i].0 == key);
                }
            }
            if has_key(front, key) {
                let i = slot(front, key);
                assert(es[i].0 == key);
            }
            if key == last.0 {
                assert(es[es.len() - 1].0 == key);
            }
        }
        assert(as_map(es).dom() =~= as_map(front).dom().insert(last.0));
    }
}

} // verus!
