//! The mathematical model of a store: a sequence of key/value pairs in which
//! no key occurs twice, read as a map from keys to values.
//!
//! The sequence fixes the order in which a store writes its records and
//! lists its keys; the map is what lookups see.

use vstd::prelude::*;

verus! {

/// A key and its value, as character sequences.
pub type Pair = (Seq<char>, Seq<char>);

/// Whether some pair of `entries` has the key `key`.
pub open spec fn has_key(entries: Seq<Pair>, key: Seq<char>) -> bool {
    exists|i: int| 0 <= i < entries.len() && (#[trigger] entries[i]).0 == key
}

/// The position of a pair with the key `key`. Where no key occurs twice and
/// `has_key` holds, it is the position of the one pair with that key.
pub open spec fn key_index(entries: Seq<Pair>, key: Seq<char>) -> int {
    choose|i: int| 0 <= i < entries.len() && (#[trigger] entries[i]).0 == key
}

/// No key occurs in two pairs.
pub open spec fn distinct_keys(entries: Seq<Pair>) -> bool {
    forall|i: int, j: int|
        0 <= i < j < entries.len() ==> (#[trigger] entries[i]).0 != (#[trigger] entries[j]).0
}

/// The entries after `key` is set to `value`: the pair with that key is
/// replaced where it stands, or a new pair is added at the end.
pub open spec fn put(entries: Seq<Pair>, key: Seq<char>, value: Seq<char>) -> Seq<Pair> {
    if has_key(entries, key) {
        entries.update(key_index(entries, key), (key, value))
    } else {
        entries.push((key, value))
    }
}

/// The entries without the pair of `key`; the others keep their order.
pub open spec fn delete(entries: Seq<Pair>, key: Seq<char>) -> Seq<Pair> {
    if has_key(entries, key) {
        entries.remove(key_index(entries, key))
    } else {
        entries
    }
}

/// The map that the entries stand for: each pair in turn sets its key to its
/// value.
pub open spec fn as_map(entries: Seq<Pair>) -> Map<Seq<char>, Seq<char>>
    decreases entries.len(),
{
    if entries.len() == 0 {
        Map::empty()
    } else {
        as_map(entries.drop_last()).insert(entries.last().0, entries.last().1)
    }
}

/// With distinct keys, the pair at position `i` is the one that `key_index`
/// finds for its key.
pub proof fn lemma_key_index(entries: Seq<Pair>, i: int)
    requires
        distinct_keys(entries),
        0 <= i < entries.len(),
    ensures
        has_key(entries, entries[i].0),
        key_index(entries, entries[i].0) == i,
{
    let key = entries[i].0;
    let j = key_index(entries, key);
    assert(0 <= j < entries.len() && entries[j].0 == key);
    if j < i {
        assert(entries[j].0 != entries[i].0);
    } else if i < j {
        assert(entries[i].0 != entries[j].0);
    }
}

/// Without its last pair, a sequence with distinct keys still has distinct
/// keys.
pub proof fn lemma_drop_last_distinct(entries: Seq<Pair>)
    requires
        distinct_keys(entries),
        entries.len() > 0,
    ensures
        distinct_keys(entries.drop_last()),
{
    let front = entries.drop_last();
    assert forall|a: int, b: int| 0 <= a < b < front.len() implies (#[trigger] front[a]).0 != (
    #[trigger] front[b]).0 by {
        assert(front[a] == entries[a] && front[b] == entries[b]);
    }
}

/// The domain of the map is the set of keys that occur.
pub proof fn lemma_as_map_domain(entries: Seq<Pair>, key: Seq<char>)
    ensures
        as_map(entries).contains_key(key) <==> has_key(entries, key),
    decreases entries.len(),
{
    if entries.len() > 0 {
        let front = entries.drop_last();
        lemma_as_map_domain(front, key);
        if has_key(front, key) {
            let i = key_index(front, key);
            assert(entries[i] == front[i]);
        }
        if has_key(entries, key) {
            let i = key_index(entries, key);
            if i < entries.len() - 1 {
                assert(front[i] == entries[i]);
            }
        }
    }
}

/// With distinct keys, the map sends the key of each pair to that pair's
/// value.
pub proof fn lemma_as_map_value(entries: Seq<Pair>, i: int)
    requires
        distinct_keys(entries),
        0 <= i < entries.len(),
    ensures
        as_map(entries).contains_key(entries[i].0),
        as_map(entries)[entries[i].0] == entries[i].1,
    decreases entries.len(),
{
    let front = entries.drop_last();
    if i < entries.len() - 1 {
        lemma_drop_last_distinct(entries);
        assert(front[i] == entries[i]);
        lemma_as_map_value(front, i);
        assert(entries[i].0 != entries[entries.len() - 1].0);
    }
}

/// Setting a key keeps the keys distinct.
pub proof fn lemma_put_distinct(entries: Seq<Pair>, key: Seq<char>, value: Seq<char>)
    requires
        distinct_keys(entries),
    ensures
        distinct_keys(put(entries, key, value)),
{
    let after = put(entries, key, value);
    if has_key(entries, key) {
        assert forall|i: int, j: int| 0 <= i < j < after.len() implies (#[trigger] after[i]).0
            != (#[trigger] after[j]).0 by {
            assert(after[i].0 == entries[i].0);
            assert(after[j].0 == entries[j].0);
        }
    } else {
        assert forall|i: int, j: int| 0 <= i < j < after.len() implies (#[trigger] after[i]).0
            != (#[trigger] after[j]).0 by {
            assert(after[i] == entries[i]);
            if j < entries.len() {
                assert(after[j] == entries[j]);
            }
        }
    }
}

/// Removing a key keeps the keys distinct.
pub proof fn lemma_delete_distinct(entries: Seq<Pair>, key: Seq<char>)
    requires
        distinct_keys(entries),
    ensures
        distinct_keys(delete(entries, key)),
{
    let after = delete(entries, key);
    if has_key(entries, key) {
        let at = key_index(entries, key);
        assert forall|i: int, j: int| 0 <= i < j < after.len() implies (#[trigger] after[i]).0
            != (#[trigger] after[j]).0 by {
            let a = if i < at { i } else { i + 1 };
            let b = if j < at { j } else { j + 1 };
            assert(after[i] == entries[a]);
            assert(after[j] == entries[b]);
        }
    }
}

/// Last write wins: setting a key is `Map::insert` on the map, whatever the
/// key held before.
pub proof fn lemma_put_as_map(entries: Seq<Pair>, key: Seq<char>, value: Seq<char>)
    requires
        distinct_keys(entries),
    ensures
        as_map(put(entries, key, value)) == as_map(entries).insert(key, value),
    decreases entries.len(),
{
    if has_key(entries, key) {
        let at = key_index(entries, key);
        let after = entries.update(at, (key, value));
        let front = entries.drop_last();
        let last = entries.last();
        if at == entries.len() - 1 {
            assert(after.drop_last() == front);
            assert(as_map(after) == as_map(entries).insert(key, value));
        } else {
            lemma_drop_last_distinct(entries);
            assert(front[at] == entries[at]);
            lemma_key_index(front, at);
            lemma_put_as_map(front, key, value);
            assert(after.drop_last() == front.update(at, (key, value)));
            assert(after.last() == last);
            assert(entries[at].0 != entries[entries.len() - 1].0);
            assert(as_map(after) == as_map(entries).insert(key, value));
        }
    } else {
        assert(entries.push((key, value)).drop_last() == entries);
    }
}

/// Overwriting: of two values set for one key, one after the other, only
/// the second is left, and the store has no pair more than after the first.
pub proof fn lemma_put_overwrites(
    entries: Seq<Pair>,
    key: Seq<char>,
    first: Seq<char>,
    second: Seq<char>,
)
    requires
        distinct_keys(entries),
    ensures
        put(put(entries, key, first), key, second) == put(entries, key, second),
        put(put(entries, key, first), key, second).len() == put(entries, key, first).len(),
        as_map(put(put(entries, key, first), key, second))[key] == second,
{
    let once = put(entries, key, first);
    lemma_put_distinct(entries, key, first);
    if has_key(entries, key) {
        let at = key_index(entries, key);
        assert(once[at].0 == key);
        lemma_key_index(once, at);
        assert(once.update(at, (key, second)) == entries.update(at, (key, second)));
    } else {
        let at = entries.len() as int;
        assert(once[at].0 == key);
        lemma_key_index(once, at);
        assert(once.update(at, (key, second)) == entries.push((key, second)));
    }
    lemma_put_distinct(entries, key, second);
    lemma_put_as_map(entries, key, second);
}

/// Removing a key is `Map::remove` on the map.
pub proof fn lemma_delete_as_map(entries: Seq<Pair>, key: Seq<char>)
    requires
        distinct_keys(entries),
    ensures
        as_map(delete(entries, key)) == as_map(entries).remove(key),
    decreases entries.len(),
{
    if has_key(entries, key) {
        let at = key_index(entries, key);
        let after = entries.remove(at);
        let front = entries.drop_last();
        let last = entries.last();
        lemma_drop_last_distinct(entries);
        if at == entries.len() - 1 {
            assert(after == front);
            lemma_as_map_domain(front, key);
            if has_key(front, key) {
                let i = key_index(front, key);
                assert(front[i] == entries[i]);
                assert(entries[i].0 != entries[at].0);
            }
            assert(as_map(front) == as_map(entries).remove(key));
        } else {
            assert(front[at] == entries[at]);
            lemma_key_index(front, at);
            lemma_delete_as_map(front, key);
            assert(after.drop_last() == front.remove(at));
            assert(after.last() == last);
            assert(entries[at].0 != entries[entries.len() - 1].0);
            assert(as_map(after) == as_map(entries).remove(key));
        }
    } else {
        lemma_as_map_domain(entries, key);
        assert(as_map(entries).remove(key) == as_map(entries));
    }
}

} // verus!
