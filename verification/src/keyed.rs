//! Ordered maps kept as sequences of `(key, value)` entries.
//!
//! A lookup finds the first entry with the key. An insert of a key that is
//! present replaces that entry's value in place; an insert of a new key appends
//! the entry at the end. Keys therefore keep the order of their first insert,
//! and a sequence built by inserts holds each key once.

use vstd::prelude::*;

verus! {

/// The index of the first of `keys` equal to `k`, or `-1` when there is none.
pub open spec fn key_pos(keys: Seq<Seq<char>>, k: Seq<char>) -> int
    decreases keys.len(),
{
    if keys.len() == 0 {
        -1
    } else if keys[0] == k {
        0
    } else {
        let r = key_pos(keys.drop_first(), k);
        if r < 0 {
            -1
        } else {
            r + 1
        }
    }
}

/// The keys of a sequence of entries.
pub open spec fn keys_of<V>(m: Seq<(Seq<char>, V)>) -> Seq<Seq<char>> {
    Seq::new(m.len(), |i: int| m[i].0)
}

/// The models of the keys of a sequence of executable entries.
pub open spec fn string_keys<V>(m: Seq<(String, V)>) -> Seq<Seq<char>> {
    Seq::new(m.len(), |i: int| m[i].0@)
}

/// Every key occurs at most once.
pub open spec fn keys_unique(keys: Seq<Seq<char>>) -> bool {
    forall|i: int, j: int| 0 <= i < j < keys.len() ==> keys[i] != keys[j]
}

/// The value of the first entry with key `k`.
pub open spec fn map_get<V>(m: Seq<(Seq<char>, V)>, k: Seq<char>) -> Option<V> {
    let p = key_pos(keys_of(m), k);
    if p >= 0 {
        Some(m[p].1)
    } else {
        None
    }
}

/// `m` with `k` bound to `v`: the first entry with key `k` gets the value `v`,
/// or, when there is none, `(k, v)` is appended.
pub open spec fn map_insert<V>(m: Seq<(Seq<char>, V)>, k: Seq<char>, v: V) -> Seq<(Seq<char>, V)> {
    let p = key_pos(keys_of(m), k);
    if p >= 0 {
        m.update(p, (k, v))
    } else {
        m.push((k, v))
    }
}

/// `m` with each of `entries` inserted in turn.
pub open spec fn map_insert_all<V>(m: Seq<(Seq<char>, V)>, entries: Seq<(Seq<char>, V)>) -> Seq<
    (Seq<char>, V),
>
    decreases entries.len(),
{
    if entries.len() == 0 {
        m
    } else {
        map_insert(map_insert_all(m, entries.drop_last()), entries.last().0, entries.last().1)
    }
}

/// `key_pos` is the first index that holds the key, or `-1` when none does.
pub proof fn lemma_key_pos(keys: Seq<Seq<char>>, k: Seq<char>)
    ensures
        -1 <= key_pos(keys, k) < keys.len(),
        key_pos(keys, k) >= 0 ==> keys[key_pos(keys, k)] == k,
        forall|j: int| 0 <= j < key_pos(keys, k) ==> keys[j] != k,
        key_pos(keys, k) == -1 <==> forall|j: int| 0 <= j < keys.len() ==> keys[j] != k,
    decreases keys.len(),
{
    if keys.len() > 0 {
        lemma_key_pos(keys.drop_first(), k);
        if keys[0] != k {
            assert forall|j: int| 0 <= j < key_pos(keys, k) implies keys[j] != k by {
                if j > 0 {
                    assert(keys[j] == keys.drop_first()[j - 1]);
                }
            }
            if key_pos(keys, k) == -1 {
                assert forall|j: int| 0 <= j < keys.len() implies keys[j] != k by {
                    if j > 0 {
                        assert(keys[j] == keys.drop_first()[j - 1]);
                    }
                }
            } else {
                assert(keys[key_pos(keys, k)] == keys.drop_first()[key_pos(keys, k) - 1]);
            }
        }
    }
}

/// When the keys are unique, the key at index `i` is found at `i`.
pub proof fn lemma_key_pos_unique(keys: Seq<Seq<char>>, i: int)
    requires
        keys_unique(keys),
        0 <= i < keys.len(),
    ensures
        key_pos(keys, keys[i]) == i,
{
    lemma_key_pos(keys, keys[i]);
}

/// Inserting keeps the keys unique.
pub proof fn lemma_insert_keys<V>(m: Seq<(Seq<char>, V)>, k: Seq<char>, v: V)
    ensures
        keys_unique(keys_of(m)) ==> keys_unique(keys_of(map_insert(m, k, v))),
        key_pos(keys_of(m), k) >= 0 ==> keys_of(map_insert(m, k, v)) == keys_of(m),
        key_pos(keys_of(m), k) < 0 ==> keys_of(map_insert(m, k, v)) == keys_of(m).push(k),
{
    lemma_key_pos(keys_of(m), k);
    let r = map_insert(m, k, v);
    if key_pos(keys_of(m), k) >= 0 {
        assert(keys_of(r) =~= keys_of(m));
    } else {
        assert(keys_of(r) =~= keys_of(m).push(k));
    }
}

/// Looking a key up after an insert: the inserted key has the inserted value,
/// every other key keeps its value.
pub proof fn lemma_get_after_insert<V>(m: Seq<(Seq<char>, V)>, k: Seq<char>, v: V, k2: Seq<char>)
    ensures
        map_get(map_insert(m, k, v), k2) == if k2 == k {
            Some(v)
        } else {
            map_get(m, k2)
        },
{
    let keys = keys_of(m);
    let r = map_insert(m, k, v);
    lemma_insert_keys(m, k, v);
    lemma_key_pos(keys, k);
    lemma_key_pos(keys, k2);
    lemma_key_pos(keys_of(r), k2);
    if key_pos(keys, k) >= 0 {
        assert(keys_of(r) == keys);
    } else {
        let nk = keys_of(r);
        assert(nk == keys.push(k));
        if k2 == k {
            assert(nk[keys.len() as int] == k);
            if key_pos(nk, k2) < keys.len() && key_pos(nk, k2) >= 0 {
                assert(keys[key_pos(nk, k2)] == k2);
            }
            assert(key_pos(nk, k2) == keys.len());
        } else if key_pos(keys, k2) >= 0 {
            assert(nk[key_pos(keys, k2)] == k2);
            if key_pos(nk, k2) < key_pos(keys, k2) {
                assert(keys[key_pos(nk, k2)] == k2);
            }
            assert(key_pos(nk, k2) == key_pos(keys, k2));
        } else {
            assert forall|j: int| 0 <= j < nk.len() implies nk[j] != k2 by {
                if j < keys.len() {
                    assert(nk[j] == keys[j]);
                }
            }
        }
    }
}

/// After inserting a sequence of entries, a key still has the value `x` when
/// it had that value before and every inserted entry with that key has it too.
pub proof fn lemma_get_after_insert_all<V>(
    m: Seq<(Seq<char>, V)>,
    entries: Seq<(Seq<char>, V)>,
    k: Seq<char>,
    x: V,
)
    requires
        map_get(m, k) == Some(x),
        forall|t: int| 0 <= t < entries.len() && #[trigger] entries[t].0 == k ==> entries[t].1 == x,
    ensures
        map_get(map_insert_all(m, entries), k) == Some(x),
    decreases entries.len(),
{
    if entries.len() > 0 {
        let init = entries.drop_last();
        assert forall|t: int| 0 <= t < init.len() && #[trigger] init[t].0 == k implies init[t].1 == x by {
            assert(init[t] == entries[t]);
        }
        lemma_get_after_insert_all(m, init, k, x);
        lemma_get_after_insert(map_insert_all(m, init), entries.last().0, entries.last().1, k);
    }
}

/// Inserting keeps every key within `allowed` when the inserted key is.
pub proof fn lemma_insert_keys_within<V>(m: Seq<(Seq<char>, V)>, k: Seq<char>, v: V, allowed: Seq<Seq<char>>)
    requires
        forall|i: int| 0 <= i < m.len() ==> allowed.contains(#[trigger] m[i].0),
        allowed.contains(k),
    ensures
        forall|i: int|
            0 <= i < map_insert(m, k, v).len() ==> allowed.contains(#[trigger] map_insert(m, k, v)[i].0),
{
    lemma_key_pos(keys_of(m), k);
}

/// Inserting entries keeps every key within `allowed` when their keys are,
/// and keeps the keys unique.
pub proof fn lemma_insert_all_keys<V>(m: Seq<(Seq<char>, V)>, entries: Seq<(Seq<char>, V)>, allowed: Seq<Seq<char>>)
    ensures
        (forall|i: int| 0 <= i < m.len() ==> allowed.contains(#[trigger] m[i].0))
            && (forall|i: int| 0 <= i < entries.len() ==> allowed.contains(#[trigger] entries[i].0))
            ==> (forall|i: int|
            0 <= i < map_insert_all(m, entries).len() ==> allowed.contains(
                #[trigger] map_insert_all(m, entries)[i].0,
            )),
        keys_unique(keys_of(m)) ==> keys_unique(keys_of(map_insert_all(m, entries))),
    decreases entries.len(),
{
    if entries.len() > 0 {
        let init = entries.drop_last();
        lemma_insert_all_keys(m, init, allowed);
        let acc = map_insert_all(m, init);
        lemma_insert_keys(acc, entries.last().0, entries.last().1);
        if (forall|i: int| 0 <= i < m.len() ==> allowed.contains(#[trigger] m[i].0))
            && (forall|i: int| 0 <= i < entries.len() ==> allowed.contains(#[trigger] entries[i].0)) {
            assert forall|i: int| 0 <= i < init.len() implies allowed.contains(#[trigger] init[i].0) by {
                assert(init[i] == entries[i]);
            }
            assert(allowed.contains(entries[entries.len() - 1].0));
            lemma_insert_keys_within(acc, entries.last().0, entries.last().1, allowed);
        }
    }
}

/// The first position of a key after an append.
pub proof fn lemma_key_pos_push(keys: Seq<Seq<char>>, x: Seq<char>, y: Seq<char>)
    ensures
        key_pos(keys.push(x), y) == if key_pos(keys, y) >= 0 {
            key_pos(keys, y)
        } else if x == y {
            keys.len() as int
        } else {
            -1
        },
{
    let nk = keys.push(x);
    lemma_key_pos(keys, y);
    lemma_key_pos(nk, y);
    if key_pos(keys, y) >= 0 {
        assert(nk[key_pos(keys, y)] == y);
        if key_pos(nk, y) < key_pos(keys, y) {
            assert(keys[key_pos(nk, y)] == nk[key_pos(nk, y)]);
        }
    } else if x == y {
        assert(nk[keys.len() as int] == y);
        if 0 <= key_pos(nk, y) < keys.len() {
            assert(keys[key_pos(nk, y)] == nk[key_pos(nk, y)]);
        }
    } else {
        assert forall|j: int| 0 <= j < nk.len() implies nk[j] != y by {
            if j < keys.len() {
                assert(nk[j] == keys[j]);
            }
        }
    }
}

/// Looking a key up after inserting entries with unique keys: the inserted
/// value when an entry has the key, the earlier value otherwise.
pub proof fn lemma_get_after_insert_all_unique<V>(m: Seq<(Seq<char>, V)>, entries: Seq<(Seq<char>, V)>, k: Seq<char>)
    requires
        keys_unique(keys_of(entries)),
    ensures
        map_get(map_insert_all(m, entries), k) == if map_get(entries, k) is Some {
            map_get(entries, k)
        } else {
            map_get(m, k)
        },
    decreases entries.len(),
{
    if entries.len() > 0 {
        let init = entries.drop_last();
        let kl = entries.last().0;
        let vl = entries.last().1;
        assert(keys_of(entries) =~= keys_of(init).push(kl));
        assert(keys_unique(keys_of(init))) by {
            assert forall|i: int, j: int| 0 <= i < j < keys_of(init).len() implies keys_of(init)[i] != keys_of(init)[j] by {
                assert(keys_of(init)[i] == keys_of(entries)[i]);
                assert(keys_of(init)[j] == keys_of(entries)[j]);
            }
        }
        lemma_get_after_insert_all_unique(m, init, k);
        lemma_get_after_insert(map_insert_all(m, init), kl, vl, k);
        lemma_key_pos_push(keys_of(init), kl, k);
        lemma_key_pos(keys_of(init), kl);
        if key_pos(keys_of(init), kl) >= 0 {
            let p = key_pos(keys_of(init), kl);
            assert(keys_of(entries)[p] == keys_of(entries)[entries.len() - 1]);
        }
        lemma_key_pos(keys_of(init), k);
        if key_pos(keys_of(init), k) >= 0 {
            let p = key_pos(keys_of(init), k);
            assert(entries[p] == init[p]);
        }
    }
}

/// Finds the index of the first entry whose key equals `key`.
pub fn find_key<V>(entries: &Vec<(String, V)>, key: &String) -> (r: Option<usize>)
    ensures
        match r {
            Some(i) => i as int == key_pos(string_keys(entries@), key@),
            None => key_pos(string_keys(entries@), key@) == -1,
        },
{
    let ghost keys = string_keys(entries@);
    proof {
        lemma_key_pos(keys, key@);
    }
    let mut i: usize = 0;
    while i < entries.len()
        invariant
            i <= entries.len(),
            keys == string_keys(entries@),
            forall|j: int| 0 <= j < i ==> keys[j] != key@,
            -1 <= key_pos(keys, key@) < keys.len(),
            key_pos(keys, key@) >= 0 ==> keys[key_pos(keys, key@)] == key@,
            forall|j: int| 0 <= j < key_pos(keys, key@) ==> keys[j] != key@,
            key_pos(keys, key@) == -1 <==> forall|j: int| 0 <= j < keys.len() ==> keys[j] != key@,
        decreases entries.len() - i,
    {
        if entries[i].0 == *key {
            assert(keys[i as int] == key@);
            return Some(i);
        }
        i += 1;
    }
    None
}

} // verus!
