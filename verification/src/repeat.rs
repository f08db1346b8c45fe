//! Masking twice: the result of a mask is a fixed point of the same mask.

use vstd::prelude::*;
use crate::filter::{
    spec_filter, spec_for_all, spec_for_all_array, spec_is_falsy, spec_mask_array, spec_mask_items,
    spec_properties, spec_select, spec_select_keys, spec_wildcards_over_array,
};
use crate::json::JsonV;
use crate::keyed::{
    key_pos, keys_of, keys_unique, lemma_get_after_insert, lemma_get_after_insert_all_unique, lemma_insert_all_keys, lemma_insert_keys,
    lemma_key_pos, lemma_key_pos_push, lemma_key_pos_unique, map_get, map_insert, map_insert_all,
};
use crate::compiler::{
    lemma_build_wf, spec_build, spec_build_loop, spec_compile, spec_parse, spec_selector_tail,
    MAX_DEPTH,
};
use crate::laws::{
    law_falsy_values_are_kept, law_no_mask_is_identity, lemma_for_all_keys, lemma_select_keys_shape,
};
use crate::scanner::{
    flush_name, lone_escaped_star, scan_from, spec_is_terminal, spec_scan, terminal_token, TokenV, ESCAPE_CHAR, WILDCARD_CHAR,
};
use crate::spec_mask;
use crate::mask::{lemma_insert_named, mask_named, node_named, MaskV, NodeV};

verus! {

/// A scalar that is not falsy: true, a non-zero number or a non-empty string.
pub open spec fn truthy_scalar(x: JsonV) -> bool {
    !spec_is_falsy(x) && !(x is Array) && !(x is Object)
}

/// A value that every real mask drops: a truthy scalar, or a non-empty array
/// of truthy scalars.
pub open spec fn droppable(x: JsonV) -> bool {
    match x {
        JsonV::Array(s) => s.len() > 0 && forall|i: int| 0 <= i < s.len() ==> truthy_scalar(#[trigger] s[i]),
        _ => truthy_scalar(x),
    }
}

/// A real mask drops an element exactly when it is a truthy scalar, and the
/// elements it keeps are never truthy scalars.
proof fn lemma_mask_items_drop(items: Seq<JsonV>, m: MaskV)
    ensures
        spec_mask_items(items, Some(m)).len() == 0 <==> forall|i: int| 0 <= i < items.len() ==> truthy_scalar(#[trigger] items[i]),
        forall|i: int|
            0 <= i < spec_mask_items(items, Some(m)).len() ==> !truthy_scalar(
                #[trigger] spec_mask_items(items, Some(m))[i],
            ),
    decreases items.len(),
{
    if items.len() > 0 {
        let init = items.drop_last();
        lemma_mask_items_drop(init, m);
        let kept = spec_mask_items(items, Some(m));
        let before = spec_mask_items(init, Some(m));
        let x = items.last();
        assert(forall|i: int| 0 <= i < init.len() ==> #[trigger] init[i] == items[i]);
        match spec_properties(x, Some(m)) {
            Some(r) => {
                assert(!truthy_scalar(r));
                assert(kept.len() > 0);
                assert(!truthy_scalar(items[items.len() - 1]));
                assert forall|i: int| 0 <= i < kept.len() implies !truthy_scalar(#[trigger] kept[i]) by {
                    if i < before.len() {
                        assert(kept[i] == before[i]);
                    }
                }
            },
            None => {
                assert(truthy_scalar(x));
                if forall|i: int| 0 <= i < init.len() ==> truthy_scalar(#[trigger] init[i]) {
                    assert forall|i: int| 0 <= i < items.len() implies truthy_scalar(#[trigger] items[i]) by {
                        if i < init.len() {
                            assert(init[i] == items[i]);
                        }
                    }
                }
            },
        }
    }
}

/// A real mask drops exactly the droppable values, and what it keeps is never
/// droppable.
pub proof fn lemma_filter_drops(x: JsonV, m: MaskV)
    ensures
        spec_filter(x, Some(m)) is None <==> droppable(x),
        spec_filter(x, Some(m)) matches Some(t) ==> !droppable(t),
{
    match x {
        JsonV::Array(items) => {
            lemma_mask_items_drop(items, m);
            let kept = spec_mask_items(items, Some(m));
            if items.len() > 0 && kept.len() > 0 {
                assert(!truthy_scalar(kept[0]));
            }
        },
        _ => {},
    }
}

/// A node drops a value exactly when it has a sub-mask and the value is
/// droppable; a droppable value that a node keeps is kept unchanged.
pub proof fn lemma_select_drops(v: JsonV, n: NodeV)
    ensures
        spec_select(v, n) is None <==> (n.properties is Some && droppable(v)),
        spec_select(v, n) matches Some(r) ==> (droppable(r) ==> n.properties is None && r == v),
{
    law_no_mask_is_identity(v);
    if let Some(p) = n.properties {
        lemma_filter_drops(v, p);
    }
}

/// Whether a mask entry writes key `k`: a wildcard writes every key, a named
/// entry its own.
pub open spec fn writes_key(e: (Seq<char>, NodeV), k: Seq<char>) -> bool {
    e.1.is_wildcard || e.0 == k
}

/// The value that the last entry of `m` that keeps key `k` gives it, when the
/// data holds `x` under `k`.
pub open spec fn last_write(x: Option<JsonV>, m: MaskV, k: Seq<char>) -> Option<JsonV>
    decreases m.len(),
{
    if m.len() == 0 {
        None
    } else {
        let e = m.last();
        let w = if writes_key(e, k) {
            match x {
                Some(v) => spec_select(v, e.1),
                None => None,
            }
        } else {
            None
        };
        if w is Some {
            w
        } else {
            last_write(x, m.drop_last(), k)
        }
    }
}

/// What `last_write` gives was written by some entry that writes the key.
proof fn lemma_last_write_source(v: JsonV, m: MaskV, k: Seq<char>)
    ensures
        last_write(Some(v), m, k) matches Some(r) ==> exists|i: int|
            0 <= i < m.len() && writes_key(#[trigger] m[i], k) && spec_select(v, m[i].1) == Some(r),
    decreases m.len(),
{
    if m.len() > 0 {
        let init = m.drop_last();
        lemma_last_write_source(v, init, k);
        if let Some(r) = last_write(Some(v), m, k) {
            let e = m.last();
            if writes_key(e, k) && spec_select(v, e.1) is Some {
                assert(writes_key(m[m.len() - 1], k) && spec_select(v, m[m.len() - 1].1) == Some(r));
            } else {
                let i = choose|i: int| 0 <= i < init.len() && writes_key(#[trigger] init[i], k) && spec_select(v, init[i].1) == Some(r);
                assert(init[i] == m[i]);
            }
        }
    }
}

/// When some entry that writes the key keeps the value, `last_write` gives a value.
proof fn lemma_last_write_some(v: JsonV, m: MaskV, k: Seq<char>, i: int)
    requires
        0 <= i < m.len(),
        writes_key(m[i], k),
        spec_select(v, m[i].1) is Some,
    ensures
        last_write(Some(v), m, k) is Some,
    decreases m.len(),
{
    if i < m.len() - 1 {
        let init = m.drop_last();
        assert(init[i] == m[i]);
        lemma_last_write_some(v, init, k, i);
    }
}

/// A droppable value is only ever kept whole.
proof fn lemma_last_write_droppable(v: JsonV, m: MaskV, k: Seq<char>)
    requires
        droppable(v),
    ensures
        last_write(Some(v), m, k) matches Some(r) ==> r == v,
{
    lemma_last_write_source(v, m, k);
    if let Some(r) = last_write(Some(v), m, k) {
        let i = choose|i: int| 0 <= i < m.len() && writes_key(#[trigger] m[i], k) && spec_select(v, m[i].1) == Some(r);
        lemma_select_drops(v, m[i].1);
        law_no_mask_is_identity(v);
    }
}

/// An entry that writes the key keeps the input value exactly when it
/// keeps the value that `last_write` gives.
proof fn lemma_writer_agrees(v: JsonV, m: MaskV, k: Seq<char>, i: int)
    requires
        0 <= i < m.len(),
        writes_key(m[i], k),
    ensures
        spec_select(v, m[i].1) is Some <==> (last_write(Some(v), m, k) matches Some(r) && spec_select(
            r,
            m[i].1,
        ) is Some),
{
    lemma_select_drops(v, m[i].1);
    lemma_last_write_source(v, m, k);
    if spec_select(v, m[i].1) is Some {
        lemma_last_write_some(v, m, k, i);
        let r = last_write(Some(v), m, k)->0;
        let j = choose|j: int| 0 <= j < m.len() && writes_key(#[trigger] m[j], k) && spec_select(v, m[j].1) == Some(r);
        lemma_select_drops(v, m[j].1);
        lemma_select_drops(r, m[i].1);
    } else {
        lemma_last_write_droppable(v, m, k);
        if let Some(r) = last_write(Some(v), m, k) {
            assert(r == v);
        }
    }
}

/// `last_write` is a fixed point when every entry that writes the key is one
/// for what it keeps from `v`.
proof fn lemma_last_write_stable(v: JsonV, m: MaskV, k: Seq<char>)
    requires
        forall|i: int|
            0 <= i < m.len() && writes_key(#[trigger] m[i], k) ==> (spec_select(v, m[i].1) matches Some(r)
                ==> spec_select(r, m[i].1) == Some(r)),
    ensures
        last_write(Some(v), m, k) matches Some(r) ==> last_write(Some(r), m, k) == Some(r),
    decreases m.len(),
{
    if m.len() > 0 {
        let init = m.drop_last();
        let e = m.last();
        assert(e == m[m.len() - 1]);
        if let Some(r) = last_write(Some(v), m, k) {
            if writes_key(e, k) && spec_select(v, e.1) is Some {
                assert(spec_select(r, e.1) == Some(r));
            } else {
                assert forall|i: int| 0 <= i < init.len() && writes_key(#[trigger] init[i], k) implies (spec_select(v, init[i].1) matches Some(r)
                    ==> spec_select(r, init[i].1) == Some(r)) by {
                    assert(init[i] == m[i]);
                }
                lemma_last_write_stable(v, init, k);
                if writes_key(e, k) {
                    lemma_select_drops(v, e.1);
                    lemma_last_write_droppable(v, init, k);
                    assert(r == v);
                }
            }
        }
    }
}

/// The initial part of a sequence of entries with unique keys has unique keys.
proof fn lemma_unique_init<V>(m: Seq<(Seq<char>, V)>)
    requires
        keys_unique(keys_of(m)),
        m.len() > 0,
    ensures
        keys_unique(keys_of(m.drop_last())),
        keys_of(m) == keys_of(m.drop_last()).push(m.last().0),
        key_pos(keys_of(m.drop_last()), m.last().0) == -1,
{
    let init = m.drop_last();
    assert(keys_of(m) =~= keys_of(init).push(m.last().0));
    assert forall|i: int, j: int| 0 <= i < j < keys_of(init).len() implies keys_of(init)[i] != keys_of(init)[j] by {
        assert(keys_of(init)[i] == keys_of(m)[i]);
        assert(keys_of(init)[j] == keys_of(m)[j]);
    }
    lemma_key_pos(keys_of(init), m.last().0);
    if key_pos(keys_of(init), m.last().0) >= 0 {
        let p = key_pos(keys_of(init), m.last().0);
        assert(keys_of(m)[p] == keys_of(m)[m.len() - 1]);
    }
}

/// A wildcard over an object with unique keys keeps, under each key, the
/// selection of the value there, and its entries have unique keys.
proof fn lemma_for_all_get(d: Seq<(Seq<char>, JsonV)>, n: NodeV, k: Seq<char>)
    requires
        keys_unique(keys_of(d)),
    ensures
        map_get(spec_for_all(d, n), k) == match map_get(d, k) {
            Some(v) => spec_select(v, n),
            None => None,
        },
        keys_unique(keys_of(spec_for_all(d, n))),
    decreases d.len(),
{
    let fa = spec_for_all(d, n);
    if d.len() == 0 {
        assert(keys_of(fa) =~= Seq::<Seq<char>>::empty());
    } else {
        let init = d.drop_last();
        let kl = d.last().0;
        let vl = d.last().1;
        lemma_unique_init(d);
        lemma_for_all_get(init, n, k);
        lemma_for_all_get(init, n, kl);
        let before = spec_for_all(init, n);
        lemma_key_pos_push(keys_of(init), kl, k);
        lemma_key_pos(keys_of(init), k);
        lemma_key_pos(keys_of(before), kl);
        if key_pos(keys_of(before), kl) >= 0 {
            assert(keys_of(before)[key_pos(keys_of(before), kl)] == kl);
            assert(map_get(before, kl) is Some);
        }
        if key_pos(keys_of(init), k) >= 0 {
            assert(d[key_pos(keys_of(init), k)] == init[key_pos(keys_of(init), k)]);
        }
        match spec_select(vl, n) {
            Some(x) => {
                assert(fa == before.push((kl, x)));
                assert(keys_of(fa) =~= keys_of(before).push(kl));
                lemma_key_pos_push(keys_of(before), kl, k);
                lemma_key_pos(keys_of(before), k);
                if key_pos(keys_of(before), k) >= 0 {
                    assert(fa[key_pos(keys_of(before), k)] == before[key_pos(keys_of(before), k)]);
                }
                assert forall|i: int, j: int| 0 <= i < j < keys_of(fa).len() implies keys_of(fa)[i] != keys_of(fa)[j] by {
                    if j == keys_of(fa).len() - 1 {
                        assert(keys_of(fa)[i] == keys_of(before)[i]);
                    } else {
                        assert(keys_of(fa)[i] == keys_of(before)[i]);
                        assert(keys_of(fa)[j] == keys_of(before)[j]);
                    }
                }
            },
            None => {},
        }
    }
}

/// The value under `k` of a masked object is the last write to `k`.
proof fn lemma_select_keys_get(d: Seq<(Seq<char>, JsonV)>, m: MaskV, k: Seq<char>)
    requires
        keys_unique(keys_of(d)),
    ensures
        map_get(spec_select_keys(d, m), k) == last_write(map_get(d, k), m, k),
    decreases m.len(),
{
    let out = spec_select_keys(d, m);
    if m.len() == 0 {
        lemma_key_pos(keys_of(out), k);
    } else {
        let init = m.drop_last();
        let key = m.last().0;
        let node = m.last().1;
        let before = spec_select_keys(d, init);
        lemma_select_keys_get(d, init, k);
        if node.is_wildcard {
            lemma_for_all_get(d, node, k);
            lemma_get_after_insert_all_unique(before, spec_for_all(d, node), k);
        } else {
            match map_get(d, key) {
                Some(value) => match spec_select(value, node) {
                    Some(r) => {
                        lemma_get_after_insert(before, key, r, k);
                    },
                    None => {},
                },
                None => {},
            }
        }
    }
}

/// `ks` with `x` appended unless it is there already.
pub open spec fn key_add(ks: Seq<Seq<char>>, x: Seq<char>) -> Seq<Seq<char>> {
    if ks.contains(x) {
        ks
    } else {
        ks.push(x)
    }
}

/// `ks` with each of `l` added in turn.
pub open spec fn key_add_all(ks: Seq<Seq<char>>, l: Seq<Seq<char>>) -> Seq<Seq<char>>
    decreases l.len(),
{
    if l.len() == 0 {
        ks
    } else {
        key_add(key_add_all(ks, l.drop_last()), l.last())
    }
}

/// The elements of `l` that are not in `ks`, in order.
pub open spec fn outside(l: Seq<Seq<char>>, ks: Seq<Seq<char>>) -> Seq<Seq<char>>
    decreases l.len(),
{
    if l.len() == 0 {
        Seq::empty()
    } else {
        let r = outside(l.drop_last(), ks);
        if ks.contains(l.last()) {
            r
        } else {
            r.push(l.last())
        }
    }
}

/// The keys after an insert.
proof fn lemma_insert_key_seq<V>(m: Seq<(Seq<char>, V)>, k: Seq<char>, v: V)
    ensures
        keys_of(map_insert(m, k, v)) == key_add(keys_of(m), k),
{
    lemma_insert_keys(m, k, v);
    lemma_key_pos(keys_of(m), k);
    if keys_of(m).contains(k) {
        let j = choose|j: int| 0 <= j < keys_of(m).len() && keys_of(m)[j] == k;
    }
}

/// The keys after inserting entries.
proof fn lemma_insert_all_key_seq<V>(m: Seq<(Seq<char>, V)>, entries: Seq<(Seq<char>, V)>)
    ensures
        keys_of(map_insert_all(m, entries)) == key_add_all(keys_of(m), keys_of(entries)),
    decreases entries.len(),
{
    if entries.len() > 0 {
        let init = entries.drop_last();
        lemma_insert_all_key_seq(m, init);
        assert(keys_of(entries).drop_last() =~= keys_of(init));
        lemma_insert_key_seq(map_insert_all(m, init), entries.last().0, entries.last().1);
    }
}

/// Adding keys only appends.
proof fn lemma_key_add_all_extends(ks: Seq<Seq<char>>, l: Seq<Seq<char>>)
    ensures
        ks.len() <= key_add_all(ks, l).len(),
        key_add_all(ks, l).subrange(0, ks.len() as int) == ks,
    decreases l.len(),
{
    if l.len() > 0 {
        lemma_key_add_all_extends(ks, l.drop_last());
        let r = key_add_all(ks, l.drop_last());
        assert(key_add(r, l.last()).subrange(0, ks.len() as int) =~= r.subrange(0, ks.len() as int));
    } else {
        assert(ks.subrange(0, ks.len() as int) =~= ks);
    }
}

/// Adding distinct keys appends those that are not there yet, in order.
proof fn lemma_key_add_all_outside(ks: Seq<Seq<char>>, l: Seq<Seq<char>>)
    requires
        keys_unique(l),
    ensures
        key_add_all(ks, l) == ks + outside(l, ks),
        forall|i: int| 0 <= i < outside(l, ks).len() ==> l.contains(#[trigger] outside(l, ks)[i]) && !ks.contains(outside(l, ks)[i]),
    decreases l.len(),
{
    if l.len() > 0 {
        let init = l.drop_last();
        let x = l.last();
        assert(keys_unique(init)) by {
            assert forall|i: int, j: int| 0 <= i < j < init.len() implies init[i] != init[j] by {
                assert(init[i] == l[i]);
                assert(init[j] == l[j]);
            }
        }
        lemma_key_add_all_outside(ks, init);
        let o = outside(init, ks);
        assert forall|i: int| 0 <= i < o.len() implies l.contains(#[trigger] o[i]) by {
            let j = choose|j: int| 0 <= j < init.len() && init[j] == o[i];
            assert(l[j] == o[i]);
        }
        if !ks.contains(x) {
            if (ks + o).contains(x) {
                let j = choose|j: int| 0 <= j < (ks + o).len() && (ks + o)[j] == x;
                if j >= ks.len() {
                    let t = choose|t: int| 0 <= t < init.len() && init[t] == o[j - ks.len()];
                    assert(l[t] == l[l.len() - 1]);
                }
            }
            assert((ks + o).push(x) =~= ks + o.push(x));
            assert(l[l.len() - 1] == x);
        } else {
            let j = choose|j: int| 0 <= j < ks.len() && ks[j] == x;
            assert((ks + o)[j] == x);
        }
    } else {
        assert(ks + Seq::<Seq<char>>::empty() =~= ks);
    }
}

/// Nothing is written when the data has no value.
proof fn lemma_last_write_none(m: MaskV, k: Seq<char>)
    ensures
        last_write(None, m, k) is None,
    decreases m.len(),
{
    if m.len() > 0 {
        lemma_last_write_none(m.drop_last(), k);
    }
}

/// A wildcard over two runs of entries is the two wildcards side by side.
proof fn lemma_for_all_add(a: Seq<(Seq<char>, JsonV)>, b: Seq<(Seq<char>, JsonV)>, n: NodeV)
    ensures
        spec_for_all(a + b, n) == spec_for_all(a, n) + spec_for_all(b, n),
    decreases b.len(),
{
    if b.len() == 0 {
        assert(a + b =~= a);
        assert(spec_for_all(a, n) + spec_for_all(b, n) =~= spec_for_all(a, n));
    } else {
        lemma_for_all_add(a, b.drop_last(), n);
        assert((a + b).drop_last() =~= a + b.drop_last());
        assert((a + b).last() == b.last());
        match spec_select(b.last().1, n) {
            Some(x) => {
                assert(spec_for_all(a, n) + spec_for_all(b.drop_last(), n).push((b.last().0, x)) =~= (
                spec_for_all(a, n) + spec_for_all(b.drop_last(), n)).push((b.last().0, x)));
            },
            None => {},
        }
    }
}

/// The keys outside `ks` of two runs are those of each run side by side.
proof fn lemma_outside_add(a: Seq<Seq<char>>, b: Seq<Seq<char>>, ks: Seq<Seq<char>>)
    ensures
        outside(a + b, ks) == outside(a, ks) + outside(b, ks),
    decreases b.len(),
{
    if b.len() == 0 {
        assert(a + b =~= a);
        assert(outside(a, ks) + outside(b, ks) =~= outside(a, ks));
    } else {
        lemma_outside_add(a, b.drop_last(), ks);
        assert((a + b).drop_last() =~= a + b.drop_last());
        assert((a + b).last() == b.last());
        if !ks.contains(b.last()) {
            assert(outside(a, ks) + outside(b.drop_last(), ks).push(b.last()) =~= (outside(a, ks) + outside(
                b.drop_last(),
                ks,
            )).push(b.last()));
        }
    }
}

/// No key of `l` is outside `ks` when all are in it.
proof fn lemma_outside_all_in(l: Seq<Seq<char>>, ks: Seq<Seq<char>>)
    requires
        forall|i: int| 0 <= i < l.len() ==> ks.contains(#[trigger] l[i]),
    ensures
        outside(l, ks) == Seq::<Seq<char>>::empty(),
    decreases l.len(),
{
    if l.len() > 0 {
        assert forall|i: int| 0 <= i < l.drop_last().len() implies ks.contains(#[trigger] l.drop_last()[i]) by {
            assert(l.drop_last()[i] == l[i]);
        }
        lemma_outside_all_in(l.drop_last(), ks);
        assert(ks.contains(l[l.len() - 1]));
    }
}

/// Every key of `l` is outside `ks` when none is in it.
proof fn lemma_outside_none_in(l: Seq<Seq<char>>, ks: Seq<Seq<char>>)
    requires
        forall|i: int| 0 <= i < l.len() ==> !ks.contains(#[trigger] l[i]),
    ensures
        outside(l, ks) == l,
    decreases l.len(),
{
    if l.len() > 0 {
        assert forall|i: int| 0 <= i < l.drop_last().len() implies !ks.contains(#[trigger] l.drop_last()[i]) by {
            assert(l.drop_last()[i] == l[i]);
        }
        lemma_outside_none_in(l.drop_last(), ks);
        assert(!ks.contains(l[l.len() - 1]));
        assert(l.drop_last().push(l.last()) =~= l);
    } else {
        assert(l =~= Seq::<Seq<char>>::empty());
    }
}

/// A wildcard that keeps every entry keeps every key.
proof fn lemma_for_all_keys_all(a: Seq<(Seq<char>, JsonV)>, n: NodeV)
    requires
        forall|i: int| 0 <= i < a.len() ==> spec_select(#[trigger] a[i].1, n) is Some,
    ensures
        keys_of(spec_for_all(a, n)) == keys_of(a),
    decreases a.len(),
{
    if a.len() > 0 {
        let init = a.drop_last();
        assert forall|i: int| 0 <= i < init.len() implies spec_select(#[trigger] init[i].1, n) is Some by {
            assert(init[i] == a[i]);
        }
        lemma_for_all_keys_all(init, n);
        assert(spec_select(a[a.len() - 1].1, n) is Some);
        let x = spec_select(a.last().1, n)->0;
        assert(keys_of(spec_for_all(init, n).push((a.last().0, x))) =~= keys_of(spec_for_all(init, n)).push(a.last().0));
        assert(keys_of(a) =~= keys_of(init).push(a.last().0));
    } else {
        assert(keys_of(a) =~= Seq::<Seq<char>>::empty());
        assert(keys_of(spec_for_all(a, n)) =~= Seq::<Seq<char>>::empty());
    }
}

/// A wildcard that keeps no entry keeps nothing.
proof fn lemma_for_all_none(a: Seq<(Seq<char>, JsonV)>, n: NodeV)
    requires
        forall|i: int| 0 <= i < a.len() ==> spec_select(#[trigger] a[i].1, n) is None,
    ensures
        spec_for_all(a, n) == Seq::<(Seq<char>, JsonV)>::empty(),
    decreases a.len(),
{
    if a.len() > 0 {
        let init = a.drop_last();
        assert forall|i: int| 0 <= i < init.len() implies spec_select(#[trigger] init[i].1, n) is None by {
            assert(init[i] == a[i]);
        }
        lemma_for_all_none(init, n);
        assert(spec_select(a[a.len() - 1].1, n) is None);
    }
}

/// Every added key is present afterwards.
proof fn lemma_key_add_all_contains(ks: Seq<Seq<char>>, l: Seq<Seq<char>>)
    ensures
        forall|i: int| 0 <= i < l.len() ==> key_add_all(ks, l).contains(#[trigger] l[i]),
        forall|i: int| 0 <= i < ks.len() ==> key_add_all(ks, l).contains(#[trigger] ks[i]),
    decreases l.len(),
{
    if l.len() > 0 {
        let init = l.drop_last();
        lemma_key_add_all_contains(ks, init);
        let r = key_add_all(ks, init);
        let r2 = key_add(r, l.last());
        assert forall|i: int| 0 <= i < l.len() implies r2.contains(#[trigger] l[i]) by {
            if i < init.len() {
                assert(init[i] == l[i]);
                let j = choose|j: int| 0 <= j < r.len() && r[j] == l[i];
                if !r.contains(l.last()) {
                    assert(r2[j] == r[j]);
                }
            } else {
                if !r.contains(l.last()) {
                    assert(r2[r.len() as int] == l.last());
                }
            }
        }
        assert forall|i: int| 0 <= i < ks.len() implies r2.contains(#[trigger] ks[i]) by {
            let j = choose|j: int| 0 <= j < r.len() && r[j] == ks[i];
            if !r.contains(l.last()) {
                assert(r2[j] == r[j]);
            }
        }
    } else {
        assert forall|i: int| 0 <= i < ks.len() implies ks.contains(#[trigger] ks[i]) by {}
    }
}

/// The keys after one more mask entry.
pub open spec fn keys_step(ks: Seq<Seq<char>>, d: Seq<(Seq<char>, JsonV)>, e: (Seq<char>, NodeV)) -> Seq<Seq<char>> {
    if e.1.is_wildcard {
        key_add_all(ks, keys_of(spec_for_all(d, e.1)))
    } else {
        match map_get(d, e.0) {
            Some(v) => if spec_select(v, e.1) is Some {
                key_add(ks, e.0)
            } else {
                ks
            },
            None => ks,
        }
    }
}

/// The keys of a masked object grow one mask entry at a time.
proof fn lemma_select_keys_step(d: Seq<(Seq<char>, JsonV)>, m: MaskV)
    requires
        m.len() > 0,
    ensures
        keys_of(spec_select_keys(d, m)) == keys_step(keys_of(spec_select_keys(d, m.drop_last())), d, m.last()),
{
    let before = spec_select_keys(d, m.drop_last());
    let e = m.last();
    if e.1.is_wildcard {
        lemma_insert_all_key_seq(before, spec_for_all(d, e.1));
    } else {
        match map_get(d, e.0) {
            Some(v) => match spec_select(v, e.1) {
                Some(r) => lemma_insert_key_seq(before, e.0, r),
                None => {},
            },
            None => {},
        }
    }
}

/// The keys after the first `j` mask entries begin the keys after all of them.
proof fn lemma_select_keys_prefix(d: Seq<(Seq<char>, JsonV)>, m: MaskV, j: int)
    requires
        0 <= j <= m.len(),
    ensures
        keys_of(spec_select_keys(d, m.take(j))).len() <= keys_of(spec_select_keys(d, m)).len(),
        keys_of(spec_select_keys(d, m)).subrange(0, keys_of(spec_select_keys(d, m.take(j))).len() as int)
            == keys_of(spec_select_keys(d, m.take(j))),
    decreases m.len(),
{
    let all = keys_of(spec_select_keys(d, m));
    if j == m.len() {
        assert(m.take(j) =~= m);
        assert(all.subrange(0, all.len() as int) =~= all);
    } else {
        let init = m.drop_last();
        assert(init.take(j) =~= m.take(j));
        lemma_select_keys_prefix(d, init, j);
        lemma_select_keys_step(d, m);
        let mid = keys_of(spec_select_keys(d, init));
        let part = keys_of(spec_select_keys(d, m.take(j)));
        let e = m.last();
        if e.1.is_wildcard {
            lemma_key_add_all_extends(mid, keys_of(spec_for_all(d, e.1)));
        } else {
            lemma_key_add_all_extends(mid, Seq::empty());
            assert(key_add(mid, e.0).subrange(0, mid.len() as int) =~= mid);
        }
        assert(all.subrange(0, mid.len() as int) == mid);
        assert(all.subrange(0, part.len() as int) =~= mid.subrange(0, part.len() as int));
    }
}

/// In a sequence of entries with unique keys, the value of an entry is the
/// value found under its key.
proof fn lemma_get_at<V>(m: Seq<(Seq<char>, V)>, i: int)
    requires
        keys_unique(keys_of(m)),
        0 <= i < m.len(),
    ensures
        map_get(m, m[i].0) == Some(m[i].1),
{
    assert(keys_of(m)[i] == m[i].0);
    lemma_key_pos_unique(keys_of(m), i);
}

/// A key that is in the keys has a value.
proof fn lemma_get_contains<V>(m: Seq<(Seq<char>, V)>, x: Seq<char>)
    requires
        keys_of(m).contains(x),
    ensures
        map_get(m, x) is Some,
{
    lemma_key_pos(keys_of(m), x);
    let j = choose|j: int| 0 <= j < keys_of(m).len() && keys_of(m)[j] == x;
}

/// For a key of the masked object `out = spec_select_keys(es, m)`, a wildcard
/// of `m` keeps the value of `out` under it exactly when it keeps the value of
/// `es` under it.
proof fn lemma_wild_agrees(es: Seq<(Seq<char>, JsonV)>, m: MaskV, w: int, x: Seq<char>)
    requires
        keys_unique(keys_of(es)),
        0 <= w < m.len(),
        m[w].1.is_wildcard,
        keys_of(spec_select_keys(es, m)).contains(x),
    ensures
        map_get(es, x) is Some,
        map_get(spec_select_keys(es, m), x) is Some,
        spec_select(map_get(es, x)->0, m[w].1) is Some <==> spec_select(
            map_get(spec_select_keys(es, m), x)->0,
            m[w].1,
        ) is Some,
{
    let out = spec_select_keys(es, m);
    lemma_select_keys_shape(es, m);
    let t = choose|t: int| 0 <= t < keys_of(out).len() && keys_of(out)[t] == x;
    assert(keys_of(es).contains(out[t].0));
    lemma_get_contains(es, x);
    lemma_get_contains(out, x);
    lemma_select_keys_get(es, m, x);
    lemma_writer_agrees(map_get(es, x)->0, m, x, w);
}

/// Masking the masked object again adds its keys in the same order.
proof fn lemma_keys_fixed(es: Seq<(Seq<char>, JsonV)>, m: MaskV, j: int)
    requires
        keys_unique(keys_of(es)),
        0 <= j <= m.len(),
    ensures
        keys_of(spec_select_keys(spec_select_keys(es, m), m.take(j))) == keys_of(spec_select_keys(es, m.take(j))),
    decreases j,
{
    let o = spec_select_keys(es, m);
    if j == 0 {
        assert(m.take(0) =~= Seq::<(Seq<char>, NodeV)>::empty());
    } else {
        lemma_keys_fixed(es, m, j - 1);
        let mj = m.take(j);
        assert(mj.drop_last() =~= m.take(j - 1));
        assert(mj.last() == m[j - 1]);
        lemma_select_keys_step(es, mj);
        lemma_select_keys_step(o, mj);
        let ks = keys_of(spec_select_keys(es, m.take(j - 1)));
        let e = m[j - 1];
        if !e.1.is_wildcard {
            let k = e.0;
            lemma_select_keys_get(es, m, k);
            match map_get(es, k) {
                None => {
                    lemma_last_write_none(m, k);
                },
                Some(v) => {
                    lemma_writer_agrees(v, m, k, j - 1);
                },
            }
        } else {
            let n = e.1;
            lemma_select_keys_shape(es, m);
            lemma_for_all_get(es, n, Seq::empty());
            lemma_for_all_get(o, n, Seq::empty());
            let l1 = keys_of(spec_for_all(es, n));
            let l2 = keys_of(spec_for_all(o, n));
            lemma_key_add_all_outside(ks, l1);
            lemma_key_add_all_outside(ks, l2);
            let f = outside(l1, ks);
            lemma_select_keys_prefix(es, m, j);
            let ko = keys_of(o);
            let a = ks.len() as int;
            let b = a + f.len();
            assert(ko.subrange(0, b) == ks + f);
            let o_k = o.subrange(0, a);
            let o_f = o.subrange(a, b);
            let o_r = o.subrange(b, o.len() as int);
            assert(o =~= o_k + o_f + o_r);
            lemma_for_all_add(o_k + o_f, o_r, n);
            lemma_for_all_add(o_k, o_f, n);
            let fk = spec_for_all(o_k, n);
            let ff = spec_for_all(o_f, n);
            let fr = spec_for_all(o_r, n);
            assert(l2 =~= keys_of(fk) + keys_of(ff) + keys_of(fr));
            lemma_outside_add(keys_of(fk) + keys_of(ff), keys_of(fr), ks);
            lemma_outside_add(keys_of(fk), keys_of(ff), ks);
            // the part of the keys already present stays out
            lemma_for_all_keys(o_k, n);
            assert forall|i: int| 0 <= i < keys_of(fk).len() implies ks.contains(#[trigger] keys_of(fk)[i]) by {
                assert(keys_of(o_k).contains(fk[i].0));
                let t = choose|t: int| 0 <= t < keys_of(o_k).len() && keys_of(o_k)[t] == fk[i].0;
                assert(keys_of(o_k)[t] == ko[t]);
                assert(ko[t] == (ks + f)[t]);
                assert(ks[t] == fk[i].0);
            }
            lemma_outside_all_in(keys_of(fk), ks);
            // the keys the wildcard added are kept again
            assert forall|i: int| 0 <= i < o_f.len() implies spec_select(#[trigger] o_f[i].1, n) is Some by {
                let x = o_f[i].0;
                assert(o_f[i] == o[a + i]);
                assert(ko[a + i] == x);
                assert(ko.contains(x));
                lemma_get_at(o, a + i);
                lemma_wild_agrees(es, m, j - 1, x);
                assert(ko[a + i] == (ks + f)[a + i]);
                assert(f[i] == x);
                assert(l1.contains(x));
                lemma_get_contains(spec_for_all(es, n), x);
                lemma_for_all_get(es, n, x);
            }
            lemma_for_all_keys_all(o_f, n);
            assert(keys_of(o_f) =~= f) by {
                assert forall|i: int| 0 <= i < f.len() implies keys_of(o_f)[i] == f[i] by {
                    assert(o_f[i] == o[a + i]);
                    assert(ko[a + i] == (ks + f)[a + i]);
                }
            }
            lemma_outside_none_in(f, ks);
            // the keys added after the wildcard are not kept by it
            assert forall|i: int| 0 <= i < o_r.len() implies spec_select(#[trigger] o_r[i].1, n) is None by {
                let x = o_r[i].0;
                assert(o_r[i] == o[b + i]);
                assert(ko[b + i] == x);
                assert(ko.contains(x));
                lemma_get_at(o, b + i);
                lemma_wild_agrees(es, m, j - 1, x);
                lemma_for_all_get(es, n, x);
                if spec_select(o_r[i].1, n) is Some {
                    lemma_key_pos(l1, x);
                    assert(map_get(spec_for_all(es, n), x) is Some);
                    assert(l1.contains(x));
                    lemma_key_add_all_contains(ks, l1);
                    let p = choose|p: int| 0 <= p < l1.len() && l1[p] == x;
                    assert(key_add_all(ks, l1).contains(l1[p]));
                    let t = choose|t: int| 0 <= t < (ks + f).len() && (ks + f)[t] == x;
                    assert(ko[t] == x);
                    assert(keys_unique(ko));
                }
            }
            lemma_for_all_none(o_r, n);
            assert(keys_of(fr) =~= Seq::<Seq<char>>::empty());
            assert(outside(keys_of(fr), ks) =~= Seq::<Seq<char>>::empty());
            assert(outside(l2, ks) =~= f);
        }
    }
}

/// Two sequences of entries with unique keys, the same keys in the same order
/// and the same value under each key are equal.
proof fn lemma_unique_ext<V>(a: Seq<(Seq<char>, V)>, b: Seq<(Seq<char>, V)>)
    requires
        keys_unique(keys_of(a)),
        keys_unique(keys_of(b)),
        keys_of(a) == keys_of(b),
        forall|x: Seq<char>| #[trigger] map_get(a, x) == map_get(b, x),
    ensures
        a == b,
{
    assert(a.len() == keys_of(a).len());
    assert forall|i: int| 0 <= i < a.len() implies a[i] == b[i] by {
        assert(keys_of(a)[i] == keys_of(b)[i]);
        lemma_get_at(a, i);
        lemma_get_at(b, i);
        assert(map_get(a, a[i].0) == map_get(b, a[i].0));
    }
    assert(a =~= b);
}

/// Masking a masked object again gives it back, when every entry that writes a
/// key keeps what it keeps.
proof fn lemma_select_keys_fixed(es: Seq<(Seq<char>, JsonV)>, m: MaskV)
    requires
        keys_unique(keys_of(es)),
        forall|x: Seq<char>, i: int|
            0 <= i < m.len() && #[trigger] writes_key(m[i], x) && #[trigger] map_get(es, x) is Some ==> (
            spec_select(map_get(es, x)->0, m[i].1) matches Some(r) ==> spec_select(r, m[i].1) == Some(r)),
    ensures
        spec_select_keys(spec_select_keys(es, m), m) == spec_select_keys(es, m),
{
    let o = spec_select_keys(es, m);
    let o2 = spec_select_keys(o, m);
    lemma_keys_fixed(es, m, m.len() as int);
    assert(m.take(m.len() as int) =~= m);
    lemma_select_keys_shape(es, m);
    lemma_select_keys_shape(o, m);
    assert forall|x: Seq<char>| #[trigger] map_get(o2, x) == map_get(o, x) by {
        lemma_select_keys_get(o, m, x);
        lemma_select_keys_get(es, m, x);
        match map_get(es, x) {
            None => {
                lemma_last_write_none(m, x);
            },
            Some(v) => {
                assert forall|i: int|
                    0 <= i < m.len() && writes_key(#[trigger] m[i], x) implies (spec_select(v, m[i].1) matches Some(r)
                        ==> spec_select(r, m[i].1) == Some(r)) by {
                    assert(writes_key(m[i], x) && map_get(es, x) is Some);
                }
                lemma_last_write_stable(v, m, x);
                if last_write(Some(v), m, x) is None {
                }
            },
        }
    }
    lemma_unique_ext(o2, o);
}

/// Every object in the value has unique keys.
pub open spec fn json_wf(x: JsonV) -> bool
    decreases x,
{
    match x {
        JsonV::Array(s) => values_wf(s),
        JsonV::Object(es) => keys_unique(keys_of(es)) && entry_values_wf(es),
        _ => true,
    }
}

/// Every value of the sequence is well formed.
pub open spec fn values_wf(s: Seq<JsonV>) -> bool
    decreases s,
{
    s.len() == 0 || (values_wf(s.drop_last()) && json_wf(s.last()))
}

/// Every value of the entries is well formed.
pub open spec fn entry_values_wf(es: Seq<(Seq<char>, JsonV)>) -> bool
    decreases es,
{
    es.len() == 0 || (entry_values_wf(es.drop_last()) && json_wf(es.last().1))
}

/// `values_wf` entry by entry.
proof fn lemma_values_wf(s: Seq<JsonV>)
    requires
        values_wf(s),
    ensures
        forall|i: int| 0 <= i < s.len() ==> json_wf(#[trigger] s[i]),
    decreases s.len(),
{
    if s.len() > 0 {
        let init = s.drop_last();
        lemma_values_wf(init);
        assert forall|i: int| 0 <= i < s.len() implies json_wf(#[trigger] s[i]) by {
            if i < init.len() {
                assert(s[i] == init[i]);
            }
        }
    }
}

/// `entry_values_wf` entry by entry.
proof fn lemma_entry_values_wf(es: Seq<(Seq<char>, JsonV)>)
    requires
        entry_values_wf(es),
    ensures
        forall|i: int| 0 <= i < es.len() ==> json_wf(#[trigger] es[i].1),
    decreases es.len(),
{
    if es.len() > 0 {
        let init = es.drop_last();
        lemma_entry_values_wf(init);
        assert forall|i: int| 0 <= i < es.len() implies json_wf(#[trigger] es[i].1) by {
            if i < init.len() {
                assert(es[i] == init[i]);
            }
        }
    }
}

/// `values_wf` from its elements.
proof fn lemma_values_wf_back(s: Seq<JsonV>)
    requires
        forall|i: int| 0 <= i < s.len() ==> json_wf(#[trigger] s[i]),
    ensures
        values_wf(s),
    decreases s.len(),
{
    if s.len() > 0 {
        let init = s.drop_last();
        assert forall|i: int| 0 <= i < init.len() implies json_wf(#[trigger] init[i]) by {
            assert(init[i] == s[i]);
        }
        lemma_values_wf_back(init);
        assert(json_wf(s[s.len() - 1]));
    }
}

/// `entry_values_wf` from its entries.
proof fn lemma_entry_values_wf_back(es: Seq<(Seq<char>, JsonV)>)
    requires
        forall|i: int| 0 <= i < es.len() ==> json_wf(#[trigger] es[i].1),
    ensures
        entry_values_wf(es),
    decreases es.len(),
{
    if es.len() > 0 {
        let init = es.drop_last();
        assert forall|i: int| 0 <= i < init.len() implies json_wf(#[trigger] init[i].1) by {
            assert(init[i] == es[i]);
        }
        lemma_entry_values_wf_back(init);
        assert(json_wf(es[es.len() - 1].1));
    }
}

/// Inserting entries whose values are well formed keeps every value well
/// formed.
proof fn lemma_insert_all_values_wf(m: Seq<(Seq<char>, JsonV)>, es: Seq<(Seq<char>, JsonV)>)
    requires
        forall|i: int| 0 <= i < m.len() ==> json_wf(#[trigger] m[i].1),
        forall|i: int| 0 <= i < es.len() ==> json_wf(#[trigger] es[i].1),
    ensures
        forall|i: int| 0 <= i < map_insert_all(m, es).len() ==> json_wf(#[trigger] map_insert_all(m, es)[i].1),
    decreases es.len(),
{
    if es.len() > 0 {
        let init = es.drop_last();
        assert forall|i: int| 0 <= i < init.len() implies json_wf(#[trigger] init[i].1) by {
            assert(init[i] == es[i]);
        }
        lemma_insert_all_values_wf(m, init);
        let before = map_insert_all(m, init);
        let e = es[es.len() - 1];
        assert(json_wf(e.1));
        lemma_key_pos(keys_of(before), e.0);
        let r = map_insert(before, e.0, e.1);
        assert forall|i: int| 0 <= i < r.len() implies json_wf(#[trigger] r[i].1) by {
            if i < before.len() && r[i] == before[i] {
                assert(json_wf(before[i].1));
            }
        }
    }
}

/// Filtering a well-formed value gives a well-formed value.
pub proof fn lemma_filter_wf(x: JsonV, m: Option<MaskV>)
    requires
        json_wf(x),
    ensures
        spec_filter(x, m) matches Some(t) ==> json_wf(t),
    decreases m, x, 9int,
{
    match x {
        JsonV::Array(items) => {
            lemma_values_wf(items);
            lemma_mask_items_wf(items, m);
            lemma_values_wf_back(spec_mask_items(items, m));
        },
        _ => lemma_properties_wf(x, m),
    }
}

/// `spec_properties` keeps well-formedness.
proof fn lemma_properties_wf(x: JsonV, m: Option<MaskV>)
    requires
        json_wf(x),
    ensures
        spec_properties(x, m) matches Some(t) ==> json_wf(t),
    decreases m, x, 8int,
{
    match m {
        None => {},
        Some(mask) => {
            if !spec_is_falsy(x) {
                match x {
                    JsonV::Array(items) => {
                        lemma_values_wf(items);
                        lemma_wildcards_wf(items, mask);
                        lemma_values_wf_back(spec_wildcards_over_array(items, mask));
                    },
                    JsonV::Object(es) => {
                        lemma_entry_values_wf(es);
                        lemma_select_keys_wf(es, mask);
                        lemma_entry_values_wf_back(spec_select_keys(es, mask));
                    },
                    _ => {},
                }
            }
        },
    }
}

/// The wildcard runs over well-formed elements are well formed.
proof fn lemma_wildcards_wf(items: Seq<JsonV>, mask: MaskV)
    requires
        forall|i: int| 0 <= i < items.len() ==> json_wf(#[trigger] items[i]),
    ensures
        forall|i: int|
            0 <= i < spec_wildcards_over_array(items, mask).len() ==> json_wf(
                #[trigger] spec_wildcards_over_array(items, mask)[i],
            ),
    decreases mask, items, 7int,
{
    if mask.len() > 0 {
        let node = mask.last().1;
        lemma_wildcards_wf(items, mask.drop_last());
        if node.is_wildcard {
            assert(decreases_to!(mask => mask[mask.len() - 1]));
            assert(decreases_to!(mask[mask.len() - 1] => mask[mask.len() - 1].1));
            lemma_for_all_array_wf(items, node);
        }
        let before = spec_wildcards_over_array(items, mask.drop_last());
        let out = spec_wildcards_over_array(items, mask);
        assert forall|i: int| 0 <= i < out.len() implies json_wf(#[trigger] out[i]) by {
            if i < before.len() {
                assert(out[i] == before[i]);
            } else {
                assert(out[i] == spec_for_all_array(items, node)[i - before.len()]);
            }
        }
    }
}

/// Masking well-formed elements against a node gives well-formed elements.
proof fn lemma_for_all_array_wf(items: Seq<JsonV>, node: NodeV)
    requires
        forall|i: int| 0 <= i < items.len() ==> json_wf(#[trigger] items[i]),
    ensures
        forall|i: int|
            0 <= i < spec_for_all_array(items, node).len() ==> json_wf(#[trigger] spec_for_all_array(items, node)[i]),
    decreases node, items, 6int,
{
    if items.len() > 0 {
        let init = items.drop_last();
        assert forall|i: int| 0 <= i < init.len() implies json_wf(#[trigger] init[i]) by {
            assert(init[i] == items[i]);
        }
        lemma_for_all_array_wf(init, node);
        assert(decreases_to!(node => node.properties));
        assert(json_wf(items[items.len() - 1]));
        lemma_filter_wf(items.last(), node.properties);
        if let Some(v) = spec_select(items.last(), node) {
            assert(spec_filter(items.last(), node.properties) == Some(v));
            assert(json_wf(v));
        }
        let before = spec_for_all_array(init, node);
        let out = spec_for_all_array(items, node);
        assert forall|i: int| 0 <= i < out.len() implies json_wf(#[trigger] out[i]) by {
            if i < before.len() {
                assert(out[i] == before[i]);
            }
        }
    }
}

/// The selected entries of well-formed values have unique keys and
/// well-formed values.
proof fn lemma_select_keys_wf(es: Seq<(Seq<char>, JsonV)>, mask: MaskV)
    requires
        forall|i: int| 0 <= i < es.len() ==> json_wf(#[trigger] es[i].1),
    ensures
        keys_unique(keys_of(spec_select_keys(es, mask))),
        forall|i: int|
            0 <= i < spec_select_keys(es, mask).len() ==> json_wf(#[trigger] spec_select_keys(es, mask)[i].1),
    decreases mask, es, 5int,
{
    if mask.len() == 0 {
        let e = Seq::<(Seq<char>, JsonV)>::empty();
        assert(keys_of(e) =~= Seq::<Seq<char>>::empty());
    } else {
        let key = mask.last().0;
        let node = mask.last().1;
        let before = spec_select_keys(es, mask.drop_last());
        lemma_select_keys_wf(es, mask.drop_last());
        assert(decreases_to!(mask => mask[mask.len() - 1]));
        assert(decreases_to!(mask[mask.len() - 1] => mask[mask.len() - 1].1));
        if node.is_wildcard {
            lemma_for_all_wf(es, node);
            lemma_insert_all_keys(before, spec_for_all(es, node), keys_of(before));
            lemma_insert_all_values_wf(before, spec_for_all(es, node));
        } else {
            match map_get(es, key) {
                Some(value) => {
                    lemma_key_pos(keys_of(es), key);
                    assert(json_wf(es[key_pos(keys_of(es), key)].1));
                    assert(decreases_to!(node => node.properties));
                    lemma_filter_wf(value, node.properties);
                    match spec_select(value, node) {
                        Some(r) => {
                            lemma_insert_keys(before, key, r);
                            lemma_key_pos(keys_of(before), key);
                            let out = map_insert(before, key, r);
                            assert forall|i: int| 0 <= i < out.len() implies json_wf(#[trigger] out[i].1) by {
                                if i < before.len() && out[i] == before[i] {
                                    assert(json_wf(before[i].1));
                                }
                            }
                        },
                        None => {},
                    }
                },
                None => {},
            }
        }
    }
}

/// Masking the values of well-formed entries gives well-formed values.
proof fn lemma_for_all_wf(es: Seq<(Seq<char>, JsonV)>, node: NodeV)
    requires
        forall|i: int| 0 <= i < es.len() ==> json_wf(#[trigger] es[i].1),
    ensures
        forall|i: int| 0 <= i < spec_for_all(es, node).len() ==> json_wf(#[trigger] spec_for_all(es, node)[i].1),
    decreases node, es, 4int,
{
    if es.len() > 0 {
        let init = es.drop_last();
        assert forall|i: int| 0 <= i < init.len() implies json_wf(#[trigger] init[i].1) by {
            assert(init[i] == es[i]);
        }
        lemma_for_all_wf(init, node);
        assert(decreases_to!(node => node.properties));
        assert(json_wf(es[es.len() - 1].1));
        lemma_filter_wf(es.last().1, node.properties);
        if let Some(v) = spec_select(es.last().1, node) {
            assert(spec_filter(es.last().1, node.properties) == Some(v));
            assert(json_wf(v));
        }
        let before = spec_for_all(init, node);
        let out = spec_for_all(es, node);
        assert forall|i: int| 0 <= i < out.len() implies json_wf(#[trigger] out[i].1) by {
            if i < before.len() {
                assert(out[i] == before[i]);
            }
        }
    }
}

/// Masking well-formed elements gives well-formed elements.
proof fn lemma_mask_items_wf(items: Seq<JsonV>, m: Option<MaskV>)
    requires
        forall|i: int| 0 <= i < items.len() ==> json_wf(#[trigger] items[i]),
    ensures
        forall|i: int| 0 <= i < spec_mask_items(items, m).len() ==> json_wf(#[trigger] spec_mask_items(items, m)[i]),
    decreases m, items, 2int,
{
    if items.len() > 0 {
        let init = items.drop_last();
        assert forall|i: int| 0 <= i < init.len() implies json_wf(#[trigger] init[i]) by {
            assert(init[i] == items[i]);
        }
        lemma_mask_items_wf(init, m);
        assert(decreases_to!(items => items[items.len() - 1]));
        assert(json_wf(items[items.len() - 1]));
        lemma_properties_wf(items.last(), m);
        let before = spec_mask_items(init, m);
        let out = spec_mask_items(items, m);
        assert forall|i: int| 0 <= i < out.len() implies json_wf(#[trigger] out[i]) by {
            if i < before.len() {
                assert(out[i] == before[i]);
            }
        }
    }
}

/// Filtering keeps well-formedness: when every object of the value has unique
/// keys, so does every object of the result.
pub proof fn law_filter_keeps_unique_keys(x: JsonV, m: Option<MaskV>)
    requires
        json_wf(x),
    ensures
        spec_filter(x, m) matches Some(t) ==> json_wf(t),
{
    lemma_filter_wf(x, m);
}

/// `mask` keeps well-formedness: when every object of the value has unique
/// keys, so does every object of the result.
pub proof fn law_mask_keeps_unique_keys(obj: JsonV, query: Seq<char>)
    requires
        json_wf(obj),
    ensures
        json_wf(spec_mask(obj, query)),
{
    lemma_filter_wf(obj, spec_compile(query));
}

/// At most one entry of the mask is a wildcard.
pub open spec fn one_wildcard(m: MaskV) -> bool {
    forall|i: int, j: int|
        0 <= i < m.len() && 0 <= j < m.len() && (#[trigger] m[i]).1.is_wildcard && (#[trigger] m[j]).1.is_wildcard
            ==> i == j
}

/// Every sub-mask under the node has at most one wildcard per level.
pub open spec fn node_fit(n: NodeV) -> bool
    decreases n,
{
    match n.properties {
        None => true,
        Some(p) => one_wildcard(p) && nodes_fit(p),
    }
}

/// Every node of the mask fits.
pub open spec fn nodes_fit(m: MaskV) -> bool
    decreases m,
{
    m.len() == 0 || (nodes_fit(m.drop_last()) && node_fit(m.last().1))
}

/// The mask has at most one wildcard per level.
pub open spec fn mask_fit(m: MaskV) -> bool {
    one_wildcard(m) && nodes_fit(m)
}

/// An optional mask has at most one wildcard per level.
pub open spec fn opt_fit(m: Option<MaskV>) -> bool {
    match m {
        None => true,
        Some(p) => mask_fit(p),
    }
}

/// `nodes_fit` entry by entry.
proof fn lemma_nodes_fit(m: MaskV)
    requires
        nodes_fit(m),
    ensures
        forall|i: int| 0 <= i < m.len() ==> node_fit(#[trigger] m[i].1),
    decreases m.len(),
{
    if m.len() > 0 {
        let init = m.drop_last();
        lemma_nodes_fit(init);
        assert forall|i: int| 0 <= i < m.len() implies node_fit(#[trigger] m[i].1) by {
            if i < init.len() {
                assert(m[i] == init[i]);
            }
        }
    }
}

/// With at most one wildcard, the elements a mask keeps from an array are
/// those that its wildcard keeps, or none.
proof fn lemma_wildcards_one(items: Seq<JsonV>, m: MaskV)
    requires
        one_wildcard(m),
    ensures
        (forall|i: int| 0 <= i < m.len() ==> !(#[trigger] m[i]).1.is_wildcard) ==> spec_wildcards_over_array(items, m)
            == Seq::<JsonV>::empty(),
        forall|i: int|
            0 <= i < m.len() && (#[trigger] m[i]).1.is_wildcard ==> spec_wildcards_over_array(items, m)
                == spec_for_all_array(items, m[i].1),
    decreases m.len(),
{
    if m.len() > 0 {
        let init = m.drop_last();
        assert(one_wildcard(init)) by {
            assert forall|i: int, j: int|
                0 <= i < init.len() && 0 <= j < init.len() && (#[trigger] init[i]).1.is_wildcard
                    && (#[trigger] init[j]).1.is_wildcard implies i == j by {
                assert(init[i] == m[i]);
                assert(init[j] == m[j]);
            }
        }
        lemma_wildcards_one(items, init);
        assert forall|i: int| 0 <= i < init.len() implies #[trigger] init[i] == m[i] by {}
        let last = m.len() - 1;
        if m[last].1.is_wildcard {
            assert forall|i: int| 0 <= i < init.len() implies !(#[trigger] init[i]).1.is_wildcard by {
                assert(m[i] == init[i]);
                if m[i].1.is_wildcard {
                    assert(i == last);
                }
            }
            assert(Seq::<JsonV>::empty() + spec_for_all_array(items, m[last].1) =~= spec_for_all_array(items, m[last].1));
            assert forall|i: int| 0 <= i < m.len() && (#[trigger] m[i]).1.is_wildcard implies spec_wildcards_over_array(items, m)
                == spec_for_all_array(items, m[i].1) by {
                assert(i == last);
            }
        } else {
            assert forall|i: int| 0 <= i < m.len() && (#[trigger] m[i]).1.is_wildcard implies spec_wildcards_over_array(items, m)
                == spec_for_all_array(items, m[i].1) by {
                assert(i != last);
                assert(init[i] == m[i]);
            }
            if forall|i: int| 0 <= i < m.len() ==> !(#[trigger] m[i]).1.is_wildcard {
                assert forall|i: int| 0 <= i < init.len() implies !(#[trigger] init[i]).1.is_wildcard by {
                    assert(init[i] == m[i]);
                }
            }
        }
    }
}

/// Filtering what a mask kept keeps it all.
pub proof fn lemma_filter_fixed(x: JsonV, m: Option<MaskV>)
    requires
        json_wf(x),
        opt_fit(m),
    ensures
        spec_filter(x, m) matches Some(t) ==> spec_filter(t, m) == Some(t),
    decreases m, x, 9int,
{
    match x {
        JsonV::Array(items) => {
            if items.len() > 0 {
                lemma_mask_items_fixed(items, m);
                let kept = spec_mask_items(items, m);
                if kept.len() > 0 {
                    assert(spec_filter(JsonV::Array(kept), m) == spec_mask_array(kept, m));
                }
            }
        },
        _ => {
            lemma_properties_fixed(x, m);
        },
    }
}

/// Masking what a mask kept from an object, array or scalar keeps it all.
proof fn lemma_properties_fixed(x: JsonV, m: Option<MaskV>)
    requires
        json_wf(x),
        opt_fit(m),
    ensures
        spec_properties(x, m) matches Some(t) ==> spec_properties(t, m) == Some(t) && (x is Array <==> t is Array),
    decreases m, x, 8int,
{
    match m {
        None => {},
        Some(mask) => {
            if !spec_is_falsy(x) {
                match x {
                    JsonV::Array(items) => {
                        lemma_wildcards_one(items, mask);
                        let w = spec_wildcards_over_array(items, mask);
                        lemma_wildcards_one(w, mask);
                        lemma_nodes_fit(mask);
                        if exists|i: int| 0 <= i < mask.len() && (#[trigger] mask[i]).1.is_wildcard {
                            let i = choose|i: int| 0 <= i < mask.len() && (#[trigger] mask[i]).1.is_wildcard;
                            assert(decreases_to!(Some(mask) => Some(mask)->0));
                            assert(decreases_to!(mask => mask[i]));
                            assert(decreases_to!(mask[i] => mask[i].1));
                            lemma_for_all_array_fixed(items, mask[i].1);
                        }
                    },
                    JsonV::Object(es) => {
                        lemma_entry_values_wf(es);
                        lemma_nodes_fit(mask);
                        assert forall|k: Seq<char>, i: int|
                            0 <= i < mask.len() && #[trigger] writes_key(mask[i], k) && #[trigger] map_get(es, k) is Some
                                implies (spec_select(map_get(es, k)->0, mask[i].1) matches Some(r) ==> spec_select(
                                r,
                                mask[i].1,
                            ) == Some(r)) by {
                            lemma_key_pos(keys_of(es), k);
                            let p = key_pos(keys_of(es), k);
                            assert(json_wf(es[p].1));
                            assert(decreases_to!(Some(mask) => Some(mask)->0));
                            assert(decreases_to!(mask => mask[i]));
                            assert(decreases_to!(mask[i] => mask[i].1));
                            assert(decreases_to!(mask[i].1 => mask[i].1.properties));
                            assert(node_fit(mask[i].1));
                            lemma_filter_fixed(es[p].1, mask[i].1.properties);
                        }
                        lemma_select_keys_fixed(es, mask);
                    },
                    _ => {},
                }
            }
        },
    }
}

/// Masking the elements a mask kept keeps them all.
proof fn lemma_mask_items_fixed(items: Seq<JsonV>, m: Option<MaskV>)
    requires
        values_wf(items),
        opt_fit(m),
    ensures
        spec_mask_items(spec_mask_items(items, m), m) == spec_mask_items(items, m),
    decreases m, items, 2int,
{
    if items.len() == 0 {
    } else {
        let init = items.drop_last();
        lemma_values_wf(items);
        assert(values_wf(init));
        lemma_mask_items_fixed(init, m);
        let before = spec_mask_items(init, m);
        assert(decreases_to!(items => items[items.len() - 1]));
        lemma_properties_fixed(items.last(), m);
        match spec_properties(items.last(), m) {
            Some(r) => {
                let kept = before.push(r);
                assert(kept.drop_last() =~= before);
                assert(kept.last() == r);
            },
            None => {},
        }
    }
}

/// Selecting again what a wildcard kept from an array keeps it all.
proof fn lemma_for_all_array_fixed(items: Seq<JsonV>, n: NodeV)
    requires
        values_wf(items),
        node_fit(n),
    ensures
        spec_for_all_array(spec_for_all_array(items, n), n) == spec_for_all_array(items, n),
    decreases n, items, 6int,
{
    if items.len() > 0 {
        let init = items.drop_last();
        lemma_values_wf(items);
        assert(values_wf(init));
        lemma_for_all_array_fixed(init, n);
        let before = spec_for_all_array(init, n);
        assert(decreases_to!(n => n.properties));
        lemma_filter_fixed(items.last(), n.properties);
        match spec_select(items.last(), n) {
            Some(r) => {
                let kept = before.push(r);
                assert(spec_for_all_array(items, n) == kept);
                assert(kept.drop_last() =~= before);
                assert(kept.last() == r);
                assert(spec_select(r, n) == spec_filter(r, n.properties));
                assert(spec_select(r, n) == Some(r));
                assert(spec_for_all_array(kept, n) == spec_for_all_array(before, n).push(r));
            },
            None => {
                assert(spec_for_all_array(items, n) == before);
            },
        }
    }
}

/// Only the name `*` is ever marked as a wildcard.
pub open spec fn tokens_wild_ok(toks: Seq<TokenV>) -> bool {
    forall|i: int| 0 <= i < toks.len() ==> name_ok(#[trigger] toks[i])
}

/// A name token has a non-empty name, and it is a wildcard only as `*`.
pub open spec fn name_ok(t: TokenV) -> bool {
    t matches TokenV::Name { value, is_wildcard } ==> value.len() > 0 && (is_wildcard ==> value == seq!['*'])
}

/// The scanner marks only the name `*` as a wildcard.
proof fn lemma_scan_wild(chars: Seq<char>, i: int, tokens: Seq<TokenV>, name: Seq<char>, is_wildcard: bool)
    requires
        tokens_wild_ok(tokens),
        is_wildcard ==> name == seq!['*'],
    ensures
        tokens_wild_ok(scan_from(chars, i, tokens, name, is_wildcard)),
    decreases chars.len() - i,
{
    let flushed = flush_name(tokens, name, is_wildcard);
    assert(tokens_wild_ok(flushed)) by {
        assert forall|t: int| 0 <= t < flushed.len() implies name_ok(#[trigger] flushed[t]) by {
            if t < tokens.len() {
                assert(flushed[t] == tokens[t]);
            }
        }
    }
    if i < 0 || i >= chars.len() {
    } else if chars[i] == ESCAPE_CHAR {
        if i + 1 >= chars.len() {
            let f2 = flush_name(tokens, name.push(ESCAPE_CHAR), false);
            assert forall|t: int| 0 <= t < f2.len() implies name_ok(#[trigger] f2[t]) by {
                if t < tokens.len() {
                    assert(f2[t] == tokens[t]);
                }
            }
        } else {
            let next = chars[i + 1];
            let escaped = if next == WILDCARD_CHAR && !lone_escaped_star(chars, i, name) {
                name.push(ESCAPE_CHAR).push(WILDCARD_CHAR)
            } else {
                name.push(next)
            };
            lemma_scan_wild(chars, i + 2, tokens, escaped, false);
        }
    } else if spec_is_terminal(chars[i]) {
        let t2 = flushed.push(terminal_token(chars[i]));
        assert forall|t: int| 0 <= t < t2.len() implies name_ok(#[trigger] t2[t]) by {
            if t < flushed.len() {
                assert(t2[t] == flushed[t]);
            }
        }
        lemma_scan_wild(chars, i + 1, t2, Seq::empty(), false);
    } else {
        let c = chars[i];
        if c == WILDCARD_CHAR && name.len() == 0 {
            assert(name.push(c) =~= seq!['*']);
        }
        lemma_scan_wild(chars, i + 1, tokens, name.push(c), c == WILDCARD_CHAR && name.len() == 0);
    }
}

/// Skipping tokens keeps the marking rule.
proof fn lemma_wild_ok_skip(toks: Seq<TokenV>, k: int)
    requires
        tokens_wild_ok(toks),
        0 <= k <= toks.len(),
    ensures
        tokens_wild_ok(toks.subrange(k, toks.len() as int)),
{
    let r = toks.subrange(k, toks.len() as int);
    assert forall|t: int| 0 <= t < r.len() implies name_ok(#[trigger] r[t]) by {
        assert(r[t] == toks[k + t]);
    }
}

/// What a selector tail leaves is a suffix of the queue.
proof fn lemma_selector_tail_suffix(toks: Seq<TokenV>, group_depth: nat)
    ensures
        spec_selector_tail(toks, group_depth).1 == toks.subrange(
            toks.len() - spec_selector_tail(toks, group_depth).1.len(),
            toks.len() as int,
        ),
        spec_selector_tail(toks, group_depth).1.len() <= toks.len(),
    decreases toks.len(),
{
    if toks.len() == 0 {
        assert(toks.subrange(0, 0) =~= toks);
    } else {
        let rest = toks.drop_first();
        match toks[0] {
            TokenV::Open => lemma_selector_tail_suffix(rest, group_depth + 1),
            TokenV::Close => if group_depth == 0 {
                assert(rest =~= toks.subrange(1, toks.len() as int));
            } else {
                lemma_selector_tail_suffix(rest, (group_depth - 1) as nat);
            },
            TokenV::Comma => if group_depth == 0 {
                assert(rest =~= toks.subrange(1, toks.len() as int));
            } else {
                lemma_selector_tail_suffix(rest, group_depth);
            },
            _ => lemma_selector_tail_suffix(rest, group_depth),
        }
        let r = spec_selector_tail(toks, group_depth).1;
        if !((toks[0] == TokenV::Close || toks[0] == TokenV::Comma) && group_depth == 0) {
            assert(r =~= toks.subrange(toks.len() - r.len(), toks.len() as int));
        }
    }
}

/// Every wildcard entry of the mask is keyed `*`.
pub open spec fn wild_keyed(m: MaskV) -> bool {
    forall|i: int| 0 <= i < m.len() && (#[trigger] m[i]).1.is_wildcard ==> m[i].0 == seq!['*']
}

/// `nodes_fit` from its entries.
proof fn lemma_nodes_fit_back(m: MaskV)
    requires
        forall|i: int| 0 <= i < m.len() ==> node_fit(#[trigger] m[i].1),
    ensures
        nodes_fit(m),
    decreases m.len(),
{
    if m.len() > 0 {
        let init = m.drop_last();
        assert forall|i: int| 0 <= i < init.len() implies node_fit(#[trigger] init[i].1) by {
            assert(init[i] == m[i]);
        }
        lemma_nodes_fit_back(init);
        assert(node_fit(m[m.len() - 1].1));
    }
}

/// With unique keys, wildcards keyed `*` are at most one.
proof fn lemma_one_wildcard(m: MaskV)
    requires
        wild_keyed(m),
        keys_unique(keys_of(m)),
    ensures
        one_wildcard(m),
{
    assert forall|i: int, j: int|
        0 <= i < m.len() && 0 <= j < m.len() && (#[trigger] m[i]).1.is_wildcard && (#[trigger] m[j]).1.is_wildcard
            implies i == j by {
        assert(keys_of(m)[i] == m[i].0);
        assert(keys_of(m)[j] == m[j].0);
    }
}

/// Inserting a fitting node, a wildcard only under `*`, keeps a mask fitting.
proof fn lemma_insert_fit(m: MaskV, k: Seq<char>, node: NodeV)
    requires
        wild_keyed(m),
        nodes_fit(m),
        node_fit(node),
        node.is_wildcard ==> k == seq!['*'],
    ensures
        wild_keyed(map_insert(m, k, node)),
        nodes_fit(map_insert(m, k, node)),
{
    let r = map_insert(m, k, node);
    lemma_key_pos(keys_of(m), k);
    lemma_nodes_fit(m);
    assert forall|i: int| 0 <= i < r.len() implies node_fit(#[trigger] r[i].1) && (r[i].1.is_wildcard ==> r[i].0 == seq!['*']) by {
        if i < m.len() && r[i] == m[i] {
            assert(node_fit(m[i].1));
        } else {
            if key_pos(keys_of(m), k) >= 0 {
                assert(r[i] == (k, node) || r[i] == m[i]);
            }
        }
    }
    lemma_nodes_fit_back(r);
}

/// A folded level keeps wildcards keyed `*` and fits, and leaves a suffix.
proof fn lemma_build_fit(toks: Seq<TokenV>, depth: nat, is_array: bool, has_child: bool)
    requires
        tokens_wild_ok(toks),
    ensures
        wild_keyed(spec_build(toks, depth, is_array, has_child).props),
        nodes_fit(spec_build(toks, depth, is_array, has_child).props),
        tokens_wild_ok(spec_build(toks, depth, is_array, has_child).rest),
    decreases toks.len(), 1int,
{
    lemma_build_loop_fit(toks, depth, Seq::empty(), false, is_array, has_child);
}

/// Folding keeps wildcards keyed `*` and the mask fitting, and leaves a suffix.
proof fn lemma_build_loop_fit(
    toks: Seq<TokenV>,
    depth: nat,
    props: MaskV,
    dropped: bool,
    is_array: bool,
    has_child: bool,
)
    requires
        tokens_wild_ok(toks),
        wild_keyed(props),
        nodes_fit(props),
    ensures
        wild_keyed(spec_build_loop(toks, depth, props, dropped, is_array, has_child).props),
        nodes_fit(spec_build_loop(toks, depth, props, dropped, is_array, has_child).props),
        tokens_wild_ok(spec_build_loop(toks, depth, props, dropped, is_array, has_child).rest),
    decreases toks.len(), 0int,
{
    if toks.len() > 0 {
        let rest = toks.drop_first();
        lemma_wild_ok_skip(toks, 1);
        assert(rest =~= toks.subrange(1, toks.len() as int));
        match toks[0] {
            TokenV::Name { value, is_wildcard } => {
                if depth >= MAX_DEPTH {
                    let after = spec_selector_tail(rest, 0).1;
                    lemma_selector_tail_suffix(rest, 0);
                    lemma_wild_ok_skip(rest, rest.len() - after.len());
                    if !(has_child || after.len() >= toks.len()) {
                        lemma_build_loop_fit(after, depth, props, true, is_array, has_child);
                    }
                } else {
                    lemma_build_fit(rest, depth + 1, false, false);
                    lemma_build_wf(rest, depth + 1, false, false);
                    let child = spec_build(rest, depth + 1, false, false);
                    if child.rest.len() < toks.len() {
                        let node = NodeV {
                            is_array: child.is_array,
                            is_wildcard,
                            properties: if child.props.len() == 0 {
                                None
                            } else {
                                Some(child.props)
                            },
                        };
                        lemma_build_loop_fit(child.rest, depth, props, true, is_array, has_child);
                        if !child.dropped {
                            assert(toks[0] matches TokenV::Name { value, is_wildcard });
                            assert(is_wildcard ==> value == seq!['*']);
                            assert(is_wildcard ==> value == seq!['*']);
                            lemma_one_wildcard(child.props);
                            assert(node_fit(node));
                            lemma_insert_fit(props, value, node);
                            lemma_build_loop_fit(
                                child.rest,
                                depth,
                                map_insert(props, value, node),
                                dropped,
                                is_array,
                                has_child,
                            );
                        }
                    }
                }
            },
            TokenV::Open => lemma_build_loop_fit(rest, depth, props, dropped, true, has_child),
            TokenV::Slash => lemma_build_loop_fit(rest, depth, props, dropped, is_array, true),
            _ => {},
        }
    }
}

/// A folded level has only named entries, at every level, when every name
/// token is non-empty and a wildcard only as `*`.
pub proof fn lemma_build_named(toks: Seq<TokenV>, depth: nat, is_array: bool, has_child: bool)
    requires
        tokens_wild_ok(toks),
    ensures
        mask_named(spec_build(toks, depth, is_array, has_child).props),
        tokens_wild_ok(spec_build(toks, depth, is_array, has_child).rest),
    decreases toks.len(), 1int,
{
    lemma_build_loop_named(toks, depth, Seq::empty(), false, is_array, has_child);
}

/// Folding keeps a level named and leaves a suffix of the queue.
pub proof fn lemma_build_loop_named(
    toks: Seq<TokenV>,
    depth: nat,
    props: MaskV,
    dropped: bool,
    is_array: bool,
    has_child: bool,
)
    requires
        tokens_wild_ok(toks),
        mask_named(props),
    ensures
        mask_named(spec_build_loop(toks, depth, props, dropped, is_array, has_child).props),
        tokens_wild_ok(spec_build_loop(toks, depth, props, dropped, is_array, has_child).rest),
    decreases toks.len(), 0int,
{
    if toks.len() > 0 {
        let rest = toks.drop_first();
        lemma_wild_ok_skip(toks, 1);
        assert(rest =~= toks.subrange(1, toks.len() as int));
        match toks[0] {
            TokenV::Name { value, is_wildcard } => {
                if depth >= MAX_DEPTH {
                    let after = spec_selector_tail(rest, 0).1;
                    lemma_selector_tail_suffix(rest, 0);
                    lemma_wild_ok_skip(rest, rest.len() - after.len());
                    if !(has_child || after.len() >= toks.len()) {
                        lemma_build_loop_named(after, depth, props, true, is_array, has_child);
                    }
                } else {
                    lemma_build_named(rest, depth + 1, false, false);
                    let child = spec_build(rest, depth + 1, false, false);
                    if child.rest.len() < toks.len() {
                        let node = NodeV {
                            is_array: child.is_array,
                            is_wildcard,
                            properties: if child.props.len() == 0 {
                                None
                            } else {
                                Some(child.props)
                            },
                        };
                        lemma_build_loop_named(child.rest, depth, props, true, is_array, has_child);
                        if !child.dropped {
                            assert(name_ok(toks[0]));
                            assert(value.len() > 0);
                            assert(is_wildcard ==> value == seq!['*']);
                            assert(value.len() > 0);
                            assert(node_named(node));
                            lemma_insert_named(props, value, node);
                            lemma_build_loop_named(
                                child.rest,
                                depth,
                                map_insert(props, value, node),
                                dropped,
                                is_array,
                                has_child,
                            );
                        }
                    }
                }
            },
            TokenV::Open => lemma_build_loop_named(rest, depth, props, dropped, true, has_child),
            TokenV::Slash => lemma_build_loop_named(rest, depth, props, dropped, is_array, true),
            _ => {},
        }
    }
}

/// The scanner gives only non-empty names, each a wildcard only as `*`.
pub proof fn lemma_scan_named(query: Seq<char>)
    ensures
        tokens_wild_ok(spec_scan(query)),
{
    lemma_scan_wild(query, 0, Seq::empty(), Seq::empty(), false);
}

/// Masking a value twice with the same mask gives what masking once gives,
/// when every object of the value has unique keys and the mask has at most
/// one wildcard per level.
pub proof fn law_filter_is_idempotent(x: JsonV, m: Option<MaskV>)
    requires
        json_wf(x),
        opt_fit(m),
    ensures
        spec_filter(x, m) matches Some(t) ==> spec_filter(t, m) == Some(t),
{
    lemma_filter_fixed(x, m);
}

/// `mask` is idempotent: masking its result again with the same query gives
/// the same result, for a value whose objects have unique keys.
pub proof fn law_mask_is_idempotent(obj: JsonV, query: Seq<char>)
    requires
        json_wf(obj),
    ensures
        spec_mask(spec_mask(obj, query), query) == spec_mask(obj, query),
{
    let m = spec_compile(query);
    if query.len() > 0 {
        let toks = spec_scan(query);
        lemma_scan_wild(query, 0, Seq::empty(), Seq::empty(), false);
        lemma_build_fit(toks, 0, false, false);
        lemma_build_wf(toks, 0, false, false);
        lemma_one_wildcard(spec_parse(toks));
    }
    lemma_filter_fixed(obj, m);
    law_falsy_values_are_kept(JsonV::Null, m);
}

} // verus!
