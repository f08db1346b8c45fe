//! Prune a JSON value against a compiled mask.
//!
//! The engine keeps the shape of the input. It walks the mask, copies the
//! selected branches, and drops the rest. It never flattens or reshapes.
//! A dropped value is `None`; a kept explicit null is `Some(Json::Null)`.

use vstd::prelude::*;
use crate::json::{
    entries_view, lemma_entries_view, lemma_values_view, lemma_values_view_add, object_insert,
    values_view, Json, JsonV,
};
use crate::keyed::{find_key, lemma_key_pos, map_get, map_insert, map_insert_all, string_keys};
use crate::mask::{lemma_mask_entries_view, mask_entries_view, opt_mask_view, CompiledMask, MaskV, Node, NodeV};

verus! {

/// JavaScript falsiness: null, false, numeric zero and the empty string.
/// Arrays and objects are truthy, even when empty.
pub open spec fn spec_is_falsy(v: JsonV) -> bool {
    match v {
        JsonV::Null => true,
        JsonV::Bool(b) => !b,
        JsonV::Number(n) => n.spec_is_zero(),
        JsonV::String(s) => s.len() == 0,
        _ => false,
    }
}

/// The result of pruning `obj` against `m` (`None` means the value drops).
///
/// An array is masked element by element; any other value is masked as an
/// object.
pub open spec fn spec_filter(obj: JsonV, m: Option<MaskV>) -> Option<JsonV>
    decreases m, obj, 9int,
{
    match obj {
        JsonV::Array(items) => spec_mask_array(items, m),
        _ => spec_properties(obj, m),
    }
}

/// Prunes an object, array or scalar against a mask.
///
/// No mask, or a falsy value, keeps the value. An array keeps what the
/// wildcard nodes of the mask select from its elements; an object keeps the
/// selected keys; a truthy scalar drops.
pub open spec fn spec_properties(obj: JsonV, m: Option<MaskV>) -> Option<JsonV>
    decreases m, obj, 8int,
{
    match m {
        None => Some(obj),
        Some(mask) => {
            if spec_is_falsy(obj) {
                Some(obj)
            } else {
                match obj {
                    JsonV::Array(items) => Some(JsonV::Array(spec_wildcards_over_array(items, mask))),
                    JsonV::Object(entries) => Some(JsonV::Object(spec_select_keys(entries, mask))),
                    _ => None,
                }
            }
        },
    }
}

/// The elements that the wildcard nodes of `mask` keep from `items`, one run
/// per wildcard node, in mask order.
pub open spec fn spec_wildcards_over_array(items: Seq<JsonV>, mask: MaskV) -> Seq<JsonV>
    decreases mask, items, 7int,
{
    if mask.len() == 0 {
        Seq::empty()
    } else {
        let node = mask.last().1;
        let before = spec_wildcards_over_array(items, mask.drop_last());
        if node.is_wildcard {
            before + spec_for_all_array(items, node)
        } else {
            before
        }
    }
}

/// Each element of `items` masked against `node`, the dropped ones left out.
pub open spec fn spec_for_all_array(items: Seq<JsonV>, node: NodeV) -> Seq<JsonV>
    decreases node, items, 6int,
{
    if items.len() == 0 {
        Seq::empty()
    } else {
        let before = spec_for_all_array(items.drop_last(), node);
        match spec_select(items.last(), node) {
            Some(v) => before.push(v),
            None => before,
        }
    }
}

/// The entries of the masked object: for each mask entry in order, a wildcard
/// inserts every kept entry of the data, and a named key inserts its kept value
/// when the data has the key.
pub open spec fn spec_select_keys(entries: Seq<(Seq<char>, JsonV)>, mask: MaskV) -> Seq<(Seq<char>, JsonV)>
    decreases mask, entries, 5int,
{
    if mask.len() == 0 {
        Seq::empty()
    } else {
        let key = mask.last().0;
        let node = mask.last().1;
        let before = spec_select_keys(entries, mask.drop_last());
        if node.is_wildcard {
            map_insert_all(before, spec_for_all(entries, node))
        } else {
            match map_get(entries, key) {
                Some(value) => match spec_select(value, node) {
                    Some(r) => map_insert(before, key, r),
                    None => before,
                },
                None => before,
            }
        }
    }
}

/// Each entry of the data masked against `node`, in data order, the dropped
/// ones left out.
pub open spec fn spec_for_all(entries: Seq<(Seq<char>, JsonV)>, node: NodeV) -> Seq<(Seq<char>, JsonV)>
    decreases node, entries, 4int,
{
    if entries.len() == 0 {
        Seq::empty()
    } else {
        let before = spec_for_all(entries.drop_last(), node);
        match spec_select(entries.last().1, node) {
            Some(v) => before.push((entries.last().0, v)),
            None => before,
        }
    }
}

/// Masks one value against one node: the value is filtered by the node's
/// sub-mask, or kept whole when the node has none.
pub open spec fn spec_select(value: JsonV, node: NodeV) -> Option<JsonV>
    decreases node, value, 10int,
{
    spec_filter(value, node.properties)
}

/// Masks each element of an array. An empty array is kept; an array whose
/// elements all drop drops.
pub open spec fn spec_mask_array(items: Seq<JsonV>, m: Option<MaskV>) -> Option<JsonV>
    decreases m, items, 3int,
{
    if items.len() == 0 {
        Some(JsonV::Array(items))
    } else {
        let kept = spec_mask_items(items, m);
        if kept.len() == 0 {
            None
        } else {
            Some(JsonV::Array(kept))
        }
    }
}

/// Each element masked as an object, the dropped ones left out.
pub open spec fn spec_mask_items(items: Seq<JsonV>, m: Option<MaskV>) -> Seq<JsonV>
    decreases m, items, 2int,
{
    if items.len() == 0 {
        Seq::empty()
    } else {
        let before = spec_mask_items(items.drop_last(), m);
        match spec_properties(items.last(), m) {
            Some(v) => before.push(v),
            None => before,
        }
    }
}

/// The model of an optional value.
pub open spec fn opt_json_view(r: Option<Json>) -> Option<JsonV> {
    match r {
        Some(j) => Some(j@),
        None => None,
    }
}

/// Prune `obj` against `compiled` and report a dropped result.
///
/// A `None` mask is a passthrough and returns `obj` unchanged. An array input is
/// masked element by element with the structure preserved. It does not coerce
/// a dropped or falsy result to null; that coercion belongs to `mask` alone.
///
/// The result tells a dropped value (`None`) apart from a kept explicit null
/// (`Some(Json::Null)`).
pub fn filter(obj: &Json, compiled: Option<&CompiledMask>) -> (r: Option<Json>)
    ensures
        opt_json_view(r) == spec_filter(obj@, opt_mask_view(compiled)),
    decreases opt_mask_view(compiled), obj@, 9int,
{
    match obj {
        Json::Array(items) => {
            proof {
                assert(decreases_to!(obj@ => obj@->Array_0));
            }
            mask_array(items.as_slice(), compiled)
        },
        _ => properties(obj, compiled),
    }
}

/// Prune an object, array, or scalar against a mask.
///
/// A `None` mask or a falsy value returns the value unchanged. An array yields
/// the elements the mask's wildcard nodes keep; an object yields the selected
/// keys. A truthy scalar under a real mask drops and returns `None`.
fn properties(obj: &Json, mask: Option<&CompiledMask>) -> (r: Option<Json>)
    ensures
        opt_json_view(r) == spec_properties(obj@, opt_mask_view(mask)),
    decreases opt_mask_view(mask), obj@, 8int,
{
    let m = match mask {
        Some(m) => m,
        None => {
            return Some(obj.deep_copy());
        },
    };
    if is_falsy(obj) {
        return Some(obj.deep_copy());
    }
    let entries = m.entries();
    let ghost mv = m@;
    proof {
        lemma_mask_entries_view(entries@);
    }
    match obj {
        Json::Array(items) => {
            let ghost iv = values_view(items@);
            let mut out: Vec<Json> = Vec::new();
            let mut j: usize = 0;
            while j < entries.len()
                invariant
                    j <= entries.len(),
                    mv == m@,
                    opt_mask_view(mask) == Some(mv),
                    mask_entries_view(entries@) == mv,
                    mv.len() == entries.len(),
                    forall|k: int| 0 <= k < entries.len() ==> #[trigger] mv[k] == (entries@[k].0@, entries@[k].1@),
                    obj@ == JsonV::Array(iv),
                    iv == values_view(items@),
                    values_view(out@) == spec_wildcards_over_array(iv, mv.take(j as int)),
                decreases entries.len() - j,
            {
                let node = &entries[j].1;
                proof {
                    assert(mv.take(j + 1).drop_last() =~= mv.take(j as int));
                    assert(mv.take(j + 1).last() == mv[j as int]);
                }
                if node.is_wildcard {
                    proof {
                        assert(decreases_to!(Some(mv) => Some(mv)->0));
                        assert(decreases_to!(mv => mv[j as int]));
                        assert(decreases_to!(mv[j as int] => mv[j as int].1));
                    }
                    let mut more = for_all_array(items.as_slice(), node);
                    let ghost before = out@;
                    let ghost added = more@;
                    out.append(&mut more);
                    proof {
                        lemma_values_view_add(before, added);
                    }
                }
                j += 1;
            }
            proof {
                assert(mv.take(entries.len() as int) =~= mv);
            }
            Some(Json::Array(out))
        },
        Json::Object(_) => {
            let ghost ev = obj@->Object_0;
            let mut masked: Vec<(String, Json)> = Vec::new();
            let mut j: usize = 0;
            while j < entries.len()
                invariant
                    j <= entries.len(),
                    mv == m@,
                    opt_mask_view(mask) == Some(mv),
                    mask_entries_view(entries@) == mv,
                    mv.len() == entries.len(),
                    forall|k: int| 0 <= k < entries.len() ==> #[trigger] mv[k] == (entries@[k].0@, entries@[k].1@),
                    obj@ == JsonV::Object(ev),
                    entries_view(masked@) == spec_select_keys(ev, mv.take(j as int)),
                decreases entries.len() - j,
            {
                let key = &entries[j].0;
                let node = &entries[j].1;
                proof {
                    assert(mv.take(j + 1).drop_last() =~= mv.take(j as int));
                    assert(mv.take(j + 1).last() == mv[j as int]);
                    assert(decreases_to!(Some(mv) => Some(mv)->0));
                    assert(decreases_to!(mv => mv[j as int]));
                    assert(decreases_to!(mv[j as int] => mv[j as int].1));
                }
                if node.is_wildcard {
                    let pairs = for_all(obj, node);
                    let ghost pv = entries_view(pairs@);
                    let ghost before = entries_view(masked@);
                    proof {
                        lemma_entries_view(pairs@);
                    }
                    let mut k: usize = 0;
                    while k < pairs.len()
                        invariant
                            k <= pairs.len(),
                            pv == entries_view(pairs@),
                            pv.len() == pairs.len(),
                            forall|t: int| 0 <= t < pairs.len() ==> #[trigger] pv[t] == (pairs@[t].0@, pairs@[t].1@),
                            entries_view(masked@) == map_insert_all(before, pv.take(k as int)),
                        decreases pairs.len() - k,
                    {
                        proof {
                            assert(pv.take(k + 1).drop_last() =~= pv.take(k as int));
                        }
                        let kk = pairs[k].0.clone();
                        let vv = pairs[k].1.deep_copy();
                        object_insert(&mut masked, kk, vv);
                        k += 1;
                    }
                    proof {
                        assert(pv.take(pairs.len() as int) =~= pv);
                    }
                } else {
                    match get(obj, key.as_str()) {
                        Some(value) => {
                            match select(value, node) {
                                Some(ret) => {
                                    let kk = key.clone();
                                    object_insert(&mut masked, kk, ret);
                                },
                                None => {},
                            }
                        },
                        None => {},
                    }
                }
                j += 1;
            }
            proof {
                assert(mv.take(entries.len() as int) =~= mv);
            }
            Some(Json::Object(masked))
        },
        _ => None,
    }
}

/// Apply a wildcard over every key of an object.
///
/// Masks each value of the data object against `node` and keeps the results
/// that are not dropped, in data order.
fn for_all(obj: &Json, node: &Node) -> (r: Vec<(String, Json)>)
    ensures
        entries_view(r@) == (match obj@ {
            JsonV::Object(entries) => spec_for_all(entries, node@),
            _ => Seq::empty(),
        }),
    decreases node@, obj@, 6int,
{
    let mut ret: Vec<(String, Json)> = Vec::new();
    match obj {
        Json::Object(map) => {
            let ghost ev = entries_view(map@);
            proof {
                lemma_entries_view(map@);
            }
            let mut i: usize = 0;
            while i < map.len()
                invariant
                    i <= map.len(),
                    obj@ == JsonV::Object(ev),
                    ev == entries_view(map@),
                    ev.len() == map.len(),
                    forall|t: int| 0 <= t < map.len() ==> #[trigger] ev[t] == (map@[t].0@, map@[t].1@),
                    entries_view(ret@) == spec_for_all(ev.take(i as int), node@),
                decreases map.len() - i,
            {
                proof {
                    assert(ev.take(i + 1).drop_last() =~= ev.take(i as int));
                    assert(decreases_to!(obj@ => obj@->Object_0));
                    assert(decreases_to!(ev => ev[i as int]));
                    assert(decreases_to!(ev[i as int] => ev[i as int].1));
                    lemma_entries_view(ret@);
                }
                match select(&map[i].1, node) {
                    Some(masked) => {
                        let k = map[i].0.clone();
                        let ghost before = ret@;
                        ret.push((k, masked));
                        proof {
                            lemma_entries_view(ret@);
                            assert(entries_view(ret@) =~= entries_view(before).push((ev[i as int].0, masked@)));
                        }
                    },
                    None => {},
                }
                i += 1;
            }
            proof {
                assert(ev.take(map.len() as int) =~= ev);
            }
        },
        _ => {},
    }
    ret
}

/// Apply a wildcard over every element of an array.
///
/// Masks each element against `node` and keeps the results that are not
/// dropped, in array order.
fn for_all_array(items: &[Json], node: &Node) -> (r: Vec<Json>)
    ensures
        values_view(r@) == spec_for_all_array(values_view(items@), node@),
    decreases node@, values_view(items@), 6int,
{
    let ghost iv = values_view(items@);
    proof {
        lemma_values_view(items@);
    }
    let mut ret: Vec<Json> = Vec::new();
    let mut i: usize = 0;
    while i < items.len()
        invariant
            i <= items.len(),
            iv == values_view(items@),
            iv.len() == items.len(),
            forall|t: int| 0 <= t < items.len() ==> #[trigger] iv[t] == items@[t]@,
            values_view(ret@) == spec_for_all_array(iv.take(i as int), node@),
        decreases items.len() - i,
    {
        proof {
            assert(iv.take(i + 1).drop_last() =~= iv.take(i as int));
            assert(decreases_to!(iv => iv[i as int]));
            lemma_values_view(ret@);
        }
        match select(&items[i], node) {
            Some(masked) => {
                let ghost before = ret@;
                ret.push(masked);
                proof {
                    lemma_values_view(ret@);
                    assert(values_view(ret@) =~= values_view(before).push(masked@));
                }
            },
            None => {},
        }
        i += 1;
    }
    proof {
        assert(iv.take(items.len() as int) =~= iv);
    }
    ret
}

/// Mask a single value against one node.
///
/// An array value is masked element by element. A non-array value under an
/// array node is masked as an object. A present sub-mask recurses. A leaf
/// selection returns the value whole.
pub fn select(value: &Json, node: &Node) -> (r: Option<Json>)
    ensures
        opt_json_view(r) == spec_select(value@, node@),
    decreases node@, value@, 10int,
{
    let mask = node.properties.as_ref();
    proof {
        assert(opt_mask_view(mask) == node@.properties);
        assert(decreases_to!(node@ => node@.properties));
    }
    if let Json::Array(items) = value {
        return mask_array(items.as_slice(), mask);
    }
    if node.is_array {
        return properties(value, mask);
    }
    match mask {
        Some(_) => properties(value, mask),
        None => Some(value.deep_copy()),
    }
}

/// Mask each element of an array and rebuild it.
///
/// An empty array is returned as-is. Otherwise each element is masked and kept
/// when not dropped. When every element drops, the whole array drops.
fn mask_array(items: &[Json], mask: Option<&CompiledMask>) -> (r: Option<Json>)
    ensures
        opt_json_view(r) == spec_mask_array(values_view(items@), opt_mask_view(mask)),
    decreases opt_mask_view(mask), values_view(items@), 3int,
{
    let ghost iv = values_view(items@);
    let ghost m = opt_mask_view(mask);
    proof {
        lemma_values_view(items@);
    }
    if items.len() == 0 {
        let empty: Vec<Json> = Vec::new();
        proof {
            assert(values_view(empty@) =~= iv);
        }
        return Some(Json::Array(empty));
    }
    let mut ret: Vec<Json> = Vec::new();
    let mut i: usize = 0;
    while i < items.len()
        invariant
            i <= items.len(),
            iv == values_view(items@),
            m == opt_mask_view(mask),
            iv.len() == items.len(),
            forall|t: int| 0 <= t < items.len() ==> #[trigger] iv[t] == items@[t]@,
            values_view(ret@) == spec_mask_items(iv.take(i as int), m),
        decreases items.len() - i,
    {
        proof {
            assert(iv.take(i + 1).drop_last() =~= iv.take(i as int));
            assert(decreases_to!(iv => iv[i as int]));
            lemma_values_view(ret@);
        }
        match properties(&items[i], mask) {
            Some(masked) => {
                let ghost before = ret@;
                ret.push(masked);
                proof {
                    lemma_values_view(ret@);
                    assert(values_view(ret@) =~= values_view(before).push(masked@));
                }
            },
            None => {},
        }
        i += 1;
    }
    proof {
        assert(iv.take(items.len() as int) =~= iv);
        lemma_values_view(ret@);
    }
    if ret.len() == 0 {
        None
    } else {
        Some(Json::Array(ret))
    }
}

/// Look up an own key on an object value.
///
/// Returns `None` for a missing key or any non-object input.
fn get<'a>(obj: &'a Json, key: &str) -> (r: Option<&'a Json>)
    ensures
        match obj@ {
            JsonV::Object(entries) => match r {
                Some(v) => map_get(entries, key@) == Some(v@),
                None => map_get(entries, key@) is None,
            },
            _ => r is None,
        },
{
    match obj {
        Json::Object(map) => {
            proof {
                lemma_entries_view(map@);
                lemma_key_pos(string_keys(map@), key@);
            }
            let key = String::from_str(key);
            match find_key(map, &key) {
                Some(i) => Some(&map[i].1),
                None => None,
            }
        },
        _ => None,
    }
}

/// Test JavaScript falsiness for a JSON value.
///
/// Null, false, numeric zero, and the empty string are falsy. Arrays and
/// objects are always truthy, even when empty.
pub fn is_falsy(value: &Json) -> (r: bool)
    ensures
        r == spec_is_falsy(value@),
{
    match value {
        Json::Null => true,
        Json::Bool(b) => !*b,
        Json::Number(n) => n.is_zero(),
        Json::String(s) => s.as_str().is_empty(),
        _ => false,
    }
}

} // verus!
