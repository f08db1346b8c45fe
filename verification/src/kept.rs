//! What survives a mask: every kept element or entry is the masking of an
//! element or entry of the input, nothing that masking drops is kept, and
//! `mask` differs from `filter` only on dropped and falsy results.

use vstd::prelude::*;
use crate::compiler::spec_compile;
use crate::filter::{
    spec_filter, spec_for_all, spec_for_all_array, spec_is_falsy, spec_mask_items, spec_properties, spec_select,
    spec_wildcards_over_array,
};
use crate::json::JsonV;
use crate::laws::{law_empty_containers_are_kept, law_shape_is_kept};
use crate::mask::{MaskV, NodeV};
use crate::spec_mask;

verus! {

/// JavaScript falsiness, written out: null, false, a zero number or the empty
/// string.
pub open spec fn js_falsy(v: JsonV) -> bool {
    ||| v == JsonV::Null
    ||| v == JsonV::Bool(false)
    ||| (v matches JsonV::Number(n) && n.spec_is_zero())
    ||| (v matches JsonV::String(s) && s.len() == 0)
}

/// A scalar that is not falsy: true, a non-zero number or a non-empty string.
pub open spec fn js_truthy_scalar(v: JsonV) -> bool {
    !js_falsy(v) && !(v is Array) && !(v is Object)
}

/// The written-out falsiness is the one the engine uses.
proof fn lemma_falsy_agrees(v: JsonV)
    ensures
        spec_is_falsy(v) <==> js_falsy(v),
{
}

/// `mask` answers what `filter` answers under the compiled query, except that
/// a dropped or falsy result becomes null: a truthy result, an empty array or
/// object among them, comes back unchanged, and null comes back only for a
/// dropped or falsy result.
pub proof fn law_mask_answers_filter(obj: JsonV, query: Seq<char>)
    ensures
        spec_filter(obj, spec_compile(query)) matches Some(v) ==> (!js_falsy(v) ==> spec_mask(obj, query) == v),
        spec_filter(obj, spec_compile(query)) is None ==> spec_mask(obj, query) == JsonV::Null,
        spec_filter(obj, spec_compile(query)) matches Some(v) ==> (js_falsy(v) ==> spec_mask(obj, query)
            == JsonV::Null),
        spec_mask(obj, query) == JsonV::Null ==> (spec_filter(obj, spec_compile(query)) matches Some(v)
            ==> js_falsy(v)),
{
    if let Some(v) = spec_filter(obj, spec_compile(query)) {
        lemma_falsy_agrees(v);
    }
}

/// An empty array or object comes back from `mask` unchanged, whatever the
/// query.
pub proof fn law_mask_keeps_empty_containers(query: Seq<char>)
    ensures
        spec_mask(JsonV::Array(Seq::empty()), query) == JsonV::Array(Seq::empty()),
        spec_mask(JsonV::Object(Seq::empty()), query) == JsonV::Object(Seq::empty()),
{
    law_empty_containers_are_kept(spec_compile(query));
    law_mask_answers_filter(JsonV::Array(Seq::empty()), query);
    law_mask_answers_filter(JsonV::Object(Seq::empty()), query);
}

/// Filtering with a real mask never yields a truthy scalar: such a value
/// drops, and every other value keeps its shape or is falsy.
pub proof fn law_real_mask_yields_no_truthy_scalar(x: JsonV, mask: MaskV)
    ensures
        spec_filter(x, Some(mask)) matches Some(t) ==> !js_truthy_scalar(t),
{
    law_shape_is_kept(x, Some(mask));
    lemma_falsy_agrees(x);
}

/// A wildcard over an array keeps, in order, the masking of each element that
/// does not drop, and nothing else: every kept element is the masking of some
/// element, an element whose masking drops is not kept, and under a real
/// sub-mask no truthy scalar is kept.
pub proof fn law_wildcard_over_array_keeps_masked_elements(items: Seq<JsonV>, node: NodeV)
    ensures
        spec_for_all_array(items, node).len() <= items.len(),
        forall|k: int|
            #![trigger spec_for_all_array(items, node)[k]]
            0 <= k < spec_for_all_array(items, node).len() ==> exists|j: int|
                0 <= j < items.len() && #[trigger] spec_select(items[j], node) == Some(
                    spec_for_all_array(items, node)[k],
                ),
        (forall|j: int| 0 <= j < items.len() ==> #[trigger] spec_select(items[j], node) is Some) ==> (
        spec_for_all_array(items, node).len() == items.len() && forall|k: int|
            0 <= k < items.len() ==> spec_select(items[k], node) == Some(
                #[trigger] spec_for_all_array(items, node)[k],
            )),
        (forall|j: int| 0 <= j < items.len() ==> #[trigger] spec_select(items[j], node) is None)
            ==> spec_for_all_array(items, node).len() == 0,
        (exists|j: int| 0 <= j < items.len() && #[trigger] spec_select(items[j], node) is Some)
            ==> spec_for_all_array(items, node).len() > 0,
        node.properties is Some ==> forall|k: int|
            0 <= k < spec_for_all_array(items, node).len() ==> !js_truthy_scalar(
                #[trigger] spec_for_all_array(items, node)[k],
            ),
    decreases items.len(),
{
    if items.len() > 0 {
        let init = items.drop_last();
        let last = items.last();
        let before = spec_for_all_array(init, node);
        let r = spec_for_all_array(items, node);
        law_wildcard_over_array_keeps_masked_elements(init, node);
        assert forall|j: int| 0 <= j < init.len() implies init[j] == items[j] by {}
        assert forall|k: int| #![trigger r[k]] 0 <= k < r.len() implies exists|j: int|
            0 <= j < items.len() && #[trigger] spec_select(items[j], node) == Some(r[k]) by {
            if k < before.len() {
                assert(r[k] == before[k]);
                let j = choose|j: int| 0 <= j < init.len() && #[trigger] spec_select(init[j], node) == Some(before[k]);
                assert(spec_select(items[j], node) == Some(r[k]));
            } else {
                assert(spec_select(items[items.len() - 1], node) == Some(r[k]));
            }
        }
        if forall|j: int| 0 <= j < items.len() ==> #[trigger] spec_select(items[j], node) is Some {
            assert forall|j: int| 0 <= j < init.len() implies #[trigger] spec_select(init[j], node) is Some by {
                assert(spec_select(items[j], node) is Some);
            }
            assert(spec_select(items[items.len() - 1], node) is Some);
            assert forall|k: int| 0 <= k < items.len() implies spec_select(items[k], node) == Some(
                #[trigger] r[k],
            ) by {
                if k < init.len() {
                    assert(spec_select(init[k], node) == Some(before[k]));
                }
            }
        }
        if forall|j: int| 0 <= j < items.len() ==> #[trigger] spec_select(items[j], node) is None {
            assert forall|j: int| 0 <= j < init.len() implies #[trigger] spec_select(init[j], node) is None by {
                assert(spec_select(items[j], node) is None);
            }
            assert(spec_select(items[items.len() - 1], node) is None);
        }
        if exists|j: int| 0 <= j < items.len() && #[trigger] spec_select(items[j], node) is Some {
            let j = choose|j: int| 0 <= j < items.len() && #[trigger] spec_select(items[j], node) is Some;
            if j < init.len() {
                assert(spec_select(init[j], node) is Some);
            }
        }
        if let Some(p) = node.properties {
            law_real_mask_yields_no_truthy_scalar(last, p);
            assert forall|k: int| 0 <= k < r.len() implies !js_truthy_scalar(#[trigger] r[k]) by {
                if k < before.len() {
                    assert(r[k] == before[k]);
                }
            }
        }
    }
}

/// Masking the elements of an array keeps, in order, the masking of each
/// element that does not drop, and nothing else: every kept element is the
/// masking of some element, and an element whose masking drops is not kept.
pub proof fn law_array_keeps_masked_elements(items: Seq<JsonV>, m: Option<MaskV>)
    ensures
        spec_mask_items(items, m).len() <= items.len(),
        forall|k: int|
            #![trigger spec_mask_items(items, m)[k]]
            0 <= k < spec_mask_items(items, m).len() ==> exists|j: int|
                0 <= j < items.len() && #[trigger] spec_properties(items[j], m) == Some(
                    spec_mask_items(items, m)[k],
                ),
        (forall|j: int| 0 <= j < items.len() ==> #[trigger] spec_properties(items[j], m) is Some) ==> (
        spec_mask_items(items, m).len() == items.len() && forall|k: int|
            0 <= k < items.len() ==> spec_properties(items[k], m) == Some(
                #[trigger] spec_mask_items(items, m)[k],
            )),
        (forall|j: int| 0 <= j < items.len() ==> #[trigger] spec_properties(items[j], m) is None)
            ==> spec_mask_items(items, m).len() == 0,
        (exists|j: int| 0 <= j < items.len() && #[trigger] spec_properties(items[j], m) is Some)
            ==> spec_mask_items(items, m).len() > 0,
    decreases items.len(),
{
    if items.len() > 0 {
        let init = items.drop_last();
        let before = spec_mask_items(init, m);
        let r = spec_mask_items(items, m);
        law_array_keeps_masked_elements(init, m);
        assert forall|j: int| 0 <= j < init.len() implies init[j] == items[j] by {}
        assert forall|k: int| #![trigger r[k]] 0 <= k < r.len() implies exists|j: int|
            0 <= j < items.len() && #[trigger] spec_properties(items[j], m) == Some(r[k]) by {
            if k < before.len() {
                assert(r[k] == before[k]);
                let j = choose|j: int| 0 <= j < init.len() && #[trigger] spec_properties(init[j], m) == Some(before[k]);
                assert(spec_properties(items[j], m) == Some(r[k]));
            } else {
                assert(spec_properties(items[items.len() - 1], m) == Some(r[k]));
            }
        }
        if forall|j: int| 0 <= j < items.len() ==> #[trigger] spec_properties(items[j], m) is Some {
            assert forall|j: int| 0 <= j < init.len() implies #[trigger] spec_properties(init[j], m) is Some by {
                assert(spec_properties(items[j], m) is Some);
            }
            assert(spec_properties(items[items.len() - 1], m) is Some);
            assert forall|k: int| 0 <= k < items.len() implies spec_properties(items[k], m) == Some(
                #[trigger] r[k],
            ) by {
                if k < init.len() {
                    assert(spec_properties(init[k], m) == Some(before[k]));
                }
            }
        }
        if forall|j: int| 0 <= j < items.len() ==> #[trigger] spec_properties(items[j], m) is None {
            assert forall|j: int| 0 <= j < init.len() implies #[trigger] spec_properties(init[j], m) is None by {
                assert(spec_properties(items[j], m) is None);
            }
            assert(spec_properties(items[items.len() - 1], m) is None);
        }
        if exists|j: int| 0 <= j < items.len() && #[trigger] spec_properties(items[j], m) is Some {
            let j = choose|j: int| 0 <= j < items.len() && #[trigger] spec_properties(items[j], m) is Some;
            if j < init.len() {
                assert(spec_properties(init[j], m) is Some);
            }
        }
    }
}

/// Filtering an array keeps an empty array, drops a non-empty array exactly
/// when every element drops, and otherwise gives an array of the masked
/// elements that do not drop.
pub proof fn law_filter_array(items: Seq<JsonV>, m: Option<MaskV>)
    ensures
        items.len() == 0 ==> spec_filter(JsonV::Array(items), m) == Some(JsonV::Array(items)),
        items.len() > 0 ==> (spec_filter(JsonV::Array(items), m) is None <==> forall|j: int|
            0 <= j < items.len() ==> #[trigger] spec_properties(items[j], m) is None),
        spec_filter(JsonV::Array(items), m) matches Some(t) ==> (t matches JsonV::Array(r) && r.len()
            <= items.len() && forall|k: int|
            #![trigger r[k]]
            0 <= k < r.len() ==> exists|j: int|
                0 <= j < items.len() && #[trigger] spec_properties(items[j], m) == Some(r[k])),
{
    law_array_keeps_masked_elements(items, m);
    if items.len() > 0 {
        if !(forall|j: int| 0 <= j < items.len() ==> #[trigger] spec_properties(items[j], m) is None) {
            let j = choose|j: int| 0 <= j < items.len() && !(#[trigger] spec_properties(items[j], m) is None);
            assert(spec_properties(items[j], m) is Some);
        }
    }
}

/// `x` is the masking of an element of `items` by a wildcard node of `mask`.
pub open spec fn wildcard_masking_of(items: Seq<JsonV>, mask: MaskV, x: JsonV) -> bool {
    exists|i: int, j: int|
        0 <= i < mask.len() && mask[i].1.is_wildcard && 0 <= j < items.len() && #[trigger] spec_select(
            items[j],
            mask[i].1,
        ) == Some(x)
}

/// The wildcards of a mask keep from an array only maskings of its elements
/// by a wildcard node of the mask, and nothing when the mask has no wildcard.
pub proof fn law_array_wildcards_keep_masked_elements(items: Seq<JsonV>, mask: MaskV)
    ensures
        forall|k: int|
            0 <= k < spec_wildcards_over_array(items, mask).len() ==> wildcard_masking_of(
                items,
                mask,
                #[trigger] spec_wildcards_over_array(items, mask)[k],
            ),
        (forall|i: int| 0 <= i < mask.len() ==> !(#[trigger] mask[i]).1.is_wildcard)
            ==> spec_wildcards_over_array(items, mask).len() == 0,
    decreases mask.len(),
{
    if mask.len() > 0 {
        let init = mask.drop_last();
        let node = mask.last().1;
        let before = spec_wildcards_over_array(items, init);
        let r = spec_wildcards_over_array(items, mask);
        law_array_wildcards_keep_masked_elements(items, init);
        law_wildcard_over_array_keeps_masked_elements(items, node);
        let w = spec_for_all_array(items, node);
        assert forall|k: int| 0 <= k < r.len() implies wildcard_masking_of(items, mask, #[trigger] r[k]) by {
            if k < before.len() {
                assert(r[k] == before[k]);
                assert(wildcard_masking_of(items, init, before[k]));
                let (i, j) = choose|i: int, j: int|
                    0 <= i < init.len() && init[i].1.is_wildcard && 0 <= j < items.len() && #[trigger] spec_select(
                        items[j],
                        init[i].1,
                    ) == Some(before[k]);
                assert(mask[i] == init[i]);
                assert(spec_select(items[j], mask[i].1) == Some(r[k]));
            } else {
                assert(node.is_wildcard);
                assert(r[k] == w[k - before.len()]);
                let j = choose|j: int| 0 <= j < items.len() && #[trigger] spec_select(items[j], node) == Some(w[k - before.len()]);
                assert(mask[mask.len() - 1].1 == node);
                assert(spec_select(items[j], mask[mask.len() - 1].1) == Some(r[k]));
            }
        }
        if forall|i: int| 0 <= i < mask.len() ==> !(#[trigger] mask[i]).1.is_wildcard {
            assert forall|i: int| 0 <= i < init.len() implies !(#[trigger] init[i]).1.is_wildcard by {
                assert(init[i] == mask[i]);
            }
            assert(!mask[mask.len() - 1].1.is_wildcard);
        }
    }
}

} // verus!
