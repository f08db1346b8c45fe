//! Properties of the fields language and of the pruning engine.

use vstd::prelude::*;
use crate::compiler::{
    lemma_build_wf, spec_build, spec_build_loop, spec_compile, MAX_DEPTH,
};
use crate::scanner::{scan_from, spec_is_terminal, spec_scan, terminal_token, TokenV, ESCAPE_CHAR};
use crate::filter::{
    spec_filter, spec_for_all, spec_is_falsy, spec_mask_items, spec_properties,
    spec_select, spec_select_keys,
};
use crate::json::JsonV;
use crate::keyed::{
    key_pos, keys_of, keys_unique, lemma_get_after_insert, lemma_get_after_insert_all,
    lemma_insert_all_keys, lemma_insert_keys, lemma_insert_keys_within, lemma_key_pos, map_get,
    map_insert, map_insert_all,
};
use crate::mask::{mask_depth, mask_named, mask_wf, MaskV, NodeV};
use crate::repeat::{lemma_build_named, lemma_scan_named};
use crate::spec_mask;

verus! {

/// Masking every element of an array with no mask keeps every element.
proof fn lemma_mask_items_no_mask(items: Seq<JsonV>)
    ensures
        spec_mask_items(items, None) == items,
    decreases items.len(),
{
    if items.len() > 0 {
        lemma_mask_items_no_mask(items.drop_last());
        assert(spec_properties(items.last(), None) == Some(items.last()));
        assert(spec_mask_items(items, None) == spec_mask_items(items.drop_last(), None).push(items.last()));
        assert(items.drop_last().push(items.last()) =~= items);
    } else {
        assert(items =~= Seq::<JsonV>::empty());
    }
}

/// Without a mask, filtering is the identity: every value is kept unchanged.
pub proof fn law_no_mask_is_identity(obj: JsonV)
    ensures
        spec_filter(obj, None) == Some(obj),
{
    if let JsonV::Array(items) = obj {
        lemma_mask_items_no_mask(items);
    }
}

/// The empty query keeps the value, except that `mask` turns a falsy value
/// into null.
pub proof fn law_empty_query(obj: JsonV)
    ensures
        spec_compile(Seq::empty()) is None,
        spec_mask(obj, Seq::empty()) == if spec_is_falsy(obj) {
            JsonV::Null
        } else {
            obj
        },
{
    law_no_mask_is_identity(obj);
}

/// Null, false, numeric zero and the empty string are never dropped: they are
/// kept unchanged under any mask.
pub proof fn law_falsy_values_are_kept(v: JsonV, m: Option<MaskV>)
    requires
        spec_is_falsy(v),
    ensures
        spec_filter(v, m) == Some(v),
{
}

/// A truthy scalar under a real mask has no keys to walk and drops.
pub proof fn law_truthy_scalar_drops(v: JsonV, mask: MaskV)
    requires
        !spec_is_falsy(v),
        !(v is Array),
        !(v is Object),
    ensures
        spec_filter(v, Some(mask)) is None,
{
}

/// The result keeps the shape of the input: an object yields an object, an
/// array yields an array or drops, and a scalar is kept unchanged or drops.
pub proof fn law_shape_is_kept(obj: JsonV, m: Option<MaskV>)
    ensures
        match obj {
            JsonV::Object(_) => spec_filter(obj, m) matches Some(JsonV::Object(_)),
            JsonV::Array(_) => spec_filter(obj, m) matches Some(r) ==> r is Array,
            _ => spec_filter(obj, m) matches Some(r) ==> r == obj,
        },
{
    law_no_mask_is_identity(obj);
}

/// Selecting keys of an object without entries selects nothing.
proof fn lemma_select_keys_empty(mask: MaskV)
    ensures
        spec_select_keys(Seq::empty(), mask) == Seq::<(Seq<char>, JsonV)>::empty(),
    decreases mask.len(),
{
    if mask.len() > 0 {
        lemma_select_keys_empty(mask.drop_last());
        let empty = Seq::<(Seq<char>, JsonV)>::empty();
        assert(spec_for_all(empty, mask.last().1) == empty);
        assert(map_insert_all(empty, empty) == empty);
    }
}

/// An empty object or array is preserved under any mask.
pub proof fn law_empty_containers_are_kept(m: Option<MaskV>)
    ensures
        spec_filter(JsonV::Array(Seq::empty()), m) == Some(JsonV::Array(Seq::empty())),
        spec_filter(JsonV::Object(Seq::empty()), m) == Some(JsonV::Object(Seq::empty())),
{
    if let Some(mask) = m {
        lemma_select_keys_empty(mask);
    }
}

/// Every entry that a wildcard keeps comes from the data, under its key.
pub proof fn lemma_for_all_keys(entries: Seq<(Seq<char>, JsonV)>, node: NodeV)
    ensures
        forall|t: int|
            0 <= t < spec_for_all(entries, node).len() ==> keys_of(entries).contains(
                #[trigger] spec_for_all(entries, node)[t].0,
            ),
    decreases entries.len(),
{
    if entries.len() > 0 {
        let init = entries.drop_last();
        lemma_for_all_keys(init, node);
        let fa = spec_for_all(entries, node);
        let before = spec_for_all(init, node);
        assert forall|t: int| 0 <= t < fa.len() implies keys_of(entries).contains(#[trigger] fa[t].0) by {
            if t < before.len() {
                assert(fa[t] == before[t]);
                let j = choose|j: int| 0 <= j < keys_of(init).len() && keys_of(init)[j] == before[t].0;
                assert(keys_of(entries)[j] == keys_of(init)[j]);
            } else {
                assert(keys_of(entries)[entries.len() - 1] == fa[t].0);
            }
        }
    }
}

/// The entries that a wildcard keeps under key `k` hold `y` when every data
/// entry under `k` is selected as `y`.
proof fn lemma_for_all_values(entries: Seq<(Seq<char>, JsonV)>, node: NodeV, k: Seq<char>, y: JsonV)
    requires
        forall|j: int| 0 <= j < entries.len() && #[trigger] entries[j].0 == k ==> spec_select(entries[j].1, node) == Some(y),
    ensures
        forall|t: int|
            0 <= t < spec_for_all(entries, node).len() && #[trigger] spec_for_all(entries, node)[t].0 == k
                ==> spec_for_all(entries, node)[t].1 == y,
    decreases entries.len(),
{
    if entries.len() > 0 {
        let init = entries.drop_last();
        assert forall|j: int| 0 <= j < init.len() && #[trigger] init[j].0 == k implies spec_select(init[j].1, node) == Some(y) by {
            assert(init[j] == entries[j]);
        }
        lemma_for_all_values(init, node, k, y);
        let fa = spec_for_all(entries, node);
        let before = spec_for_all(init, node);
        assert forall|t: int| 0 <= t < fa.len() && #[trigger] fa[t].0 == k implies fa[t].1 == y by {
            if t < before.len() {
                assert(fa[t] == before[t]);
            } else {
                assert(entries[entries.len() - 1].0 == k);
            }
        }
    }
}

/// The keys of a masked object are keys of the data, each at most once.
pub proof fn lemma_select_keys_shape(entries: Seq<(Seq<char>, JsonV)>, mask: MaskV)
    ensures
        forall|i: int|
            0 <= i < spec_select_keys(entries, mask).len() ==> keys_of(entries).contains(
                #[trigger] spec_select_keys(entries, mask)[i].0,
            ),
        keys_unique(keys_of(spec_select_keys(entries, mask))),
    decreases mask.len(),
{
    let out = spec_select_keys(entries, mask);
    if mask.len() == 0 {
        assert(keys_of(out) =~= Seq::<Seq<char>>::empty());
    } else {
        let before = spec_select_keys(entries, mask.drop_last());
        lemma_select_keys_shape(entries, mask.drop_last());
        let key = mask.last().0;
        let node = mask.last().1;
        if node.is_wildcard {
            lemma_for_all_keys(entries, node);
            lemma_insert_all_keys(before, spec_for_all(entries, node), keys_of(entries));
        } else {
            match map_get(entries, key) {
                Some(value) => match spec_select(value, node) {
                    Some(r) => {
                        lemma_key_pos(keys_of(entries), key);
                        assert(keys_of(entries)[key_pos(keys_of(entries), key)] == key);
                        lemma_insert_keys_within(before, key, r, keys_of(entries));
                        lemma_insert_keys(before, key, r);
                    },
                    None => {},
                },
                None => {},
            }
        }
    }
}

/// Pruning never invents keys: every key of a masked object is a key of the
/// data object, and it occurs once.
pub proof fn law_masked_keys_come_from_data(entries: Seq<(Seq<char>, JsonV)>, mask: MaskV)
    ensures
        spec_filter(JsonV::Object(entries), Some(mask)) matches Some(JsonV::Object(out)) && (forall|i: int|
            0 <= i < out.len() ==> keys_of(entries).contains(#[trigger] out[i].0)) && keys_unique(
            keys_of(out),
        ),
{
    lemma_select_keys_shape(entries, mask);
}

/// Once a key holds null in the masked object, later mask entries keep it so.
proof fn lemma_null_stays(entries: Seq<(Seq<char>, JsonV)>, mask: MaskV, k: Seq<char>)
    requires
        keys_unique(keys_of(entries)),
        map_get(entries, k) == Some(JsonV::Null),
        exists|i: int| 0 <= i < mask.len() && #[trigger] mask[i].0 == k && !mask[i].1.is_wildcard,
    ensures
        map_get(spec_select_keys(entries, mask), k) == Some(JsonV::Null),
    decreases mask.len(),
{
    let n = mask.len() - 1;
    let key = mask.last().0;
    let node = mask.last().1;
    let init = mask.drop_last();
    let before = spec_select_keys(entries, init);
    law_falsy_values_are_kept(JsonV::Null, node.properties);
    if key == k && !node.is_wildcard {
        lemma_get_after_insert(before, k, JsonV::Null, k);
    } else {
        let i = choose|i: int| 0 <= i < mask.len() && #[trigger] mask[i].0 == k && !mask[i].1.is_wildcard;
        assert(i != n);
        assert(init[i] == mask[i]);
        lemma_null_stays(entries, init, k);
        if node.is_wildcard {
            lemma_key_pos(keys_of(entries), k);
            assert forall|j: int| 0 <= j < entries.len() && #[trigger] entries[j].0 == k implies spec_select(
                entries[j].1,
                node,
            ) == Some(JsonV::Null) by {
                assert(keys_of(entries)[j] == k);
                if j != key_pos(keys_of(entries), k) {
                    assert(keys_of(entries)[key_pos(keys_of(entries), k)] == k);
                }
            }
            lemma_for_all_values(entries, node, k, JsonV::Null);
            lemma_get_after_insert_all(before, spec_for_all(entries, node), k, JsonV::Null);
        } else {
            match map_get(entries, key) {
                Some(value) => match spec_select(value, node) {
                    Some(r) => {
                        lemma_get_after_insert(before, key, r, k);
                    },
                    None => {},
                },
                None => {},
            }
        }
    }
}

/// An explicit null stays: when the data object holds null under a key that
/// the mask names, the masked object holds null under that key.
pub proof fn law_explicit_null_is_kept(entries: Seq<(Seq<char>, JsonV)>, mask: MaskV, k: Seq<char>, i: int)
    requires
        keys_unique(keys_of(entries)),
        map_get(entries, k) == Some(JsonV::Null),
        0 <= i < mask.len(),
        mask[i].0 == k,
        !mask[i].1.is_wildcard,
    ensures
        spec_filter(JsonV::Object(entries), Some(mask)) matches Some(JsonV::Object(out)) && map_get(out, k)
            == Some(JsonV::Null),
{
    lemma_null_stays(entries, mask, k);
}

/// A compiled mask is well formed (each key once at every level, no empty
/// sub-mask) and nests at most `MAX_DEPTH` levels deep, whatever the query.
pub proof fn law_compiled_mask_is_well_formed(query: Seq<char>)
    ensures
        spec_compile(query) matches Some(m) ==> mask_wf(m) && mask_depth(m) <= MAX_DEPTH,
{
    lemma_build_wf(spec_scan(query), 0, false, false);
}

/// Every key of a compiled mask, at every level, is non-empty, and a wildcard
/// node is keyed `*`.
pub proof fn law_compiled_keys_are_named(query: Seq<char>)
    ensures
        spec_compile(query) matches Some(m) ==> mask_named(m),
{
    lemma_scan_named(query);
    lemma_build_named(spec_scan(query), 0, false, false);
}

/// Masking a value under one node is filtering it with the node's sub-mask:
/// an array is masked element by element, any other value as an object or a
/// scalar, and the node's array and wildcard flags do not change the result.
pub proof fn law_select_is_filter_of_submask(
    value: JsonV,
    is_array: bool,
    is_wildcard: bool,
    properties: Option<MaskV>,
)
    ensures
        spec_select(value, NodeV { is_array, is_wildcard, properties }) == spec_filter(value, properties),
{
}

/// A plain name: non-empty, with no terminal and no backslash.
pub open spec fn is_plain_name(n: Seq<char>) -> bool {
    n.len() > 0 && forall|i: int| 0 <= i < n.len() ==> !spec_is_terminal(#[trigger] n[i]) && n[i] != ESCAPE_CHAR
}

/// The node of a name selected whole.
pub open spec fn leaf(name: Seq<char>) -> NodeV {
    NodeV { is_array: false, is_wildcard: name == seq!['*'], properties: None }
}

/// Scanning the characters of a plain run appends them to the pending name.
proof fn lemma_scan_plain_run(
    chars: Seq<char>,
    i: int,
    run: Seq<char>,
    tokens: Seq<TokenV>,
    name: Seq<char>,
    is_wildcard: bool,
)
    requires
        0 <= i,
        i + run.len() <= chars.len(),
        chars.subrange(i, i + run.len()) == run,
        forall|t: int| 0 <= t < run.len() ==> !spec_is_terminal(#[trigger] run[t]) && run[t] != ESCAPE_CHAR,
    ensures
        scan_from(chars, i, tokens, name, is_wildcard) == scan_from(
            chars,
            i + run.len(),
            tokens,
            name + run,
            if run.len() == 0 {
                is_wildcard
            } else {
                name + run == seq!['*']
            },
        ),
    decreases run.len(),
{
    if run.len() == 0 {
        assert(name + run =~= name);
    } else {
        let c = run[0];
        assert(chars[i] == c);
        let name1 = name.push(c);
        let w1 = c == '*' && name.len() == 0;
        let rest = run.drop_first();
        assert(chars.subrange(i + 1, i + 1 + rest.len()) =~= rest);
        lemma_scan_plain_run(chars, i + 1, rest, tokens, name1, w1);
        assert(name1 + rest =~= name + run);
        if rest.len() == 0 {
            if name.len() == 0 && c == '*' {
                assert(name + run =~= seq!['*']);
            } else if name + run == seq!['*'] {
                assert((name + run).len() == name.len() + 1);
                assert((name + run)[name.len() as int] == c);
            }
        } else {
            assert((name + run).len() >= 2);
        }
    }
}

/// The tokens of a comma-separated pair of plain names.
proof fn lemma_scan_comma(a: Seq<char>, b: Seq<char>)
    requires
        is_plain_name(a),
        is_plain_name(b),
    ensures
        spec_scan(a + seq![','] + b) == seq![
            TokenV::Name { value: a, is_wildcard: a == seq!['*'] },
            TokenV::Comma,
            TokenV::Name { value: b, is_wildcard: b == seq!['*'] },
        ],
{
    let cs = a + seq![','] + b;
    let e = Seq::<char>::empty();
    let et = Seq::<TokenV>::empty();
    assert(cs.subrange(0, a.len() as int) =~= a);
    lemma_scan_plain_run(cs, 0, a, et, e, false);
    assert(e + a =~= a);
    assert(cs[a.len() as int] == ',');
    let t1 = et.push(TokenV::Name { value: a, is_wildcard: a == seq!['*'] }).push(TokenV::Comma);
    assert(cs.subrange(a.len() + 1int, a.len() + 1int + b.len()) =~= b);
    lemma_scan_plain_run(cs, a.len() + 1int, b, t1, e, false);
    assert(e + b =~= b);
    assert(a.len() + 1 + b.len() == cs.len());
}

/// `a,b` selects the keys `a` and `b`, each whole.
pub proof fn law_comma_selects_both(a: Seq<char>, b: Seq<char>)
    requires
        is_plain_name(a),
        is_plain_name(b),
        a != b,
    ensures
        spec_compile(a + seq![','] + b) == Some(seq![(a, leaf(a)), (b, leaf(b))]),
{
    lemma_scan_comma(a, b);
    let q = a + seq![','] + b;
    assert(q.len() > 0);
    let toks = spec_scan(q);
    let na = TokenV::Name { value: a, is_wildcard: a == seq!['*'] };
    let nb = TokenV::Name { value: b, is_wildcard: b == seq!['*'] };
    let empty = Seq::<(Seq<char>, NodeV)>::empty();
    let t2 = toks.drop_first();
    let t3 = t2.drop_first();
    let t4 = t3.drop_first();
    assert(t2 =~= seq![TokenV::Comma, nb]);
    assert(t3 =~= seq![nb]);
    assert(t4 =~= Seq::<TokenV>::empty());
    // the level of `a` ends at the comma
    let ca = spec_build(t2, 1, false, false);
    assert(ca == spec_build_loop(t2, 1, empty, false, false, false));
    assert(ca.rest == t3 && ca.props == empty && !ca.dropped && !ca.is_array);
    // the level of `b` is empty
    let cb = spec_build(t4, 1, false, false);
    assert(cb.rest == t4 && cb.props == empty && !cb.dropped && !cb.is_array);
    let m1 = map_insert(empty, a, leaf(a));
    assert(m1 =~= seq![(a, leaf(a))]);
    let m2 = map_insert(m1, b, leaf(b));
    assert(keys_of(m1) =~= seq![a]);
    lemma_key_pos(keys_of(m1), b);
    assert(m2 =~= seq![(a, leaf(a)), (b, leaf(b))]);
    assert(spec_build_loop(t4, 0, m2, false, false, false).props == m2);
    assert(spec_build_loop(t3, 0, m1, false, false, false).props == m2);
    assert(spec_build_loop(toks, 0, empty, false, false, false).props == m2);
}

/// Scanning a plain name followed by a terminal emits both tokens.
pub proof fn lemma_scan_name_terminal(chars: Seq<char>, i: int, n: Seq<char>, tokens: Seq<TokenV>)
    requires
        is_plain_name(n),
        0 <= i,
        i + n.len() < chars.len(),
        chars.subrange(i, i + n.len()) == n,
        spec_is_terminal(chars[i + n.len()]),
    ensures
        scan_from(chars, i, tokens, Seq::empty(), false) == scan_from(
            chars,
            i + n.len() + 1,
            tokens.push(TokenV::Name { value: n, is_wildcard: n == seq!['*'] }).push(
                terminal_token(chars[i + n.len()]),
            ),
            Seq::empty(),
            false,
        ),
{
    let e = Seq::<char>::empty();
    lemma_scan_plain_run(chars, i, n, tokens, e, false);
    assert(e + n =~= n);
}

/// Scanning a plain name that ends the query emits its token last.
pub proof fn lemma_scan_name_end(chars: Seq<char>, i: int, n: Seq<char>, tokens: Seq<TokenV>)
    requires
        is_plain_name(n),
        0 <= i,
        i + n.len() == chars.len(),
        chars.subrange(i, i + n.len()) == n,
    ensures
        scan_from(chars, i, tokens, Seq::empty(), false) == tokens.push(
            TokenV::Name { value: n, is_wildcard: n == seq!['*'] },
        ),
{
    let e = Seq::<char>::empty();
    lemma_scan_plain_run(chars, i, n, tokens, e, false);
    assert(e + n =~= n);
}

/// `a/b` selects the key `b` inside `a`.
pub proof fn law_slash_selects_inside(a: Seq<char>, b: Seq<char>)
    requires
        is_plain_name(a),
        is_plain_name(b),
    ensures
        spec_compile(a + seq!['/'] + b) == Some(
            seq![(a, NodeV { is_array: false, is_wildcard: a == seq!['*'], properties: Some(seq![(b, leaf(b))]) })],
        ),
{
    let q = a + seq!['/'] + b;
    let et = Seq::<TokenV>::empty();
    assert(q.subrange(0, a.len() as int) =~= a);
    assert(q.subrange(a.len() + 1int, a.len() + 1int + b.len()) =~= b);
    lemma_scan_name_terminal(q, 0, a, et);
    let na = TokenV::Name { value: a, is_wildcard: a == seq!['*'] };
    let nb = TokenV::Name { value: b, is_wildcard: b == seq!['*'] };
    lemma_scan_name_end(q, a.len() + 1int, b, et.push(na).push(TokenV::Slash));
    let toks = spec_scan(q);
    assert(toks =~= seq![na, TokenV::Slash, nb]);
    let empty = Seq::<(Seq<char>, NodeV)>::empty();
    let t2 = toks.drop_first();
    let t3 = t2.drop_first();
    let t4 = t3.drop_first();
    assert(t2 =~= seq![TokenV::Slash, nb]);
    assert(t3 =~= seq![nb]);
    assert(t4 =~= Seq::<TokenV>::empty());
    let cb = spec_build(t4, 2, false, false);
    assert(cb.rest == t4 && cb.props == empty && !cb.dropped && !cb.is_array);
    let mb = map_insert(empty, b, leaf(b));
    assert(mb =~= seq![(b, leaf(b))]);
    assert(spec_build_loop(t3, 1, empty, false, false, true) == spec_build_loop(t3, 1, empty, false, false, true));
    let ca = spec_build(t2, 1, false, false);
    assert(ca == spec_build_loop(t3, 1, empty, false, false, true));
    assert(ca.props == mb && ca.rest == t4 && !ca.dropped && !ca.is_array);
    let node = NodeV { is_array: false, is_wildcard: a == seq!['*'], properties: Some(mb) };
    let ma = map_insert(empty, a, node);
    assert(ma =~= seq![(a, node)]);
    assert(spec_build_loop(t4, 0, ma, false, false, false).props == ma);
    assert(spec_build_loop(toks, 0, empty, false, false, false).props == ma);
}

/// `a(b,c)` selects `b` and `c` inside each element of the array `a`.
pub proof fn law_parens_select_inside_array(a: Seq<char>, b: Seq<char>, c: Seq<char>)
    requires
        is_plain_name(a),
        is_plain_name(b),
        is_plain_name(c),
        b != c,
    ensures
        spec_compile(a + seq!['('] + b + seq![','] + c + seq![')']) == Some(
            seq![
                (
                    a,
                    NodeV {
                        is_array: true,
                        is_wildcard: a == seq!['*'],
                        properties: Some(seq![(b, leaf(b)), (c, leaf(c))]),
                    },
                ),
            ],
        ),
{
    let q = a + seq!['('] + b + seq![','] + c + seq![')'];
    let la = a.len() as int;
    let lb = b.len() as int;
    let lc = c.len() as int;
    let et = Seq::<TokenV>::empty();
    let e = Seq::<char>::empty();
    let na = TokenV::Name { value: a, is_wildcard: a == seq!['*'] };
    let nb = TokenV::Name { value: b, is_wildcard: b == seq!['*'] };
    let nc = TokenV::Name { value: c, is_wildcard: c == seq!['*'] };
    assert(q.subrange(0, la) =~= a);
    assert(q[la] == '(');
    lemma_scan_name_terminal(q, 0, a, et);
    assert(q.subrange(la + 1, la + 1 + lb) =~= b);
    assert(q[la + 1 + lb] == ',');
    lemma_scan_name_terminal(q, la + 1, b, et.push(na).push(TokenV::Open));
    assert(q.subrange(la + 2 + lb, la + 2 + lb + lc) =~= c);
    assert(q[la + 2 + lb + lc] == ')');
    let t_c = et.push(na).push(TokenV::Open).push(nb).push(TokenV::Comma);
    lemma_scan_name_terminal(q, la + 2 + lb, c, t_c);
    let t_all = t_c.push(nc).push(TokenV::Close);
    assert(q.len() == la + 3 + lb + lc);
    assert(scan_from(q, q.len() as int, t_all, e, false) == t_all);
    let toks = spec_scan(q);
    assert(toks =~= seq![na, TokenV::Open, nb, TokenV::Comma, nc, TokenV::Close]);
    let empty = Seq::<(Seq<char>, NodeV)>::empty();
    let t1 = toks.drop_first();
    let t2 = t1.drop_first();
    let t3 = t2.drop_first();
    let t4 = t3.drop_first();
    let t5 = t4.drop_first();
    let t6 = t5.drop_first();
    assert(t1 =~= seq![TokenV::Open, nb, TokenV::Comma, nc, TokenV::Close]);
    assert(t2 =~= seq![nb, TokenV::Comma, nc, TokenV::Close]);
    assert(t3 =~= seq![TokenV::Comma, nc, TokenV::Close]);
    assert(t4 =~= seq![nc, TokenV::Close]);
    assert(t5 =~= seq![TokenV::Close]);
    assert(t6 =~= Seq::<TokenV>::empty());
    // the levels of `b` and `c` are empty
    let cb = spec_build(t3, 2, false, false);
    assert(cb == spec_build_loop(t3, 2, empty, false, false, false));
    assert(cb.rest == t4 && cb.props == empty && !cb.dropped && !cb.is_array);
    let cc = spec_build(t5, 2, false, false);
    assert(cc == spec_build_loop(t5, 2, empty, false, false, false));
    assert(cc.rest == t6 && cc.props == empty && !cc.dropped && !cc.is_array);
    // the level of `a`
    let m1 = map_insert(empty, b, leaf(b));
    assert(m1 =~= seq![(b, leaf(b))]);
    let m2 = map_insert(m1, c, leaf(c));
    assert(keys_of(m1) =~= seq![b]);
    lemma_key_pos(keys_of(m1), c);
    assert(m2 =~= seq![(b, leaf(b)), (c, leaf(c))]);
    let inner = spec_build_loop(t6, 1, m2, false, true, false);
    assert(inner.props == m2 && inner.rest == t6 && inner.is_array && !inner.dropped);
    assert(spec_build_loop(t4, 1, m1, false, true, false) == inner);
    assert(spec_build_loop(t2, 1, empty, false, true, false) == inner);
    let ca = spec_build(t1, 1, false, false);
    assert(ca == spec_build_loop(t1, 1, empty, false, false, false));
    assert(ca == inner);
    let node = NodeV { is_array: true, is_wildcard: a == seq!['*'], properties: Some(m2) };
    let ma = map_insert(empty, a, node);
    assert(ma =~= seq![(a, node)]);
    assert(spec_build_loop(t6, 0, ma, false, false, false).props == ma);
    assert(spec_build_loop(toks, 0, empty, false, false, false).props == ma);
}

/// A backslash escapes the next character: an escaped terminal is part of the
/// name, so `a\/b` selects the literal key `a/b`.
pub proof fn law_escape_makes_literal(a: Seq<char>, t: char, b: Seq<char>)
    requires
        forall|i: int| 0 <= i < a.len() ==> !spec_is_terminal(#[trigger] a[i]) && a[i] != ESCAPE_CHAR,
        forall|i: int| 0 <= i < b.len() ==> !spec_is_terminal(#[trigger] b[i]) && b[i] != ESCAPE_CHAR,
        spec_is_terminal(t),
    ensures
        spec_compile(a + seq!['\\', t] + b) == Some(
            seq![(a + seq![t] + b, NodeV { is_array: false, is_wildcard: false, properties: None })],
        ),
{
    let q = a + seq!['\\', t] + b;
    let la = a.len() as int;
    let et = Seq::<TokenV>::empty();
    let e = Seq::<char>::empty();
    assert(q.subrange(0, la) =~= a);
    lemma_scan_plain_run(q, 0, a, et, e, false);
    let w0 = if a.len() == 0 { false } else { e + a == seq!['*'] };
    assert(e + a =~= a);
    assert(q[la] == ESCAPE_CHAR);
    assert(q[la + 1] == t);
    assert(t != '*');
    let name1 = a.push(t);
    assert(scan_from(q, la, et, a, w0) == scan_from(q, la + 2, et, name1, false));
    assert(q.subrange(la + 2, la + 2 + b.len()) =~= b);
    lemma_scan_plain_run(q, la + 2, b, et, name1, false);
    let name = name1 + b;
    assert(name =~= a + seq![t] + b);
    assert(name.len() >= 1 && name[la] == t);
    let w = if b.len() == 0 { false } else { name == seq!['*'] };
    assert(!w) by {
        if b.len() > 0 && name == seq!['*'] {
            assert(name.len() >= 2);
        }
    }
    assert(la + 2 + b.len() == q.len());
    let tok = TokenV::Name { value: name, is_wildcard: false };
    let toks = spec_scan(q);
    assert(toks =~= seq![tok]);
    let empty = Seq::<(Seq<char>, NodeV)>::empty();
    let t1 = toks.drop_first();
    assert(t1 =~= Seq::<TokenV>::empty());
    let c = spec_build(t1, 1, false, false);
    assert(c.rest == t1 && c.props == empty && !c.dropped && !c.is_array);
    let node = NodeV { is_array: false, is_wildcard: false, properties: None };
    let m = map_insert(empty, name, node);
    assert(m =~= seq![(name, node)]);
    assert(spec_build_loop(t1, 0, m, false, false, false).props == m);
    assert(spec_build_loop(toks, 0, empty, false, false, false).props == m);
}

/// A bare `*` is the wildcard selector; an escaped `\*` alone selects the
/// literal key `*`; an escaped backslash before a star, `\\*`, selects the
/// literal key `\*`.
pub proof fn law_star_and_escaped_star()
    ensures
        spec_compile(seq!['*']) == Some(
            seq![(seq!['*'], NodeV { is_array: false, is_wildcard: true, properties: None })],
        ),
        spec_compile(seq!['\\', '*']) == Some(
            seq![(seq!['*'], NodeV { is_array: false, is_wildcard: false, properties: None })],
        ),
        spec_compile(seq!['\\', '\\', '*']) == Some(
            seq![(seq!['\\', '*'], NodeV { is_array: false, is_wildcard: false, properties: None })],
        ),
{
    let empty = Seq::<(Seq<char>, NodeV)>::empty();
    let et = Seq::<TokenV>::empty();
    let e = Seq::<char>::empty();
    let star = seq!['*'];
    let esc = seq!['\\', '*'];
    let esc2 = seq!['\\', '\\', '*'];
    let lit = seq!['\\', '*'];
    assert(e.push('*') =~= star);
    assert(scan_from(star, 1, et, star, true) == seq![TokenV::Name { value: star, is_wildcard: true }]);
    assert(spec_scan(star) == seq![TokenV::Name { value: star, is_wildcard: true }]);
    assert(scan_from(esc, 2, et, star, false) == seq![TokenV::Name { value: star, is_wildcard: false }]);
    assert(spec_scan(esc) == seq![TokenV::Name { value: star, is_wildcard: false }]);
    assert(e.push('\\') =~= seq!['\\']);
    assert(seq!['\\'].push('*') =~= lit);
    assert(scan_from(esc2, 3, et, lit, false) == seq![TokenV::Name { value: lit, is_wildcard: false }]);
    assert(scan_from(esc2, 2, et, seq!['\\'], false) == scan_from(esc2, 3, et, lit, false));
    assert(spec_scan(esc2) == seq![TokenV::Name { value: lit, is_wildcard: false }]);
    let t1 = Seq::<TokenV>::empty();
    let c = spec_build(t1, 1, false, false);
    assert(c.rest == t1 && c.props == empty && !c.dropped);
    let n1 = NodeV { is_array: false, is_wildcard: true, properties: None };
    let n2 = NodeV { is_array: false, is_wildcard: false, properties: None };
    assert(map_insert(empty, star, n1) =~= seq![(star, n1)]);
    assert(map_insert(empty, star, n2) =~= seq![(star, n2)]);
    assert(map_insert(empty, lit, n2) =~= seq![(lit, n2)]);
    let ts = seq![TokenV::Name { value: star, is_wildcard: true }];
    let te = seq![TokenV::Name { value: star, is_wildcard: false }];
    let tl = seq![TokenV::Name { value: lit, is_wildcard: false }];
    assert(ts.drop_first() =~= t1);
    assert(te.drop_first() =~= t1);
    assert(tl.drop_first() =~= t1);
    assert(spec_build_loop(t1, 0, seq![(star, n1)], false, false, false).props == seq![(star, n1)]);
    assert(spec_build_loop(ts, 0, empty, false, false, false).props == seq![(star, n1)]);
    assert(spec_build_loop(t1, 0, seq![(star, n2)], false, false, false).props == seq![(star, n2)]);
    assert(spec_build_loop(te, 0, empty, false, false, false).props == seq![(star, n2)]);
    assert(spec_build_loop(t1, 0, seq![(lit, n2)], false, false, false).props == seq![(lit, n2)]);
    assert(spec_build_loop(tl, 0, empty, false, false, false).props == seq![(lit, n2)]);
}

/// The entries that named mask entries select, in mask order: each key that
/// the data has, with its value masked by the key's node, unless that drops.
pub open spec fn spec_named_pick(entries: Seq<(Seq<char>, JsonV)>, mask: MaskV) -> Seq<(Seq<char>, JsonV)>
    decreases mask.len(),
{
    if mask.len() == 0 {
        Seq::empty()
    } else {
        let before = spec_named_pick(entries, mask.drop_last());
        match map_get(entries, mask.last().0) {
            Some(v) => match spec_select(v, mask.last().1) {
                Some(r) => before.push((mask.last().0, r)),
                None => before,
            },
            None => before,
        }
    }
}

/// The keys that `spec_named_pick` yields are keys of the mask.
proof fn lemma_named_pick_keys(entries: Seq<(Seq<char>, JsonV)>, mask: MaskV)
    ensures
        forall|i: int|
            0 <= i < spec_named_pick(entries, mask).len() ==> keys_of(mask).contains(
                #[trigger] spec_named_pick(entries, mask)[i].0,
            ),
    decreases mask.len(),
{
    if mask.len() > 0 {
        let init = mask.drop_last();
        lemma_named_pick_keys(entries, init);
        let p = spec_named_pick(entries, mask);
        let before = spec_named_pick(entries, init);
        assert forall|i: int| 0 <= i < p.len() implies keys_of(mask).contains(#[trigger] p[i].0) by {
            if i < before.len() {
                assert(p[i] == before[i]);
                let j = choose|j: int| 0 <= j < keys_of(init).len() && keys_of(init)[j] == before[i].0;
                assert(keys_of(mask)[j] == keys_of(init)[j]);
            } else {
                assert(keys_of(mask)[mask.len() - 1] == p[i].0);
            }
        }
    }
}

/// Named keys come out in mask order: with no wildcard in the mask, the masked
/// object lists each mask key that the data has, in mask order, with its value
/// masked by the key's node (a key whose value drops is left out).
pub proof fn law_named_keys_in_mask_order(entries: Seq<(Seq<char>, JsonV)>, mask: MaskV)
    requires
        keys_unique(keys_of(mask)),
        forall|i: int| 0 <= i < mask.len() ==> !(#[trigger] mask[i].1).is_wildcard,
    ensures
        spec_select_keys(entries, mask) == spec_named_pick(entries, mask),
    decreases mask.len(),
{
    if mask.len() > 0 {
        let init = mask.drop_last();
        assert(keys_unique(keys_of(init))) by {
            assert forall|i: int, j: int| 0 <= i < j < keys_of(init).len() implies keys_of(init)[i] != keys_of(init)[j] by {
                assert(keys_of(init)[i] == keys_of(mask)[i]);
                assert(keys_of(init)[j] == keys_of(mask)[j]);
            }
        }
        assert forall|i: int| 0 <= i < init.len() implies !(#[trigger] init[i].1).is_wildcard by {
            assert(init[i] == mask[i]);
        }
        law_named_keys_in_mask_order(entries, init);
        let before = spec_named_pick(entries, init);
        let k = mask.last().0;
        assert(!mask[mask.len() - 1].1.is_wildcard);
        lemma_named_pick_keys(entries, init);
        lemma_key_pos(keys_of(before), k);
        if key_pos(keys_of(before), k) >= 0 {
            let p = key_pos(keys_of(before), k);
            assert(keys_of(before)[p] == before[p].0);
            let j = choose|j: int| 0 <= j < keys_of(init).len() && keys_of(init)[j] == before[p].0;
            assert(keys_of(mask)[j] == keys_of(mask)[mask.len() - 1]);
        }
        match map_get(entries, k) {
            Some(v) => match spec_select(v, mask.last().1) {
                Some(r) => {
                    assert(map_insert(before, k, r) == before.push((k, r)));
                },
                None => {},
            },
            None => {},
        }
    }
}

/// A node with no sub-mask keeps every value whole.
proof fn lemma_for_all_leaf(entries: Seq<(Seq<char>, JsonV)>, node: NodeV)
    requires
        node.properties is None,
    ensures
        spec_for_all(entries, node) == entries,
    decreases entries.len(),
{
    if entries.len() > 0 {
        lemma_for_all_leaf(entries.drop_last(), node);
        law_no_mask_is_identity(entries.last().1);
        assert(spec_select(entries.last().1, node) == Some(entries.last().1));
        assert(spec_for_all(entries, node) == spec_for_all(entries.drop_last(), node).push(
            (entries.last().0, entries.last().1),
        ));
        assert(entries.drop_last().push(entries.last()) =~= entries);
    } else {
        assert(entries =~= Seq::<(Seq<char>, JsonV)>::empty());
    }
}

/// Inserting the entries of an object with unique keys into nothing gives the
/// object back.
proof fn lemma_insert_all_unique(entries: Seq<(Seq<char>, JsonV)>)
    requires
        keys_unique(keys_of(entries)),
    ensures
        map_insert_all(Seq::empty(), entries) == entries,
    decreases entries.len(),
{
    if entries.len() > 0 {
        let init = entries.drop_last();
        assert(keys_unique(keys_of(init))) by {
            assert forall|i: int, j: int| 0 <= i < j < keys_of(init).len() implies keys_of(init)[i] != keys_of(init)[j] by {
                assert(keys_of(init)[i] == keys_of(entries)[i]);
                assert(keys_of(init)[j] == keys_of(entries)[j]);
            }
        }
        lemma_insert_all_unique(init);
        let k = entries.last().0;
        lemma_key_pos(keys_of(init), k);
        if key_pos(keys_of(init), k) >= 0 {
            let p = key_pos(keys_of(init), k);
            assert(keys_of(entries)[p] == keys_of(init)[p]);
            assert(keys_of(entries)[entries.len() - 1] == k);
        }
        assert(init.push(entries.last()) =~= entries);
    } else {
        assert(entries =~= Seq::<(Seq<char>, JsonV)>::empty());
    }
}

/// `*` is a wildcard over every key of the current object: alone in a mask, it
/// keeps every key of an object (with unique keys) in data order, each value
/// masked by the wildcard's node; a bare `*` keeps the object unchanged.
pub proof fn law_wildcard_covers_every_key(entries: Seq<(Seq<char>, JsonV)>, k: Seq<char>, node: NodeV)
    requires
        keys_unique(keys_of(entries)),
        node.is_wildcard,
    ensures
        spec_filter(JsonV::Object(entries), Some(seq![(k, node)])) == Some(
            JsonV::Object(map_insert_all(Seq::empty(), spec_for_all(entries, node))),
        ),
        node.properties is None ==> spec_filter(JsonV::Object(entries), Some(seq![(k, node)])) == Some(
            JsonV::Object(entries),
        ),
{
    let m = seq![(k, node)];
    assert(m.drop_last() =~= Seq::<(Seq<char>, NodeV)>::empty());
    if node.properties is None {
        lemma_for_all_leaf(entries, node);
        lemma_insert_all_unique(entries);
    }
}

/// `a,b` on an object keeps the keys `a` and `b` that the object has, whole,
/// in that order, and nothing else.
pub proof fn law_comma_keeps_both_keys(a: Seq<char>, b: Seq<char>, entries: Seq<(Seq<char>, JsonV)>)
    requires
        is_plain_name(a),
        is_plain_name(b),
        a != b,
        a != seq!['*'],
        b != seq!['*'],
    ensures
        spec_filter(JsonV::Object(entries), spec_compile(a + seq![','] + b)) == Some(
            JsonV::Object(
                {
                    let first = match map_get(entries, a) {
                        Some(v) => seq![(a, v)],
                        None => Seq::empty(),
                    };
                    match map_get(entries, b) {
                        Some(v) => first.push((b, v)),
                        None => first,
                    }
                },
            ),
        ),
{
    law_comma_selects_both(a, b);
    let m = seq![(a, leaf(a)), (b, leaf(b))];
    assert(keys_of(m) =~= seq![a, b]);
    assert forall|i: int| 0 <= i < m.len() implies !(#[trigger] m[i].1).is_wildcard by {}
    law_named_keys_in_mask_order(entries, m);
    assert(m.drop_last() =~= seq![(a, leaf(a))]);
    assert(m.drop_last().drop_last() =~= Seq::<(Seq<char>, NodeV)>::empty());
    if let Some(v) = map_get(entries, a) {
        law_no_mask_is_identity(v);
    }
    if let Some(v) = map_get(entries, b) {
        law_no_mask_is_identity(v);
    }
    let e = Seq::<(Seq<char>, JsonV)>::empty();
    let first = spec_named_pick(entries, m.drop_last());
    assert(spec_named_pick(entries, m.drop_last().drop_last()) == e);
    if let Some(v) = map_get(entries, a) {
        assert(spec_select(v, leaf(a)) == Some(v));
        assert(e.push((a, v)) =~= seq![(a, v)]);
        assert(first == seq![(a, v)]);
    } else {
        assert(first == e);
    }
    if let Some(v) = map_get(entries, b) {
        assert(spec_select(v, leaf(b)) == Some(v));
        assert(spec_named_pick(entries, m) == first.push((b, v)));
    } else {
        assert(spec_named_pick(entries, m) == first);
    }
    assert(spec_filter(JsonV::Object(entries), Some(m)) == Some(JsonV::Object(spec_select_keys(entries, m))));
}

} // verus!
