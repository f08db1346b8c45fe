//! Compiled masks: ordered trees of keys and selection nodes.

use vstd::prelude::*;
use crate::keyed::{
    find_key, key_pos, keys_of, keys_unique, lemma_insert_keys, lemma_key_pos, map_get, map_insert, string_keys,
};

verus! {

/// The model of a compiled mask: its entries in order.
pub type MaskV = Seq<(Seq<char>, NodeV)>;

/// The model of a node.
pub struct NodeV {
    pub is_array: bool,
    pub is_wildcard: bool,
    pub properties: Option<MaskV>,
}

/// One node in a compiled mask tree.
///
/// A node selects a key and describes how to treat its value. `is_array` marks
/// a key that was followed by `(...)`. `is_wildcard` marks the bare `*`
/// selector, which expands over every key of the data object. `properties`
/// holds the nested sub-mask and is absent when empty.
#[derive(Debug, PartialEq, Eq)]
pub struct Node {
    /// True when the key was followed by `(...)`, marking an array selector.
    pub is_array: bool,
    /// True only for the bare `*` selector. An escaped `\*` is a literal key.
    pub is_wildcard: bool,
    /// Nested sub-mask. Absent when the node has no children.
    pub properties: Option<CompiledMask>,
}

/// A compiled mask: an ordered map from key to node.
///
/// Key order follows the order in which keys were first inserted. Each key
/// occurs once.
#[derive(Debug, PartialEq, Eq)]
pub struct CompiledMask {
    entries: Vec<(String, Node)>,
}

/// The model of a node.
pub open spec fn node_view(n: Node) -> NodeV
    decreases n,
{
    NodeV {
        is_array: n.is_array,
        is_wildcard: n.is_wildcard,
        properties: match n.properties {
            Some(m) => Some(compiled_view(m)),
            None => None,
        },
    }
}

/// The model of a compiled mask.
pub closed spec fn compiled_view(m: CompiledMask) -> MaskV
    decreases m,
{
    mask_entries_view(m.entries@)
}

/// The models of a sequence of mask entries.
pub open spec fn mask_entries_view(s: Seq<(String, Node)>) -> MaskV
    decreases s,
{
    if s.len() == 0 {
        Seq::empty()
    } else {
        mask_entries_view(s.drop_last()).push((s.last().0@, node_view(s.last().1)))
    }
}

impl View for Node {
    type V = NodeV;

    open spec fn view(&self) -> NodeV {
        node_view(*self)
    }
}

impl View for CompiledMask {
    type V = MaskV;

    open spec fn view(&self) -> MaskV {
        compiled_view(*self)
    }
}

/// The model of an optional mask.
pub open spec fn opt_mask_view(m: Option<&CompiledMask>) -> Option<MaskV> {
    match m {
        Some(m) => Some(m@),
        None => None,
    }
}

/// The nesting depth of a node: one for the node itself, plus the depth of its
/// sub-mask.
pub open spec fn node_depth(n: NodeV) -> nat
    decreases n,
{
    match n.properties {
        None => 1,
        Some(p) => 1 + mask_depth(p),
    }
}

/// The nesting depth of a mask: the largest depth of its nodes, zero when empty.
pub open spec fn mask_depth(m: MaskV) -> nat
    decreases m,
{
    if m.len() == 0 {
        0
    } else {
        let a = mask_depth(m.drop_last());
        let b = node_depth(m.last().1);
        if a >= b {
            a
        } else {
            b
        }
    }
}

/// A node is well formed when its sub-mask, if any, is non-empty and well formed.
pub open spec fn node_wf(n: NodeV) -> bool
    decreases n,
{
    match n.properties {
        None => true,
        Some(p) => p.len() > 0 && keys_unique(keys_of(p)) && nodes_wf(p),
    }
}

/// Every node of the mask is well formed.
pub open spec fn nodes_wf(m: MaskV) -> bool
    decreases m,
{
    m.len() == 0 || (nodes_wf(m.drop_last()) && node_wf(m.last().1))
}

/// A mask is well formed when each key occurs once at every level and every
/// sub-mask is non-empty.
pub open spec fn mask_wf(m: MaskV) -> bool {
    keys_unique(keys_of(m)) && nodes_wf(m)
}

/// An entry is named when its key is non-empty and a wildcard node is keyed `*`.
pub open spec fn entry_named(key: Seq<char>, n: NodeV) -> bool {
    key.len() > 0 && (n.is_wildcard ==> key == seq!['*'])
}

/// The entry is named, and so is every entry under its node.
pub open spec fn entry_ok(e: (Seq<char>, NodeV)) -> bool {
    entry_named(e.0, e.1) && node_named(e.1)
}

/// Every entry under the node, at every level, is named.
pub open spec fn node_named(n: NodeV) -> bool
    decreases n,
{
    match n.properties {
        None => true,
        Some(p) => mask_named(p),
    }
}

/// Every entry of the mask, at every level, is named.
pub open spec fn mask_named(m: MaskV) -> bool
    decreases m,
{
    m.len() == 0 || (mask_named(m.drop_last()) && entry_named(m.last().0, m.last().1) && node_named(
        m.last().1,
    ))
}

/// A named mask has only named entries.
pub proof fn lemma_named_entries(m: MaskV)
    requires
        mask_named(m),
    ensures
        forall|i: int| 0 <= i < m.len() ==> #[trigger] entry_ok(m[i]),
    decreases m.len(),
{
    if m.len() > 0 {
        let init = m.drop_last();
        lemma_named_entries(init);
        assert forall|i: int| 0 <= i < m.len() implies #[trigger] entry_ok(m[i]) by {
            if i < init.len() {
                assert(m[i] == init[i]);
                assert(entry_ok(init[i]));
            } else {
                assert(m.last() == m[i]);
            }
        }
    }
}

/// A mask whose entries are all named is named.
pub proof fn lemma_named_back(m: MaskV)
    requires
        forall|i: int| 0 <= i < m.len() ==> #[trigger] entry_ok(m[i]),
    ensures
        mask_named(m),
    decreases m.len(),
{
    if m.len() > 0 {
        let init = m.drop_last();
        assert forall|i: int| 0 <= i < init.len() implies #[trigger] entry_ok(init[i]) by {
            assert(init[i] == m[i]);
            assert(entry_ok(m[i]));
        }
        lemma_named_back(init);
        assert(entry_ok(m[m.len() - 1]));
        assert(m.last() == m[m.len() - 1]);
    }
}

/// Inserting a named entry keeps a mask named.
pub proof fn lemma_insert_named(m: MaskV, k: Seq<char>, node: NodeV)
    requires
        mask_named(m),
        entry_named(k, node),
        node_named(node),
    ensures
        mask_named(map_insert(m, k, node)),
{
    let r = map_insert(m, k, node);
    lemma_insert_keys(m, k, node);
    lemma_key_pos(keys_of(m), k);
    lemma_named_entries(m);
    assert forall|i: int| 0 <= i < r.len() implies #[trigger] entry_ok(r[i]) by {
        if i < m.len() && r[i] == m[i] {
            assert(entry_ok(m[i]));
        } else {
            if key_pos(keys_of(m), k) >= 0 {
                assert(r[i] == (k, node) || r[i] == m[i]);
                if r[i] == m[i] {
                    assert(entry_ok(m[i]));
                }
            }
        }
    }
    lemma_named_back(r);
}

/// `nodes_wf` and `mask_depth` stated entry by entry.
pub proof fn lemma_nodes_pointwise(m: MaskV)
    ensures
        nodes_wf(m) <==> forall|i: int| 0 <= i < m.len() ==> #[trigger] node_wf(m[i].1),
        forall|i: int| 0 <= i < m.len() ==> #[trigger] node_depth(m[i].1) <= mask_depth(m),
        m.len() == 0 || exists|i: int| 0 <= i < m.len() && #[trigger] node_depth(m[i].1) == mask_depth(m),
    decreases m.len(),
{
    if m.len() > 0 {
        let init = m.drop_last();
        lemma_nodes_pointwise(init);
        assert forall|i: int| 0 <= i < init.len() implies m[i] == #[trigger] init[i] by {}
        if nodes_wf(m) {
            assert forall|i: int| 0 <= i < m.len() implies #[trigger] node_wf(m[i].1) by {
                if i < init.len() {
                    assert(m[i] == init[i]);
                }
            }
        }
        if forall|i: int| 0 <= i < m.len() ==> #[trigger] node_wf(m[i].1) {
            assert forall|i: int| 0 <= i < init.len() implies #[trigger] node_wf(init[i].1) by {
                assert(m[i] == init[i]);
                assert(node_wf(m[i].1));
            }
            assert(node_wf(m[m.len() - 1].1));
        }
        assert forall|i: int| 0 <= i < m.len() implies #[trigger] node_depth(m[i].1) <= mask_depth(m) by {
            if i < init.len() {
                assert(m[i] == init[i]);
                assert(node_depth(init[i].1) <= mask_depth(init));
            }
        }
        if mask_depth(init) >= node_depth(m.last().1) && init.len() > 0 {
            let i = choose|i: int| 0 <= i < init.len() && #[trigger] node_depth(init[i].1) == mask_depth(init);
            assert(m[i] == init[i]);
            assert(node_depth(m[i].1) == mask_depth(m));
        } else {
            assert(node_depth(m[m.len() - 1].1) == mask_depth(m));
        }
    }
}

/// Inserting a well-formed node keeps a mask well formed, and within a depth
/// bound that both respect.
pub proof fn lemma_insert_wf(m: MaskV, k: Seq<char>, node: NodeV, bound: nat)
    requires
        mask_wf(m),
        node_wf(node),
        mask_depth(m) <= bound,
        node_depth(node) <= bound,
    ensures
        mask_wf(map_insert(m, k, node)),
        mask_depth(map_insert(m, k, node)) <= bound,
{
    let r = map_insert(m, k, node);
    lemma_insert_keys(m, k, node);
    lemma_nodes_pointwise(m);
    lemma_nodes_pointwise(r);
    lemma_key_pos(keys_of(m), k);
    assert forall|i: int| 0 <= i < r.len() implies #[trigger] node_wf(r[i].1) && node_depth(r[i].1) <= bound by {
        if i < m.len() && r[i] == m[i] {
            assert(node_wf(m[i].1));
            assert(node_depth(m[i].1) <= mask_depth(m));
        }
    }
}

/// Each model in `mask_entries_view(s)` is the model of the entry at the same index.
pub proof fn lemma_mask_entries_view(s: Seq<(String, Node)>)
    ensures
        mask_entries_view(s).len() == s.len(),
        forall|i: int|
            0 <= i < s.len() ==> #[trigger] mask_entries_view(s)[i] == (s[i].0@, s[i].1@),
        keys_of(mask_entries_view(s)) == string_keys(s),
    decreases s.len(),
{
    if s.len() > 0 {
        lemma_mask_entries_view(s.drop_last());
    }
    assert(keys_of(mask_entries_view(s)) =~= string_keys(s));
}

impl Node {
    /// A copy of the node, with the same model.
    pub fn deep_copy(&self) -> (r: Node)
        ensures
            r@ == self@,
        decreases self@, 1int,
    {
        let properties = match &self.properties {
            Some(m) => {
                proof {
                    assert(decreases_to!(self@ => self@.properties));
                    assert(decreases_to!(self@.properties => self@.properties->0));
                }
                Some(m.deep_copy())
            },
            None => None,
        };
        Node { is_array: self.is_array, is_wildcard: self.is_wildcard, properties }
    }
}

impl Clone for Node {
    fn clone(&self) -> (r: Self)
        ensures
            r@ == self@,
    {
        self.deep_copy()
    }
}

impl Clone for CompiledMask {
    fn clone(&self) -> (r: Self)
        ensures
            r@ == self@,
    {
        self.deep_copy()
    }
}

impl CompiledMask {
    #[verifier::type_invariant]
    spec fn keys_are_unique(self) -> bool {
        keys_unique(string_keys(self.entries@))
    }

    /// A copy of the mask, with the same model.
    pub fn deep_copy(&self) -> (r: CompiledMask)
        ensures
            r@ == self@,
        decreases self@, 0int,
    {
        proof {
            use_type_invariant(self);
            lemma_mask_entries_view(self.entries@);
        }
        let mut out: Vec<(String, Node)> = Vec::new();
        let mut i: usize = 0;
        while i < self.entries.len()
            invariant
                i <= self.entries.len(),
                out.len() == i,
                self@ == mask_entries_view(self.entries@),
                mask_entries_view(self.entries@).len() == self.entries@.len(),
                forall|k: int|
                    0 <= k < self.entries@.len() ==> #[trigger] mask_entries_view(self.entries@)[k] == (
                    self.entries@[k].0@,
                    self.entries@[k].1@,
                ),
                forall|k: int|
                    0 <= k < i ==> #[trigger] out@[k].0@ == self.entries@[k].0@ && out@[k].1@
                        == self.entries@[k].1@,
            decreases self.entries.len() - i,
        {
            proof {
                let s = self@;
                assert(s[i as int] == (self.entries@[i as int].0@, self.entries@[i as int].1@));
                assert(decreases_to!(s => s[i as int]));
                assert(decreases_to!(s[i as int] => s[i as int].1));
            }
            let k = self.entries[i].0.clone();
            let n = self.entries[i].1.deep_copy();
            out.push((k, n));
            i += 1;
        }
        proof {
            lemma_mask_entries_view(out@);
            assert(mask_entries_view(out@) =~= mask_entries_view(self.entries@));
            assert(string_keys(out@) == keys_of(mask_entries_view(out@)));
        }
        CompiledMask { entries: out }
    }

    /// The entries in order.
    pub fn entries(&self) -> (r: &Vec<(String, Node)>)
        ensures
            mask_entries_view(r@) == self@,
            keys_unique(keys_of(self@)),
    {
        proof {
            use_type_invariant(self);
            lemma_mask_entries_view(self.entries@);
        }
        &self.entries
    }

    /// An empty mask.
    pub fn new() -> (r: CompiledMask)
        ensures
            r@ == Seq::<(Seq<char>, NodeV)>::empty(),
    {
        CompiledMask { entries: Vec::new() }
    }

    /// The number of entries.
    pub fn len(&self) -> (r: usize)
        ensures
            r == self@.len(),
    {
        proof {
            lemma_mask_entries_view(self.entries@);
        }
        self.entries.len()
    }

    /// Whether the mask has no entries.
    pub fn is_empty(&self) -> (r: bool)
        ensures
            r == (self@.len() == 0),
    {
        proof {
            lemma_mask_entries_view(self.entries@);
        }
        self.entries.len() == 0
    }

    /// Binds `key` to `node`. A present key keeps its place and gets the new
    /// node; a new key is appended.
    pub fn insert(&mut self, key: String, node: Node)
        ensures
            final(self)@ == map_insert(old(self)@, key@, node@),
            keys_unique(keys_of(final(self)@)),
    {
        proof {
            use_type_invariant(&*self);
            lemma_mask_entries_view(self.entries@);
            lemma_key_pos(string_keys(self.entries@), key@);
        }
        let ghost old_entries = self.entries@;
        let ghost kv = key@;
        let ghost nv = node@;
        let mut entries: Vec<(String, Node)> = Vec::new();
        std::mem::swap(&mut entries, &mut self.entries);
        match find_key(&entries, &key) {
            Some(i) => {
                entries.set(i, (key, node));
                proof {
                    let s = entries@;
                    lemma_mask_entries_view(s);
                    assert(string_keys(s) =~= string_keys(old_entries));
                    assert(mask_entries_view(s) =~= map_insert(mask_entries_view(old_entries), kv, nv));
                }
            },
            None => {
                entries.push((key, node));
                proof {
                    let s = entries@;
                    lemma_mask_entries_view(s);
                    assert(string_keys(s) =~= string_keys(old_entries).push(kv));
                    assert(mask_entries_view(s) =~= map_insert(mask_entries_view(old_entries), kv, nv));
                }
            },
        }
        self.entries = entries;
    }

    /// The node bound to `key`.
    pub fn get(&self, key: &str) -> (r: Option<&Node>)
        ensures
            match r {
                Some(n) => map_get(self@, key@) == Some(n@),
                None => map_get(self@, key@) is None,
            },
    {
        proof {
            lemma_mask_entries_view(self.entries@);
            lemma_key_pos(string_keys(self.entries@), key@);
        }
        let key = String::from_str(key);
        match find_key(&self.entries, &key) {
            Some(i) => Some(&self.entries[i].1),
            None => None,
        }
    }

    /// Whether `key` is bound.
    pub fn contains_key(&self, key: &str) -> (r: bool)
        ensures
            r == (map_get(self@, key@) is Some),
    {
        self.get(key).is_some()
    }
}

} // verus!
