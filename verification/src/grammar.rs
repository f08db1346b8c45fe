//! The fields language as a grammar, and what a query of it compiles to.
//!
//! A well-formed query is a non-empty, comma-separated list of selectors. A
//! selector is a plain name, alone (`a`), followed by `/` and one selector
//! (`a/b`), or followed by a parenthesised non-empty list (`a(b,c)`). Such a
//! query compiles to the mask that records, level by level and in order, each
//! name with its node; a later name replaces an earlier equal one in place.

use vstd::prelude::*;
use crate::compiler::{spec_build, spec_build_loop, spec_compile, spec_parse, MAX_DEPTH, FrameV};
use crate::keyed::map_insert;
use crate::laws::{is_plain_name, lemma_scan_name_end, lemma_scan_name_terminal};
use crate::mask::{MaskV, NodeV};
use crate::scanner::{
    flush_name, scan_from, spec_is_terminal, spec_scan, terminal_token, TokenV, ESCAPE_CHAR, WILDCARD_CHAR,
};

verus! {

/// One selector of a well-formed query.
pub enum SelectorV {
    /// A name selected whole.
    Leaf { name: Seq<char> },
    /// `name/child`: the single child selector inside `name`.
    Child { name: Seq<char>, child: Box<SelectorV> },
    /// `name(items)`: the listed selectors inside each element of `name`.
    Group { name: Seq<char>, items: Seq<SelectorV> },
}

/// The name a selector starts with.
pub open spec fn sel_name(s: SelectorV) -> Seq<char> {
    match s {
        SelectorV::Leaf { name } => name,
        SelectorV::Child { name, .. } => name,
        SelectorV::Group { name, .. } => name,
    }
}

/// Every name is plain, and every group lists at least one selector.
pub open spec fn sel_ok(s: SelectorV) -> bool
    decreases s,
{
    match s {
        SelectorV::Leaf { name } => is_plain_name(name),
        SelectorV::Child { name, child } => is_plain_name(name) && sel_ok(*child),
        SelectorV::Group { name, items } => is_plain_name(name) && items.len() > 0 && list_ok(items),
    }
}

/// Every selector of the list is well formed.
pub open spec fn list_ok(items: Seq<SelectorV>) -> bool
    decreases items,
{
    items.len() == 0 || (sel_ok(items[0]) && list_ok(items.drop_first()))
}

/// The number of nested levels a selector spans.
pub open spec fn sel_height(s: SelectorV) -> nat
    decreases s,
{
    match s {
        SelectorV::Leaf { .. } => 1,
        SelectorV::Child { child, .. } => 1 + sel_height(*child),
        SelectorV::Group { items, .. } => 1 + list_height(items),
    }
}

/// The largest height of the listed selectors.
pub open spec fn list_height(items: Seq<SelectorV>) -> nat
    decreases items,
{
    if items.len() == 0 {
        0
    } else {
        let a = sel_height(items[0]);
        let b = list_height(items.drop_first());
        if a >= b {
            a
        } else {
            b
        }
    }
}

/// The tokens of a selector.
pub open spec fn sel_tokens(s: SelectorV) -> Seq<TokenV>
    decreases s, 1int,
{
    seq![TokenV::Name { value: sel_name(s), is_wildcard: sel_name(s) == seq!['*'] }] + sub_tokens(s)
}

/// The tokens after a selector's name.
pub open spec fn sub_tokens(s: SelectorV) -> Seq<TokenV>
    decreases s, 0int,
{
    match s {
        SelectorV::Leaf { .. } => Seq::empty(),
        SelectorV::Child { child, .. } => seq![TokenV::Slash] + sel_tokens(*child),
        SelectorV::Group { items, .. } => seq![TokenV::Open] + list_tokens(items) + seq![TokenV::Close],
    }
}

/// The tokens of a comma-separated list of selectors.
pub open spec fn list_tokens(items: Seq<SelectorV>) -> Seq<TokenV>
    decreases items, 2int,
{
    if items.len() == 0 {
        Seq::empty()
    } else if items.len() == 1 {
        sel_tokens(items[0])
    } else {
        sel_tokens(items[0]) + (seq![TokenV::Comma] + list_tokens(items.drop_first()))
    }
}

/// The character of a terminal token.
pub open spec fn terminal_char(t: TokenV) -> char {
    match t {
        TokenV::Comma => ',',
        TokenV::Slash => '/',
        TokenV::Open => '(',
        _ => ')',
    }
}

/// The text of a token sequence: each name as written, each terminal as its
/// character.
pub open spec fn token_text(ts: Seq<TokenV>) -> Seq<char>
    decreases ts.len(),
{
    if ts.len() == 0 {
        Seq::empty()
    } else {
        let head = match ts[0] {
            TokenV::Name { value, .. } => value,
            t => seq![terminal_char(t)],
        };
        head + token_text(ts.drop_first())
    }
}

/// The query text of a list of selectors.
pub open spec fn query_text(items: Seq<SelectorV>) -> Seq<char> {
    token_text(list_tokens(items))
}

/// The entries below a selector's name.
pub open spec fn sel_kids(s: SelectorV) -> MaskV
    decreases s, 0int,
{
    match s {
        SelectorV::Leaf { .. } => Seq::empty(),
        SelectorV::Child { child, .. } => seq![(sel_name(*child), sel_node(*child))],
        SelectorV::Group { items, .. } => list_mask(Seq::empty(), items),
    }
}

/// The node a selector records under its name.
pub open spec fn sel_node(s: SelectorV) -> NodeV
    decreases s, 1int,
{
    NodeV {
        is_array: s is Group,
        is_wildcard: sel_name(s) == seq!['*'],
        properties: if s is Leaf {
            None
        } else {
            Some(sel_kids(s))
        },
    }
}

/// The mask `props` with the listed selectors recorded in order.
pub open spec fn list_mask(props: MaskV, items: Seq<SelectorV>) -> MaskV
    decreases items, 2int,
{
    if items.len() == 0 {
        props
    } else {
        list_mask(map_insert(props, sel_name(items[0]), sel_node(items[0])), items.drop_first())
    }
}

/// Recording selectors never shrinks a mask.
proof fn lemma_list_mask_len(props: MaskV, items: Seq<SelectorV>)
    ensures
        list_mask(props, items).len() >= props.len(),
        items.len() > 0 ==> list_mask(props, items).len() > 0,
    decreases items.len(),
{
    if items.len() > 0 {
        let p2 = map_insert(props, sel_name(items[0]), sel_node(items[0]));
        crate::keyed::lemma_key_pos(crate::keyed::keys_of(props), sel_name(items[0]));
        assert(p2.len() >= 1 && p2.len() >= props.len());
        lemma_list_mask_len(p2, items.drop_first());
    }
}

/// A name token is plain, carries the wildcard flag of `*` alone, and is not
/// directly followed by another name.
pub open spec fn token_plain_at(ts: Seq<TokenV>, j: int) -> bool {
    ts[j] matches TokenV::Name { value, is_wildcard } ==> is_plain_name(value) && is_wildcard == (value
        == seq!['*']) && (j + 1 == ts.len() || !(ts[j + 1] is Name))
}

/// Every token is plain where it stands.
pub open spec fn tokens_plain(ts: Seq<TokenV>) -> bool {
    forall|j: int| 0 <= j < ts.len() ==> #[trigger] token_plain_at(ts, j)
}

/// Joining two plain token runs keeps them plain unless two names meet.
proof fn lemma_plain_concat(a: Seq<TokenV>, b: Seq<TokenV>)
    requires
        tokens_plain(a),
        tokens_plain(b),
        a.len() == 0 || b.len() == 0 || !(a.last() is Name) || !(b[0] is Name),
    ensures
        tokens_plain(a + b),
{
    let c = a + b;
    assert forall|j: int| 0 <= j < c.len() implies #[trigger] token_plain_at(c, j) by {
        if j < a.len() {
            assert(c[j] == a[j]);
            assert(token_plain_at(a, j));
            if j + 1 < a.len() {
                assert(c[j + 1] == a[j + 1]);
            } else if j + 1 < c.len() {
                assert(c[j + 1] == b[0]);
                assert(a.last() == a[j]);
            }
        } else {
            assert(c[j] == b[j - a.len()]);
            assert(token_plain_at(b, j - a.len()));
            if j + 1 < c.len() {
                assert(c[j + 1] == b[j + 1 - a.len()]);
            }
        }
    }
}

/// A single terminal is plain.
proof fn lemma_plain_terminal(t: TokenV)
    requires
        !(t is Name),
    ensures
        tokens_plain(seq![t]),
{
    assert(token_plain_at(seq![t], 0));
}

/// The tokens of a well-formed selector are plain, start with its name, and
/// what follows the name is empty or a terminal.
proof fn lemma_sel_plain(s: SelectorV)
    requires
        sel_ok(s),
    ensures
        tokens_plain(sel_tokens(s)),
        tokens_plain(sub_tokens(s)),
        sub_tokens(s).len() == 0 || !(sub_tokens(s)[0] is Name),
        sel_tokens(s).len() > 0,
        sel_tokens(s)[0] is Name,
    decreases s, 0int,
{
    let n = sel_name(s);
    let head = seq![TokenV::Name { value: n, is_wildcard: n == seq!['*'] }];
    assert(token_plain_at(head, 0));
    match s {
        SelectorV::Leaf { .. } => {
            assert(sub_tokens(s) =~= Seq::<TokenV>::empty());
        },
        SelectorV::Child { child, .. } => {
            lemma_sel_plain(*child);
            lemma_plain_terminal(TokenV::Slash);
            lemma_plain_concat(seq![TokenV::Slash], sel_tokens(*child));
        },
        SelectorV::Group { items, .. } => {
            lemma_list_plain(items);
            lemma_plain_terminal(TokenV::Open);
            lemma_plain_terminal(TokenV::Close);
            lemma_plain_concat(seq![TokenV::Open], list_tokens(items));
            let o = seq![TokenV::Open] + list_tokens(items);
            assert(o.last() == list_tokens(items).last() || list_tokens(items).len() == 0);
            lemma_plain_concat(o, seq![TokenV::Close]);
        },
    }
    assert((seq![TokenV::Slash] + Seq::<TokenV>::empty()).len() > 0);
    lemma_plain_concat(head, sub_tokens(s));
    assert(sel_tokens(s)[0] == head[0]);
}

/// The tokens of a well-formed list are plain and, when the list is not
/// empty, start with a name.
proof fn lemma_list_plain(items: Seq<SelectorV>)
    requires
        list_ok(items),
    ensures
        tokens_plain(list_tokens(items)),
        items.len() > 0 ==> list_tokens(items).len() > 0 && list_tokens(items)[0] is Name,
    decreases items, 1int,
{
    if items.len() == 0 {
        assert(tokens_plain(Seq::<TokenV>::empty()));
    } else {
        lemma_sel_plain(items[0]);
        if items.len() > 1 {
            let rest = items.drop_first();
            lemma_list_plain(rest);
            lemma_plain_terminal(TokenV::Comma);
            lemma_plain_concat(seq![TokenV::Comma], list_tokens(rest));
            let b = seq![TokenV::Comma] + list_tokens(rest);
            assert(b[0] == TokenV::Comma);
            lemma_plain_concat(sel_tokens(items[0]), b);
            assert(list_tokens(items)[0] == sel_tokens(items[0])[0]);
        }
    }
}

/// Scanning the text of plain tokens gives the tokens back.
proof fn lemma_scan_text(chars: Seq<char>, i: int, tokens: Seq<TokenV>, ts: Seq<TokenV>)
    requires
        0 <= i <= chars.len(),
        chars.subrange(i, chars.len() as int) == token_text(ts),
        tokens_plain(ts),
    ensures
        scan_from(chars, i, tokens, Seq::empty(), false) == tokens + ts,
    decreases ts.len(),
{
    if ts.len() == 0 {
        assert(tokens + ts =~= tokens);
    } else {
        let rest = ts.drop_first();
        assert(tokens_plain(rest)) by {
            assert forall|j: int| 0 <= j < rest.len() implies #[trigger] token_plain_at(rest, j) by {
                assert(token_plain_at(ts, j + 1));
                assert(rest[j] == ts[j + 1]);
                if j + 1 < rest.len() {
                    assert(rest[j + 1] == ts[j + 2]);
                }
            }
        }
        assert(token_plain_at(ts, 0));
        match ts[0] {
            TokenV::Name { value, is_wildcard } => {
                let n = value;
                let text = n + token_text(rest);
                let sub = chars.subrange(i, chars.len() as int);
                assert(sub == text);
                assert(sub.len() == text.len());
                assert(chars.subrange(i, i + n.len()) =~= text.subrange(0, n.len() as int));
                assert(text.subrange(0, n.len() as int) =~= n);
                if ts.len() == 1 {
                    assert(token_text(rest) =~= Seq::<char>::empty());
                    assert(i + n.len() == chars.len());
                    lemma_scan_name_end(chars, i, n, tokens);
                    assert(tokens + ts =~= tokens.push(ts[0]));
                } else {
                    let t = rest[0];
                    assert(!(t is Name));
                    let rest2 = rest.drop_first();
                    let c = terminal_char(t);
                    let tt2 = token_text(rest2);
                    assert(token_text(rest) == seq![c] + tt2);
                    assert(text =~= n + seq![c] + tt2);
                    assert(chars[i + n.len()] == sub[n.len() as int]);
                    assert(sub[n.len() as int] == c);
                    assert(chars.subrange(i + n.len() + 1, chars.len() as int) =~= sub.subrange(
                        n.len() + 1int,
                        sub.len() as int,
                    ));
                    assert(sub.subrange(n.len() + 1int, sub.len() as int) =~= tt2);
                    assert(terminal_token(terminal_char(t)) == t);
                    lemma_scan_name_terminal(chars, i, n, tokens);
                    assert(tokens_plain(rest2)) by {
                        assert forall|j: int| 0 <= j < rest2.len() implies #[trigger] token_plain_at(rest2, j) by {
                            assert(token_plain_at(ts, j + 2));
                            assert(rest2[j] == ts[j + 2]);
                            if j + 1 < rest2.len() {
                                assert(rest2[j + 1] == ts[j + 3]);
                            }
                        }
                    }
                    assert(chars.subrange(i + n.len() + 1, chars.len() as int) =~= token_text(rest2));
                    lemma_scan_text(chars, i + n.len() + 1, tokens.push(ts[0]).push(t), rest2);
                    assert(tokens.push(ts[0]).push(t) + rest2 =~= tokens + ts);
                }
            },
            t => {
                let c = terminal_char(t);
                assert(token_text(ts) == seq![c] + token_text(rest));
                let sub = chars.subrange(i, chars.len() as int);
                assert(sub == seq![c] + token_text(rest));
                assert(sub.len() == 1 + token_text(rest).len());
                assert(chars[i] == sub[0]);
                assert(chars[i] == c);
                assert(chars.subrange(i + 1, chars.len() as int) =~= sub.subrange(1, sub.len() as int));
                assert(sub.subrange(1, sub.len() as int) =~= token_text(rest));
                assert(spec_is_terminal(c));
                assert(terminal_token(c) == t);
                assert(chars.subrange(i + 1, chars.len() as int) =~= token_text(rest));
                lemma_scan_text(chars, i + 1, tokens.push(t), rest);
                assert(tokens.push(t) + rest =~= tokens + ts);
            },
        }
    }
}

/// The text of a sequence with one more token is the text before it followed
/// by the token's text.
proof fn lemma_token_text_push(ts: Seq<TokenV>, t: TokenV)
    ensures
        token_text(ts.push(t)) == token_text(ts) + token_text(seq![t]),
    decreases ts.len(),
{
    let one = seq![t];
    assert(one.drop_first() =~= Seq::<TokenV>::empty());
    if ts.len() == 0 {
        assert(ts.push(t) =~= one);
        assert(Seq::<char>::empty() + token_text(one) =~= token_text(one));
    } else {
        let p = ts.push(t);
        assert(p.drop_first() =~= ts.drop_first().push(t));
        lemma_token_text_push(ts.drop_first(), t);
        assert(p[0] == ts[0]);
        let head = match ts[0] {
            TokenV::Name { value, .. } => value,
            x => seq![terminal_char(x)],
        };
        assert(token_text(p) == head + token_text(p.drop_first()));
        assert(token_text(ts) == head + token_text(ts.drop_first()));
        assert(head + (token_text(ts.drop_first()) + token_text(one)) =~= (head + token_text(ts.drop_first()))
            + token_text(one));
    }
}

/// Scanning text without a backslash keeps every character: the text of the
/// tokens, after what came before, is the pending name and the rest of the
/// text.
proof fn lemma_scan_keeps_text(chars: Seq<char>, i: int, tokens: Seq<TokenV>, name: Seq<char>, is_wildcard: bool)
    requires
        0 <= i <= chars.len(),
        forall|j: int| 0 <= j < chars.len() ==> chars[j] != ESCAPE_CHAR,
    ensures
        token_text(scan_from(chars, i, tokens, name, is_wildcard)) == token_text(tokens) + name + chars.subrange(
            i,
            chars.len() as int,
        ),
    decreases chars.len() - i,
{
    let rest = chars.subrange(i, chars.len() as int);
    let flushed = flush_name(tokens, name, is_wildcard);
    let tok = TokenV::Name { value: name, is_wildcard };
    assert(token_text(seq![tok]) =~= name) by {
        let one = seq![tok];
        assert(one[0] == tok);
        assert(one.drop_first() =~= Seq::<TokenV>::empty());
        assert(token_text(one.drop_first()) == Seq::<char>::empty());
        assert(token_text(one) == name + token_text(one.drop_first()));
        assert(name + Seq::<char>::empty() =~= name);
    }
    lemma_token_text_push(tokens, tok);
    assert(token_text(flushed) == token_text(tokens) + name) by {
        if name.len() == 0 {
            assert(token_text(tokens) + name =~= token_text(tokens));
        }
    }
    if i >= chars.len() {
        assert(rest =~= Seq::<char>::empty());
        assert(token_text(tokens) + name + rest =~= token_text(tokens) + name);
    } else {
        let c = chars[i];
        assert(c != ESCAPE_CHAR);
        assert(rest =~= seq![c] + chars.subrange(i + 1, chars.len() as int));
        if spec_is_terminal(c) {
            let t = terminal_token(c);
            let tokens2 = flushed.push(t);
            lemma_token_text_push(flushed, t);
            assert(token_text(seq![t]) =~= seq![c]) by {
                let one = seq![t];
                assert(one[0] == t);
                assert(one.drop_first() =~= Seq::<TokenV>::empty());
                assert(token_text(one.drop_first()) == Seq::<char>::empty());
                assert(terminal_char(t) == c);
                assert(token_text(one) == seq![c] + token_text(one.drop_first()));
                assert(seq![c] + Seq::<char>::empty() =~= seq![c]);
            }
            lemma_scan_keeps_text(chars, i + 1, tokens2, Seq::empty(), false);
            assert(token_text(tokens2) + Seq::<char>::empty() + chars.subrange(i + 1, chars.len() as int)
                =~= token_text(tokens) + name + rest);
        } else {
            lemma_scan_keeps_text(chars, i + 1, tokens, name.push(c), c == WILDCARD_CHAR && name.len() == 0);
            assert(token_text(tokens) + name.push(c) + chars.subrange(i + 1, chars.len() as int)
                =~= token_text(tokens) + name + rest);
        }
    }
}

/// Scanning a query that holds no backslash loses nothing: its names and
/// terminals, written back out in order, give the query.
pub proof fn law_scan_keeps_the_text(text: Seq<char>)
    requires
        forall|j: int| 0 <= j < text.len() ==> text[j] != ESCAPE_CHAR,
    ensures
        token_text(spec_scan(text)) == text,
{
    lemma_scan_keeps_text(text, 0, Seq::empty(), Seq::empty(), false);
    assert(token_text(Seq::<TokenV>::empty()) + Seq::<char>::empty() + text.subrange(0, text.len() as int) =~= text);
}

/// What may follow a selector: nothing, or a `,` or `)`.
pub open spec fn ends_ok(tail: Seq<TokenV>) -> bool {
    tail.len() == 0 || tail[0] == TokenV::Comma || tail[0] == TokenV::Close
}

/// The tokens left once the terminator after a selector is consumed.
pub open spec fn after_end(tail: Seq<TokenV>) -> Seq<TokenV> {
    if tail.len() == 0 {
        tail
    } else {
        tail.drop_first()
    }
}

/// The level below a selector's name folds to the selector's entries and
/// consumes the terminator after it.
proof fn lemma_build_sub(s: SelectorV, depth: nat, tail: Seq<TokenV>)
    requires
        sel_ok(s),
        depth + sel_height(s) <= MAX_DEPTH + 1,
        ends_ok(tail),
    ensures
        spec_build(sub_tokens(s) + tail, depth, false, false) == (FrameV {
            props: sel_kids(s),
            dropped: false,
            rest: after_end(tail),
            is_array: s is Group,
            has_child: s is Child,
        }),
    decreases s, 0int,
{
    let toks = sub_tokens(s) + tail;
    match s {
        SelectorV::Leaf { .. } => {
            assert(toks =~= tail);
        },
        SelectorV::Child { child, .. } => {
            let c = *child;
            assert(toks[0] == TokenV::Slash);
            assert(toks.drop_first() =~= sel_tokens(c) + tail);
            lemma_build_sel(c, depth, Seq::empty(), tail, false, true);
            let e = Seq::<(Seq<char>, NodeV)>::empty();
            crate::keyed::lemma_key_pos(crate::keyed::keys_of(e), sel_name(c));
            assert(map_insert(e, sel_name(c), sel_node(c)) =~= seq![(sel_name(c), sel_node(c))]);
        },
        SelectorV::Group { items, .. } => {
            let inner = seq![TokenV::Close] + tail;
            assert(toks[0] == TokenV::Open);
            assert(toks.drop_first() =~= list_tokens(items) + inner);
            lemma_build_list(items, depth, Seq::empty(), inner, true);
            assert(after_end(inner) =~= tail);
            lemma_list_mask_len(Seq::empty(), items);
        },
    }
}

/// A selector at a level records its name with its node and consumes the
/// terminator after it.
proof fn lemma_build_sel(
    s: SelectorV,
    depth: nat,
    props: MaskV,
    tail: Seq<TokenV>,
    is_array: bool,
    has_child: bool,
)
    requires
        sel_ok(s),
        depth + sel_height(s) <= MAX_DEPTH,
        ends_ok(tail),
    ensures
        spec_build_loop(sel_tokens(s) + tail, depth, props, false, is_array, has_child) == if has_child {
            FrameV {
                props: map_insert(props, sel_name(s), sel_node(s)),
                dropped: false,
                rest: after_end(tail),
                is_array,
                has_child,
            }
        } else {
            spec_build_loop(
                after_end(tail),
                depth,
                map_insert(props, sel_name(s), sel_node(s)),
                false,
                is_array,
                has_child,
            )
        },
    decreases s, 1int,
{
    let n = sel_name(s);
    let toks = sel_tokens(s) + tail;
    assert(toks[0] == TokenV::Name { value: n, is_wildcard: n == seq!['*'] });
    assert(toks.drop_first() =~= sub_tokens(s) + tail);
    lemma_build_sub(s, depth + 1, tail);
    let child = spec_build(sub_tokens(s) + tail, depth + 1, false, false);
    assert(child.rest.len() < toks.len());
    lemma_list_mask_len_kids(s);
}

/// The entries below a selector are empty exactly for a leaf.
proof fn lemma_list_mask_len_kids(s: SelectorV)
    requires
        sel_ok(s),
    ensures
        sel_kids(s).len() == 0 <==> s is Leaf,
{
    match s {
        SelectorV::Group { items, .. } => lemma_list_mask_len(Seq::empty(), items),
        _ => {},
    }
}

/// A non-empty list at a level records its selectors in order and consumes
/// the terminator after it.
proof fn lemma_build_list(items: Seq<SelectorV>, depth: nat, props: MaskV, tail: Seq<TokenV>, is_array: bool)
    requires
        items.len() > 0,
        list_ok(items),
        depth + list_height(items) <= MAX_DEPTH,
        ends_ok(tail),
    ensures
        spec_build_loop(list_tokens(items) + tail, depth, props, false, is_array, false) == spec_build_loop(
            after_end(tail),
            depth,
            list_mask(props, items),
            false,
            is_array,
            false,
        ),
    decreases items, 2int,
{
    let s = items[0];
    let rest = items.drop_first();
    let p2 = map_insert(props, sel_name(s), sel_node(s));
    if items.len() == 1 {
        lemma_build_sel(s, depth, props, tail, is_array, false);
        assert(rest.len() == 0);
        assert(list_mask(p2, rest) == p2);
        assert(list_tokens(items) == sel_tokens(s));
    } else {
        let tail2 = seq![TokenV::Comma] + list_tokens(rest) + tail;
        assert(list_tokens(items) + tail =~= sel_tokens(s) + tail2);
        lemma_build_sel(s, depth, props, tail2, is_array, false);
        assert(after_end(tail2) =~= list_tokens(rest) + tail);
        lemma_build_list(rest, depth, p2, tail, is_array);
    }
}

/// Every well-formed query compiles to its direct meaning: each selector's
/// name recorded, in order, with the node its shape gives (`a` whole, `a/b`
/// with the single entry `b`, `a(b,c)` as an array with the listed entries),
/// as long as it nests at most `MAX_DEPTH` levels.
pub proof fn law_query_compiles_to_its_meaning(items: Seq<SelectorV>)
    requires
        items.len() > 0,
        list_ok(items),
        list_height(items) <= MAX_DEPTH,
    ensures
        spec_compile(query_text(items)) == Some(list_mask(Seq::empty(), items)),
{
    let ts = list_tokens(items);
    let text = query_text(items);
    lemma_list_plain(items);
    assert(token_plain_at(ts, 0));
    assert(text.len() > 0);
    assert(text.subrange(0, text.len() as int) =~= text);
    lemma_scan_text(text, 0, Seq::empty(), ts);
    assert(Seq::<TokenV>::empty() + ts =~= ts);
    assert(spec_scan(text) == ts);
    assert(ts + Seq::<TokenV>::empty() =~= ts);
    lemma_build_list(items, 0, Seq::empty(), Seq::empty(), false);
    assert(spec_parse(ts) == list_mask(Seq::empty(), items));
}

} // verus!
