//! Turn a fields query string into a compiled mask tree.
//!
//! The grammar:
//!
//! ```text
//!     Props ::= Prop | Prop "," Props
//!      Prop ::= Object | Array
//!    Object ::= NAME | NAME "/" Prop
//!     Array ::= NAME "(" Props ")"
//!      NAME ::= ? all visible characters except "\" ? | EscapeSeq | Wildcard
//!  Wildcard ::= "*"
//! EscapeSeq ::= "\" ? all visible characters ?
//! ```
//!
//! Compilation runs in two passes. `scan` splits the text into name and
//! terminal tokens. `parse` folds those tokens into a nested map. The map
//! preserves the order keys appear in the query, which decides output key order
//! at filter time. The parser is lenient: malformed input does not error.

use std::collections::VecDeque;
use vstd::prelude::*;
use crate::keyed::{keys_of, map_insert};
use crate::mask::{
    lemma_insert_wf, mask_depth, mask_wf, node_depth, node_wf, CompiledMask, MaskV, Node, NodeV,
};
use crate::scanner::{scan, spec_scan, tokens_view, Token, TokenV};

verus! {

/// Maximum nesting depth the parser descends into.
///
/// At this depth the parser stops descending and ignores the deeper nesting,
/// so a crafted query cannot exhaust the stack.
pub const MAX_DEPTH: usize = 128;

/// What is left of a token queue after the tail of a selector, and the
/// terminal that ended it (a `,` or `)` at nesting level zero), if any.
pub open spec fn spec_selector_tail(toks: Seq<TokenV>, group_depth: nat) -> (Option<TokenV>, Seq<TokenV>)
    decreases toks.len(),
{
    if toks.len() == 0 {
        (None, toks)
    } else {
        let rest = toks.drop_first();
        match toks[0] {
            TokenV::Open => spec_selector_tail(rest, group_depth + 1),
            TokenV::Close => if group_depth == 0 {
                (Some(TokenV::Close), rest)
            } else {
                spec_selector_tail(rest, (group_depth - 1) as nat)
            },
            TokenV::Comma => if group_depth == 0 {
                (Some(TokenV::Comma), rest)
            } else {
                spec_selector_tail(rest, group_depth)
            },
            _ => spec_selector_tail(rest, group_depth),
        }
    }
}

/// The outcome of folding a token queue into one level of the tree.
pub struct FrameV {
    /// The entries of this level.
    pub props: MaskV,
    /// Whether a selector of this level was cut off at the depth cap.
    pub dropped: bool,
    /// The tokens left in the queue.
    pub rest: Seq<TokenV>,
    /// The owner of this level was followed by `(`.
    pub is_array: bool,
    /// The owner of this level was followed by `/`.
    pub has_child: bool,
}

/// The level folded from `toks` at `depth`, starting with no entries and with
/// the owner's flags `is_array` and `has_child`.
pub open spec fn spec_build(toks: Seq<TokenV>, depth: nat, is_array: bool, has_child: bool) -> FrameV
    decreases toks.len(), 1int,
{
    spec_build_loop(toks, depth, Seq::empty(), false, is_array, has_child)
}

/// Folds the token queue `toks` into the level `props`.
///
/// A name at the depth cap skips its selector and marks the level as cut; the
/// level then goes on with what follows, unless the name was the single child
/// after a `/`, which ends the level. A `/` makes the next name the single
/// child of the owner; a `(` marks the owner as an array; a `,` or `)` ends
/// the level. A name below the cap folds its
/// own level from the following tokens and is recorded with it, unless that
/// level was cut.
pub open spec fn spec_build_loop(
    toks: Seq<TokenV>,
    depth: nat,
    props: MaskV,
    dropped: bool,
    is_array: bool,
    has_child: bool,
) -> FrameV
    decreases toks.len(), 0int,
{
    if toks.len() == 0 {
        FrameV { props, dropped: dropped && props.len() == 0, rest: toks, is_array, has_child }
    } else {
        let rest = toks.drop_first();
        match toks[0] {
            TokenV::Name { value, is_wildcard } => {
                if depth >= MAX_DEPTH {
                    let after = spec_selector_tail(rest, 0).1;
                    if has_child || after.len() >= toks.len() {
                        FrameV { props, dropped: true, rest: after, is_array, has_child }
                    } else {
                        spec_build_loop(after, depth, props, true, is_array, has_child)
                    }
                } else {
                    let child = spec_build(rest, depth + 1, false, false);
                    if child.rest.len() >= toks.len() {
                        FrameV { props, dropped: true, rest: child.rest, is_array, has_child }
                    } else if child.dropped {
                        if has_child {
                            FrameV { props, dropped: true, rest: child.rest, is_array, has_child }
                        } else {
                            spec_build_loop(child.rest, depth, props, true, is_array, has_child)
                        }
                    } else {
                        let node = NodeV {
                            is_array: child.is_array,
                            is_wildcard,
                            properties: if child.props.len() == 0 {
                                None
                            } else {
                                Some(child.props)
                            },
                        };
                        let props2 = map_insert(props, value, node);
                        if has_child {
                            FrameV { props: props2, dropped: false, rest: child.rest, is_array, has_child }
                        } else {
                            spec_build_loop(child.rest, depth, props2, dropped, is_array, has_child)
                        }
                    }
                }
            },
            TokenV::Comma => FrameV { props, dropped: dropped && props.len() == 0, rest, is_array, has_child },
            TokenV::Close => FrameV { props, dropped: dropped && props.len() == 0, rest, is_array, has_child },
            TokenV::Open => spec_build_loop(rest, depth, props, dropped, true, has_child),
            TokenV::Slash => spec_build_loop(rest, depth, props, dropped, is_array, true),
        }
    }
}

/// The mask tree of a token sequence.
pub open spec fn spec_parse(toks: Seq<TokenV>) -> MaskV {
    spec_build(toks, 0, false, false).props
}

/// The compiled form of a query: none for the empty query.
pub open spec fn spec_compile(query: Seq<char>) -> Option<MaskV> {
    if query.len() == 0 {
        None
    } else {
        Some(spec_parse(spec_scan(query)))
    }
}

/// Skipping a selector tail never adds tokens.
pub proof fn lemma_selector_tail_len(toks: Seq<TokenV>, group_depth: nat)
    ensures
        spec_selector_tail(toks, group_depth).1.len() <= toks.len(),
    decreases toks.len(),
{
    if toks.len() > 0 {
        let rest = toks.drop_first();
        match toks[0] {
            TokenV::Open => lemma_selector_tail_len(rest, group_depth + 1),
            TokenV::Close => if group_depth != 0 {
                lemma_selector_tail_len(rest, (group_depth - 1) as nat)
            },
            _ => lemma_selector_tail_len(rest, group_depth),
        }
    }
}

/// Folding a level never adds tokens.
pub proof fn lemma_build_len(toks: Seq<TokenV>, depth: nat, is_array: bool, has_child: bool)
    ensures
        spec_build(toks, depth, is_array, has_child).rest.len() <= toks.len(),
    decreases toks.len(), 1int,
{
    lemma_build_loop_len(toks, depth, Seq::empty(), false, is_array, has_child);
}

/// Folding a level never adds tokens.
pub proof fn lemma_build_loop_len(
    toks: Seq<TokenV>,
    depth: nat,
    props: MaskV,
    dropped: bool,
    is_array: bool,
    has_child: bool,
)
    ensures
        spec_build_loop(toks, depth, props, dropped, is_array, has_child).rest.len() <= toks.len(),
    decreases toks.len(), 0int,
{
    if toks.len() > 0 {
        let rest = toks.drop_first();
        match toks[0] {
            TokenV::Name { value, is_wildcard } => {
                if depth >= MAX_DEPTH {
                    lemma_selector_tail_len(rest, 0);
                    let after = spec_selector_tail(rest, 0).1;
                    if !(has_child || after.len() >= toks.len()) {
                        lemma_build_loop_len(after, depth, props, true, is_array, has_child);
                    }
                } else {
                    lemma_build_len(rest, depth + 1, false, false);
                    let child = spec_build(rest, depth + 1, false, false);
                    if child.rest.len() < toks.len() {
                        let node = NodeV {
                            is_array: child.is_array,
                            is_wildcard,
                            properties: if child.props.len() == 0 {
                                None
                            } else {
                                Some(child.props)
                            },
                        };
                        lemma_build_loop_len(child.rest, depth, props, true, is_array, has_child);
                        lemma_build_loop_len(
                            child.rest,
                            depth,
                            map_insert(props, value, node),
                            dropped,
                            is_array,
                            has_child,
                        );
                    }
                }
            },
            TokenV::Open => lemma_build_loop_len(rest, depth, props, dropped, true, has_child),
            TokenV::Slash => lemma_build_loop_len(rest, depth, props, dropped, is_array, true),
            _ => {},
        }
    }
}

/// The largest depth that a level folded at `depth` may reach.
pub open spec fn depth_budget(depth: nat) -> nat {
    if depth >= MAX_DEPTH {
        0
    } else {
        (MAX_DEPTH - depth) as nat
    }
}

/// A folded level is well formed and stays within the depth budget.
pub proof fn lemma_build_wf(toks: Seq<TokenV>, depth: nat, is_array: bool, has_child: bool)
    ensures
        mask_wf(spec_build(toks, depth, is_array, has_child).props),
        mask_depth(spec_build(toks, depth, is_array, has_child).props) <= depth_budget(depth),
    decreases toks.len(), 1int,
{
    let empty = Seq::<(Seq<char>, NodeV)>::empty();
    assert(keys_of(empty) =~= Seq::<Seq<char>>::empty());
    lemma_build_loop_wf(toks, depth, empty, false, is_array, has_child);
}

/// Folding keeps a level well formed and within the depth budget.
pub proof fn lemma_build_loop_wf(
    toks: Seq<TokenV>,
    depth: nat,
    props: MaskV,
    dropped: bool,
    is_array: bool,
    has_child: bool,
)
    requires
        mask_wf(props),
        mask_depth(props) <= depth_budget(depth),
    ensures
        mask_wf(spec_build_loop(toks, depth, props, dropped, is_array, has_child).props),
        mask_depth(spec_build_loop(toks, depth, props, dropped, is_array, has_child).props) <= depth_budget(depth),
    decreases toks.len(), 0int,
{
    if toks.len() > 0 {
        let rest = toks.drop_first();
        match toks[0] {
            TokenV::Name { value, is_wildcard } => {
                if depth >= MAX_DEPTH {
                    let after = spec_selector_tail(rest, 0).1;
                    if !(has_child || after.len() >= toks.len()) {
                        lemma_build_loop_wf(after, depth, props, true, is_array, has_child);
                    }
                } else {
                    lemma_build_wf(rest, depth + 1, false, false);
                    let child = spec_build(rest, depth + 1, false, false);
                    if child.rest.len() < toks.len() {
                        let node = NodeV {
                            is_array: child.is_array,
                            is_wildcard,
                            properties: if child.props.len() == 0 {
                                None
                            } else {
                                Some(child.props)
                            },
                        };
                        lemma_build_loop_wf(child.rest, depth, props, true, is_array, has_child);
                        if !child.dropped {
                            assert(node_wf(node));
                            assert(node_depth(node) <= depth_budget(depth));
                            lemma_insert_wf(props, value, node, depth_budget(depth));
                            lemma_build_loop_wf(
                                child.rest,
                                depth,
                                map_insert(props, value, node),
                                dropped,
                                is_array,
                                has_child,
                            );
                        }
                    }
                }
            },
            TokenV::Open => lemma_build_loop_wf(rest, depth, props, dropped, true, has_child),
            TokenV::Slash => lemma_build_loop_wf(rest, depth, props, dropped, is_array, true),
            _ => {},
        }
    }
}

/// The result of folding one level: its entries and whether a selector of the
/// level was cut off at the depth cap.
pub struct BuildResult {
    pub props: CompiledMask,
    pub dropped_at_cap: bool,
}

impl BuildResult {
    /// A level that was not cut off.
    pub fn new(props: CompiledMask) -> (r: BuildResult)
        ensures
            r.props@ == props@,
            !r.dropped_at_cap,
    {
        BuildResult { props, dropped_at_cap: false }
    }

    /// A level that counts as cut off only when it was and it kept no entries.
    pub fn from_parts(props: CompiledMask, dropped_at_cap: bool) -> (r: BuildResult)
        ensures
            r.props@ == props@,
            r.dropped_at_cap == (dropped_at_cap && props@.len() == 0),
    {
        let empty = props.is_empty();
        BuildResult { dropped_at_cap: dropped_at_cap && empty, props }
    }
}

/// Skips the rest of a selector: tokens up to and including the `,` or `)`
/// that ends it at nesting level zero, which is returned, or up to the end of
/// the queue.
pub fn consume_selector_tail(tokens: &mut VecDeque<Token>) -> (r: Option<Token>)
    ensures
        ({
            let (boundary, rest) = spec_selector_tail(tokens_view(old(tokens)@), 0);
            &&& tokens_view(final(tokens)@) == rest
            &&& match r {
                Some(t) => boundary == Some(t@),
                None => boundary is None,
            }
        }),
{
    let ghost start = tokens_view(tokens@);
    let total = tokens.len();
    let mut group_depth: usize = 0;
    loop
        invariant
            spec_selector_tail(start, 0) == spec_selector_tail(tokens_view(tokens@), group_depth as nat),
            group_depth + tokens@.len() <= start.len(),
            start.len() == old(tokens)@.len(),
            start.len() == total,
            start == tokens_view(old(tokens)@),
        decreases tokens@.len(),
    {
        let ghost before = tokens@;
        match tokens.pop_front() {
            None => {
                return None;
            },
            Some(token) => {
                proof {
                    assert(tokens_view(tokens@) =~= tokens_view(before).drop_first());
                }
                match token {
                    Token::Open => {
                        group_depth += 1;
                    },
                    Token::Close => {
                        if group_depth == 0 {
                            return Some(Token::Close);
                        }
                        group_depth -= 1;
                    },
                    Token::Comma => {
                        if group_depth == 0 {
                            return Some(Token::Comma);
                        }
                    },
                    _ => {},
                }
            },
        }
    }
}

/// Fold tokens into a mask tree.
///
/// The token list is a shared queue consumed from the front. `parent_is_array`
/// and `parent_has_child` are the parent node's mutable flags. A `/` sets
/// `has_child` so the next name becomes the parent's single child. A `(` flips
/// the parent to array type. A `,` or `)` ends the current group. A name at
/// `MAX_DEPTH` is skipped with its selector; the selectors that lead to it are
/// dropped, and reading goes on with what follows them.
fn build_tree(
    tokens: &mut VecDeque<Token>,
    parent_is_array: &mut bool,
    parent_has_child: &mut bool,
    depth: usize,
) -> (r: BuildResult)
    ensures
        ({
            let f = spec_build(
                tokens_view(old(tokens)@),
                depth as nat,
                *old(parent_is_array),
                *old(parent_has_child),
            );
            &&& r.props@ == f.props
            &&& r.dropped_at_cap == f.dropped
            &&& tokens_view(final(tokens)@) == f.rest
            &&& *final(parent_is_array) == f.is_array
            &&& *final(parent_has_child) == f.has_child
        }),
    decreases old(tokens)@.len(),
{
    let ghost start = tokens_view(tokens@);
    let ghost goal = spec_build(start, depth as nat, *parent_is_array, *parent_has_child);
    let mut props = CompiledMask::new();
    let mut dropped_at_cap = false;
    loop
        invariant
            goal == spec_build_loop(
                tokens_view(tokens@),
                depth as nat,
                props@,
                dropped_at_cap,
                *parent_is_array,
                *parent_has_child,
            ),
            tokens@.len() <= start.len(),
            start == tokens_view(old(tokens)@),
            goal == spec_build(start, depth as nat, *old(parent_is_array), *old(parent_has_child)),
        decreases tokens@.len(),
    {
        let ghost before = tokens_view(tokens@);
        match tokens.pop_front() {
            None => {
                return BuildResult::from_parts(props, dropped_at_cap);
            },
            Some(token) => {
                proof {
                    assert(tokens_view(tokens@) =~= before.drop_first());
                }
                match token {
                    Token::Name { value, is_wildcard } => {
                        if depth >= MAX_DEPTH {
                            proof {
                                lemma_selector_tail_len(tokens_view(tokens@), 0);
                            }
                            consume_selector_tail(tokens);
                            dropped_at_cap = true;
                            if *parent_has_child {
                                return BuildResult { props, dropped_at_cap: true };
                            }
                            continue;
                        }
                        let mut child_is_array = false;
                        let mut child_has_child = false;
                        proof {
                            lemma_build_len(tokens_view(tokens@), (depth + 1) as nat, false, false);
                        }
                        let child = build_tree(tokens, &mut child_is_array, &mut child_has_child, depth + 1);
                        if child.dropped_at_cap {
                            if *parent_has_child {
                                return BuildResult { props, dropped_at_cap: true };
                            }
                            dropped_at_cap = true;
                            continue;
                        }
                        let properties = if child.props.is_empty() {
                            None
                        } else {
                            Some(child.props)
                        };
                        add_token(value, is_wildcard, child_is_array, properties, &mut props);
                        if *parent_has_child {
                            return BuildResult::new(props);
                        }
                    },
                    Token::Comma => {
                        return BuildResult::from_parts(props, dropped_at_cap);
                    },
                    Token::Open => {
                        *parent_is_array = true;
                    },
                    Token::Close => {
                        return BuildResult::from_parts(props, dropped_at_cap);
                    },
                    Token::Slash => {
                        *parent_has_child = true;
                    },
                }
            },
        }
    }
}

/// Record a name into the props map.
///
/// A bare `*` becomes a wildcard node. Escaped stars are literal key text.
/// Empty properties are dropped.
fn add_token(
    value: String,
    is_wildcard: bool,
    is_array: bool,
    properties: Option<CompiledMask>,
    props: &mut CompiledMask,
)
    ensures
        final(props)@ == map_insert(
            old(props)@,
            value@,
            NodeV {
                is_array,
                is_wildcard,
                properties: match properties {
                    Some(m) => if m@.len() == 0 {
                        None
                    } else {
                        Some(m@)
                    },
                    None => None,
                },
            },
        ),
{
    let properties = match properties {
        Some(m) => if m.is_empty() {
            None
        } else {
            Some(m)
        },
        None => None,
    };
    props.insert(value, Node { is_array, is_wildcard, properties });
}

/// Parse a token vector into a mask tree.
fn parse(tokens: Vec<Token>) -> (r: CompiledMask)
    ensures
        r@ == spec_parse(tokens_view(tokens@)),
{
    let ghost all = tokens@;
    let mut tokens = tokens;
    let mut queue: VecDeque<Token> = VecDeque::new();
    while tokens.len() > 0
        invariant
            tokens@ + queue@ == all,
        decreases tokens.len(),
    {
        let ghost t_before = tokens@;
        let ghost q_before = queue@;
        let t = tokens.pop().unwrap();
        queue.push_front(t);
        proof {
            assert(tokens@ + queue@ =~= t_before + q_before);
        }
    }
    proof {
        assert(queue@ =~= all);
    }
    let mut root_is_array = false;
    let mut root_has_child = false;
    build_tree(&mut queue, &mut root_is_array, &mut root_has_child, 0).props
}

/// Compile a fields query into a mask tree.
///
/// An empty string returns `None`, which the filter treats as a passthrough.
/// Malformed input does not error: the parser is lenient and returns whatever
/// the recursive walk yields. Nesting deeper than `MAX_DEPTH` is ignored.
pub fn compile(text: &str) -> (r: Option<CompiledMask>)
    ensures
        match r {
            Some(m) => spec_compile(text@) == Some(m@),
            None => spec_compile(text@) is None,
        },
        r is None <==> text@.len() == 0,
{
    if text.is_empty() {
        return None;
    }
    Some(parse(scan(text)))
}

} // verus!
