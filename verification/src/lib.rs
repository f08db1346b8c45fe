//! Select parts of a JSON value with a fields query and drop the rest.
//!
//! This crate implements the Google APIs partial-response `fields` language.
//! You write a small query like `url,object(content,attachments/url)` and get
//! back a value of the same shape with only the selected branches kept.
//!
//! The query keeps structure. It prunes branches you did not ask for and leaves
//! everything else in place. It does not flatten matches into a list the way a
//! path query would.
//!
//! # Query language
//!
//! - `a,b` selects keys `a` and `b`.
//! - `a/b` selects key `b` inside `a`.
//! - `a(b,c)` selects `b` and `c` inside each element of array `a`.
//! - `*` is a wildcard over every key of the current object.
//! - `\` escapes the next character, so `a\/b` selects the literal key `a/b`.
//!
//! # Entry points
//!
//! - `mask` compiles the query and filters in one call. A dropped or falsy
//!   result becomes `Json::Null`.
//! - `compile` turns a query into a reusable `CompiledMask`.
//! - `filter` applies a compiled mask to a value. It returns `Option<Json>` so
//!   a dropped key stays distinct from a kept null.

pub mod cli;
pub mod compiler;
pub mod filter;
pub mod grammar;
pub mod json;
pub mod keyed;
pub mod kept;
pub mod laws;
pub mod mask;
pub mod repeat;
pub mod scanner;

pub use crate::compiler::compile;
pub use crate::filter::{filter, select};
pub use crate::json::{Json, JsonNumber, JsonV};
pub use crate::mask::{CompiledMask, Node};

use vstd::prelude::*;
use crate::compiler::spec_compile;
use crate::filter::{is_falsy, spec_filter, spec_is_falsy};

verus! {

/// The result of `mask`: the filtered value, or null when it was dropped or
/// is falsy.
pub open spec fn spec_mask(obj: JsonV, query: Seq<char>) -> JsonV {
    match spec_filter(obj, spec_compile(query)) {
        Some(v) => if spec_is_falsy(v) {
            JsonV::Null
        } else {
            v
        },
        None => JsonV::Null,
    }
}

/// Compile `mask_str` and filter `obj` in one call.
///
/// An empty mask returns `obj` unchanged. When the result is dropped or falsy,
/// this returns `Json::Null`. Falsy means null, false, numeric zero, or the
/// empty string. An empty object or array is truthy and is returned as-is.
pub fn mask(obj: &Json, mask_str: &str) -> (r: Json)
    ensures
        r@ == spec_mask(obj@, mask_str@),
{
    let compiled = compile(mask_str);
    match filter(obj, compiled.as_ref()) {
        Some(value) => {
            if !is_falsy(&value) {
                value
            } else {
                Json::Null
            }
        },
        None => Json::Null,
    }
}

} // verus!
