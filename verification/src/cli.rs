//! The decisions of the command line front end: which arguments are accepted
//! and what is answered for the input text that was parsed.

use vstd::prelude::*;
use crate::json::Json;
use crate::{mask, spec_mask};

verus! {

/// Accepts the fields argument when it is present and non-empty; otherwise
/// answers `Fields argument missing`.
pub fn check_fields<'a>(fields: Option<&'a str>) -> (r: Result<&'a str, String>)
    ensures
        r is Ok <==> (fields matches Some(f) && f@.len() > 0),
        r matches Ok(f) ==> fields == Some(f),
        r matches Err(e) ==> e@ == "Fields argument missing"@,
{
    match fields {
        Some(f) => {
            if !f.is_empty() {
                return Ok(f);
            }
        },
        None => {},
    }
    Err(String::from_str("Fields argument missing"))
}

/// Masks the parsed input with the fields query. Input that did not parse is
/// answered with `Invalid JSON: ` followed by the parser's message.
pub fn mask_parsed(fields: &str, parsed: Result<Json, String>) -> (r: Result<Json, String>)
    ensures
        match parsed {
            Ok(v) => r matches Ok(m) && m@ == spec_mask(v@, fields@),
            Err(e) => r matches Err(msg) && msg@ == "Invalid JSON: "@ + e@,
        },
{
    match parsed {
        Ok(v) => Ok(mask(&v, fields)),
        Err(e) => Err(String::from_str("Invalid JSON: ").concat(e.as_str())),
    }
}

} // verus!
