//! Optional custom commands: a prefix typed in the launcher runs a shell command.
use vstd::prelude::*;
use vstd::string::*;

use crate::text::{
    chars_of, has_prefix, is_whitespace, is_ws, lowercase, same_chars, starts_with, string_of_range,
    to_lower, trim, trim_bounds,
};

verus! {

/// One custom command from `extras.toml`.
#[derive(Clone, Debug)]
pub struct ExtraCommand {
    pub prefix: String,
    pub label: String,
    /// Shell command run on activation (the `exec` key of `extras.toml`).
    pub command: String,
}

/// The query, trimmed and lowercased, equals the lowercased prefix or starts with
/// it followed by a whitespace character; empty queries and prefixes never match.
pub open spec fn prefix_matches(query: Seq<char>, prefix: Seq<char>) -> bool {
    let q = trim(query);
    let ql = lowercase(q);
    let pl = lowercase(prefix);
    q.len() > 0 && prefix.len() > 0 && (ql == pl || (starts_with(ql, pl) && ql.len() > pl.len()
        && is_ws(ql[pl.len() as int])))
}

/// True when query equals prefix or starts with `prefix` + whitespace/end.
pub fn matches(query: &str, prefix: &str) -> (r: bool)
    ensures
        r == prefix_matches(query@, prefix@),
{
    let qv = chars_of(query);
    let (a, b) = trim_bounds(qv.as_slice());
    if a == b || prefix.unicode_len() == 0 {
        return false;
    }
    let q = string_of_range(qv.as_slice(), a, b);
    let ql = to_lower(q.as_str());
    let pl = to_lower(prefix);
    let qlv = chars_of(ql.as_str());
    let plv = chars_of(pl.as_str());
    if same_chars(qlv.as_slice(), plv.as_slice()) {
        return true;
    }
    has_prefix(qlv.as_slice(), plv.as_slice()) && qlv.len() > plv.len() && is_whitespace(
        qlv[plv.len()],
    )
}

} // verus!
