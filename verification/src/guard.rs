//! Never-worse output guard: RTK never emits more tokens than the raw command.
//!
//! One caller is allowed past it. `rtk diff` renders a short message for a
//! difference `str::lines()` cannot show, where the raw fallback is two blobs
//! that look identical and answers the question worse at any size.
//! `INVISIBLE_DIFF_TOKEN_ALLOWANCE` bounds what the message itself may cost
//! (`render::invisible_or_raw` applies it). The `file1 -> file2` header it
//! opens with is charged to the caller's own arguments rather than to the
//! allowance, so the printed overage above raw is the allowance plus the
//! length of the two paths.
use vstd::prelude::*;

use crate::tokens::{estimate_tokens, spec_estimate_tokens};

verus! {

/// Tokens `rtk diff` may spend above raw to name a difference that a line-based
/// diff cannot render. Past it the raw text is short enough to read directly.
///
/// Measured on what the message states, not on the `file1 -> file2` header the
/// caller's own arguments determine: an absolute path pair would otherwise eat
/// the whole allowance and drop the diagnostic for reasons unrelated to it.
pub const INVISIBLE_DIFF_TOKEN_ALLOWANCE: usize = 16;

/// `filtered`, or `raw` when `filtered` would cost more tokens.
pub open spec fn spec_never_worse(raw: Seq<char>, filtered: Seq<char>) -> Seq<char> {
    if spec_estimate_tokens(filtered) > spec_estimate_tokens(raw) {
        raw
    } else {
        filtered
    }
}

/// Returns `filtered`, or `raw` when `filtered` would emit more tokens.
pub fn never_worse<'a>(raw: &'a str, filtered: &'a str) -> (r: &'a str)
    ensures
        r@ == spec_never_worse(raw@, filtered@),
        spec_estimate_tokens(r@) <= spec_estimate_tokens(raw@),
{
    if estimate_tokens(filtered) > estimate_tokens(raw) {
        raw
    } else {
        filtered
    }
}

/// Whatever the guard is handed, what it lets through is one of its two
/// inputs and never costs more tokens than the raw output.
pub proof fn law_never_worse_caps_at_raw(raw: Seq<char>, filtered: Seq<char>)
    ensures
        spec_never_worse(raw, filtered) == raw || spec_never_worse(raw, filtered) == filtered,
        spec_estimate_tokens(spec_never_worse(raw, filtered)) <= spec_estimate_tokens(raw),
        spec_estimate_tokens(filtered) <= spec_estimate_tokens(raw) ==> spec_never_worse(raw, filtered) == filtered,
{
}

} // verus!
