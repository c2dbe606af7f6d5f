//! The piped-stream filter: decode, strip ANSI, parse strictly, guard.
use vstd::prelude::*;

use crate::ansi::{spec_strip_ansi, strip_ansi};
use crate::tokens::{estimate_tokens, spec_estimate_tokens};
use crate::unified::condense_unified_diff_strict;
use crate::unified_spec::spec_condense;
use vstd::string::StringSliceAdditionalSpecFns;
use vstd::utf8::{decode_utf8, valid_utf8};

verus! {

broadcast use vstd::string::group_string_axioms;

/// `std::str::from_utf8`: the text whose UTF-8 encoding is `bytes`, when
/// `bytes` is valid UTF-8. Trusted: the claim is that std accepts exactly
/// the byte sequences vstd's `valid_utf8` describes, and returns the string
/// over those same bytes.
#[verifier::external_body]
fn utf8_str(bytes: &[u8]) -> (r: Option<&str>)
    ensures
        r is Some <==> valid_utf8(bytes@),
        r matches Some(s) ==> s.spec_bytes() == bytes@,
{
    std::str::from_utf8(bytes).ok()
}

/// What a piped stream condenses to: `None` means the caller must emit its
/// exact input bytes.
pub open spec fn spec_condense_stdin(bytes: Seq<u8>) -> Option<Seq<char>> {
    if !valid_utf8(bytes) {
        None
    } else {
        let input = decode_utf8(bytes);
        match spec_condense(spec_strip_ansi(input)) {
            None => None,
            Some(c) => if spec_estimate_tokens(c) <= spec_estimate_tokens(input) {
                Some(c)
            } else {
                None
            },
        }
    }
}

/// Filter a piped stream: strip ANSI (a `git diff --color` stream otherwise
/// matches nothing and condenses to silence), parse strictly, and apply the
/// never-worse guard against the original input. `None` means the caller
/// must emit its exact input bytes — including for non-UTF-8 input, where
/// filtering would rewrite the user's content bytes to U+FFFD (byte fidelity
/// outranks savings here).
pub fn condense_stdin(bytes: &[u8]) -> (r: Option<String>)
    ensures
        match r {
            Some(c) => spec_condense_stdin(bytes@) == Some(c@),
            None => spec_condense_stdin(bytes@) is None,
        },
{
    let input = match utf8_str(bytes) {
        Some(s) => s,
        None => {
            return None;
        },
    };
    proof {
        vstd::utf8::encode_utf8_decode_utf8(input@);
    }
    assert(input@ == decode_utf8(bytes@));
    let cleaned = strip_ansi(input);
    let condensed = match condense_unified_diff_strict(cleaned.as_str()) {
        Some(c) => c,
        None => {
            return None;
        },
    };
    // The never_worse contract, against what the user would otherwise get —
    // the original input, not the ANSI-stripped intermediate.
    if estimate_tokens(condensed.as_str()) <= estimate_tokens(input) {
        Some(condensed)
    } else {
        None
    }
}

/// A piped stream is only ever replaced by something no more expensive
/// than the stream itself; everything else passes through untouched.
pub proof fn law_condensed_stream_never_costs_more(bytes: Seq<u8>)
    ensures
        spec_condense_stdin(bytes) matches Some(c) ==> valid_utf8(bytes) && spec_estimate_tokens(c)
            <= spec_estimate_tokens(decode_utf8(bytes)),
{
}

} // verus!
