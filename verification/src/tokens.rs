use vstd::prelude::*;

verus! {

/// Number of UTF-8 bytes that encode `text`.
pub open spec fn byte_len(text: Seq<char>) -> nat {
    vstd::utf8::encode_utf8(text).len()
}

/// Token estimate: one token per four bytes, rounded up.
pub open spec fn spec_estimate_tokens(text: Seq<char>) -> nat {
    (byte_len(text) + 3) / 4
}

/// Estimates how many tokens `text` costs: its UTF-8 byte length divided
/// by four, rounded up.
pub fn estimate_tokens(text: &str) -> (n: usize)
    ensures
        n == spec_estimate_tokens(text@),
{
    let len = text.as_bytes().len();
    let q = len / 4;
    if len % 4 == 0 {
        q
    } else {
        q + 1
    }
}

} // verus!
