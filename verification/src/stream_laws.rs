//! What the piped-stream path does, stated over its input: which escape
//! sequences colour stripping removes, and when a stream is replaced.
use vstd::prelude::*;

use crate::ansi::{escape_len, is_letter, is_param, params_len, spec_strip_ansi};
use crate::stdin::spec_condense_stdin;
use crate::tokens::spec_estimate_tokens;
use crate::unified_spec::spec_condense;
use vstd::utf8::{decode_utf8, valid_utf8};

verus! {

proof fn lemma_params_len(p: Seq<char>, rest: Seq<char>)
    requires
        forall|i: int| 0 <= i < p.len() ==> is_param(#[trigger] p[i]),
        rest.len() > 0 ==> !is_param(rest[0]),
    ensures
        params_len(p + rest) == p.len(),
    decreases p.len(),
{
    if p.len() == 0 {
        assert(p + rest =~= rest);
    } else {
        assert((p + rest).skip(1) =~= p.skip(1) + rest);
        assert((p + rest)[0] == p[0]);
        lemma_params_len(p.skip(1), rest);
    }
}

/// Text without an escape character comes through colour stripping as it is.
pub proof fn law_plain_text_is_untouched(s: Seq<char>)
    requires
        forall|i: int| 0 <= i < s.len() ==> s[i] != '\u{1b}',
    ensures
        spec_strip_ansi(s) == s,
    decreases s.len(),
{
    if s.len() > 0 {
        assert forall|i: int| 0 <= i < s.skip(1).len() implies s.skip(1)[i] != '\u{1b}' by {
            assert(s.skip(1)[i] == s[i + 1]);
        }
        law_plain_text_is_untouched(s.skip(1));
        assert(seq![s[0]] + s.skip(1) =~= s);
    } else {
        assert(s =~= Seq::<char>::empty());
    }
}

/// Colour stripping removes a whole `ESC [ params letter` sequence, and
/// keeps any other first character.
pub proof fn law_escape_sequences_are_removed(p: Seq<char>, letter: char, rest: Seq<char>, c: char)
    requires
        forall|i: int| 0 <= i < p.len() ==> is_param(#[trigger] p[i]),
        is_letter(letter),
        c != '\u{1b}',
    ensures
        spec_strip_ansi(seq!['\u{1b}', '['] + p + seq![letter] + rest) == spec_strip_ansi(rest),
        spec_strip_ansi(seq![c] + rest) == seq![c] + spec_strip_ansi(rest),
{
    let s = seq!['\u{1b}', '['] + p + seq![letter] + rest;
    assert(s.skip(2) =~= p + (seq![letter] + rest));
    lemma_params_len(p, seq![letter] + rest);
    assert(s[2 + p.len() as int] == letter);
    assert(escape_len(s) == 3 + p.len());
    assert(s.skip(3 + p.len() as int) =~= rest);
    let t = seq![c] + rest;
    assert(escape_len(t) == 0);
    assert(t.skip(1) =~= rest);
    assert(t[0] == c);
}

/// A piped stream is replaced exactly when its bytes are UTF-8, its text
/// with colour codes stripped condenses, and the condensed text costs no
/// more tokens than the original text; then it is replaced by that
/// condensed text.
pub proof fn law_stream_replaced_exactly_when_cheaper(bytes: Seq<u8>)
    ensures
        spec_condense_stdin(bytes) is Some <==> valid_utf8(bytes)
            && spec_condense(spec_strip_ansi(decode_utf8(bytes))) is Some
            && spec_estimate_tokens(spec_condense(spec_strip_ansi(decode_utf8(bytes))).unwrap())
                <= spec_estimate_tokens(decode_utf8(bytes)),
        spec_condense_stdin(bytes) is Some ==> spec_condense_stdin(bytes)
            == spec_condense(spec_strip_ansi(decode_utf8(bytes))),
{
}

} // verus!
