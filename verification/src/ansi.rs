//! Removal of ANSI SGR/CSI escape sequences (`ESC [ params letter`).
use vstd::prelude::*;

use crate::text::chars_to_string;
use crate::text::str_chars;

verus! {

/// A parameter character of an escape sequence: a digit or `;`.
pub open spec fn is_param(c: char) -> bool {
    ('0' <= c && c <= '9') || c == ';'
}

/// An ASCII letter, which ends an escape sequence.
pub open spec fn is_letter(c: char) -> bool {
    ('a' <= c && c <= 'z') || ('A' <= c && c <= 'Z')
}

/// How many parameter characters `s` starts with.
pub open spec fn params_len(s: Seq<char>) -> nat
    decreases s.len(),
{
    if s.len() > 0 && is_param(s[0]) {
        1 + params_len(s.skip(1))
    } else {
        0
    }
}

/// The length of the escape sequence `s` starts with (`ESC`, `[`, any
/// number of digits and `;`, one letter), or 0 when it starts with none.
pub open spec fn escape_len(s: Seq<char>) -> nat {
    if s.len() >= 2 && s[0] == '\u{1b}' && s[1] == '[' {
        let k = params_len(s.skip(2));
        if 2 + k < s.len() && is_letter(s[2 + k as int]) {
            3 + k
        } else {
            0
        }
    } else {
        0
    }
}

/// `s` with every escape sequence removed, scanning left to right.
pub open spec fn spec_strip_ansi(s: Seq<char>) -> Seq<char>
    decreases s.len(),
{
    if s.len() == 0 {
        Seq::empty()
    } else if escape_len(s) > 0 {
        spec_strip_ansi(s.skip(escape_len(s) as int))
    } else {
        seq![s[0]] + spec_strip_ansi(s.skip(1))
    }
}

/// The length of the escape sequence at `s[i..]`.
fn escape_len_at(s: &[char], i: usize) -> (n: usize)
    requires
        i <= s@.len(),
    ensures
        n == escape_len(s@.skip(i as int)),
        i + n <= s@.len(),
{
    let len = s.len();
    let ghost t = s@.skip(i as int);
    if !(len - i >= 2 && s[i] == '\u{1b}' && s[i + 1] == '[') {
        return 0;
    }
    let mut j = i + 2;
    assert(t.skip(2) == s@.skip(j as int));
    while j < len && (('0' <= s[j] && s[j] <= '9') || s[j] == ';')
        invariant
            i + 2 <= j <= len,
            len == s@.len(),
            t == s@.skip(i as int),
            params_len(t.skip(2)) == (j - i - 2) + params_len(s@.skip(j as int)),
        decreases len - j,
    {
        assert(s@.skip(j as int).skip(1) == s@.skip(j + 1));
        j = j + 1;
    }
    let k = j - i - 2;
    assert(params_len(s@.skip(j as int)) == 0);
    assert(params_len(t.skip(2)) == k);
    if j < len && (('a' <= s[j] && s[j] <= 'z') || ('A' <= s[j] && s[j] <= 'Z')) {
        assert(t[2 + k] == s@[j as int]);
        k + 3
    } else {
        0
    }
}

/// Removes ANSI escape sequences (`ESC [` digits/`;` letter), so colored
/// output parses like plain output.
pub fn strip_ansi(text: &str) -> (s: String)
    ensures
        s@ == spec_strip_ansi(text@),
{
    let cs = str_chars(text);
    let ghost t = cs@;
    let mut out: Vec<char> = Vec::new();
    let mut i: usize = 0;
    assert(t.skip(0) == t);
    while i < cs.len()
        invariant
            t == cs@,
            i <= t.len(),
            out@ + spec_strip_ansi(t.skip(i as int)) == spec_strip_ansi(t),
        decreases t.len() - i,
    {
        let n = escape_len_at(cs.as_slice(), i);
        let ghost rest = t.skip(i as int);
        if n > 0 {
            assert(rest.skip(n as int) == t.skip(i + n));
            i = i + n;
        } else {
            assert(rest.skip(1) == t.skip(i + 1));
            assert(rest[0] == cs@[i as int]);
            let ghost before = out@;
            out.push(cs[i]);
            assert(out@ + spec_strip_ansi(t.skip(i + 1)) =~= before + (seq![rest[0]] + spec_strip_ansi(rest.skip(1))));
            i = i + 1;
        }
    }
    assert(out@ + spec_strip_ansi(t.skip(i as int)) =~= out@);
    chars_to_string(out.as_slice())
}

} // verus!
