use vstd::prelude::*;

verus! {

broadcast use vstd::string::group_string_axioms, vstd::slice::group_slice_axioms;

// ---------------------------------------------------------------------------
// Specifications of the character-sequence operations the filters rely on.
// ---------------------------------------------------------------------------

/// `s` begins with `p`.
pub open spec fn starts_with(s: Seq<char>, p: Seq<char>) -> bool {
    p.len() <= s.len() && s.take(p.len() as int) == p
}

/// `s` ends with `p`.
pub open spec fn ends_with(s: Seq<char>, p: Seq<char>) -> bool {
    p.len() <= s.len() && s.skip(s.len() - p.len()) == p
}

/// What follows the prefix `p` of `s`, if `s` starts with it.
pub open spec fn strip_prefix(s: Seq<char>, p: Seq<char>) -> Option<Seq<char>> {
    if starts_with(s, p) {
        Some(s.skip(p.len() as int))
    } else {
        None
    }
}

/// What precedes the suffix `p` of `s`, if `s` ends with it.
pub open spec fn strip_suffix(s: Seq<char>, p: Seq<char>) -> Option<Seq<char>> {
    if ends_with(s, p) {
        Some(s.take(s.len() - p.len()))
    } else {
        None
    }
}

/// `s` without one trailing carriage return.
pub open spec fn strip_cr(s: Seq<char>) -> Seq<char> {
    if s.len() > 0 && s.last() == '\r' {
        s.drop_last()
    } else {
        s
    }
}

/// `pat` occurs in `s` starting at position `p`.
pub open spec fn occurs_at(s: Seq<char>, pat: Seq<char>, p: int) -> bool {
    0 <= p && p + pat.len() <= s.len() && s.subrange(p, p + pat.len()) == pat
}

/// `pat` occurs somewhere in `s`.
pub open spec fn contains_seq(s: Seq<char>, pat: Seq<char>) -> bool {
    exists|p: int| occurs_at(s, pat, p)
}

/// The position of the first occurrence of `pat` in `s`.
pub open spec fn find(s: Seq<char>, pat: Seq<char>) -> Option<int> {
    if contains_seq(s, pat) {
        Some(choose|p: int| occurs_at(s, pat, p) && forall|q: int| occurs_at(s, pat, q) ==> p <= q)
    } else {
        None
    }
}

/// The position of the last occurrence of `pat` in `s`.
pub open spec fn rfind(s: Seq<char>, pat: Seq<char>) -> Option<int> {
    if contains_seq(s, pat) {
        Some(choose|p: int| occurs_at(s, pat, p) && forall|q: int| occurs_at(s, pat, q) ==> q <= p)
    } else {
        None
    }
}

/// `s` split around the first occurrence of `pat`.
pub open spec fn split_once(s: Seq<char>, pat: Seq<char>) -> Option<(Seq<char>, Seq<char>)> {
    match find(s, pat) {
        Some(p) => Some((s.take(p), s.skip(p + pat.len()))),
        None => None,
    }
}

/// `s` split around the last occurrence of `pat`.
pub open spec fn rsplit_once(s: Seq<char>, pat: Seq<char>) -> Option<(Seq<char>, Seq<char>)> {
    match rfind(s, pat) {
        Some(p) => Some((s.take(p), s.skip(p + pat.len()))),
        None => None,
    }
}

/// The pieces of `s` between occurrences of `sep` (always at least one piece).
pub open spec fn split_on(s: Seq<char>, sep: char) -> Seq<Seq<char>>
    decreases s.len(),
{
    if s.len() == 0 {
        seq![Seq::empty()]
    } else {
        let r = split_on(s.drop_last(), sep);
        if s.last() == sep {
            r.push(Seq::empty())
        } else {
            r.update(r.len() - 1, r.last().push(s.last()))
        }
    }
}

/// `s` with every trailing `c` removed.
pub open spec fn trim_end_char(s: Seq<char>, c: char) -> Seq<char>
    decreases s.len(),
{
    if s.len() > 0 && s.last() == c {
        trim_end_char(s.drop_last(), c)
    } else {
        s
    }
}

/// The text before the first `c` in `s` (all of `s` when there is none).
pub open spec fn before_char(s: Seq<char>, c: char) -> Seq<char> {
    split_on(s, c)[0]
}

/// The lines `ls` joined by newlines.
pub open spec fn join_lines(ls: Seq<Seq<char>>) -> Seq<char>
    decreases ls.len(),
{
    if ls.len() == 0 {
        Seq::empty()
    } else if ls.len() == 1 {
        ls[0]
    } else {
        join_lines(ls.drop_last()) + seq!['\n'] + ls.last()
    }
}

/// The pieces `ls` joined by `sep`.
pub open spec fn join_with(ls: Seq<Seq<char>>, sep: Seq<char>) -> Seq<char>
    decreases ls.len(),
{
    if ls.len() == 0 {
        Seq::empty()
    } else if ls.len() == 1 {
        ls[0]
    } else {
        join_with(ls.drop_last(), sep) + sep + ls.last()
    }
}

/// The decimal digit character for `d < 10`.
pub open spec fn digit_char(d: nat) -> char {
    if d == 0 { '0' }
    else if d == 1 { '1' }
    else if d == 2 { '2' }
    else if d == 3 { '3' }
    else if d == 4 { '4' }
    else if d == 5 { '5' }
    else if d == 6 { '6' }
    else if d == 7 { '7' }
    else if d == 8 { '8' }
    else { '9' }
}

/// The decimal representation of `n`, without leading zeros.
pub open spec fn decimal(n: nat) -> Seq<char>
    decreases n,
{
    if n < 10 {
        seq![digit_char(n)]
    } else {
        decimal(n / 10).push(digit_char(n % 10))
    }
}

/// `n` spaces.
pub open spec fn spaces(n: nat) -> Seq<char> {
    Seq::new(n, |i: int| ' ')
}

/// The decimal representation of `n`, right-aligned in a field of four.
pub open spec fn decimal_width4(n: nat) -> Seq<char> {
    let d = decimal(n);
    if d.len() < 4 {
        spaces((4 - d.len()) as nat) + d
    } else {
        d
    }
}

/// `c` is an ASCII decimal digit.
pub open spec fn is_digit(c: char) -> bool {
    '0' <= c && c <= '9'
}

/// The numeric value of an ASCII digit.
pub open spec fn digit_value(c: char) -> nat {
    (c as nat - '0' as nat) as nat
}

/// The value of a run of decimal digits.
pub open spec fn digits_value(d: Seq<char>) -> nat
    decreases d.len(),
{
    if d.len() == 0 {
        0
    } else {
        digits_value(d.drop_last()) * 10 + digit_value(d.last())
    }
}

/// The digits of a number after an optional leading `+`.
pub open spec fn unsigned_part(s: Seq<char>) -> Seq<char> {
    if s.len() > 0 && s[0] == '+' {
        s.skip(1)
    } else {
        s
    }
}

/// A non-empty run of decimal digits whose value fits in a `usize`.
pub open spec fn parse_digits(d: Seq<char>) -> Option<usize> {
    if d.len() > 0 && (forall|i: int| 0 <= i < d.len() ==> is_digit(#[trigger] d[i]))
        && digits_value(d) <= usize::MAX {
        Some(digits_value(d) as usize)
    } else {
        None
    }
}

/// What `str::parse::<usize>` accepts: an optional `+`, then one or more
/// decimal digits whose value fits in a `usize`.
pub open spec fn parse_usize(s: Seq<char>) -> Option<usize> {
    parse_digits(unsigned_part(s))
}

// ---------------------------------------------------------------------------
// Executable counterparts.
// ---------------------------------------------------------------------------

/// The characters of `s`, in order.
pub fn str_chars(s: &str) -> (v: Vec<char>)
    ensures
        v@ == s@,
{
    let mut v: Vec<char> = Vec::new();
    for c in it: s.chars()
        invariant
            v@ == s@.take(it.index() as int),
            it.seq() == s@,
    {
        v.push(c);
        assert(s@.take(it.index() as int + 1) == s@.take(it.index() as int).push(c));
    }
    assert(s@.take(s@.len() as int) == s@);
    v
}

/// Appends `c` to `s` (`String::push`).
#[verifier::external_body]
fn string_push(s: &mut String, c: char)
    ensures
        final(s)@ == old(s)@.push(c),
{
    s.push(c);
}

/// The string whose characters are `v`.
pub fn chars_to_string(v: &[char]) -> (s: String)
    ensures
        s@ == v@,
{
    let mut s = String::new();
    let mut i: usize = 0;
    while i < v.len()
        invariant
            i <= v@.len(),
            s@ == v@.take(i as int),
        decreases v@.len() - i,
    {
        string_push(&mut s, v[i]);
        assert(v@.take(i as int + 1) == v@.take(i as int).push(v@[i as int]));
        i = i + 1;
    }
    assert(v@.take(v@.len() as int) == v@);
    s
}

/// `a` and `b` hold the same characters.
pub fn chars_eq(a: &[char], b: &[char]) -> (r: bool)
    ensures
        r == (a@ == b@),
{
    if a.len() != b.len() {
        return false;
    }
    let mut i: usize = 0;
    while i < a.len()
        invariant
            a@.len() == b@.len(),
            i <= a@.len(),
            forall|j: int| 0 <= j < i ==> a@[j] == b@[j],
        decreases a@.len() - i,
    {
        if a[i] != b[i] {
            return false;
        }
        i = i + 1;
    }
    assert(a@ =~= b@);
    true
}

/// `pat` occurs in `s` at position `p`.
pub fn occurs_at_exec(s: &[char], pat: &[char], p: usize) -> (r: bool)
    ensures
        r == occurs_at(s@, pat@, p as int),
{
    if p > s.len() || pat.len() > s.len() - p {
        return false;
    }
    let n = s.len();
    let mut i: usize = 0;
    while i < pat.len()
        invariant
            n == s@.len(),
            p + pat@.len() <= s@.len(),
            i <= pat@.len(),
            forall|j: int| 0 <= j < i ==> s@[p + j] == pat@[j],
        decreases pat@.len() - i,
    {
        if s[p + i] != pat[i] {
            assert(s@.subrange(p as int, p + pat@.len())[i as int] != pat@[i as int]);
            return false;
        }
        i = i + 1;
    }
    assert(s@.subrange(p as int, p + pat@.len()) =~= pat@);
    true
}

/// `s` begins with `p`.
pub fn starts_with_exec(s: &[char], p: &[char]) -> (r: bool)
    ensures
        r == starts_with(s@, p@),
{
    let r = occurs_at_exec(s, p, 0);
    assert(s@.subrange(0, p@.len() as int) == s@.take(p@.len() as int));
    r
}

/// `s` begins with the character `c`.
pub fn starts_with_char(s: &[char], c: char) -> (r: bool)
    ensures
        r == starts_with(s@, seq![c]),
{
    if s.len() == 0 {
        false
    } else {
        assert(s@.take(1) =~= seq![s@[0]]);
        assert(seq![s@[0]] == seq![c] ==> s@[0] == seq![c][0]);
        s[0] == c
    }
}

/// The characters `s[lo..hi]`.
pub fn copy_range(s: &[char], lo: usize, hi: usize) -> (v: Vec<char>)
    requires
        lo <= hi <= s@.len(),
    ensures
        v@ == s@.subrange(lo as int, hi as int),
{
    let mut v: Vec<char> = Vec::new();
    let mut i = lo;
    while i < hi
        invariant
            lo <= i <= hi <= s@.len(),
            v@ == s@.subrange(lo as int, i as int),
        decreases hi - i,
    {
        v.push(s[i]);
        assert(s@.subrange(lo as int, i + 1) == s@.subrange(lo as int, i as int).push(s@[i as int]));
        i = i + 1;
    }
    v
}

/// A copy of `s`.
pub fn copy_chars(s: &[char]) -> (v: Vec<char>)
    ensures
        v@ == s@,
{
    let v = copy_range(s, 0, s.len());
    assert(s@.subrange(0, s@.len() as int) == s@);
    v
}

/// Appends the characters of `s` to `out`.
pub fn push_all(out: &mut Vec<char>, s: &[char])
    ensures
        final(out)@ == old(out)@ + s@,
{
    let mut i: usize = 0;
    while i < s.len()
        invariant
            i <= s@.len(),
            out@ == old(out)@ + s@.take(i as int),
        decreases s@.len() - i,
    {
        out.push(s[i]);
        assert(s@.take(i as int + 1) == s@.take(i as int).push(s@[i as int]));
        i = i + 1;
    }
    assert(s@.take(s@.len() as int) == s@);
}

/// Appends the characters of `s` to `out`.
pub fn push_str(out: &mut Vec<char>, s: &str)
    ensures
        final(out)@ == old(out)@ + s@,
{
    let v = str_chars(s);
    push_all(out, v.as_slice());
}

/// What follows the prefix `p` of `s`, if `s` starts with it.
pub fn strip_prefix_exec(s: &[char], p: &[char]) -> (r: Option<Vec<char>>)
    ensures
        match r {
            Some(v) => strip_prefix(s@, p@) == Some(v@),
            None => strip_prefix(s@, p@) is None,
        },
{
    if starts_with_exec(s, p) {
        Some(copy_range(s, p.len(), s.len()))
    } else {
        None
    }
}

/// `s` ends with `p`.
pub fn ends_with_exec(s: &[char], p: &[char]) -> (r: bool)
    ensures
        r == ends_with(s@, p@),
{
    if p.len() > s.len() {
        return false;
    }
    let r = occurs_at_exec(s, p, s.len() - p.len());
    assert(s@.subrange(s@.len() - p@.len(), s@.len() as int) == s@.skip(s@.len() - p@.len()));
    r
}

/// What precedes the suffix `p` of `s`, if `s` ends with it.
pub fn strip_suffix_exec(s: &[char], p: &[char]) -> (r: Option<Vec<char>>)
    ensures
        match r {
            Some(v) => strip_suffix(s@, p@) == Some(v@),
            None => strip_suffix(s@, p@) is None,
        },
{
    if ends_with_exec(s, p) {
        let v = copy_range(s, 0, s.len() - p.len());
        assert(s@.subrange(0, s@.len() - p@.len()) == s@.take(s@.len() - p@.len()));
        Some(v)
    } else {
        None
    }
}

/// `s` without one trailing carriage return.
pub fn strip_cr_exec(s: &[char]) -> (v: Vec<char>)
    ensures
        v@ == strip_cr(s@),
{
    if s.len() > 0 && s[s.len() - 1] == '\r' {
        let v = copy_range(s, 0, s.len() - 1);
        assert(s@.subrange(0, s@.len() - 1) == s@.drop_last());
        v
    } else {
        copy_chars(s)
    }
}

/// The position of the first occurrence of `pat` in `s`.
pub fn find_exec(s: &[char], pat: &[char]) -> (r: Option<usize>)
    ensures
        match r {
            Some(p) => find(s@, pat@) == Some(p as int) && occurs_at(s@, pat@, p as int),
            None => find(s@, pat@) is None,
        },
{
    if pat.len() > s.len() {
        assert(forall|q: int| !occurs_at(s@, pat@, q));
        return None;
    }
    let last = s.len() - pat.len();
    let mut p: usize = 0;
    while p <= last
        invariant
            last == s@.len() - pat@.len(),
            p <= last + 1,
            forall|q: int| 0 <= q < p ==> !occurs_at(s@, pat@, q),
        decreases last + 1 - p,
    {
        if occurs_at_exec(s, pat, p) {
            assert(forall|q: int| occurs_at(s@, pat@, q) ==> p <= q);
            return Some(p);
        }
        if p == last {
            assert(forall|q: int| !occurs_at(s@, pat@, q));
            return None;
        }
        p = p + 1;
    }
    assert(forall|q: int| !occurs_at(s@, pat@, q));
    None
}

/// The position of the last occurrence of `pat` in `s`.
pub fn rfind_exec(s: &[char], pat: &[char]) -> (r: Option<usize>)
    ensures
        match r {
            Some(p) => rfind(s@, pat@) == Some(p as int) && occurs_at(s@, pat@, p as int),
            None => rfind(s@, pat@) is None,
        },
{
    if pat.len() > s.len() {
        assert(forall|q: int| !occurs_at(s@, pat@, q));
        return None;
    }
    let mut p: usize = s.len() - pat.len();
    loop
        invariant
            p <= s@.len() - pat@.len(),
            forall|q: int| p < q ==> !occurs_at(s@, pat@, q),
        decreases p,
    {
        if occurs_at_exec(s, pat, p) {
            assert(forall|q: int| occurs_at(s@, pat@, q) ==> q <= p);
            return Some(p);
        }
        if p == 0 {
            assert(forall|q: int| !occurs_at(s@, pat@, q));
            return None;
        }
        p = p - 1;
    }
}

/// `pat` occurs somewhere in `s`.
pub fn contains_exec(s: &[char], pat: &[char]) -> (r: bool)
    ensures
        r == contains_seq(s@, pat@),
{
    find_exec(s, pat).is_some()
}

/// `s` split around the first occurrence of `pat`.
pub fn split_once_exec(s: &[char], pat: &[char]) -> (r: Option<(Vec<char>, Vec<char>)>)
    ensures
        match r {
            Some((a, b)) => split_once(s@, pat@) == Some((a@, b@)),
            None => split_once(s@, pat@) is None,
        },
{
    match find_exec(s, pat) {
        Some(p) => {
            let n = s.len();
            let a = copy_range(s, 0, p);
            let b = copy_range(s, p + pat.len(), n);
            assert(s@.subrange(0, p as int) == s@.take(p as int));
            assert(s@.subrange(p + pat@.len(), s@.len() as int) == s@.skip(p + pat@.len()));
            Some((a, b))
        },
        None => None,
    }
}

/// `s` split around the last occurrence of `pat`.
pub fn rsplit_once_exec(s: &[char], pat: &[char]) -> (r: Option<(Vec<char>, Vec<char>)>)
    ensures
        match r {
            Some((a, b)) => rsplit_once(s@, pat@) == Some((a@, b@)),
            None => rsplit_once(s@, pat@) is None,
        },
{
    match rfind_exec(s, pat) {
        Some(p) => {
            let n = s.len();
            let a = copy_range(s, 0, p);
            let b = copy_range(s, p + pat.len(), n);
            assert(s@.subrange(0, p as int) == s@.take(p as int));
            assert(s@.subrange(p + pat@.len(), s@.len() as int) == s@.skip(p + pat@.len()));
            Some((a, b))
        },
        None => None,
    }
}


/// The views of a sequence of character vectors.
pub open spec fn views(v: Seq<Vec<char>>) -> Seq<Seq<char>> {
    Seq::new(v.len(), |i: int| v[i]@)
}

pub proof fn lemma_views_push(v: Seq<Vec<char>>, x: Vec<char>)
    ensures
        views(v.push(x)) == views(v).push(x@),
{
    assert(views(v.push(x)) =~= views(v).push(x@));
}

/// The pieces of `s` between occurrences of `sep`.
pub fn split_on_exec(s: &[char], sep: char) -> (v: Vec<Vec<char>>)
    ensures
        views(v@) == split_on(s@, sep),
{
    let mut pieces: Vec<Vec<char>> = Vec::new();
    let mut cur: Vec<char> = Vec::new();
    let mut i: usize = 0;
    assert(s@.take(0) =~= Seq::<char>::empty());
    assert(views(pieces@).push(cur@) =~= seq![Seq::<char>::empty()]);
    while i < s.len()
        invariant
            i <= s@.len(),
            views(pieces@).push(cur@) == split_on(s@.take(i as int), sep),
        decreases s@.len() - i,
    {
        let c = s[i];
        let ghost prev = s@.take(i as int);
        assert(s@.take(i + 1).drop_last() == prev);
        if c == sep {
            proof {
                lemma_views_push(pieces@, cur);
            }
            pieces.push(cur);
            cur = Vec::new();
            assert(views(pieces@).push(cur@) == split_on(prev, sep).push(Seq::empty()));
        } else {
            let ghost r = split_on(prev, sep);
            cur.push(c);
            assert(views(pieces@).push(cur@) =~= r.update(r.len() - 1, r.last().push(c)));
        }
        i = i + 1;
    }
    assert(s@.take(s@.len() as int) == s@);
    proof {
        lemma_views_push(pieces@, cur);
    }
    pieces.push(cur);
    pieces
}

/// `s` with every trailing `c` removed.
pub fn trim_end_char_exec(s: &[char], c: char) -> (v: Vec<char>)
    ensures
        v@ == trim_end_char(s@, c),
{
    let mut n = s.len();
    assert(s@.take(n as int) == s@);
    while n > 0 && s[n - 1] == c
        invariant
            n <= s@.len(),
            trim_end_char(s@.take(n as int), c) == trim_end_char(s@, c),
        decreases n,
    {
        assert(s@.take(n as int).drop_last() == s@.take(n - 1));
        n = n - 1;
    }
    let v = copy_range(s, 0, n);
    assert(s@.subrange(0, n as int) == s@.take(n as int));
    v
}

/// The text before the first `c` in `s`.
pub fn before_char_exec(s: &[char], c: char) -> (v: Vec<char>)
    ensures
        v@ == before_char(s@, c),
{
    let mut pieces = split_on_exec(s, c);
    assert(split_on(s@, c).len() > 0) by {
        lemma_split_on_nonempty(s@, c);
    }
    let first = pieces.swap_remove(0);
    first
}

pub proof fn lemma_split_on_nonempty(s: Seq<char>, sep: char)
    ensures
        split_on(s, sep).len() >= 1,
    decreases s.len(),
{
    if s.len() > 0 {
        lemma_split_on_nonempty(s.drop_last(), sep);
    }
}

/// The digit character for `d < 10`.
pub fn digit_char_exec(d: usize) -> (c: char)
    requires
        d < 10,
    ensures
        c == digit_char(d as nat),
{
    if d == 0 { '0' }
    else if d == 1 { '1' }
    else if d == 2 { '2' }
    else if d == 3 { '3' }
    else if d == 4 { '4' }
    else if d == 5 { '5' }
    else if d == 6 { '6' }
    else if d == 7 { '7' }
    else if d == 8 { '8' }
    else { '9' }
}

/// Appends the decimal representation of `n` to `out`.
pub fn push_decimal(out: &mut Vec<char>, n: usize)
    ensures
        final(out)@ == old(out)@ + decimal(n as nat),
    decreases n,
{
    if n < 10 {
        out.push(digit_char_exec(n));
        assert(old(out)@ + decimal(n as nat) =~= old(out)@.push(digit_char(n as nat)));
    } else {
        push_decimal(out, n / 10);
        out.push(digit_char_exec(n % 10));
        assert(old(out)@ + decimal(n as nat) =~= old(out)@ + decimal((n / 10) as nat) + seq![digit_char((n % 10) as nat)]);
    }
}

/// Appends `n` right-aligned in a field of four to `out`.
pub fn push_decimal_width4(out: &mut Vec<char>, n: usize)
    ensures
        final(out)@ == old(out)@ + decimal_width4(n as nat),
{
    let mut d: Vec<char> = Vec::new();
    push_decimal(&mut d, n);
    assert(d@ =~= decimal(n as nat));
    if d.len() < 4 {
        let pad = 4 - d.len();
        let mut k: usize = 0;
        while k < pad
            invariant
                k <= pad,
                out@ == old(out)@ + spaces(k as nat),
            decreases pad - k,
        {
            out.push(' ');
            assert(spaces((k + 1) as nat) =~= spaces(k as nat).push(' '));
            k = k + 1;
        }
    }
    push_all(out, d.as_slice());
    assert(final(out)@ =~= old(out)@ + decimal_width4(n as nat));
}

pub proof fn lemma_digits_value_prefix(d: Seq<char>, k: int)
    requires
        0 <= k <= d.len(),
    ensures
        digits_value(d.take(k)) <= digits_value(d),
    decreases d.len(),
{
    if k == d.len() {
        assert(d.take(k) == d);
    } else {
        lemma_digits_value_prefix(d.drop_last(), k);
        assert(d.drop_last().take(k) == d.take(k));
    }
}

/// `str::parse::<usize>`: an optional `+` and one or more digits whose
/// value fits.
pub fn parse_usize_exec(s: &[char]) -> (r: Option<usize>)
    ensures
        r == parse_usize(s@),
{
    let start: usize = if s.len() > 0 && s[0] == '+' { 1 } else { 0 };
    let ghost d = unsigned_part(s@);
    assert(d == s@.skip(start as int));
    if start == s.len() {
        return None;
    }
    let mut acc: usize = 0;
    let mut i = start;
    while i < s.len()
        invariant
            start <= i <= s@.len(),
            d == s@.skip(start as int),
            d == unsigned_part(s@),
            forall|j: int| 0 <= j < i - start ==> is_digit(#[trigger] d[j]),
            acc as nat == digits_value(d.take(i - start)),
        decreases s@.len() - i,
    {
        let c = s[i];
        assert(d[i - start] == c);
        if !('0' <= c && c <= '9') {
            assert(!is_digit(d[i - start]));
            return None;
        }
        let dv: usize = (c as u32 - '0' as u32) as usize;
        assert(dv as nat == digit_value(c));
        let ghost k = i - start;
        let ghost x = d.take(k + 1);
        assert(x.len() > 0);
        assert(x.drop_last() =~= d.take(k));
        assert(x.last() == c);
        assert(digits_value(x) == digits_value(x.drop_last()) * 10 + digit_value(x.last()));
        assert(digits_value(x) == acc * 10 + dv);
        assert(d.take(i - start + 1).drop_last() == d.take(i - start));
        assert(d.take(i - start + 1).last() == c);
        match acc.checked_mul(10) {
            Some(m) => match m.checked_add(dv) {
                Some(a) => {
                    acc = a;
                },
                None => {
                    proof {
                        lemma_digits_value_prefix(d, i - start + 1);
                    }
                    return None;
                },
            },
            None => {
                proof {
                    lemma_digits_value_prefix(d, i - start + 1);
                }
                return None;
            },
        }
        i = i + 1;
    }
    assert(d.take(d.len() as int) == d);
    Some(acc)
}

} // verus!
