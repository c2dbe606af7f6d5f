//! Comparing two files' contents end to end: split them into lines as
//! `str::lines` does, diff the lines, and choose what to show.
use vstd::prelude::*;

use crate::line_diff::{compute_diff, str_views};
use crate::line_diff_spec::spec_compute_diff;
use crate::render::{
    format_classic_diff, invisible_or_raw, render_file_diff, select_file_diff_output,
    spec_format_classic_diff, spec_invisible_or_raw, spec_render_file_diff,
    spec_select_file_diff_output,
};
use crate::text::{chars_eq, chars_to_string, split_on, split_on_exec, str_chars, strip_cr, strip_cr_exec, views};

verus! {

/// The lines of `s` as `str::lines` yields them: split at `\n`, a `\r`
/// before a `\n` dropped, and no empty piece after a final newline. A `\r`
/// at the very end, with no `\n` after it, stays.
pub open spec fn spec_lines(s: Seq<char>) -> Seq<Seq<char>> {
    let ps = split_on(s, '\n');
    let closed = Seq::new((ps.len() - 1) as nat, |i: int| strip_cr(ps[i]));
    if ps.last().len() == 0 {
        closed
    } else {
        closed.push(ps.last())
    }
}

pub open spec fn string_views(v: Seq<String>) -> Seq<Seq<char>> {
    Seq::new(v.len(), |i: int| v[i]@)
}

/// There are no more pieces than separators plus one, and when the last
/// piece is empty, no more than separators.
proof fn lemma_pieces_bound(s: Seq<char>, sep: char)
    ensures
        split_on(s, sep).len() >= 1,
        split_on(s, sep).len() - 1 + (if split_on(s, sep).last().len() > 0 { 1int } else { 0int }) <= s.len(),
    decreases s.len(),
{
    if s.len() > 0 {
        lemma_pieces_bound(s.drop_last(), sep);
        let r = split_on(s.drop_last(), sep);
        if s.last() != sep {
            assert(split_on(s, sep).last() == r.last().push(s.last()));
        }
    }
}

/// `str::lines` yields no more lines than the text has characters.
pub proof fn lemma_lines_bound(s: Seq<char>)
    ensures
        spec_lines(s).len() <= s.len(),
{
    lemma_pieces_bound(s, '\n');
}

/// The lines of `s`, as owned strings.
fn lines_of(s: &str) -> (v: Vec<String>)
    ensures
        string_views(v@) == spec_lines(s@),
{
    let cs = str_chars(s);
    let ps = split_on_exec(cs.as_slice(), '\n');
    let ghost pv = split_on(s@, '\n');
    proof {
        crate::text::lemma_split_on_nonempty(s@, '\n');
    }
    assert(views(ps@) == pv);
    assert(ps@.len() == pv.len());
    let n = ps.len();
    let mut v: Vec<String> = Vec::new();
    let mut i: usize = 0;
    while i + 1 < n
        invariant
            n == ps@.len(),
            n >= 1,
            views(ps@) == pv,
            i + 1 <= n,
            string_views(v@) == Seq::new(i as nat, |k: int| strip_cr(pv[k])),
        decreases n - i,
    {
        assert(ps@[i as int]@ == pv[i as int]);
        let t = strip_cr_exec(ps[i].as_slice());
        let line = chars_to_string(t.as_slice());
        let ghost before = v@;
        assert(string_views(before).len() == i);
        assert(before.len() == i);
        v.push(line);
        assert(v@ == before.push(line));
        assert(line@ == strip_cr(pv[i as int]));
        assert forall|k: int| 0 <= k < i + 1 implies #[trigger] string_views(v@)[k] == strip_cr(pv[k]) by {
            if k < i {
                assert(v@[k] == before[k]);
                assert(string_views(before)[k] == strip_cr(pv[k]));
            }
        }
        assert(string_views(v@) =~= Seq::new((i + 1) as nat, |k: int| strip_cr(pv[k])));
        i = i + 1;
    }
    assert(ps@[n - 1]@ == pv.last());
    if ps[n - 1].len() > 0 {
        let last = chars_to_string(ps[n - 1].as_slice());
        let ghost before = v@;
        assert(string_views(before).len() == n - 1);
        assert(before.len() == n - 1);
        v.push(last);
        assert(v@ == before.push(last));
        assert forall|k: int| 0 <= k < n - 1 implies #[trigger] string_views(v@)[k] == strip_cr(pv[k]) by {
            assert(v@[k] == before[k]);
            assert(string_views(before)[k] == strip_cr(pv[k]));
        }
        assert(string_views(v@) =~= Seq::new((n - 1) as nat, |k: int| strip_cr(pv[k])).push(pv.last()));
    }
    v
}

/// Borrowed views of owned lines.
fn as_strs(v: &Vec<String>) -> (r: Vec<&str>)
    ensures
        str_views(r@) == string_views(v@),
{
    let mut r: Vec<&str> = Vec::new();
    let mut i: usize = 0;
    while i < v.len()
        invariant
            i <= v@.len(),
            str_views(r@) == Seq::new(i as nat, |k: int| v@[k]@),
        decreases v@.len() - i,
    {
        let ghost before = r@;
        assert(str_views(before).len() == i);
        assert(before.len() == i);
        let piece = v[i].as_str();
        r.push(piece);
        assert(r@ == before.push(piece));
        assert forall|k: int| 0 <= k < i + 1 implies #[trigger] str_views(r@)[k] == v@[k]@ by {
            if k < i {
                assert(r@[k] == before[k]);
                assert(str_views(before)[k] == v@[k]@);
            }
        }
        assert(str_views(r@) =~= Seq::new((i + 1) as nat, |k: int| v@[k]@));
        i = i + 1;
    }
    assert(string_views(v@) =~= Seq::new(i as nat, |k: int| v@[k]@));
    r
}

/// What a comparison of two files prints, and its exit code: the diff of
/// their lines; identity decided on the bytes; the invisible-difference
/// message or, past its allowance, the raw text; otherwise the condensed
/// rendering unless the classic diff is cheaper.
pub open spec fn spec_compare(file1: Seq<char>, file2: Seq<char>, content1: Seq<char>, content2: Seq<char>) -> (Seq<char>, i32) {
    let d = spec_compute_diff(spec_lines(content1), spec_lines(content2));
    let (rendered, code) = spec_render_file_diff(file1, file2, content1, content2, d);
    if content1 != content2 && d.changes.len() == 0 {
        (spec_invisible_or_raw(file1, file2, content1, content2), code)
    } else {
        (spec_select_file_diff_output(d, spec_format_classic_diff(d.changes), rendered), code)
    }
}

/// Compares two files' contents and returns what to print with the
/// diff-convention exit code (0 = identical, 1 = differences found).
pub fn compare_contents(file1: &str, file2: &str, content1: &str, content2: &str) -> (r: (String, i32))
    requires
        content1@.len() < usize::MAX,
        content2@.len() < usize::MAX,
    ensures
        (r.0@, r.1) == spec_compare(file1@, file2@, content1@, content2@),
{
    let o1 = lines_of(content1);
    let o2 = lines_of(content2);
    let l1 = as_strs(&o1);
    let l2 = as_strs(&o2);
    let diff = compute_diff(l1.as_slice(), l2.as_slice());
    let ghost x = spec_lines(content1@);
    let ghost y = spec_lines(content2@);
    assert(diff@ == spec_compute_diff(x, y));
    let (rendered, code) = render_file_diff(file1, file2, content1, content2, &diff);
    let c1 = str_chars(content1);
    let c2 = str_chars(content2);
    let same = chars_eq(c1.as_slice(), c2.as_slice());
    if !same && diff.changes.len() == 0 {
        let shown = invisible_or_raw(file1, file2, content1, content2);
        return (shown, code);
    }
    proof {
        lemma_lines_bound(content1@);
        lemma_lines_bound(content2@);
        crate::line_diff_laws::law_changes_are_numbered_within_the_files(x, y);
    }
    let classic = format_classic_diff(&diff);
    let shown = select_file_diff_output(&diff, classic.as_str(), rendered.as_str());
    (shown.to_owned(), code)
}

} // verus!
