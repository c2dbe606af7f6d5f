//! What a whole file comparison says: the word "identical" is printed
//! exactly when the two contents are the same bytes.
use vstd::prelude::*;

use crate::classic_laws::{chunk_lines, classic_lines, marked_lines, unlines};
use crate::compare::{spec_compare, spec_lines};
use crate::line_diff_sides::{inss_of, new_side, old_side, texts};
use crate::line_diff_spec::{ChangeView, diff_ops, spec_compute_diff};
use crate::render::{
    add_run_end, change_line_no, change_text, classic_chunk, line_range, mod_run_end, pair_at,
    pair_run_end, raw_pair, rem_run_end, spec_describe_invisible_difference, spec_format_classic_diff,
};
use crate::render_laws::{change_free, free, identity_word, lacks, lemma_concat_free, lemma_lacking_letter};
use crate::text::{contains_seq, decimal, occurs_at, split_on, strip_cr};

verus! {

// ----- pieces of word-free text are word-free ---------------------------------------

proof fn lemma_sub_free(s: Seq<char>, a: int, b: int)
    requires
        free(s),
        0 <= a <= b <= s.len(),
    ensures
        free(s.subrange(a, b)),
{
    let w = identity_word();
    let t = s.subrange(a, b);
    if contains_seq(t, w) {
        let p = choose|p: int| occurs_at(t, w, p);
        assert(s.subrange(a + p, a + p + w.len()) =~= t.subrange(p, p + w.len()));
        assert(occurs_at(s, w, a + p));
    }
}

/// Every piece of a split is a stretch of the text; the last one ends it.
proof fn lemma_split_free(s: Seq<char>, sep: char)
    requires
        free(s),
    ensures
        forall|k: int| 0 <= k < split_on(s, sep).len() ==> free(#[trigger] split_on(s, sep)[k]),
        split_on(s, sep).len() >= 1,
        exists|m: int| 0 <= m <= s.len() && split_on(s, sep).last() == s.subrange(m, s.len() as int),
    decreases s.len(),
{
    let v = split_on(s, sep);
    if s.len() == 0 {
        assert(v.last() =~= s.subrange(0, 0));
        lemma_lacking_letter(Seq::<char>::empty(), 'i');
        assert(v[0] == Seq::<char>::empty());
    } else {
        let d = s.drop_last();
        lemma_sub_free(s, 0, s.len() - 1);
        assert(d =~= s.subrange(0, s.len() - 1));
        lemma_split_free(d, sep);
        let r = split_on(d, sep);
        let m = choose|m: int| 0 <= m <= d.len() && r.last() == d.subrange(m, d.len() as int);
        if s.last() == sep {
            assert(v.last() =~= s.subrange(s.len() as int, s.len() as int));
            assert forall|k: int| 0 <= k < v.len() implies free(#[trigger] v[k]) by {
                if k < r.len() {
                    assert(v[k] == r[k]);
                } else {
                    lemma_sub_free(s, s.len() as int, s.len() as int);
                }
            }
        } else {
            assert(v.last() =~= s.subrange(m, s.len() as int));
            lemma_sub_free(s, m, s.len() as int);
            assert forall|k: int| 0 <= k < v.len() implies free(#[trigger] v[k]) by {
                if k < r.len() - 1 {
                    assert(v[k] == r[k]);
                } else {
                    assert(v[k] == v.last());
                }
            }
        }
    }
}

proof fn lemma_lines_free(s: Seq<char>)
    requires
        free(s),
    ensures
        forall|k: int| 0 <= k < spec_lines(s).len() ==> free(#[trigger] spec_lines(s)[k]),
{
    lemma_split_free(s, '\n');
    let ps = split_on(s, '\n');
    let ls = spec_lines(s);
    assert forall|k: int| 0 <= k < ls.len() implies free(#[trigger] ls[k]) by {
        if k < ps.len() - 1 {
            let p = ps[k];
            assert(free(p));
            assert(ls[k] == strip_cr(p));
            if p.len() > 0 && p.last() == '\r' {
                lemma_sub_free(p, 0, p.len() - 1);
                assert(p.drop_last() =~= p.subrange(0, p.len() - 1));
            }
        } else {
            assert(ls[k] == ps.last());
            assert(free(ps[ps.len() - 1]));
        }
    }
}

// ----- each change quotes lines of the two files -----------------------------------

/// Every change's texts show up among the diff's sides.
pub(crate) proof fn lemma_changes_in_sides(cs: Seq<ChangeView>)
    ensures
        forall|k: int| 0 <= k < cs.len() ==> match #[trigger] cs[k] {
            ChangeView::Removed(l, t) => old_side(cs).contains((l, t)),
            ChangeView::Modified(l, o, n) => old_side(cs).contains((l, o)) && new_side(cs).contains(n),
            ChangeView::Added(_, t) => new_side(cs).contains(t),
        },
    decreases cs.len(),
{
    if cs.len() > 0 {
        let f = cs.drop_last();
        lemma_changes_in_sides(f);
        let ol: Seq<(nat, Seq<char>)> = match cs.last() {
            ChangeView::Removed(l, t) => seq![(l, t)],
            ChangeView::Modified(l, o, _) => seq![(l, o)],
            ChangeView::Added(_, _) => Seq::empty(),
        };
        let nl: Seq<Seq<char>> = match cs.last() {
            ChangeView::Added(_, t) => seq![t],
            ChangeView::Modified(_, _, n) => seq![n],
            ChangeView::Removed(_, _) => Seq::empty(),
        };
        assert(old_side(cs) == old_side(f) + ol);
        assert(new_side(cs) == new_side(f) + nl);
        assert forall|k: int| 0 <= k < cs.len() implies match #[trigger] cs[k] {
            ChangeView::Removed(l, t) => old_side(cs).contains((l, t)),
            ChangeView::Modified(l, o, n) => old_side(cs).contains((l, o)) && new_side(cs).contains(n),
            ChangeView::Added(_, t) => new_side(cs).contains(t),
        } by {
            if k < f.len() {
                assert(cs[k] == f[k]);
                match f[k] {
                    ChangeView::Removed(l, t) => {
                        let j = choose|j: int| 0 <= j < old_side(f).len() && old_side(f)[j] == (l, t);
                        assert(old_side(cs)[j] == (l, t));
                    },
                    ChangeView::Modified(l, o, n) => {
                        let j = choose|j: int| 0 <= j < old_side(f).len() && old_side(f)[j] == (l, o);
                        assert(old_side(cs)[j] == (l, o));
                        let j2 = choose|j: int| 0 <= j < new_side(f).len() && new_side(f)[j] == n;
                        assert(new_side(cs)[j2] == n);
                    },
                    ChangeView::Added(_, t) => {
                        let j = choose|j: int| 0 <= j < new_side(f).len() && new_side(f)[j] == t;
                        assert(new_side(cs)[j] == t);
                    },
                }
            } else {
                assert(cs[k] == cs.last());
                match cs.last() {
                    ChangeView::Removed(l, t) => {
                        assert(old_side(cs)[old_side(f).len() as int] == (l, t));
                    },
                    ChangeView::Modified(l, o, n) => {
                        assert(old_side(cs)[old_side(f).len() as int] == (l, o));
                        assert(new_side(cs)[new_side(f).len() as int] == n);
                    },
                    ChangeView::Added(_, t) => {
                        assert(new_side(cs)[new_side(f).len() as int] == t);
                    },
                }
            }
        }
    }
}

/// When neither file's lines spell out the word, no change text does.
proof fn lemma_changes_free(x: Seq<Seq<char>>, y: Seq<Seq<char>>)
    requires
        forall|k: int| 0 <= k < x.len() ==> free(#[trigger] x[k]),
        forall|k: int| 0 <= k < y.len() ==> free(#[trigger] y[k]),
    ensures
        forall|k: int| 0 <= k < spec_compute_diff(x, y).changes.len() ==> change_free(#[trigger] spec_compute_diff(x, y).changes[k]),
{
    let cs = spec_compute_diff(x, y).changes;
    let ins = inss_of(diff_ops(x, y));
    crate::line_diff_sides::law_changes_follow_both_files(x, y);
    lemma_changes_in_sides(cs);
    let os = old_side(cs);
    let ns = new_side(cs);
    assert forall|j: int| 0 <= j < os.len() implies free(#[trigger] os[j].1) by {
        assert(x[os[j].0 - 1] == os[j].1);
    }
    assert forall|j: int| 0 <= j < ns.len() implies free(#[trigger] ns[j]) by {
        assert(ns[j] == texts(ins)[j]);
        assert(y[ins[j].0 - 1] == ins[j].1);
    }
    assert forall|k: int| 0 <= k < cs.len() implies change_free(#[trigger] cs[k]) by {
        match cs[k] {
            ChangeView::Removed(l, t) => {
                let j = choose|j: int| 0 <= j < os.len() && os[j] == (l, t);
                assert(free(os[j].1));
            },
            ChangeView::Modified(l, o, n) => {
                let j = choose|j: int| 0 <= j < os.len() && os[j] == (l, o);
                assert(free(os[j].1));
                let j2 = choose|j: int| 0 <= j < ns.len() && ns[j] == n;
                assert(free(ns[j2]));
            },
            ChangeView::Added(_, t) => {
                let j = choose|j: int| 0 <= j < ns.len() && ns[j] == t;
                assert(free(ns[j]));
            },
        }
    }
}

// ----- the classic rendering quotes only change texts --------------------------------

/// Every text of every change is word-free.
pub open spec fn texts_free(cs: Seq<ChangeView>) -> bool {
    forall|k: int| 0 <= k < cs.len() ==> free(#[trigger] change_text(cs[k], false)) && free(change_text(cs[k], true))
}

proof fn lemma_texts_free(cs: Seq<ChangeView>)
    requires
        forall|k: int| 0 <= k < cs.len() ==> change_free(#[trigger] cs[k]),
    ensures
        texts_free(cs),
{
    assert forall|k: int| 0 <= k < cs.len() implies free(#[trigger] change_text(cs[k], false)) && free(change_text(cs[k], true)) by {
        assert(change_free(cs[k]));
    }
}

/// Digits, commas and command letters never spell out the word.
proof fn lemma_no_i_free(s: Seq<char>)
    requires
        lacks(s, 'i'),
    ensures
        free(s),
{
    lemma_lacking_letter(s, 'i');
}

proof fn lemma_decimal_no_i(n: nat)
    ensures
        lacks(decimal(n), 'i'),
{
    crate::render_laws::lemma_decimal_digits(n);
}

proof fn lemma_range_no_i(a: nat, b: nat)
    ensures
        lacks(line_range(a, b), 'i'),
{
    reveal_strlit(",");
    lemma_decimal_no_i(a);
    lemma_decimal_no_i(b);
    crate::unified_lines::lemma_cat(decimal(a), ","@, 'i');
    crate::unified_lines::lemma_cat(decimal(a) + ","@, decimal(b), 'i');
}

proof fn lemma_header_free(first: Seq<char>, mid: Seq<char>, last: Seq<char>)
    requires
        lacks(first, 'i'),
        lacks(mid, 'i'),
        lacks(last, 'i'),
    ensures
        free(first + mid + last),
{
    crate::unified_lines::lemma_cat(first, mid, 'i');
    crate::unified_lines::lemma_cat(first + mid, last, 'i');
    lemma_no_i_free(first + mid + last);
}

proof fn lemma_marked_free(cs: Seq<ChangeView>, k: int, e: int, step: int, marker: Seq<char>, new_side: bool)
    requires
        texts_free(cs),
        marker == "< "@ || marker == "> "@,
    ensures
        forall|m: int| 0 <= m < marked_lines(cs, k, e, step, marker, new_side).len() ==>
            free(#[trigger] marked_lines(cs, k, e, step, marker, new_side)[m]),
    decreases (if k < e { e - k } else { 0 }),
{
    let ml = marked_lines(cs, k, e, step, marker, new_side);
    if !(k >= e || step <= 0 || k < 0 || k >= cs.len()) {
        lemma_marked_free(cs, k + step, e, step, marker, new_side);
        reveal_strlit("< ");
        reveal_strlit("> ");
        let t = change_text(cs[k], new_side);
        assert(free(change_text(cs[k], false)) && free(change_text(cs[k], true)));
        lemma_no_i_free(marker);
        lemma_concat_free(marker, t);
        let rest = marked_lines(cs, k + step, e, step, marker, new_side);
        assert forall|m: int| 0 <= m < ml.len() implies free(#[trigger] ml[m]) by {
            if m > 0 {
                assert(ml[m] == rest[m - 1]);
            }
        }
    }
}

pub open spec fn all_free(ls: Seq<Seq<char>>) -> bool {
    forall|m: int| 0 <= m < ls.len() ==> free(#[trigger] ls[m])
}

proof fn lemma_all_free_cat(a: Seq<Seq<char>>, b: Seq<Seq<char>>)
    requires
        all_free(a),
        all_free(b),
    ensures
        all_free(a + b),
{
    assert forall|m: int| 0 <= m < (a + b).len() implies free(#[trigger] (a + b)[m]) by {
        if m < a.len() {
            assert((a + b)[m] == a[m]);
        } else {
            assert((a + b)[m] == b[m - a.len()]);
        }
    }
}

proof fn lemma_chunk_free(cs: Seq<ChangeView>, k: int)
    requires
        texts_free(cs),
        0 <= k < cs.len(),
    ensures
        all_free(chunk_lines(cs, k)),
{
    reveal_strlit("c");
    reveal_strlit("a");
    reveal_strlit("d");
    reveal_strlit("---");
    let start = change_line_no(cs[k]);
    lemma_no_i_free("---"@);
    assert(all_free(seq!["---"@])) by {
        assert(seq!["---"@][0] == "---"@);
    }
    match cs[k] {
        ChangeView::Modified(..) => {
            let e = mod_run_end(cs, k, start);
            let r = line_range(start, (start + (e - k) - 1) as nat);
            lemma_range_no_i(start, (start + (e - k) - 1) as nat);
            lemma_header_free(r, "c"@, r);
            assert(all_free(seq![r + "c"@ + r])) by { assert(seq![r + "c"@ + r][0] == r + "c"@ + r); }
            lemma_marked_free(cs, k, e, 1, "< "@, false);
            lemma_marked_free(cs, k, e, 1, "> "@, true);
            let m1 = marked_lines(cs, k, e, 1, "< "@, false);
            let m2 = marked_lines(cs, k, e, 1, "> "@, true);
            lemma_all_free_cat(seq![r + "c"@ + r], m1);
            lemma_all_free_cat(seq![r + "c"@ + r] + m1, seq!["---"@]);
            lemma_all_free_cat(seq![r + "c"@ + r] + m1 + seq!["---"@], m2);
        },
        ChangeView::Removed(..) => if pair_at(cs, k, start) {
            let e = pair_run_end(cs, k, start);
            let r = line_range(start, (start + (e - k) / 2 - 1) as nat);
            lemma_range_no_i(start, (start + (e - k) / 2 - 1) as nat);
            lemma_header_free(r, "c"@, r);
            assert(all_free(seq![r + "c"@ + r])) by { assert(seq![r + "c"@ + r][0] == r + "c"@ + r); }
            lemma_marked_free(cs, k, e, 2, "< "@, false);
            lemma_marked_free(cs, k + 1, e, 2, "> "@, true);
            let m1 = marked_lines(cs, k, e, 2, "< "@, false);
            let m2 = marked_lines(cs, k + 1, e, 2, "> "@, true);
            lemma_all_free_cat(seq![r + "c"@ + r], m1);
            lemma_all_free_cat(seq![r + "c"@ + r] + m1, seq!["---"@]);
            lemma_all_free_cat(seq![r + "c"@ + r] + m1 + seq!["---"@], m2);
        } else {
            let e = rem_run_end(cs, k, start);
            let r = line_range(start, (start + (e - k) - 1) as nat);
            let n = (start - 1) as nat;
            lemma_range_no_i(start, (start + (e - k) - 1) as nat);
            lemma_decimal_no_i(n);
            lemma_header_free(r, "d"@, decimal(n));
            let h = r + "d"@ + decimal(n);
            assert(all_free(seq![h])) by { assert(seq![h][0] == h); }
            lemma_marked_free(cs, k, e, 1, "< "@, false);
            lemma_all_free_cat(seq![h], marked_lines(cs, k, e, 1, "< "@, false));
        },
        ChangeView::Added(..) => {
            let e = add_run_end(cs, k, start);
            let r = line_range(start, (start + (e - k) - 1) as nat);
            let n = (start - 1) as nat;
            lemma_range_no_i(start, (start + (e - k) - 1) as nat);
            lemma_decimal_no_i(n);
            lemma_header_free(decimal(n), "a"@, r);
            let h = decimal(n) + "a"@ + r;
            assert(all_free(seq![h])) by { assert(seq![h][0] == h); }
            lemma_marked_free(cs, k, e, 1, "> "@, true);
            lemma_all_free_cat(seq![h], marked_lines(cs, k, e, 1, "> "@, true));
        },
    }
}

proof fn lemma_classic_lines_free(cs: Seq<ChangeView>, k: int)
    requires
        texts_free(cs),
    ensures
        all_free(classic_lines(cs, k)),
    decreases cs.len() - k,
{
    if !(k < 0 || k >= cs.len()) {
        let next = classic_chunk(cs, k).1;
        if !(next <= k || next > cs.len()) {
            lemma_chunk_free(cs, k);
            lemma_classic_lines_free(cs, next);
            lemma_all_free_cat(chunk_lines(cs, k), classic_lines(cs, next));
        }
    }
}

proof fn lemma_unlines_free(ls: Seq<Seq<char>>)
    requires
        all_free(ls),
    ensures
        free(unlines(ls)),
    decreases ls.len(),
{
    reveal_strlit("\n");
    if ls.len() == 0 {
        lemma_no_i_free(Seq::<char>::empty());
    } else {
        let rest = ls.drop_first();
        assert(all_free(rest)) by {
            assert forall|m: int| 0 <= m < rest.len() implies free(#[trigger] rest[m]) by {
                assert(rest[m] == ls[m + 1]);
            }
        }
        lemma_unlines_free(rest);
        assert(free(ls[0]));
        lemma_no_i_free("\n"@);
        lemma_concat_free(ls[0], "\n"@);
        lemma_concat_free(ls[0] + "\n"@, unlines(rest));
    }
}

proof fn lemma_classic_free(cs: Seq<ChangeView>)
    requires
        texts_free(cs),
    ensures
        free(spec_format_classic_diff(cs)),
{
    crate::classic_laws::lemma_classic_text(cs, 0);
    lemma_classic_lines_free(cs, 0);
    lemma_unlines_free(classic_lines(cs, 0));
}

// ----- the law ----------------------------------------------------------------------

/// A file comparison prints the word "identical" exactly when the two
/// contents are the same bytes, whatever it ends up showing (the verdict,
/// the invisible-difference message or raw text, the condensed rendering or
/// the classic diff), provided the paths and contents do not themselves
/// spell it out.
pub proof fn law_comparison_says_identical_only_for_equal_contents(
    file1: Seq<char>,
    file2: Seq<char>,
    content1: Seq<char>,
    content2: Seq<char>,
)
    requires
        free(file1),
        free(file2),
        free(content1),
        free(content2),
    ensures
        contains_seq(spec_compare(file1, file2, content1, content2).0, identity_word()) <==> content1 == content2,
{
    let x = spec_lines(content1);
    let y = spec_lines(content2);
    let d = spec_compute_diff(x, y);
    lemma_lines_free(content1);
    lemma_lines_free(content2);
    lemma_changes_free(x, y);
    crate::render_laws::law_only_equal_contents_are_called_identical(file1, file2, content1, content2, d);
    if content1 == content2 {
        crate::line_diff_laws::law_no_changes_iff_equal(x, y);
    } else if d.changes.len() == 0 {
        crate::render_laws::law_invisible_report_never_says_identical(file1, file2, content1, content2);
        reveal_strlit("\n---\n");
        lemma_no_i_free("\n---\n"@);
        lemma_concat_free(content1, "\n---\n"@);
        lemma_concat_free(content1 + "\n---\n"@, content2);
        assert(free(raw_pair(content1, content2)));
    } else {
        lemma_texts_free(d.changes);
        lemma_classic_free(d.changes);
    }
}

/// Files whose bytes differ but whose lines match get the
/// invisible-difference message while its text after the `file1 → file2`
/// header line costs at most `INVISIBLE_DIFF_TOKEN_ALLOWANCE` tokens more
/// than both files shown raw, and the raw text otherwise; either way the
/// exit code is 1.
pub proof fn law_invisible_difference_within_allowance(
    file1: Seq<char>,
    file2: Seq<char>,
    content1: Seq<char>,
    content2: Seq<char>,
)
    requires
        content1 != content2,
        spec_compute_diff(spec_lines(content1), spec_lines(content2)).changes.len() == 0,
    ensures
        ({
            let message = spec_describe_invisible_difference(file1, file2, content1, content2);
            let body = message.skip(crate::render::invisible_header(file1, file2).len() as int);
            let raw = raw_pair(content1, content2);
            let (shown, code) = spec_compare(file1, file2, content1, content2);
            &&& code == 1
            &&& crate::tokens::spec_estimate_tokens(body) <= crate::tokens::spec_estimate_tokens(raw)
                + crate::guard::INVISIBLE_DIFF_TOKEN_ALLOWANCE ==> shown == message
            &&& crate::tokens::spec_estimate_tokens(body) > crate::tokens::spec_estimate_tokens(raw)
                + crate::guard::INVISIBLE_DIFF_TOKEN_ALLOWANCE ==> shown == raw
        }),
{
    crate::render::lemma_invisible_parts(file1, file2, content1, content2);
    let h = crate::render::invisible_header(file1, file2);
    let b = crate::render::invisible_body(content1, content2);
    assert((h + b).skip(h.len() as int) =~= b);
}

} // verus!
