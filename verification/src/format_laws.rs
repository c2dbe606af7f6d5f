//! What each rendering shows, stated in terms of the changes and the files
//! they come from: which text stands on which side of an arrow, which count
//! stands after which sign, and which lines a classic command's range names.
use vstd::prelude::*;

use crate::classic_laws::{marked_lines, unlines};
use crate::line_diff_spec::{ChangeView, count_added, count_modified, count_removed, spec_compute_diff};
use crate::render::{
    add_run_end, change_line_no, change_text, classic_chunk, line_range, mod_run_end, pair_at,
    pair_run_end, rem_run_end, spec_format_diff_changes, spec_render_diff,
};
use crate::line_diff_spec::DiffView;
use crate::text::{decimal, decimal_width4, digits_value, ends_with, is_digit};

verus! {

// ----- runs of the classic rendering ------------------------------------------------

proof fn lemma_mod_run_lines(cs: Seq<ChangeView>, k: int, line: nat)
    requires
        0 <= k <= cs.len(),
    ensures
        k <= mod_run_end(cs, k, line) <= cs.len(),
        forall|j: int| k <= j < mod_run_end(cs, k, line) ==> #[trigger] cs[j] is Modified && change_line_no(cs[j]) == line + (j - k),
    decreases cs.len() - k,
{
    if k < cs.len() && cs[k] is Modified && change_line_no(cs[k]) == line {
        lemma_mod_run_lines(cs, k + 1, line + 1);
    }
}

proof fn lemma_rem_run_lines(cs: Seq<ChangeView>, k: int, line: nat)
    requires
        0 <= k <= cs.len(),
    ensures
        k <= rem_run_end(cs, k, line) <= cs.len(),
        forall|j: int| k <= j < rem_run_end(cs, k, line) ==> #[trigger] cs[j] is Removed && change_line_no(cs[j]) == line + (j - k),
    decreases cs.len() - k,
{
    if k < cs.len() && cs[k] is Removed && change_line_no(cs[k]) == line {
        lemma_rem_run_lines(cs, k + 1, line + 1);
    }
}

proof fn lemma_add_run_lines(cs: Seq<ChangeView>, k: int, line: nat)
    requires
        0 <= k <= cs.len(),
    ensures
        k <= add_run_end(cs, k, line) <= cs.len(),
        forall|j: int| k <= j < add_run_end(cs, k, line) ==> #[trigger] cs[j] is Added && change_line_no(cs[j]) == line + (j - k),
    decreases cs.len() - k,
{
    if k < cs.len() && cs[k] is Added && change_line_no(cs[k]) == line {
        lemma_add_run_lines(cs, k + 1, line + 1);
    }
}

proof fn lemma_pair_run_lines(cs: Seq<ChangeView>, k: int, line: nat)
    requires
        0 <= k <= cs.len(),
    ensures
        k <= pair_run_end(cs, k, line) <= cs.len(),
        (pair_run_end(cs, k, line) - k) % 2 == 0,
        forall|i: int| 0 <= i < (pair_run_end(cs, k, line) - k) / 2 ==> {
            &&& #[trigger] cs[k + 2 * i] is Removed
            &&& cs[k + 2 * i + 1] is Added
            &&& change_line_no(cs[k + 2 * i]) == line + i
            &&& change_line_no(cs[k + 2 * i + 1]) == line + i
        },
    decreases cs.len() - k,
{
    if pair_at(cs, k, line) {
        lemma_pair_run_lines(cs, k + 2, line + 1);
        let e = pair_run_end(cs, k, line);
        assert forall|i: int| 0 <= i < (e - k) / 2 implies {
            &&& #[trigger] cs[k + 2 * i] is Removed
            &&& cs[k + 2 * i + 1] is Added
            &&& change_line_no(cs[k + 2 * i]) == line + i
            &&& change_line_no(cs[k + 2 * i + 1]) == line + i
        } by {
            if i > 0 {
                let i2 = i - 1;
                assert(k + 2 + 2 * i2 == k + 2 * i);
                assert(0 <= i2 < (e - (k + 2)) / 2);
                assert(cs[(k + 2) + 2 * i2] is Removed);
            }
        }
    }
}

/// The lines a run writes, one per listed change.
proof fn lemma_marked1(cs: Seq<ChangeView>, a: int, e: int, marker: Seq<char>, new_side: bool)
    requires
        0 <= a <= e <= cs.len(),
    ensures
        marked_lines(cs, a, e, 1, marker, new_side) == Seq::new((e - a) as nat, |i: int| marker + change_text(cs[a + i], new_side)),
    decreases e - a,
{
    let ml = marked_lines(cs, a, e, 1, marker, new_side);
    if a < e {
        lemma_marked1(cs, a + 1, e, marker, new_side);
        assert forall|i: int| 0 <= i < e - a implies #[trigger] ml[i] == marker + change_text(cs[a + i], new_side) by {
            if i > 0 {
                assert(ml[i] == marked_lines(cs, a + 1, e, 1, marker, new_side)[i - 1]);
                assert(a + 1 + (i - 1) == a + i);
            }
        }
    }
    assert(ml =~= Seq::new((e - a) as nat, |i: int| marker + change_text(cs[a + i], new_side)));
}

/// The lines a run of pairs writes on one side, one per pair.
proof fn lemma_marked2(cs: Seq<ChangeView>, a: int, e: int, n: int, marker: Seq<char>, new_side: bool)
    requires
        0 <= a,
        e <= cs.len(),
        0 <= n,
        n == 0 ==> a >= e,
        n > 0 ==> a + 2 * (n - 1) < e && e <= a + 2 * n,
    ensures
        marked_lines(cs, a, e, 2, marker, new_side) == Seq::new(n as nat, |i: int| marker + change_text(cs[a + 2 * i], new_side)),
    decreases n,
{
    let ml = marked_lines(cs, a, e, 2, marker, new_side);
    if n > 0 {
        lemma_marked2(cs, a + 2, e, n - 1, marker, new_side);
        assert forall|i: int| 0 <= i < n implies #[trigger] ml[i] == marker + change_text(cs[a + 2 * i], new_side) by {
            if i > 0 {
                assert(ml[i] == marked_lines(cs, a + 2, e, 2, marker, new_side)[i - 1]);
                assert(a + 2 + 2 * (i - 1) == a + 2 * i);
            }
        }
    }
    assert(ml =~= Seq::new(n as nat, |i: int| marker + change_text(cs[a + 2 * i], new_side)));
}

/// Every command of the classic rendering names exactly the lines it lists.
/// A chunk starting at change `k` covers changes `k..e` of one kind (or
/// removal/addition pairs) on consecutive line numbers; its range runs from
/// the first listed change's line to the last one's, so the range spans as
/// many lines as the command lists; and the `< ` lines carry the old texts,
/// the `> ` lines the new texts, in order.
pub proof fn law_classic_commands_name_their_lines(cs: Seq<ChangeView>, k: int)
    requires
        0 <= k < cs.len(),
    ensures
        ({
            let (text, e) = classic_chunk(cs, k);
            let first = change_line_no(cs[k]);
            let last = change_line_no(cs[e - 1]);
            &&& k < e <= cs.len()
            &&& match cs[k] {
                ChangeView::Modified(..) => {
                    &&& forall|j: int| k <= j < e ==> #[trigger] cs[j] is Modified && change_line_no(cs[j]) == first + (j - k)
                    &&& last - first + 1 == e - k
                    &&& text == line_range(first, last) + "c"@ + line_range(first, last) + "\n"@
                        + unlines(Seq::new((e - k) as nat, |i: int| "< "@ + change_text(cs[k + i], false)))
                        + "---\n"@
                        + unlines(Seq::new((e - k) as nat, |i: int| "> "@ + change_text(cs[k + i], true)))
                },
                ChangeView::Removed(..) => if pair_at(cs, k, first) {
                    let n = (e - k) / 2;
                    &&& e - k == 2 * n
                    &&& forall|i: int| 0 <= i < n ==> {
                        &&& #[trigger] cs[k + 2 * i] is Removed
                        &&& cs[k + 2 * i + 1] is Added
                        &&& change_line_no(cs[k + 2 * i]) == first + i
                        &&& change_line_no(cs[k + 2 * i + 1]) == first + i
                    }
                    &&& last - first + 1 == n
                    &&& text == line_range(first, last) + "c"@ + line_range(first, last) + "\n"@
                        + unlines(Seq::new(n as nat, |i: int| "< "@ + change_text(cs[k + 2 * i], false)))
                        + "---\n"@
                        + unlines(Seq::new(n as nat, |i: int| "> "@ + change_text(cs[k + 2 * i + 1], true)))
                } else {
                    &&& forall|j: int| k <= j < e ==> #[trigger] cs[j] is Removed && change_line_no(cs[j]) == first + (j - k)
                    &&& last - first + 1 == e - k
                    &&& text == line_range(first, last) + "d"@ + decimal((first - 1) as nat) + "\n"@
                        + unlines(Seq::new((e - k) as nat, |i: int| "< "@ + change_text(cs[k + i], false)))
                },
                ChangeView::Added(..) => {
                    &&& forall|j: int| k <= j < e ==> #[trigger] cs[j] is Added && change_line_no(cs[j]) == first + (j - k)
                    &&& last - first + 1 == e - k
                    &&& text == decimal((first - 1) as nat) + "a"@ + line_range(first, last) + "\n"@
                        + unlines(Seq::new((e - k) as nat, |i: int| "> "@ + change_text(cs[k + i], true)))
                },
            }
        }),
{
    let first = change_line_no(cs[k]);
    match cs[k] {
        ChangeView::Modified(..) => {
            lemma_mod_run_lines(cs, k, first);
            let e = mod_run_end(cs, k, first);
            assert(e == mod_run_end(cs, k + 1, first + 1));
            lemma_mod_run_lines(cs, k + 1, first + 1);
            assert(cs[e - 1] is Modified);
            crate::classic_laws::lemma_marked_text(cs, k, e, 1, "< "@, false);
            crate::classic_laws::lemma_marked_text(cs, k, e, 1, "> "@, true);
            lemma_marked1(cs, k, e, "< "@, false);
            lemma_marked1(cs, k, e, "> "@, true);
        },
        ChangeView::Removed(..) => if pair_at(cs, k, first) {
            lemma_pair_run_lines(cs, k, first);
            let e = pair_run_end(cs, k, first);
            assert(e == pair_run_end(cs, k + 2, first + 1));
            lemma_pair_run_lines(cs, k + 2, first + 1);
            let n = (e - k) / 2;
            assert(n >= 1);
            assert(cs[k + 2 * (n - 1)] is Removed);
            assert(k + 2 * (n - 1) + 1 == e - 1);
            crate::classic_laws::lemma_marked_text(cs, k, e, 2, "< "@, false);
            crate::classic_laws::lemma_marked_text(cs, k + 1, e, 2, "> "@, true);
            lemma_marked2(cs, k, e, n, "< "@, false);
            lemma_marked2(cs, k + 1, e, n, "> "@, true);
            assert(Seq::new(n as nat, |i: int| "> "@ + change_text(cs[k + 1 + 2 * i], true))
                =~= Seq::new(n as nat, |i: int| "> "@ + change_text(cs[k + 2 * i + 1], true)));
        } else {
            lemma_rem_run_lines(cs, k, first);
            let e = rem_run_end(cs, k, first);
            assert(e == rem_run_end(cs, k + 1, first + 1));
            lemma_rem_run_lines(cs, k + 1, first + 1);
            assert(cs[e - 1] is Removed);
            crate::classic_laws::lemma_marked_text(cs, k, e, 1, "< "@, false);
            lemma_marked1(cs, k, e, "< "@, false);
        },
        ChangeView::Added(..) => {
            lemma_add_run_lines(cs, k, first);
            let e = add_run_end(cs, k, first);
            assert(e == add_run_end(cs, k + 1, first + 1));
            lemma_add_run_lines(cs, k + 1, first + 1);
            assert(cs[e - 1] is Added);
            crate::classic_laws::lemma_marked_text(cs, k, e, 1, "> "@, true);
            lemma_marked1(cs, k, e, "> "@, true);
        },
    }
}

// ----- the condensed rendering ------------------------------------------------------

/// The condensed line of one change, without its newline.
proof fn lemma_change_list_step(cs: Seq<ChangeView>)
    requires
        cs.len() > 0,
    ensures
        spec_format_diff_changes(cs) == spec_format_diff_changes(cs.drop_last()) + unlines(seq![
            match cs.last() {
                ChangeView::Added(ln, t) => "+"@ + decimal_width4(ln) + " "@ + t,
                ChangeView::Removed(ln, t) => "-"@ + decimal_width4(ln) + " "@ + t,
                ChangeView::Modified(ln, o, n) => "~"@ + decimal_width4(ln) + " "@ + o + " → "@ + n,
            },
        ]),
{
    let l = match cs.last() {
        ChangeView::Added(ln, t) => "+"@ + decimal_width4(ln) + " "@ + t,
        ChangeView::Removed(ln, t) => "-"@ + decimal_width4(ln) + " "@ + t,
        ChangeView::Modified(ln, o, n) => "~"@ + decimal_width4(ln) + " "@ + o + " → "@ + n,
    };
    assert(seq![l].drop_first() =~= Seq::<Seq<char>>::empty());
    assert(seq![l][0] == l);
    assert(unlines(Seq::<Seq<char>>::empty()) == Seq::<char>::empty());
    assert(unlines(seq![l]) == l + "\n"@ + unlines(Seq::<Seq<char>>::empty()));
    assert(unlines(seq![l]) =~= l + "\n"@);
}

proof fn lemma_unlines_push(ls: Seq<Seq<char>>, l: Seq<char>)
    ensures
        unlines(ls.push(l)) == unlines(ls) + unlines(seq![l]),
    decreases ls.len(),
{
    if ls.len() == 0 {
        assert(ls.push(l) =~= seq![l]);
        assert(unlines(ls) == Seq::<char>::empty());
        assert(Seq::<char>::empty() + unlines(seq![l]) =~= unlines(seq![l]));
    } else {
        lemma_unlines_push(ls.drop_first(), l);
        assert(ls.push(l).drop_first() =~= ls.drop_first().push(l));
        assert(ls.push(l)[0] == ls[0]);
        assert(ls[0] + "\n"@ + (unlines(ls.drop_first()) + unlines(seq![l]))
            =~= ls[0] + "\n"@ + unlines(ls.drop_first()) + unlines(seq![l]));
    }
}

/// The condensed change list is one line per change, in change order: an
/// addition is `+`, the line number right-aligned in four columns, a space
/// and the added text; a removal likewise with `-`; a modification is `~`,
/// the number, a space, the old text, ` → ` and the new text.
pub proof fn law_change_list_shows_each_change(cs: Seq<ChangeView>)
    ensures
        spec_format_diff_changes(cs) == unlines(Seq::new(cs.len(), |k: int|
            match cs[k] {
                ChangeView::Added(ln, t) => "+"@ + decimal_width4(ln) + " "@ + t,
                ChangeView::Removed(ln, t) => "-"@ + decimal_width4(ln) + " "@ + t,
                ChangeView::Modified(ln, o, n) => "~"@ + decimal_width4(ln) + " "@ + o + " → "@ + n,
            })),
    decreases cs.len(),
{
    let f = |c: ChangeView|
        match c {
            ChangeView::Added(ln, t) => "+"@ + decimal_width4(ln) + " "@ + t,
            ChangeView::Removed(ln, t) => "-"@ + decimal_width4(ln) + " "@ + t,
            ChangeView::Modified(ln, o, n) => "~"@ + decimal_width4(ln) + " "@ + o + " → "@ + n,
        };
    if cs.len() == 0 {
        assert(Seq::new(0nat, |k: int| f(cs[k])) =~= Seq::<Seq<char>>::empty());
        assert(unlines(Seq::<Seq<char>>::empty()) == Seq::<char>::empty());
    } else {
        let d = cs.drop_last();
        law_change_list_shows_each_change(d);
        lemma_change_list_step(cs);
        let prev = Seq::new(d.len(), |k: int| f(d[k]));
        assert(Seq::new(d.len(), |k: int|
            match d[k] {
                ChangeView::Added(ln, t) => "+"@ + decimal_width4(ln) + " "@ + t,
                ChangeView::Removed(ln, t) => "-"@ + decimal_width4(ln) + " "@ + t,
                ChangeView::Modified(ln, o, n) => "~"@ + decimal_width4(ln) + " "@ + o + " → "@ + n,
            }) =~= prev);
        lemma_unlines_push(prev, f(cs.last()));
        assert(prev.push(f(cs.last())) =~= Seq::new(cs.len(), |k: int| f(cs[k])));
        assert(Seq::new(cs.len(), |k: int|
            match cs[k] {
                ChangeView::Added(ln, t) => "+"@ + decimal_width4(ln) + " "@ + t,
                ChangeView::Removed(ln, t) => "-"@ + decimal_width4(ln) + " "@ + t,
                ChangeView::Modified(ln, o, n) => "~"@ + decimal_width4(ln) + " "@ + o + " → "@ + n,
            }) =~= Seq::new(cs.len(), |k: int| f(cs[k])));
    }
}

/// A line number takes at least four columns, right-aligned: its digits
/// come last, with only spaces before them.
pub proof fn law_line_numbers_fill_four_columns(n: nat)
    ensures
        decimal_width4(n).len() >= 4,
        decimal_width4(n).len() >= decimal(n).len(),
        decimal_width4(n).skip(decimal_width4(n).len() - decimal(n).len()) == decimal(n),
        forall|i: int| 0 <= i < decimal_width4(n).len() - decimal(n).len() ==> #[trigger] decimal_width4(n)[i] == ' ',
        decimal(n).len() >= 4 ==> decimal_width4(n) == decimal(n),
{
    let w = decimal_width4(n);
    let d = decimal(n);
    assert(w.skip(w.len() - d.len()) =~= d);
}

/// How many changes of each kind a change list holds.
pub proof fn law_counts_count_each_kind(cs: Seq<ChangeView>)
    ensures
        count_added(cs) == cs.filter(|c: ChangeView| c is Added).len(),
        count_removed(cs) == cs.filter(|c: ChangeView| c is Removed).len(),
        count_modified(cs) == cs.filter(|c: ChangeView| c is Modified).len(),
    decreases cs.len(),
{
    reveal(Seq::filter);
    if cs.len() > 0 {
        law_counts_count_each_kind(cs.drop_last());
    }
}

/// The condensed report of a diff with changes opens with the two paths
/// and a summary that puts the number of added changes after `+`, of
/// removed changes after `-` and of modified changes after `~`, then lists
/// the changes; a diff without changes reports identity with exit code 0.
pub proof fn law_summary_counts_each_kind(file1: Seq<char>, file2: Seq<char>, d: DiffView)
    requires
        d.added == count_added(d.changes),
        d.removed == count_removed(d.changes),
        d.modified == count_modified(d.changes),
    ensures
        d.changes.len() == 0 ==> spec_render_diff(file1, file2, d) == ("[ok] Files are identical\n"@, 0i32),
        d.changes.len() > 0 ==> spec_render_diff(file1, file2, d) == (
            file1 + " → "@ + file2 + "\n   +"@ + decimal(d.changes.filter(|c: ChangeView| c is Added).len())
                + " added, -"@ + decimal(d.changes.filter(|c: ChangeView| c is Removed).len())
                + " removed, ~"@ + decimal(d.changes.filter(|c: ChangeView| c is Modified).len())
                + " modified\n\n"@ + spec_format_diff_changes(d.changes),
            1i32,
        ),
{
    law_counts_count_each_kind(d.changes);
    reveal_strlit("\n");
    reveal_strlit("   +");
    reveal_strlit("\n   +");
    assert("\n"@ + "   +"@ =~= "\n   +"@);
    let a = file1 + " → "@ + file2;
    assert(a + "\n"@ + "   +"@ =~= a + "\n   +"@);
}

/// Every change of the diff of two files quotes them truly: a removed or
/// modified line's old text is the old file's line at its number, and an
/// added line or a modification's new text is a line of the new file. So
/// in the condensed list, the text before a modification's arrow comes from
/// the old file and the text after it from the new one.
pub proof fn law_changes_quote_their_files(x: Seq<Seq<char>>, y: Seq<Seq<char>>)
    ensures
        ({
            let cs = spec_compute_diff(x, y).changes;
            forall|k: int| 0 <= k < cs.len() ==> match #[trigger] cs[k] {
                ChangeView::Removed(ln, t) => 1 <= ln <= x.len() && x[ln - 1] == t,
                ChangeView::Modified(ln, o, n) => 1 <= ln <= x.len() && x[ln - 1] == o && y.contains(n),
                ChangeView::Added(_, t) => y.contains(t),
            }
        }),
{
    let cs = spec_compute_diff(x, y).changes;
    let ins = crate::line_diff_sides::inss_of(crate::line_diff_spec::diff_ops(x, y));
    crate::line_diff_sides::law_changes_follow_both_files(x, y);
    crate::compare_laws::lemma_changes_in_sides(cs);
    let os = crate::line_diff_sides::old_side(cs);
    let ns = crate::line_diff_sides::new_side(cs);
    assert forall|k: int| 0 <= k < cs.len() implies match #[trigger] cs[k] {
        ChangeView::Removed(ln, t) => 1 <= ln <= x.len() && x[ln - 1] == t,
        ChangeView::Modified(ln, o, n) => 1 <= ln <= x.len() && x[ln - 1] == o && y.contains(n),
        ChangeView::Added(_, t) => y.contains(t),
    } by {
        match cs[k] {
            ChangeView::Removed(ln, t) => {
                let j = choose|j: int| 0 <= j < os.len() && os[j] == (ln, t);
                assert(os[j].0 == ln);
            },
            ChangeView::Modified(ln, o, n) => {
                let j = choose|j: int| 0 <= j < os.len() && os[j] == (ln, o);
                assert(os[j].0 == ln);
                let j2 = choose|j: int| 0 <= j < ns.len() && ns[j] == n;
                assert(ns[j2] == crate::line_diff_sides::texts(ins)[j2]);
                assert(y[ins[j2].0 - 1] == ins[j2].1);
            },
            ChangeView::Added(_, t) => {
                let j = choose|j: int| 0 <= j < ns.len() && ns[j] == t;
                assert(ns[j] == crate::line_diff_sides::texts(ins)[j]);
                assert(y[ins[j].0 - 1] == ins[j].1);
            },
        }
    }
}

// ----- numbers, ranges, verdicts -----------------------------------------------------

/// `decimal(n)` is the usual base-ten spelling of `n`: digits only, their
/// value is `n`, and no leading zero.
pub proof fn law_decimal_spells_the_number(n: nat)
    ensures
        decimal(n).len() >= 1,
        forall|i: int| 0 <= i < decimal(n).len() ==> is_digit(#[trigger] decimal(n)[i]),
        digits_value(decimal(n)) == n,
        n > 0 ==> decimal(n)[0] != '0',
        n < 10 ==> decimal(n).len() == 1,
    decreases n,
{
    if n >= 10 {
        law_decimal_spells_the_number(n / 10);
        let d = decimal(n);
        assert(d.drop_last() == decimal(n / 10));
        assert(d[0] == decimal(n / 10)[0]);
        let r = (n % 10) as nat;
        assert(d.last() == crate::text::digit_char(r));
        lemma_digit_round_trip(r);
        assert(digits_value(d) == digits_value(decimal(n / 10)) * 10 + r);
        assert((n / 10) * 10 + n % 10 == n);
        assert forall|i: int| 0 <= i < d.len() implies is_digit(#[trigger] d[i]) by {
            if i < d.len() - 1 {
                assert(d[i] == decimal(n / 10)[i]);
            }
        }
    } else {
        lemma_digit_round_trip(n);
        assert(decimal(n) =~= seq![crate::text::digit_char(n)]);
        assert(decimal(n).drop_last() =~= Seq::<char>::empty());
        assert(digits_value(Seq::<char>::empty()) == 0);
    }
}

proof fn lemma_digit_round_trip(r: nat)
    requires
        r < 10,
    ensures
        crate::text::digit_value(crate::text::digit_char(r)) == r,
        is_digit(crate::text::digit_char(r)),
        r > 0 ==> crate::text::digit_char(r) != '0',
{
    if r == 0 {
        assert(('0' as nat) - ('0' as nat) == 0);
    } else if r == 1 {
        assert(('1' as nat) - ('0' as nat) == 1);
    } else if r == 2 {
        assert(('2' as nat) - ('0' as nat) == 2);
    } else if r == 3 {
        assert(('3' as nat) - ('0' as nat) == 3);
    } else if r == 4 {
        assert(('4' as nat) - ('0' as nat) == 4);
    } else if r == 5 {
        assert(('5' as nat) - ('0' as nat) == 5);
    } else if r == 6 {
        assert(('6' as nat) - ('0' as nat) == 6);
    } else if r == 7 {
        assert(('7' as nat) - ('0' as nat) == 7);
    } else if r == 8 {
        assert(('8' as nat) - ('0' as nat) == 8);
    } else {
        assert(('9' as nat) - ('0' as nat) == 9);
    }
}

/// A classic range names one line as its number, and several as the first
/// and last number joined by a comma.
pub proof fn law_line_range_form(a: nat, b: nat)
    ensures
        line_range(a, a) == decimal(a),
        a != b ==> line_range(a, b) == decimal(a) + ","@ + decimal(b),
{
}

/// The token estimate is the byte length divided by four, rounded up.
pub proof fn law_tokens_round_up(t: Seq<char>)
    ensures
        crate::tokens::spec_estimate_tokens(t) * 4 >= crate::tokens::byte_len(t),
        crate::tokens::spec_estimate_tokens(t) * 4 < crate::tokens::byte_len(t) + 4,
{
    let b = crate::tokens::byte_len(t);
    assert(((b + 3) / 4) * 4 >= b && ((b + 3) / 4) * 4 < b + 4) by (nonlinear_arith);
}

/// A file comparison says `[ok] Files are identical` with exit code 0
/// exactly for equal contents; contents that differ get exit code 1.
pub proof fn law_identity_verdict(file1: Seq<char>, file2: Seq<char>, content1: Seq<char>, content2: Seq<char>, d: DiffView)
    ensures
        content1 == content2 ==> crate::render::spec_render_file_diff(file1, file2, content1, content2, d)
            == ("[ok] Files are identical\n"@, 0i32),
        content1 != content2 ==> crate::render::spec_render_file_diff(file1, file2, content1, content2, d).1 == 1,
{
}

/// The report on files whose bytes differ but whose lines match names the
/// paths, then the causes it finds: different counts of `\r\n` pairs
/// (first file's count first), and a final newline present in one file but
/// not the other (first file first); with neither, the two byte lengths.
pub proof fn law_invisible_report_names_its_causes(file1: Seq<char>, file2: Seq<char>, content1: Seq<char>, content2: Seq<char>)
    ensures
        ({
            let c1 = crate::render::crlf_count(content1);
            let c2 = crate::render::crlf_count(content2);
            let n1 = ends_with(content1, "\n"@);
            let n2 = ends_with(content2, "\n"@);
            let crlf = "line endings: "@ + decimal(c1) + " CRLF vs "@ + decimal(c2) + " CRLF"@;
            let nl = "trailing newline: "@ + (if n1 { "present"@ } else { "absent"@ }) + " vs "@
                + (if n2 { "present"@ } else { "absent"@ });
            let notes = if c1 != c2 && n1 != n2 {
                crlf + "; "@ + nl
            } else if c1 != c2 {
                crlf
            } else if n1 != n2 {
                nl
            } else {
                decimal(crate::tokens::byte_len(content1)) + " vs "@ + decimal(crate::tokens::byte_len(content2))
                    + " bytes, invisible to a line-based diff"@
            };
            crate::render::spec_describe_invisible_difference(file1, file2, content1, content2)
                == file1 + " → "@ + file2 + "\n   differs, text matches ("@ + notes + ")\n"@
        }),
{
    let c1 = crate::render::crlf_count(content1);
    let c2 = crate::render::crlf_count(content2);
    let n1 = ends_with(content1, "\n"@);
    let n2 = ends_with(content2, "\n"@);
    let ns = crate::render::invisible_notes(content1, content2);
    let e = Seq::<Seq<char>>::empty();
    if c1 != c2 && n1 != n2 {
        let a = "line endings: "@ + decimal(c1) + " CRLF vs "@ + decimal(c2) + " CRLF"@;
        let b = "trailing newline: "@ + crate::render::presence(n1) + " vs "@ + crate::render::presence(n2);
        assert(ns == seq![a].push(b));
        assert(seq![a].push(b).drop_last() =~= seq![a]);
        assert(crate::text::join_with(seq![a], "; "@) == a);
    } else if c1 != c2 {
        let a = "line endings: "@ + decimal(c1) + " CRLF vs "@ + decimal(c2) + " CRLF"@;
        assert(ns =~= seq![a]);
    } else if n1 != n2 {
        let b = "trailing newline: "@ + crate::render::presence(n1) + " vs "@ + crate::render::presence(n2);
        assert(ns =~= e.push(b));
        assert(e.push(b) =~= seq![b]);
    }
}

/// What a comparison with changes shows is whichever of the condensed
/// rendering and the classic diff costs fewer tokens (the rendering on a
/// tie); without changes, the rendering.
pub proof fn law_shown_output_is_the_cheaper(d: DiffView, classic: Seq<char>, rendered: Seq<char>)
    ensures
        d.changes.len() == 0 ==> crate::render::spec_select_file_diff_output(d, classic, rendered) == rendered,
        d.changes.len() > 0 && crate::tokens::spec_estimate_tokens(rendered) <= crate::tokens::spec_estimate_tokens(classic)
            ==> crate::render::spec_select_file_diff_output(d, classic, rendered) == rendered,
        d.changes.len() > 0 && crate::tokens::spec_estimate_tokens(rendered) > crate::tokens::spec_estimate_tokens(classic)
            ==> crate::render::spec_select_file_diff_output(d, classic, rendered) == classic,
{
}

/// A whole comparison exits 0 exactly for equal contents and 1 otherwise.
pub proof fn law_comparison_exit_code(file1: Seq<char>, file2: Seq<char>, content1: Seq<char>, content2: Seq<char>)
    ensures
        crate::compare::spec_compare(file1, file2, content1, content2).1 == if content1 == content2 { 0i32 } else { 1i32 },
{
}

} // verus!
