//! How many lines a diff marks as changed: exactly those that a longest
//! common subsequence of the two files leaves over.
use vstd::prelude::*;

use crate::line_diff_spec::{
    ChangeView, LCS_CELL_CAP, OpView, count_added, count_modified, count_removed, del_run_end,
    dels_from, diff_ops, edit_script, fold_changes, ins_run_end, inss_from, is_del, lcs_len,
    pair_change, pairs_upto, prefix_len, run_changes, spec_compute_diff, suffix_trim, unpaired,
};

verus! {

/// One more common line at the end of both sides lengthens the LCS by one.
proof fn lemma_lcs_push(u: Seq<Seq<char>>, v: Seq<Seq<char>>, c: Seq<char>, i: int, j: int)
    requires
        0 <= i <= u.len(),
        0 <= j <= v.len(),
    ensures
        lcs_len(u.push(c), v.push(c), i, j) == lcs_len(u, v, i, j) + 1,
    decreases u.len() - i + v.len() - j,
{
    let u2 = u.push(c);
    let v2 = v.push(c);
    if i == u.len() && j == v.len() {
        assert(lcs_len(u2, v2, i + 1, j + 1) == 0);
    } else if i == u.len() {
        assert(u2[i] == c);
        assert(v2[j] == v[j]);
        assert(lcs_len(u2, v2, i + 1, j) == 0);
        assert(lcs_len(u, v, i, j) == 0);
        if v[j] == c {
            assert(lcs_len(u2, v2, i + 1, j + 1) == 0);
        } else {
            lemma_lcs_push(u, v, c, i, j + 1);
            assert(lcs_len(u, v, i, j + 1) == 0);
        }
    } else if j == v.len() {
        assert(v2[j] == c);
        assert(u2[i] == u[i]);
        assert(lcs_len(u2, v2, i, j + 1) == 0);
        assert(lcs_len(u, v, i, j) == 0);
        if u[i] == c {
            assert(lcs_len(u2, v2, i + 1, j + 1) == 0);
        } else {
            lemma_lcs_push(u, v, c, i + 1, j);
            assert(lcs_len(u, v, i + 1, j) == 0);
        }
    } else {
        assert(u2[i] == u[i] && v2[j] == v[j]);
        if u[i] == v[j] {
            lemma_lcs_push(u, v, c, i + 1, j + 1);
        } else {
            lemma_lcs_push(u, v, c, i + 1, j);
            lemma_lcs_push(u, v, c, i, j + 1);
        }
    }
}

/// A common suffix of length `n` adds `n` to the LCS.
proof fn lemma_lcs_suffix(x: Seq<Seq<char>>, y: Seq<Seq<char>>, h1: int, h2: int, n: int, i: int, j: int)
    requires
        0 <= i <= h1,
        0 <= j <= h2,
        0 <= n,
        h1 + n <= x.len(),
        h2 + n <= y.len(),
        forall|k: int| 0 <= k < n ==> #[trigger] x[h1 + k] == y[h2 + k],
    ensures
        lcs_len(x.take(h1 + n), y.take(h2 + n), i, j) == lcs_len(x.take(h1), y.take(h2), i, j) + n,
    decreases n,
{
    if n > 0 {
        lemma_lcs_suffix(x, y, h1, h2, n - 1, i, j);
        let c = x[h1 + n - 1];
        assert(x[h1 + (n - 1)] == y[h2 + (n - 1)]);
        assert(x.take(h1 + n) =~= x.take(h1 + n - 1).push(c));
        assert(y.take(h2 + n) =~= y.take(h2 + n - 1).push(c));
        lemma_lcs_push(x.take(h1 + n - 1), y.take(h2 + n - 1), c, i, j);
    }
}

/// A common prefix up to `lo` adds one per line.
proof fn lemma_lcs_prefix(x: Seq<Seq<char>>, y: Seq<Seq<char>>, lo: int, k: int)
    requires
        0 <= k <= lo,
        lo <= x.len(),
        lo <= y.len(),
        forall|j: int| 0 <= j < lo ==> x[j] == y[j],
    ensures
        lcs_len(x, y, k, k) == (lo - k) + lcs_len(x, y, lo, lo),
    decreases lo - k,
{
    if k < lo {
        assert(x[k] == y[k]);
        lemma_lcs_prefix(x, y, lo, k + 1);
    }
}

/// The LCS from `(i, j)` does not depend on what precedes `lo`.
proof fn lemma_lcs_shift(x: Seq<Seq<char>>, y: Seq<Seq<char>>, lo: int, i: int, j: int)
    requires
        0 <= lo <= i,
        lo <= j,
        lo <= x.len(),
        lo <= y.len(),
    ensures
        lcs_len(x, y, i, j) == lcs_len(x.skip(lo), y.skip(lo), i - lo, j - lo),
    decreases x.len() - i + y.len() - j,
{
    if i < x.len() && j < y.len() {
        assert(x.skip(lo)[i - lo] == x[i]);
        assert(y.skip(lo)[j - lo] == y[j]);
        lemma_lcs_shift(x, y, lo, i + 1, j + 1);
        lemma_lcs_shift(x, y, lo, i + 1, j);
        lemma_lcs_shift(x, y, lo, i, j + 1);
    }
}

// ----- the LCS of the whole files --------------------------------------------------

/// The LCS of two files is their common prefix, the LCS of the trimmed
/// middles, and their common suffix.
proof fn lemma_lcs_trim(x: Seq<Seq<char>>, y: Seq<Seq<char>>)
    ensures
        ({
            let lo = prefix_len(x, y, 0);
            let (h1, h2) = suffix_trim(x, y, lo, x.len() as int, y.len() as int);
            lcs_len(x, y, 0, 0) == lo + lcs_len(x.subrange(lo, h1), y.subrange(lo, h2), 0, 0) + (x.len() - h1)
        }),
{
    crate::line_diff_laws::lemma_trim(x, y);
    let lo = prefix_len(x, y, 0);
    let (h1, h2) = suffix_trim(x, y, lo, x.len() as int, y.len() as int);
    let n = x.len() - h1;
    assert forall|k: int| 0 <= k < n implies #[trigger] x[h1 + k] == y[h2 + k] by {
        assert(x[h1 + k] == y[h1 + k - h1 + h2]);
    }
    lemma_lcs_suffix(x, y, h1, h2, n, 0, 0);
    assert(x.take(h1 + n) =~= x);
    assert(y.take(h2 + n) =~= y);
    let xx = x.take(h1);
    let yy = y.take(h2);
    lemma_lcs_prefix(xx, yy, lo, 0);
    lemma_lcs_shift(xx, yy, lo, lo, lo);
    assert(xx.skip(lo) =~= x.subrange(lo, h1));
    assert(yy.skip(lo) =~= y.subrange(lo, h2));
}

// ----- counting ops ------------------------------------------------------------------

/// How many deletions `ops` holds.
pub open spec fn del_count(ops: Seq<OpView>) -> nat
    decreases ops.len(),
{
    if ops.len() == 0 {
        0
    } else {
        del_count(ops.drop_last()) + if is_del(ops.last()) { 1nat } else { 0nat }
    }
}

/// How many insertions `ops` holds.
pub open spec fn ins_count(ops: Seq<OpView>) -> nat
    decreases ops.len(),
{
    if ops.len() == 0 {
        0
    } else {
        ins_count(ops.drop_last()) + if is_del(ops.last()) { 0nat } else { 1nat }
    }
}

proof fn lemma_op_counts_add(s1: Seq<OpView>, s2: Seq<OpView>)
    ensures
        del_count(s1 + s2) == del_count(s1) + del_count(s2),
        ins_count(s1 + s2) == ins_count(s1) + ins_count(s2),
    decreases s2.len(),
{
    if s2.len() == 0 {
        assert(s1 + s2 =~= s1);
    } else {
        lemma_op_counts_add(s1, s2.drop_last());
        assert((s1 + s2).drop_last() =~= s1 + s2.drop_last());
    }
}

proof fn lemma_one_op(o: OpView)
    ensures
        del_count(seq![o]) == if is_del(o) { 1nat } else { 0nat },
        ins_count(seq![o]) == if is_del(o) { 0nat } else { 1nat },
{
    let e = Seq::<OpView>::empty();
    assert(seq![o].drop_last() =~= e);
    assert(del_count(e) == 0 && ins_count(e) == 0);
    assert(seq![o].last() == o);
}

proof fn lemma_dels_from_counts(a: Seq<Seq<char>>, i: int, off: int)
    requires
        0 <= i <= a.len(),
    ensures
        del_count(dels_from(a, i, off)) == a.len() - i,
        ins_count(dels_from(a, i, off)) == 0,
    decreases a.len() - i,
{
    if i < a.len() {
        lemma_dels_from_counts(a, i + 1, off);
        let o = OpView::Del((off + i + 1) as nat, a[i]);
        lemma_one_op(o);
        lemma_op_counts_add(seq![o], dels_from(a, i + 1, off));
    }
}

proof fn lemma_inss_from_counts(b: Seq<Seq<char>>, j: int, off: int)
    requires
        0 <= j <= b.len(),
    ensures
        ins_count(inss_from(b, j, off)) == b.len() - j,
        del_count(inss_from(b, j, off)) == 0,
    decreases b.len() - j,
{
    if j < b.len() {
        lemma_inss_from_counts(b, j + 1, off);
        let o = OpView::Ins((off + j + 1) as nat, b[j]);
        lemma_one_op(o);
        lemma_op_counts_add(seq![o], inss_from(b, j + 1, off));
    }
}

/// The edit script deletes exactly the old lines and inserts exactly the
/// new lines that the LCS leaves over.
proof fn lemma_script_counts(a: Seq<Seq<char>>, b: Seq<Seq<char>>, i: int, j: int, off: int)
    requires
        0 <= i <= a.len(),
        0 <= j <= b.len(),
    ensures
        del_count(edit_script(a, b, i, j, off)) + lcs_len(a, b, i, j) == a.len() - i,
        ins_count(edit_script(a, b, i, j, off)) + lcs_len(a, b, i, j) == b.len() - j,
    decreases a.len() - i + b.len() - j,
{
    if i >= a.len() {
        lemma_inss_from_counts(b, j, off);
    } else if j >= b.len() {
        lemma_dels_from_counts(a, i, off);
    } else if a[i] == b[j] {
        lemma_script_counts(a, b, i + 1, j + 1, off);
    } else if lcs_len(a, b, i + 1, j) >= lcs_len(a, b, i, j + 1) {
        lemma_script_counts(a, b, i + 1, j, off);
        let o = OpView::Del((off + i + 1) as nat, a[i]);
        lemma_one_op(o);
        lemma_op_counts_add(seq![o], edit_script(a, b, i + 1, j, off));
    } else {
        lemma_script_counts(a, b, i, j + 1, off);
        let o = OpView::Ins((off + j + 1) as nat, b[j]);
        lemma_one_op(o);
        lemma_op_counts_add(seq![o], edit_script(a, b, i, j + 1, off));
    }
}

// ----- counting changes ----------------------------------------------------------------

proof fn lemma_change_counts_add(c1: Seq<ChangeView>, c2: Seq<ChangeView>)
    ensures
        count_added(c1 + c2) == count_added(c1) + count_added(c2),
        count_removed(c1 + c2) == count_removed(c1) + count_removed(c2),
        count_modified(c1 + c2) == count_modified(c1) + count_modified(c2),
    decreases c2.len(),
{
    if c2.len() == 0 {
        assert(c1 + c2 =~= c1);
    } else {
        lemma_change_counts_add(c1, c2.drop_last());
        assert((c1 + c2).drop_last() =~= c1 + c2.drop_last());
    }
}

proof fn lemma_pair_counts(d: OpView, i: OpView)
    ensures
        count_removed(pair_change(d, i)) + count_modified(pair_change(d, i)) == 1,
        count_added(pair_change(d, i)) + count_modified(pair_change(d, i)) == 1,
{
    let p = pair_change(d, i);
    let e = Seq::<ChangeView>::empty();
    assert(count_added(e) == 0 && count_removed(e) == 0 && count_modified(e) == 0);
    if crate::line_diff_spec::spec_similar(crate::line_diff_spec::op_text(d), crate::line_diff_spec::op_text(i)) {
        assert(p.drop_last() =~= e);
        assert(p.last() is Modified);
    } else {
        let q = p.drop_last();
        assert(q.drop_last() =~= e);
        assert(q.last() is Removed);
        assert(p.last() is Added);
        assert(count_added(q) == 0 && count_removed(q) == 1 && count_modified(q) == 0);
    }
}

proof fn lemma_pairs_counts(dels: Seq<OpView>, inss: Seq<OpView>, p: int)
    requires
        0 <= p,
    ensures
        count_removed(pairs_upto(dels, inss, p)) + count_modified(pairs_upto(dels, inss, p)) == p,
        count_added(pairs_upto(dels, inss, p)) + count_modified(pairs_upto(dels, inss, p)) == p,
    decreases p,
{
    if p > 0 {
        lemma_pairs_counts(dels, inss, p - 1);
        lemma_pair_counts(dels[p - 1], inss[p - 1]);
        lemma_change_counts_add(pairs_upto(dels, inss, p - 1), pair_change(dels[p - 1], inss[p - 1]));
    }
}

proof fn lemma_unpaired_counts(ops: Seq<OpView>)
    ensures
        count_removed(unpaired(ops)) == del_count(ops),
        count_added(unpaired(ops)) == ins_count(ops),
        count_modified(unpaired(ops)) == 0,
    decreases ops.len(),
{
    if ops.len() > 0 {
        lemma_unpaired_counts(ops.drop_last());
        let o = ops.last();
        let c = if is_del(o) {
            ChangeView::Removed(crate::line_diff_spec::op_line(o), crate::line_diff_spec::op_text(o))
        } else {
            ChangeView::Added(crate::line_diff_spec::op_line(o), crate::line_diff_spec::op_text(o))
        };
        let e = Seq::<ChangeView>::empty();
        assert(seq![c].drop_last() =~= e);
        assert(count_added(e) == 0 && count_removed(e) == 0 && count_modified(e) == 0);
        assert(seq![c].last() == c);
        lemma_change_counts_add(unpaired(ops.drop_last()), seq![c]);
        assert(unpaired(ops) == unpaired(ops.drop_last()) + seq![c]);
    }
}

/// All of `s` are deletions (`dels`) or all are insertions (`!dels`).
pub open spec fn all_kind(s: Seq<OpView>, dels: bool) -> bool {
    forall|k: int| 0 <= k < s.len() ==> is_del(#[trigger] s[k]) == dels
}

proof fn lemma_all_kind_counts(s: Seq<OpView>, dels: bool)
    requires
        all_kind(s, dels),
    ensures
        del_count(s) == if dels { s.len() } else { 0 },
        ins_count(s) == if dels { 0 } else { s.len() },
    decreases s.len(),
{
    if s.len() > 0 {
        assert(is_del(s[s.len() - 1]) == dels);
        assert forall|k: int| 0 <= k < s.drop_last().len() implies is_del(#[trigger] s.drop_last()[k]) == dels by {
            assert(s.drop_last()[k] == s[k]);
        }
        lemma_all_kind_counts(s.drop_last(), dels);
    }
}

pub(crate) proof fn lemma_del_run(ops: Seq<OpView>, k: int)
    requires
        0 <= k <= ops.len(),
    ensures
        forall|m: int| k <= m < del_run_end(ops, k) ==> is_del(#[trigger] ops[m]),
    decreases ops.len() - k,
{
    if k < ops.len() && is_del(ops[k]) {
        lemma_del_run(ops, k + 1);
    }
}

pub(crate) proof fn lemma_ins_run(ops: Seq<OpView>, k: int)
    requires
        0 <= k <= ops.len(),
    ensures
        forall|m: int| k <= m < ins_run_end(ops, k) ==> !is_del(#[trigger] ops[m]),
    decreases ops.len() - k,
{
    if k < ops.len() && !is_del(ops[k]) {
        lemma_ins_run(ops, k + 1);
    }
}

proof fn lemma_run_counts(dels: Seq<OpView>, inss: Seq<OpView>)
    requires
        all_kind(dels, true),
        all_kind(inss, false),
    ensures
        count_removed(run_changes(dels, inss)) + count_modified(run_changes(dels, inss)) == dels.len(),
        count_added(run_changes(dels, inss)) + count_modified(run_changes(dels, inss)) == inss.len(),
{
    let p = if dels.len() <= inss.len() { dels.len() } else { inss.len() };
    let pr = pairs_upto(dels, inss, p as int);
    let ud = unpaired(dels.skip(p as int));
    let ui = unpaired(inss.skip(p as int));
    lemma_pairs_counts(dels, inss, p as int);
    assert(all_kind(dels.skip(p as int), true));
    assert(all_kind(inss.skip(p as int), false));
    lemma_all_kind_counts(dels.skip(p as int), true);
    lemma_all_kind_counts(inss.skip(p as int), false);
    lemma_unpaired_counts(dels.skip(p as int));
    lemma_unpaired_counts(inss.skip(p as int));
    lemma_change_counts_add(pr, ud);
    lemma_change_counts_add(pr + ud, ui);
}

/// Folding turns each deletion into a removal or half a modification, and
/// each insertion into an addition or the other half.
proof fn lemma_fold_counts(ops: Seq<OpView>, k: int)
    requires
        0 <= k <= ops.len(),
    ensures
        count_removed(fold_changes(ops, k)) + count_modified(fold_changes(ops, k)) == del_count(ops.skip(k)),
        count_added(fold_changes(ops, k)) + count_modified(fold_changes(ops, k)) == ins_count(ops.skip(k)),
    decreases ops.len() - k,
{
    if k == ops.len() {
        assert(ops.skip(k) =~= Seq::<OpView>::empty());
    } else {
        crate::line_diff_laws::lemma_run_ends(ops, k);
        let d_end = del_run_end(ops, k);
        let i_end = ins_run_end(ops, d_end);
        let dels = ops.subrange(k, d_end);
        let inss = ops.subrange(d_end, i_end);
        lemma_del_run(ops, k);
        lemma_ins_run(ops, d_end);
        assert(all_kind(dels, true));
        assert(all_kind(inss, false));
        lemma_all_kind_counts(dels, true);
        lemma_all_kind_counts(inss, false);
        lemma_run_counts(dels, inss);
        lemma_fold_counts(ops, i_end);
        lemma_change_counts_add(run_changes(dels, inss), fold_changes(ops, i_end));
        assert(ops.skip(k) =~= dels + inss + ops.skip(i_end));
        lemma_op_counts_add(dels, inss);
        lemma_op_counts_add(dels + inss, ops.skip(i_end));
    }
}

proof fn lemma_mul_mono(a: int, b: int, x: int, y: int)
    requires
        0 <= a <= x,
        0 <= b <= y,
    ensures
        a * b <= x * y,
{
    assert(a * b <= x * b) by (nonlinear_arith)
        requires
            0 <= a <= x,
            0 <= b,
    ;
    assert(x * b <= x * y) by (nonlinear_arith)
        requires
            0 <= x,
            0 <= b <= y,
    ;
}

/// The diff marks as few lines as any alignment can: within the table cap,
/// the removed and modified lines are exactly the old lines that a longest
/// common subsequence of the two files leaves over, and the added and
/// modified lines exactly the new ones (see `law_lcs_len_is_longest`: no
/// common subsequence is longer).
pub proof fn law_diff_marks_only_what_the_lcs_leaves(x: Seq<Seq<char>>, y: Seq<Seq<char>>)
    requires
        x.len() * y.len() <= LCS_CELL_CAP,
    ensures
        ({
            let d = spec_compute_diff(x, y);
            &&& d.removed + d.modified + lcs_len(x, y, 0, 0) == x.len()
            &&& d.added + d.modified + lcs_len(x, y, 0, 0) == y.len()
        }),
{
    crate::line_diff_laws::lemma_trim(x, y);
    lemma_lcs_trim(x, y);
    let lo = prefix_len(x, y, 0);
    let (h1, h2) = suffix_trim(x, y, lo, x.len() as int, y.len() as int);
    let a = x.subrange(lo, h1);
    let b = y.subrange(lo, h2);
    lemma_mul_mono(a.len() as int, b.len() as int, x.len() as int, y.len() as int);
    let ops = diff_ops(x, y);
    assert(ops == edit_script(a, b, 0, 0, lo));
    lemma_script_counts(a, b, 0, 0, lo);
    lemma_fold_counts(ops, 0);
    assert(ops.skip(0) =~= ops);
}

/// The LCS edit script deletes exactly the lines of `a` and inserts exactly
/// the lines of `b` that a longest common subsequence leaves over.
pub proof fn law_edit_script_counts(a: Seq<Seq<char>>, b: Seq<Seq<char>>, off: int)
    ensures
        del_count(edit_script(a, b, 0, 0, off)) + lcs_len(a, b, 0, 0) == a.len(),
        ins_count(edit_script(a, b, 0, 0, off)) + lcs_len(a, b, 0, 0) == b.len(),
{
    lemma_script_counts(a, b, 0, 0, off);
}

} // verus!
