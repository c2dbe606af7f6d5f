//! What holds of every line diff.
use vstd::prelude::*;

use crate::line_diff_spec::{
    ChangeView, LCS_CELL_CAP, OpView, del_run_end, dels_from, diff_ops, edit_script,
    fold_changes, ins_run_end, inss_from, is_del, op_line, op_text, pair_change, pairs_upto, prefix_len,
    lcs_len,
    run_changes, spec_compute_diff, suffix_trim, unpaired, wholesale,
};
use crate::render::{change_line_no, classic_ready};

verus! {

broadcast use vstd::seq_lib::group_seq_properties;

// ----- trimming ---------------------------------------------------------------

proof fn lemma_prefix_len(x: Seq<Seq<char>>, y: Seq<Seq<char>>, k: int)
    requires
        0 <= k <= x.len(),
        k <= y.len(),
    ensures
        k <= prefix_len(x, y, k) <= x.len(),
        prefix_len(x, y, k) <= y.len(),
        forall|j: int| k <= j < prefix_len(x, y, k) ==> x[j] == y[j],
        prefix_len(x, y, k) < x.len() && prefix_len(x, y, k) < y.len() ==> x[prefix_len(x, y, k)] != y[prefix_len(x, y, k)],
    decreases x.len() - k,
{
    if k < x.len() && k < y.len() && x[k] == y[k] {
        lemma_prefix_len(x, y, k + 1);
    }
}

proof fn lemma_suffix_trim(x: Seq<Seq<char>>, y: Seq<Seq<char>>, lo: int, h1: int, h2: int)
    requires
        0 <= lo <= h1 <= x.len(),
        lo <= h2 <= y.len(),
    ensures
        ({
            let (e1, e2) = suffix_trim(x, y, lo, h1, h2);
            &&& lo <= e1 <= h1
            &&& lo <= e2 <= h2
            &&& h1 - e1 == h2 - e2
            &&& forall|j: int| e1 <= j < h1 ==> #[trigger] x[j] == y[j - e1 + e2]
            &&& (e1 > lo && e2 > lo ==> x[e1 - 1] != y[e2 - 1])
        }),
    decreases h1 - lo,
{
    if h1 > lo && h2 > lo && x[h1 - 1] == y[h2 - 1] {
        lemma_suffix_trim(x, y, lo, h1 - 1, h2 - 1);
        let (e1, e2) = suffix_trim(x, y, lo, h1 - 1, h2 - 1);
        assert forall|j: int| e1 <= j < h1 implies #[trigger] x[j] == y[j - e1 + e2] by {
            if j < h1 - 1 {
            } else {
                assert(j - e1 + e2 == h2 - 1);
            }
        }
    }
}

// ----- edit scripts ----------------------------------------------------------------

/// Every op of `ops` carries a line number in `1..=bound`.
pub open spec fn ops_numbered(ops: Seq<OpView>, bound: nat) -> bool {
    forall|k: int| 0 <= k < ops.len() ==> 1 <= #[trigger] op_line(ops[k]) <= bound
}

/// Every change of `cs` carries a line number in `1..=bound`.
pub open spec fn changes_numbered(cs: Seq<ChangeView>, bound: nat) -> bool {
    forall|k: int| 0 <= k < cs.len() ==> 1 <= #[trigger] change_line_no(cs[k]) <= bound
}

proof fn lemma_dels_from(a: Seq<Seq<char>>, i: int, off: int)
    requires
        0 <= i,
        0 <= off,
    ensures
        ops_numbered(dels_from(a, i, off), (off + a.len()) as nat),
        dels_from(a, i, off).len() == if i < a.len() { a.len() - i } else { 0 },
    decreases a.len() - i,
{
    if i < a.len() {
        lemma_dels_from(a, i + 1, off);
        let r = dels_from(a, i, off);
        assert forall|k: int| 0 <= k < r.len() implies 1 <= #[trigger] op_line(r[k]) <= off + a.len() by {
            if k > 0 {
                assert(r[k] == dels_from(a, i + 1, off)[k - 1]);
            }
        }
    }
}

proof fn lemma_inss_from(b: Seq<Seq<char>>, j: int, off: int)
    requires
        0 <= j,
        0 <= off,
    ensures
        ops_numbered(inss_from(b, j, off), (off + b.len()) as nat),
        inss_from(b, j, off).len() == if j < b.len() { b.len() - j } else { 0 },
    decreases b.len() - j,
{
    if j < b.len() {
        lemma_inss_from(b, j + 1, off);
        let r = inss_from(b, j, off);
        assert forall|k: int| 0 <= k < r.len() implies 1 <= #[trigger] op_line(r[k]) <= off + b.len() by {
            if k > 0 {
                assert(r[k] == inss_from(b, j + 1, off)[k - 1]);
            }
        }
    }
}

proof fn lemma_ops_numbered_concat(s1: Seq<OpView>, s2: Seq<OpView>, bound: nat)
    requires
        ops_numbered(s1, bound),
        ops_numbered(s2, bound),
    ensures
        ops_numbered(s1 + s2, bound),
{
    assert forall|k: int| 0 <= k < (s1 + s2).len() implies 1 <= #[trigger] op_line((s1 + s2)[k]) <= bound by {
        if k < s1.len() {
            assert((s1 + s2)[k] == s1[k]);
        } else {
            assert((s1 + s2)[k] == s2[k - s1.len()]);
        }
    }
}

proof fn lemma_edit_script_numbered(a: Seq<Seq<char>>, b: Seq<Seq<char>>, i: int, j: int, off: int)
    requires
        0 <= i,
        0 <= j,
        0 <= off,
    ensures
        ops_numbered(edit_script(a, b, i, j, off), (off + if a.len() >= b.len() { a.len() } else { b.len() }) as nat),
    decreases a.len() - i, b.len() - j,
{
    let bound = (off + if a.len() >= b.len() { a.len() } else { b.len() }) as nat;
    if i >= a.len() {
        lemma_inss_from(b, j, off);
    } else if j >= b.len() {
        lemma_dels_from(a, i, off);
    } else if a[i] == b[j] {
        lemma_edit_script_numbered(a, b, i + 1, j + 1, off);
    } else if crate::line_diff_spec::lcs_len(a, b, i + 1, j) >= crate::line_diff_spec::lcs_len(a, b, i, j + 1) {
        lemma_edit_script_numbered(a, b, i + 1, j, off);
        lemma_ops_numbered_concat(seq![OpView::Del((off + i + 1) as nat, a[i])], edit_script(a, b, i + 1, j, off), bound);
    } else {
        lemma_edit_script_numbered(a, b, i, j + 1, off);
        lemma_ops_numbered_concat(seq![OpView::Ins((off + j + 1) as nat, b[j])], edit_script(a, b, i, j + 1, off), bound);
    }
}

/// What the trimming of `x` and `y` leaves: the middles and their offset.
pub(crate) proof fn lemma_trim(x: Seq<Seq<char>>, y: Seq<Seq<char>>)
    ensures
        ({
            let lo = prefix_len(x, y, 0);
            let (h1, h2) = suffix_trim(x, y, lo, x.len() as int, y.len() as int);
            &&& 0 <= lo <= h1 <= x.len()
            &&& lo <= h2 <= y.len()
            &&& x.len() - h1 == y.len() - h2
            &&& forall|j: int| 0 <= j < lo ==> x[j] == y[j]
            &&& forall|j: int| h1 <= j < x.len() ==> #[trigger] x[j] == y[j - h1 + h2]
            &&& (lo < h1 && lo < h2 ==> x[lo] != y[lo])
        }),
{
    lemma_prefix_len(x, y, 0);
    let lo = prefix_len(x, y, 0);
    lemma_suffix_trim(x, y, lo, x.len() as int, y.len() as int);
}

proof fn lemma_diff_ops_numbered(x: Seq<Seq<char>>, y: Seq<Seq<char>>)
    ensures
        ops_numbered(diff_ops(x, y), if x.len() >= y.len() { x.len() } else { y.len() }),
{
    lemma_trim(x, y);
    let lo = prefix_len(x, y, 0);
    let (h1, h2) = suffix_trim(x, y, lo, x.len() as int, y.len() as int);
    let a = x.subrange(lo, h1);
    let b = y.subrange(lo, h2);
    let bound = if x.len() >= y.len() { x.len() } else { y.len() };
    if a.len() * b.len() > LCS_CELL_CAP {
        lemma_dels_from(a, 0, lo);
        lemma_inss_from(b, 0, lo);
        lemma_ops_numbered_concat(dels_from(a, 0, lo), inss_from(b, 0, lo), bound);
    } else {
        lemma_edit_script_numbered(a, b, 0, 0, lo);
    }
}

// ----- folding ------------------------------------------------------------------------

proof fn lemma_changes_numbered_concat(s1: Seq<ChangeView>, s2: Seq<ChangeView>, bound: nat)
    requires
        changes_numbered(s1, bound),
        changes_numbered(s2, bound),
    ensures
        changes_numbered(s1 + s2, bound),
{
    assert forall|k: int| 0 <= k < (s1 + s2).len() implies 1 <= #[trigger] change_line_no((s1 + s2)[k]) <= bound by {
        if k < s1.len() {
            assert((s1 + s2)[k] == s1[k]);
        } else {
            assert((s1 + s2)[k] == s2[k - s1.len()]);
        }
    }
}

proof fn lemma_unpaired_numbered(ops: Seq<OpView>, bound: nat)
    requires
        ops_numbered(ops, bound),
    ensures
        changes_numbered(unpaired(ops), bound),
        unpaired(ops).len() == ops.len(),
    decreases ops.len(),
{
    if ops.len() > 0 {
        assert(ops_numbered(ops.drop_last(), bound));
        lemma_unpaired_numbered(ops.drop_last(), bound);
        let o = ops.last();
        assert(1 <= op_line(ops[ops.len() - 1]) <= bound);
        let tail = seq![
            if is_del(o) {
                ChangeView::Removed(op_line(o), crate::line_diff_spec::op_text(o))
            } else {
                ChangeView::Added(op_line(o), crate::line_diff_spec::op_text(o))
            },
        ];
        assert(changes_numbered(tail, bound));
        lemma_changes_numbered_concat(unpaired(ops.drop_last()), tail, bound);
    }
}

proof fn lemma_pairs_numbered(dels: Seq<OpView>, inss: Seq<OpView>, p: int, bound: nat)
    requires
        ops_numbered(dels, bound),
        p <= dels.len(),
        p <= inss.len(),
    ensures
        changes_numbered(pairs_upto(dels, inss, p), bound),
        p > 0 ==> pairs_upto(dels, inss, p).len() > 0,
    decreases p,
{
    if p > 0 {
        lemma_pairs_numbered(dels, inss, p - 1, bound);
        assert(1 <= op_line(dels[p - 1]) <= bound);
        assert(changes_numbered(pair_change(dels[p - 1], inss[p - 1]), bound));
        lemma_changes_numbered_concat(pairs_upto(dels, inss, p - 1), pair_change(dels[p - 1], inss[p - 1]), bound);
    }
}

proof fn lemma_run_changes(dels: Seq<OpView>, inss: Seq<OpView>, bound: nat)
    requires
        ops_numbered(dels, bound),
        ops_numbered(inss, bound),
    ensures
        changes_numbered(run_changes(dels, inss), bound),
        dels.len() + inss.len() > 0 ==> run_changes(dels, inss).len() > 0,
{
    let p = if dels.len() <= inss.len() { dels.len() } else { inss.len() };
    lemma_pairs_numbered(dels, inss, p as int, bound);
    assert(ops_numbered(dels.skip(p as int), bound));
    assert(ops_numbered(inss.skip(p as int), bound));
    lemma_unpaired_numbered(dels.skip(p as int), bound);
    lemma_unpaired_numbered(inss.skip(p as int), bound);
    lemma_changes_numbered_concat(pairs_upto(dels, inss, p as int), unpaired(dels.skip(p as int)), bound);
    lemma_changes_numbered_concat(
        pairs_upto(dels, inss, p as int) + unpaired(dels.skip(p as int)),
        unpaired(inss.skip(p as int)),
        bound,
    );
}

pub(crate) proof fn lemma_run_ends(ops: Seq<OpView>, k: int)
    requires
        0 <= k < ops.len(),
    ensures
        k <= del_run_end(ops, k) <= ins_run_end(ops, del_run_end(ops, k)) <= ops.len(),
        ins_run_end(ops, del_run_end(ops, k)) > k,
{
    lemma_del_run_end_bounds(ops, k);
    lemma_ins_run_end_bounds(ops, del_run_end(ops, k));
    if !is_del(ops[k]) {
        assert(del_run_end(ops, k) == k);
        assert(ins_run_end(ops, k) == ins_run_end(ops, k + 1));
        lemma_ins_run_end_bounds(ops, k + 1);
    } else {
        lemma_del_run_end_bounds(ops, k + 1);
    }
}

proof fn lemma_del_run_end_bounds(ops: Seq<OpView>, k: int)
    requires
        0 <= k <= ops.len(),
    ensures
        k <= del_run_end(ops, k) <= ops.len(),
    decreases ops.len() - k,
{
    if k < ops.len() && is_del(ops[k]) {
        lemma_del_run_end_bounds(ops, k + 1);
    }
}

proof fn lemma_ins_run_end_bounds(ops: Seq<OpView>, k: int)
    requires
        0 <= k <= ops.len(),
    ensures
        k <= ins_run_end(ops, k) <= ops.len(),
    decreases ops.len() - k,
{
    if k < ops.len() && !is_del(ops[k]) {
        lemma_ins_run_end_bounds(ops, k + 1);
    }
}

proof fn lemma_fold_numbered(ops: Seq<OpView>, k: int, bound: nat)
    requires
        ops_numbered(ops, bound),
        0 <= k,
    ensures
        changes_numbered(fold_changes(ops, k), bound),
        k < ops.len() ==> fold_changes(ops, k).len() > 0,
    decreases ops.len() - k,
{
    if k < ops.len() {
        lemma_run_ends(ops, k);
        let d_end = del_run_end(ops, k);
        let i_end = ins_run_end(ops, d_end);
        let dels = ops.subrange(k, d_end);
        let inss = ops.subrange(d_end, i_end);
        assert(ops_numbered(dels, bound));
        assert(ops_numbered(inss, bound));
        lemma_run_changes(dels, inss, bound);
        lemma_fold_numbered(ops, i_end, bound);
        lemma_changes_numbered_concat(run_changes(dels, inss), fold_changes(ops, i_end), bound);
    }
}

// ----- the laws ----------------------------------------------------------------------

/// Two line sequences produce no changes exactly when they are equal: the
/// diff never reports a difference between equal inputs and never misses
/// one between unequal inputs.
pub proof fn law_no_changes_iff_equal(x: Seq<Seq<char>>, y: Seq<Seq<char>>)
    ensures
        spec_compute_diff(x, y).changes.len() == 0 <==> x == y,
{
    lemma_trim(x, y);
    let lo = prefix_len(x, y, 0);
    let (h1, h2) = suffix_trim(x, y, lo, x.len() as int, y.len() as int);
    let a = x.subrange(lo, h1);
    let b = y.subrange(lo, h2);
    let ops = diff_ops(x, y);
    lemma_diff_ops_numbered(x, y);
    let bound = if x.len() >= y.len() { x.len() } else { y.len() };
    lemma_fold_numbered(ops, 0, bound);
    if a.len() == 0 && b.len() == 0 {
        // Both middles empty: the prefix and the suffix cover both sides.
        assert(h1 == lo && h2 == lo);
        assert(x.len() == y.len());
        assert(x =~= y) by {
            assert forall|j: int| 0 <= j < x.len() implies x[j] == y[j] by {
                if j >= lo {
                    assert(x[j] == y[j - h1 + h2]);
                }
            }
        }
        assert(edit_script(a, b, 0, 0, lo) =~= Seq::<OpView>::empty());
        assert(ops.len() == 0);
    } else {
        // Some middle line remains, so the script holds an op.
        if a.len() * b.len() > LCS_CELL_CAP {
            lemma_dels_from(a, 0, lo);
            lemma_inss_from(b, 0, lo);
            assert(wholesale(a, b, lo).len() > 0);
        } else if a.len() == 0 {
            lemma_inss_from(b, 0, lo);
            assert(ops == inss_from(b, 0, lo));
        } else if b.len() == 0 {
            lemma_dels_from(a, 0, lo);
            assert(ops == dels_from(a, 0, lo));
        } else {
            assert(a[0] == x[lo] && b[0] == y[lo]);
            assert(a[0] != b[0]);
            assert(ops.len() > 0);
        }
        assert(ops.len() > 0);
        if x == y {
            lemma_prefix_len(x, y, 0);
            assert(lo == x.len());
        }
    }
}

/// Every change of a diff is numbered within the longer of the two inputs,
/// from 1: the change list is always one a classic diff can print.
pub proof fn law_changes_are_numbered_within_the_files(x: Seq<Seq<char>>, y: Seq<Seq<char>>)
    ensures
        changes_numbered(spec_compute_diff(x, y).changes, if x.len() >= y.len() { x.len() } else { y.len() }),
        x.len() < usize::MAX && y.len() < usize::MAX ==> classic_ready(spec_compute_diff(x, y).changes),
{
    let bound = if x.len() >= y.len() { x.len() } else { y.len() };
    lemma_diff_ops_numbered(x, y);
    lemma_fold_numbered(diff_ops(x, y), 0, bound);
}


// ----- the edit script is a valid, LCS-sized alignment --------------------------------

/// The 0-based old-file positions the script deletes.
pub open spec fn del_set(ops: Seq<OpView>, off: int) -> Set<int>
    decreases ops.len(),
{
    if ops.len() == 0 {
        Set::empty()
    } else {
        let rest = del_set(ops.drop_first(), off);
        if is_del(ops[0]) {
            rest.insert(op_line(ops[0]) - off - 1)
        } else {
            rest
        }
    }
}

/// The 0-based new-file positions the script inserts.
pub open spec fn ins_set(ops: Seq<OpView>, off: int) -> Set<int>
    decreases ops.len(),
{
    if ops.len() == 0 {
        Set::empty()
    } else {
        let rest = ins_set(ops.drop_first(), off);
        if !is_del(ops[0]) {
            rest.insert(op_line(ops[0]) - off - 1)
        } else {
            rest
        }
    }
}

/// The lines of `a[k..]` whose positions are not in `s`.
pub open spec fn drop_indices(a: Seq<Seq<char>>, s: Set<int>, k: int) -> Seq<Seq<char>>
    decreases a.len() - k,
{
    if k < 0 || k >= a.len() {
        Seq::empty()
    } else if s.contains(k) {
        drop_indices(a, s, k + 1)
    } else {
        seq![a[k]] + drop_indices(a, s, k + 1)
    }
}

/// Each deletion names the old line it removes, and each insertion the new
/// line it adds, by position and text.
pub open spec fn ops_match(ops: Seq<OpView>, a: Seq<Seq<char>>, b: Seq<Seq<char>>, off: int) -> bool {
    forall|k: int| 0 <= k < ops.len() ==> {
        let p = op_line(#[trigger] ops[k]) - off - 1;
        if is_del(ops[k]) {
            0 <= p < a.len() && op_text(ops[k]) == a[p]
        } else {
            0 <= p < b.len() && op_text(ops[k]) == b[p]
        }
    }
}

proof fn lemma_drop_indices_agree(a: Seq<Seq<char>>, s1: Set<int>, s2: Set<int>, k: int)
    requires
        forall|x: int| x >= k ==> (s1.contains(x) <==> s2.contains(x)),
    ensures
        drop_indices(a, s1, k) == drop_indices(a, s2, k),
    decreases a.len() - k,
{
    if 0 <= k < a.len() {
        lemma_drop_indices_agree(a, s1, s2, k + 1);
    }
}

proof fn lemma_drop_indices_all(a: Seq<Seq<char>>, s: Set<int>, k: int)
    requires
        forall|x: int| k <= x < a.len() ==> s.contains(x),
    ensures
        drop_indices(a, s, k) == Seq::<Seq<char>>::empty(),
    decreases a.len() - k,
{
    if 0 <= k < a.len() {
        lemma_drop_indices_all(a, s, k + 1);
    }
}

proof fn lemma_prepend_sets(op: OpView, rest: Seq<OpView>, off: int)
    ensures
        (seq![op] + rest).drop_first() == rest,
        del_set(seq![op] + rest, off) == if is_del(op) { del_set(rest, off).insert(op_line(op) - off - 1) } else { del_set(rest, off) },
        ins_set(seq![op] + rest, off) == if !is_del(op) { ins_set(rest, off).insert(op_line(op) - off - 1) } else { ins_set(rest, off) },
{
    assert((seq![op] + rest).drop_first() =~= rest);
    assert((seq![op] + rest)[0] == op);
}

proof fn lemma_dels_from_sets(a: Seq<Seq<char>>, b: Seq<Seq<char>>, i: int, off: int)
    requires
        0 <= i <= a.len(),
        0 <= off,
    ensures
        forall|x: int| del_set(dels_from(a, i, off), off).contains(x) <==> i <= x < a.len(),
        ins_set(dels_from(a, i, off), off) == Set::<int>::empty(),
        ops_match(dels_from(a, i, off), a, b, off),
    decreases a.len() - i,
{
    if i < a.len() {
        lemma_dels_from_sets(a, b, i + 1, off);
        let op = OpView::Del((off + i + 1) as nat, a[i]);
        lemma_prepend_sets(op, dels_from(a, i + 1, off), off);
        let r = dels_from(a, i, off);
        assert forall|k: int| 0 <= k < r.len() implies ({
            let p = op_line(#[trigger] r[k]) - off - 1;
            if is_del(r[k]) { 0 <= p < a.len() && op_text(r[k]) == a[p] } else { 0 <= p < b.len() && op_text(r[k]) == b[p] }
        }) by {
            if k > 0 {
                assert(r[k] == dels_from(a, i + 1, off)[k - 1]);
            } else {
                assert(r[0] == op);
            }
        }
    } else {
        assert(del_set(dels_from(a, i, off), off) =~= Set::<int>::empty());
    }
}

proof fn lemma_inss_from_sets(a: Seq<Seq<char>>, b: Seq<Seq<char>>, j: int, off: int)
    requires
        0 <= j <= b.len(),
        0 <= off,
    ensures
        forall|y: int| ins_set(inss_from(b, j, off), off).contains(y) <==> j <= y < b.len(),
        del_set(inss_from(b, j, off), off) == Set::<int>::empty(),
        ops_match(inss_from(b, j, off), a, b, off),
    decreases b.len() - j,
{
    if j < b.len() {
        lemma_inss_from_sets(a, b, j + 1, off);
        let op = OpView::Ins((off + j + 1) as nat, b[j]);
        lemma_prepend_sets(op, inss_from(b, j + 1, off), off);
        let r = inss_from(b, j, off);
        assert forall|k: int| 0 <= k < r.len() implies ({
            let p = op_line(#[trigger] r[k]) - off - 1;
            if is_del(r[k]) { 0 <= p < a.len() && op_text(r[k]) == a[p] } else { 0 <= p < b.len() && op_text(r[k]) == b[p] }
        }) by {
            if k > 0 {
                assert(r[k] == inss_from(b, j + 1, off)[k - 1]);
            } else {
                assert(r[0] == op);
            }
        }
    } else {
        assert(ins_set(inss_from(b, j, off), off) =~= Set::<int>::empty());
    }
}

proof fn lemma_ops_match_prepend(op: OpView, rest: Seq<OpView>, a: Seq<Seq<char>>, b: Seq<Seq<char>>, off: int)
    requires
        ops_match(rest, a, b, off),
        ops_match(seq![op], a, b, off),
    ensures
        ops_match(seq![op] + rest, a, b, off),
{
    let r = seq![op] + rest;
    assert forall|k: int| 0 <= k < r.len() implies ({
        let p = op_line(#[trigger] r[k]) - off - 1;
        if is_del(r[k]) { 0 <= p < a.len() && op_text(r[k]) == a[p] } else { 0 <= p < b.len() && op_text(r[k]) == b[p] }
    }) by {
        if k == 0 {
            assert(r[0] == seq![op][0]);
        } else {
            assert(r[k] == rest[k - 1]);
        }
    }
}

proof fn lemma_script_valid(a: Seq<Seq<char>>, b: Seq<Seq<char>>, i: int, j: int, off: int)
    requires
        0 <= i <= a.len(),
        0 <= j <= b.len(),
        0 <= off,
    ensures
        ({
            let ops = edit_script(a, b, i, j, off);
            let d = del_set(ops, off);
            let s = ins_set(ops, off);
            &&& forall|x: int| d.contains(x) ==> i <= x < a.len()
            &&& forall|y: int| s.contains(y) ==> j <= y < b.len()
            &&& drop_indices(a, d, i) == drop_indices(b, s, j)
            &&& drop_indices(a, d, i).len() == lcs_len(a, b, i, j)
            &&& ops_match(ops, a, b, off)
        }),
    decreases a.len() - i, b.len() - j,
{
    let ops = edit_script(a, b, i, j, off);
    if i >= a.len() {
        lemma_inss_from_sets(a, b, j, off);
        lemma_drop_indices_all(b, ins_set(ops, off), j);
    } else if j >= b.len() {
        lemma_dels_from_sets(a, b, i, off);
        lemma_drop_indices_all(a, del_set(ops, off), i);
    } else if a[i] == b[j] {
        lemma_script_valid(a, b, i + 1, j + 1, off);
    } else if lcs_len(a, b, i + 1, j) >= lcs_len(a, b, i, j + 1) {
        lemma_script_valid(a, b, i + 1, j, off);
        let rest = edit_script(a, b, i + 1, j, off);
        let op = OpView::Del((off + i + 1) as nat, a[i]);
        lemma_prepend_sets(op, rest, off);
        assert(op_line(op) - off - 1 == i);
        lemma_drop_indices_agree(a, del_set(ops, off), del_set(rest, off), i + 1);
        assert(ops_match(seq![op], a, b, off)) by {
            assert(seq![op][0] == op);
        }
        lemma_ops_match_prepend(op, rest, a, b, off);
    } else {
        lemma_script_valid(a, b, i, j + 1, off);
        let rest = edit_script(a, b, i, j + 1, off);
        let op = OpView::Ins((off + j + 1) as nat, b[j]);
        lemma_prepend_sets(op, rest, off);
        assert(op_line(op) - off - 1 == j);
        lemma_drop_indices_agree(b, ins_set(ops, off), ins_set(rest, off), j + 1);
        assert(ops_match(seq![op], a, b, off)) by {
            assert(seq![op][0] == op);
        }
        lemma_ops_match_prepend(op, rest, a, b, off);
    }
}

/// The LCS edit script is a valid alignment of the two middles: each
/// deletion names an old line and each insertion a new line, by position and
/// text; what the script keeps of the old lines, in order, is exactly what it
/// keeps of the new lines; and it keeps `lcs_len` lines, so it deletes and
/// inserts no more than the table's common subsequence leaves over.
pub proof fn law_edit_script_aligns(a: Seq<Seq<char>>, b: Seq<Seq<char>>, off: int)
    requires
        0 <= off,
    ensures
        ({
            let ops = edit_script(a, b, 0, 0, off);
            let d = del_set(ops, off);
            let s = ins_set(ops, off);
            &&& ops_match(ops, a, b, off)
            &&& drop_indices(a, d, 0) == drop_indices(b, s, 0)
            &&& drop_indices(a, d, 0).len() == lcs_len(a, b, 0, 0)
        }),
{
    lemma_script_valid(a, b, 0, 0, off);
}


/// `ia`/`ib` pick a common subsequence of `a[i..]` and `b[j..]`: strictly
/// increasing positions whose lines agree pairwise.
pub open spec fn common_subsequence(a: Seq<Seq<char>>, b: Seq<Seq<char>>, ia: Seq<int>, ib: Seq<int>, i: int, j: int) -> bool {
    &&& ia.len() == ib.len()
    &&& forall|k: int| 0 <= k < ia.len() ==> i <= #[trigger] ia[k] < a.len() && j <= ib[k] < b.len()
    &&& forall|k: int| 0 <= k < ia.len() ==> a[#[trigger] ia[k]] == b[ib[k]]
    &&& forall|k: int, l: int| 0 <= k < l < ia.len() ==> #[trigger] ia[k] < #[trigger] ia[l] && ib[k] < ib[l]
}

proof fn lemma_lcs_is_longest(a: Seq<Seq<char>>, b: Seq<Seq<char>>, ia: Seq<int>, ib: Seq<int>, i: int, j: int)
    requires
        0 <= i,
        0 <= j,
        common_subsequence(a, b, ia, ib, i, j),
    ensures
        ia.len() <= lcs_len(a, b, i, j),
    decreases a.len() - i, b.len() - j,
{
    if ia.len() > 0 {
        let p = ia[0];
        let q = ib[0];
        assert(i <= p < a.len() && j <= q < b.len());
        if a[i] == b[j] {
            let ra = ia.drop_first();
            let rb = ib.drop_first();
            assert forall|k: int| 0 <= k < ra.len() implies i + 1 <= #[trigger] ra[k] < a.len() && j + 1 <= rb[k] < b.len() by {
                assert(ra[k] == ia[k + 1] && rb[k] == ib[k + 1]);
                assert(ia[0] < ia[k + 1]);
            }
            assert forall|k: int| 0 <= k < ra.len() implies a[#[trigger] ra[k]] == b[rb[k]] by {
                assert(ra[k] == ia[k + 1] && rb[k] == ib[k + 1]);
            }
            assert forall|k: int, l: int| 0 <= k < l < ra.len() implies #[trigger] ra[k] < #[trigger] ra[l] && rb[k] < rb[l] by {
                assert(ra[k] == ia[k + 1] && ra[l] == ia[l + 1]);
            }
            lemma_lcs_is_longest(a, b, ra, rb, i + 1, j + 1);
        } else if p > i {
            assert forall|k: int| 0 <= k < ia.len() implies i + 1 <= #[trigger] ia[k] < a.len() && j <= ib[k] < b.len() by {
                if k > 0 {
                    assert(ia[0] < ia[k]);
                }
            }
            lemma_lcs_is_longest(a, b, ia, ib, i + 1, j);
        } else {
            assert(q > j);
            assert forall|k: int| 0 <= k < ia.len() implies i <= #[trigger] ia[k] < a.len() && j + 1 <= ib[k] < b.len() by {
                if k > 0 {
                    assert(ia[0] < ia[k]);
                }
            }
            lemma_lcs_is_longest(a, b, ia, ib, i, j + 1);
        }
    }
}

/// No common subsequence of two line sequences is longer than `lcs_len`:
/// together with `law_edit_script_aligns`, the script keeps a longest common
/// subsequence and so deletes and inserts as few lines as any alignment can.
pub proof fn law_lcs_len_is_longest(a: Seq<Seq<char>>, b: Seq<Seq<char>>, ia: Seq<int>, ib: Seq<int>)
    requires
        common_subsequence(a, b, ia, ib, 0, 0),
    ensures
        ia.len() <= lcs_len(a, b, 0, 0),
{
    lemma_lcs_is_longest(a, b, ia, ib, 0, 0);
}

// ----- the alignment over the whole files -------------------------------------------------

proof fn lemma_set_shift(ops: Seq<OpView>, lo: int)
    ensures
        forall|q: int| #[trigger] del_set(ops, lo).contains(q) == del_set(ops, 0).contains(q + lo),
        forall|q: int| #[trigger] ins_set(ops, lo).contains(q) == ins_set(ops, 0).contains(q + lo),
    decreases ops.len(),
{
    if ops.len() > 0 {
        let rest = ops.drop_first();
        lemma_set_shift(rest, lo);
        assert forall|q: int| #[trigger] del_set(ops, lo).contains(q) == del_set(ops, 0).contains(q + lo) by {
            assert(del_set(rest, lo).contains(q) == del_set(rest, 0).contains(q + lo));
        }
        assert forall|q: int| #[trigger] ins_set(ops, lo).contains(q) == ins_set(ops, 0).contains(q + lo) by {
            assert(ins_set(rest, lo).contains(q) == ins_set(rest, 0).contains(q + lo));
        }
    } else {
        assert(del_set(ops, lo) =~= Set::<int>::empty());
        assert(del_set(ops, 0) =~= Set::<int>::empty());
        assert(ins_set(ops, lo) =~= Set::<int>::empty());
        assert(ins_set(ops, 0) =~= Set::<int>::empty());
    }
}

pub(crate) proof fn lemma_sets_cat(s1: Seq<OpView>, s2: Seq<OpView>, off: int)
    ensures
        del_set(s1 + s2, off) == del_set(s1, off) + del_set(s2, off),
        ins_set(s1 + s2, off) == ins_set(s1, off) + ins_set(s2, off),
    decreases s1.len(),
{
    if s1.len() == 0 {
        assert(s1 + s2 =~= s2);
        assert(del_set(s1, off) + del_set(s2, off) =~= del_set(s2, off));
        assert(ins_set(s1, off) + ins_set(s2, off) =~= ins_set(s2, off));
    } else {
        lemma_sets_cat(s1.drop_first(), s2, off);
        assert((s1 + s2).drop_first() =~= s1.drop_first() + s2);
        assert((s1 + s2)[0] == s1[0]);
        assert(del_set(s1 + s2, off) =~= del_set(s1, off) + del_set(s2, off));
        assert(ins_set(s1 + s2, off) =~= ins_set(s1, off) + ins_set(s2, off));
    }
}

/// Past every dropped position, `drop_indices` keeps the rest as it is.
proof fn lemma_drop_tail(x: Seq<Seq<char>>, s: Set<int>, k: int)
    requires
        0 <= k <= x.len(),
        forall|p: int| s.contains(p) ==> p < k,
    ensures
        drop_indices(x, s, k) == x.skip(k),
    decreases x.len() - k,
{
    if k < x.len() {
        lemma_drop_tail(x, s, k + 1);
        assert(seq![x[k]] + x.skip(k + 1) =~= x.skip(k));
    } else {
        assert(x.skip(k) =~= Seq::<Seq<char>>::empty());
    }
}

/// Before every dropped position, `drop_indices` keeps the lines as they are.
proof fn lemma_drop_head(x: Seq<Seq<char>>, s: Set<int>, k: int, lo: int)
    requires
        0 <= k <= lo <= x.len(),
        forall|p: int| s.contains(p) ==> lo <= p,
    ensures
        drop_indices(x, s, k) == x.subrange(k, lo) + drop_indices(x, s, lo),
    decreases lo - k,
{
    if k < lo {
        lemma_drop_head(x, s, k + 1, lo);
        assert(seq![x[k]] + (x.subrange(k + 1, lo) + drop_indices(x, s, lo)) =~= x.subrange(k, lo) + drop_indices(x, s, lo));
    } else {
        assert(x.subrange(k, lo) + drop_indices(x, s, lo) =~= drop_indices(x, s, lo));
    }
}

/// Dropping positions of a window `x[lo..h]` is dropping the shifted
/// positions of the window itself.
proof fn lemma_drop_window(x: Seq<Seq<char>>, s: Set<int>, sa: Set<int>, lo: int, h: int, k: int)
    requires
        0 <= lo <= k <= h <= x.len(),
        forall|p: int| s.contains(p) ==> lo <= p < h,
        forall|q: int| #[trigger] sa.contains(q) == s.contains(q + lo),
    ensures
        drop_indices(x, s, k) == drop_indices(x.subrange(lo, h), sa, k - lo) + x.skip(h),
    decreases h - k,
{
    let a = x.subrange(lo, h);
    if k == h {
        lemma_drop_tail(x, s, h);
        assert(drop_indices(a, sa, k - lo) == Seq::<Seq<char>>::empty());
        assert(Seq::<Seq<char>>::empty() + x.skip(h) =~= x.skip(h));
    } else {
        lemma_drop_window(x, s, sa, lo, h, k + 1);
        assert(a[k - lo] == x[k]);
        assert(sa.contains(k - lo) == s.contains(k - lo + lo));
        assert((k - lo) + lo == k);
        if !s.contains(k) {
            assert(seq![x[k]] + (drop_indices(a, sa, k + 1 - lo) + x.skip(h))
                =~= seq![a[k - lo]] + drop_indices(a, sa, k - lo + 1) + x.skip(h));
        }
    }
}

/// What the diff keeps of the old file, in order, is exactly what it keeps
/// of the new file: dropping the positions the edit script deletes from the
/// old file and those it inserts into the new file leaves the same lines.
pub proof fn law_diff_aligns_the_whole_files(x: Seq<Seq<char>>, y: Seq<Seq<char>>)
    ensures
        ({
            let ops = diff_ops(x, y);
            drop_indices(x, del_set(ops, 0), 0) == drop_indices(y, ins_set(ops, 0), 0)
        }),
{
    lemma_trim(x, y);
    let lo = prefix_len(x, y, 0);
    let (h1, h2) = suffix_trim(x, y, lo, x.len() as int, y.len() as int);
    let a = x.subrange(lo, h1);
    let b = y.subrange(lo, h2);
    let ops = diff_ops(x, y);
    let da = del_set(ops, lo);
    let ib = ins_set(ops, lo);
    if a.len() * b.len() > LCS_CELL_CAP {
        lemma_dels_from_sets(a, b, 0, lo);
        lemma_inss_from_sets(a, b, 0, lo);
        lemma_sets_cat(dels_from(a, 0, lo), inss_from(b, 0, lo), lo);
        assert(forall|p: int| da.contains(p) <==> 0 <= p < a.len());
        assert(forall|p: int| ib.contains(p) <==> 0 <= p < b.len());
        lemma_drop_indices_all(a, da, 0);
        lemma_drop_indices_all(b, ib, 0);
    } else {
        lemma_script_valid(a, b, 0, 0, lo);
    }
    lemma_set_shift(ops, lo);
    let s = del_set(ops, 0);
    let t = ins_set(ops, 0);
    assert forall|p: int| s.contains(p) implies lo <= p < h1 by {
        assert(da.contains(p - lo) == s.contains(p - lo + lo));
    }
    assert forall|p: int| t.contains(p) implies lo <= p < h2 by {
        assert(ib.contains(p - lo) == t.contains(p - lo + lo));
    }
    lemma_drop_head(x, s, 0, lo);
    lemma_drop_head(y, t, 0, lo);
    lemma_drop_window(x, s, da, lo, h1, lo);
    lemma_drop_window(y, t, ib, lo, h2, lo);
    assert(x.subrange(0, lo) =~= y.subrange(0, lo));
    assert(x.skip(h1) =~= y.skip(h2)) by {
        assert forall|j: int| 0 <= j < x.skip(h1).len() implies x.skip(h1)[j] == y.skip(h2)[j] by {
            assert(x[h1 + j] == y[h1 + j - h1 + h2]);
        }
    }
}

} // verus!
