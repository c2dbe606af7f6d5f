//! The meaning of the line diff: trim the common prefix and suffix, align
//! the middles by a longest common subsequence (or replace them wholesale
//! when the table would be too large), and fold the edit script into
//! added / removed / modified changes.
use vstd::prelude::*;

verus! {

/// Cap on LCS table cells (rows × cols). At 4M cells the `u32` table is 16MB,
/// which is the most we will spend to align two files. Past it the trimmed
/// middles share so little that any alignment is noise anyway, so we emit a
/// wholesale replacement rather than allocate a multi-gigabyte table.
pub const LCS_CELL_CAP: usize = 4_000_000;

/// One reported change, with a 1-based line number.
pub enum ChangeView {
    Added(nat, Seq<char>),
    Removed(nat, Seq<char>),
    Modified(nat, Seq<char>, Seq<char>),
}

/// One edit-script step, carrying a 1-based line number in its own file.
pub enum OpView {
    Del(nat, Seq<char>),
    Ins(nat, Seq<char>),
}

/// A diff: its changes and how many of each kind it holds.
pub struct DiffView {
    pub added: nat,
    pub removed: nat,
    pub modified: nat,
    pub changes: Seq<ChangeView>,
}

// ----- similarity -----------------------------------------------------------

/// Jaccard similarity of the two lines' character sets is above one half
/// (two empty lines count as identical).
pub open spec fn spec_similar(a: Seq<char>, b: Seq<char>) -> bool {
    let sa = a.to_set();
    let sb = b.to_set();
    let union = (sa + sb).len();
    let inter = sa.intersect(sb).len();
    union == 0 || 2 * inter > union
}

// ----- trimming -------------------------------------------------------------

/// The length of the common prefix of `x` and `y`, counting from `k`.
pub open spec fn prefix_len(x: Seq<Seq<char>>, y: Seq<Seq<char>>, k: int) -> int
    decreases x.len() - k,
{
    if 0 <= k < x.len() && k < y.len() && x[k] == y[k] {
        prefix_len(x, y, k + 1)
    } else {
        k
    }
}

/// The ends of the middles after trimming the common suffix above `lo`.
pub open spec fn suffix_trim(x: Seq<Seq<char>>, y: Seq<Seq<char>>, lo: int, h1: int, h2: int) -> (int, int)
    decreases h1 - lo,
{
    if h1 > lo && h2 > lo && x[h1 - 1] == y[h2 - 1] {
        suffix_trim(x, y, lo, h1 - 1, h2 - 1)
    } else {
        (h1, h2)
    }
}

// ----- the edit script --------------------------------------------------------

/// LCS length of `a[i..]` and `b[j..]`.
pub open spec fn lcs_len(a: Seq<Seq<char>>, b: Seq<Seq<char>>, i: int, j: int) -> nat
    decreases a.len() - i, b.len() - j,
{
    if i < 0 || j < 0 || i >= a.len() || j >= b.len() {
        0
    } else if a[i] == b[j] {
        1 + lcs_len(a, b, i + 1, j + 1)
    } else {
        let x = lcs_len(a, b, i + 1, j);
        let y = lcs_len(a, b, i, j + 1);
        if x >= y { x } else { y }
    }
}

/// Deletions of `a[i..]`, numbered from `off`.
pub open spec fn dels_from(a: Seq<Seq<char>>, i: int, off: int) -> Seq<OpView>
    decreases a.len() - i,
{
    if i < 0 || i >= a.len() {
        Seq::empty()
    } else {
        seq![OpView::Del((off + i + 1) as nat, a[i])] + dels_from(a, i + 1, off)
    }
}

/// Insertions of `b[j..]`, numbered from `off`.
pub open spec fn inss_from(b: Seq<Seq<char>>, j: int, off: int) -> Seq<OpView>
    decreases b.len() - j,
{
    if j < 0 || j >= b.len() {
        Seq::empty()
    } else {
        seq![OpView::Ins((off + j + 1) as nat, b[j])] + inss_from(b, j + 1, off)
    }
}

/// The backtrack of the LCS table from `(i, j)`: equal lines are kept, and on
/// a tie the deletion comes first.
pub open spec fn edit_script(a: Seq<Seq<char>>, b: Seq<Seq<char>>, i: int, j: int, off: int) -> Seq<OpView>
    decreases a.len() - i, b.len() - j,
{
    if i < 0 || j < 0 {
        Seq::empty()
    } else if i >= a.len() {
        inss_from(b, j, off)
    } else if j >= b.len() {
        dels_from(a, i, off)
    } else if a[i] == b[j] {
        edit_script(a, b, i + 1, j + 1, off)
    } else if lcs_len(a, b, i + 1, j) >= lcs_len(a, b, i, j + 1) {
        seq![OpView::Del((off + i + 1) as nat, a[i])] + edit_script(a, b, i + 1, j, off)
    } else {
        seq![OpView::Ins((off + j + 1) as nat, b[j])] + edit_script(a, b, i, j + 1, off)
    }
}

/// Every line of `a` removed, then every line of `b` added.
pub open spec fn wholesale(a: Seq<Seq<char>>, b: Seq<Seq<char>>, off: int) -> Seq<OpView> {
    dels_from(a, 0, off) + inss_from(b, 0, off)
}

/// The edit script between `x` and `y`.
pub open spec fn diff_ops(x: Seq<Seq<char>>, y: Seq<Seq<char>>) -> Seq<OpView> {
    let lo = prefix_len(x, y, 0);
    let (h1, h2) = suffix_trim(x, y, lo, x.len() as int, y.len() as int);
    let a = x.subrange(lo, h1);
    let b = y.subrange(lo, h2);
    if a.len() * b.len() > LCS_CELL_CAP {
        wholesale(a, b, lo)
    } else {
        edit_script(a, b, 0, 0, lo)
    }
}

// ----- folding the script into changes ------------------------------------------

pub open spec fn is_del(o: OpView) -> bool {
    o is Del
}

pub open spec fn op_line(o: OpView) -> nat {
    match o {
        OpView::Del(l, _) => l,
        OpView::Ins(l, _) => l,
    }
}

pub open spec fn op_text(o: OpView) -> Seq<char> {
    match o {
        OpView::Del(_, t) => t,
        OpView::Ins(_, t) => t,
    }
}

/// The end of the run of deletions starting at `k`.
pub open spec fn del_run_end(ops: Seq<OpView>, k: int) -> int
    decreases ops.len() - k,
{
    if 0 <= k < ops.len() && is_del(ops[k]) {
        del_run_end(ops, k + 1)
    } else {
        k
    }
}

/// The end of the run of insertions starting at `k`.
pub open spec fn ins_run_end(ops: Seq<OpView>, k: int) -> int
    decreases ops.len() - k,
{
    if 0 <= k < ops.len() && !is_del(ops[k]) {
        ins_run_end(ops, k + 1)
    } else {
        k
    }
}

/// A deletion paired with the insertion facing it: one modification when
/// the lines are similar, else a removal and an addition at the old line.
pub open spec fn pair_change(d: OpView, i: OpView) -> Seq<ChangeView> {
    if spec_similar(op_text(d), op_text(i)) {
        seq![ChangeView::Modified(op_line(d), op_text(d), op_text(i))]
    } else {
        seq![ChangeView::Removed(op_line(d), op_text(d)), ChangeView::Added(op_line(d), op_text(i))]
    }
}

/// The first `p` pairs of a deletion run and the insertion run after it.
pub open spec fn pairs_upto(dels: Seq<OpView>, inss: Seq<OpView>, p: int) -> Seq<ChangeView>
    decreases p,
{
    if p <= 0 {
        Seq::empty()
    } else {
        pairs_upto(dels, inss, p - 1) + pair_change(dels[p - 1], inss[p - 1])
    }
}

/// Each op as a plain removal or addition.
pub open spec fn unpaired(ops: Seq<OpView>) -> Seq<ChangeView>
    decreases ops.len(),
{
    if ops.len() == 0 {
        Seq::empty()
    } else {
        let o = ops.last();
        unpaired(ops.drop_last()) + seq![
            if is_del(o) {
                ChangeView::Removed(op_line(o), op_text(o))
            } else {
                ChangeView::Added(op_line(o), op_text(o))
            },
        ]
    }
}

/// One deletion run and the insertion run after it, folded.
pub open spec fn run_changes(dels: Seq<OpView>, inss: Seq<OpView>) -> Seq<ChangeView> {
    let p = if dels.len() <= inss.len() { dels.len() } else { inss.len() };
    pairs_upto(dels, inss, p as int) + unpaired(dels.skip(p as int)) + unpaired(inss.skip(p as int))
}

/// The changes of `ops[k..]`, run by run.
pub open spec fn fold_changes(ops: Seq<OpView>, k: int) -> Seq<ChangeView>
    decreases ops.len() - k,
{
    let d_end = del_run_end(ops, k);
    let i_end = ins_run_end(ops, d_end);
    if k < 0 || k >= ops.len() || i_end <= k || i_end > ops.len() {
        Seq::empty()
    } else {
        run_changes(ops.subrange(k, d_end), ops.subrange(d_end, i_end)) + fold_changes(ops, i_end)
    }
}

pub open spec fn count_added(cs: Seq<ChangeView>) -> nat
    decreases cs.len(),
{
    if cs.len() == 0 {
        0
    } else {
        count_added(cs.drop_last()) + if cs.last() is Added { 1nat } else { 0nat }
    }
}

pub open spec fn count_removed(cs: Seq<ChangeView>) -> nat
    decreases cs.len(),
{
    if cs.len() == 0 {
        0
    } else {
        count_removed(cs.drop_last()) + if cs.last() is Removed { 1nat } else { 0nat }
    }
}

pub open spec fn count_modified(cs: Seq<ChangeView>) -> nat
    decreases cs.len(),
{
    if cs.len() == 0 {
        0
    } else {
        count_modified(cs.drop_last()) + if cs.last() is Modified { 1nat } else { 0nat }
    }
}

/// The diff of two line sequences.
pub open spec fn spec_compute_diff(x: Seq<Seq<char>>, y: Seq<Seq<char>>) -> DiffView {
    let cs = fold_changes(diff_ops(x, y), 0);
    DiffView {
        added: count_added(cs),
        removed: count_removed(cs),
        modified: count_modified(cs),
        changes: cs,
    }
}

} // verus!
