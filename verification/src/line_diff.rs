//! Line diff by longest common subsequence.
use vstd::prelude::*;

use crate::line_diff_spec::{
    ChangeView, DiffView, LCS_CELL_CAP, OpView, count_added, count_modified, count_removed,
    del_run_end, dels_from, diff_ops, edit_script, fold_changes, ins_run_end, inss_from,
    is_del, lcs_len, op_line, op_text, pair_change, pairs_upto, prefix_len, run_changes,
    spec_compute_diff, spec_similar, suffix_trim, unpaired, wholesale,
};
use crate::text::{chars_eq, chars_to_string, copy_chars, str_chars, views, lemma_views_push};

verus! {

broadcast use vstd::seq_lib::group_seq_properties;

// ----- similarity -----------------------------------------------------------

/// Whether `d` holds `c`.
fn holds(d: &Vec<char>, c: char) -> (b: bool)
    ensures
        b == d@.contains(c),
{
    let mut k: usize = 0;
    while k < d.len()
        invariant
            k <= d@.len(),
            forall|j: int| 0 <= j < k ==> d@[j] != c,
        decreases d@.len() - k,
    {
        if d[k] == c {
            return true;
        }
        k = k + 1;
    }
    false
}

/// The distinct characters of `s`.
fn distinct_chars(s: &[char]) -> (d: Vec<char>)
    ensures
        d@.no_duplicates(),
        d@.to_set() == s@.to_set(),
{
    let mut d: Vec<char> = Vec::new();
    let mut i: usize = 0;
    assert(s@.take(0).to_set() =~= d@.to_set());
    while i < s.len()
        invariant
            i <= s@.len(),
            d@.no_duplicates(),
            d@.to_set() == s@.take(i as int).to_set(),
        decreases s@.len() - i,
    {
        let c = s[i];
        assert(s@.take(i + 1) == s@.take(i as int).push(c));
        proof {
            s@.take(i as int).lemma_push_to_set_commute(c);
            d@.lemma_push_to_set_commute(c);
        }
        if !holds(&d, c) {
            d.push(c);
        } else {
            assert(d@.to_set().contains(c));
            assert(d@.to_set().insert(c) =~= d@.to_set());
        }
        assert(d@.to_set() =~= s@.take(i + 1).to_set());
        i = i + 1;
    }
    assert(s@.take(s@.len() as int) == s@);
    d
}

/// No more distinct characters exist than Unicode scalar values.
proof fn lemma_char_set_bound(s: Set<char>)
    requires
        s.finite(),
    ensures
        s.len() <= 0x110000,
{
    let f = |c: char| (c as u32) as int;
    let y = s.map(f);
    assert(vstd::relations::injective_on(f, s)) by {
        assert forall|c1: char, c2: char| s.contains(c1) && s.contains(c2) && #[trigger] f(c1) == #[trigger] f(c2) implies c1 == c2 by {
            let u = c1 as u32;
            assert(u == c2 as u32);
            vstd::utf8::char_u32_cast(c1, u);
            vstd::utf8::char_u32_cast(c2, u);
        }
    }
    vstd::set_lib::lemma_map_size(s, y, f);
    vstd::set_lib::lemma_int_range(0, 0x110000);
    assert(y.subset_of(vstd::set_lib::set_int_range(0, 0x110000))) by {
        assert forall|i: int| y.contains(i) implies vstd::set_lib::set_int_range(0, 0x110000).contains(i) by {
            let c = choose|c: char| s.contains(c) && f(c) == i;
            vstd::utf8::char_is_scalar(c);
            assert(0 <= (c as u32) as int <= 0x10FFFF);
        }
    }
    vstd::set_lib::lemma_len_subset(y, vstd::set_lib::set_int_range(0, 0x110000));
}

/// The sizes of the intersection and of the union of the two lines'
/// character sets: the Jaccard similarity is their ratio (one when both
/// are empty).
pub fn similarity_counts(a: &[char], b: &[char]) -> (r: (usize, usize))
    ensures
        r.0 == a@.to_set().intersect(b@.to_set()).len(),
        r.1 == (a@.to_set() + b@.to_set()).len(),
        r.0 <= r.1 <= 0x110000,
{
    let da = distinct_chars(a);
    let db = distinct_chars(b);
    let ghost sa = a@.to_set();
    let ghost sb = b@.to_set();
    proof {
        da@.unique_seq_to_set();
        db@.unique_seq_to_set();
        lemma_char_set_bound(sa);
        lemma_char_set_bound(sb);
        lemma_char_set_bound(sa + sb);
    }
    let mut inter: usize = 0;
    let mut k: usize = 0;
    assert(da@.take(0).to_set().intersect(sb) =~= Set::<char>::empty());
    while k < da.len()
        invariant
            k <= da@.len(),
            da@.no_duplicates(),
            db@.to_set() == sb,
            inter <= k,
            inter == da@.take(k as int).to_set().intersect(sb).len(),
        decreases da@.len() - k,
    {
        let c = da[k];
        let ghost before = da@.take(k as int).to_set().intersect(sb);
        assert(da@.take(k + 1) == da@.take(k as int).push(c));
        proof {
            da@.take(k as int).lemma_push_to_set_commute(c);
        }
        assert(!da@.take(k as int).contains(c));
        if holds(&db, c) {
            assert(da@.take(k + 1).to_set().intersect(sb) =~= before.insert(c));
            inter = inter + 1;
        } else {
            assert(da@.take(k + 1).to_set().intersect(sb) =~= before);
        }
        k = k + 1;
    }
    assert(da@.take(da@.len() as int) == da@);
    proof {
        vstd::set_lib::lemma_set_intersect_union_lens(sa, sb);
        assert(sa.intersect(sb).subset_of(sa + sb));
        vstd::set_lib::lemma_len_subset(sa.intersect(sb), sa + sb);
    }
    let union = da.len() - inter + db.len();
    (inter, union)
}

/// Jaccard similarity of the two lines' character sets is above one half
/// (two empty lines count as identical).
pub fn similar(a: &[char], b: &[char]) -> (r: bool)
    ensures
        r == spec_similar(a@, b@),
{
    let (inter, union) = similarity_counts(a, b);
    union == 0 || (inter as u64) * 2 > union as u64
}

// ----- the edit script --------------------------------------------------------

/// One edit-script step, carrying a 1-based line number in its own file.
pub enum Op {
    Del(usize, Vec<char>),
    Ins(usize, Vec<char>),
}

impl View for Op {
    type V = OpView;

    open spec fn view(&self) -> OpView {
        match self {
            Op::Del(l, t) => OpView::Del(*l as nat, t@),
            Op::Ins(l, t) => OpView::Ins(*l as nat, t@),
        }
    }
}

pub open spec fn op_views(v: Seq<Op>) -> Seq<OpView> {
    Seq::new(v.len(), |i: int| v[i]@)
}

proof fn lemma_op_views_push(v: Seq<Op>, x: Op)
    ensures
        op_views(v.push(x)) == op_views(v).push(x@),
{
    assert(op_views(v.push(x)) =~= op_views(v).push(x@));
}

/// Appends the deletions of `a[i..]`, numbered from `off`.
fn push_dels(ops: &mut Vec<Op>, a: &Vec<Vec<char>>, off: usize)
    requires
        off + a@.len() <= usize::MAX,
    ensures
        op_views(final(ops)@) == op_views(old(ops)@) + dels_from(views(a@), 0, off as int),
{
    let ghost av = views(a@);
    let mut i: usize = 0;
    while i < a.len()
        invariant
            av == views(a@),
            off + a@.len() <= usize::MAX,
            i <= a@.len(),
            op_views(ops@) + dels_from(av, i as int, off as int) == op_views(old(ops)@) + dels_from(av, 0, off as int),
        decreases a@.len() - i,
    {
        let ghost before = op_views(ops@);
        let op = Op::Del(off + i + 1, copy_chars(a[i].as_slice()));
        proof {
            lemma_op_views_push(ops@, op);
            assert(before + dels_from(av, i as int, off as int) =~= before.push(op@) + dels_from(av, i + 1, off as int));
        }
        ops.push(op);
        i = i + 1;
    }
    assert(op_views(ops@) + dels_from(av, i as int, off as int) =~= op_views(ops@));
}

/// Appends the insertions of `b[j..]`, numbered from `off`.
fn push_inss(ops: &mut Vec<Op>, b: &Vec<Vec<char>>, j0: usize, off: usize)
    requires
        off + b@.len() <= usize::MAX,
    ensures
        op_views(final(ops)@) == op_views(old(ops)@) + inss_from(views(b@), j0 as int, off as int),
{
    let ghost bv = views(b@);
    let mut j: usize = j0;
    if j >= b.len() {
        assert(op_views(ops@) + inss_from(bv, j0 as int, off as int) =~= op_views(ops@));
        return;
    }
    while j < b.len()
        invariant
            bv == views(b@),
            off + b@.len() <= usize::MAX,
            j0 <= j <= b@.len(),
            op_views(ops@) + inss_from(bv, j as int, off as int) == op_views(old(ops)@) + inss_from(bv, j0 as int, off as int),
        decreases b@.len() - j,
    {
        let ghost before = op_views(ops@);
        let op = Op::Ins(off + j + 1, copy_chars(b[j].as_slice()));
        proof {
            lemma_op_views_push(ops@, op);
            assert(before + inss_from(bv, j as int, off as int) =~= before.push(op@) + inss_from(bv, j + 1, off as int));
        }
        ops.push(op);
        j = j + 1;
    }
    assert(op_views(ops@) + inss_from(bv, j as int, off as int) =~= op_views(ops@));
}

/// Appends the deletions of `a[i0..]`, numbered from `off`.
fn push_dels_from(ops: &mut Vec<Op>, a: &Vec<Vec<char>>, i0: usize, off: usize)
    requires
        off + a@.len() <= usize::MAX,
    ensures
        op_views(final(ops)@) == op_views(old(ops)@) + dels_from(views(a@), i0 as int, off as int),
{
    let ghost av = views(a@);
    let mut i: usize = i0;
    if i >= a.len() {
        assert(op_views(ops@) + dels_from(av, i0 as int, off as int) =~= op_views(ops@));
        return;
    }
    while i < a.len()
        invariant
            av == views(a@),
            off + a@.len() <= usize::MAX,
            i0 <= i <= a@.len(),
            op_views(ops@) + dels_from(av, i as int, off as int) == op_views(old(ops)@) + dels_from(av, i0 as int, off as int),
        decreases a@.len() - i,
    {
        let ghost before = op_views(ops@);
        let op = Op::Del(off + i + 1, copy_chars(a[i].as_slice()));
        proof {
            lemma_op_views_push(ops@, op);
            assert(before + dels_from(av, i as int, off as int) =~= before.push(op@) + dels_from(av, i + 1, off as int));
        }
        ops.push(op);
        i = i + 1;
    }
    assert(op_views(ops@) + dels_from(av, i as int, off as int) =~= op_views(ops@));
}

/// The LCS of `a[i..]` and `b[j..]` is no longer than what is left of `a`.
proof fn lemma_lcs_bound(a: Seq<Seq<char>>, b: Seq<Seq<char>>, i: int, j: int)
    requires
        0 <= i <= a.len(),
        0 <= j <= b.len(),
    ensures
        lcs_len(a, b, i, j) <= a.len() - i,
    decreases a.len() - i, b.len() - j,
{
    if i < a.len() && j < b.len() {
        if a[i] == b[j] {
            lemma_lcs_bound(a, b, i + 1, j + 1);
        } else {
            lemma_lcs_bound(a, b, i + 1, j);
            lemma_lcs_bound(a, b, i, j + 1);
        }
    }
}

/// Row `i` of the LCS table: `row[j] == lcs_len(a, b, i, j)` for `j <= b.len()`.
pub open spec fn row_ok(row: Seq<u32>, a: Seq<Seq<char>>, b: Seq<Seq<char>>, i: int) -> bool {
    &&& row.len() == b.len() + 1
    &&& forall|j: int| 0 <= j <= b.len() ==> #[trigger] row[j] == lcs_len(a, b, i, j)
}

/// Backtrack an LCS table into an edit script. `offset` maps middle-relative
/// indices back to real file line numbers after prefix trimming.
fn lcs_ops(a: &Vec<Vec<char>>, b: &Vec<Vec<char>>, offset: usize) -> (ops: Vec<Op>)
    requires
        a@.len() * b@.len() <= LCS_CELL_CAP,
        offset + a@.len() <= usize::MAX,
        offset + b@.len() <= usize::MAX,
    ensures
        op_views(ops@) == edit_script(views(a@), views(b@), 0, 0, offset as int),
{
    let ghost av = views(a@);
    let ghost bv = views(b@);
    let n = a.len();
    let m = b.len();
    if n == 0 || m == 0 {
        let mut v: Vec<Op> = Vec::new();
        assert(op_views(v@) =~= Seq::<OpView>::empty());
        push_dels(&mut v, a, offset);
        push_inss(&mut v, b, 0, offset);
        proof {
            if n == 0 {
                assert(dels_from(av, 0, offset as int) =~= Seq::<OpView>::empty());
            } else {
                assert(inss_from(bv, 0, offset as int) =~= Seq::<OpView>::empty());
            }
        }
        assert(op_views(v@) =~= edit_script(av, bv, 0, 0, offset as int));
        return v;
    }
    assert(n <= LCS_CELL_CAP && m <= LCS_CELL_CAP) by (nonlinear_arith)
        requires
            n * m <= LCS_CELL_CAP,
            m >= 1,
            n >= 1,
    ;
    // rows[k] is row n - k of the table: rows[k][j] == lcs_len(a[n-k..], b[j..]).
    let mut rows: Vec<Vec<u32>> = Vec::new();
    let bottom: Vec<u32> = vec![0u32; m + 1];
    assert(row_ok(bottom@, av, bv, n as int));
    rows.push(bottom);
    let mut i: usize = n;
    while i > 0
        invariant
            av == views(a@),
            bv == views(b@),
            n == av.len(),
            m == bv.len(),
            n <= LCS_CELL_CAP,
            m <= LCS_CELL_CAP,
            i <= n,
            rows@.len() == n - i + 1,
            forall|k: int| 0 <= k < rows@.len() ==> row_ok(#[trigger] rows@[k]@, av, bv, n - k),
        decreases i,
    {
        i = i - 1;
        let below = rows.len() - 1;
        assert(row_ok(rows@[below as int]@, av, bv, n - below));
        let mut cur: Vec<u32> = vec![0u32; m + 1];
        let mut j: usize = m;
        while j > 0
            invariant
                av == views(a@),
                bv == views(b@),
                n == av.len(),
                m == bv.len(),
                n <= LCS_CELL_CAP,
                m <= LCS_CELL_CAP,
                i < n,
                below == rows@.len() - 1,
                row_ok(rows@[below as int]@, av, bv, i + 1),
                cur@.len() == m + 1,
                j <= m,
                forall|q: int| j <= q <= m ==> #[trigger] cur@[q] == lcs_len(av, bv, i as int, q),
            decreases j,
        {
            j = j - 1;
            let next = &rows[below];
            let v: u32 = if chars_eq(a[i].as_slice(), b[j].as_slice()) {
                proof {
                    lemma_lcs_bound(av, bv, i + 1, j + 1);
                }
                next[j + 1] + 1
            } else {
                let down = next[j];
                let right = cur[j + 1];
                if down >= right {
                    down
                } else {
                    right
                }
            };
            cur[j] = v;
        }
        assert(row_ok(cur@, av, bv, i as int));
        rows.push(cur);
    }
    // rows[n - i] is row i.
    let mut ops: Vec<Op> = Vec::new();
    let mut i: usize = 0;
    let mut j: usize = 0;
    assert(op_views(ops@) + edit_script(av, bv, 0, 0, offset as int) =~= edit_script(av, bv, 0, 0, offset as int));
    while i < n && j < m
        invariant
            av == views(a@),
            bv == views(b@),
            n == av.len(),
            m == bv.len(),
            offset + n <= usize::MAX,
            offset + m <= usize::MAX,
            i <= n,
            j <= m,
            rows@.len() == n + 1,
            forall|k: int| 0 <= k < rows@.len() ==> row_ok(#[trigger] rows@[k]@, av, bv, n - k),
            op_views(ops@) + edit_script(av, bv, i as int, j as int, offset as int)
                == edit_script(av, bv, 0, 0, offset as int),
        decreases n - i + m - j,
    {
        let ghost before = op_views(ops@);
        if chars_eq(a[i].as_slice(), b[j].as_slice()) {
            i = i + 1;
            j = j + 1;
        } else {
            assert(row_ok(rows@[n - (i + 1)]@, av, bv, n - (n - (i + 1))));
            assert(row_ok(rows@[n - i]@, av, bv, n - (n - i)));
            let down = rows[n - (i + 1)][j];
            let right = rows[n - i][j + 1];
            if down >= right {
                let op = Op::Del(offset + i + 1, copy_chars(a[i].as_slice()));
                proof {
                    lemma_op_views_push(ops@, op);
                    assert(before + edit_script(av, bv, i as int, j as int, offset as int)
                        =~= before.push(op@) + edit_script(av, bv, i + 1, j as int, offset as int));
                }
                ops.push(op);
                i = i + 1;
            } else {
                let op = Op::Ins(offset + j + 1, copy_chars(b[j].as_slice()));
                proof {
                    lemma_op_views_push(ops@, op);
                    assert(before + edit_script(av, bv, i as int, j as int, offset as int)
                        =~= before.push(op@) + edit_script(av, bv, i as int, j + 1, offset as int));
                }
                ops.push(op);
                j = j + 1;
            }
        }
    }
    if i < n {
        push_dels_from(&mut ops, a, i, offset);
    } else {
        push_inss(&mut ops, b, j, offset);
    }
    ops
}


// ----- changes ----------------------------------------------------------------

/// One reported change, with a 1-based line number (the old file's for
/// removals and modifications, the new file's for additions).
#[derive(Debug)]
pub enum DiffChange {
    Added(usize, String),
    Removed(usize, String),
    Modified(usize, String, String),
}

impl View for DiffChange {
    type V = ChangeView;

    open spec fn view(&self) -> ChangeView {
        match self {
            DiffChange::Added(l, t) => ChangeView::Added(*l as nat, t@),
            DiffChange::Removed(l, t) => ChangeView::Removed(*l as nat, t@),
            DiffChange::Modified(l, o, n) => ChangeView::Modified(*l as nat, o@, n@),
        }
    }
}

pub open spec fn change_views(v: Seq<DiffChange>) -> Seq<ChangeView> {
    Seq::new(v.len(), |i: int| v[i]@)
}

/// A diff: its changes and how many of each kind it holds.
pub struct DiffResult {
    pub added: usize,
    pub removed: usize,
    pub modified: usize,
    pub changes: Vec<DiffChange>,
}

impl View for DiffResult {
    type V = DiffView;

    open spec fn view(&self) -> DiffView {
        DiffView {
            added: self.added as nat,
            removed: self.removed as nat,
            modified: self.modified as nat,
            changes: change_views(self.changes@),
        }
    }
}

impl DiffResult {
    /// The counters count the changes.
    pub open spec fn counted(&self) -> bool {
        &&& self@.added == count_added(self@.changes)
        &&& self@.removed == count_removed(self@.changes)
        &&& self@.modified == count_modified(self@.changes)
    }

    fn empty() -> (r: DiffResult)
        ensures
            r@.changes == Seq::<ChangeView>::empty(),
            r.counted(),
    {
        let r = DiffResult { added: 0, removed: 0, modified: 0, changes: Vec::new() };
        assert(change_views(r.changes@) =~= Seq::<ChangeView>::empty());
        r
    }

    /// Records one more change.
    fn record(&mut self, c: DiffChange)
        requires
            old(self).counted(),
            old(self).added + old(self).removed + old(self).modified == old(self).changes@.len(),
        ensures
            final(self).counted(),
            final(self).added + final(self).removed + final(self).modified == final(self).changes@.len(),
            final(self)@.changes == old(self)@.changes.push(c@),
    {
        let ghost cv = c@;
        let ghost before = change_views(self.changes@);
        let kind: u8 = match &c {
            DiffChange::Added(..) => 0,
            DiffChange::Removed(..) => 1,
            DiffChange::Modified(..) => 2,
        };
        self.changes.push(c);
        let n = self.changes.len();
        assert(change_views(self.changes@) =~= before.push(cv));
        assert(before.push(cv).drop_last() == before);
        if kind == 0 {
            self.added = self.added + 1;
        } else if kind == 1 {
            self.removed = self.removed + 1;
        } else {
            self.modified = self.modified + 1;
        }
    }
}

fn op_parts(o: &Op) -> (r: (usize, &Vec<char>))
    ensures
        r.0 as nat == op_line(o@),
        r.1@ == op_text(o@),
{
    match o {
        Op::Del(l, t) => (*l, t),
        Op::Ins(l, t) => (*l, t),
    }
}

fn op_is_del(o: &Op) -> (b: bool)
    ensures
        b == is_del(o@),
{
    match o {
        Op::Del(..) => true,
        Op::Ins(..) => false,
    }
}

proof fn lemma_del_run_end_ge(ov: Seq<OpView>, k: int)
    ensures
        del_run_end(ov, k) >= k,
    decreases ov.len() - k,
{
    if 0 <= k < ov.len() && is_del(ov[k]) {
        lemma_del_run_end_ge(ov, k + 1);
    }
}

proof fn lemma_ins_run_end_ge(ov: Seq<OpView>, k: int)
    ensures
        ins_run_end(ov, k) >= k,
    decreases ov.len() - k,
{
    if 0 <= k < ov.len() && !is_del(ov[k]) {
        lemma_ins_run_end_ge(ov, k + 1);
    }
}

/// The end of the run of deletions (`dels`) or insertions starting at `k`.
fn run_end(ops: &Vec<Op>, k: usize, dels: bool) -> (e: usize)
    requires
        k <= ops@.len(),
    ensures
        k <= e <= ops@.len(),
        dels ==> e == del_run_end(op_views(ops@), k as int),
        !dels ==> e == ins_run_end(op_views(ops@), k as int),
{
    let ghost ov = op_views(ops@);
    let mut e = k;
    while e < ops.len() && op_is_del(&ops[e]) == dels
        invariant
            ov == op_views(ops@),
            k <= e <= ov.len(),
            dels ==> del_run_end(ov, k as int) == del_run_end(ov, e as int),
            !dels ==> ins_run_end(ov, k as int) == ins_run_end(ov, e as int),
        decreases ov.len() - e,
    {
        e = e + 1;
    }
    e
}

/// Records one run: `ops[ds..is]` are deletions, `ops[is..ie]` insertions.
fn fold_run(ops: &Vec<Op>, res: &mut DiffResult, ds: usize, is: usize, ie: usize)
    requires
        ds <= is <= ie <= ops@.len(),
        old(res).counted(),
        old(res).added + old(res).removed + old(res).modified == old(res).changes@.len(),
    ensures
        final(res).counted(),
        final(res).added + final(res).removed + final(res).modified == final(res).changes@.len(),
        final(res)@.changes == old(res)@.changes + run_changes(
            op_views(ops@).subrange(ds as int, is as int),
            op_views(ops@).subrange(is as int, ie as int),
        ),
{
    let ghost ov = op_views(ops@);
    let ghost dels = ov.subrange(ds as int, is as int);
    let ghost inss = ov.subrange(is as int, ie as int);
    let ghost base = res@.changes;
    let nd = is - ds;
    let ni = ie - is;
    let pairs = if nd <= ni { nd } else { ni };
    let mut p: usize = 0;
    assert(res@.changes =~= base + pairs_upto(dels, inss, 0));
    while p < pairs
        invariant
            ov == op_views(ops@),
            ds <= is <= ie <= ov.len(),
            nd == is - ds,
            ni == ie - is,
            pairs <= nd,
            pairs <= ni,
            dels == ov.subrange(ds as int, is as int),
            inss == ov.subrange(is as int, ie as int),
            p <= pairs,
            res.counted(),
            res.added + res.removed + res.modified == res.changes@.len(),
            res@.changes == base + pairs_upto(dels, inss, p as int),
        decreases pairs - p,
    {
        let (dline, dtext) = op_parts(&ops[ds + p]);
        let (_, itext) = op_parts(&ops[is + p]);
        assert(dels[p as int] == ov[ds + p]);
        assert(inss[p as int] == ov[is + p]);
        let ghost before = res@.changes;
        if similar(dtext.as_slice(), itext.as_slice()) {
            res.record(DiffChange::Modified(dline, chars_to_string(dtext.as_slice()), chars_to_string(itext.as_slice())));
        } else {
            res.record(DiffChange::Removed(dline, chars_to_string(dtext.as_slice())));
            res.record(DiffChange::Added(dline, chars_to_string(itext.as_slice())));
        }
        assert(res@.changes =~= before + pair_change(dels[p as int], inss[p as int]));
        p = p + 1;
    }
    let ghost after_pairs = res@.changes;
    let mut t: usize = ds + pairs;
    assert(dels.skip(pairs as int).take(0) =~= Seq::<OpView>::empty());
    assert(res@.changes =~= after_pairs + unpaired(dels.skip(pairs as int).take(0)));
    while t < is
        invariant
            ov == op_views(ops@),
            ds + pairs <= t <= is <= ov.len(),
            dels == ov.subrange(ds as int, is as int),
            res.counted(),
            res.added + res.removed + res.modified == res.changes@.len(),
            res@.changes == after_pairs + unpaired(dels.skip(pairs as int).take(t - ds - pairs)),
        decreases is - t,
    {
        let ghost rest = dels.skip(pairs as int);
        let ghost q = t - ds - pairs;
        assert(rest.take(q + 1).drop_last() == rest.take(q));
        assert(rest.take(q + 1).last() == ov[t as int]);
        let ghost before = res@.changes;
        let (l, txt) = op_parts(&ops[t]);
        if op_is_del(&ops[t]) {
            res.record(DiffChange::Removed(l, chars_to_string(txt.as_slice())));
        } else {
            res.record(DiffChange::Added(l, chars_to_string(txt.as_slice())));
        }
        assert(res@.changes =~= after_pairs + unpaired(rest.take(q + 1)));
        t = t + 1;
    }
    assert(dels.skip(pairs as int).take(is - ds - pairs) == dels.skip(pairs as int));
    let ghost after_dels = res@.changes;
    let mut t: usize = is + pairs;
    assert(inss.skip(pairs as int).take(0) =~= Seq::<OpView>::empty());
    assert(res@.changes =~= after_dels + unpaired(inss.skip(pairs as int).take(0)));
    while t < ie
        invariant
            ov == op_views(ops@),
            is + pairs <= t <= ie <= ov.len(),
            inss == ov.subrange(is as int, ie as int),
            res.counted(),
            res.added + res.removed + res.modified == res.changes@.len(),
            res@.changes == after_dels + unpaired(inss.skip(pairs as int).take(t - is - pairs)),
        decreases ie - t,
    {
        let ghost rest = inss.skip(pairs as int);
        let ghost q = t - is - pairs;
        assert(rest.take(q + 1).drop_last() == rest.take(q));
        assert(rest.take(q + 1).last() == ov[t as int]);
        let ghost before = res@.changes;
        let (l, txt) = op_parts(&ops[t]);
        if op_is_del(&ops[t]) {
            res.record(DiffChange::Removed(l, chars_to_string(txt.as_slice())));
        } else {
            res.record(DiffChange::Added(l, chars_to_string(txt.as_slice())));
        }
        assert(res@.changes =~= after_dels + unpaired(rest.take(q + 1)));
        t = t + 1;
    }
    assert(inss.skip(pairs as int).take(ie - is - pairs) == inss.skip(pairs as int));
    assert(res@.changes =~= base + run_changes(dels, inss));
}

/// Fold the edit script into the reported change list, pairing each run of
/// deletions with the run of insertions that follows it so a rewritten line
/// still reads as one `Modified` rather than a remove plus an unrelated add.
fn ops_to_changes(ops: &Vec<Op>) -> (r: DiffResult)
    ensures
        r@.changes == fold_changes(op_views(ops@), 0),
        r.counted(),
{
    let ghost ov = op_views(ops@);
    let mut res = DiffResult::empty();
    let mut k: usize = 0;
    assert(res@.changes + fold_changes(ov, 0) =~= fold_changes(ov, 0));
    while k < ops.len()
        invariant
            ov == op_views(ops@),
            k <= ov.len(),
            res.counted(),
            res.added + res.removed + res.modified == res.changes@.len(),
            res@.changes + fold_changes(ov, k as int) == fold_changes(ov, 0),
        decreases ov.len() - k,
    {
        let ds = k;
        let is = run_end(ops, ds, true);
        let ie = run_end(ops, is, false);
        let ghost before = res@.changes;
        fold_run(ops, &mut res, ds, is, ie);
        proof {
            lemma_ins_run_end_ge(ov, ds + 1);
            lemma_del_run_end_ge(ov, ds + 1);
            if is_del(ov[ds as int]) {
                assert(is >= ds + 1);
            } else {
                assert(is == ds);
                assert(ie == ins_run_end(ov, ds + 1));
            }
        }
        assert(ie > ds);
        assert(fold_changes(ov, ds as int) == run_changes(ov.subrange(ds as int, is as int), ov.subrange(is as int, ie as int)) + fold_changes(ov, ie as int));
        assert(res@.changes + fold_changes(ov, ie as int) =~= before + fold_changes(ov, ds as int));
        k = ie;
    }
    assert(res@.changes + fold_changes(ov, k as int) =~= res@.changes);
    res
}


/// The character sequences of `lines`.
pub open spec fn str_views(lines: Seq<&str>) -> Seq<Seq<char>> {
    Seq::new(lines.len(), |i: int| lines[i]@)
}

/// The characters of each line.
fn lines_chars(lines: &[&str]) -> (v: Vec<Vec<char>>)
    ensures
        views(v@) == str_views(lines@),
{
    let mut v: Vec<Vec<char>> = Vec::new();
    let mut i: usize = 0;
    while i < lines.len()
        invariant
            i <= lines@.len(),
            views(v@) == str_views(lines@).take(i as int),
        decreases lines@.len() - i,
    {
        let c = str_chars(lines[i]);
        proof {
            lemma_views_push(v@, c);
        }
        v.push(c);
        assert(str_views(lines@).take(i + 1) == str_views(lines@).take(i as int).push(c@));
        i = i + 1;
    }
    assert(str_views(lines@).take(lines@.len() as int) == str_views(lines@));
    v
}

/// Copies of `x[lo..hi]`.
fn copy_lines(x: &Vec<Vec<char>>, lo: usize, hi: usize) -> (v: Vec<Vec<char>>)
    requires
        lo <= hi <= x@.len(),
    ensures
        views(v@) == views(x@).subrange(lo as int, hi as int),
{
    let mut v: Vec<Vec<char>> = Vec::new();
    let mut i = lo;
    while i < hi
        invariant
            lo <= i <= hi <= x@.len(),
            views(v@) == views(x@).subrange(lo as int, i as int),
        decreases hi - i,
    {
        let c = copy_chars(x[i].as_slice());
        proof {
            lemma_views_push(v@, c);
        }
        v.push(c);
        assert(views(x@).subrange(lo as int, i + 1) == views(x@).subrange(lo as int, i as int).push(c@));
        i = i + 1;
    }
    v
}

/// Diff two line sequences by longest-common-subsequence.
///
/// Comparing **positionally** (`lines1[i]` vs `lines2[i]`) would let a single
/// inserted line desynchronize every line after it; aligning by LCS reports
/// one insertion instead. Common prefix and suffix are trimmed first, which
/// keeps the LCS table affordable; past `LCS_CELL_CAP` cells the trimmed
/// middles are reported as a wholesale replacement.
pub fn compute_diff(lines1: &[&str], lines2: &[&str]) -> (r: DiffResult)
    ensures
        r@ == spec_compute_diff(str_views(lines1@), str_views(lines2@)),
        r@.added == count_added(r@.changes),
        r@.removed == count_removed(r@.changes),
        r@.modified == count_modified(r@.changes),
{
    let x = lines_chars(lines1);
    let y = lines_chars(lines2);
    let ghost xv = str_views(lines1@);
    let ghost yv = str_views(lines2@);
    // Common prefix and suffix carry no information and dominate real diffs.
    let mut lo: usize = 0;
    while lo < x.len() && lo < y.len() && chars_eq(x[lo].as_slice(), y[lo].as_slice())
        invariant
            xv == views(x@),
            yv == views(y@),
            lo <= xv.len(),
            lo <= yv.len(),
            prefix_len(xv, yv, 0) == prefix_len(xv, yv, lo as int),
        decreases xv.len() - lo,
    {
        lo = lo + 1;
    }
    let mut hi1 = x.len();
    let mut hi2 = y.len();
    while hi1 > lo && hi2 > lo && chars_eq(x[hi1 - 1].as_slice(), y[hi2 - 1].as_slice())
        invariant
            xv == views(x@),
            yv == views(y@),
            lo <= hi1 <= xv.len(),
            lo <= hi2 <= yv.len(),
            suffix_trim(xv, yv, lo as int, xv.len() as int, yv.len() as int)
                == suffix_trim(xv, yv, lo as int, hi1 as int, hi2 as int),
        decreases hi1,
    {
        hi1 = hi1 - 1;
        hi2 = hi2 - 1;
    }
    let a = copy_lines(&x, lo, hi1);
    let b = copy_lines(&y, lo, hi2);
    assert(views(a@).len() == a@.len());
    assert(views(b@).len() == b@.len());
    assert(a@.len() == hi1 - lo);
    assert(b@.len() == hi2 - lo);
    let too_big = match a.len().checked_mul(b.len()) {
        Some(cells) => cells > LCS_CELL_CAP,
        None => true,
    };
    let ops = if too_big {
        let mut v: Vec<Op> = Vec::new();
        assert(op_views(v@) =~= Seq::<OpView>::empty());
        push_dels(&mut v, &a, lo);
        push_inss(&mut v, &b, 0, lo);
        v
    } else {
        lcs_ops(&a, &b, lo)
    };
    assert(op_views(ops@) == diff_ops(xv, yv));
    ops_to_changes(&ops)
}

} // verus!
