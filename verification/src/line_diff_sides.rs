//! Where a diff's changes come from: the old side of every change is a line
//! of the old file and the new side a line of the new file, each side in
//! file order.
use vstd::prelude::*;

use crate::line_diff_spec::{
    ChangeView, LCS_CELL_CAP, OpView, del_run_end, dels_from, diff_ops, edit_script, fold_changes,
    ins_run_end, inss_from, is_del, op_line, op_text, pair_change, pairs_upto, prefix_len, run_changes,
    spec_compute_diff, spec_similar, suffix_trim, unpaired,
};
use crate::line_diff_counts::{all_kind, lemma_del_run, lemma_ins_run};

verus! {

/// The old side of each change, in change order: a removal's line, or a
/// modification's old line, with its number in the old file.
pub open spec fn old_side(cs: Seq<ChangeView>) -> Seq<(nat, Seq<char>)>
    decreases cs.len(),
{
    if cs.len() == 0 {
        Seq::empty()
    } else {
        old_side(cs.drop_last()) + match cs.last() {
            ChangeView::Removed(l, t) => seq![(l, t)],
            ChangeView::Modified(l, o, _) => seq![(l, o)],
            ChangeView::Added(_, _) => Seq::empty(),
        }
    }
}

/// The new side of each change, in change order: an addition's line, or a
/// modification's new line.
pub open spec fn new_side(cs: Seq<ChangeView>) -> Seq<Seq<char>>
    decreases cs.len(),
{
    if cs.len() == 0 {
        Seq::empty()
    } else {
        new_side(cs.drop_last()) + match cs.last() {
            ChangeView::Added(_, t) => seq![t],
            ChangeView::Modified(_, _, n) => seq![n],
            ChangeView::Removed(_, _) => Seq::empty(),
        }
    }
}

/// The deletions of `ops`, as (line number, text), in order.
pub open spec fn dels_of(ops: Seq<OpView>) -> Seq<(nat, Seq<char>)>
    decreases ops.len(),
{
    if ops.len() == 0 {
        Seq::empty()
    } else {
        dels_of(ops.drop_last()) + if is_del(ops.last()) {
            seq![(op_line(ops.last()), op_text(ops.last()))]
        } else {
            Seq::empty()
        }
    }
}

/// The insertions of `ops`, as (line number, text), in order.
pub open spec fn inss_of(ops: Seq<OpView>) -> Seq<(nat, Seq<char>)>
    decreases ops.len(),
{
    if ops.len() == 0 {
        Seq::empty()
    } else {
        inss_of(ops.drop_last()) + if is_del(ops.last()) {
            Seq::empty()
        } else {
            seq![(op_line(ops.last()), op_text(ops.last()))]
        }
    }
}

/// The texts of numbered lines.
pub open spec fn texts(s: Seq<(nat, Seq<char>)>) -> Seq<Seq<char>> {
    Seq::new(s.len(), |k: int| s[k].1)
}

/// Each entry of `s` is line `n` of `src` (numbered from 1, after `off`
/// lines not in `src`), above `lo`, and the numbers strictly increase.
pub open spec fn in_order_within(s: Seq<(nat, Seq<char>)>, lo: int, src: Seq<Seq<char>>, off: int) -> bool {
    &&& forall|k: int|
        0 <= k < s.len() ==> lo < #[trigger] s[k].0 <= off + src.len() && src[s[k].0 - off - 1] == s[k].1
    &&& forall|k: int, l: int| 0 <= k < l < s.len() ==> #[trigger] s[k].0 < #[trigger] s[l].0
}

// ----- sequences of ops -----------------------------------------------------------------

proof fn lemma_sides_add(s1: Seq<OpView>, s2: Seq<OpView>)
    ensures
        dels_of(s1 + s2) == dels_of(s1) + dels_of(s2),
        inss_of(s1 + s2) == inss_of(s1) + inss_of(s2),
    decreases s2.len(),
{
    if s2.len() == 0 {
        assert(s1 + s2 =~= s1);
        assert(dels_of(s1) + dels_of(s2) =~= dels_of(s1));
        assert(inss_of(s1) + inss_of(s2) =~= inss_of(s1));
    } else {
        lemma_sides_add(s1, s2.drop_last());
        assert((s1 + s2).drop_last() =~= s1 + s2.drop_last());
        assert((s1 + s2).last() == s2.last());
        let dl: Seq<(nat, Seq<char>)> = if is_del(s2.last()) { seq![(op_line(s2.last()), op_text(s2.last()))] } else { Seq::empty() };
        let il: Seq<(nat, Seq<char>)> = if is_del(s2.last()) { Seq::empty() } else { seq![(op_line(s2.last()), op_text(s2.last()))] };
        assert(dels_of(s1) + dels_of(s2.drop_last()) + dl =~= dels_of(s1) + (dels_of(s2.drop_last()) + dl));
        assert(inss_of(s1) + inss_of(s2.drop_last()) + il =~= inss_of(s1) + (inss_of(s2.drop_last()) + il));
    }
}

proof fn lemma_one_op_sides(o: OpView)
    ensures
        dels_of(seq![o]) == if is_del(o) { seq![(op_line(o), op_text(o))] } else { Seq::<(nat, Seq<char>)>::empty() },
        inss_of(seq![o]) == if is_del(o) { Seq::<(nat, Seq<char>)>::empty() } else { seq![(op_line(o), op_text(o))] },
{
    let e = Seq::<OpView>::empty();
    assert(seq![o].drop_last() =~= e);
    assert(seq![o].last() == o);
    assert(dels_of(e) =~= Seq::<(nat, Seq<char>)>::empty());
    assert(inss_of(e) =~= Seq::<(nat, Seq<char>)>::empty());
    assert(Seq::<(nat, Seq<char>)>::empty() + seq![(op_line(o), op_text(o))] =~= seq![(op_line(o), op_text(o))]);
    assert(Seq::<(nat, Seq<char>)>::empty() + Seq::<(nat, Seq<char>)>::empty() =~= Seq::<(nat, Seq<char>)>::empty());
}

/// A numbered line in front of entries above its number stays in order.
proof fn lemma_prepend_in_order(l: nat, t: Seq<char>, rest: Seq<(nat, Seq<char>)>, lo: int, src: Seq<Seq<char>>, off: int)
    requires
        lo < l <= off + src.len(),
        0 <= l - off - 1,
        src[l - off - 1] == t,
        in_order_within(rest, l as int, src, off),
    ensures
        in_order_within(seq![(l, t)] + rest, lo, src, off),
{
    let s = seq![(l, t)] + rest;
    assert forall|k: int| 0 <= k < s.len() implies lo < #[trigger] s[k].0 <= off + src.len() && src[s[k].0 - off - 1] == s[k].1 by {
        if k > 0 {
            assert(s[k] == rest[k - 1]);
        }
    }
    assert forall|k: int, m: int| 0 <= k < m < s.len() implies #[trigger] s[k].0 < #[trigger] s[m].0 by {
        assert(s[m] == rest[m - 1]);
        if k > 0 {
            assert(s[k] == rest[k - 1]);
        }
    }
}

proof fn lemma_empty_in_order(lo: int, src: Seq<Seq<char>>, off: int)
    ensures
        in_order_within(Seq::empty(), lo, src, off),
{
}

proof fn lemma_dels_from_sides(a: Seq<Seq<char>>, i: int, off: int)
    requires
        0 <= i <= a.len(),
        0 <= off,
    ensures
        in_order_within(dels_of(dels_from(a, i, off)), off + i, a, off),
        inss_of(dels_from(a, i, off)) == Seq::<(nat, Seq<char>)>::empty(),
    decreases a.len() - i,
{
    if i < a.len() {
        lemma_dels_from_sides(a, i + 1, off);
        let o = OpView::Del((off + i + 1) as nat, a[i]);
        lemma_one_op_sides(o);
        lemma_sides_add(seq![o], dels_from(a, i + 1, off));
        lemma_prepend_in_order((off + i + 1) as nat, a[i], dels_of(dels_from(a, i + 1, off)), off + i, a, off);
        assert(Seq::<(nat, Seq<char>)>::empty() + Seq::<(nat, Seq<char>)>::empty() =~= Seq::<(nat, Seq<char>)>::empty());
    } else {
        assert(dels_from(a, i, off) =~= Seq::<OpView>::empty());
        assert(dels_of(Seq::<OpView>::empty()) =~= Seq::<(nat, Seq<char>)>::empty());
        assert(inss_of(Seq::<OpView>::empty()) =~= Seq::<(nat, Seq<char>)>::empty());
    }
}

proof fn lemma_inss_from_sides(b: Seq<Seq<char>>, j: int, off: int)
    requires
        0 <= j <= b.len(),
        0 <= off,
    ensures
        in_order_within(inss_of(inss_from(b, j, off)), off + j, b, off),
        dels_of(inss_from(b, j, off)) == Seq::<(nat, Seq<char>)>::empty(),
    decreases b.len() - j,
{
    if j < b.len() {
        lemma_inss_from_sides(b, j + 1, off);
        let o = OpView::Ins((off + j + 1) as nat, b[j]);
        lemma_one_op_sides(o);
        lemma_sides_add(seq![o], inss_from(b, j + 1, off));
        lemma_prepend_in_order((off + j + 1) as nat, b[j], inss_of(inss_from(b, j + 1, off)), off + j, b, off);
        assert(Seq::<(nat, Seq<char>)>::empty() + Seq::<(nat, Seq<char>)>::empty() =~= Seq::<(nat, Seq<char>)>::empty());
    } else {
        assert(inss_from(b, j, off) =~= Seq::<OpView>::empty());
        assert(dels_of(Seq::<OpView>::empty()) =~= Seq::<(nat, Seq<char>)>::empty());
        assert(inss_of(Seq::<OpView>::empty()) =~= Seq::<(nat, Seq<char>)>::empty());
    }
}

/// The edit script deletes old lines and inserts new lines, each kind in
/// strictly increasing line order, each naming its line by number and text.
proof fn lemma_script_sides(a: Seq<Seq<char>>, b: Seq<Seq<char>>, i: int, j: int, off: int)
    requires
        0 <= i <= a.len(),
        0 <= j <= b.len(),
        0 <= off,
    ensures
        in_order_within(dels_of(edit_script(a, b, i, j, off)), off + i, a, off),
        in_order_within(inss_of(edit_script(a, b, i, j, off)), off + j, b, off),
    decreases a.len() - i + b.len() - j,
{
    if i >= a.len() {
        lemma_inss_from_sides(b, j, off);
        lemma_empty_in_order(off + i, a, off);
    } else if j >= b.len() {
        lemma_dels_from_sides(a, i, off);
        lemma_empty_in_order(off + j, b, off);
    } else if a[i] == b[j] {
        lemma_script_sides(a, b, i + 1, j + 1, off);
    } else if crate::line_diff_spec::lcs_len(a, b, i + 1, j) >= crate::line_diff_spec::lcs_len(a, b, i, j + 1) {
        lemma_script_sides(a, b, i + 1, j, off);
        let rest = edit_script(a, b, i + 1, j, off);
        let o = OpView::Del((off + i + 1) as nat, a[i]);
        lemma_one_op_sides(o);
        lemma_sides_add(seq![o], rest);
        lemma_prepend_in_order((off + i + 1) as nat, a[i], dels_of(rest), off + i, a, off);
        assert(Seq::<(nat, Seq<char>)>::empty() + inss_of(rest) =~= inss_of(rest));
    } else {
        lemma_script_sides(a, b, i, j + 1, off);
        let rest = edit_script(a, b, i, j + 1, off);
        let o = OpView::Ins((off + j + 1) as nat, b[j]);
        lemma_one_op_sides(o);
        lemma_sides_add(seq![o], rest);
        lemma_prepend_in_order((off + j + 1) as nat, b[j], inss_of(rest), off + j, b, off);
        assert(Seq::<(nat, Seq<char>)>::empty() + dels_of(rest) =~= dels_of(rest));
    }
}

// ----- folding ----------------------------------------------------------------------------

proof fn lemma_change_sides_add(c1: Seq<ChangeView>, c2: Seq<ChangeView>)
    ensures
        old_side(c1 + c2) == old_side(c1) + old_side(c2),
        new_side(c1 + c2) == new_side(c1) + new_side(c2),
    decreases c2.len(),
{
    if c2.len() == 0 {
        assert(c1 + c2 =~= c1);
        assert(old_side(c1) + old_side(c2) =~= old_side(c1));
        assert(new_side(c1) + new_side(c2) =~= new_side(c1));
    } else {
        lemma_change_sides_add(c1, c2.drop_last());
        assert((c1 + c2).drop_last() =~= c1 + c2.drop_last());
        assert((c1 + c2).last() == c2.last());
        let ol: Seq<(nat, Seq<char>)> = match c2.last() {
            ChangeView::Removed(l, t) => seq![(l, t)],
            ChangeView::Modified(l, o, _) => seq![(l, o)],
            ChangeView::Added(_, _) => Seq::empty(),
        };
        let nl: Seq<Seq<char>> = match c2.last() {
            ChangeView::Added(_, t) => seq![t],
            ChangeView::Modified(_, _, n) => seq![n],
            ChangeView::Removed(_, _) => Seq::empty(),
        };
        assert(old_side(c1) + old_side(c2.drop_last()) + ol =~= old_side(c1) + (old_side(c2.drop_last()) + ol));
        assert(new_side(c1) + new_side(c2.drop_last()) + nl =~= new_side(c1) + (new_side(c2.drop_last()) + nl));
    }
}

proof fn lemma_texts_add(s1: Seq<(nat, Seq<char>)>, s2: Seq<(nat, Seq<char>)>)
    ensures
        texts(s1 + s2) == texts(s1) + texts(s2),
{
    assert(texts(s1 + s2) =~= texts(s1) + texts(s2));
}

proof fn lemma_one_change(c: ChangeView)
    ensures
        old_side(seq![c]) == match c {
            ChangeView::Removed(l, t) => seq![(l, t)],
            ChangeView::Modified(l, o, _) => seq![(l, o)],
            ChangeView::Added(_, _) => Seq::<(nat, Seq<char>)>::empty(),
        },
        new_side(seq![c]) == match c {
            ChangeView::Added(_, t) => seq![t],
            ChangeView::Modified(_, _, n) => seq![n],
            ChangeView::Removed(_, _) => Seq::<Seq<char>>::empty(),
        },
{
    let e = Seq::<ChangeView>::empty();
    assert(seq![c].drop_last() =~= e);
    assert(seq![c].last() == c);
    assert(old_side(e) =~= Seq::<(nat, Seq<char>)>::empty());
    assert(new_side(e) =~= Seq::<Seq<char>>::empty());
    match c {
        ChangeView::Removed(l, t) => {
            assert(Seq::<(nat, Seq<char>)>::empty() + seq![(l, t)] =~= seq![(l, t)]);
            assert(Seq::<Seq<char>>::empty() + Seq::<Seq<char>>::empty() =~= Seq::<Seq<char>>::empty());
        },
        ChangeView::Modified(l, o, n) => {
            assert(Seq::<(nat, Seq<char>)>::empty() + seq![(l, o)] =~= seq![(l, o)]);
            assert(Seq::<Seq<char>>::empty() + seq![n] =~= seq![n]);
        },
        ChangeView::Added(_, t) => {
            assert(Seq::<(nat, Seq<char>)>::empty() + Seq::<(nat, Seq<char>)>::empty() =~= Seq::<(nat, Seq<char>)>::empty());
            assert(Seq::<Seq<char>>::empty() + seq![t] =~= seq![t]);
        },
    }
}

proof fn lemma_pair_sides(d: OpView, i: OpView)
    ensures
        old_side(pair_change(d, i)) == seq![(op_line(d), op_text(d))],
        new_side(pair_change(d, i)) == seq![op_text(i)],
{
    if spec_similar(op_text(d), op_text(i)) {
        lemma_one_change(ChangeView::Modified(op_line(d), op_text(d), op_text(i)));
    } else {
        let r = ChangeView::Removed(op_line(d), op_text(d));
        let a = ChangeView::Added(op_line(d), op_text(i));
        lemma_one_change(r);
        lemma_one_change(a);
        assert(pair_change(d, i) =~= seq![r] + seq![a]);
        lemma_change_sides_add(seq![r], seq![a]);
        assert(seq![(op_line(d), op_text(d))] + Seq::<(nat, Seq<char>)>::empty() =~= seq![(op_line(d), op_text(d))]);
        assert(Seq::<Seq<char>>::empty() + seq![op_text(i)] =~= seq![op_text(i)]);
    }
}

proof fn lemma_pairs_sides(dels: Seq<OpView>, inss: Seq<OpView>, p: int)
    requires
        0 <= p <= dels.len(),
        p <= inss.len(),
        all_kind(dels, true),
        all_kind(inss, false),
    ensures
        old_side(pairs_upto(dels, inss, p)) == dels_of(dels.take(p)),
        new_side(pairs_upto(dels, inss, p)) == texts(inss_of(inss.take(p))),
    decreases p,
{
    if p == 0 {
        assert(dels.take(0) =~= Seq::<OpView>::empty());
        assert(inss.take(0) =~= Seq::<OpView>::empty());
        assert(old_side(Seq::<ChangeView>::empty()) =~= dels_of(Seq::<OpView>::empty()));
        assert(new_side(Seq::<ChangeView>::empty()) =~= texts(inss_of(Seq::<OpView>::empty())));
    } else {
        lemma_pairs_sides(dels, inss, p - 1);
        lemma_pair_sides(dels[p - 1], inss[p - 1]);
        lemma_change_sides_add(pairs_upto(dels, inss, p - 1), pair_change(dels[p - 1], inss[p - 1]));
        assert(dels.take(p).drop_last() =~= dels.take(p - 1));
        assert(inss.take(p).drop_last() =~= inss.take(p - 1));
        assert(is_del(dels[p - 1]));
        assert(!is_del(inss[p - 1]));
        assert(dels.take(p).last() == dels[p - 1]);
        assert(inss.take(p).last() == inss[p - 1]);
        lemma_texts_add(inss_of(inss.take(p - 1)), seq![(op_line(inss[p - 1]), op_text(inss[p - 1]))]);
        assert(texts(seq![(op_line(inss[p - 1]), op_text(inss[p - 1]))]) =~= seq![op_text(inss[p - 1])]);
    }
}

proof fn lemma_unpaired_sides(ops: Seq<OpView>)
    ensures
        old_side(unpaired(ops)) == dels_of(ops),
        new_side(unpaired(ops)) == texts(inss_of(ops)),
    decreases ops.len(),
{
    if ops.len() == 0 {
        assert(old_side(Seq::<ChangeView>::empty()) =~= dels_of(ops));
        assert(new_side(Seq::<ChangeView>::empty()) =~= texts(inss_of(ops)));
    } else {
        lemma_unpaired_sides(ops.drop_last());
        let o = ops.last();
        let c = if is_del(o) {
            ChangeView::Removed(op_line(o), op_text(o))
        } else {
            ChangeView::Added(op_line(o), op_text(o))
        };
        assert(unpaired(ops) == unpaired(ops.drop_last()) + seq![c]);
        lemma_one_change(c);
        lemma_change_sides_add(unpaired(ops.drop_last()), seq![c]);
        let il: Seq<(nat, Seq<char>)> = if is_del(o) { Seq::empty() } else { seq![(op_line(o), op_text(o))] };
        lemma_texts_add(inss_of(ops.drop_last()), il);
        assert(texts(il) =~= (if is_del(o) { Seq::<Seq<char>>::empty() } else { seq![op_text(o)] }));
    }
}

proof fn lemma_all_kind_sides(s: Seq<OpView>, dels: bool)
    requires
        all_kind(s, dels),
    ensures
        dels ==> inss_of(s) == Seq::<(nat, Seq<char>)>::empty(),
        !dels ==> dels_of(s) == Seq::<(nat, Seq<char>)>::empty(),
    decreases s.len(),
{
    if s.len() == 0 {
        assert(inss_of(s) =~= Seq::<(nat, Seq<char>)>::empty());
        assert(dels_of(s) =~= Seq::<(nat, Seq<char>)>::empty());
    } else {
        assert(is_del(s[s.len() - 1]) == dels);
        assert forall|k: int| 0 <= k < s.drop_last().len() implies is_del(#[trigger] s.drop_last()[k]) == dels by {
            assert(s.drop_last()[k] == s[k]);
        }
        lemma_all_kind_sides(s.drop_last(), dels);
        assert(Seq::<(nat, Seq<char>)>::empty() + Seq::<(nat, Seq<char>)>::empty() =~= Seq::<(nat, Seq<char>)>::empty());
    }
}

proof fn lemma_run_sides(dels: Seq<OpView>, inss: Seq<OpView>)
    requires
        all_kind(dels, true),
        all_kind(inss, false),
    ensures
        old_side(run_changes(dels, inss)) == dels_of(dels + inss),
        new_side(run_changes(dels, inss)) == texts(inss_of(dels + inss)),
{
    let p = if dels.len() <= inss.len() { dels.len() } else { inss.len() };
    let pr = pairs_upto(dels, inss, p as int);
    let ds = dels.skip(p as int);
    let is = inss.skip(p as int);
    lemma_pairs_sides(dels, inss, p as int);
    lemma_unpaired_sides(ds);
    lemma_unpaired_sides(is);
    assert(all_kind(ds, true));
    assert(all_kind(is, false));
    lemma_all_kind_sides(ds, true);
    lemma_all_kind_sides(is, false);
    lemma_all_kind_sides(dels, true);
    lemma_all_kind_sides(inss, false);
    lemma_change_sides_add(pr, unpaired(ds));
    lemma_change_sides_add(pr + unpaired(ds), unpaired(is));
    assert(dels =~= dels.take(p as int) + ds);
    assert(inss =~= inss.take(p as int) + is);
    lemma_sides_add(dels.take(p as int), ds);
    lemma_sides_add(inss.take(p as int), is);
    lemma_sides_add(dels, inss);
    lemma_texts_add(inss_of(inss.take(p as int)), inss_of(is));
    lemma_texts_add(inss_of(dels), inss_of(inss));
    let e = Seq::<(nat, Seq<char>)>::empty();
    assert(dels_of(dels.take(p as int)) + dels_of(ds) + e =~= dels_of(dels) + dels_of(inss));
    assert(texts(inss_of(inss.take(p as int))) + texts(e) + texts(inss_of(is)) =~= texts(inss_of(dels)) + texts(inss_of(inss)));
}

proof fn lemma_fold_sides(ops: Seq<OpView>, k: int)
    requires
        0 <= k <= ops.len(),
    ensures
        old_side(fold_changes(ops, k)) == dels_of(ops.skip(k)),
        new_side(fold_changes(ops, k)) == texts(inss_of(ops.skip(k))),
    decreases ops.len() - k,
{
    if k == ops.len() {
        assert(ops.skip(k) =~= Seq::<OpView>::empty());
        assert(old_side(Seq::<ChangeView>::empty()) =~= dels_of(Seq::<OpView>::empty()));
        assert(new_side(Seq::<ChangeView>::empty()) =~= texts(inss_of(Seq::<OpView>::empty())));
    } else {
        crate::line_diff_laws::lemma_run_ends(ops, k);
        let d_end = del_run_end(ops, k);
        let i_end = ins_run_end(ops, d_end);
        let dels = ops.subrange(k, d_end);
        let inss = ops.subrange(d_end, i_end);
        lemma_del_run(ops, k);
        lemma_ins_run(ops, d_end);
        assert(all_kind(dels, true));
        assert(all_kind(inss, false));
        lemma_run_sides(dels, inss);
        lemma_fold_sides(ops, i_end);
        lemma_change_sides_add(run_changes(dels, inss), fold_changes(ops, i_end));
        assert(ops.skip(k) =~= (dels + inss) + ops.skip(i_end));
        lemma_sides_add(dels + inss, ops.skip(i_end));
        lemma_texts_add(inss_of(dels + inss), inss_of(ops.skip(i_end)));
    }
}

/// Entries in order within a middle `src.subrange(lo, h)` are in order within `src`.
proof fn lemma_widen(s: Seq<(nat, Seq<char>)>, src: Seq<Seq<char>>, lo: int, h: int)
    requires
        0 <= lo <= h <= src.len(),
        in_order_within(s, lo, src.subrange(lo, h), lo),
    ensures
        in_order_within(s, 0, src, 0),
{
    assert forall|k: int| 0 <= k < s.len() implies 0 < #[trigger] s[k].0 <= src.len() && src[s[k].0 - 1] == s[k].1 by {
        assert(src.subrange(lo, h)[s[k].0 - lo - 1] == src[s[k].0 - 1]);
    }
}

/// Every change of a diff names its lines truly and in file order: the old
/// sides (removed lines, modified lines' old text) are lines of the old file
/// at strictly increasing line numbers; the new sides (added lines, modified
/// lines' new text) are, in order, the lines the edit script inserts, which
/// are lines of the new file at strictly increasing line numbers.
pub proof fn law_changes_follow_both_files(x: Seq<Seq<char>>, y: Seq<Seq<char>>)
    ensures
        ({
            let cs = spec_compute_diff(x, y).changes;
            let ins = inss_of(diff_ops(x, y));
            &&& in_order_within(old_side(cs), 0, x, 0)
            &&& in_order_within(ins, 0, y, 0)
            &&& new_side(cs) == texts(ins)
        }),
{
    crate::line_diff_laws::lemma_trim(x, y);
    let lo = prefix_len(x, y, 0);
    let (h1, h2) = suffix_trim(x, y, lo, x.len() as int, y.len() as int);
    let a = x.subrange(lo, h1);
    let b = y.subrange(lo, h2);
    let ops = diff_ops(x, y);
    if a.len() * b.len() > LCS_CELL_CAP {
        lemma_dels_from_sides(a, 0, lo);
        lemma_inss_from_sides(b, 0, lo);
        lemma_sides_add(dels_from(a, 0, lo), inss_from(b, 0, lo));
        assert(dels_of(ops) =~= dels_of(dels_from(a, 0, lo)));
        assert(inss_of(ops) =~= inss_of(inss_from(b, 0, lo)));
    } else {
        lemma_script_sides(a, b, 0, 0, lo);
    }
    lemma_widen(dels_of(ops), x, lo, h1);
    lemma_widen(inss_of(ops), y, lo, h2);
    lemma_fold_sides(ops, 0);
    assert(ops.skip(0) =~= ops);
}

/// The LCS edit script (what `lcs_ops` computes) deletes lines of `a` and
/// inserts lines of `b`, each op naming its line by number (after `off`)
/// and text, and the numbers of each kind strictly increase.
pub proof fn law_edit_script_in_order(a: Seq<Seq<char>>, b: Seq<Seq<char>>, off: int)
    requires
        0 <= off,
    ensures
        in_order_within(dels_of(edit_script(a, b, 0, 0, off)), off, a, off),
        in_order_within(inss_of(edit_script(a, b, 0, 0, off)), off, b, off),
{
    lemma_script_sides(a, b, 0, 0, off);
}

/// The positions the script deletes from the old file are those of its
/// numbered deletions, and likewise for insertions.
proof fn lemma_sets_are_sides(ops: Seq<OpView>)
    ensures
        forall|p: int| crate::line_diff_laws::del_set(ops, 0).contains(p) <==>
            exists|k: int| 0 <= k < dels_of(ops).len() && #[trigger] dels_of(ops)[k].0 == p + 1,
        forall|p: int| crate::line_diff_laws::ins_set(ops, 0).contains(p) <==>
            exists|k: int| 0 <= k < inss_of(ops).len() && #[trigger] inss_of(ops)[k].0 == p + 1,
    decreases ops.len(),
{
    let ds = crate::line_diff_laws::del_set(ops, 0);
    let is = crate::line_diff_laws::ins_set(ops, 0);
    if ops.len() == 0 {
        assert(ds =~= Set::<int>::empty());
        assert(is =~= Set::<int>::empty());
    } else {
        let front = ops.drop_last();
        let o = ops.last();
        lemma_sets_are_sides(front);
        assert(front + seq![o] =~= ops);
        crate::line_diff_laws::lemma_sets_cat(front, seq![o], 0);
        assert(seq![o].drop_first() =~= Seq::<OpView>::empty());
        assert(seq![o][0] == o);
        let e = Seq::<OpView>::empty();
        assert(crate::line_diff_laws::del_set(e, 0) =~= Set::<int>::empty());
        assert(crate::line_diff_laws::ins_set(e, 0) =~= Set::<int>::empty());
        let df = dels_of(front);
        let inf = inss_of(front);
        let dso = crate::line_diff_laws::del_set(seq![o], 0);
        let iso = crate::line_diff_laws::ins_set(seq![o], 0);
        assert(dso == if is_del(o) { Set::<int>::empty().insert(op_line(o) - 0 - 1) } else { Set::<int>::empty() });
        assert(iso == if !is_del(o) { Set::<int>::empty().insert(op_line(o) - 0 - 1) } else { Set::<int>::empty() });
        assert(ds == crate::line_diff_laws::del_set(front, 0) + dso);
        assert(is == crate::line_diff_laws::ins_set(front, 0) + iso);
        assert(ops.drop_last() == front && ops.last() == o);
        assert(dels_of(ops) == df + if is_del(o) { seq![(op_line(o), op_text(o))] } else { Seq::<(nat, Seq<char>)>::empty() });
        assert(inss_of(ops) == inf + if is_del(o) { Seq::<(nat, Seq<char>)>::empty() } else { seq![(op_line(o), op_text(o))] });
        assert forall|p: int| ds.contains(p) implies exists|k: int| 0 <= k < dels_of(ops).len() && #[trigger] dels_of(ops)[k].0 == p + 1 by {
            if crate::line_diff_laws::del_set(front, 0).contains(p) {
                assert(exists|k: int| 0 <= k < df.len() && #[trigger] df[k].0 == p + 1);
                let k = choose|k: int| 0 <= k < df.len() && #[trigger] df[k].0 == p + 1;
                assert(dels_of(ops)[k] == df[k]);
                assert(0 <= k < dels_of(ops).len() && dels_of(ops)[k].0 == p + 1);
            } else {
                assert(dso.contains(p));
                assert(is_del(o) && op_line(o) - 1 == p);
                let k = df.len() as int;
                assert(dels_of(ops)[k] == (op_line(o), op_text(o)));
                assert(0 <= k < dels_of(ops).len() && dels_of(ops)[k].0 == p + 1);
            }
        }
        assert forall|p: int| (exists|k: int| 0 <= k < dels_of(ops).len() && #[trigger] dels_of(ops)[k].0 == p + 1) implies ds.contains(p) by {
            let k = choose|k: int| 0 <= k < dels_of(ops).len() && #[trigger] dels_of(ops)[k].0 == p + 1;
            if k < df.len() {
                assert(dels_of(ops)[k] == df[k]);
                assert(df[k].0 == p + 1);
                assert(crate::line_diff_laws::del_set(front, 0).contains(p));
            } else {
                assert(is_del(o));
                assert(dels_of(ops)[k] == (op_line(o), op_text(o)));
                assert(dso.contains(p));
            }
        }
        assert forall|p: int| is.contains(p) implies exists|k: int| 0 <= k < inss_of(ops).len() && #[trigger] inss_of(ops)[k].0 == p + 1 by {
            if crate::line_diff_laws::ins_set(front, 0).contains(p) {
                assert(exists|k: int| 0 <= k < inf.len() && #[trigger] inf[k].0 == p + 1);
                let k = choose|k: int| 0 <= k < inf.len() && #[trigger] inf[k].0 == p + 1;
                assert(inss_of(ops)[k] == inf[k]);
                assert(0 <= k < inss_of(ops).len() && inss_of(ops)[k].0 == p + 1);
            } else {
                assert(iso.contains(p));
                assert(!is_del(o) && op_line(o) - 1 == p);
                let k = inf.len() as int;
                assert(inss_of(ops)[k] == (op_line(o), op_text(o)));
                assert(0 <= k < inss_of(ops).len() && inss_of(ops)[k].0 == p + 1);
            }
        }
        assert forall|p: int| (exists|k: int| 0 <= k < inss_of(ops).len() && #[trigger] inss_of(ops)[k].0 == p + 1) implies is.contains(p) by {
            let k = choose|k: int| 0 <= k < inss_of(ops).len() && #[trigger] inss_of(ops)[k].0 == p + 1;
            if k < inf.len() {
                assert(inss_of(ops)[k] == inf[k]);
                assert(inf[k].0 == p + 1);
                assert(crate::line_diff_laws::ins_set(front, 0).contains(p));
            } else {
                assert(!is_del(o));
                assert(inss_of(ops)[k] == (op_line(o), op_text(o)));
                assert(iso.contains(p));
            }
        }
    }
}

/// The positions a diff drops from each file are exactly those its changes
/// name: removed and modified lines' numbers in the old file, and the
/// script's insertions (the changes' new sides, in order) in the new file.
/// Dropping them leaves the same lines on both sides
/// (`law_diff_aligns_the_whole_files`).
pub proof fn law_dropped_positions_are_the_changes(x: Seq<Seq<char>>, y: Seq<Seq<char>>)
    ensures
        ({
            let ops = diff_ops(x, y);
            let cs = spec_compute_diff(x, y).changes;
            &&& old_side(cs) == dels_of(ops)
            &&& forall|p: int| crate::line_diff_laws::del_set(ops, 0).contains(p) <==>
                exists|k: int| 0 <= k < old_side(cs).len() && #[trigger] old_side(cs)[k].0 == p + 1
            &&& forall|p: int| crate::line_diff_laws::ins_set(ops, 0).contains(p) <==>
                exists|k: int| 0 <= k < inss_of(ops).len() && #[trigger] inss_of(ops)[k].0 == p + 1
        }),
{
    let ops = diff_ops(x, y);
    lemma_fold_sides(ops, 0);
    assert(ops.skip(0) =~= ops);
    lemma_sets_are_sides(ops);
}

} // verus!
