//! What the classic `diff` rendering is made of, line by line: command
//! lines, `---` separators, and `< old` / `> new` lines that carry every
//! change's old and new text once, in change order.
use vstd::prelude::*;

use crate::line_diff_spec::ChangeView;
use crate::render::{
    add_run_end, change_line_no, change_text, classic_chunk, classic_from, line_range, marked,
    mod_run_end, pair_at, pair_run_end, rem_run_end, spec_format_classic_diff,
};
use crate::render_laws::lacks;
use crate::text::{decimal, is_digit, split_on, starts_with};

verus! {

/// Lines each followed by a newline.
pub open spec fn unlines(ls: Seq<Seq<char>>) -> Seq<char>
    decreases ls.len(),
{
    if ls.len() == 0 {
        Seq::empty()
    } else {
        ls[0] + "\n"@ + unlines(ls.drop_first())
    }
}

/// The lines `marked` writes, without their newlines.
pub open spec fn marked_lines(cs: Seq<ChangeView>, k: int, e: int, step: int, marker: Seq<char>, new_side: bool) -> Seq<Seq<char>>
    decreases (if k < e { e - k } else { 0 }),
{
    if k >= e || step <= 0 || k < 0 || k >= cs.len() {
        Seq::empty()
    } else {
        seq![marker + change_text(cs[k], new_side)] + marked_lines(cs, k + step, e, step, marker, new_side)
    }
}

/// The lines of the classic hunk at `cs[k]`.
pub open spec fn chunk_lines(cs: Seq<ChangeView>, k: int) -> Seq<Seq<char>> {
    let start = change_line_no(cs[k]);
    match cs[k] {
        ChangeView::Modified(..) => {
            let e = mod_run_end(cs, k, start);
            let r = line_range(start, (start + (e - k) - 1) as nat);
            seq![r + "c"@ + r] + marked_lines(cs, k, e, 1, "< "@, false) + seq!["---"@] + marked_lines(cs, k, e, 1, "> "@, true)
        },
        ChangeView::Removed(..) => if pair_at(cs, k, start) {
            let e = pair_run_end(cs, k, start);
            let r = line_range(start, (start + (e - k) / 2 - 1) as nat);
            seq![r + "c"@ + r] + marked_lines(cs, k, e, 2, "< "@, false) + seq!["---"@] + marked_lines(cs, k + 1, e, 2, "> "@, true)
        } else {
            let e = rem_run_end(cs, k, start);
            seq![line_range(start, (start + (e - k) - 1) as nat) + "d"@ + decimal((start - 1) as nat)]
                + marked_lines(cs, k, e, 1, "< "@, false)
        },
        ChangeView::Added(..) => {
            let e = add_run_end(cs, k, start);
            seq![decimal((start - 1) as nat) + "a"@ + line_range(start, (start + (e - k) - 1) as nat)]
                + marked_lines(cs, k, e, 1, "> "@, true)
        },
    }
}

/// The lines of the classic diff of `cs[k..]`.
pub open spec fn classic_lines(cs: Seq<ChangeView>, k: int) -> Seq<Seq<char>>
    decreases cs.len() - k,
{
    if k < 0 || k >= cs.len() {
        Seq::empty()
    } else {
        let next = classic_chunk(cs, k).1;
        if next <= k || next > cs.len() {
            Seq::empty()
        } else {
            chunk_lines(cs, k) + classic_lines(cs, next)
        }
    }
}

/// The texts of the `< ` lines of `ls`, in order.
pub open spec fn old_lines(ls: Seq<Seq<char>>) -> Seq<Seq<char>>
    decreases ls.len(),
{
    if ls.len() == 0 {
        Seq::empty()
    } else {
        (if starts_with(ls[0], "< "@) { seq![ls[0].skip(2)] } else { Seq::empty() }) + old_lines(ls.drop_first())
    }
}

/// The texts of the `> ` lines of `ls`, in order.
pub open spec fn new_lines(ls: Seq<Seq<char>>) -> Seq<Seq<char>>
    decreases ls.len(),
{
    if ls.len() == 0 {
        Seq::empty()
    } else {
        (if starts_with(ls[0], "> "@) { seq![ls[0].skip(2)] } else { Seq::empty() }) + new_lines(ls.drop_first())
    }
}

/// The old texts of `cs[k..e]` in order: removed lines and modified lines'
/// old text.
pub open spec fn old_texts(cs: Seq<ChangeView>, k: int, e: int) -> Seq<Seq<char>>
    decreases (if k < e { e - k } else { 0 }),
{
    if k >= e || k < 0 || k >= cs.len() {
        Seq::empty()
    } else {
        (if cs[k] is Added { Seq::empty() } else { seq![change_text(cs[k], false)] }) + old_texts(cs, k + 1, e)
    }
}

/// The new texts of `cs[k..e]` in order: added lines and modified lines'
/// new text.
pub open spec fn new_texts(cs: Seq<ChangeView>, k: int, e: int) -> Seq<Seq<char>>
    decreases (if k < e { e - k } else { 0 }),
{
    if k >= e || k < 0 || k >= cs.len() {
        Seq::empty()
    } else {
        (if cs[k] is Removed { Seq::empty() } else { seq![change_text(cs[k], true)] }) + new_texts(cs, k + 1, e)
    }
}

/// `NcN`: lines changed in place.
pub open spec fn is_change_command(l: Seq<char>) -> bool {
    exists|a: nat, b: nat| l == #[trigger] line_range(a, b) + "c"@ + line_range(a, b)
}

/// `NaM`: lines added after old line `N`.
pub open spec fn is_add_command(l: Seq<char>) -> bool {
    exists|n: nat, a: nat, b: nat| l == #[trigger] decimal(n) + "a"@ + #[trigger] line_range(a, b)
}

/// `MdN`: lines removed, leaving new line `N` before them.
pub open spec fn is_delete_command(l: Seq<char>) -> bool {
    exists|n: nat, a: nat, b: nat| l == #[trigger] line_range(a, b) + "d"@ + #[trigger] decimal(n)
}

/// A line of the classic rendering: a command, a separator, or a marked text.
pub open spec fn classic_line_kind(l: Seq<char>) -> bool {
    ||| is_change_command(l)
    ||| is_add_command(l)
    ||| is_delete_command(l)
    ||| l == "---"@
    ||| starts_with(l, "< "@)
    ||| starts_with(l, "> "@)
}

// ----- the text is its lines ----------------------------------------------------------

proof fn lemma_unlines_cat(a: Seq<Seq<char>>, b: Seq<Seq<char>>)
    ensures
        unlines(a + b) == unlines(a) + unlines(b),
    decreases a.len(),
{
    if a.len() == 0 {
        assert(a + b =~= b);
        assert(unlines(a) + unlines(b) =~= unlines(b));
    } else {
        lemma_unlines_cat(a.drop_first(), b);
        assert((a + b).drop_first() =~= a.drop_first() + b);
        assert((a + b)[0] == a[0]);
        assert(a[0] + "\n"@ + (unlines(a.drop_first()) + unlines(b)) =~= a[0] + "\n"@ + unlines(a.drop_first()) + unlines(b));
    }
}

proof fn lemma_unlines_one(x: Seq<char>)
    ensures
        unlines(seq![x]) == x + "\n"@,
{
    let e = Seq::<Seq<char>>::empty();
    assert(seq![x].drop_first() =~= e);
    assert(unlines(e) == Seq::<char>::empty());
    assert(seq![x][0] == x);
    assert(x + "\n"@ + Seq::<char>::empty() =~= x + "\n"@);
}

pub(crate) proof fn lemma_marked_text(cs: Seq<ChangeView>, k: int, e: int, step: int, marker: Seq<char>, new_side: bool)
    ensures
        marked(cs, k, e, step, marker, new_side) == unlines(marked_lines(cs, k, e, step, marker, new_side)),
    decreases (if k < e { e - k } else { 0 }),
{
    if !(k >= e || step <= 0 || k < 0 || k >= cs.len()) {
        lemma_marked_text(cs, k + step, e, step, marker, new_side);
        let x = marker + change_text(cs[k], new_side);
        let rest = marked_lines(cs, k + step, e, step, marker, new_side);
        lemma_unlines_cat(seq![x], rest);
        lemma_unlines_one(x);
    } else {
        assert(unlines(Seq::<Seq<char>>::empty()) =~= Seq::<char>::empty());
    }
}

proof fn lemma_chunk_text(cs: Seq<ChangeView>, k: int)
    requires
        0 <= k < cs.len(),
    ensures
        classic_chunk(cs, k).0 == unlines(chunk_lines(cs, k)),
{
    reveal_strlit("---\n");
    reveal_strlit("---");
    reveal_strlit("\n");
    assert("---\n"@ =~= "---"@ + "\n"@);
    let start = change_line_no(cs[k]);
    match cs[k] {
        ChangeView::Modified(..) => {
            let e = mod_run_end(cs, k, start);
            let r = line_range(start, (start + (e - k) - 1) as nat);
            let h = r + "c"@ + r;
            let m1 = marked_lines(cs, k, e, 1, "< "@, false);
            let m2 = marked_lines(cs, k, e, 1, "> "@, true);
            lemma_marked_text(cs, k, e, 1, "< "@, false);
            lemma_marked_text(cs, k, e, 1, "> "@, true);
            lemma_unlines_one(h);
            lemma_unlines_one("---"@);
            lemma_unlines_cat(seq![h], m1);
            lemma_unlines_cat(seq![h] + m1, seq!["---"@]);
            lemma_unlines_cat(seq![h] + m1 + seq!["---"@], m2);
            assert(h + "\n"@ + unlines(m1) + ("---"@ + "\n"@) + unlines(m2) =~= h + "\n"@ + unlines(m1) + "---\n"@ + unlines(m2));
        },
        ChangeView::Removed(..) => if pair_at(cs, k, start) {
            let e = pair_run_end(cs, k, start);
            let r = line_range(start, (start + (e - k) / 2 - 1) as nat);
            let h = r + "c"@ + r;
            let m1 = marked_lines(cs, k, e, 2, "< "@, false);
            let m2 = marked_lines(cs, k + 1, e, 2, "> "@, true);
            lemma_marked_text(cs, k, e, 2, "< "@, false);
            lemma_marked_text(cs, k + 1, e, 2, "> "@, true);
            lemma_unlines_one(h);
            lemma_unlines_one("---"@);
            lemma_unlines_cat(seq![h], m1);
            lemma_unlines_cat(seq![h] + m1, seq!["---"@]);
            lemma_unlines_cat(seq![h] + m1 + seq!["---"@], m2);
            assert(h + "\n"@ + unlines(m1) + ("---"@ + "\n"@) + unlines(m2) =~= h + "\n"@ + unlines(m1) + "---\n"@ + unlines(m2));
        } else {
            let e = rem_run_end(cs, k, start);
            let h = line_range(start, (start + (e - k) - 1) as nat) + "d"@ + decimal((start - 1) as nat);
            let m1 = marked_lines(cs, k, e, 1, "< "@, false);
            lemma_marked_text(cs, k, e, 1, "< "@, false);
            lemma_unlines_one(h);
            lemma_unlines_cat(seq![h], m1);
        },
        ChangeView::Added(..) => {
            let e = add_run_end(cs, k, start);
            let h = decimal((start - 1) as nat) + "a"@ + line_range(start, (start + (e - k) - 1) as nat);
            let m1 = marked_lines(cs, k, e, 1, "> "@, true);
            lemma_marked_text(cs, k, e, 1, "> "@, true);
            lemma_unlines_one(h);
            lemma_unlines_cat(seq![h], m1);
        },
    }
}

pub(crate) proof fn lemma_classic_text(cs: Seq<ChangeView>, k: int)
    ensures
        classic_from(cs, k) == unlines(classic_lines(cs, k)),
    decreases cs.len() - k,
{
    if k < 0 || k >= cs.len() {
        assert(unlines(Seq::<Seq<char>>::empty()) =~= Seq::<char>::empty());
    } else {
        let next = classic_chunk(cs, k).1;
        if next <= k || next > cs.len() {
            assert(unlines(Seq::<Seq<char>>::empty()) =~= Seq::<char>::empty());
        } else {
            lemma_chunk_text(cs, k);
            lemma_classic_text(cs, next);
            lemma_unlines_cat(chunk_lines(cs, k), classic_lines(cs, next));
        }
    }
}

proof fn lemma_split_unlines(ls: Seq<Seq<char>>)
    requires
        forall|m: int| 0 <= m < ls.len() ==> lacks(#[trigger] ls[m], '\n'),
    ensures
        split_on(unlines(ls), '\n') == ls.push(Seq::empty()),
    decreases ls.len(),
{
    if ls.len() == 0 {
        assert(split_on(Seq::<char>::empty(), '\n') =~= ls.push(Seq::empty()));
    } else {
        let rest = ls.drop_first();
        assert forall|m: int| 0 <= m < rest.len() implies lacks(#[trigger] rest[m], '\n') by {
            assert(rest[m] == ls[m + 1]);
        }
        lemma_split_unlines(rest);
        assert(lacks(ls[0], '\n'));
        crate::unified_lines::lemma_split_single(ls[0], '\n');
        reveal_strlit("\n");
        assert(ls[0] + "\n"@ + unlines(rest) =~= ls[0] + seq!['\n'] + unlines(rest));
        crate::unified_lines::lemma_split_cat(ls[0], unlines(rest), '\n');
        assert(seq![ls[0]] + rest.push(Seq::empty()) =~= ls.push(Seq::empty()));
    }
}

// ----- which lines carry which texts ------------------------------------------------------

/// The texts `marked_lines` writes, without their markers.
pub open spec fn picked(cs: Seq<ChangeView>, k: int, e: int, step: int, new_side: bool) -> Seq<Seq<char>>
    decreases (if k < e { e - k } else { 0 }),
{
    if k >= e || step <= 0 || k < 0 || k >= cs.len() {
        Seq::empty()
    } else {
        seq![change_text(cs[k], new_side)] + picked(cs, k + step, e, step, new_side)
    }
}

proof fn lemma_filters_cat(a: Seq<Seq<char>>, b: Seq<Seq<char>>)
    ensures
        old_lines(a + b) == old_lines(a) + old_lines(b),
        new_lines(a + b) == new_lines(a) + new_lines(b),
    decreases a.len(),
{
    if a.len() == 0 {
        assert(a + b =~= b);
        assert(old_lines(a) + old_lines(b) =~= old_lines(b));
        assert(new_lines(a) + new_lines(b) =~= new_lines(b));
    } else {
        lemma_filters_cat(a.drop_first(), b);
        assert((a + b).drop_first() =~= a.drop_first() + b);
        assert((a + b)[0] == a[0]);
        let o: Seq<Seq<char>> = if starts_with(a[0], "< "@) { seq![a[0].skip(2)] } else { Seq::empty() };
        let n: Seq<Seq<char>> = if starts_with(a[0], "> "@) { seq![a[0].skip(2)] } else { Seq::empty() };
        assert(o + (old_lines(a.drop_first()) + old_lines(b)) =~= o + old_lines(a.drop_first()) + old_lines(b));
        assert(n + (new_lines(a.drop_first()) + new_lines(b)) =~= n + new_lines(a.drop_first()) + new_lines(b));
    }
}

proof fn lemma_filters_one(l: Seq<char>)
    ensures
        old_lines(seq![l]) == (if starts_with(l, "< "@) { seq![l.skip(2)] } else { Seq::<Seq<char>>::empty() }),
        new_lines(seq![l]) == (if starts_with(l, "> "@) { seq![l.skip(2)] } else { Seq::<Seq<char>>::empty() }),
{
    let e = Seq::<Seq<char>>::empty();
    assert(seq![l].drop_first() =~= e);
    assert(seq![l][0] == l);
    assert(old_lines(e) == e && new_lines(e) == e);
    assert(seq![l.skip(2)] + e =~= seq![l.skip(2)]);
    assert(e + e =~= e);
}

/// A line that opens with neither `<` nor `>` carries no marked text.
proof fn lemma_unmarked(l: Seq<char>)
    requires
        l.len() > 0,
        l[0] != '<',
        l[0] != '>',
    ensures
        !starts_with(l, "< "@),
        !starts_with(l, "> "@),
{
    reveal_strlit("< ");
    reveal_strlit("> ");
    if starts_with(l, "< "@) {
        assert(l.take(2)[0] == l[0]);
    }
    if starts_with(l, "> "@) {
        assert(l.take(2)[0] == l[0]);
    }
}

proof fn lemma_marker_line(marker: Seq<char>, t: Seq<char>)
    requires
        marker == "< "@ || marker == "> "@,
    ensures
        starts_with(marker + t, marker),
        (marker + t).skip(2) == t,
        marker == "< "@ ==> !starts_with(marker + t, "> "@),
        marker == "> "@ ==> !starts_with(marker + t, "< "@),
{
    reveal_strlit("< ");
    reveal_strlit("> ");
    let l = marker + t;
    assert(l.take(2) =~= marker);
    assert(l.skip(2) =~= t);
    assert(l.take(2)[0] == marker[0]);
}

proof fn lemma_marked_filters(cs: Seq<ChangeView>, k: int, e: int, step: int, marker: Seq<char>, new_side: bool)
    requires
        marker == "< "@ || marker == "> "@,
    ensures
        marker == "< "@ ==> old_lines(marked_lines(cs, k, e, step, marker, new_side)) == picked(cs, k, e, step, new_side)
            && new_lines(marked_lines(cs, k, e, step, marker, new_side)) == Seq::<Seq<char>>::empty(),
        marker == "> "@ ==> new_lines(marked_lines(cs, k, e, step, marker, new_side)) == picked(cs, k, e, step, new_side)
            && old_lines(marked_lines(cs, k, e, step, marker, new_side)) == Seq::<Seq<char>>::empty(),
        forall|m: int| 0 <= m < marked_lines(cs, k, e, step, marker, new_side).len() ==>
            starts_with(#[trigger] marked_lines(cs, k, e, step, marker, new_side)[m], marker),
    decreases (if k < e { e - k } else { 0 }),
{
    let ml = marked_lines(cs, k, e, step, marker, new_side);
    if !(k >= e || step <= 0 || k < 0 || k >= cs.len()) {
        lemma_marked_filters(cs, k + step, e, step, marker, new_side);
        let t = change_text(cs[k], new_side);
        let rest = marked_lines(cs, k + step, e, step, marker, new_side);
        lemma_marker_line(marker, t);
        lemma_filters_one(marker + t);
        lemma_filters_cat(seq![marker + t], rest);
        assert(Seq::<Seq<char>>::empty() + Seq::<Seq<char>>::empty() =~= Seq::<Seq<char>>::empty());
        assert forall|m: int| 0 <= m < ml.len() implies starts_with(#[trigger] ml[m], marker) by {
            if m > 0 {
                assert(ml[m] == rest[m - 1]);
            }
        }
    } else {
        let e0 = Seq::<Seq<char>>::empty();
        assert(old_lines(e0) == e0 && new_lines(e0) == e0);
    }
}

proof fn lemma_old_split(cs: Seq<ChangeView>, k: int, m: int, e: int)
    requires
        0 <= k <= m <= e <= cs.len(),
    ensures
        old_texts(cs, k, e) == old_texts(cs, k, m) + old_texts(cs, m, e),
        new_texts(cs, k, e) == new_texts(cs, k, m) + new_texts(cs, m, e),
    decreases m - k,
{
    if k == m {
        assert(old_texts(cs, k, m) + old_texts(cs, m, e) =~= old_texts(cs, m, e));
        assert(new_texts(cs, k, m) + new_texts(cs, m, e) =~= new_texts(cs, m, e));
    } else {
        lemma_old_split(cs, k + 1, m, e);
        let o: Seq<Seq<char>> = if cs[k] is Added { Seq::empty() } else { seq![change_text(cs[k], false)] };
        let n: Seq<Seq<char>> = if cs[k] is Removed { Seq::empty() } else { seq![change_text(cs[k], true)] };
        assert(o + (old_texts(cs, k + 1, m) + old_texts(cs, m, e)) =~= o + old_texts(cs, k + 1, m) + old_texts(cs, m, e));
        assert(n + (new_texts(cs, k + 1, m) + new_texts(cs, m, e)) =~= n + new_texts(cs, k + 1, m) + new_texts(cs, m, e));
    }
}

proof fn lemma_mod_run(cs: Seq<ChangeView>, k: int, line: nat)
    requires
        0 <= k <= cs.len(),
    ensures
        k <= mod_run_end(cs, k, line) <= cs.len(),
        picked(cs, k, mod_run_end(cs, k, line), 1, false) == old_texts(cs, k, mod_run_end(cs, k, line)),
        picked(cs, k, mod_run_end(cs, k, line), 1, true) == new_texts(cs, k, mod_run_end(cs, k, line)),
    decreases cs.len() - k,
{
    let e = mod_run_end(cs, k, line);
    if k < cs.len() && cs[k] is Modified && change_line_no(cs[k]) == line {
        lemma_mod_run(cs, k + 1, line + 1);
    } else {
        let e0 = Seq::<Seq<char>>::empty();
        assert(picked(cs, k, e, 1, false) == e0 && old_texts(cs, k, e) == e0);
        assert(picked(cs, k, e, 1, true) == e0 && new_texts(cs, k, e) == e0);
    }
}

proof fn lemma_rem_run(cs: Seq<ChangeView>, k: int, line: nat)
    requires
        0 <= k <= cs.len(),
    ensures
        k <= rem_run_end(cs, k, line) <= cs.len(),
        picked(cs, k, rem_run_end(cs, k, line), 1, false) == old_texts(cs, k, rem_run_end(cs, k, line)),
        new_texts(cs, k, rem_run_end(cs, k, line)) == Seq::<Seq<char>>::empty(),
    decreases cs.len() - k,
{
    let e = rem_run_end(cs, k, line);
    if k < cs.len() && cs[k] is Removed && change_line_no(cs[k]) == line {
        lemma_rem_run(cs, k + 1, line + 1);
        assert(Seq::<Seq<char>>::empty() + Seq::<Seq<char>>::empty() =~= Seq::<Seq<char>>::empty());
    } else {
        let e0 = Seq::<Seq<char>>::empty();
        assert(picked(cs, k, e, 1, false) == e0 && old_texts(cs, k, e) == e0 && new_texts(cs, k, e) == e0);
    }
}

proof fn lemma_add_run(cs: Seq<ChangeView>, k: int, line: nat)
    requires
        0 <= k <= cs.len(),
    ensures
        k <= add_run_end(cs, k, line) <= cs.len(),
        picked(cs, k, add_run_end(cs, k, line), 1, true) == new_texts(cs, k, add_run_end(cs, k, line)),
        old_texts(cs, k, add_run_end(cs, k, line)) == Seq::<Seq<char>>::empty(),
    decreases cs.len() - k,
{
    let e = add_run_end(cs, k, line);
    if k < cs.len() && cs[k] is Added && change_line_no(cs[k]) == line {
        lemma_add_run(cs, k + 1, line + 1);
        assert(Seq::<Seq<char>>::empty() + Seq::<Seq<char>>::empty() =~= Seq::<Seq<char>>::empty());
    } else {
        let e0 = Seq::<Seq<char>>::empty();
        assert(picked(cs, k, e, 1, true) == e0 && old_texts(cs, k, e) == e0 && new_texts(cs, k, e) == e0);
    }
}

proof fn lemma_pair_run(cs: Seq<ChangeView>, k: int, line: nat)
    requires
        0 <= k <= cs.len(),
    ensures
        k <= pair_run_end(cs, k, line) <= cs.len(),
        picked(cs, k, pair_run_end(cs, k, line), 2, false) == old_texts(cs, k, pair_run_end(cs, k, line)),
        picked(cs, k + 1, pair_run_end(cs, k, line), 2, true) == new_texts(cs, k, pair_run_end(cs, k, line)),
    decreases cs.len() - k,
{
    let e = pair_run_end(cs, k, line);
    if pair_at(cs, k, line) {
        lemma_pair_run(cs, k + 2, line + 1);
        assert(e == pair_run_end(cs, k + 2, line + 1));
        assert(e >= k + 2);
        let t0 = change_text(cs[k], false);
        let t1 = change_text(cs[k + 1], true);
        let e0 = Seq::<Seq<char>>::empty();
        assert(old_texts(cs, k, e) == seq![t0] + old_texts(cs, k + 1, e));
        assert(old_texts(cs, k + 1, e) == e0 + old_texts(cs, k + 2, e));
        assert(old_texts(cs, k, e) =~= seq![t0] + old_texts(cs, k + 2, e));
        assert(new_texts(cs, k, e) == e0 + new_texts(cs, k + 1, e));
        assert(new_texts(cs, k + 1, e) == seq![t1] + new_texts(cs, k + 2, e));
        assert(new_texts(cs, k, e) =~= seq![t1] + new_texts(cs, k + 2, e));
        assert(picked(cs, k + 1, e, 2, true) == seq![t1] + picked(cs, k + 3, e, 2, true));
    } else {
        let e0 = Seq::<Seq<char>>::empty();
        assert(picked(cs, k, e, 2, false) == e0 && old_texts(cs, k, e) == e0);
        assert(picked(cs, k + 1, e, 2, true) == e0 && new_texts(cs, k, e) == e0);
    }
}

// ----- each chunk, then the whole rendering ---------------------------------------------

/// No change text holds a newline.
pub open spec fn texts_nl_free(cs: Seq<ChangeView>) -> bool {
    forall|k: int| 0 <= k < cs.len() ==> lacks(#[trigger] change_text(cs[k], false), '\n') && lacks(change_text(cs[k], true), '\n')
}

pub open spec fn kinds_ok(ls: Seq<Seq<char>>) -> bool {
    forall|m: int| 0 <= m < ls.len() ==> classic_line_kind(#[trigger] ls[m])
}

pub open spec fn lines_nl_free(ls: Seq<Seq<char>>) -> bool {
    forall|m: int| 0 <= m < ls.len() ==> lacks(#[trigger] ls[m], '\n')
}

proof fn lemma_lines_cat(a: Seq<Seq<char>>, b: Seq<Seq<char>>)
    ensures
        kinds_ok(a) && kinds_ok(b) ==> kinds_ok(a + b),
        lines_nl_free(a) && lines_nl_free(b) ==> lines_nl_free(a + b),
{
    assert forall|m: int| 0 <= m < (a + b).len() implies (a + b)[m] == (if m < a.len() { a[m] } else { b[m - a.len()] }) by {}
    if kinds_ok(a) && kinds_ok(b) {
        assert forall|m: int| 0 <= m < (a + b).len() implies classic_line_kind(#[trigger] (a + b)[m]) by {
            if m < a.len() {
                assert((a + b)[m] == a[m]);
            } else {
                assert((a + b)[m] == b[m - a.len()]);
            }
        }
    }
    if lines_nl_free(a) && lines_nl_free(b) {
        assert forall|m: int| 0 <= m < (a + b).len() implies lacks(#[trigger] (a + b)[m], '\n') by {
            if m < a.len() {
                assert((a + b)[m] == a[m]);
            } else {
                assert((a + b)[m] == b[m - a.len()]);
            }
        }
    }
}

proof fn lemma_digits_nl(s: Seq<char>)
    requires
        forall|i: int| 0 <= i < s.len() ==> is_digit(#[trigger] s[i]),
    ensures
        lacks(s, '\n'),
{
}

proof fn lemma_range(a: nat, b: nat)
    ensures
        line_range(a, b).len() > 0,
        is_digit(line_range(a, b)[0]),
        lacks(line_range(a, b), '\n'),
{
    reveal_strlit(",");
    crate::render_laws::lemma_decimal_digits(a);
    crate::render_laws::lemma_decimal_digits(b);
    lemma_digits_nl(decimal(a));
    lemma_digits_nl(decimal(b));
    if a != b {
        crate::unified_lines::lemma_cat(decimal(a), ","@, '\n');
        crate::unified_lines::lemma_cat(decimal(a) + ","@, decimal(b), '\n');
        assert((decimal(a) + ","@ + decimal(b))[0] == decimal(a)[0]);
    }
}

proof fn lemma_header(h: Seq<char>, first: Seq<char>, mid: Seq<char>, last: Seq<char>)
    requires
        h == first + mid + last,
        first.len() > 0,
        is_digit(first[0]),
        lacks(first, '\n'),
        lacks(mid, '\n'),
        lacks(last, '\n'),
    ensures
        lines_nl_free(seq![h]),
        old_lines(seq![h]) == Seq::<Seq<char>>::empty(),
        new_lines(seq![h]) == Seq::<Seq<char>>::empty(),
{
    crate::unified_lines::lemma_cat(first, mid, '\n');
    crate::unified_lines::lemma_cat(first + mid, last, '\n');
    assert(h[0] == first[0]);
    lemma_unmarked(h);
    lemma_filters_one(h);
    assert(seq![h][0] == h);
}

proof fn lemma_separator()
    ensures
        kinds_ok(seq!["---"@]),
        lines_nl_free(seq!["---"@]),
        old_lines(seq!["---"@]) == Seq::<Seq<char>>::empty(),
        new_lines(seq!["---"@]) == Seq::<Seq<char>>::empty(),
{
    reveal_strlit("---");
    lemma_unmarked("---"@);
    lemma_filters_one("---"@);
    assert(seq!["---"@][0] == "---"@);
}

proof fn lemma_marked_lines_ok(cs: Seq<ChangeView>, k: int, e: int, step: int, marker: Seq<char>, new_side: bool)
    requires
        marker == "< "@ || marker == "> "@,
    ensures
        kinds_ok(marked_lines(cs, k, e, step, marker, new_side)),
        texts_nl_free(cs) ==> lines_nl_free(marked_lines(cs, k, e, step, marker, new_side)),
    decreases (if k < e { e - k } else { 0 }),
{
    lemma_marked_filters(cs, k, e, step, marker, new_side);
    let ml = marked_lines(cs, k, e, step, marker, new_side);
    assert forall|m: int| 0 <= m < ml.len() implies classic_line_kind(#[trigger] ml[m]) by {
        assert(starts_with(ml[m], marker));
    }
    if !(k >= e || step <= 0 || k < 0 || k >= cs.len()) {
        lemma_marked_lines_ok(cs, k + step, e, step, marker, new_side);
        if texts_nl_free(cs) {
            reveal_strlit("< ");
            reveal_strlit("> ");
            let t = change_text(cs[k], new_side);
            assert(lacks(change_text(cs[k], false), '\n') && lacks(change_text(cs[k], true), '\n'));
            crate::unified_lines::lemma_cat(marker, t, '\n');
            let rest = marked_lines(cs, k + step, e, step, marker, new_side);
            assert forall|m: int| 0 <= m < ml.len() implies lacks(#[trigger] ml[m], '\n') by {
                if m > 0 {
                    assert(ml[m] == rest[m - 1]);
                }
            }
        }
    }
}

proof fn lemma_chunk(cs: Seq<ChangeView>, k: int)
    requires
        0 <= k < cs.len(),
    ensures
        k < classic_chunk(cs, k).1 <= cs.len(),
        old_lines(chunk_lines(cs, k)) == old_texts(cs, k, classic_chunk(cs, k).1),
        new_lines(chunk_lines(cs, k)) == new_texts(cs, k, classic_chunk(cs, k).1),
        kinds_ok(chunk_lines(cs, k)),
        texts_nl_free(cs) ==> lines_nl_free(chunk_lines(cs, k)),
{
    reveal_strlit("c");
    reveal_strlit("a");
    reveal_strlit("d");
    reveal_strlit("< ");
    reveal_strlit("> ");
    let start = change_line_no(cs[k]);
    let e0 = Seq::<Seq<char>>::empty();
    match cs[k] {
        ChangeView::Modified(..) => {
            let e = mod_run_end(cs, k, start);
            lemma_mod_run(cs, k, start);
            assert(e == mod_run_end(cs, k + 1, start + 1));
            lemma_mod_run(cs, k + 1, start + 1);
            let end = (start + (e - k) - 1) as nat;
            let r = line_range(start, end);
            let h = r + "c"@ + r;
            lemma_range(start, end);
            lemma_header(h, r, "c"@, r);
            assert(is_change_command(h));
            assert(kinds_ok(seq![h]));
            let m1 = marked_lines(cs, k, e, 1, "< "@, false);
            let m2 = marked_lines(cs, k, e, 1, "> "@, true);
            lemma_marked_filters(cs, k, e, 1, "< "@, false);
            lemma_marked_filters(cs, k, e, 1, "> "@, true);
            lemma_marked_lines_ok(cs, k, e, 1, "< "@, false);
            lemma_marked_lines_ok(cs, k, e, 1, "> "@, true);
            lemma_separator();
            lemma_filters_cat(seq![h], m1);
            lemma_filters_cat(seq![h] + m1, seq!["---"@]);
            lemma_filters_cat(seq![h] + m1 + seq!["---"@], m2);
            lemma_lines_cat(seq![h], m1);
            lemma_lines_cat(seq![h] + m1, seq!["---"@]);
            lemma_lines_cat(seq![h] + m1 + seq!["---"@], m2);
            assert(e0 + picked(cs, k, e, 1, false) + e0 + e0 =~= picked(cs, k, e, 1, false));
            assert(e0 + e0 + e0 + picked(cs, k, e, 1, true) =~= picked(cs, k, e, 1, true));
        },
        ChangeView::Removed(..) => if pair_at(cs, k, start) {
            let e = pair_run_end(cs, k, start);
            lemma_pair_run(cs, k, start);
            assert(e == pair_run_end(cs, k + 2, start + 1));
            lemma_pair_run(cs, k + 2, start + 1);
            let end = (start + (e - k) / 2 - 1) as nat;
            let r = line_range(start, end);
            let h = r + "c"@ + r;
            lemma_range(start, end);
            lemma_header(h, r, "c"@, r);
            assert(is_change_command(h));
            assert(kinds_ok(seq![h]));
            let m1 = marked_lines(cs, k, e, 2, "< "@, false);
            let m2 = marked_lines(cs, k + 1, e, 2, "> "@, true);
            lemma_marked_filters(cs, k, e, 2, "< "@, false);
            lemma_marked_filters(cs, k + 1, e, 2, "> "@, true);
            lemma_marked_lines_ok(cs, k, e, 2, "< "@, false);
            lemma_marked_lines_ok(cs, k + 1, e, 2, "> "@, true);
            lemma_separator();
            lemma_filters_cat(seq![h], m1);
            lemma_filters_cat(seq![h] + m1, seq!["---"@]);
            lemma_filters_cat(seq![h] + m1 + seq!["---"@], m2);
            lemma_lines_cat(seq![h], m1);
            lemma_lines_cat(seq![h] + m1, seq!["---"@]);
            lemma_lines_cat(seq![h] + m1 + seq!["---"@], m2);
            assert(e0 + picked(cs, k, e, 2, false) + e0 + e0 =~= picked(cs, k, e, 2, false));
            assert(e0 + e0 + e0 + picked(cs, k + 1, e, 2, true) =~= picked(cs, k + 1, e, 2, true));
        } else {
            let e = rem_run_end(cs, k, start);
            lemma_rem_run(cs, k, start);
            assert(e == rem_run_end(cs, k + 1, start + 1));
            lemma_rem_run(cs, k + 1, start + 1);
            let end = (start + (e - k) - 1) as nat;
            let n = (start - 1) as nat;
            let r = line_range(start, end);
            let h = r + "d"@ + decimal(n);
            lemma_range(start, end);
            crate::render_laws::lemma_decimal_digits(n);
            lemma_digits_nl(decimal(n));
            lemma_header(h, r, "d"@, decimal(n));
            assert(is_delete_command(h));
            assert(kinds_ok(seq![h]));
            let m1 = marked_lines(cs, k, e, 1, "< "@, false);
            lemma_marked_filters(cs, k, e, 1, "< "@, false);
            lemma_marked_lines_ok(cs, k, e, 1, "< "@, false);
            lemma_filters_cat(seq![h], m1);
            lemma_lines_cat(seq![h], m1);
            assert(e0 + picked(cs, k, e, 1, false) =~= picked(cs, k, e, 1, false));
            assert(e0 + e0 =~= e0);
        },
        ChangeView::Added(..) => {
            let e = add_run_end(cs, k, start);
            lemma_add_run(cs, k, start);
            assert(e == add_run_end(cs, k + 1, start + 1));
            lemma_add_run(cs, k + 1, start + 1);
            let end = (start + (e - k) - 1) as nat;
            let n = (start - 1) as nat;
            let r = line_range(start, end);
            let h = decimal(n) + "a"@ + r;
            lemma_range(start, end);
            crate::render_laws::lemma_decimal_digits(n);
            lemma_digits_nl(decimal(n));
            lemma_header(h, decimal(n), "a"@, r);
            assert(is_add_command(h));
            assert(kinds_ok(seq![h]));
            let m1 = marked_lines(cs, k, e, 1, "> "@, true);
            lemma_marked_filters(cs, k, e, 1, "> "@, true);
            lemma_marked_lines_ok(cs, k, e, 1, "> "@, true);
            lemma_filters_cat(seq![h], m1);
            lemma_lines_cat(seq![h], m1);
            assert(e0 + picked(cs, k, e, 1, true) =~= picked(cs, k, e, 1, true));
            assert(e0 + e0 =~= e0);
        },
    }
}

proof fn lemma_classic(cs: Seq<ChangeView>, k: int)
    requires
        0 <= k <= cs.len(),
    ensures
        old_lines(classic_lines(cs, k)) == old_texts(cs, k, cs.len() as int),
        new_lines(classic_lines(cs, k)) == new_texts(cs, k, cs.len() as int),
        kinds_ok(classic_lines(cs, k)),
        texts_nl_free(cs) ==> lines_nl_free(classic_lines(cs, k)),
    decreases cs.len() - k,
{
    let e0 = Seq::<Seq<char>>::empty();
    if k == cs.len() {
        assert(old_lines(e0) == e0 && new_lines(e0) == e0);
        assert(old_texts(cs, k, cs.len() as int) == e0 && new_texts(cs, k, cs.len() as int) == e0);
    } else {
        lemma_chunk(cs, k);
        let next = classic_chunk(cs, k).1;
        lemma_classic(cs, next);
        lemma_filters_cat(chunk_lines(cs, k), classic_lines(cs, next));
        lemma_lines_cat(chunk_lines(cs, k), classic_lines(cs, next));
        lemma_old_split(cs, k, next, cs.len() as int);
    }
}

/// The classic rendering is a list of lines, each a `NcN` / `NaM` / `MdN`
/// command, a `---` separator, or a `< ` / `> ` line. The `< ` lines carry
/// the old text of every removal and modification, once each and in change
/// order; the `> ` lines carry the new text of every addition and
/// modification likewise. When no change text holds a newline, splitting
/// the rendering at newlines gives back exactly those lines.
pub proof fn law_classic_lines_carry_each_side_once(cs: Seq<ChangeView>)
    ensures
        ({
            let out = spec_format_classic_diff(cs);
            let ls = classic_lines(cs, 0);
            &&& out == unlines(ls)
            &&& old_lines(ls) == old_texts(cs, 0, cs.len() as int)
            &&& new_lines(ls) == new_texts(cs, 0, cs.len() as int)
            &&& forall|m: int| 0 <= m < ls.len() ==> classic_line_kind(#[trigger] ls[m])
            &&& texts_nl_free(cs) ==> split_on(out, '\n') == ls.push(Seq::empty())
        }),
{
    lemma_classic_text(cs, 0);
    lemma_classic(cs, 0);
    if texts_nl_free(cs) {
        lemma_split_unlines(classic_lines(cs, 0));
    }
}

} // verus!
