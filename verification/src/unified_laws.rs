//! What holds of every condensed unified-diff stream.
use vstd::prelude::*;

use crate::text::{decimal, join_lines, starts_with, strip_cr};
use crate::unified_spec::is_marker;
use crate::unified_spec::{
    EntryView, ScanState, add_fact, entry_label, extended_header, fact_entry,
    flush, initial_state, input_lines, output_lines, scan,
    spec_condense, step,
};

verus! {

/// How many of `cs` are `\ No newline at end of file` style markers.
pub open spec fn marker_count(cs: Seq<Seq<char>>) -> nat
    decreases cs.len(),
{
    if cs.len() == 0 {
        0
    } else {
        marker_count(cs.drop_last()) + if starts_with(cs.last(), seq!['\\']) { 1nat } else { 0nat }
    }
}

/// The marker columns of kept line `raw` in a hunk with `w` parents.
pub open spec fn marks(raw: Seq<char>, w: nat) -> Seq<char> {
    strip_cr(raw).take(w as int)
}

/// Kept lines of `cs` whose marker columns (widths `ws`) hold a `+` and no `-`.
pub open spec fn plus_lines(cs: Seq<Seq<char>>, ws: Seq<nat>) -> nat
    decreases cs.len(),
{
    if cs.len() == 0 || ws.len() == 0 {
        0
    } else {
        plus_lines(cs.drop_last(), ws.drop_last()) + if !starts_with(cs.last(), seq!['\\'])
            && !marks(cs.last(), ws.last()).contains('-') && marks(cs.last(), ws.last()).contains('+') {
            1nat
        } else {
            0nat
        }
    }
}

/// Kept lines of `cs` whose marker columns (widths `ws`) hold a `-`.
pub open spec fn minus_lines(cs: Seq<Seq<char>>, ws: Seq<nat>) -> nat
    decreases cs.len(),
{
    if cs.len() == 0 || ws.len() == 0 {
        0
    } else {
        minus_lines(cs.drop_last(), ws.drop_last()) + if !starts_with(cs.last(), seq!['\\'])
            && marks(cs.last(), ws.last()).contains('-') {
            1nat
        } else {
            0nat
        }
    }
}

/// `ws` gives every kept line other than a no-newline marker a width of
/// at least one column, within the line, all of them marker characters.
pub open spec fn widths_fit(cs: Seq<Seq<char>>, ws: Seq<nat>) -> bool {
    &&& ws.len() == cs.len()
    &&& forall|k: int|
        0 <= k < cs.len() && !starts_with(#[trigger] cs[k], seq!['\\']) ==> {
            &&& 1 <= ws[k] <= strip_cr(cs[k]).len()
            &&& forall|j: int| 0 <= j < ws[k] ==> is_marker(#[trigger] marks(cs[k], ws[k])[j])
        }
}

/// The counters split the kept lines by sign: `added` lines carry a `+`
/// and no `-` in their marker columns, `removed` lines a `-`.
pub open spec fn counts_by_sign(cs: Seq<Seq<char>>, added: nat, removed: nat) -> bool {
    exists|ws: Seq<nat>|
        #[trigger] widths_fit(cs, ws) && added == plus_lines(cs, ws) && removed == minus_lines(cs, ws)
}

/// A section's counters count exactly its non-marker content lines, split
/// by sign, and every content line is an input line, byte for byte.
pub open spec fn entry_ok(e: EntryView, lines: Seq<Seq<char>>) -> bool {
    &&& e.added + e.removed + marker_count(e.changes) == e.changes.len()
    &&& counts_by_sign(e.changes, e.added, e.removed)
    &&& forall|k: int| 0 <= k < e.changes.len() ==> lines.contains(#[trigger] e.changes[k])
}

proof fn lemma_empty_counts()
    ensures
        counts_by_sign(Seq::empty(), 0, 0),
{
    let ws: Seq<nat> = Seq::empty();
    assert(widths_fit(Seq::empty(), ws));
}

proof fn lemma_push_marker_counts(cs: Seq<Seq<char>>, added: nat, removed: nat, raw: Seq<char>)
    requires
        counts_by_sign(cs, added, removed),
        starts_with(raw, seq!['\\']),
    ensures
        counts_by_sign(cs.push(raw), added, removed),
{
    let ws = choose|ws: Seq<nat>| #[trigger] widths_fit(cs, ws) && added == plus_lines(cs, ws) && removed == minus_lines(cs, ws);
    let ws2 = ws.push(0nat);
    let cs2 = cs.push(raw);
    assert(cs2.drop_last() == cs);
    assert(ws2.drop_last() == ws);
    assert forall|k: int| 0 <= k < cs2.len() && !starts_with(#[trigger] cs2[k], seq!['\\']) implies {
        &&& 1 <= ws2[k] <= strip_cr(cs2[k]).len()
        &&& forall|j: int| 0 <= j < ws2[k] ==> is_marker(#[trigger] marks(cs2[k], ws2[k])[j])
    } by {
        assert(k < cs.len());
        assert(cs2[k] == cs[k] && ws2[k] == ws[k]);
    }
    assert(widths_fit(cs2, ws2));
}

proof fn lemma_push_body_counts(cs: Seq<Seq<char>>, added: nat, removed: nat, raw: Seq<char>, w: nat)
    requires
        counts_by_sign(cs, added, removed),
        !starts_with(raw, seq!['\\']),
        1 <= w <= strip_cr(raw).len(),
        forall|j: int| 0 <= j < w ==> is_marker(#[trigger] marks(raw, w)[j]),
    ensures
        marks(raw, w).contains('-') ==> counts_by_sign(cs.push(raw), added, removed + 1),
        !marks(raw, w).contains('-') && marks(raw, w).contains('+') ==> counts_by_sign(cs.push(raw), added + 1, removed),
{
    let ws = choose|ws: Seq<nat>| #[trigger] widths_fit(cs, ws) && added == plus_lines(cs, ws) && removed == minus_lines(cs, ws);
    let ws2 = ws.push(w);
    let cs2 = cs.push(raw);
    assert(cs2.drop_last() == cs);
    assert(ws2.drop_last() == ws);
    assert forall|k: int| 0 <= k < cs2.len() && !starts_with(#[trigger] cs2[k], seq!['\\']) implies {
        &&& 1 <= ws2[k] <= strip_cr(cs2[k]).len()
        &&& forall|j: int| 0 <= j < ws2[k] ==> is_marker(#[trigger] marks(cs2[k], ws2[k])[j])
    } by {
        if k < cs.len() {
            assert(cs2[k] == cs[k] && ws2[k] == ws[k]);
        } else {
            assert(cs2[k] == raw && ws2[k] == w);
        }
    }
    assert(widths_fit(cs2, ws2));
}

pub open spec fn state_ok(st: ScanState, lines: Seq<Seq<char>>) -> bool {
    &&& forall|k: int| 0 <= k < st.entries.len() ==> entry_ok(#[trigger] st.entries[k], lines)
    &&& (st.current matches Some(e) ==> entry_ok(e, lines))
}

proof fn lemma_push_change_ok(e: EntryView, raw: Seq<char>, lines: Seq<Seq<char>>)
    requires
        entry_ok(e, lines),
        lines.contains(raw),
    ensures
        marker_count(e.changes.push(raw)) == marker_count(e.changes) + if starts_with(raw, seq!['\\']) { 1nat } else { 0nat },
        forall|k: int| 0 <= k < e.changes.push(raw).len() ==> lines.contains(#[trigger] e.changes.push(raw)[k]),
{
    assert(e.changes.push(raw).drop_last() == e.changes);
    assert forall|k: int| 0 <= k < e.changes.push(raw).len() implies lines.contains(#[trigger] e.changes.push(raw)[k]) by {
        if k < e.changes.len() {
            assert(e.changes.push(raw)[k] == e.changes[k]);
        }
    }
}

proof fn lemma_flush_ok(st: ScanState, lines: Seq<Seq<char>>)
    requires
        state_ok(st, lines),
    ensures
        state_ok(flush(st), lines),
{
    let f = flush(st);
    assert forall|k: int| 0 <= k < f.entries.len() implies entry_ok(#[trigger] f.entries[k], lines) by {
        if k < st.entries.len() {
            assert(f.entries[k] == st.entries[k]);
        }
    }
}

proof fn lemma_extended_header_ok(e: EntryView, line: Seq<char>, lines: Seq<Seq<char>>)
    requires
        entry_ok(e, lines),
        extended_header(e, line) is Some,
    ensures
        entry_ok(extended_header(e, line).unwrap(), lines),
{
    let e2 = extended_header(e, line).unwrap();
    assert(e2.changes == e.changes && e2.added == e.added && e2.removed == e.removed);
}

proof fn lemma_fact_ok(line: Seq<char>, lines: Seq<Seq<char>>)
    requires
        fact_entry(line) is Some,
    ensures
        entry_ok(fact_entry(line).unwrap(), lines),
{
    let e = fact_entry(line).unwrap();
    lemma_empty_counts();
    assert(e.changes == Seq::<Seq<char>>::empty() && e.added == 0 && e.removed == 0);
}

proof fn lemma_step_ok(lines: Seq<Seq<char>>, i: int, st: ScanState)
    requires
        0 <= i < lines.len(),
        state_ok(st, lines),
        step(lines, i, st) is Some,
    ensures
        state_ok(step(lines, i, st).unwrap().0, lines),
{
    let raw = lines[i];
    let line = strip_cr(raw);
    assert(lines.contains(raw));
    let st2 = step(lines, i, st).unwrap().0;
    lemma_empty_counts();
    match st.hunk {
        Some(h) => {
            if starts_with(line, seq!['\\']) {
                match st.current {
                    Some(e) => {
                        lemma_push_change_ok(e, raw, lines);
                        assert(starts_with(raw, seq!['\\'])) by {
                            assert(raw.take(1) == line.take(1));
                        }
                        lemma_push_marker_counts(e.changes, e.added, e.removed, raw);
                    },
                    None => {},
                }
            } else {
                let parents = h.old_left.len();
                let prefix = line.take(parents as int);
                let e = st.current.unwrap();
                lemma_push_change_ok(e, raw, lines);
                if prefix.contains('-') || prefix.contains('+') {
                    assert(parents > 0);
                    assert(line.len() > 0);
                    assert(raw[0] == line[0]);
                    assert(line[0] == prefix[0]);
                    assert(!starts_with(raw, seq!['\\'])) by {
                        if starts_with(raw, seq!['\\']) {
                            assert(raw.take(1)[0] == '\\');
                            assert(prefix[0] == '\\');
                            assert(crate::unified_spec::is_marker(prefix[0]));
                        }
                    }
                    assert(marks(raw, parents) == prefix);
                    lemma_push_body_counts(e.changes, e.added, e.removed, raw, parents);
                }
            }
        },
        None => {
            if starts_with(line, seq!['\\']) {
                assert(starts_with(raw, seq!['\\'])) by {
                    assert(raw.take(1) == line.take(1));
                }
                match st.current {
                    Some(e) => {
                        lemma_push_change_ok(e, raw, lines);
                        lemma_push_marker_counts(e.changes, e.added, e.removed, raw);
                    },
                    None => {},
                }
            } else if crate::unified_spec::spec_is_mbox_from(line) {
                lemma_flush_ok(st, lines);
            } else if crate::unified_spec::git_header_rest(line) is Some {
                lemma_flush_ok(st, lines);
            } else if crate::unified_spec::current_header_only(st) && extended_header(st.current.unwrap(), line) is Some {
                lemma_extended_header_ok(st.current.unwrap(), line, lines);
            } else if crate::unified_spec::header_pair(lines, i, crate::unified_spec::current_header_only(st)) is Some {
                lemma_flush_ok(st, lines);
            } else if starts_with(line, "@@"@) {
            } else if !st.in_mbox_message && fact_entry(line) is Some {
                lemma_flush_ok(st, lines);
                lemma_fact_ok(line, lines);
                let f = flush(st);
                let st3 = add_fact(st, fact_entry(line).unwrap());
                assert forall|k: int| 0 <= k < st3.entries.len() implies entry_ok(#[trigger] st3.entries[k], lines) by {
                    if k < f.entries.len() {
                        assert(st3.entries[k] == f.entries[k]);
                    }
                }
            }
        },
    }
}

proof fn lemma_scan_ok(lines: Seq<Seq<char>>, i: int, st: ScanState)
    requires
        0 <= i,
        state_ok(st, lines),
        scan(lines, i, st) is Some,
    ensures
        state_ok(scan(lines, i, st).unwrap(), lines),
    decreases lines.len() - i,
{
    if i < lines.len() {
        lemma_step_ok(lines, i, st);
        let (s2, skip) = step(lines, i, st).unwrap();
        lemma_scan_ok(lines, if skip { i + 2 } else { i + 1 }, s2);
    }
}

/// In every condensed stream, each `[file]` counter pair adds up to the
/// number of removed and added lines rendered under it (the no-newline
/// markers aside) and splits them by sign (`counts_by_sign`), and every
/// rendered content line is an input line, byte for byte — content is kept
/// verbatim, never rewritten.
pub proof fn law_sections_count_and_keep_their_lines(text: Seq<char>)
    ensures
        scan(input_lines(text), 0, initial_state()) matches Some(st) ==> ({
            let es = flush(st).entries;
            forall|k: int| 0 <= k < es.len() ==> entry_ok(#[trigger] es[k], input_lines(text))
        }),
{
    let lines = input_lines(text);
    if scan(lines, 0, initial_state()) is Some {
        lemma_scan_ok(lines, 0, initial_state());
        lemma_flush_ok(scan(lines, 0, initial_state()).unwrap(), lines);
    }
}

proof fn lemma_ends_with_cat(a: Seq<char>, b: Seq<char>)
    ensures
        crate::text::ends_with(a + b, b),
{
    assert((a + b).skip((a + b).len() - b.len()) =~= b);
}

/// Each `[file]` label counts the lines rendered under it by sign: its
/// `(+A -R)` tail (present unless the section carries notes and no lines)
/// shows `A`, the kept lines whose marker columns hold a `+` and no `-`,
/// and `R`, those whose marker columns hold a `-`.
pub proof fn law_labels_count_lines_by_sign(text: Seq<char>)
    ensures
        scan(input_lines(text), 0, initial_state()) matches Some(st) ==> ({
            let es = flush(st).entries;
            forall|k: int| 0 <= k < es.len() ==> {
                &&& counts_by_sign(#[trigger] es[k].changes, es[k].added, es[k].removed)
                &&& (es[k].notes.len() == 0 || es[k].changes.len() > 0) ==> crate::text::ends_with(
                    entry_label(es[k]),
                    " (+"@ + decimal(es[k].added) + " -"@ + decimal(es[k].removed) + ")"@,
                )
            }
        }),
{
    law_sections_count_and_keep_their_lines(text);
    if scan(input_lines(text), 0, initial_state()) is Some {
        let es = flush(scan(input_lines(text), 0, initial_state()).unwrap()).entries;
        assert forall|k: int| 0 <= k < es.len() implies {
            &&& counts_by_sign(#[trigger] es[k].changes, es[k].added, es[k].removed)
            &&& (es[k].notes.len() == 0 || es[k].changes.len() > 0) ==> crate::text::ends_with(
                entry_label(es[k]),
                " (+"@ + decimal(es[k].added) + " -"@ + decimal(es[k].removed) + ")"@,
            )
        } by {
            let e = es[k];
            assert(entry_ok(e, input_lines(text)));
            let counts = " (+"@ + decimal(e.added) + " -"@ + decimal(e.removed) + ")"@;
            if e.notes.len() == 0 {
                lemma_ends_with_cat("[file] "@ + e.name, counts);
            } else if e.changes.len() > 0 {
                lemma_ends_with_cat("[file] "@ + e.name + " ("@ + crate::text::join_with(e.notes, ", "@) + ")"@, counts);
            }
        }
    }
}

proof fn lemma_join_lines_starts(ls: Seq<Seq<char>>)
    requires
        ls.len() > 0,
    ensures
        starts_with(join_lines(ls), ls[0]),
    decreases ls.len(),
{
    if ls.len() > 1 {
        lemma_join_lines_starts(ls.drop_last());
        assert(ls.drop_last()[0] == ls[0]);
        let j = join_lines(ls.drop_last());
        let n = ls[0].len() as int;
        assert(j.take(n) == ls[0]);
        assert(join_lines(ls) == j + seq!['\n'] + ls.last());
        assert((j + seq!['\n'] + ls.last()).take(n) =~= j.take(n));
    } else {
        assert(ls[0].take(ls[0].len() as int) =~= ls[0]);
    }
}

proof fn lemma_output_lines_first(es: Seq<EntryView>)
    requires
        es.len() > 0,
    ensures
        output_lines(es).len() > 0,
        output_lines(es)[0] == entry_label(es[0]),
    decreases es.len(),
{
    let first = output_lines(es.drop_last());
    let whole = first + seq![entry_label(es.last())] + es.last().changes;
    assert(output_lines(es) == whole);
    if es.len() > 1 {
        lemma_output_lines_first(es.drop_last());
        assert(es.drop_last()[0] == es[0]);
        assert(whole[0] == first[0]);
    } else {
        assert(es.drop_last().len() == 0);
        assert(first.len() == 0);
        assert(whole[0] == entry_label(es.last()));
        assert(es.last() == es[0]);
    }
}

/// A condensed stream always opens with a `[file]` label: when the scanner
/// has nothing to say it declines (raw passthrough) rather than emitting an
/// empty or label-less summary.
pub proof fn law_condensed_output_opens_with_a_label(text: Seq<char>)
    ensures
        spec_condense(text) matches Some(out) ==> starts_with(out, "[file] "@),
{
    reveal_strlit("[file] ");
    if spec_condense(text) is Some {
        let st = scan(input_lines(text), 0, initial_state()).unwrap();
        let es = flush(st).entries;
        lemma_output_lines_first(es);
        lemma_join_lines_starts(output_lines(es));
        let l = entry_label(es[0]);
        assert(l.take(7) =~= "[file] "@);
        let out = join_lines(output_lines(es));
        assert(out.take(l.len() as int) == l);
        assert(l.len() >= 7);
        assert forall|k: int| 0 <= k < 7 implies out[k] == "[file] "@[k] by {
            assert(out.take(l.len() as int)[k] == l[k]);
            assert(l.take(7)[k] == l[k]);
        }
        assert(out.take(7) =~= "[file] "@);
    }
}

// ----- fidelity: every marked body line reaches the output ---------------

/// The content lines of `cs` other than the no-newline markers.
pub open spec fn drop_markers(cs: Seq<Seq<char>>) -> Seq<Seq<char>>
    decreases cs.len(),
{
    if cs.len() == 0 {
        Seq::empty()
    } else if starts_with(cs.last(), seq!['\\']) {
        drop_markers(cs.drop_last())
    } else {
        drop_markers(cs.drop_last()).push(cs.last())
    }
}

/// The kept content lines of `es`, section after section.
pub open spec fn all_changes(es: Seq<EntryView>) -> Seq<Seq<char>>
    decreases es.len(),
{
    if es.len() == 0 {
        Seq::empty()
    } else {
        all_changes(es.drop_last()) + es.last().changes
    }
}

/// Everything the scanner has kept so far, closed and open sections alike.
pub open spec fn content(st: ScanState) -> Seq<Seq<char>> {
    all_changes(st.entries) + match st.current {
        Some(e) => e.changes,
        None => Seq::empty(),
    }
}

/// `raw` is a marked hunk-body line under the budget open in `st`: a
/// `-` or `+` among its parent columns.
pub open spec fn is_body_line(st: ScanState, raw: Seq<char>) -> bool {
    st.hunk matches Some(h) && {
        let line = strip_cr(raw);
        let parents = h.old_left.len();
        &&& !starts_with(line, seq!['\\'])
        &&& line.len() >= parents
        &&& (line.take(parents as int).contains('-') || line.take(parents as int).contains('+'))
    }
}

/// The marked hunk-body lines of `lines[i..]`, in order, as the scanner
/// meets them from state `st`.
pub open spec fn body_lines(lines: Seq<Seq<char>>, i: int, st: ScanState) -> Seq<Seq<char>>
    decreases lines.len() - i,
{
    if i < 0 || i >= lines.len() {
        Seq::empty()
    } else {
        match step(lines, i, st) {
            None => Seq::empty(),
            Some((s2, skip)) => (if is_body_line(st, lines[i]) {
                seq![lines[i]]
            } else {
                Seq::empty()
            }) + body_lines(lines, if skip { i + 2 } else { i + 1 }, s2),
        }
    }
}

proof fn lemma_all_changes_push(es: Seq<EntryView>, e: EntryView)
    ensures
        all_changes(es.push(e)) == all_changes(es) + e.changes,
{
    assert(es.push(e).drop_last() =~= es);
}

/// Closing the open section keeps every content line where it was.
proof fn lemma_flush_content(st: ScanState)
    ensures
        content(flush(st)) == content(st),
        flush(st).current is None,
{
    match st.current {
        Some(e) => {
            if crate::unified_spec::entry_is_empty(e) {
                assert(e.changes =~= Seq::<Seq<char>>::empty());
                assert(all_changes(st.entries) + e.changes =~= all_changes(st.entries));
            } else {
                lemma_all_changes_push(st.entries, e);
            }
        },
        None => {},
    }
    assert(content(flush(st)) =~= all_changes(flush(st).entries));
}

proof fn lemma_marker_raw(raw: Seq<char>)
    requires
        starts_with(strip_cr(raw), seq!['\\']),
    ensures
        starts_with(raw, seq!['\\']),
{
    assert(raw.take(1) =~= strip_cr(raw).take(1));
}

/// One scanner step keeps all earlier content and, markers aside, adds
/// exactly the line when it is a marked hunk-body line.
proof fn lemma_step_content(lines: Seq<Seq<char>>, i: int, st: ScanState)
    requires
        0 <= i < lines.len(),
        step(lines, i, st) is Some,
    ensures
        drop_markers(content(step(lines, i, st).unwrap().0)) == drop_markers(content(st)) + (if is_body_line(st, lines[i]) {
            seq![lines[i]]
        } else {
            Seq::<Seq<char>>::empty()
        }),
{
    let raw = lines[i];
    let line = strip_cr(raw);
    let st2 = step(lines, i, st).unwrap().0;
    let none: Seq<Seq<char>> = Seq::empty();
    match st.hunk {
        Some(h) => {
            if starts_with(line, seq!['\\']) {
                assert(!is_body_line(st, raw));
                match st.current {
                    Some(e) => {
                        lemma_marker_raw(raw);
                        assert(content(st2) =~= content(st).push(raw));
                        assert(content(st).push(raw).drop_last() =~= content(st));
                    },
                    None => {
                        assert(content(st2) == content(st));
                    },
                }
                assert(drop_markers(content(st2)) =~= drop_markers(content(st)) + none);
            } else {
                let parents = h.old_left.len();
                let prefix = line.take(parents as int);
                let e = st.current.unwrap();
                let e2 = st2.current.unwrap();
                assert(st2.entries == st.entries);
                if prefix.contains('-') || prefix.contains('+') {
                    assert(is_body_line(st, raw));
                    assert(parents > 0);
                    assert(line[0] == prefix[0]);
                    assert(raw[0] == line[0]);
                    assert(!starts_with(raw, seq!['\\'])) by {
                        if starts_with(raw, seq!['\\']) {
                            assert(raw.take(1)[0] == '\\');
                            assert(crate::unified_spec::is_marker(prefix[0]));
                        }
                    }
                    assert(e2.changes == e.changes.push(raw));
                    assert(content(st2) =~= content(st).push(raw));
                    assert(content(st).push(raw).drop_last() =~= content(st));
                    assert(drop_markers(content(st2)) =~= drop_markers(content(st)) + seq![raw]);
                } else {
                    assert(!is_body_line(st, raw));
                    assert(e2.changes == e.changes);
                    assert(content(st2) == content(st));
                    assert(drop_markers(content(st2)) =~= drop_markers(content(st)) + none);
                }
            }
        },
        None => {
            assert(!is_body_line(st, raw));
            if starts_with(line, seq!['\\']) {
                match st.current {
                    Some(e) => {
                        if e.saw_hunk {
                            lemma_marker_raw(raw);
                            assert(content(st2) =~= content(st).push(raw));
                            assert(content(st).push(raw).drop_last() =~= content(st));
                        } else {
                            assert(content(st2) == content(st));
                        }
                    },
                    None => {
                        assert(content(st2) == content(st));
                    },
                }
            } else if crate::unified_spec::spec_is_mbox_from(line) {
                lemma_flush_content(st);
                assert(content(st2) =~= content(flush(st)));
            } else if crate::unified_spec::git_header_rest(line) is Some {
                lemma_flush_content(st);
                assert(content(st2) =~= content(flush(st)) + none);
            } else if crate::unified_spec::current_header_only(st) && extended_header(st.current.unwrap(), line) is Some {
                assert(st2.current.unwrap().changes == st.current.unwrap().changes);
                assert(content(st2) == content(st));
            } else if crate::unified_spec::header_pair(lines, i, crate::unified_spec::current_header_only(st)) is Some {
                lemma_flush_content(st);
                match st.current {
                    Some(e) => {
                        if crate::unified_spec::header_only(e) {
                            assert(content(st2) == content(st));
                        } else {
                            assert(content(st2) =~= content(flush(st)) + none);
                        }
                    },
                    None => {
                        assert(content(st2) =~= content(flush(st)) + none);
                    },
                }
            } else if starts_with(line, "@@"@) {
                assert(content(st2) == content(st));
            } else if !st.in_mbox_message && fact_entry(line) is Some {
                lemma_flush_content(st);
                let f = flush(st);
                let fe = fact_entry(line).unwrap();
                assert(fe.changes =~= none);
                lemma_all_changes_push(f.entries, fe);
                assert(content(st2) =~= content(f));
            } else {
                assert(content(st2) == content(st));
            }
            assert(drop_markers(content(st2)) =~= drop_markers(content(st)) + none);
        },
    }
}

proof fn lemma_scan_content(lines: Seq<Seq<char>>, i: int, st: ScanState)
    requires
        0 <= i,
        scan(lines, i, st) is Some,
    ensures
        drop_markers(content(scan(lines, i, st).unwrap())) == drop_markers(content(st)) + body_lines(lines, i, st),
    decreases lines.len() - i,
{
    if i < lines.len() {
        lemma_step_content(lines, i, st);
        let (s2, skip) = step(lines, i, st).unwrap();
        let next = if skip { i + 2 } else { i + 1 };
        lemma_scan_content(lines, next, s2);
        let here: Seq<Seq<char>> = if is_body_line(st, lines[i]) { seq![lines[i]] } else { Seq::empty() };
        assert(drop_markers(content(st)) + here + body_lines(lines, next, s2)
            =~= drop_markers(content(st)) + (here + body_lines(lines, next, s2)));
    } else {
        assert(drop_markers(content(st)) + body_lines(lines, i, st) =~= drop_markers(content(st)));
    }
}

proof fn lemma_drop_markers_in(cs: Seq<Seq<char>>, k: int)
    requires
        0 <= k < drop_markers(cs).len(),
    ensures
        cs.contains(drop_markers(cs)[k]),
    decreases cs.len(),
{
    let d = drop_markers(cs.drop_last());
    if !starts_with(cs.last(), seq!['\\']) && k == d.len() {
        assert(cs[cs.len() - 1] == cs.last());
    } else {
        lemma_drop_markers_in(cs.drop_last(), k);
        let j = choose|j: int| 0 <= j < cs.drop_last().len() && cs.drop_last()[j] == d[k];
        assert(cs[j] == cs.drop_last()[j]);
    }
}

proof fn lemma_all_changes_rendered(es: Seq<EntryView>, x: Seq<char>)
    requires
        all_changes(es).contains(x),
    ensures
        output_lines(es).contains(x),
    decreases es.len(),
{
    let front = all_changes(es.drop_last());
    let last = es.last().changes;
    let j = choose|j: int| 0 <= j < all_changes(es).len() && all_changes(es)[j] == x;
    let out = output_lines(es.drop_last()) + seq![entry_label(es.last())] + last;
    assert(output_lines(es) == out);
    if j < front.len() {
        assert(front[j] == x);
        lemma_all_changes_rendered(es.drop_last(), x);
        let m = choose|m: int| 0 <= m < output_lines(es.drop_last()).len() && output_lines(es.drop_last())[m] == x;
        assert(out[m] == x);
    } else {
        let m = output_lines(es.drop_last()).len() + 1 + (j - front.len());
        assert(out[m] == last[j - front.len()]);
    }
}

/// Fidelity: in every stream the scanner accepts, the content rendered
/// under the `[file]` labels is, no-newline markers aside, exactly the
/// stream's marked hunk-body lines: verbatim, in input order, none lost and
/// none added. So each of them appears among the output lines.
pub proof fn law_every_marked_body_line_survives(text: Seq<char>)
    ensures
        scan(input_lines(text), 0, initial_state()) matches Some(st) ==>
            drop_markers(all_changes(flush(st).entries)) == body_lines(input_lines(text), 0, initial_state()),
        spec_condense(text) is Some ==> ({
            let body = body_lines(input_lines(text), 0, initial_state());
            let es = flush(scan(input_lines(text), 0, initial_state()).unwrap()).entries;
            &&& spec_condense(text) == Some(join_lines(output_lines(es)))
            &&& forall|k: int| 0 <= k < body.len() ==> output_lines(es).contains(#[trigger] body[k])
        }),
{
    let lines = input_lines(text);
    if scan(lines, 0, initial_state()) is Some {
        let st = scan(lines, 0, initial_state()).unwrap();
        lemma_scan_content(lines, 0, initial_state());
        lemma_flush_content(st);
        let es = flush(st).entries;
        assert(content(flush(st)) =~= all_changes(es));
        assert(all_changes(Seq::<EntryView>::empty()) =~= Seq::<Seq<char>>::empty());
        assert(content(initial_state()) =~= Seq::<Seq<char>>::empty());
        assert(drop_markers(content(initial_state())) =~= Seq::<Seq<char>>::empty());
        let body = body_lines(lines, 0, initial_state());
        assert(drop_markers(all_changes(es)) =~= body);
        assert forall|k: int| 0 <= k < body.len() implies output_lines(es).contains(#[trigger] body[k]) by {
            lemma_drop_markers_in(all_changes(es), k);
            lemma_all_changes_rendered(es, body[k]);
        }
    }
}

} // verus!
