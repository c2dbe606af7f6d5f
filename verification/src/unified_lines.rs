//! The condensed stream read back line by line: splitting it at newlines
//! gives exactly the rendered lines, each a `[file]` label or an input line.
use vstd::prelude::*;

use crate::render_laws::lacks;
use crate::text::{
    before_char, contains_seq, decimal, join_lines, join_with, occurs_at, rfind, rsplit_once, split_on,
    starts_with, strip_cr, strip_prefix, strip_suffix, trim_end_char,
};
use crate::unified_spec::{
    EntryView, ScanState, add_fact, binary_fact, entry_label, extended_header, fact_entry,
    flush, git_header_rest, git_section_name, header_pair, initial_state, input_lines, only_in_fact,
    output_lines, recorded_source, scan, spec_condense, spec_header_name, step,
    unmerged_fact,
};
use crate::unified_laws::entry_ok;

verus! {

/// No part of the section holds a newline, and no kept line opens like a
/// label.
pub open spec fn entry_plain(e: EntryView) -> bool {
    &&& lacks(e.name, '\n')
    &&& forall|k: int| 0 <= k < e.notes.len() ==> lacks(#[trigger] e.notes[k], '\n')
    &&& forall|k: int| 0 <= k < e.changes.len() ==> lacks(#[trigger] e.changes[k], '\n')
    &&& forall|k: int| 0 <= k < e.changes.len() ==> !starts_with(#[trigger] e.changes[k], seq!['['])
    &&& (e.rename_from matches Some(f) ==> lacks(f, '\n'))
}

pub open spec fn state_plain(st: ScanState) -> bool {
    &&& forall|k: int| 0 <= k < st.entries.len() ==> entry_plain(#[trigger] st.entries[k])
    &&& (st.current matches Some(e) ==> entry_plain(e))
}

// ----- slices of newline-free text ------------------------------------------------

proof fn lemma_take(s: Seq<char>, n: int, c: char)
    requires
        lacks(s, c),
        0 <= n <= s.len(),
    ensures
        lacks(s.take(n), c),
{
    assert forall|i: int| 0 <= i < s.take(n).len() implies s.take(n)[i] != c by {
        assert(s.take(n)[i] == s[i]);
    }
}

proof fn lemma_skip(s: Seq<char>, n: int, c: char)
    requires
        lacks(s, c),
        0 <= n <= s.len(),
    ensures
        lacks(s.skip(n), c),
{
    assert forall|i: int| 0 <= i < s.skip(n).len() implies s.skip(n)[i] != c by {
        assert(s.skip(n)[i] == s[i + n]);
    }
}

pub(crate) proof fn lemma_cat(a: Seq<char>, b: Seq<char>, c: char)
    requires
        lacks(a, c),
        lacks(b, c),
    ensures
        lacks(a + b, c),
{
    assert forall|i: int| 0 <= i < (a + b).len() implies (a + b)[i] != c by {
        if i < a.len() {
            assert((a + b)[i] == a[i]);
        } else {
            assert((a + b)[i] == b[i - a.len()]);
        }
    }
}

proof fn lemma_strip_cr(s: Seq<char>, c: char)
    requires
        lacks(s, c),
    ensures
        lacks(strip_cr(s), c),
{
    if s.len() > 0 && s.last() == '\r' {
        lemma_take(s, s.len() - 1, c);
        assert(s.drop_last() =~= s.take(s.len() - 1));
    }
}

proof fn lemma_strip_prefix(s: Seq<char>, p: Seq<char>, c: char)
    requires
        lacks(s, c),
    ensures
        strip_prefix(s, p) matches Some(r) ==> lacks(r, c),
{
    if strip_prefix(s, p) is Some {
        lemma_skip(s, p.len() as int, c);
    }
}

proof fn lemma_strip_suffix(s: Seq<char>, p: Seq<char>, c: char)
    requires
        lacks(s, c),
    ensures
        strip_suffix(s, p) matches Some(r) ==> lacks(r, c),
{
    if strip_suffix(s, p) is Some {
        lemma_take(s, s.len() - p.len(), c);
    }
}

proof fn lemma_trim_end(s: Seq<char>, t: char, c: char)
    requires
        lacks(s, c),
    ensures
        lacks(trim_end_char(s, t), c),
    decreases s.len(),
{
    if s.len() > 0 && s.last() == t {
        lemma_take(s, s.len() - 1, c);
        assert(s.drop_last() =~= s.take(s.len() - 1));
        lemma_trim_end(s.drop_last(), t, c);
    }
}

/// The pieces of a split lack the separator and whatever `s` lacks.
proof fn lemma_split_pieces(s: Seq<char>, sep: char, c: char)
    requires
        c == sep || lacks(s, c),
    ensures
        split_on(s, sep).len() >= 1,
        forall|k: int| 0 <= k < split_on(s, sep).len() ==> lacks(#[trigger] split_on(s, sep)[k], c),
    decreases s.len(),
{
    if s.len() > 0 {
        if c != sep {
            lemma_take(s, s.len() - 1, c);
            assert(s.drop_last() =~= s.take(s.len() - 1));
        }
        lemma_split_pieces(s.drop_last(), sep, c);
        let r = split_on(s.drop_last(), sep);
        let v = split_on(s, sep);
        if s.last() != sep {
            assert(s[s.len() - 1] != c);
            assert forall|k: int| 0 <= k < v.len() implies lacks(#[trigger] v[k], c) by {
                if k == r.len() - 1 {
                    let l = r.last().push(s.last());
                    assert(v[k] == l);
                    assert(lacks(r[r.len() - 1], c));
                    assert forall|i: int| 0 <= i < l.len() implies l[i] != c by {
                        if i < r.last().len() {
                            assert(l[i] == r.last()[i]);
                        }
                    }
                } else {
                    assert(v[k] == r[k]);
                }
            }
        } else {
            assert forall|k: int| 0 <= k < v.len() implies lacks(#[trigger] v[k], c) by {
                if k < r.len() {
                    assert(v[k] == r[k]);
                }
            }
        }
    }
}

proof fn lemma_input_lines(text: Seq<char>)
    ensures
        forall|k: int| 0 <= k < input_lines(text).len() ==> lacks(#[trigger] input_lines(text)[k], '\n'),
{
    lemma_split_pieces(text, '\n', '\n');
    let ls = split_on(text, '\n');
    assert forall|k: int| 0 <= k < input_lines(text).len() implies lacks(#[trigger] input_lines(text)[k], '\n') by {
        assert(input_lines(text)[k] == ls[k]);
    }
}

proof fn lemma_before_char(s: Seq<char>, t: char, c: char)
    requires
        lacks(s, c),
    ensures
        lacks(before_char(s, t), c),
{
    lemma_split_pieces(s, t, c);
}

/// The last occurrence found by `rfind` is an occurrence.
proof fn lemma_rfind(s: Seq<char>, pat: Seq<char>)
    ensures
        rfind(s, pat) matches Some(p) ==> occurs_at(s, pat, p),
{
    if contains_seq(s, pat) {
        let p0 = choose|p: int| occurs_at(s, pat, p);
        lemma_last_occurrence(s, pat, p0);
    }
}

proof fn lemma_last_occurrence(s: Seq<char>, pat: Seq<char>, p0: int)
    requires
        occurs_at(s, pat, p0),
    ensures
        exists|p: int| occurs_at(s, pat, p) && forall|q: int| occurs_at(s, pat, q) ==> q <= p,
    decreases s.len() - p0,
{
    if exists|q: int| occurs_at(s, pat, q) && q > p0 {
        let q = choose|q: int| occurs_at(s, pat, q) && q > p0;
        lemma_last_occurrence(s, pat, q);
    } else {
        assert(forall|q: int| occurs_at(s, pat, q) ==> q <= p0);
    }
}

proof fn lemma_rsplit(s: Seq<char>, pat: Seq<char>, c: char)
    requires
        lacks(s, c),
    ensures
        rsplit_once(s, pat) matches Some((x, y)) ==> lacks(x, c) && lacks(y, c),
{
    lemma_rfind(s, pat);
    if rfind(s, pat) is Some {
        let p = rfind(s, pat).unwrap();
        lemma_take(s, p, c);
        lemma_skip(s, p + pat.len(), c);
    }
}

// ----- what the scanner builds --------------------------------------------------------

proof fn lemma_lit(s: Seq<char>)
    requires
        forall|i: int| 0 <= i < s.len() ==> s[i] != '\n',
    ensures
        lacks(s, '\n'),
{
}

proof fn lemma_git_name(line: Seq<char>)
    requires
        lacks(line, '\n'),
        git_header_rest(line) is Some,
    ensures
        lacks(git_section_name(git_header_rest(line).unwrap()), '\n'),
{
    lemma_strip_prefix(line, "diff --git "@, '\n');
    lemma_strip_prefix(line, "diff --cc "@, '\n');
    lemma_strip_prefix(line, "diff --combined "@, '\n');
    let rest = git_header_rest(line).unwrap();
    reveal_strlit(" b/");
    lemma_rfind(rest, " b/"@);
    if rfind(rest, " b/"@) is Some {
        let p = rfind(rest, " b/"@).unwrap();
        lemma_skip(rest, p + 3, '\n');
    }
}

proof fn lemma_header_name(minus: Seq<char>, plus: Seq<char>)
    requires
        lacks(minus, '\n'),
        lacks(plus, '\n'),
    ensures
        lacks(spec_header_name(minus, plus), '\n'),
{
    lemma_before_char(plus, '\t', '\n');
    lemma_before_char(minus, '\t', '\n');
    lemma_strip_prefix(before_char(plus, '\t'), "b/"@, '\n');
    lemma_strip_prefix(before_char(minus, '\t'), "a/"@, '\n');
}

proof fn lemma_extended(e: EntryView, line: Seq<char>)
    requires
        entry_plain(e),
        lacks(line, '\n'),
        extended_header(e, line) is Some,
    ensures
        entry_plain(extended_header(e, line).unwrap()),
{
    reveal_strlit("binary");
    reveal_strlit("mode changed");
    reveal_strlit("new file");
    reveal_strlit("deleted");
    reveal_strlit("renamed from ");
    reveal_strlit("copied from ");
    lemma_strip_prefix(line, "rename from "@, '\n');
    lemma_strip_prefix(line, "rename to "@, '\n');
    lemma_strip_prefix(line, "copy from "@, '\n');
    lemma_strip_prefix(line, "copy to "@, '\n');
    let e2 = extended_header(e, line).unwrap();
    let src = recorded_source(e);
    assert(lacks(src, '\n'));
    lemma_cat("renamed from "@, src, '\n');
    lemma_cat("copied from "@, src, '\n');
    assert forall|k: int| 0 <= k < e2.notes.len() implies lacks(#[trigger] e2.notes[k], '\n') by {
        if k < e.notes.len() {
            assert(e2.notes[k] == e.notes[k]);
        }
    }
}

proof fn lemma_fact(line: Seq<char>)
    requires
        lacks(line, '\n'),
        fact_entry(line) is Some,
    ensures
        entry_plain(fact_entry(line).unwrap()),
{
    reveal_strlit("/");
    reveal_strlit("only in one side");
    reveal_strlit("binary");
    reveal_strlit("unmerged");
    reveal_strlit("submodule");
    if only_in_fact(line) is Some {
        lemma_strip_prefix(line, "Only in "@, '\n');
        let rest = strip_prefix(line, "Only in "@).unwrap();
        lemma_rsplit(rest, ": "@, '\n');
        let (dir, file) = rsplit_once(rest, ": "@).unwrap();
        lemma_cat(dir, "/"@, '\n');
        lemma_cat(dir + "/"@, file, '\n');
    } else if binary_fact(line) is Some {
        lemma_strip_prefix(line, "Binary files "@, '\n');
        let r = strip_prefix(line, "Binary files "@).unwrap();
        lemma_strip_suffix(r, " differ"@, '\n');
        let pair = strip_suffix(r, " differ"@).unwrap();
        lemma_rsplit(pair, " and "@, '\n');
        let name0 = match rsplit_once(pair, " and "@) {
            Some((_, b)) => b,
            None => pair,
        };
        lemma_strip_prefix(name0, "b/"@, '\n');
    } else if unmerged_fact(line) is Some {
        lemma_strip_prefix(line, "* Unmerged path "@, '\n');
    } else {
        lemma_strip_prefix(line, "Submodule "@, '\n');
        let rest = strip_prefix(line, "Submodule "@).unwrap();
        lemma_trim_end(rest, ':', '\n');
    }
}

proof fn lemma_push_line(e: EntryView, raw: Seq<char>)
    requires
        entry_plain(e),
        lacks(raw, '\n'),
        !starts_with(raw, seq!['[']),
    ensures
        entry_plain(crate::unified_spec::push_change(e, raw)),
{
    let e2 = crate::unified_spec::push_change(e, raw);
    assert forall|k: int| 0 <= k < e2.changes.len() implies lacks(#[trigger] e2.changes[k], '\n') by {
        if k < e.changes.len() {
            assert(e2.changes[k] == e.changes[k]);
        }
    }
    assert forall|k: int| 0 <= k < e2.changes.len() implies !starts_with(#[trigger] e2.changes[k], seq!['[']) by {
        if k < e.changes.len() {
            assert(e2.changes[k] == e.changes[k]);
        }
    }
}

/// A line that opens with another character than `[` does not open like a label.
proof fn lemma_not_bracket(raw: Seq<char>, line: Seq<char>)
    requires
        line == strip_cr(raw),
        line.len() > 0,
        line[0] != '[',
    ensures
        !starts_with(raw, seq!['[']),
{
    assert(raw[0] == line[0]);
    if starts_with(raw, seq!['[']) {
        assert(raw.take(1)[0] == raw[0]);
    }
}

proof fn lemma_flush_nl(st: ScanState)
    requires
        state_plain(st),
    ensures
        state_plain(flush(st)),
{
    let f = flush(st);
    assert forall|k: int| 0 <= k < f.entries.len() implies entry_plain(#[trigger] f.entries[k]) by {
        if k < st.entries.len() {
            assert(f.entries[k] == st.entries[k]);
        }
    }
}

proof fn lemma_step_nl(lines: Seq<Seq<char>>, i: int, st: ScanState)
    requires
        0 <= i < lines.len(),
        forall|k: int| 0 <= k < lines.len() ==> lacks(#[trigger] lines[k], '\n'),
        state_plain(st),
        step(lines, i, st) is Some,
    ensures
        state_plain(step(lines, i, st).unwrap().0),
{
    let raw = lines[i];
    assert(lacks(raw, '\n'));
    let line = strip_cr(raw);
    lemma_strip_cr(raw, '\n');
    let st2 = step(lines, i, st).unwrap().0;
    reveal_strlit("");
    match st.hunk {
        Some(h) => {
            match st.current {
                Some(e) => {
                    if starts_with(line, seq!['\\']) {
                        assert(line.take(1)[0] == line[0]);
                        lemma_not_bracket(raw, line);
                        lemma_push_line(e, raw);
                    } else {
                        let parents = h.old_left.len();
                        let prefix = line.take(parents as int);
                        if prefix.contains('-') || prefix.contains('+') {
                            assert(parents > 0);
                            assert(prefix[0] == line[0]);
                            assert(crate::unified_spec::is_marker(prefix[0]));
                            lemma_not_bracket(raw, line);
                            lemma_push_line(e, raw);
                        }
                    }
                },
                None => {},
            }
        },
        None => {
            if starts_with(line, seq!['\\']) {
                match st.current {
                    Some(e) => {
                        assert(line.take(1)[0] == line[0]);
                        lemma_not_bracket(raw, line);
                        lemma_push_line(e, raw);
                    },
                    None => {},
                }
            } else if crate::unified_spec::spec_is_mbox_from(line) {
                lemma_flush_nl(st);
            } else if git_header_rest(line) is Some {
                lemma_flush_nl(st);
                lemma_git_name(line);
            } else if crate::unified_spec::current_header_only(st) && extended_header(st.current.unwrap(), line) is Some {
                lemma_extended(st.current.unwrap(), line);
            } else if header_pair(lines, i, crate::unified_spec::current_header_only(st)) is Some {
                lemma_flush_nl(st);
                let minus = strip_prefix(line, "--- "@).unwrap();
                lemma_strip_prefix(line, "--- "@, '\n');
                assert(lacks(lines[i + 1], '\n'));
                lemma_strip_cr(lines[i + 1], '\n');
                lemma_strip_prefix(strip_cr(lines[i + 1]), "+++ "@, '\n');
                let plus = strip_prefix(strip_cr(lines[i + 1]), "+++ "@).unwrap();
                lemma_header_name(minus, plus);
            } else if starts_with(line, "@@"@) {
            } else if !st.in_mbox_message && fact_entry(line) is Some {
                lemma_flush_nl(st);
                lemma_fact(line);
                let f = flush(st);
                let st3 = add_fact(st, fact_entry(line).unwrap());
                assert forall|k: int| 0 <= k < st3.entries.len() implies entry_plain(#[trigger] st3.entries[k]) by {
                    if k < f.entries.len() {
                        assert(st3.entries[k] == f.entries[k]);
                    }
                }
            }
        },
    }
}

proof fn lemma_scan_nl(lines: Seq<Seq<char>>, i: int, st: ScanState)
    requires
        0 <= i,
        forall|k: int| 0 <= k < lines.len() ==> lacks(#[trigger] lines[k], '\n'),
        state_plain(st),
        scan(lines, i, st) is Some,
    ensures
        state_plain(scan(lines, i, st).unwrap()),
    decreases lines.len() - i,
{
    if i < lines.len() {
        lemma_step_nl(lines, i, st);
        let (s2, skip) = step(lines, i, st).unwrap();
        lemma_scan_nl(lines, if skip { i + 2 } else { i + 1 }, s2);
    }
}

// ----- rendered lines ----------------------------------------------------------------------

proof fn lemma_join_nl(ls: Seq<Seq<char>>, sep: Seq<char>)
    requires
        forall|k: int| 0 <= k < ls.len() ==> lacks(#[trigger] ls[k], '\n'),
        lacks(sep, '\n'),
    ensures
        lacks(join_with(ls, sep), '\n'),
    decreases ls.len(),
{
    if ls.len() > 1 {
        assert forall|k: int| 0 <= k < ls.drop_last().len() implies lacks(#[trigger] ls.drop_last()[k], '\n') by {
            assert(ls.drop_last()[k] == ls[k]);
        }
        lemma_join_nl(ls.drop_last(), sep);
        assert(lacks(ls[ls.len() - 1], '\n'));
        lemma_cat(join_with(ls.drop_last(), sep), sep, '\n');
        lemma_cat(join_with(ls.drop_last(), sep) + sep, ls.last(), '\n');
    } else if ls.len() == 1 {
        assert(lacks(ls[0], '\n'));
    }
}

proof fn lemma_decimal_nl(n: nat)
    ensures
        lacks(decimal(n), '\n'),
{
    crate::render_laws::lemma_decimal_digits(n);
}

proof fn lemma_label(e: EntryView)
    requires
        entry_plain(e),
    ensures
        lacks(entry_label(e), '\n'),
        starts_with(entry_label(e), "[file] "@),
{
    reveal_strlit("[file] ");
    reveal_strlit(" (+");
    reveal_strlit(" -");
    reveal_strlit(")");
    reveal_strlit(" (");
    reveal_strlit(", ");
    lemma_decimal_nl(e.added);
    lemma_decimal_nl(e.removed);
    lemma_join_nl(e.notes, ", "@);
    let counts = " (+"@ + decimal(e.added) + " -"@ + decimal(e.removed) + ")"@;
    lemma_cat(" (+"@, decimal(e.added), '\n');
    lemma_cat(" (+"@ + decimal(e.added), " -"@, '\n');
    lemma_cat(" (+"@ + decimal(e.added) + " -"@, decimal(e.removed), '\n');
    lemma_cat(" (+"@ + decimal(e.added) + " -"@ + decimal(e.removed), ")"@, '\n');
    let head = "[file] "@ + e.name;
    lemma_cat("[file] "@, e.name, '\n');
    let notes = " ("@ + join_with(e.notes, ", "@) + ")"@;
    lemma_cat(" ("@, join_with(e.notes, ", "@), '\n');
    lemma_cat(" ("@ + join_with(e.notes, ", "@), ")"@, '\n');
    lemma_cat(head, counts, '\n');
    lemma_cat(head, notes, '\n');
    lemma_cat(head + notes, counts, '\n');
    let l = entry_label(e);
    assert(l.take(7) =~= "[file] "@) by {
        assert(head.take(7) =~= "[file] "@);
        assert(l =~= head + (l.skip(head.len() as int)));
    }
}

/// Each rendered line is newline-free and either a label or an input line.
proof fn lemma_output_elems(es: Seq<EntryView>, lines: Seq<Seq<char>>)
    requires
        forall|k: int| 0 <= k < es.len() ==> entry_plain(#[trigger] es[k]),
        forall|k: int| 0 <= k < es.len() ==> entry_ok(#[trigger] es[k], lines),
    ensures
        output_lines(es).len() >= es.len(),
        forall|m: int| 0 <= m < output_lines(es).len() ==> lacks(#[trigger] output_lines(es)[m], '\n') && (
            starts_with(output_lines(es)[m], "[file] "@) || lines.contains(output_lines(es)[m])),
    decreases es.len(),
{
    if es.len() > 0 {
        let front = es.drop_last();
        assert forall|k: int| 0 <= k < front.len() implies entry_plain(#[trigger] front[k]) by {
            assert(front[k] == es[k]);
        }
        assert forall|k: int| 0 <= k < front.len() implies entry_ok(#[trigger] front[k], lines) by {
            assert(front[k] == es[k]);
        }
        lemma_output_elems(front, lines);
        let e = es.last();
        assert(entry_plain(es[es.len() - 1]) && entry_ok(es[es.len() - 1], lines));
        lemma_label(e);
        let ol = output_lines(es);
        let f = output_lines(front);
        assert(ol == f + seq![entry_label(e)] + e.changes);
        assert forall|m: int| 0 <= m < ol.len() implies lacks(#[trigger] ol[m], '\n') && (
            starts_with(ol[m], "[file] "@) || lines.contains(ol[m])) by {
            if m < f.len() {
                assert(ol[m] == f[m]);
            } else if m == f.len() {
                assert(ol[m] == entry_label(e));
            } else {
                assert(ol[m] == e.changes[m - f.len() - 1]);
            }
        }
    }
}

pub(crate) proof fn lemma_split_single(b: Seq<char>, sep: char)
    requires
        lacks(b, sep),
    ensures
        split_on(b, sep) == seq![b],
    decreases b.len(),
{
    if b.len() > 0 {
        lemma_take(b, b.len() - 1, sep);
        assert(b.drop_last() =~= b.take(b.len() - 1));
        lemma_split_single(b.drop_last(), sep);
        assert(b[b.len() - 1] != sep);
        assert(b.drop_last().push(b.last()) =~= b);
        assert(seq![b.drop_last()].update(0, b.drop_last().push(b.last())) =~= seq![b]);
    } else {
        assert(b =~= Seq::<char>::empty());
    }
}

pub(crate) proof fn lemma_split_cat(a: Seq<char>, b: Seq<char>, sep: char)
    ensures
        split_on(a + seq![sep] + b, sep) == split_on(a, sep) + split_on(b, sep),
    decreases b.len(),
{
    let s = a + seq![sep] + b;
    if b.len() == 0 {
        assert(s.drop_last() =~= a);
        assert(split_on(b, sep) == seq![Seq::<char>::empty()]);
        assert(split_on(a, sep).push(Seq::empty()) =~= split_on(a, sep) + split_on(b, sep));
    } else {
        lemma_split_cat(a, b.drop_last(), sep);
        assert(s.drop_last() =~= a + seq![sep] + b.drop_last());
        assert(s.last() == b.last());
        let r1 = split_on(a, sep);
        let r2 = split_on(b.drop_last(), sep);
        crate::text::lemma_split_on_nonempty(b.drop_last(), sep);
        let r = r1 + r2;
        if b.last() == sep {
            assert(r.push(Seq::empty()) =~= r1 + r2.push(Seq::empty()));
        } else {
            assert(r.last() == r2.last());
            assert(r.update(r.len() - 1, r.last().push(b.last())) =~= r1 + r2.update(r2.len() - 1, r2.last().push(b.last())));
        }
    }
}

proof fn lemma_split_join(ls: Seq<Seq<char>>)
    requires
        ls.len() >= 1,
        forall|k: int| 0 <= k < ls.len() ==> lacks(#[trigger] ls[k], '\n'),
    ensures
        split_on(join_lines(ls), '\n') == ls,
    decreases ls.len(),
{
    if ls.len() == 1 {
        assert(lacks(ls[0], '\n'));
        lemma_split_single(ls[0], '\n');
        assert(seq![ls[0]] =~= ls);
    } else {
        assert forall|k: int| 0 <= k < ls.drop_last().len() implies lacks(#[trigger] ls.drop_last()[k], '\n') by {
            assert(ls.drop_last()[k] == ls[k]);
        }
        lemma_split_join(ls.drop_last());
        assert(lacks(ls[ls.len() - 1], '\n'));
        lemma_split_single(ls.last(), '\n');
        lemma_split_cat(join_lines(ls.drop_last()), ls.last(), '\n');
        assert(ls.drop_last() + seq![ls.last()] =~= ls);
    }
}

/// The lines of `ls` other than `[file]` labels (lines opening with `[`).
pub open spec fn drop_labels(ls: Seq<Seq<char>>) -> Seq<Seq<char>>
    decreases ls.len(),
{
    if ls.len() == 0 {
        Seq::empty()
    } else if starts_with(ls.last(), seq!['[']) {
        drop_labels(ls.drop_last())
    } else {
        drop_labels(ls.drop_last()).push(ls.last())
    }
}

proof fn lemma_drop_labels_cat(a: Seq<Seq<char>>, b: Seq<Seq<char>>)
    ensures
        drop_labels(a + b) == drop_labels(a) + drop_labels(b),
    decreases b.len(),
{
    if b.len() == 0 {
        assert(a + b =~= a);
        assert(drop_labels(a) + drop_labels(b) =~= drop_labels(a));
    } else {
        lemma_drop_labels_cat(a, b.drop_last());
        assert((a + b).drop_last() =~= a + b.drop_last());
        assert((a + b).last() == b.last());
        if !starts_with(b.last(), seq!['[']) {
            assert(drop_labels(a) + drop_labels(b.drop_last()).push(b.last())
                =~= (drop_labels(a) + drop_labels(b.drop_last())).push(b.last()));
        }
    }
}

proof fn lemma_drop_labels_plain(cs: Seq<Seq<char>>)
    requires
        forall|k: int| 0 <= k < cs.len() ==> !starts_with(#[trigger] cs[k], seq!['[']),
    ensures
        drop_labels(cs) == cs,
    decreases cs.len(),
{
    if cs.len() > 0 {
        assert forall|k: int| 0 <= k < cs.drop_last().len() implies !starts_with(#[trigger] cs.drop_last()[k], seq!['[']) by {
            assert(cs.drop_last()[k] == cs[k]);
        }
        lemma_drop_labels_plain(cs.drop_last());
        assert(!starts_with(cs[cs.len() - 1], seq!['[']));
        assert(cs.drop_last().push(cs.last()) =~= cs);
    }
}

proof fn lemma_drop_labels_output(es: Seq<EntryView>)
    requires
        forall|k: int| 0 <= k < es.len() ==> entry_plain(#[trigger] es[k]),
    ensures
        drop_labels(output_lines(es)) == crate::unified_laws::all_changes(es),
    decreases es.len(),
{
    if es.len() > 0 {
        let front = es.drop_last();
        assert forall|k: int| 0 <= k < front.len() implies entry_plain(#[trigger] front[k]) by {
            assert(front[k] == es[k]);
        }
        lemma_drop_labels_output(front);
        let e = es.last();
        assert(entry_plain(es[es.len() - 1]));
        lemma_label(e);
        reveal_strlit("[file] ");
        let l = entry_label(e);
        assert(l.take(7)[0] == l[0]);
        assert(starts_with(l, seq!['['])) by {
            assert(l.take(1) =~= seq![l[0]]);
        }
        lemma_drop_labels_cat(output_lines(front), seq![l]);
        lemma_drop_labels_cat(output_lines(front) + seq![l], e.changes);
        assert(seq![l].drop_last() =~= Seq::<Seq<char>>::empty());
        assert(seq![l].last() == l);
        assert(drop_labels(seq![l]) == drop_labels(Seq::<Seq<char>>::empty()));
        assert(drop_labels(Seq::<Seq<char>>::empty()) =~= Seq::<Seq<char>>::empty());
        lemma_drop_labels_plain(e.changes);
        assert(drop_labels(output_lines(front)) + Seq::<Seq<char>>::empty() =~= drop_labels(output_lines(front)));
    }
}

/// Read back at its newlines, a condensed stream is exactly its rendered
/// lines, and each is either a `[file] ` label or, byte for byte (a
/// carriage return kept), a line of the input: nothing is invented. With
/// the labels and the no-newline markers taken out, what remains is
/// exactly the stream's marked hunk-body lines, in input order: each
/// occurs as often as in the input's hunks, and nothing else is added.
pub proof fn law_output_lines_are_labels_or_input_lines(text: Seq<char>)
    ensures
        spec_condense(text) matches Some(out) ==> ({
            let es = flush(scan(input_lines(text), 0, initial_state()).unwrap()).entries;
            let pieces = split_on(out, '\n');
            &&& pieces == output_lines(es)
            &&& forall|m: int| 0 <= m < pieces.len() ==>
                starts_with(#[trigger] pieces[m], "[file] "@) || input_lines(text).contains(pieces[m])
            &&& crate::unified_laws::drop_markers(drop_labels(pieces))
                == crate::unified_laws::body_lines(input_lines(text), 0, initial_state())
        }),
{
    let lines = input_lines(text);
    if spec_condense(text) is Some {
        lemma_input_lines(text);
        let st = scan(lines, 0, initial_state()).unwrap();
        assert(state_plain(initial_state()));
        lemma_scan_nl(lines, 0, initial_state());
        lemma_flush_nl(st);
        crate::unified_laws::law_sections_count_and_keep_their_lines(text);
        let es = flush(st).entries;
        lemma_output_elems(es, lines);
        let ol = output_lines(es);
        assert forall|k: int| 0 <= k < ol.len() implies lacks(#[trigger] ol[k], '\n') by {}
        lemma_split_join(ol);
        lemma_drop_labels_output(es);
        crate::unified_laws::law_every_marked_body_line_survives(text);
    }
}

} // verus!
