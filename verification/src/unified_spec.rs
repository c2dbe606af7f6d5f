//! The meaning of the unified-diff condenser, stated over character
//! sequences: a region scanner that walks the input line by line under a
//! fixed rule precedence and either renders a per-file summary or reports
//! that the stream disagreed with its own structure.
use vstd::prelude::*;

use crate::text::{
    before_char, contains_seq, decimal, join_lines, join_with, parse_usize, rfind, rsplit_once,
    split_on, split_once, starts_with, strip_cr, strip_prefix, strip_suffix, trim_end_char,
};

verus! {

/// One file section of the stream, as the scanner sees it.
pub struct EntryView {
    pub name: Seq<char>,
    pub added: nat,
    pub removed: nat,
    /// Content lines kept verbatim: marked hunk-body lines and
    /// `\ No newline at end of file` markers.
    pub changes: Seq<Seq<char>>,
    pub notes: Seq<Seq<char>>,
    /// A `rename from` / `copy from` seen while the header was still open.
    pub rename_from: Option<Seq<char>>,
    /// A hunk header was accepted for this section.
    pub saw_hunk: bool,
}

/// Remaining line budget of an open hunk: one slot per parent, plus the
/// result side.
pub struct BudgetView {
    pub old_left: Seq<usize>,
    pub new_left: usize,
}

/// Everything the scanner carries from one line to the next.
pub struct ScanState {
    pub entries: Seq<EntryView>,
    pub current: Option<EntryView>,
    pub hunk: Option<BudgetView>,
    /// Still in the prose prologue (before the first file header).
    pub in_prologue: bool,
    /// The stream carried an mbox `From <sha>` separator.
    pub seen_mbox_from: bool,
    /// Between an mbox separator and that patch's first file header.
    pub in_mbox_message: bool,
}

pub open spec fn new_entry(name: Seq<char>) -> EntryView {
    EntryView {
        name,
        added: 0,
        removed: 0,
        changes: Seq::empty(),
        notes: Seq::empty(),
        rename_from: None,
        saw_hunk: false,
    }
}

pub open spec fn note_entry(name: Seq<char>, note: Seq<char>) -> EntryView {
    EntryView { notes: seq![note], ..new_entry(name) }
}

pub open spec fn entry_is_empty(e: EntryView) -> bool {
    e.changes.len() == 0 && e.notes.len() == 0
}

/// No hunk and no content yet: git's extended header may still annotate it.
pub open spec fn header_only(e: EntryView) -> bool {
    !e.saw_hunk && e.changes.len() == 0
}

pub open spec fn initial_state() -> ScanState {
    ScanState {
        entries: Seq::empty(),
        current: None,
        hunk: None,
        in_prologue: true,
        seen_mbox_from: false,
        in_mbox_message: false,
    }
}

/// Close the open section, keeping it only if it says something.
pub open spec fn flush(st: ScanState) -> ScanState {
    ScanState {
        entries: match st.current {
            Some(e) => if entry_is_empty(e) { st.entries } else { st.entries.push(e) },
            None => st.entries,
        },
        current: None,
        ..st
    }
}

pub open spec fn exhausted(b: BudgetView) -> bool {
    b.new_left == 0 && forall|k: int| 0 <= k < b.old_left.len() ==> b.old_left[k] == 0
}

// ----- hunk bodies (rule 1) ------------------------------------------------

pub open spec fn is_marker(c: char) -> bool {
    c == ' ' || c == '-' || c == '+'
}

/// Whether a prefix column `c` takes a line from its parent's budget.
pub open spec fn consumes(c: char, in_result: bool) -> bool {
    c == '-' || (c == ' ' && in_result)
}

pub open spec fn push_change(e: EntryView, raw: Seq<char>) -> EntryView {
    EntryView { changes: e.changes.push(raw), ..e }
}

/// The budget after one body line with marker columns `prefix`.
pub open spec fn spend(h: BudgetView, prefix: Seq<char>) -> BudgetView {
    let in_result = !prefix.contains('-');
    BudgetView {
        old_left: Seq::new(
            h.old_left.len(),
            |k: int|
                if consumes(prefix[k], in_result) {
                    (h.old_left[k] - 1) as usize
                } else {
                    h.old_left[k]
                },
        ),
        new_left: if in_result { (h.new_left - 1) as usize } else { h.new_left },
    }
}

/// The budget can pay for a body line with marker columns `prefix`.
pub open spec fn affordable(h: BudgetView, prefix: Seq<char>) -> bool {
    let in_result = !prefix.contains('-');
    &&& forall|k: int| 0 <= k < h.old_left.len() && consumes(prefix[k], in_result) ==> h.old_left[k] > 0
    &&& in_result ==> h.new_left > 0
}

/// The section after a body line: removals and additions are counted and
/// kept verbatim; context lines are dropped.
pub open spec fn record_body_line(e: EntryView, prefix: Seq<char>, raw: Seq<char>) -> EntryView {
    if prefix.contains('-') {
        EntryView { removed: e.removed + 1, ..push_change(e, raw) }
    } else if prefix.contains('+') {
        EntryView { added: e.added + 1, ..push_change(e, raw) }
    } else {
        e
    }
}

/// Rule 1: the open hunk's budget owns the line.
pub open spec fn hunk_line(st: ScanState, h: BudgetView, line: Seq<char>, raw: Seq<char>) -> Option<ScanState> {
    if starts_with(line, seq!['\\']) {
        Some(ScanState {
            current: match st.current {
                Some(e) => Some(push_change(e, raw)),
                None => None,
            },
            ..st
        })
    } else {
        let parents = h.old_left.len();
        if line.len() < parents {
            None
        } else {
            let prefix = line.take(parents as int);
            if !(forall|k: int| 0 <= k < parents ==> is_marker(#[trigger] prefix[k])) {
                None
            } else if !affordable(h, prefix) {
                None
            } else {
                match st.current {
                    None => None,
                    Some(e) => {
                        let h2 = spend(h, prefix);
                        Some(ScanState {
                            current: Some(record_body_line(e, prefix, raw)),
                            hunk: if exhausted(h2) { None } else { Some(h2) },
                            ..st
                        })
                    },
                }
            }
        }
    }
}

// ----- separators and file headers (rules 1b-4) ----------------------------

/// Rule 1b: a no-newline marker right after a hunk closed stays with it.
pub open spec fn marker_after_hunk(st: ScanState, raw: Seq<char>) -> ScanState {
    ScanState {
        current: match st.current {
            Some(e) => if e.saw_hunk { Some(push_change(e, raw)) } else { Some(e) },
            None => None,
        },
        ..st
    }
}

pub open spec fn is_hex(c: char) -> bool {
    ('0' <= c && c <= '9') || ('a' <= c && c <= 'f') || ('A' <= c && c <= 'F')
}

pub open spec fn hex_then_space(rest: Seq<char>, n: int) -> bool {
    &&& rest.len() > n
    &&& forall|j: int| 0 <= j < n ==> is_hex(#[trigger] rest[j])
    &&& rest[n] == ' '
}

/// The mbox `From <sha> <date>` separator, with a 40- or 64-digit hash.
pub open spec fn spec_is_mbox_from(line: Seq<char>) -> bool {
    match strip_prefix(line, "From "@) {
        Some(rest) => hex_then_space(rest, 40) || hex_then_space(rest, 64),
        None => false,
    }
}

/// Rule 2: an mbox separator returns to the prose prologue.
pub open spec fn mbox_separator(st: ScanState) -> ScanState {
    ScanState { in_prologue: true, seen_mbox_from: true, in_mbox_message: true, ..flush(st) }
}

/// What follows a `diff --git` / `diff --cc` / `diff --combined` opener.
pub open spec fn git_header_rest(line: Seq<char>) -> Option<Seq<char>> {
    match strip_prefix(line, "diff --git "@) {
        Some(r) => Some(r),
        None => match strip_prefix(line, "diff --cc "@) {
            Some(r) => Some(r),
            None => strip_prefix(line, "diff --combined "@),
        },
    }
}

/// Fallback display name of a git section: what follows the last ` b/`.
pub open spec fn git_section_name(rest: Seq<char>) -> Seq<char> {
    match rfind(rest, " b/"@) {
        Some(p) => rest.skip(p + 3),
        None => rest,
    }
}

/// Rule 3: a git section opens.
pub open spec fn open_git_section(st: ScanState, rest: Seq<char>) -> ScanState {
    ScanState {
        current: Some(new_entry(git_section_name(rest))),
        in_prologue: false,
        in_mbox_message: false,
        ..flush(st)
    }
}

pub open spec fn push_note(e: EntryView, note: Seq<char>) -> EntryView {
    EntryView { notes: e.notes.push(note), ..e }
}

pub open spec fn recorded_source(e: EntryView) -> Seq<char> {
    match e.rename_from {
        Some(f) => f,
        None => Seq::empty(),
    }
}

/// A rename or copy target: the section takes its name and notes its source.
pub open spec fn retarget(e: EntryView, to: Seq<char>, verb: Seq<char>) -> EntryView {
    EntryView {
        name: to,
        rename_from: None,
        notes: e.notes.push(verb + recorded_source(e)),
        ..e
    }
}

pub open spec fn mode_line(line: Seq<char>) -> bool {
    starts_with(line, "old mode "@) || starts_with(line, "new mode "@)
}

/// Git extended-header lines that annotate a still header-only section.
pub open spec fn extended_header(e: EntryView, line: Seq<char>) -> Option<EntryView> {
    if starts_with(line, "Binary files "@) || line == "GIT binary patch"@ {
        Some(push_note(e, "binary"@))
    } else if strip_prefix(line, "rename from "@) is Some {
        Some(EntryView { rename_from: strip_prefix(line, "rename from "@), ..e })
    } else if strip_prefix(line, "rename to "@) is Some {
        Some(retarget(e, strip_prefix(line, "rename to "@).unwrap(), "renamed from "@))
    } else if strip_prefix(line, "copy from "@) is Some {
        Some(EntryView { rename_from: strip_prefix(line, "copy from "@), ..e })
    } else if strip_prefix(line, "copy to "@) is Some {
        Some(retarget(e, strip_prefix(line, "copy to "@).unwrap(), "copied from "@))
    } else if mode_line(line) && !e.notes.contains("mode changed"@) {
        Some(push_note(e, "mode changed"@))
    } else if starts_with(line, "new file mode "@) {
        Some(push_note(e, "new file"@))
    } else if starts_with(line, "deleted file mode "@) {
        Some(push_note(e, "deleted"@))
    } else {
        None
    }
}

/// One side of a `---`/`+++` header: up to the first tab, one `prefix` off.
pub open spec fn clean_side(side: Seq<char>, prefix: Seq<char>) -> Seq<char> {
    let s = before_char(side, '\t');
    match strip_prefix(s, prefix) {
        Some(x) => x,
        None => s,
    }
}

/// The display name of a `--- minus` / `+++ plus` pair: the new side
/// unless it is `/dev/null` (a deletion).
pub open spec fn spec_header_name(minus: Seq<char>, plus: Seq<char>) -> Seq<char> {
    let p = clean_side(plus, "b/"@);
    if p == "/dev/null"@ {
        clean_side(minus, "a/"@)
    } else {
        p
    }
}

/// The open section is still header-only.
pub open spec fn current_header_only(st: ScanState) -> bool {
    st.current matches Some(e) && header_only(e)
}

/// Rule 4: the display name when line `i` and the next form a file header
/// pair that renames a header-only section (`renames_in_place`) or is
/// followed by a hunk.
pub open spec fn header_pair(lines: Seq<Seq<char>>, i: int, renames_in_place: bool) -> Option<Seq<char>> {
    let line = strip_cr(lines[i]);
    match strip_prefix(line, "--- "@) {
        None => None,
        Some(minus) => if i + 1 < lines.len() {
            match strip_prefix(strip_cr(lines[i + 1]), "+++ "@) {
                None => None,
                Some(plus) => {
                    let opens_hunk = i + 2 < lines.len() && starts_with(strip_cr(lines[i + 2]), "@@"@);
                    if renames_in_place || opens_hunk {
                        Some(spec_header_name(minus, plus))
                    } else {
                        None
                    }
                },
            }
        } else {
            None
        },
    }
}

pub open spec fn apply_header_pair(st: ScanState, name: Seq<char>) -> ScanState {
    let st1 = match st.current {
        Some(e) => if header_only(e) {
            ScanState { current: Some(EntryView { name, ..e }), ..st }
        } else {
            ScanState { current: Some(new_entry(name)), ..flush(st) }
        },
        None => ScanState { current: Some(new_entry(name)), ..flush(st) },
    };
    ScanState { in_prologue: false, in_mbox_message: false, ..st1 }
}

// ----- hunk headers (rule 5) -----------------------------------------------

/// The number of leading `@` characters of `s`.
pub open spec fn leading_ats(s: Seq<char>) -> nat
    decreases s.len(),
{
    if s.len() > 0 && s[0] == '@' {
        1 + leading_ats(s.skip(1))
    } else {
        0
    }
}

/// Keeps the non-empty pieces.
pub open spec fn keep_word() -> spec_fn(Seq<char>) -> bool {
    |t: Seq<char>| t.len() > 0
}

/// The space-separated non-empty words of `s`.
pub open spec fn words(s: Seq<char>) -> Seq<Seq<char>> {
    split_on(s, ' ').filter(keep_word())
}

/// `<sign>start[,count]` → the count, defaulting to one.
pub open spec fn parse_range(tok: Seq<char>, sign: char) -> Option<usize> {
    match strip_prefix(tok, seq![sign]) {
        None => None,
        Some(t) => match split_once(t, ","@) {
            Some((start, count)) => if parse_usize(start) is Some {
                parse_usize(count)
            } else {
                None
            },
            None => if parse_usize(t) is Some {
                Some(1usize)
            } else {
                None
            },
        },
    }
}

/// `@@ -a[,b] +c[,d] @@` (one `-` range per parent for `@@@`-style combined
/// headers, two to nine `@`) → per-parent old budgets and the new budget.
pub open spec fn spec_parse_hunk_header(line: Seq<char>) -> Option<(Seq<usize>, usize)> {
    let ats = leading_ats(line);
    let toks = words(line.skip(ats as int));
    let parents = ats - 1;
    if !(2 <= ats <= 9) {
        None
    } else if toks.len() < parents + 2 {
        None
    } else if !(forall|k: int| 0 <= k < parents ==> #[trigger] parse_range(toks[k], '-') is Some) {
        None
    } else if parse_range(toks[parents], '+') is None {
        None
    } else if !(toks[parents + 1].len() == ats && forall|j: int|
        0 <= j < toks[parents + 1].len() ==> #[trigger] toks[parents + 1][j] == '@') {
        None
    } else {
        Some(
            (
                Seq::new(parents as nat, |k: int| parse_range(toks[k], '-').unwrap()),
                parse_range(toks[parents], '+').unwrap(),
            ),
        )
    }
}

/// Rule 5: a hunk header opens a budget for the open section; a malformed
/// one after a file header means the stream cannot be trusted.
pub open spec fn hunk_header(st: ScanState, line: Seq<char>) -> Option<ScanState> {
    match spec_parse_hunk_header(line) {
        Some((old_left, new_left)) => match st.current {
            Some(e) => {
                let h = BudgetView { old_left, new_left };
                Some(ScanState {
                    current: Some(EntryView { saw_hunk: true, ..e }),
                    hunk: if exhausted(h) { None } else { Some(h) },
                    ..st
                })
            },
            None => Some(st),
        },
        None => if st.current is Some && !st.in_prologue {
            None
        } else {
            Some(st)
        },
    }
}

// ----- file-level facts (rule 6) -------------------------------------------

pub open spec fn only_in_fact(line: Seq<char>) -> Option<EntryView> {
    match strip_prefix(line, "Only in "@) {
        Some(rest) => match rsplit_once(rest, ": "@) {
            Some((dir, file)) => Some(note_entry(dir + "/"@ + file, "only in one side"@)),
            None => None,
        },
        None => None,
    }
}

pub open spec fn binary_fact(line: Seq<char>) -> Option<EntryView> {
    match strip_prefix(line, "Binary files "@) {
        Some(r) => match strip_suffix(r, " differ"@) {
            Some(pair) => {
                let name0 = match rsplit_once(pair, " and "@) {
                    Some((_, b)) => b,
                    None => pair,
                };
                let name = match strip_prefix(name0, "b/"@) {
                    Some(x) => x,
                    None => name0,
                };
                Some(note_entry(name, "binary"@))
            },
            None => None,
        },
        None => None,
    }
}

pub open spec fn unmerged_fact(line: Seq<char>) -> Option<EntryView> {
    match strip_prefix(line, "* Unmerged path "@) {
        Some(path) => Some(note_entry(path, "unmerged"@)),
        None => None,
    }
}

pub open spec fn submodule_fact(line: Seq<char>) -> Option<EntryView> {
    match strip_prefix(line, "Submodule "@) {
        Some(rest) => if contains_seq(rest, ".."@) {
            Some(note_entry(trim_end_char(rest, ':'), "submodule"@))
        } else {
            None
        },
        None => None,
    }
}

/// A file-level fact a producer emits outside hunks, as a note-only entry.
pub open spec fn fact_entry(line: Seq<char>) -> Option<EntryView> {
    if only_in_fact(line) is Some {
        only_in_fact(line)
    } else if binary_fact(line) is Some {
        binary_fact(line)
    } else if unmerged_fact(line) is Some {
        unmerged_fact(line)
    } else {
        submodule_fact(line)
    }
}

pub open spec fn add_fact(st: ScanState, e: EntryView) -> ScanState {
    let st1 = flush(st);
    ScanState { entries: st1.entries.push(e), ..st1 }
}

// ----- one line, the whole stream -----------------------------------------

/// One scanner step at line `i`: `None` when the stream contradicts its own
/// structure, else the next state and whether line `i + 1` was consumed too.
pub open spec fn step(lines: Seq<Seq<char>>, i: int, st: ScanState) -> Option<(ScanState, bool)> {
    let raw = lines[i];
    let line = strip_cr(raw);
    match st.hunk {
        Some(h) => match hunk_line(st, h, line, raw) {
            Some(s) => Some((s, false)),
            None => None,
        },
        None => if starts_with(line, seq!['\\']) {
            Some((marker_after_hunk(st, raw), false))
        } else if spec_is_mbox_from(line) {
            Some((mbox_separator(st), false))
        } else if git_header_rest(line) is Some {
            Some((open_git_section(st, git_header_rest(line).unwrap()), false))
        } else if current_header_only(st) && extended_header(st.current.unwrap(), line) is Some {
            Some((ScanState { current: extended_header(st.current.unwrap(), line), ..st }, false))
        } else if header_pair(lines, i, current_header_only(st)) is Some {
            Some((apply_header_pair(st, header_pair(lines, i, current_header_only(st)).unwrap()), true))
        } else if starts_with(line, "@@"@) {
            match hunk_header(st, line) {
                Some(s) => Some((s, false)),
                None => None,
            }
        } else if !st.in_mbox_message && fact_entry(line) is Some {
            Some((add_fact(st, fact_entry(line).unwrap()), false))
        } else if st.seen_mbox_from && (line == "--"@ || line == "-- "@) {
            Some((st, false))
        } else if (starts_with(line, seq!['+']) || starts_with(line, seq!['-'])) && !st.in_prologue {
            None
        } else {
            Some((st, false))
        },
    }
}

/// The scanner run over `lines[i..]` from state `st`.
pub open spec fn scan(lines: Seq<Seq<char>>, i: int, st: ScanState) -> Option<ScanState>
    decreases lines.len() - i,
{
    if i < 0 || i >= lines.len() {
        Some(st)
    } else {
        match step(lines, i, st) {
            None => None,
            Some((s2, skip)) => scan(lines, if skip { i + 2 } else { i + 1 }, s2),
        }
    }
}

/// The input split at `\n`, without the empty piece after a final newline.
pub open spec fn input_lines(text: Seq<char>) -> Seq<Seq<char>> {
    let ls = split_on(text, '\n');
    if ls.len() > 0 && ls.last().len() == 0 {
        ls.drop_last()
    } else {
        ls
    }
}

/// The `[file]` label of a section.
pub open spec fn entry_label(e: EntryView) -> Seq<char> {
    let counts = " (+"@ + decimal(e.added) + " -"@ + decimal(e.removed) + ")"@;
    if e.notes.len() == 0 {
        "[file] "@ + e.name + counts
    } else if e.changes.len() == 0 {
        "[file] "@ + e.name + " ("@ + join_with(e.notes, ", "@) + ")"@
    } else {
        "[file] "@ + e.name + " ("@ + join_with(e.notes, ", "@) + ")"@ + counts
    }
}

/// The rendered lines: each section's label followed by its kept content.
pub open spec fn output_lines(es: Seq<EntryView>) -> Seq<Seq<char>>
    decreases es.len(),
{
    if es.len() == 0 {
        Seq::empty()
    } else {
        output_lines(es.drop_last()) + seq![entry_label(es.last())] + es.last().changes
    }
}

/// The end of the stream: a budget still owed, or nothing recognizable as
/// a diff, means raw passthrough.
pub open spec fn finish(st: ScanState) -> Option<Seq<char>> {
    if st.hunk is Some {
        None
    } else {
        let es = flush(st).entries;
        if es.len() == 0 {
            None
        } else {
            Some(join_lines(output_lines(es)))
        }
    }
}

/// The condensed rendering of a unified-diff stream, or `None` when the
/// caller must pass the input through unchanged.
pub open spec fn spec_condense(text: Seq<char>) -> Option<Seq<char>> {
    match scan(input_lines(text), 0, initial_state()) {
        None => None,
        Some(st) => finish(st),
    }
}

} // verus!
