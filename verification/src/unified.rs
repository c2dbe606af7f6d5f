//! Region parser for unified-diff streams.
//!
//! Splits the input into (prose)(file-header)(hunk)* regions and classifies
//! lines only within their region; `None` means the stream disagreed with
//! its own structure and the caller must fall back to raw passthrough.
//!
//! Detector precedence, total order — earlier rules own the line:
//!
//! 1. Inside a hunk, the `@@` line budget owns every line. An invalid body
//!    prefix, a budget over-consumed by one more body line, or EOF with
//!    budget still owed → `None`. The `\ No newline at end of file` marker
//!    consumes no budget but is kept as content — in-hunk (old side) or
//!    immediately after the budget closes (new side).
//! 2. An mbox `From <sha>` separator resets to the prose prologue.
//! 3. `diff --git` / `diff --cc` opens a file section (git extended headers
//!    such as `rename`/`Binary files`/mode lines annotate it).
//! 4. A `--- X` line immediately followed by `+++ Y` is a file header when it
//!    renames a still-hunkless section or the line after it opens a hunk.
//! 5. `@@` after a file header opens a hunk; a malformed `@@` line there is
//!    `None`. Before any file section it stays prose.
//! 6. File-level facts producers emit outside hunks become note-only
//!    entries (`Only in`, standalone `Binary files ... differ`,
//!    `* Unmerged path`, `Submodule a..b`), except inside mbox prose.
//! 7. In a stream that carried an mbox separator, a line of exactly
//!    `--`/`-- ` outside a hunk is the signature separator: prose.
//! 8. Any other `+`/`-` marked line outside a hunk and after the prologue is
//!    evidence of a stale budget → `None`.
//! 9. Everything else is prose and is dropped.
use vstd::prelude::*;

use crate::text::{
    chars_eq, chars_to_string, copy_chars, copy_range, push_all, starts_with,
    starts_with_char, starts_with_exec, str_chars, strip_cr_exec, views,
    lemma_views_push,
};
use crate::unified_spec::{
    BudgetView, EntryView, ScanState, affordable, consumes, entry_is_empty, exhausted, flush,
    header_only, hunk_line, is_marker, new_entry, push_change, record_body_line, spend,
    marker_after_hunk, is_hex, hex_then_space, spec_is_mbox_from, mbox_separator,
    git_header_rest, git_section_name, open_git_section, extended_header, push_note, retarget,
    recorded_source, current_header_only, header_pair, apply_header_pair, clean_side,
    spec_header_name, leading_ats, words, keep_word, parse_range, spec_parse_hunk_header,
    hunk_header, note_entry, only_in_fact, binary_fact, unmerged_fact, submodule_fact, fact_entry,
    add_fact, step, scan, initial_state, input_lines, entry_label, output_lines, spec_condense,
};
use crate::text::{join_lines, join_with, push_decimal};
use crate::text::{push_str, rsplit_once_exec, strip_suffix_exec, contains_exec, trim_end_char_exec};
use crate::text::{before_char_exec, split_on_exec, split_once_exec, parse_usize_exec};
use crate::text::{strip_prefix, strip_prefix_exec, rfind_exec};

verus! {

/// One parsed file section of the stream.
pub struct FileEntry {
    pub name: Vec<char>,
    pub added: usize,
    pub removed: usize,
    pub changes: Vec<Vec<char>>,
    pub notes: Vec<Vec<char>>,
    /// A `rename from X` seen while this section's header was still open.
    pub rename_from: Option<Vec<char>>,
    /// True once a `@@` hunk header was accepted for this section.
    pub saw_hunk: bool,
}

impl View for FileEntry {
    type V = EntryView;

    open spec fn view(&self) -> EntryView {
        EntryView {
            name: self.name@,
            added: self.added as nat,
            removed: self.removed as nat,
            changes: views(self.changes@),
            notes: views(self.notes@),
            rename_from: match self.rename_from {
                Some(v) => Some(v@),
                None => None,
            },
            saw_hunk: self.saw_hunk,
        }
    }
}

impl FileEntry {
    /// The counters never exceed the content lines they count.
    pub open spec fn counts_fit(&self) -> bool {
        self.added + self.removed <= self.changes@.len()
    }

    pub fn new(name: Vec<char>) -> (e: FileEntry)
        ensures
            e@ == new_entry(name@),
            e.counts_fit(),
    {
        let e = FileEntry {
            name,
            added: 0,
            removed: 0,
            changes: Vec::new(),
            notes: Vec::new(),
            rename_from: None,
            saw_hunk: false,
        };
        assert(views(e.changes@) =~= Seq::<Seq<char>>::empty());
        assert(views(e.notes@) =~= Seq::<Seq<char>>::empty());
        e
    }

    /// No hunk and no content yet.
    pub fn header_only(&self) -> (b: bool)
        ensures
            b == header_only(self@),
    {
        !self.saw_hunk && self.changes.len() == 0
    }

    /// Nothing to report: no content and no notes.
    pub fn is_empty(&self) -> (b: bool)
        ensures
            b == entry_is_empty(self@),
    {
        self.changes.len() == 0 && self.notes.len() == 0
    }

    /// Keeps `raw` as a content line.
    pub fn push_change(&mut self, raw: &[char])
        ensures
            final(self)@ == push_change(old(self)@, raw@),
            final(self).added == old(self).added,
            final(self).removed == old(self).removed,
            final(self).changes@.len() == old(self).changes@.len() + 1,
    {
        let v = copy_chars(raw);
        proof {
            lemma_views_push(self.changes@, v);
        }
        self.changes.push(v);
    }
}

/// Remaining line budget of an open hunk, from its `@@ -a,b +c,d @@` header
/// (one `old_left` slot per parent; `@@@` combined headers carry two or more).
pub struct HunkBudget {
    pub old_left: Vec<usize>,
    pub new_left: usize,
}

impl View for HunkBudget {
    type V = BudgetView;

    open spec fn view(&self) -> BudgetView {
        BudgetView { old_left: self.old_left@, new_left: self.new_left }
    }
}

impl HunkBudget {
    /// Every side of the budget is spent.
    pub fn exhausted(&self) -> (b: bool)
        ensures
            b == exhausted(self@),
    {
        if self.new_left != 0 {
            return false;
        }
        let mut k: usize = 0;
        while k < self.old_left.len()
            invariant
                k <= self.old_left@.len(),
                forall|j: int| 0 <= j < k ==> self.old_left@[j] == 0,
            decreases self.old_left@.len() - k,
        {
            if self.old_left[k] != 0 {
                assert(self@.old_left[k as int] != 0);
                return false;
            }
            k = k + 1;
        }
        true
    }
}

pub open spec fn entry_views(v: Seq<FileEntry>) -> Seq<EntryView> {
    Seq::new(v.len(), |i: int| v[i]@)
}

pub open spec fn opt_entry_view(o: Option<FileEntry>) -> Option<EntryView> {
    match o {
        Some(e) => Some(e@),
        None => None,
    }
}

pub open spec fn opt_budget_view(o: Option<HunkBudget>) -> Option<BudgetView> {
    match o {
        Some(h) => Some(h@),
        None => None,
    }
}

/// The scanner's state between lines.
pub struct Scanner {
    pub entries: Vec<FileEntry>,
    pub current: Option<FileEntry>,
    pub hunk: Option<HunkBudget>,
    pub in_prologue: bool,
    pub seen_mbox_from: bool,
    pub in_mbox_message: bool,
}

impl View for Scanner {
    type V = ScanState;

    open spec fn view(&self) -> ScanState {
        ScanState {
            entries: entry_views(self.entries@),
            current: opt_entry_view(self.current),
            hunk: opt_budget_view(self.hunk),
            in_prologue: self.in_prologue,
            seen_mbox_from: self.seen_mbox_from,
            in_mbox_message: self.in_mbox_message,
        }
    }
}

/// `line[..n]` contains `c`.
fn prefix_contains(line: &[char], n: usize, c: char) -> (b: bool)
    requires
        n <= line@.len(),
    ensures
        b == line@.take(n as int).contains(c),
{
    let mut k: usize = 0;
    while k < n
        invariant
            n <= line@.len(),
            k <= n,
            forall|j: int| 0 <= j < k ==> line@[j] != c,
        decreases n - k,
    {
        if line[k] == c {
            assert(line@.take(n as int)[k as int] == c);
            return true;
        }
        k = k + 1;
    }
    assert(forall|j: int| 0 <= j < n ==> line@.take(n as int)[j] != c);
    false
}

impl Scanner {
    pub open spec fn inv(&self) -> bool {
        self.current matches Some(e) ==> e.counts_fit()
    }

    pub fn new() -> (s: Scanner)
        ensures
            s@ == crate::unified_spec::initial_state(),
            s.inv(),
    {
        let s = Scanner {
            entries: Vec::new(),
            current: None,
            hunk: None,
            in_prologue: true,
            seen_mbox_from: false,
            in_mbox_message: false,
        };
        assert(entry_views(s.entries@) =~= Seq::<EntryView>::empty());
        s
    }

    /// Closes the open section, keeping it only if it says something.
    pub fn flush(&mut self)
        ensures
            final(self)@ == flush(old(self)@),
            final(self).inv(),
    {
        match self.current.take() {
            Some(e) => {
                if !e.is_empty() {
                    let ghost prev = self.entries@;
                    self.entries.push(e);
                    assert(entry_views(self.entries@) =~= entry_views(prev).push(e@));
                }
            },
            None => {},
        }
    }

    /// Rule 1: the open hunk's budget owns the line.
    pub fn hunk_line(&mut self, line: &[char], raw: &[char]) -> (ok: bool)
        requires
            old(self).hunk is Some,
            old(self).inv(),
        ensures
            ok == hunk_line(old(self)@, old(self)@.hunk.unwrap(), line@, raw@) is Some,
            ok ==> final(self)@ == hunk_line(old(self)@, old(self)@.hunk.unwrap(), line@, raw@).unwrap(),
            ok ==> final(self).inv(),
    {
        let ghost st = self@;
        let h = match self.hunk.take() {
            Some(h) => h,
            None => {
                return false;
            },
        };
        let ghost hv = h@;
        if starts_with_char(line, '\\') {
            self.hunk = Some(h);
            match self.current.take() {
                Some(mut e) => {
                    e.push_change(raw);
                    self.current = Some(e);
                },
                None => {},
            }
            return true;
        }
        let parents = h.old_left.len();
        if line.len() < parents {
            return false;
        }
        let ghost prefix = line@.take(parents as int);
        let mut k: usize = 0;
        while k < parents
            invariant
                parents == hv.old_left.len(),
                hv == old(self)@.hunk.unwrap(),
                !starts_with(line@, seq!['\\']),
                parents <= line@.len(),
                prefix == line@.take(parents as int),
                k <= parents,
                forall|j: int| 0 <= j < k ==> is_marker(#[trigger] prefix[j]),
            decreases parents - k,
        {
            let c = line[k];
            if !(c == ' ' || c == '-' || c == '+') {
                assert(!is_marker(prefix[k as int]));
                return false;
            }
            k = k + 1;
        }
        let has_minus = prefix_contains(line, parents, '-');
        let has_plus = prefix_contains(line, parents, '+');
        let in_result = !has_minus;
        let mut old2: Vec<usize> = Vec::new();
        let mut k: usize = 0;
        while k < parents
            invariant
                parents == hv.old_left.len(),
                hv == old(self)@.hunk.unwrap(),
                !starts_with(line@, seq!['\\']),
                forall|j: int| 0 <= j < parents ==> is_marker(#[trigger] prefix[j]),
                h@ == hv,
                parents <= line@.len(),
                prefix == line@.take(parents as int),
                in_result == !prefix.contains('-'),
                k <= parents,
                old2@.len() == k,
                forall|j: int| 0 <= j < k ==> (consumes(prefix[j], in_result) ==> hv.old_left[j] > 0),
                forall|j: int| 0 <= j < k ==> #[trigger] old2@[j] == spend(hv, prefix).old_left[j],
            decreases parents - k,
        {
            let c = line[k];
            let left = h.old_left[k];
            assert(prefix[k as int] == c);
            if c == '-' || (c == ' ' && in_result) {
                if left == 0 {
                    return false;
                }
                old2.push(left - 1);
            } else {
                old2.push(left);
            }
            k = k + 1;
        }
        if in_result && h.new_left == 0 {
            return false;
        }
        assert(affordable(hv, prefix));
        let mut e = match self.current.take() {
            Some(e) => e,
            None => {
                return false;
            },
        };
        let new2 = if in_result { h.new_left - 1 } else { h.new_left };
        let h2 = HunkBudget { old_left: old2, new_left: new2 };
        assert(h2@.old_left =~= spend(hv, prefix).old_left);
        if has_minus {
            e.push_change(raw);
            let n = e.changes.len();
            assert(e.removed + 1 <= n);
            e.removed = e.removed + 1;
        } else if has_plus {
            e.push_change(raw);
            let n = e.changes.len();
            assert(e.added + 1 <= n);
            e.added = e.added + 1;
        }
        assert(e@ == record_body_line(opt_entry_view(old(self).current).unwrap(), prefix, raw@));
        self.current = Some(e);
        if h2.exhausted() {
            self.hunk = None;
        } else {
            self.hunk = Some(h2);
        }
        true
    }
}


impl Scanner {
    /// Rule 1b: a no-newline marker right after a hunk closed stays with it.
    pub fn marker_after_hunk(&mut self, raw: &[char])
        requires
            old(self).inv(),
        ensures
            final(self)@ == marker_after_hunk(old(self)@, raw@),
            final(self).inv(),
    {
        match self.current.take() {
            Some(mut e) => {
                if e.saw_hunk {
                    e.push_change(raw);
                }
                self.current = Some(e);
            },
            None => {},
        }
    }

    /// Rule 2: an mbox separator returns to the prose prologue.
    pub fn mbox_separator(&mut self)
        ensures
            final(self)@ == mbox_separator(old(self)@),
            final(self).inv(),
    {
        self.flush();
        self.in_prologue = true;
        self.seen_mbox_from = true;
        self.in_mbox_message = true;
    }

    /// Rule 3: a git section opens.
    pub fn open_git_section(&mut self, rest: &[char])
        ensures
            final(self)@ == open_git_section(old(self)@, rest@),
            final(self).inv(),
    {
        self.flush();
        self.in_prologue = false;
        self.in_mbox_message = false;
        let name = git_section_name_exec(rest);
        self.current = Some(FileEntry::new(name));
    }
}

/// `c` is an ASCII hexadecimal digit.
fn is_hex_exec(c: char) -> (b: bool)
    ensures
        b == is_hex(c),
{
    ('0' <= c && c <= '9') || ('a' <= c && c <= 'f') || ('A' <= c && c <= 'F')
}

fn hex_then_space_exec(rest: &[char], n: usize) -> (b: bool)
    ensures
        b == hex_then_space(rest@, n as int),
{
    if rest.len() <= n {
        return false;
    }
    let mut j: usize = 0;
    while j < n
        invariant
            n < rest@.len(),
            j <= n,
            forall|i: int| 0 <= i < j ==> is_hex(#[trigger] rest@[i]),
        decreases n - j,
    {
        if !is_hex_exec(rest[j]) {
            return false;
        }
        j = j + 1;
    }
    rest[n] == ' '
}

/// True for the mbox `From <sha> <date>` separator `git format-patch` puts
/// before each patch. The sha is 40 hex digits in SHA-1 repos and 64 in
/// SHA-256 repos; both are accepted.
pub fn is_mbox_from(line: &[char]) -> (b: bool)
    ensures
        b == spec_is_mbox_from(line@),
{
    let pat = str_chars("From ");
    match strip_prefix_exec(line, pat.as_slice()) {
        Some(rest) => hex_then_space_exec(rest.as_slice(), 40) || hex_then_space_exec(rest.as_slice(), 64),
        None => false,
    }
}

/// What follows a `diff --git` / `diff --cc` / `diff --combined` opener.
fn git_header_rest_exec(line: &[char]) -> (r: Option<Vec<char>>)
    ensures
        match r {
            Some(v) => git_header_rest(line@) == Some(v@),
            None => git_header_rest(line@) is None,
        },
{
    let git = str_chars("diff --git ");
    match strip_prefix_exec(line, git.as_slice()) {
        Some(r) => {
            return Some(r);
        },
        None => {},
    }
    let cc = str_chars("diff --cc ");
    match strip_prefix_exec(line, cc.as_slice()) {
        Some(r) => {
            return Some(r);
        },
        None => {},
    }
    let combined = str_chars("diff --combined ");
    strip_prefix_exec(line, combined.as_slice())
}

/// Fallback display name of a git section: what follows the last ` b/`.
fn git_section_name_exec(rest: &[char]) -> (v: Vec<char>)
    ensures
        v@ == git_section_name(rest@),
{
    let pat = str_chars(" b/");
    let n = rest.len();
    match rfind_exec(rest, pat.as_slice()) {
        Some(p) => {
            proof {
                reveal_strlit(" b/");
            }
            assert(pat@.len() == 3);
            let v = copy_range(rest, p + 3, n);
            assert(rest@.subrange(p + 3, rest@.len() as int) == rest@.skip(p + 3));
            v
        },
        None => copy_chars(rest),
    }
}


impl FileEntry {
    /// Records the note `note`.
    pub fn push_note(&mut self, note: &str)
        ensures
            final(self)@ == push_note(old(self)@, note@),
            final(self).counts_fit() == old(self).counts_fit(),
    {
        let v = str_chars(note);
        proof {
            lemma_views_push(self.notes@, v);
        }
        self.notes.push(v);
    }

    /// Whether the note `note` was already recorded.
    pub fn has_note(&self, note: &str) -> (b: bool)
        ensures
            b == self@.notes.contains(note@),
    {
        let v = str_chars(note);
        let mut k: usize = 0;
        while k < self.notes.len()
            invariant
                v@ == note@,
                k <= self.notes@.len(),
                forall|j: int| 0 <= j < k ==> self@.notes[j] != note@,
            decreases self.notes@.len() - k,
        {
            if chars_eq(self.notes[k].as_slice(), v.as_slice()) {
                assert(self@.notes[k as int] == note@);
                return true;
            }
            k = k + 1;
        }
        false
    }

    /// A rename or copy target: takes its name and notes its source.
    pub fn retarget(&mut self, to: Vec<char>, verb: &str)
        ensures
            final(self)@ == retarget(old(self)@, to@, verb@),
            final(self).counts_fit() == old(self).counts_fit(),
    {
        let from = match self.rename_from.take() {
            Some(f) => f,
            None => Vec::new(),
        };
        assert(from@ == recorded_source(old(self)@));
        let mut note = str_chars(verb);
        push_all(&mut note, from.as_slice());
        self.name = to;
        proof {
            lemma_views_push(self.notes@, note);
        }
        self.notes.push(note);
    }
}

/// Applies a git extended-header line to a header-only section.
fn apply_extended_header(e: &mut FileEntry, line: &[char]) -> (b: bool)
    ensures
        b == extended_header(old(e)@, line@) is Some,
        b ==> final(e)@ == extended_header(old(e)@, line@).unwrap(),
        !b ==> final(e)@ == old(e)@,
        final(e).counts_fit() == old(e).counts_fit(),
{
    let binary_files = str_chars("Binary files ");
    let git_binary = str_chars("GIT binary patch");
    if starts_with_exec(line, binary_files.as_slice()) || chars_eq(line, git_binary.as_slice()) {
        e.push_note("binary");
        return true;
    }
    let rename_from = str_chars("rename from ");
    match strip_prefix_exec(line, rename_from.as_slice()) {
        Some(from) => {
            e.rename_from = Some(from);
            return true;
        },
        None => {},
    }
    let rename_to = str_chars("rename to ");
    match strip_prefix_exec(line, rename_to.as_slice()) {
        Some(to) => {
            e.retarget(to, "renamed from ");
            return true;
        },
        None => {},
    }
    let copy_from = str_chars("copy from ");
    match strip_prefix_exec(line, copy_from.as_slice()) {
        Some(from) => {
            e.rename_from = Some(from);
            return true;
        },
        None => {},
    }
    let copy_to = str_chars("copy to ");
    match strip_prefix_exec(line, copy_to.as_slice()) {
        Some(to) => {
            e.retarget(to, "copied from ");
            return true;
        },
        None => {},
    }
    let old_mode = str_chars("old mode ");
    let new_mode = str_chars("new mode ");
    if (starts_with_exec(line, old_mode.as_slice()) || starts_with_exec(line, new_mode.as_slice()))
        && !e.has_note("mode changed") {
        e.push_note("mode changed");
        return true;
    }
    let new_file = str_chars("new file mode ");
    if starts_with_exec(line, new_file.as_slice()) {
        e.push_note("new file");
        return true;
    }
    let deleted = str_chars("deleted file mode ");
    if starts_with_exec(line, deleted.as_slice()) {
        e.push_note("deleted");
        return true;
    }
    false
}

impl Scanner {
    /// Git extended-header lines that annotate a header-only section.
    pub fn extended_header(&mut self, line: &[char]) -> (b: bool)
        requires
            old(self).inv(),
        ensures
            b == (crate::unified_spec::current_header_only(old(self)@) && extended_header(old(self)@.current.unwrap(), line@) is Some),
            b ==> final(self)@ == (ScanState {
                current: extended_header(old(self)@.current.unwrap(), line@),
                ..old(self)@
            }),
            !b ==> final(self)@ == old(self)@,
            final(self).inv(),
    {
        match self.current.take() {
            Some(mut e) => {
                if e.header_only() {
                    let ok = apply_extended_header(&mut e, line);
                    self.current = Some(e);
                    ok
                } else {
                    self.current = Some(e);
                    false
                }
            },
            None => false,
        }
    }
}


/// One side of a `---`/`+++` header: up to the first tab, one `prefix` off.
fn clean_side_exec(side: &[char], prefix: &str) -> (v: Vec<char>)
    ensures
        v@ == clean_side(side@, prefix@),
{
    let s = before_char_exec(side, '\t');
    let p = str_chars(prefix);
    match strip_prefix_exec(s.as_slice(), p.as_slice()) {
        Some(x) => x,
        None => s,
    }
}

/// `--- <name>` / `+++ <name>` → display name: the `+++` side unless it is
/// `/dev/null` (a deletion), then the `--- ` side. One `b/`/`a/` prefix is
/// stripped (exactly once — `b/b/x` names a file in a `b/` directory), and
/// anything after the first tab (`diff -u` timestamps, svn `(working copy)`)
/// is dropped.
pub fn header_name(minus: &[char], plus: &[char]) -> (v: Vec<char>)
    ensures
        v@ == spec_header_name(minus@, plus@),
{
    let p = clean_side_exec(plus, "b/");
    let dev_null = str_chars("/dev/null");
    if chars_eq(p.as_slice(), dev_null.as_slice()) {
        clean_side_exec(minus, "a/")
    } else {
        p
    }
}

/// Rule 4: the display name when line `i` and the next form a file header.
fn header_pair_exec(lines: &Vec<Vec<char>>, i: usize, renames_in_place: bool) -> (r: Option<Vec<char>>)
    requires
        i < lines@.len(),
    ensures
        match r {
            Some(v) => header_pair(views(lines@), i as int, renames_in_place) == Some(v@),
            None => header_pair(views(lines@), i as int, renames_in_place) is None,
        },
        r is Some ==> i + 1 < lines@.len(),
{
    let ghost ls = views(lines@);
    let line = strip_cr_exec(lines[i].as_slice());
    let dashes = str_chars("--- ");
    let minus = match strip_prefix_exec(line.as_slice(), dashes.as_slice()) {
        Some(m) => m,
        None => {
            return None;
        },
    };
    let n = lines.len();
    if i + 1 >= n {
        return None;
    }
    let next = strip_cr_exec(lines[i + 1].as_slice());
    let pluses = str_chars("+++ ");
    let plus = match strip_prefix_exec(next.as_slice(), pluses.as_slice()) {
        Some(p) => p,
        None => {
            return None;
        },
    };
    let ats = str_chars("@@");
    let opens_hunk = if i + 2 < lines.len() {
        let after = strip_cr_exec(lines[i + 2].as_slice());
        starts_with_exec(after.as_slice(), ats.as_slice())
    } else {
        false
    };
    if renames_in_place || opens_hunk {
        Some(header_name(minus.as_slice(), plus.as_slice()))
    } else {
        None
    }
}

impl Scanner {
    /// The open section is still header-only.
    pub fn current_header_only(&self) -> (b: bool)
        ensures
            b == current_header_only(self@),
    {
        match &self.current {
            Some(e) => e.header_only(),
            None => false,
        }
    }

    /// Rule 4: a header pair renames a header-only section or opens a new one.
    pub fn apply_header_pair(&mut self, name: Vec<char>)
        requires
            old(self).inv(),
        ensures
            final(self)@ == apply_header_pair(old(self)@, name@),
            final(self).inv(),
    {
        match self.current.take() {
            Some(mut e) => {
                if e.header_only() {
                    e.name = name;
                    self.current = Some(e);
                } else {
                    self.current = Some(e);
                    self.flush();
                    self.current = Some(FileEntry::new(name));
                }
            },
            None => {
                self.flush();
                self.current = Some(FileEntry::new(name));
            },
        }
        self.in_prologue = false;
        self.in_mbox_message = false;
    }
}

/// The number of leading `@` characters of `line`.
fn leading_ats_exec(line: &[char]) -> (n: usize)
    ensures
        n == leading_ats(line@),
        n <= line@.len(),
{
    let mut n: usize = 0;
    assert(line@.skip(0) == line@);
    while n < line.len() && line[n] == '@'
        invariant
            n <= line@.len(),
            leading_ats(line@) == n + leading_ats(line@.skip(n as int)),
        decreases line@.len() - n,
    {
        assert(line@.skip(n as int).skip(1) == line@.skip(n + 1));
        n = n + 1;
    }
    n
}

/// The space-separated non-empty words of `s`.
fn words_exec(s: &[char]) -> (v: Vec<Vec<char>>)
    ensures
        views(v@) == words(s@),
{
    let pieces = split_on_exec(s, ' ');
    let ghost ps = views(pieces@);
    let mut out: Vec<Vec<char>> = Vec::new();
    let mut j: usize = 0;
    proof {
        reveal(Seq::filter);
        assert(ps.take(0) =~= Seq::<Seq<char>>::empty());
        assert(views(out@) =~= Seq::<Seq<char>>::empty());
    }
    while j < pieces.len()
        invariant
            ps == views(pieces@),
            j <= pieces@.len(),
            views(out@) == ps.take(j as int).filter(keep_word()),
        decreases pieces@.len() - j,
    {
        proof {
            reveal(Seq::filter);
            assert(ps.take(j + 1).drop_last() == ps.take(j as int));
            assert(ps.take(j + 1).last() == ps[j as int]);
        }
        if pieces[j].len() > 0 {
            let w = copy_chars(pieces[j].as_slice());
            proof {
                lemma_views_push(out@, w);
            }
            out.push(w);
        }
        j = j + 1;
    }
    assert(ps.take(ps.len() as int) == ps);
    out
}

/// `<sign>start[,count]` → the count, defaulting to one.
fn parse_range_exec(tok: &[char], sign: char) -> (r: Option<usize>)
    ensures
        r == parse_range(tok@, sign),
{
    if !starts_with_char(tok, sign) {
        return None;
    }
    let t = copy_range(tok, 1, tok.len());
    assert(strip_prefix(tok@, seq![sign]) == Some(t@));
    let comma = str_chars(",");
    match split_once_exec(t.as_slice(), comma.as_slice()) {
        Some((start, count)) => {
            if parse_usize_exec(start.as_slice()).is_some() {
                parse_usize_exec(count.as_slice())
            } else {
                None
            }
        },
        None => {
            if parse_usize_exec(t.as_slice()).is_some() {
                Some(1)
            } else {
                None
            }
        },
    }
}

/// Parse `@@ -a[,b] +c[,d] @@ ...` (and `@@@ -a,b -c,d +e,f @@@ ...` with one
/// `-` range per parent) into per-parent old-line budgets and the new-line
/// budget. Omitted counts default to 1 per the unified-diff spec.
pub fn parse_hunk_header(line: &[char]) -> (r: Option<(Vec<usize>, usize)>)
    ensures
        match r {
            Some((old_left, new_left)) => spec_parse_hunk_header(line@) == Some((old_left@, new_left)),
            None => spec_parse_hunk_header(line@) is None,
        },
{
    let ats = leading_ats_exec(line);
    // 2..=9: parents beyond 8 (an implausible octopus) fall back to raw.
    if !(2 <= ats && ats <= 9) {
        return None;
    }
    let parents = ats - 1;
    let rest = copy_range(line, ats, line.len());
    assert(rest@ == line@.skip(ats as int));
    let toks = words_exec(rest.as_slice());
    let ghost ts = views(toks@);
    if toks.len() < parents + 2 {
        return None;
    }
    let mut old_left: Vec<usize> = Vec::new();
    let mut k: usize = 0;
    while k < parents
        invariant
            ts == views(toks@),
            ts == words(line@.skip(ats as int)),
            ats == leading_ats(line@),
            parents == ats - 1,
            parents + 2 <= ts.len(),
            k <= parents,
            old_left@.len() == k,
            forall|j: int| 0 <= j < k ==> #[trigger] parse_range(ts[j], '-') is Some,
            forall|j: int| 0 <= j < k ==> #[trigger] old_left@[j] == parse_range(ts[j], '-').unwrap(),
        decreases parents - k,
    {
        match parse_range_exec(toks[k].as_slice(), '-') {
            Some(c) => {
                old_left.push(c);
            },
            None => {
                assert(parse_range(ts[k as int], '-') is None);
                return None;
            },
        }
        k = k + 1;
    }
    let new_left = match parse_range_exec(toks[parents].as_slice(), '+') {
        Some(c) => c,
        None => {
            return None;
        },
    };
    let close = &toks[parents + 1];
    assert(close@ == ts[parents + 1]);
    if close.len() != ats {
        return None;
    }
    let mut j: usize = 0;
    while j < close.len()
        invariant
            ts == views(toks@),
            ts == words(line@.skip(ats as int)),
            ats == leading_ats(line@),
            parents == ats - 1,
            parents + 2 <= ts.len(),
            close@.len() == ats,
            close@ == ts[parents + 1],
            j <= close@.len(),
            forall|q: int| 0 <= q < j ==> #[trigger] close@[q] == '@',
        decreases close@.len() - j,
    {
        if close[j] != '@' {
            assert(ts[parents + 1][j as int] != '@');
            return None;
        }
        j = j + 1;
    }
    assert(old_left@ =~= Seq::new(parents as nat, |q: int| parse_range(ts[q], '-').unwrap()));
    Some((old_left, new_left))
}

impl Scanner {
    /// Rule 5: a hunk header opens a budget for the open section.
    pub fn hunk_header(&mut self, line: &[char]) -> (ok: bool)
        requires
            old(self).inv(),
        ensures
            ok == hunk_header(old(self)@, line@) is Some,
            ok ==> final(self)@ == hunk_header(old(self)@, line@).unwrap(),
            final(self).inv(),
    {
        match parse_hunk_header(line) {
            Some((old_left, new_left)) => {
                match self.current.take() {
                    Some(mut e) => {
                        e.saw_hunk = true;
                        self.current = Some(e);
                        let h = HunkBudget { old_left, new_left };
                        if h.exhausted() {
                            self.hunk = None;
                        } else {
                            self.hunk = Some(h);
                        }
                    },
                    None => {},
                }
                true
            },
            None => !(self.current.is_some() && !self.in_prologue),
        }
    }
}


/// A note-only entry.
fn note_entry_exec(name: Vec<char>, note: &str) -> (e: FileEntry)
    ensures
        e@ == note_entry(name@, note@),
        e.counts_fit(),
{
    let mut e = FileEntry::new(name);
    e.push_note(note);
    assert(e@.notes =~= seq![note@]);
    e
}

fn only_in_fact_exec(line: &[char]) -> (r: Option<FileEntry>)
    ensures
        opt_entry_view(r) == only_in_fact(line@),
        r matches Some(e) ==> e.counts_fit(),
{
    let prefix = str_chars("Only in ");
    let rest = match strip_prefix_exec(line, prefix.as_slice()) {
        Some(r) => r,
        None => {
            return None;
        },
    };
    let sep = str_chars(": ");
    match rsplit_once_exec(rest.as_slice(), sep.as_slice()) {
        Some((dir, file)) => {
            let mut name = dir;
            push_str(&mut name, "/");
            push_all(&mut name, file.as_slice());
            Some(note_entry_exec(name, "only in one side"))
        },
        None => None,
    }
}

fn binary_fact_exec(line: &[char]) -> (r: Option<FileEntry>)
    ensures
        opt_entry_view(r) == binary_fact(line@),
        r matches Some(e) ==> e.counts_fit(),
{
    let prefix = str_chars("Binary files ");
    let r = match strip_prefix_exec(line, prefix.as_slice()) {
        Some(r) => r,
        None => {
            return None;
        },
    };
    let suffix = str_chars(" differ");
    let pair = match strip_suffix_exec(r.as_slice(), suffix.as_slice()) {
        Some(p) => p,
        None => {
            return None;
        },
    };
    let and = str_chars(" and ");
    let name0 = match rsplit_once_exec(pair.as_slice(), and.as_slice()) {
        Some((_, b)) => b,
        None => pair,
    };
    let b = str_chars("b/");
    let name = match strip_prefix_exec(name0.as_slice(), b.as_slice()) {
        Some(x) => x,
        None => name0,
    };
    Some(note_entry_exec(name, "binary"))
}

fn unmerged_fact_exec(line: &[char]) -> (r: Option<FileEntry>)
    ensures
        opt_entry_view(r) == unmerged_fact(line@),
        r matches Some(e) ==> e.counts_fit(),
{
    let prefix = str_chars("* Unmerged path ");
    match strip_prefix_exec(line, prefix.as_slice()) {
        Some(path) => Some(note_entry_exec(path, "unmerged")),
        None => None,
    }
}

fn submodule_fact_exec(line: &[char]) -> (r: Option<FileEntry>)
    ensures
        opt_entry_view(r) == submodule_fact(line@),
        r matches Some(e) ==> e.counts_fit(),
{
    let prefix = str_chars("Submodule ");
    match strip_prefix_exec(line, prefix.as_slice()) {
        Some(rest) => {
            let dots = str_chars("..");
            if contains_exec(rest.as_slice(), dots.as_slice()) {
                let name = trim_end_char_exec(rest.as_slice(), ':');
                Some(note_entry_exec(name, "submodule"))
            } else {
                None
            }
        },
        None => None,
    }
}

/// A file-level fact a producer emits outside hunks, as a note-only entry.
fn fact_entry_exec(line: &[char]) -> (r: Option<FileEntry>)
    ensures
        opt_entry_view(r) == fact_entry(line@),
        r matches Some(e) ==> e.counts_fit(),
{
    match only_in_fact_exec(line) {
        Some(e) => {
            return Some(e);
        },
        None => {},
    }
    match binary_fact_exec(line) {
        Some(e) => {
            return Some(e);
        },
        None => {},
    }
    match unmerged_fact_exec(line) {
        Some(e) => {
            return Some(e);
        },
        None => {},
    }
    submodule_fact_exec(line)
}

impl Scanner {
    /// Rule 6: a file-level fact closes the open section and is kept.
    pub fn add_fact(&mut self, e: FileEntry)
        ensures
            final(self)@ == add_fact(old(self)@, e@),
            final(self).inv(),
    {
        self.flush();
        let ghost prev = self.entries@;
        self.entries.push(e);
        assert(entry_views(self.entries@) =~= entry_views(prev).push(e@));
    }
}


impl Scanner {
    /// One scanner step at line `i`: `None` when the stream contradicts its
    /// own structure, else whether line `i + 1` was consumed too.
    pub fn step(&mut self, lines: &Vec<Vec<char>>, i: usize) -> (r: Option<bool>)
        requires
            i < lines@.len(),
            old(self).inv(),
        ensures
            match r {
                None => step(views(lines@), i as int, old(self)@) is None,
                Some(skip) => {
                    &&& step(views(lines@), i as int, old(self)@) == Some((final(self)@, skip))
                    &&& final(self).inv()
                    &&& skip ==> i + 1 < lines@.len()
                },
            },
    {
        let raw = &lines[i];
        let line = strip_cr_exec(raw.as_slice());
        assert(views(lines@)[i as int] == raw@);
        // Rule 1: the open hunk's budget owns the line.
        if self.hunk.is_some() {
            return if self.hunk_line(line.as_slice(), raw.as_slice()) {
                Some(false)
            } else {
                None
            };
        }
        // Rule 1b: the new-side no-newline marker right after its hunk.
        if starts_with_char(line.as_slice(), '\\') {
            self.marker_after_hunk(raw.as_slice());
            return Some(false);
        }
        // Rule 2: mbox patch separator → back to the prose prologue.
        if is_mbox_from(line.as_slice()) {
            self.mbox_separator();
            return Some(false);
        }
        // Rule 3: git file section with extended headers.
        match git_header_rest_exec(line.as_slice()) {
            Some(rest) => {
                self.open_git_section(rest.as_slice());
                return Some(false);
            },
            None => {},
        }
        if self.extended_header(line.as_slice()) {
            return Some(false);
        }
        // Rule 4: `--- X` + `+++ Y` header pair.
        let renames_in_place = self.current_header_only();
        match header_pair_exec(lines, i, renames_in_place) {
            Some(name) => {
                self.apply_header_pair(name);
                return Some(true);
            },
            None => {},
        }
        // Rule 5: hunk header.
        let ats = str_chars("@@");
        if starts_with_exec(line.as_slice(), ats.as_slice()) {
            return if self.hunk_header(line.as_slice()) {
                Some(false)
            } else {
                None
            };
        }
        // Rule 6: file-level facts outside hunks, suppressed in mbox prose.
        if !self.in_mbox_message {
            match fact_entry_exec(line.as_slice()) {
                Some(e) => {
                    self.add_fact(e);
                    return Some(false);
                },
                None => {},
            }
        }
        // Rule 7: format-patch signature separator, only in mbox streams.
        let sig = str_chars("--");
        let sig_space = str_chars("-- ");
        if self.seen_mbox_from && (chars_eq(line.as_slice(), sig.as_slice()) || chars_eq(
            line.as_slice(),
            sig_space.as_slice(),
        )) {
            return Some(false);
        }
        // Rule 8: content outside any hunk → stale budget, fall back.
        if (starts_with_char(line.as_slice(), '+') || starts_with_char(line.as_slice(), '-'))
            && !self.in_prologue {
            return None;
        }
        // Rule 9: prose.
        Some(false)
    }
}

/// The pieces `ls` joined by `sep`.
pub fn join_with_exec(ls: &Vec<Vec<char>>, sep: &str) -> (v: Vec<char>)
    ensures
        v@ == join_with(views(ls@), sep@),
{
    let ghost ps = views(ls@);
    let mut out: Vec<char> = Vec::new();
    let mut k: usize = 0;
    assert(ps.take(0) =~= Seq::<Seq<char>>::empty());
    while k < ls.len()
        invariant
            ps == views(ls@),
            k <= ls@.len(),
            out@ == join_with(ps.take(k as int), sep@),
        decreases ls@.len() - k,
    {
        assert(ps.take(k + 1).drop_last() == ps.take(k as int));
        if k > 0 {
            push_str(&mut out, sep);
        }
        push_all(&mut out, ls[k].as_slice());
        proof {
            if k == 0 {
                assert(out@ =~= ps.take(1)[0]);
            }
        }
        k = k + 1;
    }
    assert(ps.take(ps.len() as int) == ps);
    out
}

/// The lines `ls` joined by newlines.
fn join_lines_exec(ls: &Vec<Vec<char>>) -> (v: Vec<char>)
    ensures
        v@ == join_lines(views(ls@)),
{
    let ghost ps = views(ls@);
    let mut out: Vec<char> = Vec::new();
    let mut k: usize = 0;
    assert(ps.take(0) =~= Seq::<Seq<char>>::empty());
    while k < ls.len()
        invariant
            ps == views(ls@),
            k <= ls@.len(),
            out@ == join_lines(ps.take(k as int)),
        decreases ls@.len() - k,
    {
        assert(ps.take(k + 1).drop_last() == ps.take(k as int));
        if k > 0 {
            out.push('\n');
        }
        push_all(&mut out, ls[k].as_slice());
        proof {
            if k == 0 {
                assert(out@ =~= ps.take(1)[0]);
            } else {
                assert(out@ =~= join_lines(ps.take(k as int)) + seq!['\n'] + ps[k as int]);
            }
        }
        k = k + 1;
    }
    assert(ps.take(ps.len() as int) == ps);
    out
}

impl FileEntry {
    /// The `[file]` label of this section.
    pub fn label(&self) -> (v: Vec<char>)
        ensures
            v@ == entry_label(self@),
    {
        let mut counts = str_chars(" (+");
        push_decimal(&mut counts, self.added);
        push_str(&mut counts, " -");
        push_decimal(&mut counts, self.removed);
        push_str(&mut counts, ")");
        let mut out = str_chars("[file] ");
        push_all(&mut out, self.name.as_slice());
        if self.notes.len() == 0 {
            push_all(&mut out, counts.as_slice());
        } else {
            push_str(&mut out, " (");
            let notes = join_with_exec(&self.notes, ", ");
            push_all(&mut out, notes.as_slice());
            push_str(&mut out, ")");
            if self.changes.len() != 0 {
                push_all(&mut out, counts.as_slice());
            }
        }
        assert(out@ =~= entry_label(self@));
        out
    }
}

/// The rendered lines: each section's label followed by its kept content.
fn render_entries(es: &Vec<FileEntry>) -> (v: Vec<Vec<char>>)
    ensures
        views(v@) == output_lines(entry_views(es@)),
{
    let ghost ev = entry_views(es@);
    let mut out: Vec<Vec<char>> = Vec::new();
    let mut k: usize = 0;
    assert(ev.take(0) =~= Seq::<EntryView>::empty());
    assert(views(out@) =~= Seq::<Seq<char>>::empty());
    while k < es.len()
        invariant
            ev == entry_views(es@),
            k <= es@.len(),
            views(out@) == output_lines(ev.take(k as int)),
        decreases es@.len() - k,
    {
        let e = &es[k];
        assert(ev.take(k + 1).drop_last() == ev.take(k as int));
        assert(ev.take(k + 1).last() == e@);
        let ghost before = views(out@);
        let label = e.label();
        proof {
            lemma_views_push(out@, label);
        }
        out.push(label);
        let mut m: usize = 0;
        while m < e.changes.len()
            invariant
                k < es@.len(),
                e == es@[k as int],
                m <= e.changes@.len(),
                views(out@) == before + seq![entry_label(e@)] + e@.changes.take(m as int),
            decreases e.changes@.len() - m,
        {
            let c = copy_chars(e.changes[m].as_slice());
            proof {
                lemma_views_push(out@, c);
                assert(e@.changes.take(m + 1) == e@.changes.take(m as int).push(c@));
            }
            out.push(c);
            m = m + 1;
        }
        assert(e@.changes.take(e@.changes.len() as int) == e@.changes);
        k = k + 1;
    }
    assert(ev.take(ev.len() as int) == ev);
    out
}

/// Condenses a unified-diff stream to a per-file summary: a `[file]` label
/// with add/remove counters and notes, followed by every removed and added
/// line verbatim at column 0. `None` means the stream disagreed with its own
/// structure (or holds no recognizable diff) and the caller must pass the
/// input through unchanged.
pub fn condense_unified_diff_strict(diff: &str) -> (r: Option<String>)
    ensures
        match r {
            Some(s) => spec_condense(diff@) == Some(s@),
            None => spec_condense(diff@) is None,
        },
{
    let text = str_chars(diff);
    let mut lines = split_on_exec(text.as_slice(), '\n');
    let ghost pieces = views(lines@);
    if lines.len() > 0 && lines[lines.len() - 1].len() == 0 {
        lines.pop();
        assert(views(lines@) =~= pieces.drop_last());
    }
    let ghost ls = views(lines@);
    assert(ls == input_lines(diff@));
    let mut sc = Scanner::new();
    let mut i: usize = 0;
    while i < lines.len()
        invariant
            ls == views(lines@),
            ls == input_lines(diff@),
            i <= lines@.len(),
            sc.inv(),
            scan(ls, i as int, sc@) == scan(ls, 0, initial_state()),
        decreases lines@.len() - i,
    {
        let ghost before = sc@;
        match sc.step(&lines, i) {
            None => {
                assert(scan(ls, i as int, before) is None);
                return None;
            },
            Some(skip) => {
                i = if skip { i + 2 } else { i + 1 };
            },
        }
    }
    let ghost st = sc@;
    assert(scan(ls, 0, initial_state()) == Some(st));
    // Budget owed at EOF.
    if sc.hunk.is_some() {
        return None;
    }
    sc.flush();
    if sc.entries.len() == 0 {
        // Nothing recognizable as a diff (plain text, --stat output, empty
        // input): pass through rather than emitting nothing.
        return None;
    }
    let rendered = render_entries(&sc.entries);
    let out = join_lines_exec(&rendered);
    Some(chars_to_string(out.as_slice()))
}

} // verus!
