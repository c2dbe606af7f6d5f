//! Rendering a file comparison: the condensed change list, the verdict for
//! files that differ only in what `str::lines()` normalizes, the guard
//! against output larger than a classic diff, and the tracking baseline.
use vstd::prelude::*;

use crate::guard::{INVISIBLE_DIFF_TOKEN_ALLOWANCE, never_worse, spec_never_worse};
use crate::line_diff::{DiffChange, DiffResult, change_views};
use crate::line_diff_spec::{ChangeView, DiffView};
use crate::text::{
    chars_eq, chars_to_string, decimal, decimal_width4, join_with, push_all, push_decimal,
    push_decimal_width4, push_str, str_chars, ends_with,
};
use crate::tokens::{byte_len, estimate_tokens, spec_estimate_tokens};

verus! {

broadcast use vstd::string::group_string_axioms;

// ----- the condensed change list ---------------------------------------------

/// One change as a line of the condensed list.
pub open spec fn change_line(c: ChangeView) -> Seq<char> {
    match c {
        ChangeView::Added(ln, t) => "+"@ + decimal_width4(ln) + " "@ + t + "\n"@,
        ChangeView::Removed(ln, t) => "-"@ + decimal_width4(ln) + " "@ + t + "\n"@,
        ChangeView::Modified(ln, o, n) => "~"@ + decimal_width4(ln) + " "@ + o + " → "@ + n + "\n"@,
    }
}

/// The condensed change list.
pub open spec fn spec_format_diff_changes(cs: Seq<ChangeView>) -> Seq<char>
    decreases cs.len(),
{
    if cs.len() == 0 {
        Seq::empty()
    } else {
        spec_format_diff_changes(cs.drop_last()) + change_line(cs.last())
    }
}

/// Appends one change line.
fn push_change_line(out: &mut Vec<char>, c: &DiffChange)
    ensures
        final(out)@ == old(out)@ + change_line(c@),
{
    match c {
        DiffChange::Added(ln, t) => {
            push_str(out, "+");
            push_decimal_width4(out, *ln);
            push_str(out, " ");
            push_str(out, t.as_str());
            push_str(out, "\n");
        },
        DiffChange::Removed(ln, t) => {
            push_str(out, "-");
            push_decimal_width4(out, *ln);
            push_str(out, " ");
            push_str(out, t.as_str());
            push_str(out, "\n");
        },
        DiffChange::Modified(ln, o, n) => {
            push_str(out, "~");
            push_decimal_width4(out, *ln);
            push_str(out, " ");
            push_str(out, o.as_str());
            push_str(out, " → ");
            push_str(out, n.as_str());
            push_str(out, "\n");
        },
    }
    assert(final(out)@ =~= old(out)@ + change_line(c@));
}

/// Appends the condensed change list of `changes`.
fn push_changes(out: &mut Vec<char>, changes: &Vec<DiffChange>)
    ensures
        final(out)@ == old(out)@ + spec_format_diff_changes(change_views(changes@)),
{
    let ghost cs = change_views(changes@);
    let mut k: usize = 0;
    assert(cs.take(0) =~= Seq::<ChangeView>::empty());
    assert(out@ =~= old(out)@ + spec_format_diff_changes(cs.take(0)));
    while k < changes.len()
        invariant
            cs == change_views(changes@),
            k <= cs.len(),
            out@ == old(out)@ + spec_format_diff_changes(cs.take(k as int)),
        decreases cs.len() - k,
    {
        assert(cs.take(k + 1).drop_last() == cs.take(k as int));
        assert(cs.take(k + 1).last() == changes@[k as int]@);
        push_change_line(out, &changes[k]);
        assert(out@ =~= old(out)@ + spec_format_diff_changes(cs.take(k + 1)));
        k = k + 1;
    }
    assert(cs.take(cs.len() as int) == cs);
}

/// One line per change: `+`/`-`/`~`, the line number right-aligned in four
/// columns, and the text (old `→` new for modifications).
pub fn format_diff_changes(diff: &DiffResult) -> (s: String)
    ensures
        s@ == spec_format_diff_changes(diff@.changes),
{
    let mut out: Vec<char> = Vec::new();
    push_changes(&mut out, &diff.changes);
    assert(out@ =~= spec_format_diff_changes(diff@.changes));
    chars_to_string(out.as_slice())
}

// ----- the verdict ---------------------------------------------------------------

pub open spec fn identical_message() -> Seq<char> {
    "[ok] Files are identical\n"@
}

/// The condensed rendering of a diff and its diff-convention exit code.
pub open spec fn spec_render_diff(file1: Seq<char>, file2: Seq<char>, d: DiffView) -> (Seq<char>, i32) {
    if d.changes.len() == 0 {
        (identical_message(), 0)
    } else {
        (
            file1 + " → "@ + file2 + "\n"@ + "   +"@ + decimal(d.added) + " added, -"@
                + decimal(d.removed) + " removed, ~"@ + decimal(d.modified) + " modified\n\n"@
                + spec_format_diff_changes(d.changes),
            1,
        )
    }
}

/// Renders the condensed comparison of two files and returns it with the
/// diff-convention exit code (0 = identical, 1 = differences found).
pub fn render_diff(file1: &str, file2: &str, diff: &DiffResult) -> (r: (String, i32))
    ensures
        (r.0@, r.1) == spec_render_diff(file1@, file2@, diff@),
{
    if diff.changes.len() == 0 {
        return ("[ok] Files are identical\n".to_string(), 0);
    }
    let mut out = str_chars(file1);
    push_str(&mut out, " → ");
    push_str(&mut out, file2);
    push_str(&mut out, "\n");
    push_str(&mut out, "   +");
    push_decimal(&mut out, diff.added);
    push_str(&mut out, " added, -");
    push_decimal(&mut out, diff.removed);
    push_str(&mut out, " removed, ~");
    push_decimal(&mut out, diff.modified);
    push_str(&mut out, " modified\n\n");
    push_changes(&mut out, &diff.changes);
    assert(out@ =~= spec_render_diff(file1@, file2@, diff@).0);
    (chars_to_string(out.as_slice()), 1)
}

/// How many `\r\n` pairs `s` holds.
pub open spec fn crlf_count(s: Seq<char>) -> nat
    decreases s.len(),
{
    if s.len() < 2 {
        0
    } else {
        crlf_count(s.drop_last()) + if s[s.len() - 2] == '\r' && s.last() == '\n' { 1nat } else { 0nat }
    }
}

pub open spec fn presence(b: bool) -> Seq<char> {
    if b { "present"@ } else { "absent"@ }
}

/// What explains a byte difference that `str::lines()` cannot see.
pub open spec fn invisible_notes(content1: Seq<char>, content2: Seq<char>) -> Seq<Seq<char>> {
    let crlf1 = crlf_count(content1);
    let crlf2 = crlf_count(content2);
    let nl1 = ends_with(content1, "\n"@);
    let nl2 = ends_with(content2, "\n"@);
    let n1: Seq<Seq<char>> = if crlf1 != crlf2 {
        seq!["line endings: "@ + decimal(crlf1) + " CRLF vs "@ + decimal(crlf2) + " CRLF"@]
    } else {
        Seq::empty()
    };
    let n2 = if nl1 != nl2 {
        n1.push("trailing newline: "@ + presence(nl1) + " vs "@ + presence(nl2))
    } else {
        n1
    };
    if n2.len() == 0 {
        seq![decimal(byte_len(content1)) + " vs "@ + decimal(byte_len(content2)) + " bytes, invisible to a line-based diff"@]
    } else {
        n2
    }
}

/// The message for files whose bytes differ but whose lines match.
pub open spec fn spec_describe_invisible_difference(
    file1: Seq<char>,
    file2: Seq<char>,
    content1: Seq<char>,
    content2: Seq<char>,
) -> Seq<char> {
    file1 + " → "@ + file2 + "\n   differs, text matches ("@ + join_with(invisible_notes(content1, content2), "; "@) + ")\n"@
}

/// Counts `\r\n` pairs.
fn crlf_count_exec(s: &[char]) -> (n: usize)
    ensures
        n == crlf_count(s@),
{
    let mut n: usize = 0;
    let mut i: usize = 1;
    if s.len() < 2 {
        return 0;
    }
    assert(crlf_count(s@.take(1)) == 0);
    while i < s.len()
        invariant
            1 <= i <= s@.len(),
            n <= i,
            n == crlf_count(s@.take(i as int)),
        decreases s@.len() - i,
    {
        assert(s@.take(i + 1).drop_last() == s@.take(i as int));
        if s[i - 1] == '\r' && s[i] == '\n' {
            n = n + 1;
        }
        i = i + 1;
    }
    assert(s@.take(s@.len() as int) == s@);
    n
}

/// Byte length of the UTF-8 encoding of `s`.
fn byte_len_exec(s: &str) -> (n: usize)
    ensures
        n == byte_len(s@),
{
    s.as_bytes().len()
}

/// Describe a difference that a line-based diff cannot see.
///
/// Reached only when the bytes differ but `lines()` yields identical vectors,
/// which narrows the cause to the two things `lines()` normalizes: a `\r`
/// before the newline, and the presence of the final newline. Rendering the
/// usual change list here would show two visually identical strings, so
/// state the cause instead. Deliberately avoids the word "identical": that
/// string is the signal for the true-identity case.
pub fn describe_invisible_difference(file1: &str, file2: &str, content1: &str, content2: &str) -> (s: String)
    ensures
        s@ == spec_describe_invisible_difference(file1@, file2@, content1@, content2@),
{
    let c1 = str_chars(content1);
    let c2 = str_chars(content2);
    let crlf1 = crlf_count_exec(c1.as_slice());
    let crlf2 = crlf_count_exec(c2.as_slice());
    let nl = str_chars("\n");
    let nl1 = crate::text::ends_with_exec(c1.as_slice(), nl.as_slice());
    let nl2 = crate::text::ends_with_exec(c2.as_slice(), nl.as_slice());
    let mut notes: Vec<Vec<char>> = Vec::new();
    let ghost spec_notes = invisible_notes(content1@, content2@);
    if crlf1 != crlf2 {
        let mut note = str_chars("line endings: ");
        push_decimal(&mut note, crlf1);
        push_str(&mut note, " CRLF vs ");
        push_decimal(&mut note, crlf2);
        push_str(&mut note, " CRLF");
        notes.push(note);
    }
    if nl1 != nl2 {
        let mut note = str_chars("trailing newline: ");
        push_str(&mut note, if nl1 { "present" } else { "absent" });
        push_str(&mut note, " vs ");
        push_str(&mut note, if nl2 { "present" } else { "absent" });
        notes.push(note);
    }
    if notes.len() == 0 {
        // Defensive: no known `lines()` normalization explains it. Say so
        // rather than implying the files match.
        let mut note: Vec<char> = Vec::new();
        push_decimal(&mut note, byte_len_exec(content1));
        push_str(&mut note, " vs ");
        push_decimal(&mut note, byte_len_exec(content2));
        push_str(&mut note, " bytes, invisible to a line-based diff");
        notes.push(note);
    }
    assert(crate::text::views(notes@) =~= spec_notes);
    let mut out = str_chars(file1);
    push_str(&mut out, " → ");
    push_str(&mut out, file2);
    push_str(&mut out, "\n   differs, text matches (");
    let joined = crate::unified::join_with_exec(&notes, "; ");
    push_all(&mut out, joined.as_slice());
    push_str(&mut out, ")\n");
    assert(out@ =~= spec_describe_invisible_difference(file1@, file2@, content1@, content2@));
    chars_to_string(out.as_slice())
}

// ----- the invisible-difference allowance ------------------------------------------

/// The body of the invisible-difference message: what follows its
/// `file1 → file2` header line, which the caller's own paths determine.
pub open spec fn invisible_body(content1: Seq<char>, content2: Seq<char>) -> Seq<char> {
    "   differs, text matches ("@ + join_with(invisible_notes(content1, content2), "; "@) + ")\n"@
}

/// The header line of the invisible-difference message.
pub open spec fn invisible_header(file1: Seq<char>, file2: Seq<char>) -> Seq<char> {
    file1 + " → "@ + file2 + "\n"@
}

/// The raw text of a comparison: both files, one after the other.
pub open spec fn raw_pair(content1: Seq<char>, content2: Seq<char>) -> Seq<char> {
    content1 + "\n---\n"@ + content2
}

/// The one output allowed past the never-worse guard: the
/// invisible-difference message is shown while its body costs at most
/// `INVISIBLE_DIFF_TOKEN_ALLOWANCE` tokens more than the raw text of both
/// files; past that, the raw text is short enough to read directly.
pub open spec fn spec_invisible_or_raw(
    file1: Seq<char>,
    file2: Seq<char>,
    content1: Seq<char>,
    content2: Seq<char>,
) -> Seq<char> {
    if spec_estimate_tokens(invisible_body(content1, content2))
        <= spec_estimate_tokens(raw_pair(content1, content2)) + INVISIBLE_DIFF_TOKEN_ALLOWANCE {
        spec_describe_invisible_difference(file1, file2, content1, content2)
    } else {
        raw_pair(content1, content2)
    }
}

/// The message is its header line followed by its body.
pub proof fn lemma_invisible_parts(file1: Seq<char>, file2: Seq<char>, content1: Seq<char>, content2: Seq<char>)
    ensures
        spec_describe_invisible_difference(file1, file2, content1, content2)
            == invisible_header(file1, file2) + invisible_body(content1, content2),
{
    reveal_strlit("\n   differs, text matches (");
    reveal_strlit("   differs, text matches (");
    reveal_strlit("\n");
    assert("\n   differs, text matches ("@ =~= "\n"@ + "   differs, text matches ("@);
    let notes = join_with(invisible_notes(content1, content2), "; "@);
    assert(file1 + " → "@ + file2 + "\n   differs, text matches ("@ + notes + ")\n"@
        =~= (file1 + " → "@ + file2 + "\n"@) + ("   differs, text matches ("@ + notes + ")\n"@));
}

/// The invisible-difference message, or the raw text of both files once the
/// message's body costs more than the raw text plus the allowance.
pub fn invisible_or_raw(file1: &str, file2: &str, content1: &str, content2: &str) -> (s: String)
    ensures
        s@ == spec_invisible_or_raw(file1@, file2@, content1@, content2@),
{
    let msg = describe_invisible_difference(file1, file2, content1, content2);
    let m = str_chars(msg.as_str());
    let f1 = str_chars(file1);
    let f2 = str_chars(file2);
    proof {
        lemma_invisible_parts(file1@, file2@, content1@, content2@);
        reveal_strlit(" → ");
        reveal_strlit("\n");
    }
    let ghost header = invisible_header(file1@, file2@);
    assert(header.len() == f1@.len() + 3 + f2@.len() + 1);
    assert(m@ == header + invisible_body(content1@, content2@));
    assert(header.len() <= m@.len());
    let ml = m.len();
    let a = f1.len();
    let b = f2.len();
    assert(a + 3 + b + 1 <= ml);
    let hlen = a + 3 + b + 1;
    let body_chars = crate::text::copy_range(m.as_slice(), hlen, m.len());
    assert(body_chars@ =~= invisible_body(content1@, content2@));
    let body = chars_to_string(body_chars.as_slice());
    let mut raw: Vec<char> = Vec::new();
    push_str(&mut raw, content1);
    push_str(&mut raw, "\n---\n");
    push_str(&mut raw, content2);
    assert(raw@ =~= raw_pair(content1@, content2@));
    let raw_s = chars_to_string(raw.as_slice());
    let body_tokens = estimate_tokens(body.as_str());
    let raw_tokens = estimate_tokens(raw_s.as_str());
    if body_tokens <= INVISIBLE_DIFF_TOKEN_ALLOWANCE || body_tokens - INVISIBLE_DIFF_TOKEN_ALLOWANCE <= raw_tokens {
        msg
    } else {
        raw_s
    }
}

/// The rendering of a file comparison and its exit code: identity is
/// decided on the bytes, before `lines()` touches the input.
pub open spec fn spec_render_file_diff(
    file1: Seq<char>,
    file2: Seq<char>,
    content1: Seq<char>,
    content2: Seq<char>,
    d: DiffView,
) -> (Seq<char>, i32) {
    if content1 == content2 {
        (identical_message(), 0)
    } else if d.changes.len() == 0 {
        (spec_describe_invisible_difference(file1, file2, content1, content2), 1)
    } else {
        spec_render_diff(file1, file2, d)
    }
}

/// Renders the condensed file comparison and returns it with the
/// diff-convention exit code (0 = identical, 1 = differences found).
///
/// Byte equality is the only safe basis for claiming identity, and it must be
/// checked before `lines()` touches the input. `str::lines()` strips a
/// trailing `\r` and treats the final newline as optional, so a CRLF-vs-LF or
/// missing-trailing-newline difference collapses to identical line vectors.
pub fn render_file_diff(
    file1: &str,
    file2: &str,
    content1: &str,
    content2: &str,
    diff: &DiffResult,
) -> (r: (String, i32))
    ensures
        (r.0@, r.1) == spec_render_file_diff(file1@, file2@, content1@, content2@, diff@),
{
    let c1 = str_chars(content1);
    let c2 = str_chars(content2);
    if chars_eq(c1.as_slice(), c2.as_slice()) {
        return ("[ok] Files are identical\n".to_string(), 0);
    }
    if diff.changes.len() == 0 {
        // Bytes differ, lines don't: the difference is exactly what `lines()`
        // normalizes away. Name it rather than rendering an empty change list.
        return (describe_invisible_difference(file1, file2, content1, content2), 1);
    }
    render_diff(file1, file2, diff)
}

// ----- what is shown, and what it is measured against ----------------------

/// The output shown for a file comparison.
pub open spec fn spec_select_file_diff_output(d: DiffView, raw: Seq<char>, rendered: Seq<char>) -> Seq<char> {
    if d.changes.len() == 0 {
        rendered
    } else {
        spec_never_worse(raw, rendered)
    }
}

/// Identical files keep their verdict; otherwise the rendering goes through
/// the never-worse guard against the classic diff `raw`.
pub fn select_file_diff_output<'a>(diff: &DiffResult, raw: &'a str, rendered: &'a str) -> (r: &'a str)
    ensures
        r@ == spec_select_file_diff_output(diff@, raw@, rendered@),
{
    if diff.changes.len() == 0 {
        rendered
    } else {
        never_worse(raw, rendered)
    }
}

/// The baseline a comparison's savings are measured against.
pub open spec fn spec_tracking_baseline(
    d: DiffView,
    fallback: Seq<char>,
    both_files: Seq<char>,
    shown: Seq<char>,
) -> Seq<char> {
    if d.changes.len() != 0 {
        fallback
    } else if spec_estimate_tokens(both_files) >= spec_estimate_tokens(shown) {
        both_files
    } else {
        shown
    }
}

/// Baseline the savings are measured against: what `diff` itself would have
/// printed, so the recorded ratio compares like with like and can never go
/// negative -- the guard already caps the shown output at the fallback.
/// For identical files `diff` prints nothing, so the dump of both files
/// stands in, unless the verdict line costs more than that dump.
pub fn tracking_baseline<'a>(
    diff: &DiffResult,
    fallback: &'a str,
    both_files: &'a str,
    shown: &'a str,
) -> (r: &'a str)
    ensures
        r@ == spec_tracking_baseline(diff@, fallback@, both_files@, shown@),
{
    if diff.changes.len() != 0 {
        return fallback;
    }
    if estimate_tokens(both_files) >= estimate_tokens(shown) {
        both_files
    } else {
        shown
    }
}

/// The savings booked for a file comparison are never negative: whatever is
/// shown, the baseline it is measured against costs at least as many tokens.
pub proof fn law_tracking_never_books_a_loss(
    d: DiffView,
    fallback: Seq<char>,
    both_files: Seq<char>,
    rendered: Seq<char>,
)
    ensures
        ({
            let shown = spec_select_file_diff_output(d, fallback, rendered);
            spec_estimate_tokens(spec_tracking_baseline(d, fallback, both_files, shown))
                >= spec_estimate_tokens(shown)
        }),
{
}

/// A comparison exits 0 exactly when the two contents are the same
/// characters, and then it says so; files that differ exit 1 and their
/// report never carries the identity verdict.
pub proof fn law_identity_is_decided_on_content(
    file1: Seq<char>,
    file2: Seq<char>,
    content1: Seq<char>,
    content2: Seq<char>,
    d: DiffView,
)
    ensures
        spec_render_file_diff(file1, file2, content1, content2, d).1 == 0 <==> content1 == content2,
        spec_render_file_diff(file1, file2, content1, content2, d).1 == 1 <==> content1 != content2,
        content1 == content2 ==> spec_render_file_diff(file1, file2, content1, content2, d).0 == identical_message(),
        content1 != content2 ==> spec_render_file_diff(file1, file2, content1, content2, d).0 != identical_message(),
{
    reveal_strlit("[ok] Files are identical\n");
    reveal_strlit(" → ");
    reveal_strlit("\n   differs, text matches (");
    reveal_strlit(")\n");
    reveal_strlit("\n");
    reveal_strlit("   +");
    reveal_strlit(" added, -");
    reveal_strlit(" removed, ~");
    reveal_strlit(" modified\n\n");
    assert(identical_message().len() == 25);
    if content1 != content2 {
        let out = spec_render_file_diff(file1, file2, content1, content2, d).0;
        assert(out.len() > 25);
    }
}


// ----- the classic `diff` fallback --------------------------------------------

pub open spec fn change_line_no(c: ChangeView) -> nat {
    match c {
        ChangeView::Added(l, _) => l,
        ChangeView::Removed(l, _) => l,
        ChangeView::Modified(l, _, _) => l,
    }
}

/// The text a change holds on the side `new_side` selects.
pub open spec fn change_text(c: ChangeView, new_side: bool) -> Seq<char> {
    match c {
        ChangeView::Added(_, t) => t,
        ChangeView::Removed(_, t) => t,
        ChangeView::Modified(_, o, n) => if new_side { n } else { o },
    }
}

/// Line numbers a classic diff can print: 1-based, with room to count one past.
pub open spec fn classic_ready(cs: Seq<ChangeView>) -> bool {
    forall|k: int| 0 <= k < cs.len() ==> 1 <= #[trigger] change_line_no(cs[k]) < usize::MAX
}

/// `start` alone, or `start,end`.
pub open spec fn line_range(start: nat, end: nat) -> Seq<char> {
    if start == end {
        decimal(start)
    } else {
        decimal(start) + ","@ + decimal(end)
    }
}

/// The end of the run of modifications on consecutive lines from `line`.
pub open spec fn mod_run_end(cs: Seq<ChangeView>, k: int, line: nat) -> int
    decreases cs.len() - k,
{
    if 0 <= k < cs.len() && cs[k] is Modified && change_line_no(cs[k]) == line {
        mod_run_end(cs, k + 1, line + 1)
    } else {
        k
    }
}

/// The end of the run of additions on consecutive lines from `line`.
pub open spec fn add_run_end(cs: Seq<ChangeView>, k: int, line: nat) -> int
    decreases cs.len() - k,
{
    if 0 <= k < cs.len() && cs[k] is Added && change_line_no(cs[k]) == line {
        add_run_end(cs, k + 1, line + 1)
    } else {
        k
    }
}

/// The end of the run of removals on consecutive lines from `line`.
pub open spec fn rem_run_end(cs: Seq<ChangeView>, k: int, line: nat) -> int
    decreases cs.len() - k,
{
    if 0 <= k < cs.len() && cs[k] is Removed && change_line_no(cs[k]) == line {
        rem_run_end(cs, k + 1, line + 1)
    } else {
        k
    }
}

/// A removal directly followed by an addition at the same line.
pub open spec fn pair_at(cs: Seq<ChangeView>, k: int, line: nat) -> bool {
    &&& 0 <= k
    &&& k + 1 < cs.len()
    &&& cs[k] is Removed
    &&& cs[k + 1] is Added
    &&& change_line_no(cs[k]) == line
    &&& change_line_no(cs[k + 1]) == line
}

/// The end of the run of removal/addition pairs on consecutive lines.
pub open spec fn pair_run_end(cs: Seq<ChangeView>, k: int, line: nat) -> int
    decreases cs.len() - k,
{
    if pair_at(cs, k, line) {
        pair_run_end(cs, k + 2, line + 1)
    } else {
        k
    }
}

/// `marker` + text + newline for `cs[k]`, `cs[k + step]`, ... below `e`.
pub open spec fn marked(cs: Seq<ChangeView>, k: int, e: int, step: int, marker: Seq<char>, new_side: bool) -> Seq<char>
    decreases (if k < e { e - k } else { 0 }),
{
    if k >= e || step <= 0 || k < 0 || k >= cs.len() {
        Seq::empty()
    } else {
        marker + change_text(cs[k], new_side) + "\n"@ + marked(cs, k + step, e, step, marker, new_side)
    }
}

/// The classic hunk at `cs[k]` and where the next one starts.
pub open spec fn classic_chunk(cs: Seq<ChangeView>, k: int) -> (Seq<char>, int) {
    let start = change_line_no(cs[k]);
    match cs[k] {
        ChangeView::Modified(..) => {
            let e = mod_run_end(cs, k, start);
            let r = line_range(start, (start + (e - k) - 1) as nat);
            (r + "c"@ + r + "\n"@ + marked(cs, k, e, 1, "< "@, false) + "---\n"@ + marked(cs, k, e, 1, "> "@, true), e)
        },
        ChangeView::Removed(..) => if pair_at(cs, k, start) {
            let e = pair_run_end(cs, k, start);
            let r = line_range(start, (start + (e - k) / 2 - 1) as nat);
            (r + "c"@ + r + "\n"@ + marked(cs, k, e, 2, "< "@, false) + "---\n"@ + marked(cs, k + 1, e, 2, "> "@, true), e)
        } else {
            let e = rem_run_end(cs, k, start);
            (line_range(start, (start + (e - k) - 1) as nat) + "d"@ + decimal((start - 1) as nat) + "\n"@
                + marked(cs, k, e, 1, "< "@, false), e)
        },
        ChangeView::Added(..) => {
            let e = add_run_end(cs, k, start);
            (decimal((start - 1) as nat) + "a"@ + line_range(start, (start + (e - k) - 1) as nat) + "\n"@
                + marked(cs, k, e, 1, "> "@, true), e)
        },
    }
}

/// The classic diff of `cs[k..]`.
pub open spec fn classic_from(cs: Seq<ChangeView>, k: int) -> Seq<char>
    decreases cs.len() - k,
{
    if k < 0 || k >= cs.len() {
        Seq::empty()
    } else {
        let (text, next) = classic_chunk(cs, k);
        if next <= k || next > cs.len() {
            Seq::empty()
        } else {
            text + classic_from(cs, next)
        }
    }
}

/// The changes in the format of POSIX `diff`: `NcM`, `NaM` and `NdM`
/// commands followed by `< old` / `> new` lines.
pub open spec fn spec_format_classic_diff(cs: Seq<ChangeView>) -> Seq<char> {
    classic_from(cs, 0)
}

/// `start` alone, or `start,end`.
pub fn format_line_range(start: usize, end: usize) -> (s: String)
    ensures
        s@ == line_range(start as nat, end as nat),
{
    let mut out: Vec<char> = Vec::new();
    push_line_range(&mut out, start, end);
    assert(out@ =~= line_range(start as nat, end as nat));
    chars_to_string(out.as_slice())
}

fn push_line_range(out: &mut Vec<char>, start: usize, end: usize)
    ensures
        final(out)@ == old(out)@ + line_range(start as nat, end as nat),
{
    push_decimal(out, start);
    if start != end {
        push_str(out, ",");
        push_decimal(out, end);
    }
    assert(final(out)@ =~= old(out)@ + line_range(start as nat, end as nat));
}

fn line_of(c: &DiffChange) -> (l: usize)
    ensures
        l as nat == change_line_no(c@),
{
    match c {
        DiffChange::Added(l, _) => *l,
        DiffChange::Removed(l, _) => *l,
        DiffChange::Modified(l, _, _) => *l,
    }
}

fn text_of(c: &DiffChange, new_side: bool) -> (t: &str)
    ensures
        t@ == change_text(c@, new_side),
{
    match c {
        DiffChange::Added(_, t) => t.as_str(),
        DiffChange::Removed(_, t) => t.as_str(),
        DiffChange::Modified(_, o, n) => if new_side { n.as_str() } else { o.as_str() },
    }
}

/// 0 = added, 1 = removed, 2 = modified.
fn kind_of(c: &DiffChange) -> (k: u8)
    ensures
        k == 0 <==> c@ is Added,
        k == 1 <==> c@ is Removed,
        k == 2 <==> c@ is Modified,
        k <= 2,
{
    match c {
        DiffChange::Added(..) => 0,
        DiffChange::Removed(..) => 1,
        DiffChange::Modified(..) => 2,
    }
}

/// The end of the run of changes of kind `kind` on consecutive lines from `line`.
fn run_end(changes: &Vec<DiffChange>, k: usize, line: usize, kind: u8) -> (e: usize)
    requires
        k < changes@.len(),
        classic_ready(change_views(changes@)),
        change_line_no(change_views(changes@)[k as int]) == line,
        kind_of_view(change_views(changes@)[k as int]) == kind,
    ensures
        k < e <= changes@.len(),
        kind == 0 ==> e == add_run_end(change_views(changes@), k as int, line as nat),
        kind == 1 ==> e == rem_run_end(change_views(changes@), k as int, line as nat),
        kind == 2 ==> e == mod_run_end(change_views(changes@), k as int, line as nat),
        e - k + line <= usize::MAX,
{
    let ghost cs = change_views(changes@);
    let ghost k0 = k as int;
    let ghost line0 = line as nat;
    let n = changes.len();
    let mut e = k;
    let mut l = line;
    loop
        invariant
            cs == change_views(changes@),
            n == cs.len(),
            k0 == k,
            line0 == line,
            classic_ready(cs),
            k0 <= e < cs.len(),
            l == line0 + (e - k0),
            change_line_no(cs[e as int]) == l,
            kind_of_view(cs[e as int]) == kind,
            kind == 0 ==> add_run_end(cs, k0, line0) == add_run_end(cs, e as int, l as nat),
            kind == 1 ==> rem_run_end(cs, k0, line0) == rem_run_end(cs, e as int, l as nat),
            kind == 2 ==> mod_run_end(cs, k0, line0) == mod_run_end(cs, e as int, l as nat),
        decreases cs.len() - e,
    {
        assert(1 <= change_line_no(cs[e as int]) < usize::MAX);
        assert(kind == 0 ==> add_run_end(cs, e as int, l as nat) == add_run_end(cs, e + 1, (l + 1) as nat));
        assert(kind == 1 ==> rem_run_end(cs, e as int, l as nat) == rem_run_end(cs, e + 1, (l + 1) as nat));
        assert(kind == 2 ==> mod_run_end(cs, e as int, l as nat) == mod_run_end(cs, e + 1, (l + 1) as nat));
        if e + 1 >= n {
            assert(e + 1 == cs.len());
            return e + 1;
        }
        let next = &changes[e + 1];
        assert(next@ == cs[e + 1]);
        let same = kind_of(next) == kind && line_of(next) == l + 1;
        if !same {
            assert(kind_of_view(cs[e + 1]) != kind || change_line_no(cs[e + 1]) != l + 1);
            return e + 1;
        }
        e = e + 1;
        l = l + 1;
    }
}

pub open spec fn kind_of_view(c: ChangeView) -> u8 {
    match c {
        ChangeView::Added(..) => 0,
        ChangeView::Removed(..) => 1,
        ChangeView::Modified(..) => 2,
    }
}


/// The end of the run of removal/addition pairs on consecutive lines from `line`.
fn pair_run_end_exec(changes: &Vec<DiffChange>, k: usize, line: usize) -> (e: usize)
    requires
        classic_ready(change_views(changes@)),
        pair_at(change_views(changes@), k as int, line as nat),
    ensures
        e == pair_run_end(change_views(changes@), k as int, line as nat),
        k < e <= changes@.len(),
        (e - k) % 2 == 0,
        (e - k) / 2 + line <= usize::MAX,
{
    let ghost cs = change_views(changes@);
    let ghost k0 = k as int;
    let ghost line0 = line as nat;
    let n = changes.len();
    let mut e = k;
    let mut l = line;
    loop
        invariant
            cs == change_views(changes@),
            n == cs.len(),
            k0 == k,
            line0 == line,
            classic_ready(cs),
            k0 <= e,
            (e - k0) % 2 == 0,
            l == line0 + (e - k0) / 2,
            pair_at(cs, e as int, l as nat),
            pair_run_end(cs, k0, line0) == pair_run_end(cs, e as int, l as nat),
        decreases cs.len() - e,
    {
        assert(1 <= change_line_no(cs[e as int]) < usize::MAX);
        assert(pair_run_end(cs, e as int, l as nat) == pair_run_end(cs, e + 2, (l + 1) as nat));
        let e2 = e + 2;
        let more = if n - e2 > 1 {
            let a = &changes[e2];
            let b = &changes[e2 + 1];
            assert(a@ == cs[e2 as int]);
            assert(b@ == cs[e2 + 1]);
            kind_of(a) == 1 && kind_of(b) == 0 && line_of(a) == l + 1 && line_of(b) == l + 1
        } else {
            false
        };
        if !more {
            assert(!pair_at(cs, e2 as int, (l + 1) as nat));
            return e2;
        }
        e = e2;
        l = l + 1;
    }
}

/// Appends `marker` + text + newline for `changes[k]`, `changes[k + step]`, ... below `e`.
fn push_marked(out: &mut Vec<char>, changes: &Vec<DiffChange>, k: usize, e: usize, step: usize, marker: &str, new_side: bool)
    requires
        e <= changes@.len(),
        1 <= step <= 2,
    ensures
        final(out)@ == old(out)@ + marked(change_views(changes@), k as int, e as int, step as int, marker@, new_side),
{
    let ghost cs = change_views(changes@);
    let mut q = k;
    assert(out@ + marked(cs, k as int, e as int, step as int, marker@, new_side) =~= old(out)@ + marked(cs, k as int, e as int, step as int, marker@, new_side));
    while q < e
        invariant
            cs == change_views(changes@),
            e <= cs.len(),
            1 <= step <= 2,
            out@ + marked(cs, q as int, e as int, step as int, marker@, new_side)
                == old(out)@ + marked(cs, k as int, e as int, step as int, marker@, new_side),
        decreases e - q,
    {
        let ghost before = out@;
        let c = &changes[q];
        assert(c@ == cs[q as int]);
        push_str(out, marker);
        push_str(out, text_of(c, new_side));
        push_str(out, "\n");
        let next = if e - q < step { e } else { q + step };
        assert(marked(cs, (q + step) as int, e as int, step as int, marker@, new_side)
            == marked(cs, next as int, e as int, step as int, marker@, new_side));
        assert(before + marked(cs, q as int, e as int, step as int, marker@, new_side)
            =~= out@ + marked(cs, next as int, e as int, step as int, marker@, new_side));
        q = next;
    }
}

/// The `c` hunk for a run of modifications at `changes[index]`.
fn push_modified_run(out: &mut Vec<char>, changes: &Vec<DiffChange>, index: usize, start: usize) -> (e: usize)
    requires
        index < changes@.len(),
        classic_ready(change_views(changes@)),
        change_views(changes@)[index as int] is Modified,
        change_line_no(change_views(changes@)[index as int]) == start,
    ensures
        e == classic_chunk(change_views(changes@), index as int).1,
        final(out)@ == old(out)@ + classic_chunk(change_views(changes@), index as int).0,
        index < e <= changes@.len(),
{
    let ghost cs = change_views(changes@);
    let e = run_end(changes, index, start, 2);
    let last = start + (e - index) - 1;
    push_line_range(out, start, last);
    push_str(out, "c");
    push_line_range(out, start, last);
    push_str(out, "\n");
    push_marked(out, changes, index, e, 1, "< ", false);
    push_str(out, "---\n");
    push_marked(out, changes, index, e, 1, "> ", true);
    assert(final(out)@ =~= old(out)@ + classic_chunk(cs, index as int).0);
    e
}

/// The `c` hunk for a run of removal/addition pairs at `changes[index]`.
fn push_paired_run(out: &mut Vec<char>, changes: &Vec<DiffChange>, index: usize, start: usize) -> (e: usize)
    requires
        classic_ready(change_views(changes@)),
        pair_at(change_views(changes@), index as int, start as nat),
    ensures
        e == classic_chunk(change_views(changes@), index as int).1,
        final(out)@ == old(out)@ + classic_chunk(change_views(changes@), index as int).0,
        index < e <= changes@.len(),
{
    let ghost cs = change_views(changes@);
    let e = pair_run_end_exec(changes, index, start);
    let last = start + (e - index) / 2 - 1;
    push_line_range(out, start, last);
    push_str(out, "c");
    push_line_range(out, start, last);
    push_str(out, "\n");
    push_marked(out, changes, index, e, 2, "< ", false);
    push_str(out, "---\n");
    push_marked(out, changes, index + 1, e, 2, "> ", true);
    assert(final(out)@ =~= old(out)@ + classic_chunk(cs, index as int).0);
    e
}

/// The `a` hunk for a run of additions at `changes[index]`.
fn push_added_run(out: &mut Vec<char>, changes: &Vec<DiffChange>, index: usize, start: usize) -> (e: usize)
    requires
        index < changes@.len(),
        classic_ready(change_views(changes@)),
        change_views(changes@)[index as int] is Added,
        change_line_no(change_views(changes@)[index as int]) == start,
    ensures
        e == classic_chunk(change_views(changes@), index as int).1,
        final(out)@ == old(out)@ + classic_chunk(change_views(changes@), index as int).0,
        index < e <= changes@.len(),
{
    let ghost cs = change_views(changes@);
    assert(1 <= change_line_no(cs[index as int]) < usize::MAX);
    let e = run_end(changes, index, start, 0);
    let last = start + (e - index) - 1;
    push_decimal(out, start - 1);
    push_str(out, "a");
    push_line_range(out, start, last);
    push_str(out, "\n");
    push_marked(out, changes, index, e, 1, "> ", true);
    assert(final(out)@ =~= old(out)@ + classic_chunk(cs, index as int).0);
    e
}

/// The `d` hunk for a run of removals at `changes[index]`.
fn push_removed_run(out: &mut Vec<char>, changes: &Vec<DiffChange>, index: usize, start: usize) -> (e: usize)
    requires
        index < changes@.len(),
        classic_ready(change_views(changes@)),
        change_views(changes@)[index as int] is Removed,
        !pair_at(change_views(changes@), index as int, start as nat),
        change_line_no(change_views(changes@)[index as int]) == start,
    ensures
        e == classic_chunk(change_views(changes@), index as int).1,
        final(out)@ == old(out)@ + classic_chunk(change_views(changes@), index as int).0,
        index < e <= changes@.len(),
{
    let ghost cs = change_views(changes@);
    assert(1 <= change_line_no(cs[index as int]) < usize::MAX);
    let e = run_end(changes, index, start, 1);
    let last = start + (e - index) - 1;
    push_line_range(out, start, last);
    push_str(out, "d");
    push_decimal(out, start - 1);
    push_str(out, "\n");
    push_marked(out, changes, index, e, 1, "< ", false);
    assert(final(out)@ =~= old(out)@ + classic_chunk(cs, index as int).0);
    e
}

/// Appends the classic hunk at `changes[index]` and returns where the next
/// one starts.
fn push_classic_chunk(out: &mut Vec<char>, changes: &Vec<DiffChange>, index: usize) -> (e: usize)
    requires
        index < changes@.len(),
        classic_ready(change_views(changes@)),
    ensures
        e == classic_chunk(change_views(changes@), index as int).1,
        final(out)@ == old(out)@ + classic_chunk(change_views(changes@), index as int).0,
        index < e <= changes@.len(),
{
    let ghost cs = change_views(changes@);
    let n = changes.len();
    let c = &changes[index];
    assert(c@ == cs[index as int]);
    let start = line_of(c);
    let kind = kind_of(c);
    if kind == 2 {
        return push_modified_run(out, changes, index, start);
    }
    let paired = if kind == 1 && n - index > 1 {
        let d = &changes[index + 1];
        assert(d@ == cs[index + 1]);
        kind_of(d) == 0 && line_of(d) == start
    } else {
        false
    };
    assert(paired == pair_at(cs, index as int, start as nat));
    if paired {
        push_paired_run(out, changes, index, start)
    } else if kind == 0 {
        push_added_run(out, changes, index, start)
    } else {
        push_removed_run(out, changes, index, start)
    }
}

/// The changes in the format of POSIX `diff` (the never-worse fallback):
/// `NcM`, `NaM` and `NdM` commands followed by `< old` / `> new` lines.
pub fn format_classic_diff(diff: &DiffResult) -> (s: String)
    requires
        classic_ready(diff@.changes),
    ensures
        s@ == spec_format_classic_diff(diff@.changes),
{
    let changes = &diff.changes;
    let ghost cs = change_views(changes@);
    let n = changes.len();
    let mut out: Vec<char> = Vec::new();
    let mut index: usize = 0;
    assert(out@ + classic_from(cs, 0) =~= classic_from(cs, 0));
    while index < n
        invariant
            cs == change_views(changes@),
            n == cs.len(),
            classic_ready(cs),
            index <= n,
            out@ + classic_from(cs, index as int) == classic_from(cs, 0),
        decreases n - index,
    {
        let ghost before = out@;
        let e = push_classic_chunk(&mut out, changes, index);
        assert(classic_from(cs, index as int) == classic_chunk(cs, index as int).0 + classic_from(cs, e as int));
        assert(out@ + classic_from(cs, e as int) =~= before + classic_from(cs, index as int));
        index = e;
    }
    assert(out@ + classic_from(cs, index as int) =~= out@);
    chars_to_string(out.as_slice())
}

} // verus!
