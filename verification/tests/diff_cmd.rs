use rtk::line_diff::{compute_diff, DiffChange};
use rtk::line_diff_spec::LCS_CELL_CAP;
use rtk::render::{
    format_classic_diff, format_diff_changes, render_diff, render_file_diff,
    select_file_diff_output, tracking_baseline,
};
use rtk::stdin::condense_stdin;
use rtk::tokens::estimate_tokens;
use rtk::unified::condense_unified_diff_strict;

/// Byte-level render for a pair of contents, the shape the identity-check
/// tests exercise.
fn render_contents(file1: &str, file2: &str, content1: &str, content2: &str) -> (String, i32) {
    let lines1: Vec<&str> = content1.lines().collect();
    let lines2: Vec<&str> = content2.lines().collect();
    render_file_diff(file1, file2, content1, content2, &compute_diff(&lines1, &lines2))
}

/// Condense strictly, and on structural disagreement pass the input through
/// unchanged rather than risk silent loss.
fn condense_unified_diff(diff: &str) -> String {
    condense_unified_diff_strict(diff).unwrap_or_else(|| diff.to_string())
}

// --- compute_diff ---
#[test]
fn test_compute_diff_identical() {
    let a = vec!["line1", "line2", "line3"];
    let b = vec!["line1", "line2", "line3"];
    let result = compute_diff(&a, &b);
    assert_eq!(result.added, 0);
    assert_eq!(result.removed, 0);
    assert_eq!(result.modified, 0);
    assert!(result.changes.is_empty());
}


#[test]
fn test_compute_diff_added_lines() {
    let a = vec!["line1"];
    let b = vec!["line1", "line2", "line3"];
    let result = compute_diff(&a, &b);
    assert_eq!(result.added, 2);
    assert_eq!(result.removed, 0);
}


#[test]
fn test_compute_diff_removed_lines() {
    let a = vec!["line1", "line2", "line3"];
    let b = vec!["line1"];
    let result = compute_diff(&a, &b);
    assert_eq!(result.removed, 2);
    assert_eq!(result.added, 0);
}


#[test]
fn test_compute_diff_modified_line() {
    // Similar lines (>0.5 similarity) are classified as modified
    let a = vec!["let x = 1;"];
    let b = vec!["let x = 2;"];
    let result = compute_diff(&a, &b);
    assert_eq!(result.modified, 1);
    assert_eq!(result.added, 0);
    assert_eq!(result.removed, 0);
}


#[test]
fn test_compute_diff_completely_different_line() {
    // Dissimilar lines (<= 0.5 similarity) are added+removed, not modified
    let a = vec!["aaaa"];
    let b = vec!["zzzz"];
    let result = compute_diff(&a, &b);
    assert_eq!(result.modified, 0);
    assert_eq!(result.added, 1);
    assert_eq!(result.removed, 1);
}


#[test]
fn test_compute_diff_empty_inputs() {
    let result = compute_diff(&[], &[]);
    assert_eq!(result.added, 0);
    assert_eq!(result.removed, 0);
    assert!(result.changes.is_empty());
}


// --- compute_diff: LCS alignment, not positional ---
#[test]
fn test_compute_diff_single_insertion_does_not_desync_the_tail() {
    // The bug: positional compare paired a[i] against b[i], so inserting one
    // line at the top made every later pair compare unrelated lines and the
    // whole file rendered as changed.
    let a = vec!["one", "two", "three", "four", "five"];
    let b = vec!["INSERTED", "one", "two", "three", "four", "five"];
    let result = compute_diff(&a, &b);
    assert_eq!(result.added, 1, "exactly one line was added");
    assert_eq!(result.removed, 0, "nothing was removed");
    assert_eq!(result.modified, 0, "nothing was modified");
    assert_eq!(result.changes.len(), 1);
    match &result.changes[0] {
        DiffChange::Added(line, text) => {
            assert_eq!(text, "INSERTED");
            assert_eq!(*line, 1);
        }
        other => panic!("expected a single Added, got {:?}", other),
    }
}


#[test]
fn test_compute_diff_insertion_in_the_middle() {
    let a = vec!["a", "b", "c", "d"];
    let b = vec!["a", "b", "NEW", "c", "d"];
    let result = compute_diff(&a, &b);
    assert_eq!((result.added, result.removed, result.modified), (1, 0, 0));
}


#[test]
fn test_compute_diff_deletion_in_the_middle() {
    let a = vec!["a", "b", "GONE", "c", "d"];
    let b = vec!["a", "b", "c", "d"];
    let result = compute_diff(&a, &b);
    assert_eq!((result.added, result.removed, result.modified), (0, 1, 0));
    match &result.changes[0] {
        DiffChange::Removed(line, text) => {
            assert_eq!(text, "GONE");
            assert_eq!(*line, 3, "line number is the old file's");
        }
        other => panic!("expected Removed, got {:?}", other),
    }
}


#[test]
fn test_compute_diff_reports_line_numbers_after_a_shift() {
    // A change *after* an insertion must still name its own line, not an
    // offset one.
    let a = vec!["a", "b", "let x = 1;"];
    let b = vec!["NEW", "a", "b", "let x = 2;"];
    let result = compute_diff(&a, &b);
    assert_eq!(result.added, 1);
    assert_eq!(result.modified, 1);
    assert!(result
        .changes
        .iter()
        .any(|c| matches!(c, DiffChange::Modified(3, old, new)
            if old == "let x = 1;" && new == "let x = 2;")));
}


#[test]
fn test_compute_diff_wholesale_replacement_still_pairs_by_similarity() {
    let a = vec!["let x = 1;", "aaaa"];
    let b = vec!["let x = 2;", "zzzz"];
    let result = compute_diff(&a, &b);
    // First pair is similar -> Modified; second is not -> Removed + Added.
    assert_eq!(result.modified, 1);
    assert_eq!(result.added, 1);
    assert_eq!(result.removed, 1);
}


#[test]
fn test_compute_diff_over_cell_cap_emits_wholesale_replacement() {
    // 2001 x 2001 = 4_004_001 cells > LCS_CELL_CAP, so the cap branch must
    // fire: no LCS table, every middle line reported as removed + added,
    // with line numbers from each line's own file. Sides share no prefix,
    // suffix, or interior lines, so nothing is trimmed or matched away.
    let a: Vec<String> = (0..2001).map(|i| format!("alpha {}", i)).collect();
    let b: Vec<String> = (0..2001).map(|i| format!("brave {}", i)).collect();
    let a_refs: Vec<&str> = a.iter().map(|s| s.as_str()).collect();
    let b_refs: Vec<&str> = b.iter().map(|s| s.as_str()).collect();
    assert!(
        a_refs.len().saturating_mul(b_refs.len()) > LCS_CELL_CAP,
        "fixture must exceed the cell cap"
    );

    let result = compute_diff(&a_refs, &b_refs);
    assert_eq!(result.removed, 2001, "every old line reported removed");
    assert_eq!(result.added, 2001, "every new line reported added");
    assert!(result
        .changes
        .iter()
        .any(|c| matches!(c, DiffChange::Removed(1, t) if t == "alpha 0")));
    assert!(result
        .changes
        .iter()
        .any(|c| matches!(c, DiffChange::Added(2001, t) if t == "brave 2000")));
}


// --- render_file_diff (issue #2364 regression) ---
#[test]
fn test_render_modified_only_yaml_not_identical() {
    // "a: 1" vs "a: 2" is classified as modified (similarity > 0.5);
    // the identical check must not ignore modified-only diffs.
    let diff = compute_diff(&["a: 1"], &["a: 2"]);
    let (out, code) = render_diff("one.yaml", "two.yaml", &diff);
    assert!(
        !out.contains("identical"),
        "modified-only diff reported as identical:\n{}",
        out
    );
    assert!(out.contains("~1 modified"));
    assert!(out.contains("a: 1"));
    assert!(out.contains("a: 2"));
    assert_eq!(code, 1, "differing files must exit 1 (diff convention)");
}


#[test]
fn test_render_crlf_difference_is_not_identical() {
    // `str::lines()` strips a trailing `\r`, so a CRLF-vs-LF file pair used
    // to collapse to identical line vectors and report "[ok] Files are
    // identical" with exit 0. `cmp` says these differ at byte 6.
    let (out, code) = render_contents(
        "a.txt",
        "b.txt",
        "keep1\nkeep2\nkeep3\n",
        "keep1\r\nkeep2\r\nkeep3\n",
    );
    assert!(
        !out.contains("identical"),
        "CRLF-vs-LF reported as identical:\n{}",
        out
    );
    assert_eq!(code, 1, "differing files must exit 1");
    assert!(out.contains("0 CRLF vs 2 CRLF"), "got: {}", out);
}


#[test]
fn test_render_trailing_newline_difference_is_not_identical() {
    // The other thing `lines()` normalizes: the final newline is optional.
    let (out, code) = render_contents(
        "a.txt",
        "b.txt",
        "keep1\nkeep2\n",
        "keep1\nkeep2",
    );
    assert!(
        !out.contains("identical"),
        "trailing-newline diff reported as identical:\n{}",
        out
    );
    assert_eq!(code, 1);
    assert!(out.contains("trailing newline: present vs absent"), "got: {}", out);
}


#[test]
fn test_render_byte_identical_is_identical() {
    // The guard must not flip the true-identity case to a false positive.
    let (out, code) = render_contents(
        "a.txt",
        "b.txt",
        "keep1\nkeep2\n",
        "keep1\nkeep2\n",
    );
    assert!(out.contains("[ok] Files are identical"));
    assert_eq!(code, 0);
}


#[test]
fn test_render_partial_crlf_matches_reported_repro() {
    // The shape actually observed: a 200-line file where a Windows editor
    // touched 24 lines. Text identical, bytes differ, `cmp` exits 1.
    let plain: String = (0..200).map(|i| format!("line {} content here\n", i)).collect();
    let mixed: String = (0..200)
        .map(|i| {
            if (50..74).contains(&i) {
                format!("line {} content here\r\n", i)
            } else {
                format!("line {} content here\n", i)
            }
        })
        .collect();
    assert_ne!(plain, mixed, "fixture must actually differ");

    let (out, code) = render_contents("a.txt", "b.txt", &plain, &mixed);
    assert!(!out.contains("identical"), "got: {}", out);
    assert_eq!(code, 1, "must exit 1 so a `diff` gate fails");
    assert!(out.contains("0 CRLF vs 24 CRLF"), "got: {}", out);
}


#[test]
fn test_render_modified_only_json_not_identical() {
    let diff = compute_diff(&["{\"a\": 1}"], &["{\"a\": 2}"]);
    let (out, code) = render_diff("j1.json", "j2.json", &diff);
    assert!(
        !out.contains("identical"),
        "modified-only diff reported as identical:\n{}",
        out
    );
    assert_eq!(code, 1);
}


#[test]
fn test_render_identical_files_exit_zero() {
    let diff = compute_diff(&["a: 1", "b: 2"], &["a: 1", "b: 2"]);
    let (out, code) = render_diff("a.yaml", "b.yaml", &diff);
    assert!(out.contains("[ok] Files are identical"));
    assert_eq!(code, 0);
}


#[test]
fn test_render_added_removed_exit_one() {
    let diff = compute_diff(&["x"], &["y"]);
    let (out, code) = render_diff("t1.txt", "t2.txt", &diff);
    assert!(out.contains("+1 added, -1 removed"));
    assert_eq!(code, 1);
}


#[test]
fn test_never_worse_fallback_is_a_classic_diff() {
    let diff = compute_diff(&["alpha beta"], &["alpha zzzz"]);
    let fallback = format_classic_diff(&diff);
    let (rendered, code) = render_diff("before", "after", &diff);
    let shown = select_file_diff_output(&diff, &fallback, &rendered);

    assert_eq!(code, 1);
    assert!(shown.contains("1c1"));
    assert!(shown.contains("< alpha beta"));
    assert!(shown.contains("\n---\n"));
    assert!(shown.contains("> alpha zzzz"));
}


#[test]
fn test_tracking_baseline_never_books_a_loss() {
    // Two unrelated files: the classic diff carries both of them plus the
    // "< " / "> " markers, so it is bigger than a plain dump. Measuring
    // against the dump used to record negative savings.
    let old: Vec<String> = (0..40).map(|i| format!("old line {i}")).collect();
    let new: Vec<String> = (0..40).map(|i| format!("brand new content {i}")).collect();
    let r1: Vec<&str> = old.iter().map(|s| s.as_str()).collect();
    let r2: Vec<&str> = new.iter().map(|s| s.as_str()).collect();

    let diff = compute_diff(&r1, &r2);
    let fallback = format_classic_diff(&diff);
    let both_files = format!("{}\n---\n{}", old.join("\n"), new.join("\n"));
    let (rendered, _) = render_diff("a", "b", &diff);
    let shown = select_file_diff_output(&diff, &fallback, &rendered);
    let baseline = tracking_baseline(&diff, &fallback, &both_files, shown);

    assert!(
        estimate_tokens(baseline) >= estimate_tokens(shown),
        "baseline {} < shown {} would record negative savings",
        estimate_tokens(baseline),
        estimate_tokens(shown)
    );
}


#[test]
fn test_tracking_baseline_identical_files_use_both_files() {
    let diff = compute_diff(&["a: 1", "b: 2"], &["a: 1", "b: 2"]);
    let both_files = "a: 1\nb: 2\n\n---\na: 1\nb: 2\n";
    let shown = "[ok] Files are identical\n";

    assert_eq!(
        tracking_baseline(&diff, "", both_files, shown),
        both_files,
        "identical files should still measure against the dump"
    );
}


#[test]
fn test_tracking_baseline_empty_files_do_not_book_a_loss() {
    // Both files empty: the dump is shorter than the verdict line.
    let diff = compute_diff(&[], &[]);
    let shown = "[ok] Files are identical\n";

    assert_eq!(tracking_baseline(&diff, "", "\n---\n", shown), shown);
}


#[test]
fn test_identical_files_keep_the_success_message() {
    let diff = compute_diff(&["same"], &["same"]);
    let rendered = "[ok] Files are identical\n";

    assert_eq!(select_file_diff_output(&diff, "", rendered), rendered);
}


#[test]
fn test_classic_diff_covers_modified_line_boundary_cases() {
    for (old, new) in [
        ("alpha beta gamma delta", "alpha beta XXXXX delta"),
        ("alpha beta gamma", "alpha beta"),
        ("alpha beta gamma delta", "XXXXX beta gamma delta"),
    ] {
        let diff = compute_diff(&[old], &[new]);
        let fallback = format_classic_diff(&diff);

        assert!(fallback.contains(&format!("< {old}")));
        assert!(fallback.contains(&format!("> {new}")));
    }
}


// --- condense_unified_diff ---
#[test]
fn test_condense_unified_diff_single_file() {
    let diff = r#"diff --git a/src/main.rs b/src/main.rs
--- a/src/main.rs
+++ b/src/main.rs
@@ -1,3 +1,4 @@
 fn main() {
+    println!("hello");
 println!("world");
 }
"#;
    let result = condense_unified_diff(diff);
    assert!(result.contains("src/main.rs"));
    assert!(result.contains("+1"));
    assert!(result.contains("println"));
}


#[test]
fn test_condense_unified_diff_multiple_files() {
    let diff = r#"diff --git a/a.rs b/a.rs
--- a/a.rs
+++ b/a.rs
@@ -0,0 +1 @@
+added line
diff --git a/b.rs b/b.rs
--- a/b.rs
+++ b/b.rs
@@ -1 +0,0 @@
-removed line
"#;
    let result = condense_unified_diff(diff);
    assert!(result.contains("[file] a.rs (+1 -0)"));
    assert!(result.contains("[file] b.rs (+0 -1)"));
}


#[test]
fn test_condense_unified_diff_markers_at_column_0() {
    // Same silent-false-negative class as compact_diff (#118 / upstream
    // #3646): indented markers make anchored greps (`^[+-]`) match nothing.
    //
    // Two files on purpose. A file's changes are flushed at two separate
    // sites: once per `+++` for the preceding file, once after the loop for
    // the last one. A single-file fixture only ever reaches the second, so
    // the first could be reverted with the whole suite still green.
    let diff = "diff --git a/a.rs b/a.rs\n--- a/a.rs\n+++ b/a.rs\n@@ -1 +1 @@\n-fn old() {}\n+fn new() {}\ndiff --git a/b.rs b/b.rs\n--- a/b.rs\n+++ b/b.rs\n@@ -1 +1 @@\n-let x = 1;\n+let x = 2;\n";
    let result = condense_unified_diff(diff);
    for want in ["-fn old() {}", "+fn new() {}", "-let x = 1;", "+let x = 2;"] {
        assert!(
            result.lines().any(|l| l == want),
            "missing {want:?} at column 0 in:\n{}",
            result
        );
    }
    // Match on leading whitespace rather than a single space: the indent
    // this guards against is two spaces, so `" +"` / `" -"` would never
    // fire and the assertion would pass on the very code it rejects.
    assert!(
        !result.lines().any(|l| {
            let trimmed = l.trim_start();
            trimmed.len() != l.len()
                && (trimmed.starts_with('+') || trimmed.starts_with('-'))
        }),
        "change lines must not be indented:\n{}",
        result
    );
}


#[test]
fn test_condense_unified_diff_empty() {
    let result = condense_unified_diff("");
    assert!(result.is_empty());
}


// --- truncation accuracy ---
fn make_large_unified_diff(added: usize, removed: usize) -> String {
    let mut lines = vec![
        "diff --git a/config.yaml b/config.yaml".to_string(),
        "--- a/config.yaml".to_string(),
        "+++ b/config.yaml".to_string(),
        format!("@@ -1,{} +1,{} @@", removed, added),
    ];
    for i in 0..removed {
        lines.push(format!("-old_value_{}", i));
    }
    for i in 0..added {
        lines.push(format!("+new_value_{}", i));
    }
    lines.join("\n")
}


#[test]
fn test_condense_unified_diff_never_claims_truncation() {
    // The filter never truncates content, so the old "  ... +N more"
    // trailer was a lie: it claimed 190 lines were elided while all 200
    // were printed right above it. Every change line must be present and
    // no truncation claim made.
    let diff = make_large_unified_diff(100, 100);
    let result = condense_unified_diff(&diff);
    assert!(
        !result.contains("more"),
        "trailer claims truncation that never happens:\n{}",
        result
    );
    assert!(result.contains("(+100 -100)"), "got:\n{}", result);
    for want in ["-old_value_0", "-old_value_99", "+new_value_0", "+new_value_99"] {
        assert!(
            result.lines().any(|l| l == want),
            "missing {want:?} in:\n{}",
            result
        );
    }
}


#[test]
fn fact_lines_in_mbox_prose_stay_prose() {
    // A commit message can start a column-0 line with `Only in ` or
    // `Submodule `; inside an mbox message region those are prose, not
    // facts (rule 6 suppression).
    let diff = "From 0e7632a01b00c70cbc9dafcf1f23c71fa6b10de1 Mon Sep 17 00:00:00 2001\nSubject: [PATCH] x\n\nOnly in b: spurious.txt\nSubmodule notes 1..2 were rewritten\n---\ndiff --git a/f b/f\n--- a/f\n+++ b/f\n@@ -1 +1 @@\n-x\n+y\n";
    let out = condense_unified_diff(diff);
    assert!(
        !out.contains("spurious.txt") && !out.contains("submodule"),
        "mbox prose promoted to fact entries:\n{out}"
    );
    assert!(out.contains("[file] f (+1 -1)"), "got:\n{out}");
}


#[test]
fn stray_header_pair_without_a_hunk_falls_back_to_raw() {
    // A lying budget can leave `--- x` / `+++ y` leftovers outside any
    // hunk; consuming them as a phantom file header would silently lose
    // both lines. A pair not followed by `@@` is not a header.
    let diff =
        "--- a/f\n+++ b/f\n@@ -1 +1 @@\n-old\n+new\n--- stray removed\n+++ stray added\n";
    assert!(condense_unified_diff_strict(diff).is_none());
    assert_eq!(condense_unified_diff(diff), diff);
}


#[test]
fn signature_tolerance_requires_an_mbox_stream() {
    // A bare `--` leftover in a plain (non-mbox) stream is stale-budget
    // evidence, not a signature; only format-patch streams (which always
    // open with `From <sha>`) earn the rule-6 exclusion.
    let plain = "--- a/f\n+++ b/f\n@@ -1 +1 @@\n-old\n+new\n--\n";
    assert!(condense_unified_diff_strict(plain).is_none());
}


#[test]
fn short_line_inside_hunk_falls_back_to_raw() {
    // A line shorter than the prefix width while a budget is open is a
    // mangled patch (mailers strip trailing whitespace); guessing it into
    // context would silently absorb damage, so it must fall back.
    let diff = "--- a/f\n+++ b/f\n@@ -1,2 +1,2 @@\n-old\n\n+new\n ctx\n";
    assert!(condense_unified_diff_strict(diff).is_none());
}


// --- condense_stdin: the decode → strip-ANSI → parse → guard pipeline ---
#[test]
fn stdin_strips_ansi_before_parsing() {
    // Reproducer 9: `git diff --color` through a pipe used to condense to
    // a silently empty result.
    let colored = "\u{1b}[1mdiff --git a/x b/x\u{1b}[m\n\u{1b}[1m--- a/x\u{1b}[m\n\u{1b}[1m+++ b/x\u{1b}[m\n\u{1b}[36m@@ -1 +1 @@\u{1b}[m\n\u{1b}[31m-old_line_content\u{1b}[m\n\u{1b}[32m+new_line_content\u{1b}[m\n";
    let out = condense_stdin(colored.as_bytes()).expect("colored diff must parse");
    assert!(out.contains("[file] x (+1 -1)"), "got:\n{out}");
    assert!(out.lines().any(|l| l == "-old_line_content"));
}


#[test]
fn stdin_non_utf8_non_diff_falls_back_to_exact_bytes() {
    // Reproducer 10: non-UTF-8 stdin used to be a hard error. When the
    // stream is not a diff, the fallback must signal "emit the exact
    // bytes" — a lossy re-encode of unparsed input would corrupt it.
    let bytes = b"not a diff at all \xff\xfe just text\n";
    assert!(condense_stdin(bytes).is_none());
}


#[test]
fn stdin_non_utf8_diff_takes_the_raw_bytes_path() {
    // Even a parseable diff falls back when its content bytes are not
    // UTF-8: condensing would rewrite the user's bytes to U+FFFD, and
    // byte fidelity outranks savings. (The base code hard-errored here;
    // raw passthrough is strictly better on both counts.)
    let bytes: &[u8] =
        b"diff --git a/x b/x\n--- a/x\n+++ b/x\n@@ -1 +1 @@\n-caf\xe9 old\n+caf\xe9 new\n";
    assert!(condense_stdin(bytes).is_none());
}


#[test]
fn b_prefix_is_stripped_exactly_once() {
    // Reproducer 12 (first half): `trim_start_matches("b/")` stripped
    // repeatedly, so `b/b/x.rs` (a file in a literal `b/` directory)
    // became `x.rs`.
    let diff = "diff --git a/b/x.rs b/b/x.rs\n--- a/b/x.rs\n+++ b/b/x.rs\n@@ -1 +1 @@\n-old\n+new\n";
    let out = condense_unified_diff(diff);
    assert!(out.contains("[file] b/x.rs (+1 -1)"), "got:\n{out}");
}


#[test]
fn understated_budget_falls_back_to_raw() {
    // Reproducer 5 (stale count, under-declared): leftover marked lines
    // after the budget closes are content outside any hunk.
    let diff = "--- a/f\n+++ b/f\n@@ -1,1 +1,1 @@\n-old\n+new\n+leftover the budget missed\n";
    assert!(condense_unified_diff_strict(diff).is_none());
    assert_eq!(condense_unified_diff(diff), diff);
}


#[test]
fn overstated_budget_falls_back_to_raw() {
    // Reproducer 5 (stale count, over-declared): the budget still owes
    // lines when the next file header arrives; the header's `d` fails the
    // body-prefix check.
    let diff = "--- a/f\n+++ b/f\n@@ -1,3 +1,3 @@\n-old\n+new\ndiff --git a/g b/g\n--- a/g\n+++ b/g\n@@ -1 +1 @@\n-x\n+y\n";
    assert!(condense_unified_diff_strict(diff).is_none());
}


#[test]
fn malformed_hunk_header_falls_back_to_raw() {
    let diff = "--- a/f\n+++ b/f\n@@ garbage @@\n-old\n+new\n";
    assert!(condense_unified_diff_strict(diff).is_none());
}


#[test]
fn non_diff_input_passes_through() {
    // `--color` streams, --stat output, plain text: nothing recognizable
    // means raw passthrough, never a silently empty result.
    let ansi = "\u{1b}[1mbold header\u{1b}[m\nplain text\n";
    assert_eq!(condense_unified_diff(ansi), ansi);
    let stat = " main.rs | 3 ++-\n 1 file changed, 2 insertions(+), 1 deletion(-)\n";
    assert_eq!(condense_unified_diff(stat), stat);
}


#[test]
fn empty_zero_zero_hunk_closes_immediately() {
    // Reproducer 6: `@@ -0,0 +0,0 @@` owes nothing; the next line belongs
    // to the following region.
    let diff = "--- a/f\n+++ b/f\n@@ -0,0 +0,0 @@\ndiff --git a/g b/g\n--- a/g\n+++ b/g\n@@ -1 +1 @@\n-x\n+y\n";
    let out = condense_unified_diff(diff);
    assert!(out.contains("[file] g (+1 -1)"), "got:\n{out}");
}


#[test]
fn test_no_truncation_large_diff() {
    // Verify compute_diff returns all changes without truncation
    let mut a = Vec::new();
    let mut b = Vec::new();
    for i in 0..500 {
        a.push(format!("line_{}", i));
        if i % 3 == 0 {
            b.push(format!("CHANGED_{}", i));
        } else {
            b.push(format!("line_{}", i));
        }
    }
    let a_refs: Vec<&str> = a.iter().map(|s| s.as_str()).collect();
    let b_refs: Vec<&str> = b.iter().map(|s| s.as_str()).collect();
    let result = compute_diff(&a_refs, &b_refs);

    assert!(
        result.changes.len() > 100,
        "Expected 100+ changes, got {}",
        result.changes.len()
    );
    assert!(!result.changes.is_empty());
}


#[test]
fn test_format_diff_shows_all_changes() {
    let mut a = Vec::new();
    let mut b = Vec::new();
    for i in 0..100 {
        a.push(format!("old_line_{}", i));
        b.push(format!("new_line_{}", i));
    }
    let a_refs: Vec<&str> = a.iter().map(|s| s.as_str()).collect();
    let b_refs: Vec<&str> = b.iter().map(|s| s.as_str()).collect();
    let diff = compute_diff(&a_refs, &b_refs);
    let output = format_diff_changes(&diff);

    assert!(output.contains("old_line_0"), "should contain first change");
    assert!(output.contains("new_line_99"), "should contain last change");
}


#[test]
fn test_long_lines_not_truncated() {
    let long_line = "x".repeat(500);
    let a = vec![long_line.as_str()];
    let b = vec!["short"];
    let result = compute_diff(&a, &b);
    match &result.changes[0] {
        DiffChange::Removed(_, content) | DiffChange::Added(_, content) => {
            assert_eq!(content.len(), 500, "Line was truncated!");
        }
        DiffChange::Modified(_, old, _) => {
            assert_eq!(old.len(), 500, "Line was truncated!");
        }
    }
}

