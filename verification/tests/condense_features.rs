use rtk::ansi::strip_ansi;
use rtk::stdin::condense_stdin;
use rtk::tokens::estimate_tokens;
use rtk::unified::{condense_unified_diff_strict, header_name, is_mbox_from, parse_hunk_header};

fn chars(s: &str) -> Vec<char> {
    s.chars().collect()
}

fn condensed(diff: &str) -> String {
    condense_unified_diff_strict(diff).expect("stream must condense")
}

#[test]
fn rename_only_section_names_its_source() {
    let diff = "diff --git a/old.txt b/new.txt\nsimilarity index 100%\nrename from old.txt\nrename to new.txt\n";
    assert_eq!(condensed(diff), "[file] new.txt (renamed from old.txt)");
}

#[test]
fn copy_section_names_its_source() {
    let diff = "diff --git a/a.rs b/b.rs\nsimilarity index 90%\ncopy from a.rs\ncopy to b.rs\n";
    assert_eq!(condensed(diff), "[file] b.rs (copied from a.rs)");
}

#[test]
fn git_binary_section_is_noted() {
    let diff = "diff --git a/img.png b/img.png\nindex 1111111..2222222 100644\nBinary files a/img.png and b/img.png differ\n";
    assert_eq!(condensed(diff), "[file] img.png (binary)");
}

#[test]
fn standalone_binary_fact_names_the_second_file() {
    assert_eq!(condensed("Binary files dir1/x.bin and dir2/x.bin differ\n"), "[file] dir2/x.bin (binary)");
}

#[test]
fn mode_change_is_noted_once() {
    let diff = "diff --git a/s.sh b/s.sh\nold mode 100644\nnew mode 100755\n";
    assert_eq!(condensed(diff), "[file] s.sh (mode changed)");
}

#[test]
fn empty_new_file_is_reported() {
    let diff = "diff --git a/e.txt b/e.txt\nnew file mode 100644\nindex 0000000..e69de29\n";
    assert_eq!(condensed(diff), "[file] e.txt (new file)");
}

#[test]
fn deletion_takes_the_old_name_and_counts_removals() {
    let diff = "diff --git a/gone.txt b/gone.txt\ndeleted file mode 100644\nindex abc1234..0000000\n--- a/gone.txt\n+++ /dev/null\n@@ -1,2 +0,0 @@\n-one\n-two\n";
    assert_eq!(condensed(diff), "[file] gone.txt (deleted) (+0 -2)\n-one\n-two");
}

#[test]
fn only_in_unmerged_and_submodule_facts_are_entries() {
    assert_eq!(condensed("Only in dir2: extra.txt\n"), "[file] dir2/extra.txt (only in one side)");
    assert_eq!(condensed("* Unmerged path conflict.txt\n"), "[file] conflict.txt (unmerged)");
    assert_eq!(condensed("Submodule lib 1234567..89abcde:\n"), "[file] lib 1234567..89abcde (submodule)");
}

#[test]
fn combined_diff_counts_each_parent_column() {
    let diff = "diff --cc f.txt\nindex 1111111,2222222..3333333\n--- a/f.txt\n+++ b/f.txt\n@@@ -1,1 -1,1 +1,1 @@@\n- main\n -left\n++resolved\n";
    assert_eq!(condensed(diff), "[file] f.txt (+1 -2)\n- main\n -left\n++resolved");
}

#[test]
fn no_newline_markers_are_kept_on_both_sides() {
    let diff = "diff --git a/e.txt b/e.txt\n--- a/e.txt\n+++ b/e.txt\n@@ -1 +1 @@\n-x\n\\ No newline at end of file\n+x\n\\ No newline at end of file\n";
    assert_eq!(
        condensed(diff),
        "[file] e.txt (+1 -1)\n-x\n\\ No newline at end of file\n+x\n\\ No newline at end of file"
    );
}

#[test]
fn crlf_stream_keeps_carriage_returns_in_content() {
    let diff = "--- a/f\r\n+++ b/f\r\n@@ -1 +1 @@\r\n-old\r\n+new\r\n";
    assert_eq!(condensed(diff), "[file] f (+1 -1)\n-old\r\n+new\r");
}

#[test]
fn plain_diff_u_header_drops_the_timestamp() {
    let diff = "--- a.txt\t2026-01-01 10:00:00.000000000 +0000\n+++ b.txt\t2026-01-01 10:00:01.000000000 +0000\n@@ -1 +1 @@\n-a\n+b\n";
    assert_eq!(condensed(diff), "[file] b.txt (+1 -1)\n-a\n+b");
}

#[test]
fn format_patch_prose_and_signature_are_dropped() {
    let diff = "From 0e7632a01b00c70cbc9dafcf1f23c71fa6b10de1 Mon Sep 17 00:00:00 2001\nFrom: A <a@b>\nSubject: [PATCH] fix\n\n- remove the thing\n+ add a note\n---\n f | 2 +-\n 1 file changed\n\ndiff --git a/f b/f\n--- a/f\n+++ b/f\n@@ -1 +1 @@\n-x\n+y\n-- \n2.54.0\n";
    assert_eq!(condensed(diff), "[file] f (+1 -1)\n-x\n+y");
}

#[test]
fn u0_hunks_and_zero_counts_parse() {
    let diff = "--- a/m.rs\n+++ b/m.rs\n@@ -3 +3 @@\n-a\n+b\n@@ -5,0 +6 @@\n+c\n";
    assert_eq!(condensed(diff), "[file] m.rs (+2 -1)\n-a\n+b\n+c");
}

#[test]
fn budget_owed_at_end_of_stream_declines() {
    assert!(condense_unified_diff_strict("--- a/f\n+++ b/f\n@@ -1,3 +1,3 @@\n ctx\n").is_none());
}

#[test]
fn hunk_headers_parse_per_parent() {
    assert_eq!(parse_hunk_header(&chars("@@ -1,2 +3,4 @@ fn main")), Some((vec![2], 4)));
    assert_eq!(parse_hunk_header(&chars("@@ -1 +1 @@")), Some((vec![1], 1)));
    assert_eq!(parse_hunk_header(&chars("@@@ -1,2 -3,4 +5,6 @@@")), Some((vec![2, 4], 6)));
    assert_eq!(parse_hunk_header(&chars("@@ -+1,+2 +1 @@")), Some((vec![2], 1)));
}

#[test]
fn malformed_hunk_headers_are_rejected() {
    assert_eq!(parse_hunk_header(&chars("@@ garbage @@")), None);
    assert_eq!(parse_hunk_header(&chars("@ -1 +1 @")), None);
    assert_eq!(parse_hunk_header(&chars("@@ -1 +1 @@@")), None);
    assert_eq!(parse_hunk_header(&chars("@@ -1,x +1 @@")), None);
    assert_eq!(parse_hunk_header(&chars("@@@@@@@@@@ -1 -1 -1 -1 -1 -1 -1 -1 -1 +1 @@@@@@@@@@")), None);
}

#[test]
fn header_names_strip_one_prefix_and_skip_dev_null() {
    let name = |m: &str, p: &str| header_name(&chars(m), &chars(p)).into_iter().collect::<String>();
    assert_eq!(name("a/b/x.rs", "b/b/x.rs"), "b/x.rs");
    assert_eq!(name("a/gone", "/dev/null"), "gone");
    assert_eq!(name("x\tts", "y\tts"), "y");
}

#[test]
fn mbox_separators_need_a_full_hash() {
    let sha1 = format!("From {} Mon Sep 17 00:00:00 2001", "a".repeat(40));
    let sha256 = format!("From {} Mon Sep 17 00:00:00 2001", "0".repeat(64));
    let short = format!("From {} Mon Sep 17 00:00:00 2001", "a".repeat(39));
    assert!(is_mbox_from(&chars(&sha1)));
    assert!(is_mbox_from(&chars(&sha256)));
    assert!(!is_mbox_from(&chars(&short)));
    assert!(!is_mbox_from(&chars("From: someone")));
}

#[test]
fn ansi_sequences_are_removed() {
    assert_eq!(strip_ansi("\u{1b}[1;31mred\u{1b}[0m"), "red");
    assert_eq!(strip_ansi("\u{1b}[m"), "");
    assert_eq!(strip_ansi("\u{1b}x"), "\u{1b}x");
    assert_eq!(strip_ansi("a\u{1b}[12"), "a\u{1b}[12");
}

#[test]
fn tokens_are_bytes_over_four_rounded_up() {
    assert_eq!(estimate_tokens(""), 0);
    assert_eq!(estimate_tokens("a"), 1);
    assert_eq!(estimate_tokens("abcd"), 1);
    assert_eq!(estimate_tokens("abcde"), 2);
    assert_eq!(estimate_tokens("é"), 1);
    assert_eq!(estimate_tokens("→→"), 2);
}

#[test]
fn piped_stream_costing_more_than_its_input_passes_through() {
    // The condensed label is longer than this one-line stream.
    let input = "Submodule s a..b\n";
    assert!(condense_unified_diff_strict(input).is_some());
    assert!(condense_stdin(input.as_bytes()).is_none());
}

#[test]
fn piped_stream_keeps_non_ascii_content() {
    let diff = "diff --git a/x b/x\n--- a/x\n+++ b/x\n@@ -1 +1 @@\n-café au lait, the old recipe line\n+cafe au lait, the new recipe line\n";
    let out = condense_stdin(diff.as_bytes()).expect("valid UTF-8 diff must condense");
    assert!(out.lines().any(|l| l == "-café au lait, the old recipe line"), "got:\n{out}");
    assert!(out.starts_with("[file] x (+1 -1)"));
}

#[test]
fn every_marked_body_line_survives_in_order() {
    // Two files, a combined hunk, a CRLF line, a `--- note` removal and a
    // `+++ text` addition: every marked body line must reappear verbatim and
    // in input order; context lines and headers must not.
    let diff = "diff --git a/f.sql b/f.sql\n--- a/f.sql\n+++ b/f.sql\n@@ -1,3 +1,3 @@\n keep\n--- note\n+++ text\r\n keep too\ndiff --cc m.rs\n--- a/m.rs\n+++ b/m.rs\n@@@ -1,1 -1,1 +1,2 @@@\n  same\n++both\n\\ No newline at end of file\n";
    let out = condensed(diff);
    let body: Vec<&str> = vec!["--- note", "+++ text\r", "++both"];
    let out_lines: Vec<&str> = out.split('\n').collect();
    let kept: Vec<&str> = out_lines
        .iter()
        .copied()
        .filter(|l| !l.starts_with("[file] ") && !l.starts_with('\\'))
        .collect();
    assert_eq!(kept, body);
    assert!(!out.contains(" keep"));
    assert!(!out.contains("  same"));
}

#[test]
fn labels_count_lines_by_their_marker_columns() {
    // Two parents: " -" and "- " remove, " +" and "++" add, "  " is context.
    let diff = "diff --cc m.rs\n--- a/m.rs\n+++ b/m.rs\n@@@ -1,3 -1,2 +1,3 @@@\n  same\n -gone here\n- gone there\n + new here\n++new both\n";
    let out = condensed(diff);
    let first = out.split('\n').next().unwrap();
    assert_eq!(first, "[file] m.rs (+2 -2)");
}
