use rtk::line_diff::{compute_diff, DiffChange};
use rtk::render::{
    describe_invisible_difference, format_classic_diff, format_diff_changes, format_line_range,
    render_diff, render_file_diff, select_file_diff_output, tracking_baseline,
};
use rtk::tokens::estimate_tokens;

#[test]
fn line_ranges_collapse_single_lines() {
    assert_eq!(format_line_range(3, 3), "3");
    assert_eq!(format_line_range(3, 5), "3,5");
}

#[test]
fn classic_diff_deletion_command() {
    let diff = compute_diff(&["a", "b", "c"], &["a", "c"]);
    assert_eq!(format_classic_diff(&diff), "2d1\n< b\n");
}

#[test]
fn classic_diff_append_command() {
    let diff = compute_diff(&["a"], &["a", "x", "y"]);
    assert_eq!(format_classic_diff(&diff), "1a2,3\n> x\n> y\n");
}

#[test]
fn classic_diff_change_command_for_removal_addition_pairs() {
    let diff = compute_diff(&["aaaa", "bbbb"], &["zzzz", "yyyy"]);
    assert_eq!(format_classic_diff(&diff), "1,2c1,2\n< aaaa\n< bbbb\n---\n> zzzz\n> yyyy\n");
}

#[test]
fn classic_diff_change_command_for_modifications() {
    let diff = compute_diff(&["let x = 1;", "let y = 1;"], &["let x = 2;", "let y = 2;"]);
    assert_eq!(diff.modified, 2);
    assert_eq!(
        format_classic_diff(&diff),
        "1,2c1,2\n< let x = 1;\n< let y = 1;\n---\n> let x = 2;\n> let y = 2;\n"
    );
}

#[test]
fn change_list_pads_line_numbers_to_four_columns() {
    let diff = compute_diff(&["a", "b"], &["a", "c"]);
    assert_eq!(format_diff_changes(&diff), "-   2 b\n+   2 c\n");
}

#[test]
fn render_diff_full_report() {
    let diff = compute_diff(&["x"], &["y"]);
    let (out, code) = render_diff("t1", "t2", &diff);
    assert_eq!(out, "t1 → t2\n   +1 added, -1 removed, ~0 modified\n\n-   1 x\n+   1 y\n");
    assert_eq!(code, 1);
}

#[test]
fn invisible_difference_without_a_known_cause_states_byte_counts() {
    let out = describe_invisible_difference("x", "y", "a\r\nb\n", "a\nb\r\n");
    assert_eq!(out, "x → y\n   differs, text matches (5 vs 5 bytes, invisible to a line-based diff)\n");
}

#[test]
fn invisible_difference_lists_every_cause() {
    let out = describe_invisible_difference("x", "y", "a\r\nb\n", "a\nb");
    assert_eq!(
        out,
        "x → y\n   differs, text matches (line endings: 1 CRLF vs 0 CRLF; trailing newline: present vs absent)\n"
    );
}

#[test]
fn differing_bytes_never_exit_zero() {
    for (c1, c2) in [("a\n", "a"), ("a\r\n", "a\n"), ("a", "b"), ("", "\n")] {
        let l1: Vec<&str> = c1.lines().collect();
        let l2: Vec<&str> = c2.lines().collect();
        let (out, code) = render_file_diff("p", "q", c1, c2, &compute_diff(&l1, &l2));
        assert_eq!(code, 1, "{c1:?} vs {c2:?}");
        assert_ne!(out, "[ok] Files are identical\n");
    }
}

#[test]
fn equal_inputs_have_no_changes_and_unequal_inputs_do() {
    assert!(compute_diff(&["a", "b"], &["a", "b"]).changes.is_empty());
    assert!(!compute_diff(&["a", "b"], &["a", "b", ""]).changes.is_empty());
    assert!(!compute_diff(&["a"], &[]).changes.is_empty());
}

#[test]
fn change_counters_match_the_change_list() {
    let diff = compute_diff(&["a", "let x = 1;", "b", "c"], &["let x = 2;", "b", "d", "e"]);
    let added = diff.changes.iter().filter(|c| matches!(c, DiffChange::Added(..))).count();
    let removed = diff.changes.iter().filter(|c| matches!(c, DiffChange::Removed(..))).count();
    let modified = diff.changes.iter().filter(|c| matches!(c, DiffChange::Modified(..))).count();
    assert_eq!((diff.added, diff.removed, diff.modified), (added, removed, modified));
}

#[test]
fn guard_keeps_the_cheaper_of_rendering_and_classic_diff() {
    let diff = compute_diff(&["x"], &["y"]);
    let classic = format_classic_diff(&diff);
    let (rendered, _) = render_diff("a-very-long-file-name-one", "a-very-long-file-name-two", &diff);
    let shown = select_file_diff_output(&diff, &classic, &rendered);
    assert_eq!(shown, classic);
    assert!(estimate_tokens(tracking_baseline(&diff, &classic, "", shown)) >= estimate_tokens(shown));
}

#[test]
fn diff_marks_only_the_lines_a_longest_common_subsequence_leaves() {
    // LCS of the two files is a, c, d (three lines).
    let x = ["a", "b", "c", "d"];
    let y = ["a", "x", "c", "d", "e"];
    let r = compute_diff(&x, &y);
    assert_eq!(r.removed + r.modified, x.len() - 3);
    assert_eq!(r.added + r.modified, y.len() - 3);
}

#[test]
fn change_sides_follow_both_files_in_order() {
    let x = ["keep", "old one", "keep 2", "gone", "keep 3"];
    let y = ["keep", "new one", "keep 2", "keep 3", "fresh"];
    let r = compute_diff(&x, &y);
    let mut last_old = 0usize;
    let mut new_texts: Vec<String> = Vec::new();
    for c in &r.changes {
        match c {
            DiffChange::Removed(l, t) | DiffChange::Modified(l, t, _) => {
                assert!(*l > last_old);
                assert_eq!(x[*l - 1], t.as_str());
                last_old = *l;
            }
            DiffChange::Added(..) => {}
        }
        match c {
            DiffChange::Added(_, t) | DiffChange::Modified(_, _, t) => new_texts.push(t.clone()),
            DiffChange::Removed(..) => {}
        }
    }
    // The new sides are lines of `y`, in file order.
    let mut pos = 0usize;
    for t in &new_texts {
        let found = y[pos..].iter().position(|l| l == t).expect("new side is a line of y");
        pos += found + 1;
    }
}

#[test]
fn only_equal_contents_are_called_identical() {
    let same = render_file_diff("a.txt", "b.txt", "x\n", "x\n", &compute_diff(&["x"], &["x"]));
    assert!(same.0.contains("identical"));
    let invisible = render_file_diff("a.txt", "b.txt", "x\r\n", "x\n", &compute_diff(&["x"], &["x"]));
    assert!(!invisible.0.contains("identical"));
    let changed = render_file_diff("a.txt", "b.txt", "x\n", "y\n", &compute_diff(&["x"], &["y"]));
    assert!(!changed.0.contains("identical"));
}

#[test]
fn classic_lines_carry_each_side_once_in_order() {
    let x = ["a", "b", "c", "d", "e"];
    let y = ["a", "B", "c", "e", "f"];
    let r = compute_diff(&x, &y);
    let out = format_classic_diff(&r);
    let mut olds: Vec<String> = Vec::new();
    let mut news: Vec<String> = Vec::new();
    for c in &r.changes {
        match c {
            DiffChange::Removed(_, t) => olds.push(t.clone()),
            DiffChange::Added(_, t) => news.push(t.clone()),
            DiffChange::Modified(_, o, n) => {
                olds.push(o.clone());
                news.push(n.clone());
            }
        }
    }
    let lines: Vec<&str> = out.split('\n').collect();
    assert_eq!(lines.last(), Some(&""));
    let body = &lines[..lines.len() - 1];
    let got_old: Vec<String> = body.iter().filter_map(|l| l.strip_prefix("< ")).map(String::from).collect();
    let got_new: Vec<String> = body.iter().filter_map(|l| l.strip_prefix("> ")).map(String::from).collect();
    assert_eq!(got_old, olds);
    assert_eq!(got_new, news);
    for l in body {
        let is_cmd = l.chars().next().map_or(false, |ch| ch.is_ascii_digit());
        assert!(is_cmd || *l == "---" || l.starts_with("< ") || l.starts_with("> "), "{l:?}");
    }
}

#[test]
fn what_the_diff_keeps_of_the_old_file_is_a_run_of_the_new_file() {
    let x = ["a", "b", "c", "d", "e", "f"];
    let y = ["a", "c", "D", "e", "g", "f"];
    let r = compute_diff(&x, &y);
    let dropped: Vec<usize> = r
        .changes
        .iter()
        .filter_map(|c| match c {
            DiffChange::Removed(l, _) | DiffChange::Modified(l, _, _) => Some(*l),
            DiffChange::Added(..) => None,
        })
        .collect();
    let kept: Vec<&str> = x
        .iter()
        .enumerate()
        .filter(|(i, _)| !dropped.contains(&(i + 1)))
        .map(|(_, l)| *l)
        .collect();
    // The kept old lines are, in order, the new file minus as many lines as
    // the diff marks on the new side.
    assert_eq!(kept.len(), y.len() - (r.added + r.modified));
    let mut pos = 0usize;
    for k in &kept {
        let found = y[pos..].iter().position(|l| l == k).expect("kept line is in y");
        pos += found + 1;
    }
}
