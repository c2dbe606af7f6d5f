use rtk::compare::compare_contents;

#[test]
fn identical_contents_exit_zero() {
    let (out, code) = compare_contents("a.txt", "b.txt", "x\ny\n", "x\ny\n");
    assert_eq!(out, "[ok] Files are identical\n");
    assert_eq!(code, 0);
}

#[test]
fn changed_line_is_rendered_and_exits_one() {
    let (out, code) = compare_contents("a.txt", "b.txt", "x\ny\n", "x\nz\n");
    assert_eq!(code, 1);
    assert!(out.contains('y') && out.contains('z'));
    assert!(!out.contains("identical"));
}

#[test]
fn short_invisible_difference_falls_back_to_the_raw_text() {
    // The message body costs 24 tokens; both files together cost 3, and
    // 24 > 3 + 16: the raw text is short enough to read directly.
    let (out, code) = compare_contents("f1", "f2", "a\r\n", "a");
    assert_eq!(out, "a\r\n\n---\na");
    assert_eq!(code, 1);
}

#[test]
fn long_invisible_difference_is_explained() {
    let c1 = "some line of text\r\n".repeat(20);
    let c2 = "some line of text\n".repeat(20);
    let (out, code) = compare_contents("f1", "f2", &c1, &c2);
    assert_eq!(
        out,
        "f1 → f2\n   differs, text matches (line endings: 20 CRLF vs 0 CRLF)\n"
    );
    assert_eq!(code, 1);
}

#[test]
fn lines_split_like_str_lines() {
    // A final `\r` with no `\n` after it stays part of the last line, so the
    // lines differ; the classic diff is the cheaper rendering here.
    let (out, code) = compare_contents("f1", "f2", "a\r", "a");
    assert_eq!(out, "1c1\n< a\r\n---\n> a\n");
    assert_eq!(code, 1);
}
