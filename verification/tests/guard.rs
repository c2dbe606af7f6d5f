use rtk::guard::never_worse;

#[test]
fn keeps_filtered_when_smaller() {
    let raw = "a".repeat(400);
    assert_eq!(never_worse(&raw, "ok"), "ok");
}

#[test]
fn falls_back_to_raw_when_filtered_bigger() {
    let raw = "{}";
    let filtered = "{\n  \"pretty\": true\n}";
    assert_eq!(never_worse(raw, filtered), raw);
}

#[test]
fn tie_keeps_filtered() {
    assert_eq!(never_worse("abcd", "wxyz"), "wxyz");
}

#[test]
fn token_boundary_follows_estimate_tokens() {
    assert_eq!(never_worse("abcd", "abcde"), "abcd");
    assert_eq!(never_worse("abcdefgh", "ijklmnop"), "ijklmnop");
}

#[test]
fn empty_raw_returns_raw() {
    assert_eq!(never_worse("", "0 matches"), "");
}

#[test]
fn empty_filtered_returns_filtered() {
    assert_eq!(never_worse("data", ""), "");
}

#[test]
fn both_empty_returns_filtered() {
    assert_eq!(never_worse("", ""), "");
}
