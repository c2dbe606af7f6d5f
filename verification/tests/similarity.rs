use rtk::line_diff::{similar, similarity_counts};

fn chars(s: &str) -> Vec<char> {
    s.chars().collect()
}

/// Jaccard similarity of the two lines' character sets, from the library's
/// exact counts (one when both are empty).
fn similarity(a: &str, b: &str) -> f64 {
    let (inter, union) = similarity_counts(&chars(a), &chars(b));
    if union == 0 {
        1.0
    } else {
        inter as f64 / union as f64
    }
}

fn is_similar(a: &str, b: &str) -> bool {
    similar(&chars(a), &chars(b))
}

#[test]
fn test_similarity_identical() {
    assert_eq!(similarity("hello", "hello"), 1.0);
    assert!(is_similar("hello", "hello"));
}

#[test]
fn test_similarity_completely_different() {
    assert_eq!(similarity("abc", "xyz"), 0.0);
    assert!(!is_similar("abc", "xyz"));
}

#[test]
fn test_similarity_empty_strings() {
    // Both empty: union is 0, returns 1.0 by convention
    assert_eq!(similarity("", ""), 1.0);
    assert!(is_similar("", ""));
}

#[test]
fn test_similarity_partial_overlap() {
    let s = similarity("abcd", "abef");
    // Shared: a, b. Union: a, b, c, d, e, f = 6. Jaccard = 2/6
    assert!((s - 2.0 / 6.0).abs() < f64::EPSILON);
    assert!(!is_similar("abcd", "abef"));
}

#[test]
fn test_similarity_threshold_for_modified() {
    // "let x = 1;" vs "let x = 2;" should be > 0.5 (treated as modification)
    assert!(similarity("let x = 1;", "let x = 2;") > 0.5);
    assert!(is_similar("let x = 1;", "let x = 2;"));
}

#[test]
fn similarity_counts_are_intersection_and_union_sizes() {
    assert_eq!(similarity_counts(&chars("abcd"), &chars("abef")), (2, 6));
    assert_eq!(similarity_counts(&chars("aab"), &chars("bba")), (2, 2));
    assert_eq!(similarity_counts(&chars(""), &chars("")), (0, 0));
}

#[test]
fn similarity_exactly_one_half_is_not_similar() {
    // Shared: a. Union: a, b = 2. Jaccard = 1/2 is not above one half.
    assert!(!is_similar("a", "ab"));
}
