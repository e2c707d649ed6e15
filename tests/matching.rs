use xml_table::pattern::Pattern;

#[test]
fn wildcard_examples() {
    assert!(Pattern::pattern_check("a*b", "axxb"));
    assert!(!Pattern::pattern_check("a*b", "a"));
    assert!(Pattern::pattern_check("*", "anything"));
    assert!(Pattern::pattern_check("*", ""));
    assert!(Pattern::pattern_check("ab", "ab"));
    assert!(!Pattern::pattern_check("ab", "abc"));
}

#[test]
fn wildcard_overlap_and_interior() {
    assert!(Pattern::pattern_check("ab*bc", "abc"));
    assert!(Pattern::pattern_check("a*x*y*b", "a_x_y_b"));
    assert!(!Pattern::pattern_check("a*y*x*b", "a_x_y_b"));
    assert!(Pattern::pattern_check("a**b", "ab"));
    assert!(Pattern::pattern_check("*mid*", "amidb"));
    assert!(!Pattern::pattern_check("*mid*", "amib"));
    assert!(!Pattern::pattern_check("Ab", "ab"));
    assert!(Pattern::pattern_check("ab***bc", "abc"));
}
