use cch::commands::blame::is_range;

#[test]
fn range_detection() {
    assert!(is_range("main..HEAD"));
    assert!(is_range("v1.2..v1.3"));
    assert!(is_range("HEAD~3..HEAD"));
    assert!(is_range("A...B"));
    assert!(!is_range("HEAD"));
    assert!(!is_range("5e069c9"));
    assert!(!is_range("HEAD~3"));
}
