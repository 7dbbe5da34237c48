use cch::paths::encode_cwd;

#[test]
fn encodes_slashes_and_dots() {
    assert_eq!(encode_cwd("/home/a.b/c"), "-home-a-b-c");
}

#[test]
fn encodes_root() {
    assert_eq!(encode_cwd("/"), "-");
}

#[test]
fn encodes_trailing_dot_segment() {
    // Every '.' becomes '-', as the assistant does.
    assert_eq!(encode_cwd("/a/b.ext"), "-a-b-ext");
}

#[test]
fn encodes_multiple_dots() {
    assert_eq!(encode_cwd("/x.y.z/w"), "-x-y-z-w");
}

#[test]
fn encodes_preserves_non_special_chars() {
    assert_eq!(encode_cwd("/home/user_name/my-proj"), "-home-user_name-my-proj");
}
