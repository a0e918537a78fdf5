use serdir::paths::{takes_steps, validate_path};

#[test]
fn plain_paths_are_valid() {
    for path in ["", "a", "a/b.txt", "a//b", "./a", "a/...", "..a/b..", "a/"] {
        assert_eq!(validate_path(path), Ok(()), "{}", path);
    }
}

#[test]
fn faults_are_named_in_order() {
    assert_eq!(validate_path("a\0b"), Err("path contains NUL byte"));
    assert_eq!(validate_path("/\0/.."), Err("path contains NUL byte"));
    assert_eq!(validate_path("/a"), Err("path is absolute"));
    assert_eq!(validate_path("/../a"), Err("path is absolute"));
    for path in ["..", "../a", "a/..", "a/../b", "a/b/.."] {
        assert_eq!(validate_path(path), Err("path contains .. segment"), "{}", path);
    }
}

#[test]
fn idle_paths_take_no_steps() {
    for path in ["", ".", "./", "/", "//.//."] {
        assert!(!takes_steps(path), "{}", path);
    }
    for path in ["a", "./a", "..", "a/", "..."] {
        assert!(takes_steps(path), "{}", path);
    }
}
