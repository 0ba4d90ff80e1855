use linkpage::archive::is_enclosed;

fn enclosed(name: &str) -> bool {
    is_enclosed(&name.as_bytes().to_vec())
}

#[test]
fn non_escaping_paths_are_enclosed() {
    assert!(enclosed("index.html"));
    assert!(enclosed("a/b.txt"));
    assert!(enclosed("site/"));
    assert!(enclosed("a/..b/c"));
    assert!(enclosed("..a"));
    assert!(enclosed("a.."));
    assert!(enclosed("deep/ly/nested/file"));
    // an interior `..` that never climbs above the destination stays inside
    assert!(enclosed("a/../b"));
    assert!(enclosed("a/.."));
    assert!(enclosed("a/b/../../c"));
    assert!(enclosed("./a"));
    assert!(enclosed("a//b"));
    // a backslash is an ordinary filename byte here
    assert!(enclosed("a\\b"));
}

#[test]
fn escaping_or_unsafe_paths_are_rejected() {
    assert!(!enclosed(""));
    assert!(!enclosed("/abs"));
    assert!(!enclosed(".."));
    assert!(!enclosed("../x"));
    assert!(!enclosed("a/../../b"));
    assert!(!enclosed("a/b/../../../etc/passwd"));
    assert!(!enclosed("./.."));
    assert!(!enclosed("a\u{0}b"));
}
