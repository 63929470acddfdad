use forkd::path::{file_name, join, parent};
use std::path::Path;

const PATHS: &[&str] = &[
    "", "/", "//", ".", "./", "./.", "..", "../", "a", "a/", "a//", "a/.", "a/./", "a/./.", "/a", "//a", "/a/", "a/b",
    "a//b", "a/./b", "./a", "./a/b", "a/..", "a/../b", "/..", "/.", "/./a", ".a", "..a", "a.", "a..", "...", "a/...",
    "/home/x/.local/share/t/vmstate", "é/ü", "./..", "../..", "a/b/c/.", ".//a", "//./a//",
];

#[test]
fn last_parts_and_parents_are_those_of_std() {
    for p in PATHS {
        assert_eq!(file_name(p).as_deref(), Path::new(p).file_name().map(|n| n.to_str().unwrap()), "{p:?}");
        assert_eq!(parent(p).as_deref(), Path::new(p).parent().map(|n| n.to_str().unwrap()), "{p:?}");
    }
}

#[test]
fn joined_paths_are_those_of_std() {
    for base in PATHS {
        for name in PATHS {
            assert_eq!(join(base, name), Path::new(base).join(name).to_str().unwrap(), "{base:?} {name:?}");
        }
    }
}
