use std::path::PathBuf;

use rs_blobstore::path::{components, join, parent, resolve_safe, same_path, Component, PathError};

fn root() -> String {
    String::from("/data")
}

fn name(s: &str) -> Component {
    Component::Normal(String::from(s))
}

#[test]
fn ok_simple() {
    let p = resolve_safe(&root(), "foo/bar.bin").unwrap();
    assert_eq!(PathBuf::from(p), PathBuf::from("/data/foo/bar.bin"));
}

#[test]
fn ok_dotted_filename() {
    let p = resolve_safe(&root(), "foo/bar.parquet.gz").unwrap();
    assert_eq!(PathBuf::from(p), PathBuf::from("/data/foo/bar.parquet.gz"));
}

#[test]
fn rejects_parent_dir() {
    assert!(resolve_safe(&root(), "../etc/passwd").is_err());
    assert!(resolve_safe(&root(), "foo/../../etc/passwd").is_err());
}

#[test]
fn rejects_absolute() {
    assert!(resolve_safe(&root(), "/etc/passwd").is_err());
}

#[test]
fn rejects_nul() {
    assert!(resolve_safe(&root(), "foo\0bar").is_err());
}

#[test]
fn rejects_empty() {
    assert!(resolve_safe(&root(), "").is_err());
}

#[test]
fn each_refusal_says_why() {
    assert_eq!(resolve_safe("/data", ""), Err(PathError::Empty));
    assert_eq!(resolve_safe("/data", "/a\0"), Err(PathError::Nul));
    assert_eq!(resolve_safe("/data", "/../a"), Err(PathError::Absolute));
    assert_eq!(resolve_safe("/data", "a/.."), Err(PathError::ParentDir));
    assert_eq!(PathError::Empty.message(), "empty path");
    assert_eq!(PathError::Nul.message(), "NUL byte in path");
    assert_eq!(PathError::Absolute.message(), "absolute paths not allowed");
    assert_eq!(
        PathError::ParentDir.message(),
        "path component not allowed: ParentDir"
    );
}

#[test]
fn dots_that_are_not_parent_dir_are_allowed() {
    assert_eq!(resolve_safe("/data", "./a").unwrap(), "/data/./a");
    assert_eq!(resolve_safe("/data", "a..b").unwrap(), "/data/a..b");
    assert_eq!(resolve_safe("/data", "...").unwrap(), "/data/...");
    assert_eq!(resolve_safe("/data", "a//b/").unwrap(), "/data/a//b/");
    assert_eq!(resolve_safe("/data", "\u{e9}/\u{1f600}").unwrap(), "/data/\u{e9}/\u{1f600}");
}

#[test]
fn allowed_path_stays_under_root() {
    let p = resolve_safe("/data/x", "./foo//bar.bin").unwrap();
    assert_eq!(
        components(&p),
        vec![Component::RootDir, name("data"), name("x"), name("foo"), name("bar.bin")]
    );
    assert!(PathBuf::from(&p).starts_with("/data/x"));
}

#[test]
fn joins_with_one_slash() {
    assert_eq!(join("/data", "a"), "/data/a");
    assert_eq!(join("/data/", "a"), "/data/a");
    assert_eq!(join("", "a"), "a");
    assert_eq!(join("/data", "/a"), "/a");
}

#[test]
fn join_agrees_with_std() {
    for base in ["", "/", ".", "/data", "/data/", "a/b", "a//", "./"] {
        for path in ["a", "a/b", "./a", "/a", "..", "a/../b", "a/", "."] {
            assert_eq!(PathBuf::from(base).join(path).to_str().unwrap(), join(base, path));
        }
    }
}

fn std_components(s: &str) -> Vec<Component> {
    PathBuf::from(s)
        .components()
        .map(|c| match c {
            std::path::Component::RootDir => Component::RootDir,
            std::path::Component::CurDir => Component::CurDir,
            std::path::Component::ParentDir => Component::ParentDir,
            other => name(other.as_os_str().to_str().unwrap()),
        })
        .collect()
}

const PATHS: [&str; 22] = [
    "", "/", "//", ".", "./", "..", "../", "a", "a/", "/a", "//a", "./a", "/./a", "a/.", "a/./b",
    "a//b", "/a/b/", "/a/../b", ".a", "/data/foo/.", "/data/foo//bar.bin", "a/b/./.",
];

#[test]
fn components_agree_with_std() {
    for s in PATHS {
        assert_eq!(components(s), std_components(s));
    }
}

#[test]
fn parents_agree_with_std() {
    for s in PATHS {
        let expected = PathBuf::from(s).parent().map(|p| String::from(p.to_str().unwrap()));
        assert_eq!(parent(s), expected);
    }
    assert_eq!(parent("/data/foo/bar.bin").unwrap(), "/data/foo");
    assert_eq!(parent("/"), None);
}

#[test]
fn same_path_goes_by_components() {
    assert!(same_path("/data/a/b", "/data//a/./b/"));
    assert!(!same_path("/data/a", "/data/a/b"));
    assert!(!same_path("a", "./a"));
    assert!(!same_path("/a", "/b"));
    assert!(!same_path("a", ".."));
}
