use delocal_engine::path::{RESERVED_DIR, RelPath, RelPathError};

fn p(s: &str) -> RelPath {
    RelPath::new(s).unwrap()
}

#[test]
fn accepts_ordinary_paths() {
    let long = "x".repeat(255);
    let two_long = format!("{}/{}", "y".repeat(255), "z".repeat(255));
    for ok in [
        "a",
        "a/b",
        "docs/report.xlsx",
        ".bashrc",
        "with space/and-dash_underscore",
        "unicode/naïve/日本語.txt",
        "trailing.dot.",
        "back\\slash",
        "...",
        "delocal",
        "x/.delocal/inner",
        long.as_str(),
        two_long.as_str(),
    ] {
        assert!(RelPath::new(ok).is_ok(), "{ok:?} should be valid");
    }
}

#[test]
fn rejects_by_rule() {
    let too_long = "x".repeat(256);
    // Bytes, not chars: 128 two-byte characters are 256 bytes.
    let too_long_utf8 = "ü".repeat(128);
    let cases = [
        ("", RelPathError::Empty),
        ("/abs", RelPathError::Absolute),
        ("dir/", RelPathError::TrailingSlash),
        ("a//b", RelPathError::EmptyComponent),
        ("./a", RelPathError::DotComponent),
        ("a/./b", RelPathError::DotComponent),
        (".", RelPathError::DotComponent),
        ("../a", RelPathError::DotDotComponent),
        ("a/..", RelPathError::DotDotComponent),
        ("a\0b", RelPathError::Nul),
        (too_long.as_str(), RelPathError::ComponentTooLong(256)),
        (too_long_utf8.as_str(), RelPathError::ComponentTooLong(256)),
        (".delocal", RelPathError::Reserved),
        (".delocal/trash/x", RelPathError::Reserved),
    ];
    for (input, err) in cases {
        assert_eq!(RelPath::new(input), Err(err), "{input:?}");
    }
}

#[test]
fn structure_helpers() {
    let path = p("docs/2026/report.xlsx");
    assert_eq!(path.depth(), 3);
    assert_eq!(path.file_name(), "report.xlsx");
    assert_eq!(path.parent(), Some(p("docs/2026")));
    assert_eq!(p("docs").parent(), None);
    assert_eq!(p("docs").file_name(), "docs");
    assert_eq!(
        path.components(),
        ["docs", "2026", "report.xlsx"]
    );
    assert_eq!(p("docs").join("a.txt"), Ok(p("docs/a.txt")));
    assert_eq!(p("docs").join("a/b"), Err(RelPathError::EmptyComponent));
    assert_eq!(p("docs").join(".."), Err(RelPathError::DotDotComponent));
    assert_eq!(
        p("docs").join(&"n".repeat(256)),
        Err(RelPathError::ComponentTooLong(256))
    );
}

#[test]
fn ancestry_needs_a_slash_boundary() {
    assert!(p("a").is_ancestor_of(&p("a/b")));
    assert!(p("a").is_ancestor_of(&p("a/b/c")));
    assert!(!p("a").is_ancestor_of(&p("a")));
    assert!(!p("a").is_ancestor_of(&p("ab")));
    assert!(!p("a/b").is_ancestor_of(&p("a")));
}

#[test]
fn parents_sort_before_children() {
    let mut v = vec![p("a/b/c"), p("a-b"), p("a"), p("a/b"), p("a/c")];
    v.sort();
    assert_eq!(v, [p("a"), p("a-b"), p("a/b"), p("a/b/c"), p("a/c")]);
}

#[test]
fn parent_is_ancestor_and_join_inverts_it() {
    let lists: [&[&str]; 5] = [&["a"], &["a", "b"], &["a.b", "..."], &["x", "y", "z"], &["q", ".r", "s.", "t"]];
    for parts in lists {
        let path = p(&parts.join("/"));
        assert_eq!(path.depth(), parts.len());
        assert_eq!(path.file_name(), parts[parts.len() - 1]);
        match path.parent() {
            None => assert_eq!(parts.len(), 1),
            Some(parent) => {
                assert!(parent.is_ancestor_of(&path));
                assert!(parent < path);
                assert_eq!(parent.join(path.file_name()), Ok(path.clone()));
            }
        }
    }
}

#[test]
fn string_round_trip() {
    for s in ["a", "a/b", "na\u{ef}ve/\u{65e5}\u{672c}.txt"] {
        let path = p(s);
        assert_eq!(path.as_str(), s);
        assert_eq!(path.to_string(), s);
        assert_eq!(s.parse::<RelPath>(), Ok(path));
    }
}

#[test]
fn path_errors_read_well() {
    assert_eq!(RelPathError::Empty.to_string(), "path is empty");
    assert_eq!(RelPathError::Absolute.to_string(), "path starts with /");
    assert_eq!(RelPathError::TrailingSlash.to_string(), "path ends with /");
    assert_eq!(RelPathError::EmptyComponent.to_string(), "path contains //");
    assert_eq!(RelPathError::DotComponent.to_string(), "path contains a . component");
    assert_eq!(RelPathError::DotDotComponent.to_string(), "path contains a .. component");
    assert_eq!(RelPathError::Nul.to_string(), "path contains a NUL byte");
    assert_eq!(
        RelPathError::ComponentTooLong(256).to_string(),
        "path has a component longer than 255 bytes"
    );
    assert_eq!(
        RelPathError::Reserved.to_string(),
        "path is under the reserved .delocal directory"
    );
    assert_eq!(RelPath::new(RESERVED_DIR), Err(RelPathError::Reserved));
}
