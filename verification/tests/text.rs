use rerun::path::{path_components, path_extension};
use rerun::text::{split_str, strip_trailing_str, trim_str};

#[test]
fn trim_matches_std() {
    for s in ["", "  ", " a b ", "\t\n x \r", "\u{3000}y\u{2028}", "\u{200b}z", "\u{85}w\u{a0}"] {
        assert_eq!(trim_str(s), s.trim(), "{s:?}");
    }
}

#[test]
fn split_matches_std() {
    for s in ["", ",", "a", "a,b", ",a,,b,", "é,ü"] {
        let ours = split_str(s, ',');
        let theirs: Vec<String> = s.split(',').map(String::from).collect();
        assert_eq!(ours, theirs, "{s:?}");
    }
}

#[test]
fn strip_trailing_matches_std() {
    for s in ["", "/", "a//", "a/b/", "/a"] {
        assert_eq!(strip_trailing_str(s, '/'), s.trim_end_matches('/'), "{s:?}");
    }
}

#[test]
fn components_match_std() {
    for s in [
        "", "/", "//", "a", "a/b", "/a/b/", "./a", ".", "./", "./.", "a/./b", "a/../b", "..",
        ".a/b", "a//b", "/./a", "../x",
    ] {
        let ours = path_components(s);
        let theirs: Vec<String> = std::path::Path::new(s)
            .components()
            .map(|c| c.as_os_str().to_string_lossy().into_owned())
            .collect();
        assert_eq!(ours, theirs, "{s:?}");
    }
}

#[test]
fn extension_matches_std() {
    for s in [
        "", "a", "a.rs", ".rs", "a.", "a.b.c", "dir/x.rs/", "x.rs/..", "x.rs/.", "/", "..", "a/.b",
        "a/..b",
    ] {
        let ours = path_extension(s);
        let theirs = std::path::Path::new(s)
            .extension()
            .map(|e| e.to_string_lossy().into_owned());
        assert_eq!(ours, theirs, "{s:?}");
    }
}
