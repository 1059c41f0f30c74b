use std::time::Duration;

use rerun::ignore::IgnoreFilter;
use rerun::watcher::{FSEventWatcher, FileStamp, PollWatcher};

#[test]
fn matches_extension_empty_allows_all() {
    let ext: Vec<String> = vec![];
    assert!(FSEventWatcher::matches_extension("foo.rs", &ext));
    assert!(FSEventWatcher::matches_extension("bar.js", &ext));
}

#[test]
fn matches_extension_filters() {
    let ext = vec!["rs".to_string()];
    assert!(FSEventWatcher::matches_extension("foo.rs", &ext));
    assert!(!FSEventWatcher::matches_extension("foo.js", &ext));
}

#[test]
fn matches_extension_no_extension_fails() {
    let ext = vec!["rs".to_string()];
    assert!(!FSEventWatcher::matches_extension("Makefile", &ext));
}

#[test]
fn matches_extension_follows_path_rules() {
    let ext = vec!["rs".to_string(), "gz".to_string(), "".to_string()];
    assert!(FSEventWatcher::matches_extension("src/main.rs", &ext));
    assert!(FSEventWatcher::matches_extension("a/b.tar.gz", &ext));
    assert!(FSEventWatcher::matches_extension("dir/file.rs/", &ext));
    assert!(FSEventWatcher::matches_extension("foo.", &ext));
    assert!(!FSEventWatcher::matches_extension(".rs", &ext));
    assert!(!FSEventWatcher::matches_extension("src.rs/..", &ext));
    assert!(!FSEventWatcher::matches_extension("/", &ext));
    assert!(!FSEventWatcher::matches_extension("", &ext));
    assert!(FSEventWatcher::matches_extension("a.rs/.", &ext));
}

#[test]
fn should_notify_filters_events() {
    let ext = vec!["rs".to_string()];
    let w = FSEventWatcher::new("/tmp/x".to_string(), ext, IgnoreFilter::new(&[], None));
    assert_eq!(w.root(), "/tmp/x");
    assert!(w.should_notify(false, true, "/tmp/x/src/main.rs"));
    assert!(!w.should_notify(true, true, "/tmp/x/src/main.rs"));
    assert!(!w.should_notify(false, false, "/tmp/x/src/main.rs"));
    assert!(!w.should_notify(false, true, "/tmp/x/src/main.js"));
    assert!(!w.should_notify(false, true, "/tmp/x/.git/main.rs"));
    let copy = w.clone();
    assert!(copy.should_notify(false, true, "/tmp/x/lib.rs"));
    assert!(!copy.should_notify(false, true, "/tmp/x/target/lib.rs"));
}

#[test]
fn should_notify_without_filters() {
    let w = FSEventWatcher::new(".".to_string(), vec![], IgnoreFilter::disabled());
    assert!(w.should_notify(false, true, ".git/HEAD"));
    assert!(w.should_notify(false, true, "Makefile"));
}

fn stamp(path: &str, t: Option<i128>) -> FileStamp {
    FileStamp { path: path.to_string(), modified: t }
}

#[test]
fn latest_mtime_takes_the_maximum_of_matching_files() {
    let w = PollWatcher::new("src".to_string(), vec!["rs".to_string()], Duration::from_millis(50));
    assert_eq!(w.root(), "src");
    assert_eq!(w.poll_interval(), Duration::from_millis(50));
    let files = vec![
        stamp("src/a.rs", Some(10)),
        stamp("src/b.js", Some(99)),
        stamp("src/c.rs", Some(30)),
        stamp("src/d.rs", None),
        stamp("src/e.rs", Some(-5)),
    ];
    assert_eq!(w.latest_mtime(&files), Some(30));
    assert_eq!(w.latest_mtime(&files[1..2]), None);
    assert_eq!(w.latest_mtime(&[]), None);
    assert!(w.matches_extension("x.rs"));
    assert!(!w.matches_extension("x.js"));
}

#[test]
fn poll_fires_only_on_a_newer_time() {
    let mut w = PollWatcher::new(".".to_string(), vec![], Duration::from_millis(10));
    // no baseline: any time read is a change
    assert!(w.changed(Some(0)));
    assert!(!w.changed(None));
    w.set_baseline(Some(100));
    assert!(!w.changed(Some(100)));
    assert!(!w.changed(Some(99)));
    assert!(!w.changed(None));
    assert!(w.changed(Some(101)));
}
