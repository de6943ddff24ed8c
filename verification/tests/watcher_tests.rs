use seedo::glob::CompileError;
use seedo::glob_watcher::{GlobWatcher, dedup_roots};

fn b(s: &str) -> Vec<u8> {
    s.as_bytes().to_vec()
}

fn comps(parts: &[&str]) -> Vec<Vec<u8>> {
    parts.iter().map(|p| b(p)).collect()
}

#[test]
fn dedup_drops_descendants_and_keeps_the_rest() {
    let roots = vec![comps(&["a"]), comps(&["a", "b"]), comps(&["c"])];
    let kept = dedup_roots(&roots);
    assert_eq!(kept, vec![comps(&["a"]), comps(&["c"])]);
}

#[test]
fn dedup_drops_exact_duplicates() {
    let roots = vec![comps(&["a"]), comps(&["a"]), comps(&["b"])];
    let kept = dedup_roots(&roots);
    assert_eq!(kept, vec![comps(&["a"]), comps(&["b"])]);
}

#[test]
fn dedup_root_covers_everything() {
    let roots = vec![comps(&[]), comps(&["a"]), comps(&["a", "b"])];
    let kept = dedup_roots(&roots);
    assert_eq!(kept, vec![comps(&[])]);
}

#[test]
fn dedup_keeps_siblings_with_common_name_prefix() {
    let roots = vec![comps(&["a"]), comps(&["ab"])];
    let kept = dedup_roots(&roots);
    assert_eq!(kept, vec![comps(&["a"]), comps(&["ab"])]);
}

#[test]
fn watcher_roots_are_deduplicated_base_directories() {
    let globs = vec![b("/a/*.txt"), b("/a/b/*.txt"), b("/c/*.rs")];
    let w = GlobWatcher::from_patterns(&globs, true, &b("/")).expect("globs should compile");
    assert_eq!(w.root_paths(), vec![b("/a"), b("/c")]);
}

#[test]
fn watcher_root_of_bare_double_star_is_root() {
    let w = GlobWatcher::from_pattern(&b("/**"), true, &b("/")).expect("glob should compile");
    assert_eq!(w.root_paths(), vec![b("/")]);
}

#[test]
fn watcher_matches_files_against_any_pattern() {
    let globs = vec![b("/a/*.txt"), b("/b/**/c.rs")];
    let w = GlobWatcher::from_patterns(&globs, false, &b("/")).expect("globs should compile");
    assert!(w.matches(&b("/a/x.txt"), false));
    assert!(w.matches(&b("/b/x/c.rs"), false));
    assert!(!w.matches(&b("/b/c.rs"), false));
    assert!(!w.matches(&b("/a/x.rs"), false));
}

#[test]
fn watcher_matches_directories_by_prefix() {
    let w = GlobWatcher::from_pattern(&b("/a/b/*.txt"), true, &b("/")).expect(
        "glob should compile",
    );
    assert!(w.matches(&b("/a"), true));
    assert!(w.matches(&b("/a/b"), true));
    assert!(!w.matches(&b("/x"), true));
    assert!(!w.matches(&b("/a"), false));
}

#[test]
fn watcher_keeps_ignore_flag() {
    let w = GlobWatcher::from_pattern(&b("/a"), true, &b("/")).expect("glob should compile");
    assert!(w.read_ignores);
    let v = GlobWatcher::from_pattern(&b("/a"), false, &b("/")).expect("glob should compile");
    assert!(!v.read_ignores);
}

#[test]
fn watcher_reports_first_bad_glob() {
    let globs = vec![b("/a/*.txt"), b("/a/[b]"), b("/a/x**y")];
    let r = GlobWatcher::from_patterns(&globs, true, &b("/"));
    assert_eq!(r.err(), Some(CompileError::Metacharacter));
}
