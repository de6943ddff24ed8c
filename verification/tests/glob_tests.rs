use seedo::glob::{CompileError, Pattern};

fn b(s: &str) -> Vec<u8> {
    s.as_bytes().to_vec()
}

fn compile(pattern: &str) -> Pattern {
    Pattern::new(&b(pattern), &b("/cwd")).expect("pattern should compile")
}

#[test]
fn literal_pattern_accepts_exactly_itself() {
    let p = compile("/a/b.txt");
    assert!(p.file_matcher(&b("/a/b.txt")));
    assert!(!p.file_matcher(&b("/a/c.txt")));
    assert!(!p.file_matcher(&b("/a")));
    assert!(!p.file_matcher(&b("/a/b.txt/c")));
    assert!(!p.file_matcher(&b("/a/b_txt")));
    assert!(!p.file_matcher(&b("/")));
}

#[test]
fn literal_pattern_base_directory_is_whole_path() {
    let p = compile("/a/b.txt");
    assert_eq!(p.base, vec![b("a"), b("b.txt")]);
}

#[test]
fn wildcard_stops_base_directory() {
    let p = compile("/a/b/*.txt");
    assert_eq!(p.base, vec![b("a"), b("b")]);
    let q = compile("/a/**/c.txt");
    assert_eq!(q.base, vec![b("a")]);
}

#[test]
fn relative_pattern_is_resolved_against_cwd() {
    let p = Pattern::new(&b("b.txt"), &b("/a")).expect("pattern should compile");
    assert!(p.file_matcher(&b("/a/b.txt")));
    assert!(!p.file_matcher(&b("/b.txt")));
    assert_eq!(p.base, vec![b("a"), b("b.txt")]);
}

#[test]
fn dot_components_are_normalized() {
    let p = compile("/a/./b/../c.txt");
    assert!(p.file_matcher(&b("/a/c.txt")));
    assert!(!p.file_matcher(&b("/a/b/c.txt")));
    assert!(p.file_matcher(&b("/a/./c.txt")));
    assert!(p.file_matcher(&b("/x/../a/c.txt")));
}

#[test]
fn double_star_consumes_at_least_one_component() {
    let p = compile("/a/**/b.txt");
    assert!(!p.file_matcher(&b("/a/b.txt")));
    assert!(p.file_matcher(&b("/a/x/b.txt")));
    assert!(p.file_matcher(&b("/a/x/y/b.txt")));
    assert!(!p.file_matcher(&b("/a/x/y/c.txt")));
}

#[test]
fn star_does_not_cross_separator() {
    let p = compile("/a/*.txt");
    assert!(p.file_matcher(&b("/a/b.txt")));
    assert!(p.file_matcher(&b("/a/.txt")));
    assert!(!p.file_matcher(&b("/a/b/c.txt")));
    assert!(!p.file_matcher(&b("/a/b.txt/c.txt")));
}

#[test]
fn star_matches_runs_inside_component() {
    let p = compile("/logs/a*c*");
    assert!(p.file_matcher(&b("/logs/abcd")));
    assert!(p.file_matcher(&b("/logs/ac")));
    assert!(!p.file_matcher(&b("/logs/ab")));
    assert!(!p.file_matcher(&b("/logs/bac")));
}

#[test]
fn bracket_component_is_rejected() {
    let r = Pattern::new(&b("a/[b].txt"), &b("/cwd"));
    assert_eq!(r.err(), Some(CompileError::Metacharacter));
}

#[test]
fn every_excluded_byte_is_rejected() {
    for meta in ["[", "]", "(", ")", "+", "$", "^", "{", "}", "|"] {
        let glob = format!("/a/x{}y", meta);
        let r = Pattern::new(&glob.into_bytes(), &b("/cwd"));
        assert_eq!(r.err(), Some(CompileError::Metacharacter));
    }
}

#[test]
fn mixed_double_star_is_rejected() {
    let r = Pattern::new(&b("/a/x**y/b"), &b("/cwd"));
    assert_eq!(r.err(), Some(CompileError::DoubleStar));
    let r2 = Pattern::new(&b("/a/***/b"), &b("/cwd"));
    assert_eq!(r2.err(), Some(CompileError::DoubleStar));
}

#[test]
fn double_star_before_metacharacter_wins() {
    let r = Pattern::new(&b("/a/x**[y"), &b("/cwd"));
    assert_eq!(r.err(), Some(CompileError::DoubleStar));
}

#[test]
fn directory_prefix_accepts_ancestors_of_literal_pattern() {
    let p = compile("/a/b/c.txt");
    assert!(p.directory_prefix_matcher(&b("/")));
    assert!(p.directory_prefix_matcher(&b("/a")));
    assert!(p.directory_prefix_matcher(&b("/a/b")));
    assert!(p.directory_prefix_matcher(&b("/a/b/c.txt")));
    assert!(!p.directory_prefix_matcher(&b("/x")));
    assert!(!p.directory_prefix_matcher(&b("/a/x")));
    assert!(!p.directory_prefix_matcher(&b("/a/b/c.txt/d")));
}

#[test]
fn directory_prefix_is_open_below_double_star() {
    let p = compile("/a/**/b.txt");
    assert!(p.directory_prefix_matcher(&b("/")));
    assert!(p.directory_prefix_matcher(&b("/a")));
    assert!(p.directory_prefix_matcher(&b("/a/x")));
    assert!(p.directory_prefix_matcher(&b("/a/x/y/z")));
    assert!(!p.directory_prefix_matcher(&b("/b")));
}

#[test]
fn file_match_implies_directory_match() {
    for glob in ["/a/b.txt", "/a/*.txt", "/a/**/b.txt", "/**"] {
        let p = Pattern::new(&b(glob), &b("/cwd")).expect("pattern should compile");
        for path in ["/a/b.txt", "/a/x/b.txt", "/a/x/y/b.txt", "/q"] {
            if p.file_matcher(&b(path)) {
                assert!(p.directory_prefix_matcher(&b(path)));
            }
        }
    }
}

#[test]
fn root_only_pattern_matches_root() {
    let p = compile("/");
    assert!(p.file_matcher(&b("/")));
    assert!(!p.file_matcher(&b("/a")));
    assert!(p.directory_prefix_matcher(&b("/")));
}
