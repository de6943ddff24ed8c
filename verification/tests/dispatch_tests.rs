use seedo::command::{CommandToRun, ConfigError, command_from_iter, command_from_str};
use seedo::dispatch::{Dispatcher, RuleConfig};
use seedo::event::{Event, EventKind, should_event_trigger};
use seedo::glob::CompileError;

fn b(s: &str) -> Vec<u8> {
    s.as_bytes().to_vec()
}

fn words(items: &[&str]) -> CommandToRun {
    CommandToRun::Words(items.iter().map(|s| s.to_string()).collect())
}

fn config(globs: &[&str], debounce_ms: u64) -> RuleConfig {
    RuleConfig {
        command_to_run: words(&["true"]),
        globs: globs.iter().map(|g| b(g)).collect(),
        skip_ignore_files: false,
        debounce_ms,
    }
}

fn event(kind: EventKind, paths: &[&str]) -> Event {
    Event { kind, paths: paths.iter().map(|p| b(p)).collect() }
}

#[test]
fn filter_drops_access_and_metadata_only_events() {
    assert!(!should_event_trigger(&event(EventKind::Access, &["/a"])));
    assert!(!should_event_trigger(&event(EventKind::MetadataModify, &["/a"])));
    assert!(should_event_trigger(&event(EventKind::Modify, &["/a"])));
    assert!(should_event_trigger(&event(EventKind::Create, &["/a"])));
    assert!(should_event_trigger(&event(EventKind::Remove, &["/a"])));
    assert!(should_event_trigger(&event(EventKind::Other, &["/a"])));
}

#[test]
fn debounce_window_is_anchored_at_the_first_event() {
    let configs = vec![config(&["/a/*.txt"], 50)];
    let mut d = Dispatcher::new(&configs, &b("/")).expect("config should build");
    assert_eq!(d.calculate_timeout(0), None);

    d.handle_event(&event(EventKind::Modify, &["/a/x.txt"]), 0);
    assert_eq!(d.calculate_timeout(0), Some(50));

    d.handle_event(&event(EventKind::Modify, &["/a/x.txt"]), 20);
    assert_eq!(d.calculate_timeout(20), Some(30));

    assert_eq!(d.take_expired(49), Vec::<usize>::new());
    assert_eq!(d.take_expired(50), vec![0]);
    assert_eq!(d.take_expired(60), Vec::<usize>::new());
    assert_eq!(d.calculate_timeout(60), None);
}

#[test]
fn rules_fire_independently() {
    let configs = vec![config(&["/a/*.txt"], 10), config(&["/b/*.rs"], 200)];
    let mut d = Dispatcher::new(&configs, &b("/")).expect("config should build");

    d.handle_event(&event(EventKind::Modify, &["/a/x.txt"]), 0);
    assert_eq!(d.timers.timers[0].calculate_timeout(0), Some(10));
    assert_eq!(d.timers.timers[1].calculate_timeout(0), None);

    assert_eq!(d.take_expired(11), vec![0]);

    d.handle_event(&event(EventKind::Modify, &["/b/y.rs"]), 100);
    assert_eq!(d.timers.timers[0].calculate_timeout(100), None);
    assert_eq!(d.timers.timers[1].calculate_timeout(100), Some(200));
    assert_eq!(d.take_expired(301), vec![1]);
}

#[test]
fn one_event_can_arm_several_rules() {
    let configs = vec![config(&["/a/**"], 10), config(&["/a/x.*"], 20)];
    let mut d = Dispatcher::new(&configs, &b("/")).expect("config should build");
    d.handle_event(&event(EventKind::Modify, &["/a/x.txt"]), 0);
    assert_eq!(d.take_expired(100), vec![0, 1]);
}

#[test]
fn dropped_kinds_never_arm_a_timer() {
    let configs = vec![config(&["/a/*.txt"], 50)];
    let mut d = Dispatcher::new(&configs, &b("/")).expect("config should build");
    d.handle_event(&event(EventKind::Access, &["/a/x.txt"]), 0);
    d.handle_event(&event(EventKind::MetadataModify, &["/a/x.txt"]), 0);
    assert_eq!(d.calculate_timeout(0), None);
    assert_eq!(d.take_expired(1000), Vec::<usize>::new());
}

#[test]
fn non_matching_event_does_not_arm() {
    let configs = vec![config(&["/a/*.txt"], 50)];
    let mut d = Dispatcher::new(&configs, &b("/")).expect("config should build");
    d.handle_event(&event(EventKind::Modify, &["/b/x.txt"]), 0);
    assert_eq!(d.calculate_timeout(0), None);
}

#[test]
fn create_event_asks_to_watch_its_paths() {
    let configs = vec![config(&["/a/*.txt"], 50)];
    let mut d = Dispatcher::new(&configs, &b("/")).expect("config should build");
    let to_watch = d.handle_event(&event(EventKind::Create, &["/a/new.txt"]), 0);
    assert_eq!(to_watch, vec![b("/a/new.txt")]);
}

#[test]
fn create_event_extends_watches_even_without_a_rule_hit() {
    let configs = vec![config(&["/a/*.txt"], 50)];
    let mut d = Dispatcher::new(&configs, &b("/")).expect("config should build");
    let to_watch = d.handle_event(&event(EventKind::Create, &["/elsewhere/f"]), 0);
    assert_eq!(to_watch, vec![b("/elsewhere/f")]);
    assert_eq!(d.calculate_timeout(0), None);
}

#[test]
fn non_create_events_ask_for_no_watches() {
    let configs = vec![config(&["/a/*.txt"], 50)];
    let mut d = Dispatcher::new(&configs, &b("/")).expect("config should build");
    let to_watch = d.handle_event(&event(EventKind::Modify, &["/a/x.txt"]), 0);
    assert_eq!(to_watch, Vec::<Vec<u8>>::new());
}

#[test]
fn empty_command_is_rejected() {
    let mut c = config(&["/a/*.txt"], 50);
    c.command_to_run = words(&[]);
    let r = Dispatcher::new(&vec![c], &b("/"));
    assert_eq!(r.err(), Some(ConfigError::NoCommand));
}

#[test]
fn missing_globs_are_rejected() {
    let c = config(&[], 50);
    let r = Dispatcher::new(&vec![c], &b("/"));
    assert_eq!(r.err(), Some(ConfigError::NoGlobs));
}

#[test]
fn bad_glob_is_rejected_with_its_compile_error() {
    let c = config(&["/a/[b]"], 50);
    let r = Dispatcher::new(&vec![c], &b("/"));
    assert_eq!(r.err(), Some(ConfigError::Glob(CompileError::Metacharacter)));
}

#[test]
fn command_from_word_list_splits_program_and_args() {
    let c = command_from_iter(&vec!["cargo".to_string(), "test".to_string()]).expect(
        "command should build",
    );
    assert_eq!(c.program, "cargo");
    assert_eq!(c.args, vec!["test".to_string()]);
}

#[test]
fn command_line_is_lexed_by_shell_rules() {
    let c = command_from_str(&"echo 'a b' c".to_string()).expect("command should build");
    assert_eq!(c.program, "echo");
    assert_eq!(c.args, vec!["a b".to_string(), "c".to_string()]);
}

#[test]
fn unclosed_quote_is_rejected() {
    let r = command_from_str(&"'unclosed".to_string());
    assert_eq!(r.err(), Some(ConfigError::NoCommand));
}

#[test]
fn empty_command_line_is_rejected() {
    let r = command_from_str(&"".to_string());
    assert_eq!(r.err(), Some(ConfigError::NoCommand));
}

#[test]
fn configured_line_builds_through_to_command() {
    let c = CommandToRun::Line("make -j 4".to_string()).to_command().expect(
        "command should build",
    );
    assert_eq!(c.program, "make");
    assert_eq!(c.args, vec!["-j".to_string(), "4".to_string()]);
}
