use direnv_rust::envfile::{parse_content, parse_line, read, VarChange};
use direnv_rust::output::make_shell_command;
use direnv_rust::stack::{
    candidate_dirs, dir_contains, enumerate_parent_dirs, is_normal_dir, load, split_undo_and_kept, target_dirs, DirFile, Entry,
};
use direnv_rust::trust::compute_hash;
use direnv_rust::vars::{apply_change, VarsMap};

fn s(x: &str) -> String {
    x.to_string()
}

fn file(dir: &str, content: &str) -> DirFile {
    read(&s(dir), content, true)
}

fn commands(vars: &VarsMap) -> Vec<String> {
    vars.iter().map(|(k, o)| make_shell_command(k, o)).collect()
}

fn value_of(change: &VarChange) -> Option<String> {
    match change {
        VarChange::Unset => None,
        VarChange::Assign(v) | VarChange::Append(v) | VarChange::Prepend(v) => Some(v.clone()),
    }
}

#[test]
fn parse_line_verbs() {
    let (n, c) = parse_line("set FOO bar baz").unwrap();
    assert_eq!(n, "FOO");
    assert!(matches!(c, VarChange::Assign(ref v) if v == "bar baz"));
    let (n, c) = parse_line("append  PATH   :/opt/bin").unwrap();
    assert_eq!(n, "PATH");
    assert!(matches!(c, VarChange::Append(ref v) if v == ":/opt/bin"));
    let (n, c) = parse_line("prepend PATH /x:").unwrap();
    assert_eq!(n, "PATH");
    assert!(matches!(c, VarChange::Prepend(ref v) if v == "/x:"));
    let (n, c) = parse_line("unset HOME").unwrap();
    assert_eq!(n, "HOME");
    assert!(matches!(c, VarChange::Unset));
}

#[test]
fn parse_line_rejects_malformed() {
    assert!(parse_line("").is_none());
    assert!(parse_line("set").is_none());
    assert!(parse_line("set FOO").is_none());
    assert!(parse_line("unset FOO bar").is_none());
    assert!(parse_line("unset ").is_none());
    assert!(parse_line("unset   ").is_none());
    assert!(parse_line("export FOO bar").is_none());
    assert!(parse_line("SET FOO bar").is_none());
}

#[test]
fn parse_content_keeps_order_and_skips_noise() {
    let ds = parse_content("set A 1\r\n\nbogus line\nappend A 2\nunset B");
    assert_eq!(ds.len(), 3);
    assert_eq!(ds[0].0, "A");
    assert_eq!(value_of(&ds[0].1), Some(s("1")));
    assert_eq!(ds[1].0, "A");
    assert!(matches!(ds[1].1, VarChange::Append(_)));
    assert_eq!(ds[2].0, "B");
    assert!(matches!(ds[2].1, VarChange::Unset));
}

#[test]
fn read_untrusted_has_no_directives() {
    let (d, allowed, ds) = read(&s("/a"), "set FOO bar", false);
    assert_eq!(d, "/a");
    assert!(!allowed);
    assert!(ds.is_empty());
    let (_, allowed, ds) = read(&s("/a"), "set FOO bar", true);
    assert!(allowed);
    assert_eq!(ds.len(), 1);
}

#[test]
fn apply_change_cases() {
    let some = Some(s("a"));
    assert_eq!(apply_change(&some, &VarChange::Unset), None);
    assert_eq!(apply_change(&some, &VarChange::Assign(s("b"))), Some(s("b")));
    assert_eq!(apply_change(&some, &VarChange::Append(s("b"))), Some(s("ab")));
    assert_eq!(apply_change(&some, &VarChange::Prepend(s("b"))), Some(s("ba")));
    assert_eq!(apply_change(&None, &VarChange::Append(s("b"))), Some(s("b")));
    assert_eq!(apply_change(&None, &VarChange::Prepend(s("b"))), Some(s("b")));
}

#[test]
fn hash_covers_path_and_content() {
    assert_eq!(compute_hash("ab", "c"), "a9993e364706816aba3e25717850c26c9cd0d89d");
    assert_eq!(
        compute_hash("/a/.env", "set FOO bar\n"),
        "706210de6dc562b6b18dbd58a5dd04ed7db4cb5a"
    );
    assert_ne!(compute_hash("/a/.env", "set FOO bar\n"), compute_hash("/a/.env", "set FOO baz\n"));
}

#[test]
fn shell_commands() {
    assert_eq!(make_shell_command("FOO", &Some(s("a b"))), "export FOO='a b'");
    assert_eq!(make_shell_command("FOO", &None), "unset FOO");
}

#[test]
fn directory_containment_is_by_component() {
    assert!(dir_contains("/", "/a"));
    assert!(dir_contains("/a", "/a"));
    assert!(dir_contains("/a", "/a/b"));
    assert!(!dir_contains("/a", "/ab"));
    assert!(!dir_contains("/a/b", "/a"));
}

#[test]
fn parent_dirs_root_first() {
    assert_eq!(enumerate_parent_dirs(&s("/a/b/c")), vec![s("/"), s("/a"), s("/a/b"), s("/a/b/c")]);
    assert_eq!(enumerate_parent_dirs(&s("/")), vec![s("/")]);
    assert_eq!(target_dirs(&s("/a/b/c"), Some(&s("/a"))), vec![s("/a/b"), s("/a/b/c")]);
    assert_eq!(target_dirs(&s("/a/b"), None), vec![s("/"), s("/a"), s("/a/b")]);
    assert!(target_dirs(&s("/a"), Some(&s("/a"))).is_empty());
}

#[test]
fn split_keeps_ancestor_prefix() {
    let e = |d: &str| Entry { dir: s(d), allowed: true, before: Vec::new() };
    let stack = vec![e("/a"), e("/a/b"), e("/a/b/c")];
    assert_eq!(split_undo_and_kept(&stack, &s("/a/b/d")), 2);
    assert_eq!(split_undo_and_kept(&stack, &s("/ab")), 0);
    assert_eq!(split_undo_and_kept(&stack, &s("/a/b/c/d")), 3);
}

#[test]
fn set_then_append_and_back() {
    let files = vec![file("/a", "set FOO bar"), file("/a/b", "append FOO baz")];
    let (stack, vars) = load(&Vec::new(), &s("/a/b"), &files, &Vec::new());
    assert_eq!(commands(&vars), vec![s("export FOO='barbaz'")]);
    assert_eq!(stack.len(), 2);
    assert_eq!(stack[1].before, vec![(s("FOO"), Some(s("bar")))]);
    assert!(target_dirs(&s("/a"), Some(&s("/a"))).is_empty());
    let (stack2, vars2) = load(&stack, &s("/a"), &Vec::new(), &Vec::new());
    assert_eq!(commands(&vars2), vec![s("export FOO='bar'")]);
    assert_eq!(stack2.len(), 1);
    assert_eq!(stack2[0].dir, "/a");
}

#[test]
fn unset_and_restore_ambient() {
    let ambient = vec![(s("PATH"), Some(s("/usr/bin")))];
    let files = vec![file("/a", "unset PATH")];
    let (stack, vars) = load(&Vec::new(), &s("/a"), &files, &ambient);
    assert_eq!(commands(&vars), vec![s("unset PATH")]);
    let (stack2, vars2) = load(&stack, &s("/x"), &Vec::new(), &ambient);
    assert_eq!(commands(&vars2), vec![s("export PATH='/usr/bin'")]);
    assert!(stack2.is_empty());
}

#[test]
fn untrusted_file_records_entry_only() {
    let files = vec![read(&s("/a"), "set FOO bar", false)];
    let (stack, vars) = load(&Vec::new(), &s("/a"), &files, &Vec::new());
    assert!(vars.is_empty());
    assert_eq!(stack.len(), 1);
    assert!(!stack[0].allowed);
    let (_, vars2) = load(&stack, &s("/"), &Vec::new(), &Vec::new());
    assert!(vars2.is_empty());
}

#[test]
fn rerun_changes_nothing() {
    let files = vec![file("/a", "set FOO bar\nprepend PATH /a/bin:")];
    let ambient = vec![(s("PATH"), Some(s("/usr/bin")))];
    let (stack, vars) = load(&Vec::new(), &s("/a/b"), &files, &ambient);
    assert_eq!(vars.len(), 2);
    let (stack2, vars2) = load(&stack, &s("/a/b"), &Vec::new(), &ambient);
    assert!(vars2.is_empty());
    assert_eq!(stack2.len(), stack.len());
    assert_eq!(stack2[0].dir, stack[0].dir);
    assert_eq!(stack2[0].before, stack[0].before);
}

#[test]
fn deepest_undone_first() {
    let files = vec![file("/a", "set X 1"), file("/a/b", "set X 2"), file("/a/b/c", "unset X")];
    let ambient = vec![(s("X"), Some(s("0")))];
    let (stack, vars) = load(&Vec::new(), &s("/a/b/c"), &files, &ambient);
    assert_eq!(commands(&vars), vec![s("unset X")]);
    let (_, vars2) = load(&stack, &s("/z"), &Vec::new(), &ambient);
    assert_eq!(commands(&vars2), vec![s("export X='0'")]);
    let (_, vars3) = load(&stack, &s("/a/q"), &Vec::new(), &ambient);
    assert_eq!(commands(&vars3), vec![s("export X='1'")]);
}

#[test]
fn normal_paths() {
    assert!(is_normal_dir("/"));
    assert!(is_normal_dir("/a/b"));
    assert!(!is_normal_dir(""));
    assert!(!is_normal_dir("a/b"));
    assert!(!is_normal_dir("/a/"));
    assert!(!is_normal_dir("/a//b"));
}

#[test]
fn candidates_start_below_kept() {
    let e = |d: &str| Entry { dir: s(d), allowed: true, before: Vec::new() };
    let stack = vec![e("/a"), e("/a/b"), e("/q")];
    assert_eq!(candidate_dirs(&stack, &s("/a/b/c/d")), vec![s("/a/b/c"), s("/a/b/c/d")]);
    assert_eq!(candidate_dirs(&stack, &s("/x")), vec![s("/"), s("/x")]);
    assert_eq!(candidate_dirs(&Vec::new(), &s("/a")), vec![s("/"), s("/a")]);
}
