use sort_lines::git_files::GitFiles;
use sort_lines::report::{error_line, plan_files, status_line, Plan};

fn names(files: &[&str]) -> Vec<String> {
    files.iter().map(|f| f.to_string()).collect()
}

#[test]
fn named_files_alone_are_the_files() {
    match plan_files(None, names(&["a.rs", "b.rs"])) {
        Plan::Sort(files) => assert_eq!(files, ["a.rs", "b.rs"]),
        Plan::Nothing(notice) => panic!("{}", notice),
    }
}

#[test]
fn no_named_files_without_git_is_an_empty_run() {
    match plan_files(None, Vec::new()) {
        Plan::Sort(files) => assert!(files.is_empty()),
        Plan::Nothing(notice) => panic!("{}", notice),
    }
}

#[test]
fn git_files_come_before_named_files() {
    match plan_files(Some((GitFiles::Staged, names(&["x.py", "y.py"]))), names(&["a.rs"])) {
        Plan::Sort(files) => assert_eq!(files, ["x.py", "y.py", "a.rs"]),
        Plan::Nothing(notice) => panic!("{}", notice),
    }
}

#[test]
fn named_files_alone_with_an_empty_git_listing() {
    match plan_files(Some((GitFiles::All, Vec::new())), names(&["a.rs"])) {
        Plan::Sort(files) => assert_eq!(files, ["a.rs"]),
        Plan::Nothing(notice) => panic!("{}", notice),
    }
}

#[test]
fn empty_git_selection_gives_notice() {
    for (selection, wanted) in [
        (GitFiles::All, "there are no git files to sort"),
        (GitFiles::Staged, "there are no staged files to sort"),
        (GitFiles::Modified, "there are no modified files to sort"),
    ] {
        match plan_files(Some((selection, Vec::new())), Vec::new()) {
            Plan::Nothing(notice) => assert_eq!(notice, wanted),
            Plan::Sort(files) => panic!("{:?}", files),
        }
    }
}

#[test]
fn changed_file_is_reported_by_its_name() {
    assert_eq!(status_line("src/main.rs", true), "src/main.rs");
}

#[test]
fn unchanged_file_is_reported_dimmed() {
    assert_eq!(status_line("src/main.rs", false), "\x1b[30msrc/main.rs\x1b[0m");
}

#[test]
fn failure_is_reported_with_its_reason() {
    assert_eq!(
        error_line("gone.rs", "No such file or directory (os error 2)"),
        "error sorting gone.rs: No such file or directory (os error 2)"
    );
}
