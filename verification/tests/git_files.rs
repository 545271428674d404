use sort_lines::git_files::{listed_files, GitFiles};
use sort_lines::lines::ReadError;
use std::io::BufRead;

#[test]
fn all_lists_the_tracked_files() {
    assert_eq!(GitFiles::All.cli_args(), ["ls-files"]);
    assert_eq!(GitFiles::All.display(), "git files");
}

#[test]
fn staged_lists_the_names_in_the_index_diff() {
    assert_eq!(GitFiles::Staged.cli_args(), ["diff", "--cached", "--name-only"]);
    assert_eq!(GitFiles::Staged.display(), "staged files");
}

#[test]
fn modified_lists_the_modified_tracked_files() {
    assert_eq!(GitFiles::Modified.cli_args(), ["ls-files", "--modified"]);
    assert_eq!(GitFiles::Modified.display(), "modified files");
}

#[test]
fn each_line_of_the_listing_is_a_file() {
    let files = listed_files(b"src/main.rs\nREADME.md\ndocs/a b.txt\n").unwrap();
    assert_eq!(files, ["src/main.rs", "README.md", "docs/a b.txt"]);
}

#[test]
fn empty_listing_names_no_file() {
    assert!(listed_files(b"").unwrap().is_empty());
}

#[test]
fn last_line_of_the_listing_needs_no_line_end() {
    assert_eq!(listed_files(b"a.rs\nb.rs").unwrap(), ["a.rs", "b.rs"]);
}

#[test]
fn carriage_return_before_the_line_feed_is_dropped() {
    assert_eq!(listed_files(b"a.rs\r\nb.rs\r\n").unwrap(), ["a.rs", "b.rs"]);
    assert_eq!(listed_files(b"a.rs\r\r\nb\rc\n").unwrap(), ["a.rs\r", "b\rc"]);
    assert_eq!(listed_files(b"a.rs\r").unwrap(), ["a.rs\r"]);
}

#[test]
fn empty_lines_of_the_listing_are_empty_names() {
    assert_eq!(listed_files(b"\n\r\nx\n\n").unwrap(), ["", "", "x", ""]);
}

#[test]
fn names_keep_their_characters() {
    assert_eq!(
        listed_files("\u{e9}t\u{e9}.txt\n\u{65e5}\u{672c}.md\n".as_bytes()).unwrap(),
        ["\u{e9}t\u{e9}.txt", "\u{65e5}\u{672c}.md"]
    );
}

#[test]
fn listing_agrees_with_the_lines_of_a_reader() {
    for output in ["", "a", "a\n", "a\r\n", "\r", "\n\n", "a\rb\r\n\r\nc", "x\r\r\n"] {
        let wanted: Vec<String> = output.as_bytes().lines().map(|line| line.unwrap()).collect();
        assert_eq!(listed_files(output.as_bytes()).unwrap(), wanted, "{:?}", output);
    }
}

#[test]
fn listing_that_is_not_utf8_fails() {
    assert_eq!(listed_files(b"a.rs\n\xff.rs\n"), Err(ReadError::InvalidData));
    assert_eq!(listed_files(b"a.rs\nb\xc3"), Err(ReadError::InvalidData));
}
