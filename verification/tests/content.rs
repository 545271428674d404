use sort_lines::content::sort_content;
use sort_lines::lines::ReadError;
use sort_lines::delimiter::choose_delimiter;

fn run(text: &str, delimiter: &str) -> (String, bool) {
    let mut bytes = text.as_bytes().to_vec();
    let changed = sort_content(&mut bytes, delimiter).unwrap();
    (String::from_utf8(bytes).unwrap(), changed)
}

#[test]
fn sorts_a_block_without_regard_to_case() {
    let (text, changed) = run(
        "// sort-lines: start\nbanana\nApple\ncherry\n// sort-lines: end\n",
        "//",
    );
    assert_eq!(text, "// sort-lines: start\nApple\nbanana\ncherry\n// sort-lines: end\n");
    assert!(changed);
}

#[test]
fn python_file_ignores_double_slash_markers() {
    let delimiter = choose_delimiter(None, Some("py"));
    assert_eq!(delimiter, "#");
    let before = "// sort-lines: start\nb\na\n// sort-lines: end\n";
    let (text, changed) = run(before, delimiter);
    assert_eq!(text, before);
    assert!(!changed);
    let (text, changed) = run("# sort-lines: start\nb\na\n# sort-lines: end\n", delimiter);
    assert_eq!(text, "# sort-lines: start\na\nb\n# sort-lines: end\n");
    assert!(changed);
}

#[test]
fn file_without_a_marker_is_kept() {
    let before = "one\nTwo\nthree\n";
    let (text, changed) = run(before, "//");
    assert_eq!(text, before);
    assert!(!changed);
}

#[test]
fn empty_file_is_kept() {
    let (text, changed) = run("", "//");
    assert_eq!(text, "");
    assert!(!changed);
}

#[test]
fn sorted_block_still_counts_as_changed() {
    let before = "// sort-lines: start\na\nb\n// sort-lines: end\n";
    let (text, changed) = run(before, "//");
    assert_eq!(text, before);
    assert!(changed);
}

#[test]
fn second_run_changes_nothing() {
    let before = "x\n  # sort-lines: start\n  pear\n  Fig\n  apple\n  # sort-lines: end\ny\n# sort-lines: start\nb\nB\na\n";
    let (once, changed) = run(before, "#");
    assert!(changed);
    assert_eq!(
        once,
        "x\n  # sort-lines: start\n  apple\n  Fig\n  pear\n  # sort-lines: end\ny\n# sort-lines: start\nb\nB\na\n"
    );
    let (twice, changed) = run(&once, "#");
    assert_eq!(twice, once);
    assert!(changed);
}

#[test]
fn bytes_outside_the_block_are_kept() {
    let before = "head \u{e9}\n\t// sort-lines: start\nb\na\n\t// sort-lines: end\ntail without line end";
    let (after, changed) = run(before, "//");
    assert!(changed);
    let start = "head \u{e9}\n\t// sort-lines: start\n".len();
    let end = start + "b\na\n\t// sort-lines: end\n".len();
    assert_eq!(after.len(), before.len());
    assert_eq!(after.as_bytes()[..start], before.as_bytes()[..start]);
    assert_eq!(after.as_bytes()[end..], before.as_bytes()[end..]);
    assert_eq!(&after[start..end], "a\nb\n\t// sort-lines: end\n");
}

#[test]
fn unterminated_block_is_kept() {
    let before = "top\n// sort-lines: start\nb\na\n";
    let (text, changed) = run(before, "//");
    assert_eq!(text, before);
    assert!(!changed);
}

#[test]
fn unterminated_block_behind_a_closed_one_is_kept() {
    let (text, changed) = run(
        "// sort-lines: start\nb\na\n// sort-lines: end\n// sort-lines: start\nz\ny\n",
        "//",
    );
    assert_eq!(text, "// sort-lines: start\na\nb\n// sort-lines: end\n// sort-lines: start\nz\ny\n");
    assert!(changed);
}

#[test]
fn end_marker_at_the_end_of_the_file_needs_its_line_feed() {
    let before = "// sort-lines: start\nb\na\n// sort-lines: end";
    let (text, changed) = run(before, "//");
    assert_eq!(text, before);
    assert!(!changed);
}

#[test]
fn blocks_are_sorted_each_for_itself() {
    let (text, changed) = run(
        "; sort-lines: start\nz\na\n; sort-lines: end\nm\n; sort-lines: start\nb\nA\ny\n; sort-lines: end\n",
        ";",
    );
    assert_eq!(
        text,
        "; sort-lines: start\na\nz\n; sort-lines: end\nm\n; sort-lines: start\nA\nb\ny\n; sort-lines: end\n"
    );
    assert!(changed);
}

#[test]
fn blank_lines_in_a_block_come_first() {
    let (text, _) = run("// sort-lines: start\nb\n\na\n\n// sort-lines: end\n", "//");
    assert_eq!(text, "// sort-lines: start\n\n\na\nb\n// sort-lines: end\n");
}

#[test]
fn lines_with_carriage_return_are_sorted_but_are_no_markers() {
    let before = "// sort-lines: start\r\nb\r\na\r\n// sort-lines: end\r\n";
    let (text, changed) = run(before, "//");
    assert_eq!(text, before);
    assert!(!changed);
    let (text, changed) = run("// sort-lines: start\nb\r\na\r\n// sort-lines: end\n", "//");
    assert_eq!(text, "// sort-lines: start\na\r\nb\r\n// sort-lines: end\n");
    assert!(changed);
}

#[test]
fn marker_with_trailing_text_is_no_marker() {
    let before = "// sort-lines: start here\nb\na\n// sort-lines: end\n";
    let (text, changed) = run(before, "//");
    assert_eq!(text, before);
    assert!(!changed);
}

#[test]
fn every_delimiter_builds_its_markers() {
    for delimiter in ["//", "#", "--", ";", "@REM"] {
        let before = format!("{d} sort-lines: start\nb\na\n{d} sort-lines: end\n", d = delimiter);
        let wanted = format!("{d} sort-lines: start\na\nb\n{d} sort-lines: end\n", d = delimiter);
        let (text, changed) = run(&before, delimiter);
        assert_eq!(text, wanted);
        assert!(changed);
    }
}

#[test]
fn invalid_utf8_fails_and_keeps_the_bytes() {
    let mut bytes = b"// sort-lines: start\nb\n\xffa\n// sort-lines: end\n".to_vec();
    let before = bytes.clone();
    assert_eq!(sort_content(&mut bytes, "//"), Err(ReadError::InvalidData));
    assert_eq!(bytes, before);
}

#[test]
fn invalid_utf8_in_the_last_line_fails() {
    let mut bytes = b"// sort-lines: start\nb\na\n// sort-lines: end\n\xc3".to_vec();
    let before = bytes.clone();
    assert_eq!(sort_content(&mut bytes, "//"), Err(ReadError::InvalidData));
    assert_eq!(bytes, before);
}

#[test]
fn character_split_by_no_line_feed_is_valid() {
    let (text, changed) = run("// sort-lines: start\n\u{fc}\n\u{e4}\nz\n// sort-lines: end\n", "//");
    assert_eq!(text, "// sort-lines: start\nz\n\u{e4}\n\u{fc}\n// sort-lines: end\n");
    assert!(changed);
}
