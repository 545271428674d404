use sort_lines::blocks::Block;
use sort_lines::scanner::{Mode, Scanner};

fn scan(delimiter: &str, lines: &[&str]) -> (Vec<Block>, bool) {
    let mut scanner = Scanner::new(delimiter);
    for line in lines {
        scanner.feed(line);
    }
    let changed = scanner.changed();
    (scanner.finish(), changed)
}

#[test]
fn new_scanner_is_scanning_at_offset_zero() {
    let scanner = Scanner::new("//");
    assert_eq!(scanner.mode(), Mode::Scanning);
    assert_eq!(scanner.position(), 0);
    assert!(!scanner.changed());
    assert!(scanner.finish().is_empty());
}

#[test]
fn one_block_is_recorded_with_its_offsets() {
    let (blocks, changed) = scan(
        "//",
        &["// sort-lines: start\n", "banana\n", "Apple\n", "cherry\n", "// sort-lines: end\n"],
    );
    assert!(changed);
    assert_eq!(blocks.len(), 1);
    assert_eq!(blocks[0].start_offset, 21);
    assert_eq!(blocks[0].end_offset, 60);
    assert_eq!(blocks[0].lines, ["Apple\n", "banana\n", "cherry\n"]);
    assert!(blocks[0].is_closed());
    assert_eq!(blocks[0].bytes(), b"Apple\nbanana\ncherry\n");
}

#[test]
fn mode_and_position_follow_the_lines() {
    let mut scanner = Scanner::new("#");
    scanner.feed("head\n");
    assert_eq!(scanner.mode(), Mode::Scanning);
    assert_eq!(scanner.position(), 5);
    scanner.feed("  # sort-lines: start\n");
    assert_eq!(scanner.mode(), Mode::InsideBlock(27));
    assert_eq!(scanner.position(), 27);
    scanner.feed("b\n");
    assert_eq!(scanner.mode(), Mode::InsideBlock(27));
    assert_eq!(scanner.position(), 29);
    assert!(!scanner.changed());
    scanner.feed("  # sort-lines: end\n");
    assert_eq!(scanner.mode(), Mode::Scanning);
    assert_eq!(scanner.position(), 49);
    assert!(scanner.changed());
}

#[test]
fn offsets_count_bytes() {
    let (blocks, _) = scan(
        "//",
        &["\u{e9}t\u{e9}\n", "// sort-lines: start\n", "\u{fc}\n", "a\n", "// sort-lines: end\n"],
    );
    assert_eq!(blocks.len(), 1);
    assert_eq!(blocks[0].start_offset, 6 + 21);
    assert_eq!(blocks[0].end_offset, 6 + 21 + 3 + 2 + 19);
    assert_eq!(blocks[0].lines, ["a\n", "\u{fc}\n"]);
    assert_eq!(blocks[0].bytes(), "a\n\u{fc}\n".as_bytes());
}

#[test]
fn unterminated_block_has_end_offset_zero() {
    let (blocks, changed) = scan("//", &["// sort-lines: start\n", "b\n", "a\n"]);
    assert!(!changed);
    assert_eq!(blocks.len(), 1);
    assert_eq!(blocks[0].start_offset, 21);
    assert_eq!(blocks[0].end_offset, 0);
    assert!(!blocks[0].is_closed());
    assert_eq!(blocks[0].lines, ["a\n", "b\n"]);
}

#[test]
fn end_marker_without_line_feed_does_not_close() {
    let (blocks, changed) = scan("//", &["// sort-lines: start\n", "b\n", "// sort-lines: end"]);
    assert!(!changed);
    assert_eq!(blocks.len(), 1);
    assert_eq!(blocks[0].end_offset, 0);
    assert_eq!(blocks[0].lines, ["// sort-lines: end", "b\n"]);
}

#[test]
fn two_blocks_are_recorded_in_order() {
    let (blocks, changed) = scan(
        "//",
        &[
            "// sort-lines: start\n",
            "b\n",
            "a\n",
            "// sort-lines: end\n",
            "between\n",
            "// sort-lines: start\n",
            "z\n",
            "y\n",
            "// sort-lines: end\n",
            "tail\n",
        ],
    );
    assert!(changed);
    assert_eq!(blocks.len(), 2);
    assert_eq!((blocks[0].start_offset, blocks[0].end_offset), (21, 44));
    assert_eq!(blocks[0].lines, ["a\n", "b\n"]);
    assert_eq!((blocks[1].start_offset, blocks[1].end_offset), (73, 96));
    assert_eq!(blocks[1].lines, ["y\n", "z\n"]);
}

#[test]
fn closed_block_then_unterminated_block() {
    let (blocks, changed) = scan(
        "//",
        &["// sort-lines: start\n", "b\n", "a\n", "// sort-lines: end\n", "// sort-lines: start\n", "q\n"],
    );
    assert!(changed);
    assert_eq!(blocks.len(), 2);
    assert!(blocks[0].is_closed());
    assert!(!blocks[1].is_closed());
    assert_eq!(blocks[1].start_offset, 65);
    assert_eq!(blocks[1].lines, ["q\n"]);
}

#[test]
fn start_marker_inside_a_block_is_a_line_of_it() {
    let (blocks, _) = scan(
        "//",
        &["// sort-lines: start\n", "b\n", "// sort-lines: start\n", "a\n", "// sort-lines: end\n", "c\n"],
    );
    assert_eq!(blocks.len(), 1);
    assert_eq!(blocks[0].lines, ["// sort-lines: start\n", "a\n", "b\n"]);
    assert_eq!((blocks[0].start_offset, blocks[0].end_offset), (21, 65));
}

#[test]
fn end_marker_outside_a_block_is_passed_over() {
    let (blocks, changed) = scan("//", &["// sort-lines: end\n", "b\n", "a\n"]);
    assert!(!changed);
    assert!(blocks.is_empty());
}

#[test]
fn empty_block_is_closed() {
    let (blocks, changed) = scan("//", &["// sort-lines: start\n", "// sort-lines: end\n"]);
    assert!(changed);
    assert_eq!(blocks.len(), 1);
    assert_eq!((blocks[0].start_offset, blocks[0].end_offset), (21, 40));
    assert!(blocks[0].lines.is_empty());
    assert!(blocks[0].bytes().is_empty());
}

#[test]
fn markers_of_another_delimiter_are_ordinary_lines() {
    let (blocks, changed) = scan("#", &["// sort-lines: start\n", "b\n", "a\n", "// sort-lines: end\n"]);
    assert!(!changed);
    assert!(blocks.is_empty());
}

#[test]
fn indented_markers_are_found() {
    let (blocks, changed) = scan(
        "--",
        &["    -- sort-lines: start\n", "    b\n", "    a\n", "\t-- sort-lines: end\n"],
    );
    assert!(changed);
    assert_eq!(blocks.len(), 1);
    assert_eq!(blocks[0].lines, ["    a\n", "    b\n"]);
    assert_eq!((blocks[0].start_offset, blocks[0].end_offset), (25, 57));
}
