use sort_lines::sorting::insertion_sort;
use sort_lines::text::{bytes_less, sorts_before};

fn sorted(lines: &[&str]) -> Vec<String> {
    let mut list = Vec::new();
    for line in lines {
        insertion_sort(&mut list, line.to_string());
    }
    list
}

#[test]
fn insert_into_empty_list() {
    let mut list = Vec::new();
    insertion_sort(&mut list, "pear\n".to_string());
    assert_eq!(list, ["pear\n"]);
}

#[test]
fn insert_before_the_first_greater_entry() {
    let mut list = vec!["apple\n".to_string(), "cherry\n".to_string()];
    insertion_sort(&mut list, "banana\n".to_string());
    assert_eq!(list, ["apple\n", "banana\n", "cherry\n"]);
}

#[test]
fn insert_at_the_front() {
    let mut list = vec!["banana\n".to_string(), "cherry\n".to_string()];
    insertion_sort(&mut list, "Apple\n".to_string());
    assert_eq!(list, ["Apple\n", "banana\n", "cherry\n"]);
}

#[test]
fn insert_at_the_end() {
    let mut list = vec!["apple\n".to_string(), "banana\n".to_string()];
    insertion_sort(&mut list, "Cherry\n".to_string());
    assert_eq!(list, ["apple\n", "banana\n", "Cherry\n"]);
}

#[test]
fn insert_takes_the_list_as_it_is() {
    let mut list = vec!["zebra\n".to_string(), "apple\n".to_string()];
    insertion_sort(&mut list, "mango\n".to_string());
    assert_eq!(list, ["mango\n", "zebra\n", "apple\n"]);
}

#[test]
fn case_is_ignored() {
    assert_eq!(sorted(&["banana\n", "Apple\n", "cherry\n"]), ["Apple\n", "banana\n", "cherry\n"]);
    assert_eq!(sorted(&["b\n", "C\n", "a\n", "D\n"]), ["a\n", "b\n", "C\n", "D\n"]);
}

#[test]
fn lines_that_sort_alike_keep_their_order() {
    assert_eq!(
        sorted(&["apple\n", "Apple\n", "APPLE\n", "aPPle\n"]),
        ["apple\n", "Apple\n", "APPLE\n", "aPPle\n"]
    );
    assert_eq!(
        sorted(&["b\n", "A\n", "B\n", "a\n", "b\n"]),
        ["A\n", "a\n", "b\n", "B\n", "b\n"]
    );
}

#[test]
fn blank_line_sorts_first() {
    assert_eq!(sorted(&["b\n", "\n", "a\n"]), ["\n", "a\n", "b\n"]);
}

#[test]
fn line_end_takes_part_in_the_order() {
    assert_eq!(sorted(&["ab\n", "a\n", "a b\n"]), ["a\n", "a b\n", "ab\n"]);
    assert_eq!(sorted(&["a\n", "a"]), ["a", "a\n"]);
}

#[test]
fn lower_case_is_that_of_unicode() {
    assert_eq!(sorted(&["\u{e9}clair\n", "zebra\n", "\u{c9}CLAIR\n", "\u{c9}a\n"]), [
        "zebra\n",
        "\u{c9}a\n",
        "\u{e9}clair\n",
        "\u{c9}CLAIR\n"
    ]);
    assert!(sorts_before("\u{c9}a", "\u{e9}b"));
    assert!(!sorts_before("\u{e9}b", "\u{c9}a"));
}

#[test]
fn sorted_result_is_in_order_and_a_reordering() {
    let input = ["pear\n", "Fig\n", "apple\n", "fig\n", "Banana\n", "  kiwi\n", "\n", "APPLE\n"];
    let output = sorted(&input);
    assert_eq!(output.len(), input.len());
    for pair in output.windows(2) {
        assert!(pair[0].to_lowercase() <= pair[1].to_lowercase());
    }
    let mut a: Vec<String> = input.iter().map(|s| s.to_string()).collect();
    let mut b = output.clone();
    a.sort();
    b.sort();
    assert_eq!(a, b);
    assert_eq!(output, ["\n", "  kiwi\n", "apple\n", "APPLE\n", "Banana\n", "Fig\n", "fig\n", "pear\n"]);
}

#[test]
fn sorting_twice_is_sorting_once() {
    let once = sorted(&["d\n", "B\n", "a\n", "b\n", "C\n"]);
    let again: Vec<&str> = once.iter().map(|s| s.as_str()).collect();
    assert_eq!(sorted(&again), once);
}

#[test]
fn sorts_before_compares_lower_case_forms() {
    assert!(sorts_before("Apple", "banana"));
    assert!(!sorts_before("banana", "Apple"));
    assert!(!sorts_before("apple", "APPLE"));
    assert!(!sorts_before("APPLE", "apple"));
    assert!(sorts_before("", "a"));
    assert!(!sorts_before("", ""));
    assert!(sorts_before("a", "Z"));
    assert!(!sorts_before("Z", "a"));
}

#[test]
fn bytes_compare_lexicographically() {
    assert!(bytes_less(b"", b"a"));
    assert!(!bytes_less(b"", b""));
    assert!(!bytes_less(b"a", b""));
    assert!(bytes_less(b"a", b"ab"));
    assert!(!bytes_less(b"ab", b"a"));
    assert!(bytes_less(b"ab", b"b"));
    assert!(bytes_less(b"abc", b"abd"));
    assert!(!bytes_less(b"abd", b"abc"));
    assert!(!bytes_less(b"abc", b"abc"));
    assert!(bytes_less(&[0x7f], &[0x80]));
}
