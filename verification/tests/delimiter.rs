use sort_lines::delimiter::{
    auto_detect_delim, choose_delimiter, delimiter_for_lowercase,
    line_is_marker, make_end_marker, make_start_marker,
};

#[test]
fn every_known_extension_has_its_delimiter() {
    for extension in ["sh", "bash", "fish", "nu", "py", "rb", "pl", "ex", "nix", "toml", "yaml"] {
        assert_eq!(auto_detect_delim(extension), "#", "{}", extension);
    }
    for extension in ["lua", "hs", "lhs", "sql"] {
        assert_eq!(auto_detect_delim(extension), "--", "{}", extension);
    }
    for extension in ["ini", "asm", "s"] {
        assert_eq!(auto_detect_delim(extension), ";", "{}", extension);
    }
    for extension in ["bat", "cmd"] {
        assert_eq!(auto_detect_delim(extension), "@REM", "{}", extension);
    }
    for extension in ["c", "c++", "cpp", "js", "ts", "rs", "", "unknown"] {
        assert_eq!(auto_detect_delim(extension), "//", "{}", extension);
    }
}

#[test]
fn extension_is_matched_in_any_case() {
    assert_eq!(auto_detect_delim("PY"), "#");
    assert_eq!(auto_detect_delim("Lua"), "--");
    assert_eq!(auto_detect_delim("BAT"), "@REM");
    assert_eq!(auto_detect_delim("INI"), ";");
}

#[test]
fn table_lookup_takes_the_extension_as_it_is() {
    assert_eq!(delimiter_for_lowercase("py"), "#");
    assert_eq!(delimiter_for_lowercase("PY"), "//");
    assert_eq!(delimiter_for_lowercase("sql"), "--");
    assert_eq!(delimiter_for_lowercase("s"), ";");
    assert_eq!(delimiter_for_lowercase("cmd"), "@REM");
}

#[test]
fn explicit_delimiter_wins() {
    assert_eq!(choose_delimiter(Some(";;"), Some("py")), ";;");
    assert_eq!(choose_delimiter(Some("%"), None), "%");
}

#[test]
fn extension_decides_without_explicit_delimiter() {
    assert_eq!(choose_delimiter(None, Some("py")), "#");
    assert_eq!(choose_delimiter(None, Some("SQL")), "--");
    assert_eq!(choose_delimiter(None, Some("rs")), "//");
}

#[test]
fn double_slash_without_delimiter_and_extension() {
    assert_eq!(choose_delimiter(None, None), "//");
}

#[test]
fn markers_are_built_from_the_delimiter() {
    assert_eq!(make_start_marker("//"), "// sort-lines: start\n");
    assert_eq!(make_end_marker("//"), "// sort-lines: end\n");
    assert_eq!(make_start_marker("@REM"), "@REM sort-lines: start\n");
    assert_eq!(make_end_marker(""), " sort-lines: end\n");
}

#[test]
fn indentation_before_a_marker_is_ignored() {
    let marker = make_start_marker("#");
    assert!(line_is_marker("# sort-lines: start\n", &marker));
    assert!(line_is_marker("    # sort-lines: start\n", &marker));
    assert!(line_is_marker("\t\t# sort-lines: start\n", &marker));
    assert!(line_is_marker("\n \u{a0}\u{3000}# sort-lines: start\n", &marker));
}

#[test]
fn anything_else_about_a_marker_must_match() {
    let marker = make_start_marker("#");
    assert!(!line_is_marker("# sort-lines: start", &marker));
    assert!(!line_is_marker("# sort-lines: start \n", &marker));
    assert!(!line_is_marker("# sort-lines: start\r\n", &marker));
    assert!(!line_is_marker("# sort-lines: start # fruit\n", &marker));
    assert!(!line_is_marker("// sort-lines: start\n", &marker));
    assert!(!line_is_marker("#sort-lines: start\n", &marker));
    assert!(!line_is_marker("# sort-lines: end\n", &marker));
    assert!(!line_is_marker("x # sort-lines: start\n", &marker));
    assert!(!line_is_marker("", &marker));
}

#[test]
fn leading_white_space_is_what_unicode_calls_white_space() {
    for code in 0u32..=0x10FFFF {
        let Some(c) = char::from_u32(code) else { continue };
        let white = matches!(
            code,
            0x09..=0x0D
                | 0x20
                | 0x85
                | 0xA0
                | 0x1680
                | 0x2000..=0x200A
                | 0x2028
                | 0x2029
                | 0x202F
                | 0x205F
                | 0x3000
        );
        let line = format!("{}M", c);
        assert_eq!(line_is_marker(&line, "M"), white, "U+{:04X}", code);
    }
}
