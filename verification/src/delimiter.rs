//! The comment delimiter of a file and the two marker lines built from it.

use crate::text::{lowercase, str_eq, to_lowercase, trim_start, trimmed_start};
use vstd::prelude::*;
use vstd::string::StringExecFns;

verus! {

/// The delimiter that files with the extension `extension` take by default.
/// `extension` is in lower case.
pub open spec fn default_delimiter(extension: Seq<char>) -> Seq<char> {
    if extension == "sh"@ || extension == "bash"@ || extension == "fish"@ || extension == "nu"@ {
        "#"@
    } else if extension == "py"@ || extension == "rb"@ || extension == "pl"@ || extension == "ex"@
        || extension == "nix"@ || extension == "toml"@ || extension == "yaml"@ {
        "#"@
    } else if extension == "lua"@ || extension == "hs"@ || extension == "lhs"@ || extension
        == "sql"@ {
        "--"@
    } else if extension == "ini"@ || extension == "asm"@ || extension == "s"@ {
        ";"@
    } else if extension == "bat"@ || extension == "cmd"@ {
        "@REM"@
    } else {
        "//"@
    }
}

/// The text of a string that may be missing.
pub open spec fn text_of(text: Option<&str>) -> Option<Seq<char>> {
    match text {
        Some(text) => Some(text@),
        None => None,
    }
}

/// The delimiter in use: the one given, else the default for the file's
/// extension, else `//`.
pub open spec fn chosen_delimiter(
    explicit: Option<Seq<char>>,
    extension: Option<Seq<char>>,
) -> Seq<char> {
    match explicit {
        Some(delimiter) => delimiter,
        None => match extension {
            Some(extension) => default_delimiter(lowercase(extension)),
            None => "//"@,
        },
    }
}

/// The line that opens a block, after its leading white space.
pub open spec fn start_marker(delimiter: Seq<char>) -> Seq<char> {
    delimiter + " sort-lines: start\n"@
}

/// The line that closes a block, after its leading white space.
pub open spec fn end_marker(delimiter: Seq<char>) -> Seq<char> {
    delimiter + " sort-lines: end\n"@
}

/// Whether `line` opens a block: after its leading white space it is the
/// start marker, to the last character.
pub open spec fn is_start_marker(delimiter: Seq<char>, line: Seq<char>) -> bool {
    trimmed_start(line) == start_marker(delimiter)
}

/// Whether `line` closes a block: after its leading white space it is the
/// end marker, to the last character.
pub open spec fn is_end_marker(delimiter: Seq<char>, line: Seq<char>) -> bool {
    trimmed_start(line) == end_marker(delimiter)
}

/// The default delimiter for an extension that is already in lower case.
pub fn delimiter_for_lowercase(extension: &str) -> (delimiter: &'static str)
    ensures
        delimiter@ == default_delimiter(extension@),
{
    if str_eq(extension, "sh") || str_eq(extension, "bash") || str_eq(extension, "fish")
        || str_eq(extension, "nu") {
        "#"
    } else if str_eq(extension, "py") || str_eq(extension, "rb") || str_eq(extension, "pl")
        || str_eq(extension, "ex") || str_eq(extension, "nix") || str_eq(extension, "toml")
        || str_eq(extension, "yaml") {
        "#"
    } else if str_eq(extension, "lua") || str_eq(extension, "hs") || str_eq(extension, "lhs")
        || str_eq(extension, "sql") {
        "--"
    } else if str_eq(extension, "ini") || str_eq(extension, "asm") || str_eq(extension, "s") {
        ";"
    } else if str_eq(extension, "bat") || str_eq(extension, "cmd") {
        "@REM"
    } else {
        "//"
    }
}

/// The default delimiter for a file extension, whatever its case.
pub fn auto_detect_delim(extension: &str) -> (delimiter: &'static str)
    ensures
        delimiter@ == default_delimiter(lowercase(extension@)),
{
    let lowered = to_lowercase(extension);
    delimiter_for_lowercase(lowered.as_str())
}

/// The delimiter to use for a file: `explicit` if there is one, else the
/// default for `extension`, the extension of the file's name, else `//`.
pub fn choose_delimiter<'a>(explicit: Option<&'a str>, extension: Option<&str>) -> (delimiter:
    &'a str)
    ensures
        delimiter@ == chosen_delimiter(text_of(explicit), text_of(extension)),
{
    match explicit {
        Some(given) => given,
        None => match extension {
            Some(e) => auto_detect_delim(e),
            None => "//",
        },
    }
}

/// The start marker line for `delimiter`.
pub fn make_start_marker(delimiter: &str) -> (marker: String)
    ensures
        marker@ == start_marker(delimiter@),
{
    String::from_str(delimiter).concat(" sort-lines: start\n")
}

/// The end marker line for `delimiter`.
pub fn make_end_marker(delimiter: &str) -> (marker: String)
    ensures
        marker@ == end_marker(delimiter@),
{
    String::from_str(delimiter).concat(" sort-lines: end\n")
}

/// Whether `line`, after its leading white space, is `marker`.
pub fn line_is_marker(line: &str, marker: &str) -> (same: bool)
    ensures
        same == (trimmed_start(line@) == marker@),
{
    str_eq(trim_start(line), marker)
}

} // verus!
