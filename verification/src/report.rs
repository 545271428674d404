//! Which files a run works on, and the line it prints for each.

use crate::git_files::GitFiles;
use crate::sorting::texts;
use vstd::prelude::*;
use vstd::string::StringExecFns;

verus! {

/// What a run has to do.
#[derive(Debug)]
pub enum Plan {
    /// Sort these files, in this order.
    Sort(Vec<String>),
    /// There is no file to sort: say so with this notice.
    Nothing(String),
}

/// The notice that a selection from git holds no file.
pub open spec fn empty_notice(selection: GitFiles) -> Seq<char> {
    "there are no "@ + selection.spec_display() + " to sort"@
}

/// The line that reports a file: its name, dimmed if no block was closed
/// in it.
pub open spec fn status_text(file: Seq<char>, had_changes: bool) -> Seq<char> {
    if had_changes {
        file
    } else {
        "\x1b[30m"@ + file + "\x1b[0m"@
    }
}

/// The line that reports a file that could not be sorted.
pub open spec fn error_text(file: Seq<char>, error: Seq<char>) -> Seq<char> {
    "error sorting "@ + file + ": "@ + error
}

/// Decides what a run works on. With a selection from git, the files that
/// git listed come first and the named files follow; if there is none of
/// either, there is nothing to do but give notice. Without one, the named
/// files are the files.
pub fn plan_files(listed: Option<(GitFiles, Vec<String>)>, named: Vec<String>) -> (plan: Plan)
    ensures
        match listed {
            Some((selection, files)) => if files@.len() + named@.len() == 0 {
                plan matches Plan::Nothing(notice) && notice@ == empty_notice(selection)
            } else {
                plan matches Plan::Sort(all) && texts(all@) == texts(files@) + texts(named@)
            },
            None => plan matches Plan::Sort(all) && all == named,
        },
{
    match listed {
        Some((selection, files)) => {
            let mut all = files;
            let mut rest = named;
            all.append(&mut rest);
            if all.len() == 0 {
                let notice = String::from_str("there are no ").concat(selection.display()).concat(
                    " to sort",
                );
                Plan::Nothing(notice)
            } else {
                assert(texts(all@) =~= texts(files@) + texts(named@));
                Plan::Sort(all)
            }
        },
        None => Plan::Sort(named),
    }
}

/// The line that reports `file`: its name, dimmed if no block was closed
/// in it.
pub fn status_line(file: &str, had_changes: bool) -> (line: String)
    ensures
        line@ == status_text(file@, had_changes),
{
    if had_changes {
        String::from_str(file)
    } else {
        String::from_str("\x1b[30m").concat(file).concat("\x1b[0m")
    }
}

/// The line that reports that `file` could not be sorted, and why.
pub fn error_line(file: &str, error: &str) -> (line: String)
    ensures
        line@ == error_text(file@, error@),
{
    String::from_str("error sorting ").concat(file).concat(": ").concat(error)
}

} // verus!
