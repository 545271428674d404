//! Which files of a git work tree are to be processed.

use crate::lines::{decoded, ends_line, read_line, split_lines, valid_lines, ReadError};
use crate::sorting::texts;
use vstd::prelude::*;
use vstd::string::{StrSliceExecFns, StringExecFns};
use vstd::utf8::valid_utf8;

verus! {

/// A selection of files from the git index.
#[derive(Debug, Clone, Copy, PartialEq, Eq, Structural)]
pub enum GitFiles {
    /// Every tracked file.
    All,
    /// The files with staged changes.
    Staged,
    /// The tracked files with unstaged changes.
    Modified,
}

impl GitFiles {
    /// The arguments of `cli_args`, as texts.
    pub open spec fn spec_cli_args(self) -> Seq<Seq<char>> {
        match self {
            GitFiles::All => seq!["ls-files"@],
            GitFiles::Staged => seq!["diff"@, "--cached"@, "--name-only"@],
            GitFiles::Modified => seq!["ls-files"@, "--modified"@],
        }
    }

    /// The words of `display`, as a text.
    pub open spec fn spec_display(self) -> Seq<char> {
        match self {
            GitFiles::All => "git files"@,
            GitFiles::Staged => "staged files"@,
            GitFiles::Modified => "modified files"@,
        }
    }

    /// The arguments to call `git` with, so that it lists the files of this
    /// selection, one per line.
    pub fn cli_args(&self) -> (args: &'static [&'static str])
        ensures
            args@.len() == self.spec_cli_args().len(),
            forall|i: int| 0 <= i < args@.len() ==> args@[i]@ == self.spec_cli_args()[i],
    {
        match self {
            GitFiles::All => &["ls-files"],
            GitFiles::Staged => &["diff", "--cached", "--name-only"],
            GitFiles::Modified => &["ls-files", "--modified"],
        }
    }

    /// The words that name this selection in a message.
    pub fn display(&self) -> (words: &'static str)
        ensures
            words@ == self.spec_display(),
    {
        match self {
            GitFiles::All => "git files",
            GitFiles::Staged => "staged files",
            GitFiles::Modified => "modified files",
        }
    }
}

/// `line` without the line end it has: a line feed, or a carriage return
/// and a line feed.
pub open spec fn without_line_end(line: Seq<char>) -> Seq<char> {
    if line.len() > 0 && line.last() == '\n' {
        let rest = line.drop_last();
        if rest.len() > 0 && rest.last() == '\r' {
            rest.drop_last()
        } else {
            rest
        }
    } else {
        line
    }
}

/// The file names that git printed as `output`: its lines, each without its
/// line end.
pub open spec fn listed_names(output: Seq<u8>) -> Seq<Seq<char>> {
    Seq::new(
        split_lines(output).len(),
        |i: int| without_line_end(decoded(split_lines(output))[i]),
    )
}

/// `line` without its line end.
fn strip_line_end(line: &str) -> (name: &str)
    ensures
        name@ == without_line_end(line@),
{
    let n = line.unicode_len();
    if n > 0 && line.get_char(n - 1) == '\n' {
        if n > 1 && line.get_char(n - 2) == '\r' {
            assert(line@.subrange(0, n - 2) =~= line@.drop_last().drop_last());
            line.substring_char(0, n - 2)
        } else {
            assert(line@.subrange(0, n - 1) =~= line@.drop_last());
            line.substring_char(0, n - 1)
        }
    } else {
        line
    }
}

/// The file names in what git printed: one for each line of `output`, in
/// order. Fails if a line is not valid UTF-8.
pub fn listed_files(output: &[u8]) -> (files: Result<Vec<String>, ReadError>)
    ensures
        files is Ok <==> valid_lines(split_lines(output@)),
        files is Err ==> files == Err::<Vec<String>, ReadError>(ReadError::InvalidData),
        files matches Ok(names) ==> texts(names@) == listed_names(output@),
{
    let ghost bytes = output@;
    let mut names: Vec<String> = Vec::new();
    let mut pos: usize = 0;
    proof {
        assert(bytes.take(0) =~= Seq::<u8>::empty());
        assert(texts(names@) =~= listed_names(bytes.take(0)));
    }
    while pos < output.len()
        invariant
            pos <= output@.len(),
            output@ == bytes,
            pos < bytes.len() ==> ends_line(bytes.take(pos as int)),
            valid_lines(split_lines(bytes.take(pos as int))),
            texts(names@) == listed_names(bytes.take(pos as int)),
        decreases output@.len() - pos,
    {
        let ghost seen = split_lines(bytes.take(pos as int));
        let (end, text) = read_line(output, pos);
        let ghost found = split_lines(bytes.take(end as int));
        match text {
            None => {
                return Err(ReadError::InvalidData);
            },
            Some(line) => {
                let ghost listed = texts(names@);
                let ghost held = names@;
                assert(listed.len() == seen.len());
                names.push(String::from_str(strip_line_end(line)));
                proof {
                    let now = listed_names(bytes.take(end as int));
                    assert(found == seen.push(bytes.subrange(pos as int, end as int)));
                    assert(names@.len() == seen.len() + 1);
                    assert(now.len() == found.len());
                    assert forall|i: int| 0 <= i < now.len() implies texts(names@)[i] == now[i] by {
                        if i < seen.len() {
                            assert(found[i] == seen[i]);
                            assert(names@[i] == held[i]);
                            assert(texts(names@)[i] == listed[i]);
                            assert(listed[i] == listed_names(bytes.take(pos as int))[i]);
                        }
                    }
                    assert forall|i: int| 0 <= i < found.len() implies valid_utf8(
                        #[trigger] found[i],
                    ) by {
                        if i < seen.len() {
                            assert(found[i] == seen[i]);
                        }
                    }
                    assert(texts(names@) =~= listed_names(bytes.take(end as int)));
                }
            },
        }
        pos = end;
    }
    proof {
        assert(bytes.take(pos as int) =~= bytes);
    }
    Ok(names)
}

} // verus!
