//! The lines of a file, as a reader hands them out: each ends behind its
//! line feed, and the last one where the file ends.

use crate::text::from_utf8;
use vstd::prelude::*;
use vstd::slice::slice_subrange;
use vstd::utf8::{decode_utf8, encode_utf8, encode_utf8_decode_utf8, valid_utf8};

verus! {

/// The byte that ends a line.
pub const LINE_FEED: u8 = 10;

/// The lines of `bytes`. A byte begins a line if it is the first of the
/// file or follows a line feed, and belongs to the line before it otherwise.
pub open spec fn split_lines(bytes: Seq<u8>) -> Seq<Seq<u8>>
    decreases bytes.len(),
{
    if bytes.len() == 0 {
        Seq::empty()
    } else {
        let before = bytes.drop_last();
        let lines = split_lines(before);
        if before.len() == 0 || before.last() == LINE_FEED {
            lines.push(seq![bytes.last()])
        } else {
            lines.update(lines.len() - 1, lines.last().push(bytes.last()))
        }
    }
}

/// Whether `bytes` end where a line ends: behind a line feed, or empty.
pub open spec fn ends_line(bytes: Seq<u8>) -> bool {
    bytes.len() == 0 || bytes.last() == LINE_FEED
}

/// Whether `line` is one line: not empty, with no line feed but at its end.
pub open spec fn is_line(line: Seq<u8>) -> bool {
    &&& line.len() > 0
    &&& forall|i: int| 0 <= i < line.len() - 1 ==> line[i] != LINE_FEED
}

/// Whether every line of `lines` is valid UTF-8.
pub open spec fn valid_lines(lines: Seq<Seq<u8>>) -> bool {
    forall|i: int| 0 <= i < lines.len() ==> valid_utf8(#[trigger] lines[i])
}

/// The texts of lines that are valid UTF-8.
pub open spec fn decoded(lines: Seq<Seq<u8>>) -> Seq<Seq<char>> {
    Seq::new(lines.len(), |i: int| decode_utf8(lines[i]))
}

/// The bytes of `lines`, one line after the other.
pub open spec fn concat(lines: Seq<Seq<u8>>) -> Seq<u8>
    decreases lines.len(),
{
    if lines.len() == 0 {
        Seq::empty()
    } else {
        concat(lines.drop_last()) + lines.last()
    }
}

/// Bytes that are not empty have a line.
pub proof fn lemma_split_nonempty(bytes: Seq<u8>)
    requires
        bytes.len() > 0,
    ensures
        split_lines(bytes).len() > 0,
    decreases bytes.len(),
{
    let before = bytes.drop_last();
    if before.len() > 0 {
        lemma_split_nonempty(before);
    }
}

/// The lines of bytes that follow the end of a line are lines of the whole.
pub proof fn lemma_split_concat(a: Seq<u8>, b: Seq<u8>)
    requires
        ends_line(a),
    ensures
        split_lines(a + b) == split_lines(a) + split_lines(b),
    decreases b.len(),
{
    if b.len() == 0 {
        assert(a + b =~= a);
        assert(split_lines(a) + split_lines(b) =~= split_lines(a));
    } else {
        let shorter = b.drop_last();
        lemma_split_concat(a, shorter);
        assert((a + b).drop_last() =~= a + shorter);
        assert((a + b).last() == b.last());
        if shorter.len() == 0 {
            assert(a + shorter =~= a);
            assert(split_lines(a + b) =~= split_lines(a) + split_lines(b));
        } else {
            assert((a + shorter).last() == shorter.last());
            lemma_split_nonempty(shorter);
            assert(split_lines(a + b) =~= split_lines(a) + split_lines(b));
        }
    }
}

/// One line is all its lines.
pub proof fn lemma_split_one(line: Seq<u8>)
    requires
        is_line(line),
    ensures
        split_lines(line) == seq![line],
    decreases line.len(),
{
    let shorter = line.drop_last();
    if shorter.len() == 0 {
        assert(split_lines(shorter) =~= Seq::<Seq<u8>>::empty());
        assert(seq![line.last()] =~= line);
        assert(split_lines(line) =~= seq![line]);
    } else {
        assert(is_line(shorter)) by {
            assert forall|i: int| 0 <= i < shorter.len() - 1 implies shorter[i] != LINE_FEED by {
                assert(shorter[i] == line[i]);
            }
        }
        lemma_split_one(shorter);
        assert(shorter.last() == line[line.len() - 2]);
        assert(shorter.push(line.last()) =~= line);
        assert(seq![shorter].update(0, line) =~= seq![line]);
        assert(split_lines(line) =~= seq![line]);
    }
}

/// Behind the end of a line, one more line is one more line.
pub proof fn lemma_split_push(bytes: Seq<u8>, line: Seq<u8>)
    requires
        ends_line(bytes),
        is_line(line),
    ensures
        split_lines(bytes + line) == split_lines(bytes).push(line),
{
    lemma_split_concat(bytes, line);
    lemma_split_one(line);
    assert(split_lines(bytes) + seq![line] =~= split_lines(bytes).push(line));
}

/// The lines of a file are lines, each but the last ends with a line feed,
/// and together they are the file.
pub proof fn lemma_split_lines(bytes: Seq<u8>)
    ensures
        concat(split_lines(bytes)) == bytes,
        forall|i: int| 0 <= i < split_lines(bytes).len() ==> is_line(#[trigger] split_lines(bytes)[i]),
        forall|i: int|
            0 <= i < split_lines(bytes).len() - 1 ==> (#[trigger] split_lines(bytes)[i]).last()
                == LINE_FEED,
        bytes.len() > 0 ==> split_lines(bytes).len() > 0 && split_lines(bytes).last().last()
            == bytes.last(),
    decreases bytes.len(),
{
    if bytes.len() > 0 {
        let before = bytes.drop_last();
        let earlier = split_lines(before);
        let lines = split_lines(bytes);
        lemma_split_lines(before);
        if before.len() == 0 || before.last() == LINE_FEED {
            assert(lines.drop_last() =~= earlier);
            assert(concat(lines) =~= bytes);
            assert forall|i: int| 0 <= i < lines.len() implies is_line(#[trigger] lines[i]) by {
                if i < earlier.len() {
                    assert(lines[i] == earlier[i]);
                }
            }
            assert forall|i: int| 0 <= i < lines.len() - 1 implies (#[trigger] lines[i]).last()
                == LINE_FEED by {
                assert(lines[i] == earlier[i]);
            }
        } else {
            let n = earlier.len() - 1;
            assert(lines.drop_last() =~= earlier.drop_last());
            assert(concat(earlier) == concat(earlier.drop_last()) + earlier.last());
            assert(lines.last() == earlier.last().push(bytes.last()));
            assert(bytes =~= before.push(bytes.last()));
            assert(concat(lines) == concat(lines.drop_last()) + lines.last());
            assert(concat(lines) =~= bytes);
            assert forall|i: int| 0 <= i < lines.len() implies is_line(#[trigger] lines[i]) by {
                if i < n {
                    assert(lines[i] == earlier[i]);
                } else {
                    assert(is_line(earlier[n]));
                    assert forall|j: int| 0 <= j < lines[n].len() - 1 implies lines[n][j]
                        != LINE_FEED by {
                        if j < earlier[n].len() - 1 {
                            assert(lines[n][j] == earlier[n][j]);
                        }
                    }
                }
            }
            assert forall|i: int| 0 <= i < lines.len() - 1 implies (#[trigger] lines[i]).last()
                == LINE_FEED by {
                assert(lines[i] == earlier[i]);
            }
        }
    } else {
        assert(concat(split_lines(bytes)) =~= bytes);
    }
}

/// Why reading the lines of a file fails.
#[derive(Debug, Clone, Copy, PartialEq, Eq, Structural)]
pub enum ReadError {
    /// A line is not valid UTF-8.
    InvalidData,
}

/// The index just behind the line that begins at `start`.
fn line_end(content: &[u8], start: usize) -> (end: usize)
    requires
        start < content@.len(),
    ensures
        start < end <= content@.len(),
        is_line(content@.subrange(start as int, end as int)),
        end == content@.len() || content@[end - 1] == LINE_FEED,
{
    let mut i: usize = start;
    while i < content.len() && content[i] != LINE_FEED
        invariant
            start <= i <= content@.len(),
            forall|j: int| start <= j < i ==> content@[j] != LINE_FEED,
        decreases content@.len() - i,
    {
        i += 1;
    }
    if i < content.len() {
        i + 1
    } else {
        i
    }
}

/// Reads the line of `content` that begins at `start`: gives the index just
/// behind it and, if the line is valid UTF-8, its text.
pub(crate) fn read_line(content: &[u8], start: usize) -> (read: (usize, Option<&str>))
    requires
        start < content@.len(),
        ends_line(content@.take(start as int)),
    ensures
        start < read.0 <= content@.len(),
        read.0 < content@.len() ==> ends_line(content@.take(read.0 as int)),
        split_lines(content@.take(read.0 as int)) == split_lines(content@.take(start as int)).push(
            content@.subrange(start as int, read.0 as int),
        ),
        read.1 is Some <==> valid_utf8(content@.subrange(start as int, read.0 as int)),
        read.1 matches Some(text) ==> {
            &&& encode_utf8(text@) == content@.subrange(start as int, read.0 as int)
            &&& text@ == decode_utf8(content@.subrange(start as int, read.0 as int))
        },
        read.1 is None ==> !valid_lines(split_lines(content@)),
{
    let end = line_end(content, start);
    let chunk = slice_subrange(content, start, end);
    let text = from_utf8(chunk);
    proof {
        let bytes = content@;
        let before = bytes.take(start as int);
        let through = bytes.take(end as int);
        assert(through =~= before + chunk@);
        lemma_split_push(before, chunk@);
        if end < bytes.len() {
            assert(through.last() == bytes[end - 1]);
        }
        match text {
            Some(t) => {
                encode_utf8_decode_utf8(t@);
            },
            None => {
                let at = split_lines(before).len() as int;
                assert(split_lines(through)[at] == chunk@);
                if end < bytes.len() {
                    assert(bytes =~= through + bytes.skip(end as int));
                    lemma_split_concat(through, bytes.skip(end as int));
                    assert(split_lines(bytes)[at] == chunk@);
                } else {
                    assert(through =~= bytes);
                }
            },
        }
    }
    (end, text)
}

} // verus!
