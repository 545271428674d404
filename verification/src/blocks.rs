//! Where the blocks of a file lie: the lines of a file, their byte offsets,
//! and the spans that a start marker opens and an end marker closes.

use crate::delimiter::{is_end_marker, is_start_marker};
use crate::sorting::{inserted, insert_position, lemma_insert_position, stable_sorted, texts};
use vstd::prelude::*;
use vstd::utf8::encode_utf8;

verus! {

/// The bytes of a file whose lines are `lines`: their UTF-8 forms, one after
/// the other.
pub open spec fn joined(lines: Seq<Seq<char>>) -> Seq<u8>
    decreases lines.len(),
{
    if lines.len() == 0 {
        Seq::empty()
    } else {
        joined(lines.drop_last()) + encode_utf8(lines.last())
    }
}

/// The byte offset at which line `n` of `lines` begins, which for the number
/// of lines is the length of the file.
pub open spec fn offset_of(lines: Seq<Seq<char>>, n: int) -> nat {
    joined(lines.take(n)).len()
}

/// The lines of a closed block: `first` is the index of the line after the
/// start marker, `end` the index of the end marker.
pub struct Span {
    pub first: int,
    pub end: int,
}

/// The index of the first line of the block that is open once `lines` have
/// been read, if one is.
pub open spec fn open_block(delimiter: Seq<char>, lines: Seq<Seq<char>>) -> Option<int>
    decreases lines.len(),
{
    if lines.len() == 0 {
        None
    } else {
        match open_block(delimiter, lines.drop_last()) {
            None => if is_start_marker(delimiter, lines.last()) {
                Some(lines.len() as int)
            } else {
                None
            },
            Some(first) => if is_end_marker(delimiter, lines.last()) {
                None
            } else {
                Some(first)
            },
        }
    }
}

/// The blocks that have been closed once `lines` have been read, in the
/// order of the file.
pub open spec fn closed_spans(delimiter: Seq<char>, lines: Seq<Seq<char>>) -> Seq<Span>
    decreases lines.len(),
{
    if lines.len() == 0 {
        Seq::empty()
    } else {
        let before = closed_spans(delimiter, lines.drop_last());
        match open_block(delimiter, lines.drop_last()) {
            Some(first) => if is_end_marker(delimiter, lines.last()) {
                before.push(Span { first, end: lines.len() - 1 })
            } else {
                before
            },
            None => before,
        }
    }
}

/// What is recorded of a block: the offsets just behind its two marker
/// lines, and its lines in sorted order. An end offset of 0 says that the
/// block was never closed.
pub struct BlockView {
    pub start_offset: nat,
    pub end_offset: nat,
    pub lines: Seq<Seq<char>>,
}

/// The record of the closed block `span` of the file `lines`.
pub open spec fn closed_record(lines: Seq<Seq<char>>, span: Span) -> BlockView {
    BlockView {
        start_offset: offset_of(lines, span.first),
        end_offset: offset_of(lines, span.end + 1),
        lines: stable_sorted(lines.subrange(span.first, span.end)),
    }
}

/// The record of a block that begins at line `first` of `lines` and is still
/// open at their end.
pub open spec fn open_record(lines: Seq<Seq<char>>, first: int) -> BlockView {
    BlockView {
        start_offset: offset_of(lines, first),
        end_offset: 0,
        lines: stable_sorted(lines.subrange(first, lines.len() as int)),
    }
}

/// The records of the closed blocks of `lines`, in the order of the file.
pub open spec fn closed_records(delimiter: Seq<char>, lines: Seq<Seq<char>>) -> Seq<BlockView> {
    Seq::new(
        closed_spans(delimiter, lines).len(),
        |k: int| closed_record(lines, closed_spans(delimiter, lines)[k]),
    )
}

/// The records of all blocks of `lines`: the closed ones, then the one that
/// the end of the file left open, if any.
pub open spec fn block_records(delimiter: Seq<char>, lines: Seq<Seq<char>>) -> Seq<BlockView> {
    match open_block(delimiter, lines) {
        Some(first) => closed_records(delimiter, lines).push(open_record(lines, first)),
        None => closed_records(delimiter, lines),
    }
}

/// One block of a file: the byte offsets just behind its start marker line
/// and just behind its end marker line, and its lines in sorted order. An
/// end offset of 0 says that the end of the file came before an end marker.
#[derive(Debug)]
pub struct Block {
    pub start_offset: u64,
    pub end_offset: u64,
    pub lines: Vec<String>,
}

impl View for Block {
    type V = BlockView;

    open spec fn view(&self) -> BlockView {
        BlockView {
            start_offset: self.start_offset as nat,
            end_offset: self.end_offset as nat,
            lines: texts(self.lines@),
        }
    }
}

/// The records that a list of blocks holds.
pub open spec fn block_views(blocks: Seq<Block>) -> Seq<BlockView> {
    Seq::new(blocks.len(), |k: int| blocks[k]@)
}

impl Block {
    /// Whether an end marker closed this block.
    pub fn is_closed(&self) -> (closed: bool)
        ensures
            closed == (self@.end_offset != 0),
    {
        self.end_offset != 0
    }

    /// The bytes to write at `start_offset`: the sorted lines, each with the
    /// line end it came with.
    pub fn bytes(&self) -> (data: Vec<u8>)
        ensures
            data@ == joined(self@.lines),
    {
        let mut data: Vec<u8> = Vec::new();
        let mut i: usize = 0;
        while i < self.lines.len()
            invariant
                i <= self.lines.len(),
                data@ == joined(texts(self.lines@).take(i as int)),
            decreases self.lines.len() - i,
        {
            let ghost all = texts(self.lines@);
            assert(all.take(i + 1).drop_last() =~= all.take(i as int));
            assert(all.take(i + 1).last() == self.lines@[i as int]@);
            data.extend_from_slice(self.lines[i].as_str().as_bytes());
            i += 1;
        }
        assert(texts(self.lines@).take(i as int) =~= texts(self.lines@));
        data
    }
}

/// The bytes of two runs of lines, one after the other, are the bytes of
/// the first and then those of the second.
pub proof fn lemma_joined_concat(a: Seq<Seq<char>>, b: Seq<Seq<char>>)
    ensures
        joined(a + b) == joined(a) + joined(b),
    decreases b.len(),
{
    if b.len() == 0 {
        assert(a + b =~= a);
        assert(joined(a) + joined(b) =~= joined(a));
    } else {
        lemma_joined_concat(a, b.drop_last());
        assert((a + b).drop_last() =~= a + b.drop_last());
        assert((a + b).last() == b.last());
        assert(joined(a + b) =~= joined(a) + joined(b));
    }
}

/// The bytes of a single line.
pub proof fn lemma_joined_one(line: Seq<char>)
    ensures
        joined(seq![line]) == encode_utf8(line),
{
    assert(seq![line].drop_last() =~= Seq::<Seq<char>>::empty());
    assert(joined(Seq::<Seq<char>>::empty()) =~= Seq::<u8>::empty());
    assert(seq![line].last() == line);
    assert(joined(seq![line]) =~= encode_utf8(line));
}

/// Inserting a line adds its bytes to the length and nothing else.
pub proof fn lemma_joined_inserted_len(list: Seq<Seq<char>>, line: Seq<char>)
    ensures
        joined(inserted(list, line)).len() == joined(list).len() + encode_utf8(line).len(),
{
    let p = insert_position(list, line);
    lemma_insert_position(list, line);
    assert(list.insert(p, line) =~= list.take(p) + seq![line] + list.skip(p));
    assert(list =~= list.take(p) + list.skip(p));
    lemma_joined_concat(list.take(p), list.skip(p));
    lemma_joined_concat(list.take(p), seq![line]);
    lemma_joined_concat(list.take(p) + seq![line], list.skip(p));
    lemma_joined_one(line);
}

/// Sorting does not change the number of bytes.
pub proof fn lemma_joined_sorted_len(lines: Seq<Seq<char>>)
    ensures
        joined(stable_sorted(lines)).len() == joined(lines).len(),
    decreases lines.len(),
{
    if lines.len() > 0 {
        lemma_joined_sorted_len(lines.drop_last());
        lemma_joined_inserted_len(stable_sorted(lines.drop_last()), lines.last());
    }
}

/// Offsets do not go down along the file.
pub proof fn lemma_offset_monotonic(lines: Seq<Seq<char>>, m: int, n: int)
    requires
        0 <= m <= n <= lines.len(),
    ensures
        offset_of(lines, m) <= offset_of(lines, n),
        offset_of(lines, n) == offset_of(lines, m) + joined(lines.subrange(m, n)).len(),
{
    assert(lines.take(n) =~= lines.take(m) + lines.subrange(m, n));
    lemma_joined_concat(lines.take(m), lines.subrange(m, n));
}

/// How the spans lie in the file. Each closed block begins behind a start
/// marker, ends at the first end marker that follows, and lies behind the
/// end marker of the block before it; so does a block that is still open.
pub proof fn lemma_span_structure(delimiter: Seq<char>, lines: Seq<Seq<char>>)
    ensures
        forall|k: int|
            #![trigger closed_spans(delimiter, lines)[k]]
            0 <= k < closed_spans(delimiter, lines).len() ==> {
                let span = closed_spans(delimiter, lines)[k];
                &&& 1 <= span.first <= span.end < lines.len()
                &&& is_start_marker(delimiter, lines[span.first - 1])
                &&& is_end_marker(delimiter, lines[span.end])
                &&& forall|i: int|
                    span.first <= i < span.end ==> !is_end_marker(delimiter, #[trigger] lines[i])
                &&& k > 0 ==> closed_spans(delimiter, lines)[k - 1].end + 2 <= span.first
            },
        open_block(delimiter, lines) matches Some(first) ==> {
            &&& 1 <= first <= lines.len()
            &&& is_start_marker(delimiter, lines[first - 1])
            &&& forall|i: int|
                first <= i < lines.len() ==> !is_end_marker(delimiter, #[trigger] lines[i])
            &&& closed_spans(delimiter, lines).len() > 0 ==> closed_spans(
                delimiter,
                lines,
            ).last().end + 2 <= first
        },
    decreases lines.len(),
{
    if lines.len() > 0 {
        let before = lines.drop_last();
        lemma_span_structure(delimiter, before);
        let spans = closed_spans(delimiter, lines);
        let earlier = closed_spans(delimiter, before);
        assert forall|k: int| #![trigger spans[k]] 0 <= k < spans.len() implies {
            let span = spans[k];
            &&& 1 <= span.first <= span.end < lines.len()
            &&& is_start_marker(delimiter, lines[span.first - 1])
            &&& is_end_marker(delimiter, lines[span.end])
            &&& forall|i: int|
                span.first <= i < span.end ==> !is_end_marker(delimiter, #[trigger] lines[i])
            &&& k > 0 ==> spans[k - 1].end + 2 <= span.first
        } by {
            let span = spans[k];
            if k < earlier.len() {
                assert(span == earlier[k]);
                assert(lines[span.first - 1] == before[span.first - 1]);
                assert(lines[span.end] == before[span.end]);
                assert forall|i: int| span.first <= i < span.end implies !is_end_marker(
                    delimiter,
                    #[trigger] lines[i],
                ) by {
                    assert(lines[i] == before[i]);
                }
                if k > 0 {
                    assert(spans[k - 1] == earlier[k - 1]);
                }
            } else {
                let first = open_block(delimiter, before).unwrap();
                assert(span == Span { first, end: lines.len() - 1 });
                assert(lines[first - 1] == before[first - 1]);
                assert forall|i: int| span.first <= i < span.end implies !is_end_marker(
                    delimiter,
                    #[trigger] lines[i],
                ) by {
                    assert(lines[i] == before[i]);
                }
                if k > 0 {
                    assert(spans[k - 1] == earlier.last());
                }
            }
        }
        if let Some(first) = open_block(delimiter, lines) {
            if first < lines.len() {
                assert(open_block(delimiter, before) == Some(first));
                assert(lines[first - 1] == before[first - 1]);
                assert forall|i: int| first <= i < lines.len() implies !is_end_marker(
                    delimiter,
                    #[trigger] lines[i],
                ) by {
                    if i < before.len() {
                        assert(lines[i] == before[i]);
                    }
                }
            }
        }
    }
}

/// What is recorded of a closed block does not change when lines follow.
pub proof fn lemma_closed_record_stays(lines: Seq<Seq<char>>, line: Seq<char>, span: Span)
    requires
        0 <= span.first <= span.end < lines.len(),
    ensures
        closed_record(lines.push(line), span) == closed_record(lines, span),
{
    let more = lines.push(line);
    assert(more.take(span.first) =~= lines.take(span.first));
    assert(more.take(span.end + 1) =~= lines.take(span.end + 1));
    assert(more.subrange(span.first, span.end) =~= lines.subrange(span.first, span.end));
}

} // verus!
