//! The whole operation on the bytes of a file held in memory.

use crate::blocks::{
    block_records, block_views, closed_record, closed_records, closed_spans, joined,
    lemma_joined_concat, lemma_joined_sorted_len, lemma_offset_monotonic, lemma_span_structure,
    offset_of, open_block, open_record, Block, Span,
};
use crate::delimiter::{end_marker, is_end_marker, is_start_marker, start_marker};
use crate::lines::{decoded, ends_line, read_line, split_lines, valid_lines, ReadError};
use crate::scanner::Scanner;
use crate::sorting::{lemma_stable_sorted_is_sorted, stable_sorted};
use crate::text::trimmed_start;
use vstd::prelude::*;
use vstd::utf8::{encode_utf8, valid_utf8};

verus! {

/// The index in `spans` of the block that holds line `i` between its two
/// markers, if one does.
pub open spec fn span_at(spans: Seq<Span>, i: int) -> Option<int>
    decreases spans.len(),
{
    if spans.len() == 0 {
        None
    } else if spans.last().first <= i < spans.last().end {
        Some(spans.len() - 1)
    } else {
        span_at(spans.drop_last(), i)
    }
}

/// Line `i` of the file `lines` once the blocks `spans` are sorted: inside
/// a block, the line that sorting the block puts there; elsewhere, the line
/// that was there.
pub open spec fn sorted_line(lines: Seq<Seq<char>>, spans: Seq<Span>, i: int) -> Seq<char> {
    match span_at(spans, i) {
        Some(k) => stable_sorted(lines.subrange(spans[k].first, spans[k].end))[i
            - spans[k].first],
        None => lines[i],
    }
}

/// The file `lines` with the blocks `spans` sorted.
pub open spec fn with_sorted_spans(lines: Seq<Seq<char>>, spans: Seq<Span>) -> Seq<Seq<char>> {
    Seq::new(lines.len(), |i: int| sorted_line(lines, spans, i))
}

/// The file `lines` with every closed block sorted.
pub open spec fn sorted_lines(delimiter: Seq<char>, lines: Seq<Seq<char>>) -> Seq<Seq<char>> {
    with_sorted_spans(lines, closed_spans(delimiter, lines))
}

/// The bytes of a file after the operation: where every line is valid
/// UTF-8, the file with every closed block sorted; else the file as it was.
pub open spec fn sorted_content(delimiter: Seq<char>, content: Seq<u8>) -> Seq<u8> {
    if valid_lines(split_lines(content)) {
        joined(sorted_lines(delimiter, decoded(split_lines(content))))
    } else {
        content
    }
}

/// Each span lies inside a file of `n` lines and behind the span before it.
pub open spec fn spans_ordered(spans: Seq<Span>, n: int) -> bool {
    &&& forall|k: int|
        0 <= k < spans.len() ==> 0 <= (#[trigger] spans[k]).first <= spans[k].end < n
    &&& forall|j: int, k: int|
        0 <= j < k < spans.len() ==> (#[trigger] spans[j]).end < (#[trigger] spans[k]).first
}

/// The closed blocks of a file lie one behind the other.
pub proof fn lemma_closed_spans_ordered(delimiter: Seq<char>, lines: Seq<Seq<char>>)
    ensures
        spans_ordered(closed_spans(delimiter, lines), lines.len() as int),
{
    let spans = closed_spans(delimiter, lines);
    lemma_span_structure(delimiter, lines);
    assert forall|j: int, k: int| 0 <= j < k < spans.len() implies (#[trigger] spans[j]).end < (
    #[trigger] spans[k]).first by {
        lemma_consecutive_order(delimiter, lines, j, k);
    }
}

proof fn lemma_consecutive_order(delimiter: Seq<char>, lines: Seq<Seq<char>>, j: int, k: int)
    requires
        0 <= j < k < closed_spans(delimiter, lines).len(),
    ensures
        closed_spans(delimiter, lines)[j].end < closed_spans(delimiter, lines)[k].first,
    decreases k - j,
{
    let spans = closed_spans(delimiter, lines);
    lemma_span_structure(delimiter, lines);
    assert(spans[k - 1].end + 2 <= spans[k].first);
    if j < k - 1 {
        lemma_consecutive_order(delimiter, lines, j, k - 1);
        assert(0 <= spans[k - 1].first <= spans[k - 1].end);
    }
}

/// What `span_at` finds is a span that holds the line, and it finds one
/// where there is one.
pub proof fn lemma_span_at(spans: Seq<Span>, i: int)
    ensures
        span_at(spans, i) matches Some(k) ==> 0 <= k < spans.len() && spans[k].first <= i
            < spans[k].end,
        span_at(spans, i) is None ==> forall|k: int|
            0 <= k < spans.len() ==> !((#[trigger] spans[k]).first <= i < spans[k].end),
    decreases spans.len(),
{
    if spans.len() > 0 {
        let earlier = spans.drop_last();
        lemma_span_at(earlier, i);
        if span_at(spans, i) is None {
            assert forall|k: int| 0 <= k < spans.len() implies !((#[trigger] spans[k]).first <= i
                < spans[k].end) by {
                if k < earlier.len() {
                    assert(spans[k] == earlier[k]);
                }
            }
        }
    }
}

/// In a list of spans that lie one behind the other, the span that holds a
/// line is the one that `span_at` finds.
pub proof fn lemma_span_at_is(spans: Seq<Span>, n: int, i: int, k: int)
    requires
        spans_ordered(spans, n),
        0 <= k < spans.len(),
        spans[k].first <= i < spans[k].end,
    ensures
        span_at(spans, i) == Some(k),
{
    lemma_span_at(spans, i);
    match span_at(spans, i) {
        Some(found) => {
            if found < k {
                assert(spans[found].end < spans[k].first);
            } else if k < found {
                assert(spans[k].end < spans[found].first);
            }
        },
        None => {},
    }
}

/// Sorting one more block changes the lines between its markers and no
/// others; the blocks sorted before it lie in front of it.
pub proof fn lemma_one_more_span(lines: Seq<Seq<char>>, spans: Seq<Span>, k: int)
    requires
        spans_ordered(spans, lines.len() as int),
        0 <= k < spans.len(),
    ensures
        ({
            let before = with_sorted_spans(lines, spans.take(k));
            let after = with_sorted_spans(lines, spans.take(k + 1));
            let first = spans[k].first;
            let end = spans[k].end;
            &&& after == before.take(first) + stable_sorted(lines.subrange(first, end))
                + before.skip(end)
            &&& before.subrange(first, end) == lines.subrange(first, end)
            &&& before.skip(first) == lines.skip(first)
        }),
{
    let done = spans.take(k);
    let more = spans.take(k + 1);
    let before = with_sorted_spans(lines, done);
    let after = with_sorted_spans(lines, more);
    let first = spans[k].first;
    let end = spans[k].end;
    let sorted = stable_sorted(lines.subrange(first, end));
    lemma_stable_sorted_is_sorted(lines.subrange(first, end));
    assert(more.drop_last() =~= done);
    assert(more.last() == spans[k]);
    assert forall|i: int| first <= i < lines.len() implies #[trigger] before[i] == lines[i] by {
        lemma_span_at(done, i);
        if let Some(j) = span_at(done, i) {
            assert(done[j] == spans[j]);
            assert(spans[j].end < spans[k].first);
        }
    }
    assert(before.subrange(first, end) =~= lines.subrange(first, end));
    assert(before.skip(first) =~= lines.skip(first));
    let pieced = before.take(first) + sorted + before.skip(end);
    assert forall|i: int| 0 <= i < lines.len() implies after[i] == pieced[i] by {
        if first <= i < end {
            assert(more[k] == spans[k]);
            assert(pieced[i] == sorted[i - first]);
        } else {
            lemma_span_at(done, i);
            if let Some(j) = span_at(done, i) {
                assert(more[j] == done[j]);
            }
            assert(after[i] == before[i]);
            assert(pieced[i] == before[i]);
        }
    }
    assert(after =~= pieced);
}

/// Sorting blocks moves no line that begins behind them.
pub proof fn lemma_offsets_kept(lines: Seq<Seq<char>>, spans: Seq<Span>, k: int, n: int)
    requires
        spans_ordered(spans, lines.len() as int),
        0 <= k <= spans.len(),
        0 <= n <= lines.len(),
        forall|j: int| 0 <= j < k ==> (#[trigger] spans[j]).end <= n,
    ensures
        offset_of(with_sorted_spans(lines, spans.take(k)), n) == offset_of(lines, n),
    decreases k,
{
    if k == 0 {
        assert(spans.take(0) =~= Seq::<Span>::empty());
        assert(with_sorted_spans(lines, spans.take(0)) =~= lines);
    } else {
        let before = with_sorted_spans(lines, spans.take(k - 1));
        let after = with_sorted_spans(lines, spans.take(k));
        let first = spans[k - 1].first;
        let end = spans[k - 1].end;
        let block = lines.subrange(first, end);
        let sorted = stable_sorted(block);
        lemma_one_more_span(lines, spans, k - 1);
        lemma_stable_sorted_is_sorted(block);
        lemma_joined_sorted_len(block);
        assert forall|j: int| 0 <= j < k - 1 implies (#[trigger] spans[j]).end <= n by {
            assert(spans[j].end < spans[k - 1].first);
        }
        lemma_offsets_kept(lines, spans, k - 1, n);
        let head = before.take(first);
        let tail = before.subrange(end, n);
        assert(after.take(n) =~= head + sorted + tail);
        assert(before.take(n) =~= head + block + tail);
        lemma_joined_concat(head, sorted);
        lemma_joined_concat(head + sorted, tail);
        lemma_joined_concat(head, block);
        lemma_joined_concat(head + block, tail);
    }
}

/// Sorting one more block is one write into the bytes of the file: that
/// of the block's sorted lines at the offset behind its start marker. The
/// write ends in front of the block's end marker.
pub proof fn lemma_write_step(lines: Seq<Seq<char>>, spans: Seq<Span>, k: int)
    requires
        spans_ordered(spans, lines.len() as int),
        0 <= k < spans.len(),
    ensures
        ({
            let before = joined(with_sorted_spans(lines, spans.take(k)));
            let after = joined(with_sorted_spans(lines, spans.take(k + 1)));
            let at = offset_of(lines, spans[k].first) as int;
            let data = joined(stable_sorted(lines.subrange(spans[k].first, spans[k].end)));
            &&& at + data.len() == offset_of(lines, spans[k].end)
            &&& at + data.len() <= before.len()
            &&& before.len() == joined(lines).len()
            &&& after == before.take(at) + data + before.skip(at + data.len())
        }),
{
    let n = lines.len() as int;
    let first = spans[k].first;
    let end = spans[k].end;
    let block = lines.subrange(first, end);
    let sorted = stable_sorted(block);
    let done = with_sorted_spans(lines, spans.take(k));
    let more = with_sorted_spans(lines, spans.take(k + 1));
    let at = offset_of(lines, first) as int;
    lemma_one_more_span(lines, spans, k);
    lemma_joined_sorted_len(block);
    assert forall|j: int| 0 <= j < k implies (#[trigger] spans[j]).end <= first by {
        assert(spans[j].end < spans[k].first);
    }
    lemma_offsets_kept(lines, spans, k, first);
    assert forall|j: int| 0 <= j < k implies (#[trigger] spans[j]).end <= n by {}
    lemma_offsets_kept(lines, spans, k, n);
    assert(done.take(n) =~= done);
    assert(lines.take(n) =~= lines);
    lemma_offset_monotonic(lines, first, end);
    let head = done.take(first);
    let tail = done.skip(end);
    assert(done =~= head + block + tail);
    lemma_joined_concat(head, block);
    lemma_joined_concat(head + block, tail);
    lemma_joined_concat(head, sorted);
    lemma_joined_concat(head + sorted, tail);
    let before = joined(done);
    let data = joined(sorted);
    assert(before.take(at) =~= joined(head));
    assert(before.skip(at + data.len()) =~= joined(tail));
}

/// Leading white space is part of the line.
proof fn lemma_trimmed_start_len(text: Seq<char>)
    ensures
        trimmed_start(text).len() <= text.len(),
    decreases text.len(),
{
    if text.len() > 0 {
        lemma_trimmed_start_len(text.drop_first());
    }
}

/// A marker line has bytes.
proof fn lemma_marker_bytes(delimiter: Seq<char>, line: Seq<char>)
    requires
        is_start_marker(delimiter, line) || is_end_marker(delimiter, line),
    ensures
        encode_utf8(line).len() > 0,
{
    reveal_strlit(" sort-lines: start\n");
    reveal_strlit(" sort-lines: end\n");
    assert(start_marker(delimiter).len() > 0);
    assert(end_marker(delimiter).len() > 0);
    lemma_trimmed_start_len(line);
}

/// The offsets of a closed block lie in the file, behind its first byte and
/// one behind the other. So the end offset of a closed block is never the 0
/// that marks a block left open.
pub proof fn lemma_closed_record_offsets(delimiter: Seq<char>, lines: Seq<Seq<char>>, k: int)
    requires
        0 <= k < closed_spans(delimiter, lines).len(),
    ensures
        0 < closed_record(lines, closed_spans(delimiter, lines)[k]).start_offset,
        closed_record(lines, closed_spans(delimiter, lines)[k]).start_offset < closed_record(
            lines,
            closed_spans(delimiter, lines)[k],
        ).end_offset,
        closed_record(lines, closed_spans(delimiter, lines)[k]).end_offset <= joined(lines).len(),
{
    let span = closed_spans(delimiter, lines)[k];
    lemma_span_structure(delimiter, lines);
    lemma_marker_bytes(delimiter, lines[span.end]);
    lemma_marker_bytes(delimiter, lines[span.first - 1]);
    lemma_offset_monotonic(lines, span.first - 1, span.first);
    lemma_offset_monotonic(lines, span.first, span.end);
    lemma_offset_monotonic(lines, span.end, span.end + 1);
    lemma_offset_monotonic(lines, span.end + 1, lines.len() as int);
    assert(lines.take(lines.len() as int) =~= lines);
    let one = lines.subrange(span.end, span.end + 1);
    assert(one.last() == lines[span.end]);
    let other = lines.subrange(span.first - 1, span.first);
    assert(other.last() == lines[span.first - 1]);
}

/// Writes `data` over the bytes of `content` that begin at `at`.
fn write_at(content: &mut Vec<u8>, at: usize, data: &Vec<u8>)
    requires
        at + data@.len() <= old(content)@.len(),
    ensures
        final(content)@ == old(content)@.take(at as int) + data@ + old(content)@.skip(
            at + data@.len(),
        ),
{
    let size = content.len();
    let mut i: usize = 0;
    while i < data.len()
        invariant
            i <= data@.len(),
            at + data@.len() <= size,
            content@.len() == size,
            size == old(content)@.len(),
            content@ == old(content)@.take(at as int) + data@.take(i as int) + old(content)@.skip(
                at + i,
            ),
        decreases data@.len() - i,
    {
        content[at + i] = data[i];
        i += 1;
        assert(content@ =~= old(content)@.take(at as int) + data@.take(i as int) + old(
            content,
        )@.skip(at + i));
    }
    assert(data@.take(i as int) =~= data@);
}

/// Reads the lines of `content` into a scanner, up to the first line that
/// is not valid UTF-8.
fn scan_content(content: &Vec<u8>, delimiter: &str) -> (scanner: Option<Scanner>)
    ensures
        scanner is Some <==> valid_lines(split_lines(content@)),
        scanner matches Some(s) ==> {
            &&& s.wf()
            &&& s.delimiter() == delimiter@
            &&& s.lines() == decoded(split_lines(content@))
            &&& joined(s.lines()) == content@
        },
{
    let ghost bytes = content@;
    let mut scanner = Scanner::new(delimiter);
    let mut pos: usize = 0;
    proof {
        assert(bytes.take(0) =~= Seq::<u8>::empty());
        assert(decoded(split_lines(bytes.take(0))) =~= Seq::<Seq<char>>::empty());
        assert(joined(Seq::<Seq<char>>::empty()) =~= bytes.take(0));
    }
    while pos < content.len()
        invariant
            pos <= content@.len(),
            content@ == bytes,
            pos < bytes.len() ==> ends_line(bytes.take(pos as int)),
            scanner.wf(),
            scanner.delimiter() == delimiter@,
            valid_lines(split_lines(bytes.take(pos as int))),
            scanner.lines() == decoded(split_lines(bytes.take(pos as int))),
            joined(scanner.lines()) == bytes.take(pos as int),
        decreases content@.len() - pos,
    {
        let ghost seen = split_lines(bytes.take(pos as int));
        let (end, text) = read_line(content.as_slice(), pos);
        let ghost found = split_lines(bytes.take(end as int));
        match text {
            None => {
                return None;
            },
            Some(line) => {
                let ghost fed = scanner.lines();
                proof {
                    assert(fed.push(line@).drop_last() =~= fed);
                    assert(bytes.take(end as int) =~= bytes.take(pos as int) + bytes.subrange(
                        pos as int,
                        end as int,
                    ));
                }
                scanner.feed(line);
                proof {
                    assert forall|i: int| 0 <= i < found.len() implies valid_utf8(
                        #[trigger] found[i],
                    ) by {
                        if i < seen.len() {
                            assert(found[i] == seen[i]);
                        }
                    }
                    assert(scanner.lines() =~= decoded(found));
                }
            },
        }
        pos = end;
    }
    proof {
        assert(bytes.take(pos as int) =~= bytes);
    }
    Some(scanner)
}

/// Writes the sorted lines of every closed block of `blocks` into
/// `content`, each at the offset behind its start marker.
fn write_blocks(
    content: &mut Vec<u8>,
    blocks: &Vec<Block>,
    Ghost(delimiter): Ghost<Seq<char>>,
    Ghost(lines): Ghost<Seq<Seq<char>>>,
)
    requires
        old(content)@ == joined(lines),
        block_views(blocks@) == block_records(delimiter, lines),
    ensures
        final(content)@ == joined(sorted_lines(delimiter, lines)),
{
    let ghost spans = closed_spans(delimiter, lines);
    let ghost records = block_records(delimiter, lines);
    proof {
        lemma_closed_spans_ordered(delimiter, lines);
        assert(spans.take(0) =~= Seq::<Span>::empty());
        assert(with_sorted_spans(lines, spans.take(0)) =~= lines);
        assert(block_views(blocks@).len() == blocks@.len());
    }
    let size = content.len();
    let mut k: usize = 0;
    while k < blocks.len()
        invariant
            k <= blocks@.len(),
            spans == closed_spans(delimiter, lines),
            records == block_records(delimiter, lines),
            spans_ordered(spans, lines.len() as int),
            block_views(blocks@) == records,
            spans.len() <= blocks@.len() <= spans.len() + 1,
            content@.len() == size,
            size == joined(lines).len(),
            k <= spans.len() ==> content@ == joined(with_sorted_spans(lines, spans.take(k as int))),
            k > spans.len() ==> content@ == joined(with_sorted_spans(lines, spans)),
        decreases blocks@.len() - k,
    {
        let block = &blocks[k];
        proof {
            assert(block_views(blocks@)[k as int] == block@);
            if k < spans.len() {
                assert(records[k as int] == closed_record(lines, spans[k as int]));
                lemma_closed_record_offsets(delimiter, lines, k as int);
                lemma_write_step(lines, spans, k as int);
            } else {
                assert(closed_records(delimiter, lines).len() == spans.len());
                assert(open_block(delimiter, lines) is Some);
                assert(records[k as int] == open_record(
                    lines,
                    open_block(delimiter, lines).unwrap(),
                ));
                assert(block@.end_offset == 0);
                assert(spans.take(spans.len() as int) =~= spans);
            }
        }
        if block.is_closed() {
            let data = block.bytes();
            write_at(content, block.start_offset as usize, &data);
        }
        k += 1;
    }
    proof {
        assert(spans.take(spans.len() as int) =~= spans);
    }
}

/// Sorts the lines of every closed block of a file whose bytes are
/// `content`, in place, and says whether a block was closed.
///
/// The file is read line by line. If a line is not valid UTF-8 the
/// operation fails and the bytes stay as they are.
pub fn sort_content(content: &mut Vec<u8>, delimiter: &str) -> (result: Result<
    bool,
    ReadError,
>)
    ensures
        result is Ok <==> valid_lines(split_lines(old(content)@)),
        result is Err ==> result == Err::<bool, ReadError>(ReadError::InvalidData),
        final(content)@ == sorted_content(delimiter@, old(content)@),
        result matches Ok(changed) ==> changed == (closed_spans(
            delimiter@,
            decoded(split_lines(old(content)@)),
        ).len() > 0),
{
    match scan_content(content, delimiter) {
        None => Err(ReadError::InvalidData),
        Some(scanner) => {
            let ghost lines = scanner.lines();
            let changed = scanner.changed();
            let blocks = scanner.finish();
            write_blocks(content, &blocks, Ghost(delimiter@), Ghost(lines));
            Ok(changed)
        },
    }
}

} // verus!
