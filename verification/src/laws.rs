//! What holds of the operation as a whole.

use crate::blocks::{
    closed_record, closed_spans, joined, lemma_offset_monotonic, lemma_span_structure, offset_of,
    open_block, Span,
};
use crate::content::{
    lemma_closed_spans_ordered, lemma_span_at, lemma_span_at_is, lemma_write_step, sorted_content,
    sorted_lines, span_at, with_sorted_spans,
};
use crate::delimiter::{is_end_marker, is_start_marker};
use crate::lines::{
    concat, decoded, is_line, lemma_split_lines, lemma_split_push, split_lines, valid_lines,
    LINE_FEED,
};
use crate::sorting::{
    is_stable_sort, lemma_stable_sorted_idempotent, lemma_stable_sorted_is_sorted,
    lemma_stable_sorted_sorts, stable_sorted,
};
use vstd::prelude::*;
use vstd::utf8::{
    decode_utf8, decode_utf8_encode_utf8, encode_utf8, encode_utf8_decode_utf8,
    encode_utf8_valid_utf8, valid_utf8,
};

verus! {

/// Blocks are sorted each for itself: between the markers of a closed
/// block the file holds, after the operation, the sorted lines of that
/// block and of no other.
pub proof fn lemma_block_sorted_alone(delimiter: Seq<char>, lines: Seq<Seq<char>>, k: int)
    requires
        0 <= k < closed_spans(delimiter, lines).len(),
    ensures
        sorted_lines(delimiter, lines).len() == lines.len(),
        sorted_lines(delimiter, lines).subrange(
            closed_spans(delimiter, lines)[k].first,
            closed_spans(delimiter, lines)[k].end,
        ) == stable_sorted(
            lines.subrange(
                closed_spans(delimiter, lines)[k].first,
                closed_spans(delimiter, lines)[k].end,
            ),
        ),
{
    let spans = closed_spans(delimiter, lines);
    let span = spans[k];
    let block = lines.subrange(span.first, span.end);
    let after = sorted_lines(delimiter, lines);
    lemma_closed_spans_ordered(delimiter, lines);
    lemma_stable_sorted_is_sorted(block);
    assert forall|i: int| span.first <= i < span.end implies after[i] == stable_sorted(block)[i
        - span.first] by {
        lemma_span_at_is(spans, lines.len() as int, i, k);
    }
    assert(after.subrange(span.first, span.end) =~= stable_sorted(block));
}

/// Sort correctness: between the markers of a closed block the file holds,
/// after the operation, the lines that were there, in an order in which no
/// line sorts before an earlier one and lines that sort alike stay in the
/// order they had. The order is returned.
pub proof fn lemma_block_sort_correct(delimiter: Seq<char>, lines: Seq<Seq<char>>, k: int) -> (order:
    Seq<int>)
    requires
        0 <= k < closed_spans(delimiter, lines).len(),
    ensures
        is_stable_sort(
            sorted_lines(delimiter, lines).subrange(
                closed_spans(delimiter, lines)[k].first,
                closed_spans(delimiter, lines)[k].end,
            ),
            lines.subrange(
                closed_spans(delimiter, lines)[k].first,
                closed_spans(delimiter, lines)[k].end,
            ),
            order,
        ),
{
    let span = closed_spans(delimiter, lines)[k];
    lemma_block_sorted_alone(delimiter, lines, k);
    lemma_stable_sorted_sorts(lines.subrange(span.first, span.end))
}

/// A line that lies between the markers of no closed block is the same
/// line after the operation. The marker lines themselves are such lines.
pub proof fn lemma_line_outside_blocks_kept(delimiter: Seq<char>, lines: Seq<Seq<char>>, i: int)
    requires
        0 <= i < lines.len(),
        forall|k: int|
            0 <= k < closed_spans(delimiter, lines).len() ==> !((#[trigger] closed_spans(
                delimiter,
                lines,
            )[k]).first <= i < closed_spans(delimiter, lines)[k].end),
    ensures
        sorted_lines(delimiter, lines)[i] == lines[i],
{
    lemma_span_at(closed_spans(delimiter, lines), i);
}

/// A block that the end of the file leaves open is kept as it is, from its
/// start marker to the end of the file.
pub proof fn lemma_open_block_kept(delimiter: Seq<char>, lines: Seq<Seq<char>>, i: int)
    requires
        open_block(delimiter, lines) matches Some(first) && first - 1 <= i < lines.len(),
    ensures
        sorted_lines(delimiter, lines)[i] == lines[i],
{
    let spans = closed_spans(delimiter, lines);
    lemma_span_structure(delimiter, lines);
    lemma_closed_spans_ordered(delimiter, lines);
    assert forall|k: int| 0 <= k < spans.len() implies !((#[trigger] spans[k]).first <= i
        < spans[k].end) by {
        if k < spans.len() - 1 {
            assert(spans[k].end < spans[spans.len() - 1].first);
        }
    }
    lemma_line_outside_blocks_kept(delimiter, lines, i);
}

/// A file without an end marker has no closed block.
pub proof fn lemma_no_end_marker(delimiter: Seq<char>, lines: Seq<Seq<char>>)
    requires
        forall|i: int| 0 <= i < lines.len() ==> !is_end_marker(delimiter, #[trigger] lines[i]),
    ensures
        closed_spans(delimiter, lines).len() == 0,
{
    lemma_span_structure(delimiter, lines);
    let spans = closed_spans(delimiter, lines);
    if spans.len() > 0 {
        assert(is_end_marker(delimiter, lines[spans[0].end]));
    }
}

/// A file without a start marker has no closed block.
pub proof fn lemma_no_start_marker(delimiter: Seq<char>, lines: Seq<Seq<char>>)
    requires
        forall|i: int| 0 <= i < lines.len() ==> !is_start_marker(delimiter, #[trigger] lines[i]),
    ensures
        closed_spans(delimiter, lines).len() == 0,
        open_block(delimiter, lines) is None,
{
    lemma_span_structure(delimiter, lines);
    let spans = closed_spans(delimiter, lines);
    if spans.len() > 0 {
        assert(is_start_marker(delimiter, lines[spans[0].first - 1]));
    }
    if let Some(first) = open_block(delimiter, lines) {
        assert(is_start_marker(delimiter, lines[first - 1]));
    }
}

/// The texts of the lines of a file, put together again, are the file.
pub proof fn lemma_joined_decoded(lines: Seq<Seq<u8>>)
    requires
        valid_lines(lines),
    ensures
        joined(decoded(lines)) == concat(lines),
    decreases lines.len(),
{
    if lines.len() > 0 {
        let earlier = lines.drop_last();
        assert(valid_lines(earlier)) by {
            assert forall|i: int| 0 <= i < earlier.len() implies valid_utf8(
                #[trigger] earlier[i],
            ) by {
                assert(earlier[i] == lines[i]);
            }
        }
        lemma_joined_decoded(earlier);
        assert(decoded(lines).drop_last() =~= decoded(earlier));
        decode_utf8_encode_utf8(lines.last());
    } else {
        assert(joined(decoded(lines)) =~= concat(lines));
    }
}

/// Where no block is closed the operation keeps the file as it is, byte
/// for byte. So it does where the only start marker is followed by no end
/// marker, and where there is no start marker at all.
pub proof fn lemma_content_without_closed_block(delimiter: Seq<char>, content: Seq<u8>)
    requires
        closed_spans(delimiter, decoded(split_lines(content))).len() == 0,
    ensures
        sorted_content(delimiter, content) == content,
{
    let chunks = split_lines(content);
    if valid_lines(chunks) {
        let lines = decoded(chunks);
        lemma_joined_decoded(chunks);
        lemma_split_lines(content);
        assert(with_sorted_spans(lines, closed_spans(delimiter, lines)) =~= lines);
    }
}

/// Unterminated-block safety: a file in which no line is an end marker is
/// kept as it is, byte for byte, whatever start markers it holds, and no
/// block counts as closed.
pub proof fn lemma_content_without_end_marker(delimiter: Seq<char>, content: Seq<u8>)
    requires
        forall|i: int|
            0 <= i < split_lines(content).len() ==> !is_end_marker(
                delimiter,
                #[trigger] decoded(split_lines(content))[i],
            ),
    ensures
        sorted_content(delimiter, content) == content,
        closed_spans(delimiter, decoded(split_lines(content))).len() == 0,
{
    lemma_no_end_marker(delimiter, decoded(split_lines(content)));
    lemma_content_without_closed_block(delimiter, content);
}

/// A file in which no line is a start marker is kept as it is, byte for
/// byte, and no block counts as closed.
pub proof fn lemma_content_without_start_marker(delimiter: Seq<char>, content: Seq<u8>)
    requires
        forall|i: int|
            0 <= i < split_lines(content).len() ==> !is_start_marker(
                delimiter,
                #[trigger] decoded(split_lines(content))[i],
            ),
    ensures
        sorted_content(delimiter, content) == content,
        closed_spans(delimiter, decoded(split_lines(content))).len() == 0,
{
    lemma_no_start_marker(delimiter, decoded(split_lines(content)));
    lemma_content_without_closed_block(delimiter, content);
}

/// The operation keeps the length of the file and every byte that lies in
/// no closed block: no byte changes but from the offset behind a block's
/// start marker line to the offset behind its end marker line.
pub proof fn lemma_bytes_outside_blocks_kept(delimiter: Seq<char>, content: Seq<u8>, b: int)
    requires
        0 <= b < content.len(),
        valid_lines(split_lines(content)) ==> forall|k: int|
            #![trigger closed_spans(delimiter, decoded(split_lines(content)))[k]]
            0 <= k < closed_spans(delimiter, decoded(split_lines(content))).len() ==> {
                let record = closed_record(
                    decoded(split_lines(content)),
                    closed_spans(delimiter, decoded(split_lines(content)))[k],
                );
                !(record.start_offset <= b < record.end_offset)
            },
    ensures
        sorted_content(delimiter, content).len() == content.len(),
        sorted_content(delimiter, content)[b] == content[b],
{
    let chunks = split_lines(content);
    if valid_lines(chunks) {
        let lines = decoded(chunks);
        let spans = closed_spans(delimiter, lines);
        lemma_joined_decoded(chunks);
        lemma_split_lines(content);
        lemma_closed_spans_ordered(delimiter, lines);
        lemma_bytes_kept(delimiter, lines, spans.len() as int, b);
        assert(spans.take(spans.len() as int) =~= spans);
    }
}

/// Sorting the first `k` closed blocks keeps every byte outside them.
proof fn lemma_bytes_kept(delimiter: Seq<char>, lines: Seq<Seq<char>>, k: int, b: int)
    requires
        0 <= k <= closed_spans(delimiter, lines).len(),
        0 <= b < joined(lines).len(),
        forall|j: int|
            #![trigger closed_spans(delimiter, lines)[j]]
            0 <= j < k ==> !(closed_record(lines, closed_spans(delimiter, lines)[j]).start_offset
                <= b < closed_record(lines, closed_spans(delimiter, lines)[j]).end_offset),
    ensures
        joined(with_sorted_spans(lines, closed_spans(delimiter, lines).take(k))).len() == joined(
            lines,
        ).len(),
        joined(with_sorted_spans(lines, closed_spans(delimiter, lines).take(k)))[b] == joined(
            lines,
        )[b],
    decreases k,
{
    let spans = closed_spans(delimiter, lines);
    if k == 0 {
        assert(spans.take(0) =~= Seq::<Span>::empty());
        assert(with_sorted_spans(lines, spans.take(0)) =~= lines);
    } else {
        lemma_bytes_kept(delimiter, lines, k - 1, b);
        lemma_closed_spans_ordered(delimiter, lines);
        lemma_write_step(lines, spans, k - 1);
        lemma_span_structure(delimiter, lines);
        let span = spans[k - 1];
        lemma_offset_monotonic(lines, span.end, span.end + 1);
        let record = closed_record(lines, span);
        assert(!(record.start_offset <= b < record.end_offset));
    }
}

/// At the end marker of a closed block the block is open.
proof fn lemma_open_at_end_marker(delimiter: Seq<char>, lines: Seq<Seq<char>>, k: int)
    requires
        0 <= k < closed_spans(delimiter, lines).len(),
    ensures
        open_block(delimiter, lines.take(closed_spans(delimiter, lines)[k].end)) == Some(
            closed_spans(delimiter, lines)[k].first,
        ),
    decreases lines.len(),
{
    lemma_span_structure(delimiter, lines);
    let spans = closed_spans(delimiter, lines);
    let before = lines.drop_last();
    let earlier = closed_spans(delimiter, before);
    if k < earlier.len() {
        lemma_span_structure(delimiter, before);
        lemma_open_at_end_marker(delimiter, before, k);
        assert(spans[k] == earlier[k]);
        assert(lines.take(spans[k].end) =~= before.take(spans[k].end));
    } else {
        assert(lines.take(spans[k].end) =~= before);
    }
}

/// From the line behind its start marker to its end marker a closed block
/// is the open block.
proof fn lemma_open_inside(delimiter: Seq<char>, lines: Seq<Seq<char>>, k: int, n: int)
    requires
        0 <= k < closed_spans(delimiter, lines).len(),
        closed_spans(delimiter, lines)[k].first <= n <= closed_spans(delimiter, lines)[k].end,
    ensures
        open_block(delimiter, lines.take(n)) == Some(closed_spans(delimiter, lines)[k].first),
    decreases closed_spans(delimiter, lines)[k].end - n,
{
    let span = closed_spans(delimiter, lines)[k];
    lemma_span_structure(delimiter, lines);
    if n == span.end {
        lemma_open_at_end_marker(delimiter, lines, k);
    } else {
        lemma_open_inside(delimiter, lines, k, n + 1);
        assert(lines.take(n + 1).drop_last() =~= lines.take(n));
        assert(lines.take(n + 1).last() == lines[n]);
    }
}

/// Two files of the same length show the scanner the same markers: a start
/// marker where it looks for one, an end marker where it looks for one.
spec fn same_markers(delimiter: Seq<char>, lines: Seq<Seq<char>>, other: Seq<Seq<char>>) -> bool {
    &&& other.len() == lines.len()
    &&& forall|i: int|
        0 <= i < lines.len() ==> match open_block(delimiter, lines.take(i)) {
            None => is_start_marker(delimiter, #[trigger] other[i]) == is_start_marker(
                delimiter,
                lines[i],
            ),
            Some(_) => is_end_marker(delimiter, other[i]) == is_end_marker(delimiter, lines[i]),
        }
}

/// Files that show the scanner the same markers have the same blocks.
proof fn lemma_same_scan(
    delimiter: Seq<char>,
    lines: Seq<Seq<char>>,
    other: Seq<Seq<char>>,
    n: int,
)
    requires
        same_markers(delimiter, lines, other),
        0 <= n <= lines.len(),
    ensures
        open_block(delimiter, other.take(n)) == open_block(delimiter, lines.take(n)),
        closed_spans(delimiter, other.take(n)) == closed_spans(delimiter, lines.take(n)),
    decreases n,
{
    if n > 0 {
        lemma_same_scan(delimiter, lines, other, n - 1);
        assert(lines.take(n).drop_last() =~= lines.take(n - 1));
        assert(other.take(n).drop_last() =~= other.take(n - 1));
        assert(lines.take(n).last() == lines[n - 1]);
        assert(other.take(n).last() == other[n - 1]);
    }
}

/// Every line of a sorted block is a line of the block.
proof fn lemma_sorted_line_source(block: Seq<Seq<char>>, j: int) -> (source: int)
    requires
        0 <= j < block.len(),
    ensures
        0 <= source < block.len(),
        stable_sorted(block)[j] == block[source],
{
    let order = lemma_stable_sorted_sorts(block);
    assert(stable_sorted(block)[j] == block[order[j]]);
    order[j]
}

/// Every line of the file after the operation is a line of the file before
/// it, and one with a line behind it if it has a line behind it itself.
proof fn lemma_line_source(delimiter: Seq<char>, lines: Seq<Seq<char>>, i: int) -> (source: int)
    requires
        0 <= i < lines.len(),
    ensures
        0 <= source < lines.len(),
        sorted_lines(delimiter, lines)[i] == lines[source],
        i < lines.len() - 1 ==> source < lines.len() - 1,
        span_at(closed_spans(delimiter, lines), i) is None ==> source == i,
        span_at(closed_spans(delimiter, lines), i) matches Some(k) ==> closed_spans(
            delimiter,
            lines,
        )[k].first <= source < closed_spans(delimiter, lines)[k].end,
{
    let spans = closed_spans(delimiter, lines);
    lemma_span_at(spans, i);
    lemma_span_structure(delimiter, lines);
    match span_at(spans, i) {
        None => i,
        Some(k) => {
            let block = lines.subrange(spans[k].first, spans[k].end);
            let j = lemma_sorted_line_source(block, i - spans[k].first);
            spans[k].first + j
        },
    }
}

/// The operation moves no marker that the scanner looks for.
proof fn lemma_sorted_lines_markers(delimiter: Seq<char>, lines: Seq<Seq<char>>)
    ensures
        same_markers(delimiter, lines, sorted_lines(delimiter, lines)),
{
    let spans = closed_spans(delimiter, lines);
    let after = sorted_lines(delimiter, lines);
    lemma_span_structure(delimiter, lines);
    assert forall|i: int| 0 <= i < lines.len() implies match open_block(
        delimiter,
        lines.take(i),
    ) {
        None => is_start_marker(delimiter, #[trigger] after[i]) == is_start_marker(
            delimiter,
            lines[i],
        ),
        Some(_) => is_end_marker(delimiter, after[i]) == is_end_marker(delimiter, lines[i]),
    } by {
        let source = lemma_line_source(delimiter, lines, i);
        lemma_span_at(spans, i);
        if let Some(k) = span_at(spans, i) {
            lemma_open_inside(delimiter, lines, k, i);
            assert(!is_end_marker(delimiter, lines[source]));
            assert(!is_end_marker(delimiter, lines[i]));
        }
    }
}

/// The operation leaves the blocks of a file where they are.
pub proof fn lemma_sorted_lines_same_blocks(delimiter: Seq<char>, lines: Seq<Seq<char>>)
    ensures
        closed_spans(delimiter, sorted_lines(delimiter, lines)) == closed_spans(delimiter, lines),
        open_block(delimiter, sorted_lines(delimiter, lines)) == open_block(delimiter, lines),
{
    let after = sorted_lines(delimiter, lines);
    lemma_sorted_lines_markers(delimiter, lines);
    lemma_same_scan(delimiter, lines, after, lines.len() as int);
    assert(lines.take(lines.len() as int) =~= lines);
    assert(after.take(lines.len() as int) =~= after);
}

/// Idempotence on lines: the operation changes nothing in a file that it
/// has been through.
pub proof fn lemma_sorted_lines_idempotent(delimiter: Seq<char>, lines: Seq<Seq<char>>)
    ensures
        sorted_lines(delimiter, sorted_lines(delimiter, lines)) == sorted_lines(delimiter, lines),
{
    let spans = closed_spans(delimiter, lines);
    let once = sorted_lines(delimiter, lines);
    let twice = sorted_lines(delimiter, once);
    lemma_sorted_lines_same_blocks(delimiter, lines);
    assert forall|i: int| 0 <= i < lines.len() implies twice[i] == once[i] by {
        lemma_span_at(spans, i);
        if let Some(k) = span_at(spans, i) {
            let block = lines.subrange(spans[k].first, spans[k].end);
            lemma_block_sorted_alone(delimiter, lines, k);
            lemma_stable_sorted_idempotent(block);
        }
    }
    assert(twice =~= once);
}

/// The UTF-8 forms of the lines of `lines`.
spec fn encoded(lines: Seq<Seq<char>>) -> Seq<Seq<u8>> {
    Seq::new(lines.len(), |i: int| encode_utf8(lines[i]))
}

/// Lines that end with a line feed, but for the last, which need not, are
/// the lines of the file they make.
proof fn lemma_split_joined(lines: Seq<Seq<char>>)
    requires
        forall|i: int| 0 <= i < lines.len() ==> is_line(encode_utf8(#[trigger] lines[i])),
        forall|i: int|
            0 <= i < lines.len() - 1 ==> encode_utf8(#[trigger] lines[i]).last() == LINE_FEED,
    ensures
        split_lines(joined(lines)) == encoded(lines),
        lines.len() > 0 ==> joined(lines).len() > 0 && joined(lines).last() == encode_utf8(
            lines.last(),
        ).last(),
    decreases lines.len(),
{
    if lines.len() == 0 {
        assert(split_lines(joined(lines)) =~= encoded(lines));
    } else {
        let earlier = lines.drop_last();
        assert forall|i: int| 0 <= i < earlier.len() implies is_line(
            encode_utf8(#[trigger] earlier[i]),
        ) by {
            assert(earlier[i] == lines[i]);
        }
        assert forall|i: int| 0 <= i < earlier.len() - 1 implies encode_utf8(
            #[trigger] earlier[i],
        ).last() == LINE_FEED by {
            assert(earlier[i] == lines[i]);
        }
        lemma_split_joined(earlier);
        assert(is_line(encode_utf8(lines[lines.len() - 1])));
        if earlier.len() > 0 {
            assert(earlier.last() == lines[lines.len() - 2]);
        }
        lemma_split_push(joined(earlier), encode_utf8(lines.last()));
        assert(encoded(earlier).push(encode_utf8(lines.last())) =~= encoded(lines));
    }
}

/// Idempotence: run on a file that it has been through, the operation
/// changes no byte.
pub proof fn lemma_sorted_content_idempotent(delimiter: Seq<char>, content: Seq<u8>)
    ensures
        sorted_content(delimiter, sorted_content(delimiter, content)) == sorted_content(
            delimiter,
            content,
        ),
{
    let chunks = split_lines(content);
    if valid_lines(chunks) {
        let lines = decoded(chunks);
        let after = sorted_lines(delimiter, lines);
        lemma_split_lines(content);
        assert forall|i: int| 0 <= i < after.len() implies is_line(
            encode_utf8(#[trigger] after[i]),
        ) && (i < after.len() - 1 ==> encode_utf8(after[i]).last() == LINE_FEED) by {
            let source = lemma_line_source(delimiter, lines, i);
            decode_utf8_encode_utf8(chunks[source]);
        }
        lemma_split_joined(after);
        assert forall|i: int| 0 <= i < after.len() implies valid_utf8(
            #[trigger] encoded(after)[i],
        ) && decode_utf8(encoded(after)[i]) == after[i] by {
            encode_utf8_valid_utf8(after[i]);
            encode_utf8_decode_utf8(after[i]);
        }
        assert(decoded(encoded(after)) =~= after);
        lemma_sorted_lines_idempotent(delimiter, lines);
    }
}

/// Unterminated-block safety on bytes: where the end of the file leaves a
/// block open, the operation keeps every byte from the first of the block's
/// start marker line to the end of the file.
pub proof fn lemma_open_block_bytes_kept(delimiter: Seq<char>, content: Seq<u8>, b: int)
    requires
        valid_lines(split_lines(content)),
        open_block(delimiter, decoded(split_lines(content))) matches Some(first) && offset_of(
            decoded(split_lines(content)),
            first - 1,
        ) <= b < content.len(),
    ensures
        sorted_content(delimiter, content)[b] == content[b],
{
    let lines = decoded(split_lines(content));
    let spans = closed_spans(delimiter, lines);
    let first = open_block(delimiter, lines).unwrap();
    lemma_span_structure(delimiter, lines);
    lemma_closed_spans_ordered(delimiter, lines);
    assert forall|k: int| #![trigger spans[k]] 0 <= k < spans.len() implies {
        let record = closed_record(lines, spans[k]);
        !(record.start_offset <= b < record.end_offset)
    } by {
        if k < spans.len() - 1 {
            assert(spans[k].end < spans[spans.len() - 1].first);
        }
        lemma_offset_monotonic(lines, spans[k].end + 1, first - 1);
    }
    lemma_bytes_outside_blocks_kept(delimiter, content, b);
}

} // verus!
