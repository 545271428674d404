//! The scanner: a state machine that is fed the lines of a file one by one
//! and records the blocks it finds.

use crate::blocks::{
    block_records, block_views, closed_record, closed_records, closed_spans, joined,
    lemma_closed_record_stays, lemma_offset_monotonic, lemma_span_structure, offset_of,
    open_block, Block, BlockView,
};
use crate::delimiter::{
    end_marker, is_end_marker, is_start_marker, line_is_marker, make_end_marker,
    make_start_marker, start_marker,
};
use crate::sorting::{inserted, insertion_sort, stable_sorted, texts};
use vstd::prelude::*;
use vstd::string::StringExecFns;
use vstd::utf8::encode_utf8;

verus! {

/// What the scanner is doing between two lines.
#[derive(Debug, Clone, Copy, PartialEq, Eq, Structural)]
pub enum Mode {
    /// Looking for a start marker.
    Scanning,
    /// Collecting the lines of a block. The number is the byte offset just
    /// behind the block's start marker line.
    InsideBlock(u64),
}

/// The mode of a scanner that has read `lines`.
pub open spec fn mode_after(delimiter: Seq<char>, lines: Seq<Seq<char>>) -> Mode {
    match open_block(delimiter, lines) {
        None => Mode::Scanning,
        Some(first) => Mode::InsideBlock(offset_of(lines, first) as u64),
    }
}

/// The sorted lines of the block that is open once `lines` have been read;
/// none if no block is open.
pub open spec fn open_lines(delimiter: Seq<char>, lines: Seq<Seq<char>>) -> Seq<Seq<char>> {
    match open_block(delimiter, lines) {
        None => Seq::empty(),
        Some(first) => stable_sorted(lines.subrange(first, lines.len() as int)),
    }
}

/// What a scanner holds between two lines.
pub struct ScanState {
    pub mode: Mode,
    /// The number of bytes read.
    pub position: nat,
    /// The sorted lines of the open block; none outside a block.
    pub current: Seq<Seq<char>>,
    /// The records of the closed blocks.
    pub finished: Seq<BlockView>,
}

/// The state of a scanner that has read `lines`.
pub open spec fn state_after(delimiter: Seq<char>, lines: Seq<Seq<char>>) -> ScanState {
    ScanState {
        mode: mode_after(delimiter, lines),
        position: joined(lines).len(),
        current: open_lines(delimiter, lines),
        finished: closed_records(delimiter, lines),
    }
}

/// The state that follows `state` when `line` is read.
///
/// Outside a block, a start marker opens one and every other line is passed
/// over. Inside a block, an end marker closes it and every other line is
/// added to it in sorted order.
pub open spec fn step(delimiter: Seq<char>, state: ScanState, line: Seq<char>) -> ScanState {
    let after = state.position + encode_utf8(line).len();
    match state.mode {
        Mode::Scanning => if is_start_marker(delimiter, line) {
            ScanState {
                mode: Mode::InsideBlock(after as u64),
                position: after,
                current: Seq::empty(),
                finished: state.finished,
            }
        } else {
            ScanState { position: after, ..state }
        },
        Mode::InsideBlock(start_offset) => if is_end_marker(delimiter, line) {
            ScanState {
                mode: Mode::Scanning,
                position: after,
                current: Seq::empty(),
                finished: state.finished.push(
                    BlockView {
                        start_offset: start_offset as nat,
                        end_offset: after,
                        lines: state.current,
                    },
                ),
            }
        } else {
            ScanState { position: after, current: inserted(state.current, line), ..state }
        },
    }
}

/// The records of the closed blocks stay as they are when a line follows.
proof fn lemma_closed_records_stay(delimiter: Seq<char>, lines: Seq<Seq<char>>, line: Seq<char>)
    ensures
        Seq::new(
            closed_spans(delimiter, lines).len(),
            |k: int| closed_record(lines.push(line), closed_spans(delimiter, lines)[k]),
        ) == closed_records(delimiter, lines),
{
    lemma_span_structure(delimiter, lines);
    let spans = closed_spans(delimiter, lines);
    let kept = Seq::new(spans.len(), |k: int| closed_record(lines.push(line), spans[k]));
    assert forall|k: int| 0 <= k < spans.len() implies kept[k] == closed_records(
        delimiter,
        lines,
    )[k] by {
        lemma_closed_record_stays(lines, line, spans[k]);
    }
    assert(kept =~= closed_records(delimiter, lines));
}

/// Reading one more line takes the scanner one step on.
pub proof fn lemma_step(delimiter: Seq<char>, lines: Seq<Seq<char>>, line: Seq<char>)
    requires
        joined(lines).len() + encode_utf8(line).len() <= u64::MAX,
    ensures
        state_after(delimiter, lines.push(line)) == step(
            delimiter,
            state_after(delimiter, lines),
            line,
        ),
{
    let more = lines.push(line);
    let n = lines.len() as int;
    let spans = closed_spans(delimiter, lines);
    assert(more.drop_last() =~= lines);
    assert(more.last() == line);
    assert(more.take(n + 1) =~= more);
    assert(lines.take(n) =~= lines);
    lemma_span_structure(delimiter, lines);
    lemma_closed_records_stay(delimiter, lines, line);
    let next = step(delimiter, state_after(delimiter, lines), line);
    match open_block(delimiter, lines) {
        None => {
            assert(more.subrange(n + 1, n + 1) =~= Seq::<Seq<char>>::empty());
            assert(closed_spans(delimiter, more) == spans);
            assert(closed_records(delimiter, more) =~= next.finished);
        },
        Some(first) => {
            lemma_offset_monotonic(lines, first, n);
            assert(more.take(first) =~= lines.take(first));
            if is_end_marker(delimiter, line) {
                assert(more.subrange(first, n) =~= lines.subrange(first, n));
                assert(closed_records(delimiter, more) =~= next.finished);
            } else {
                assert(more.subrange(first, n + 1).drop_last() =~= lines.subrange(first, n));
                assert(more.subrange(first, n + 1).last() == line);
                assert(closed_spans(delimiter, more) == spans);
                assert(closed_records(delimiter, more) =~= next.finished);
            }
        },
    }
}

/// Reads a file line by line. All that it holds is determined by its
/// delimiter and by the lines it has been fed.
pub struct Scanner {
    start_marker: String,
    end_marker: String,
    mode: Mode,
    position: u64,
    current: Vec<String>,
    finished: Vec<Block>,
    delimiter: Ghost<Seq<char>>,
    fed: Ghost<Seq<Seq<char>>>,
}

impl Scanner {
    /// The delimiter that the markers are built from.
    pub closed spec fn delimiter(&self) -> Seq<char> {
        self.delimiter@
    }

    /// The lines fed so far, in order.
    pub closed spec fn lines(&self) -> Seq<Seq<char>> {
        self.fed@
    }

    /// What the scanner holds.
    pub closed spec fn state(&self) -> ScanState {
        ScanState {
            mode: self.mode,
            position: self.position as nat,
            current: texts(self.current@),
            finished: block_views(self.finished@),
        }
    }

    /// The scanner holds what its delimiter and its lines determine.
    pub closed spec fn wf(&self) -> bool {
        &&& self.start_marker@ == start_marker(self.delimiter@)
        &&& self.end_marker@ == end_marker(self.delimiter@)
        &&& self.state() == state_after(self.delimiter@, self.fed@)
    }

    /// What a scanner holds is what its delimiter and its lines determine.
    pub proof fn lemma_state(&self)
        requires
            self.wf(),
        ensures
            self.state() == state_after(self.delimiter(), self.lines()),
    {
    }

    /// A scanner at the start of a file whose markers begin with `delimiter`.
    pub fn new(delimiter: &str) -> (scanner: Scanner)
        ensures
            scanner.wf(),
            scanner.delimiter() == delimiter@,
            scanner.lines() == Seq::<Seq<char>>::empty(),
    {
        let scanner = Scanner {
            start_marker: make_start_marker(delimiter),
            end_marker: make_end_marker(delimiter),
            mode: Mode::Scanning,
            position: 0,
            current: Vec::new(),
            finished: Vec::new(),
            delimiter: Ghost(delimiter@),
            fed: Ghost(Seq::empty()),
        };
        assert(texts(scanner.current@) =~= Seq::<Seq<char>>::empty());
        assert(block_views(scanner.finished@) =~= closed_records(delimiter@, Seq::empty()));
        scanner
    }

    /// Takes the next line of the file, with its line end if it has one.
    ///
    /// Outside a block, a start marker opens one. Inside a block, an end
    /// marker closes it and every other line is added to it in sorted order.
    pub fn feed(&mut self, line: &str)
        requires
            old(self).wf(),
            joined(old(self).lines()).len() + encode_utf8(line@).len() <= u64::MAX,
        ensures
            final(self).wf(),
            final(self).delimiter() == old(self).delimiter(),
            final(self).lines() == old(self).lines().push(line@),
            final(self).state() == step(old(self).delimiter(), old(self).state(), line@),
    {
        let ghost delimiter = self.delimiter@;
        let ghost before = self.state();
        let ghost next = step(delimiter, before, line@);
        proof {
            lemma_step(delimiter, self.fed@, line@);
        }
        let after: u64 = self.position + line.as_bytes().len() as u64;
        match self.mode {
            Mode::Scanning => {
                if line_is_marker(line, self.start_marker.as_str()) {
                    self.mode = Mode::InsideBlock(after);
                }
            },
            Mode::InsideBlock(start_offset) => {
                if line_is_marker(line, self.end_marker.as_str()) {
                    let mut block_lines: Vec<String> = Vec::new();
                    std::mem::swap(&mut self.current, &mut block_lines);
                    let block = Block { start_offset, end_offset: after, lines: block_lines };
                    self.finished.push(block);
                    self.mode = Mode::Scanning;
                    assert(texts(self.current@) =~= next.current);
                    assert(block_views(self.finished@) =~= next.finished);
                } else {
                    insertion_sort(&mut self.current, String::from_str(line));
                }
            },
        }
        self.position = after;
        self.fed = Ghost(self.fed@.push(line@));
    }

    /// What the scanner is doing after the lines fed so far.
    pub fn mode(&self) -> (mode: Mode)
        requires
            self.wf(),
        ensures
            mode == mode_after(self.delimiter(), self.lines()),
    {
        self.mode
    }

    /// The number of bytes fed so far: the offset at which the next line
    /// begins.
    pub fn position(&self) -> (position: u64)
        requires
            self.wf(),
        ensures
            position == joined(self.lines()).len(),
    {
        self.position
    }

    /// Whether a block has been closed, sorted or not before.
    pub fn changed(&self) -> (changed: bool)
        requires
            self.wf(),
        ensures
            changed == (closed_spans(self.delimiter(), self.lines()).len() > 0),
    {
        assert(block_views(self.finished@).len() == self.finished@.len());
        self.finished.len() > 0
    }

    /// Ends the scan at the end of the file and hands out the records of
    /// the blocks found: the closed blocks in the order of the file, then,
    /// with an end offset of 0, the block that was still open, if any.
    pub fn finish(self) -> (blocks: Vec<Block>)
        requires
            self.wf(),
        ensures
            block_views(blocks@) == block_records(self.delimiter(), self.lines()),
    {
        let mut blocks = self.finished;
        match self.mode {
            Mode::Scanning => {},
            Mode::InsideBlock(start_offset) => {
                proof {
                    let first = open_block(self.delimiter@, self.fed@).unwrap();
                    lemma_span_structure(self.delimiter@, self.fed@);
                    lemma_offset_monotonic(self.fed@, first, self.fed@.len() as int);
                    assert(self.fed@.take(self.fed@.len() as int) =~= self.fed@);
                }
                blocks.push(Block { start_offset, end_offset: 0, lines: self.current });
                assert(block_views(blocks@) =~= block_records(self.delimiter@, self.fed@));
            },
        }
        blocks
    }
}

} // verus!
