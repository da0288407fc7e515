//! Buffer contents as bytes, divided into rows by newlines.

use vstd::prelude::*;

verus! {

/// The byte that ends a row.
pub const NEWLINE: u8 = 10;

/// How many newlines stand before `offset`. This is the row that `offset` is in.
pub open spec fn newlines_before(text: Seq<u8>, offset: int) -> nat
    decreases offset,
{
    if offset <= 0 {
        0
    } else if text[offset - 1] == NEWLINE {
        newlines_before(text, offset - 1) + 1
    } else {
        newlines_before(text, offset - 1)
    }
}

/// The number of rows in a text: one more than its newlines.
pub open spec fn row_count(text: Seq<u8>) -> nat {
    newlines_before(text, text.len() as int) + 1
}

/// Whether a row starts at `offset`.
pub open spec fn at_row_start(text: Seq<u8>, offset: int) -> bool {
    offset == 0 || text[offset - 1] == NEWLINE
}

/// Whether a row ends at `offset`.
pub open spec fn at_row_end(text: Seq<u8>, offset: int) -> bool {
    offset == text.len() || text[offset] == NEWLINE
}

/// Where the row that `offset` is in starts.
pub open spec fn row_start(text: Seq<u8>, offset: int) -> int
    decreases offset,
{
    if offset <= 0 || at_row_start(text, offset) {
        offset
    } else {
        row_start(text, offset - 1)
    }
}

/// Where the row that `offset` is in ends: at its newline, or at the end of the text.
pub open spec fn row_end(text: Seq<u8>, offset: int) -> int
    decreases text.len() - offset,
{
    if offset >= text.len() || at_row_end(text, offset) {
        offset
    } else {
        row_end(text, offset + 1)
    }
}

pub proof fn lemma_newlines_monotone(text: Seq<u8>, low: int, high: int)
    requires
        low <= high,
    ensures
        newlines_before(text, low) <= newlines_before(text, high),
        newlines_before(text, high) - newlines_before(text, low) <= high - low || low < 0,
    decreases high - low,
{
    if low < high {
        lemma_newlines_monotone(text, low, high - 1);
    }
}

pub proof fn lemma_row_start(text: Seq<u8>, offset: int)
    requires
        0 <= offset <= text.len(),
    ensures
        0 <= row_start(text, offset) <= offset,
        at_row_start(text, row_start(text, offset)),
        newlines_before(text, row_start(text, offset)) == newlines_before(text, offset),
        row_start(text, offset) == offset <==> at_row_start(text, offset),
    decreases offset,
{
    if offset > 0 && !at_row_start(text, offset) {
        lemma_row_start(text, offset - 1);
    }
}

pub proof fn lemma_row_end(text: Seq<u8>, offset: int)
    requires
        0 <= offset <= text.len(),
    ensures
        offset <= row_end(text, offset) <= text.len(),
        at_row_end(text, row_end(text, offset)),
        newlines_before(text, row_end(text, offset)) == newlines_before(text, offset),
        row_end(text, offset) == offset <==> at_row_end(text, offset),
    decreases text.len() - offset,
{
    if offset < text.len() && !at_row_end(text, offset) {
        lemma_row_end(text, offset + 1);
    }
}

/// A row starts in one place only.
proof fn lemma_row_start_unique(text: Seq<u8>, first: int, second: int)
    requires
        0 <= first <= text.len(),
        0 <= second <= text.len(),
        at_row_start(text, first),
        at_row_start(text, second),
        newlines_before(text, first) == newlines_before(text, second),
    ensures
        first == second,
{
    if first < second {
        lemma_newlines_monotone(text, first, second - 1);
    } else if second < first {
        lemma_newlines_monotone(text, second, first - 1);
    }
}

/// A row ends in one place only.
proof fn lemma_row_end_unique(text: Seq<u8>, first: int, second: int)
    requires
        0 <= first <= text.len(),
        0 <= second <= text.len(),
        at_row_end(text, first),
        at_row_end(text, second),
        newlines_before(text, first) == newlines_before(text, second),
    ensures
        first == second,
{
    if first < second {
        lemma_newlines_monotone(text, first + 1, second);
    } else if second < first {
        lemma_newlines_monotone(text, second + 1, first);
    }
}

/// The identity of a buffer.
#[derive(Clone, Copy, Debug, Default, PartialEq, Eq, Hash, Structural)]
pub struct BufferId {
    pub id: u64,
}

/// A place in a text: a row, and a byte in that row.
#[derive(Clone, Copy, Debug, Default, PartialEq, Eq, Structural)]
pub struct Point {
    pub row: u32,
    pub column: usize,
}

/// The contents of a buffer at one moment.
#[derive(Debug)]
pub struct BufferSnapshot {
    remote_id: BufferId,
    text: Vec<u8>,
    row_starts: Vec<usize>,
}

impl View for BufferSnapshot {
    type V = Seq<u8>;

    /// The bytes of the text.
    closed spec fn view(&self) -> Seq<u8> {
        self.text@
    }
}

impl BufferSnapshot {
    /// The buffer that the snapshot was taken of.
    pub closed spec fn buffer(&self) -> BufferId {
        self.remote_id
    }

    /// The row index lists where each row starts, and the rows can be counted by a `u32`.
    pub closed spec fn wf(&self) -> bool {
        &&& self.row_starts@.len() == row_count(self@) <= u32::MAX
        &&& forall|row: int|
            0 <= row < self.row_starts@.len() ==> {
                &&& 0 <= #[trigger] self.row_starts@[row] <= self@.len()
                &&& at_row_start(self@, self.row_starts@[row] as int)
                &&& newlines_before(self@, self.row_starts@[row] as int) == row
            }
    }

    pub proof fn lemma_wf(&self)
        requires
            self.wf(),
        ensures
            row_count(self@) <= u32::MAX,
    {
    }

    /// Takes a snapshot of a text. `None` if it has too many rows to be counted by a `u32`.
    pub fn new(remote_id: BufferId, text: Vec<u8>) -> (snapshot: Option<Self>)
        ensures
            snapshot is Some <==> row_count(text@) <= u32::MAX,
            match snapshot {
                Some(snapshot) => {
                    &&& snapshot.wf()
                    &&& snapshot@ == text@
                    &&& snapshot.buffer() == remote_id
                },
                None => true,
            },
    {
        let mut row_starts: Vec<usize> = Vec::new();
        row_starts.push(0);
        let mut offset: usize = 0;
        while offset < text.len()
            invariant
                0 <= offset <= text@.len(),
                row_starts@.len() == newlines_before(text@, offset as int) + 1 <= u32::MAX,
                forall|row: int|
                    0 <= row < row_starts@.len() ==> {
                        &&& 0 <= #[trigger] row_starts@[row] <= offset
                        &&& at_row_start(text@, row_starts@[row] as int)
                        &&& newlines_before(text@, row_starts@[row] as int) == row
                    },
            decreases text.len() - offset,
        {
            if text[offset] == NEWLINE {
                if row_starts.len() >= u32::MAX as usize {
                    proof {
                        lemma_newlines_monotone(text@, offset + 1, text@.len() as int);
                    }
                    return None;
                }
                row_starts.push(offset + 1);
            }
            offset = offset + 1;
        }
        Some(BufferSnapshot { remote_id, text, row_starts })
    }

    /// The buffer that the snapshot was taken of.
    pub fn remote_id(&self) -> (id: BufferId)
        ensures
            id == self.buffer(),
    {
        self.remote_id
    }

    /// The bytes of the text.
    pub fn bytes(&self) -> (bytes: &Vec<u8>)
        ensures
            bytes@ == self@,
    {
        &self.text
    }

    fn row_of(&self, offset: usize) -> (row: usize)
        requires
            self.wf(),
            offset <= self@.len(),
        ensures
            row == newlines_before(self@, offset as int),
            row < self.row_starts@.len(),
    {
        proof {
            lemma_newlines_monotone(self@, offset as int, self@.len() as int);
        }
        let mut low: usize = 0;
        let mut high: usize = self.row_starts.len();
        while low + 1 < high
            invariant
                self.wf(),
                0 <= low < high <= self.row_starts@.len(),
                offset <= self@.len(),
                low <= newlines_before(self@, offset as int) < high,
            decreases high - low,
        {
            let middle: usize = low + (high - low) / 2;
            let start = self.row_starts[middle];
            if start <= offset {
                proof {
                    lemma_newlines_monotone(self@, start as int, offset as int);
                }
                low = middle;
            } else {
                proof {
                    lemma_newlines_monotone(self@, offset as int, start - 1);
                }
                high = middle;
            }
        }
        low
    }

    /// The row and column of the byte at `offset`; past the end, those of the end.
    pub fn offset_to_point(&self, offset: usize) -> (point: Point)
        requires
            self.wf(),
        ensures
            ({
                let place = if offset < self@.len() { offset as int } else { self@.len() as int };
                &&& point.row == newlines_before(self@, place)
                &&& point.column == place - row_start(self@, place)
            }),
    {
        let place: usize = if offset < self.text.len() { offset } else { self.text.len() };
        let row = self.row_of(place);
        proof {
            lemma_row_start(self@, place as int);
            lemma_row_start_unique(
                self@,
                self.row_starts@[row as int] as int,
                row_start(self@, place as int),
            );
        }
        Point { row: row as u32, column: place - self.row_starts[row] }
    }

    /// The end of the text.
    pub fn max_point(&self) -> (point: Point)
        requires
            self.wf(),
        ensures
            point.row + 1 == row_count(self@),
            point.column == self@.len() - row_start(self@, self@.len() as int),
    {
        self.offset_to_point(self.text.len())
    }

    /// How many bytes a row has, without its newline.
    pub fn line_len(&self, row: u32) -> (len: usize)
        requires
            self.wf(),
            row < row_count(self@),
        ensures
            forall|offset: int|
                0 <= offset <= self@.len() && #[trigger] newlines_before(self@, offset) == row
                    ==> len == row_end(self@, offset) - row_start(self@, offset),
    {
        let row: usize = row as usize;
        let start = self.row_starts[row];
        let last = row + 1 == self.row_starts.len();
        let end: usize = if last { self.text.len() } else { self.row_starts[row + 1] - 1 };
        proof {
            if !last {
                let next = self.row_starts@[row + 1] as int;
                if next <= start {
                    lemma_newlines_monotone(self@, next, start as int);
                }
                assert(newlines_before(self@, next) == newlines_before(self@, next - 1) + 1);
            }
            assert forall|offset: int|
                0 <= offset <= self@.len() && #[trigger] newlines_before(self@, offset)
                    == row implies end - start == row_end(self@, offset) - row_start(
                self@,
                offset,
            ) by {
                lemma_row_start(self@, offset);
                lemma_row_end(self@, offset);
                lemma_row_start_unique(self@, start as int, row_start(self@, offset));
                lemma_row_end_unique(self@, end as int, row_end(self@, offset));
            }
            lemma_row_end(self@, start as int);
        }
        end - start
    }

    /// Whether the byte at `offset` is a newline.
    pub fn newline_at(&self, offset: usize) -> (found: bool)
        ensures
            found == (offset < self@.len() && self@[offset as int] == NEWLINE),
    {
        offset < self.text.len() && self.text[offset] == NEWLINE
    }
}

} // verus!
