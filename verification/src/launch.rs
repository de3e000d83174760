//! How a text is dealt out to the threads of a launch, and which rows each thread reads.

use vstd::prelude::*;
use crate::hash::home;
use crate::parse::{
    index_from, least, lemma_decimal_bounds, lemma_index_from, line_fits, line_result,
    start_result, temp_digits, NAME_MAX, NEWLINE, SEPARATOR,
};

verus! {

/// Independent tables; block `b` works on table `b % NUM_TABLES`.
pub const NUM_TABLES: usize = 4;

/// Threads per block of the usual launch.
pub const BLOCK_SIZE: u32 = 256;

/// Blocks of the usual launch.
pub const NUM_BLOCKS: u32 = 4096;

/// Extent of a launch: blocks in the grid, and threads in a block.
#[derive(Clone, Copy, Debug)]
pub struct Launch {
    pub grid_dim: u32,
    pub block_dim: u32,
}

/// A row as a thread reads it: where it begins, how long the name is that is kept of it, the
/// reading in tenths, and the bytes it takes up.
pub struct Row {
    pub pos: int,
    pub name_len: int,
    pub temp: int,
    pub len: int,
}

/// A row of a launch, by the thread that reads it and its place among that thread's rows.
pub struct RowId {
    pub thread: int,
    pub index: int,
}

/// A text and the launch that reads it.
pub struct Job {
    pub text: Seq<u8>,
    pub grid: int,
    pub block: int,
}

impl Launch {
    /// There is a thread, and an `u32` can count them all.
    pub open spec fn wf(self) -> bool {
        &&& self.grid_dim > 0
        &&& self.block_dim > 0
        &&& self.grid_dim * self.block_dim <= u32::MAX
    }

    /// The launch, set on a text.
    pub open spec fn job(self, text: Seq<u8>) -> Job {
        Job { text, grid: self.grid_dim as int, block: self.block_dim as int }
    }

    /// The launch of 4096 blocks with 256 threads each.
    pub fn usual() -> (r: Launch)
        ensures
            r.wf(),
            r.grid_dim == NUM_BLOCKS,
            r.block_dim == BLOCK_SIZE,
            r.grid_dim == 4096,
            r.block_dim == 256,
    {
        Launch { grid_dim: NUM_BLOCKS, block_dim: BLOCK_SIZE }
    }

    /// Threads in the whole grid.
    pub fn threads(&self) -> (n: usize)
        requires
            self.wf(),
        ensures
            n == self.grid_dim * self.block_dim,
            n > 0,
    {
        assert(self.grid_dim * self.block_dim > 0) by (nonlinear_arith)
            requires
                self.grid_dim > 0,
                self.block_dim > 0,
        ;
        assert(self.block_dim * self.grid_dim == self.grid_dim * self.block_dim) by (nonlinear_arith);
        (self.block_dim * self.grid_dim) as usize
    }

    /// The part of a text of `total` bytes that thread `tid` is given: the first byte of it and
    /// the first one behind it. The parts are of one size, but for the last ones.
    pub fn window(&self, total: usize, tid: usize) -> (r: (usize, usize))
        requires
            self.wf(),
            tid < self.grid_dim * self.block_dim,
            total + self.grid_dim * self.block_dim <= usize::MAX,
        ensures
            ({
                let chunk = chunk_of(total as int, self.grid_dim * self.block_dim);
                &&& r.0 == tid * chunk
                &&& r.1 == least((tid + 1) * chunk, total as int)
            }),
    {
        let n: usize = self.threads();
        let chunk: usize = (total + n - 1) / n;
        proof {
            let c = chunk as int;
            assert(c * n <= total + n - 1) by (nonlinear_arith)
                requires
                    c == (total + n - 1) / (n as int),
                    n > 0,
            ;
            assert((tid + 1) * c <= n * c) by (nonlinear_arith)
                requires
                    tid + 1 <= n,
                    c >= 0,
            ;
            assert(n * c == c * n) by (nonlinear_arith);
            assert(0 <= tid * c <= (tid + 1) * c) by (nonlinear_arith)
                requires
                    c >= 0,
                    tid >= 0,
            ;
        }
        let start: usize = tid * chunk;
        let bound: usize = (tid + 1) * chunk;
        let end: usize = if bound < total { bound } else { total };
        (start, end)
    }
}

/// The size of the part of `total` bytes that each of `n` threads is given.
pub open spec fn chunk_of(total: int, n: int) -> int {
    (total + n - 1) / n
}

/// A row that is found has a name and ends, with its newline, within the limit.
pub proof fn lemma_line_result(s: Seq<u8>, limit: int)
    requires
        limit >= 0,
    ensures
        line_result(s, limit) matches Some((name_len, temp, len)) ==> {
            &&& 0 <= name_len < len
            &&& 2 <= len <= s.len()
            &&& len <= limit
            &&& s[len - 1] == NEWLINE
        },
{
    let seen = s.take(least(s.len() as int, limit));
    let sep = index_from(seen, SEPARATOR, 0);
    lemma_index_from(seen, SEPARATOR, 0);
    if sep < seen.len() {
        lemma_index_from(seen.skip(sep + 1), NEWLINE, 0);
    }
}

/// A thread whose part of the text ends at `end` reads on at `pos`: the row there begins no later
/// than where the part ends. Where its last row ends does not matter.
pub open spec fn reads_on(text: Seq<u8>, pos: int, end: int) -> bool {
    pos <= end && pos < text.len()
}

/// The row that begins at `pos`, as `line_result` gives it.
pub open spec fn row_result(text: Seq<u8>, pos: int) -> Option<(int, int, int)> {
    line_result(text.skip(pos), text.len() - pos)
}

/// The rows from `pos` on that begin no later than `end`, up to the first that is not a row.
pub open spec fn rows_from(text: Seq<u8>, pos: int, end: int) -> Seq<Row>
    decreases text.len() - pos,
{
    if reads_on(text, pos, end) {
        match row_result(text, pos) {
            None => Seq::empty(),
            Some((name_len, temp, len)) => {
                proof {
                    lemma_line_result(text.skip(pos), text.len() - pos);
                }
                seq![Row { pos, name_len, temp, len }] + rows_from(text, pos + len, end)
            },
        }
    } else {
        Seq::empty()
    }
}

/// Every reading met on the way is one that can be parsed.
pub open spec fn rows_fit(text: Seq<u8>, pos: int, end: int) -> bool
    decreases text.len() - pos,
{
    reads_on(text, pos, end) ==> {
        &&& line_fits(text.skip(pos), text.len() - pos)
        &&& match row_result(text, pos) {
            None => true,
            Some((name_len, temp, len)) => {
                proof {
                    lemma_line_result(text.skip(pos), text.len() - pos);
                }
                rows_fit(text, pos + len, end)
            },
        }
    }
}

impl Row {
    /// The bytes that the row is counted under.
    pub open spec fn name(self, text: Seq<u8>) -> Seq<u8> {
        text.subrange(self.pos, self.pos + self.name_len)
    }
}

impl Job {
    /// There is a thread.
    pub open spec fn wf(self) -> bool {
        &&& self.grid > 0
        &&& self.block > 0
    }

    /// Threads in the whole grid.
    pub open spec fn threads(self) -> int {
        self.grid * self.block
    }

    /// The size of the part that each thread is given.
    pub open spec fn chunk(self) -> int {
        chunk_of(self.text.len() as int, self.threads())
    }

    /// First byte of a thread's part of the text.
    pub open spec fn window_start(self, t: int) -> int {
        t * self.chunk()
    }

    /// First byte behind a thread's part of the text.
    pub open spec fn window_end(self, t: int) -> int {
        least((t + 1) * self.chunk(), self.text.len() as int)
    }

    /// Where a thread starts to read, if it has anything to read.
    pub open spec fn first_row(self, t: int) -> Option<int> {
        if self.window_start(t) < self.text.len() {
            start_result(self.text, t, self.window_start(t))
        } else {
            None
        }
    }

    /// The rows that a thread reads, in order.
    pub open spec fn rows(self, t: int) -> Seq<Row> {
        match self.first_row(t) {
            None => Seq::empty(),
            Some(pos) => rows_from(self.text, pos, self.window_end(t)),
        }
    }

    /// Every reading that any thread meets is one that can be parsed.
    pub open spec fn fits(self) -> bool {
        forall|t: int| 0 <= t < self.threads() ==> #[trigger] self.thread_fits(t)
    }

    /// Every reading that the thread meets is one that can be parsed.
    pub open spec fn thread_fits(self, t: int) -> bool {
        self.first_row(t) matches Some(pos) ==> rows_fit(self.text, pos, self.window_end(t))
    }

    /// The table that a thread's block works on.
    pub open spec fn table(self, t: int) -> int {
        (t / self.block) % NUM_TABLES as int
    }

    /// The launch reads the row.
    pub open spec fn has(self, r: RowId) -> bool {
        &&& 0 <= r.thread < self.threads()
        &&& 0 <= r.index < self.rows(r.thread).len()
    }

    /// What a row of the launch holds.
    pub open spec fn row(self, r: RowId) -> Row {
        self.rows(r.thread)[r.index]
    }

    /// The name that a row of the launch is counted under.
    pub open spec fn name(self, r: RowId) -> Seq<u8> {
        self.row(r).name(self.text)
    }

    /// The slot at which the search for the row's name begins.
    pub open spec fn home(self, r: RowId) -> int {
        home(self.name(r))
    }
}

/// What is known of each row of a thread.
pub proof fn lemma_rows_from(text: Seq<u8>, pos: int, end: int, i: int)
    requires
        0 <= pos,
        0 <= i < rows_from(text, pos, end).len(),
    ensures
        ({
            let row = rows_from(text, pos, end)[i];
            &&& pos <= row.pos
            &&& row.pos <= end
            &&& row.pos + row.len <= text.len()
            &&& 0 <= row.name_len < row.len
            &&& row.name_len <= NAME_MAX
            &&& text[row.pos + row.len - 1] == NEWLINE
            &&& row_result(text, row.pos) == Some((row.name_len, row.temp, row.len))
            &&& i == 0 ==> row.pos == pos
            &&& i > 0 ==> row.pos == rows_from(text, pos, end)[i - 1].pos + rows_from(
                text,
                pos,
                end,
            )[i - 1].len
        }),
    decreases i,
{
    lemma_line_result(text.skip(pos), text.len() - pos);
    let first = row_result(text, pos)->0;
    if i > 0 {
        let rest = rows_from(text, pos + first.2, end);
        assert(rows_from(text, pos, end)[i] == rest[i - 1]);
        lemma_rows_from(text, pos + first.2, end, i - 1);
        if i > 1 {
            assert(rows_from(text, pos, end)[i - 1] == rest[i - 2]);
        }
    }
}

/// The readings of rows that fit lie in the range of an `i16`.
pub proof fn lemma_rows_fit(text: Seq<u8>, pos: int, end: int, i: int)
    requires
        rows_fit(text, pos, end),
        0 <= i < rows_from(text, pos, end).len(),
    ensures
        -i16::MAX <= rows_from(text, pos, end)[i].temp <= i16::MAX,
    decreases i,
{
    let s = text.skip(pos);
    lemma_line_result(s, text.len() - pos);
    let first = row_result(text, pos)->0;
    if i == 0 {
        let seen = s.take(least(s.len() as int, text.len() - pos));
        let tail = seen.skip(index_from(seen, SEPARATOR, 0) + 1);
        let digits = temp_digits(tail);
        assert(digits.take(digits.len() as int) =~= digits);
        lemma_decimal_bounds(digits, digits.len() as int);
    } else {
        assert(rows_from(text, pos, end)[i] == rows_from(text, pos + first.2, end)[i - 1]);
        lemma_rows_fit(text, pos + first.2, end, i - 1);
    }
}

/// `rows_from` at the position behind a row gives the rows behind it.
pub proof fn lemma_rows_step(text: Seq<u8>, pos: int, end: int)
    requires
        reads_on(text, pos, end),
        row_result(text, pos) is Some,
    ensures
        ({
            let first = row_result(text, pos)->0;
            let rows = rows_from(text, pos, end);
            &&& rows.len() > 0
            &&& rows[0] == (Row { pos, name_len: first.0, temp: first.1, len: first.2 })
            &&& rows.skip(1) == rows_from(text, pos + first.2, end)
        }),
{
    let first = row_result(text, pos)->0;
    lemma_line_result(text.skip(pos), text.len() - pos);
    let head = Row { pos, name_len: first.0, temp: first.1, len: first.2 };
    assert((seq![head] + rows_from(text, pos + first.2, end)).skip(1) =~= rows_from(
        text,
        pos + first.2,
        end,
    ));
}

} // verus!
