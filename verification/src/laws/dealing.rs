//! Which thread reads which rows of a text.

use vstd::arithmetic::div_mod::{lemma_div_pos_is_pos, lemma_fundamental_div_mod, lemma_mod_bound};
use vstd::prelude::*;
use crate::launch::{
    chunk_of, lemma_line_result, lemma_rows_step, row_result, rows_fit, rows_from, Job, Launch, Row,
    RowId,
};
use crate::parse::{line_fits, line_result, start_result};

verus! {

/// The size of a part is the smallest one with which the parts of all threads cover the text.
pub proof fn lemma_part_size(total: int, n: int)
    requires
        total >= 0,
        n > 0,
    ensures
        chunk_of(total, n) >= 0,
        chunk_of(total, n) * n >= total,
        (chunk_of(total, n) - 1) * n < total,
{
    let c = chunk_of(total, n);
    lemma_fundamental_div_mod(total + n - 1, n);
    lemma_mod_bound(total + n - 1, n);
    lemma_div_pos_is_pos(total + n - 1, n);
    assert(n * c == c * n && (c - 1) * n == c * n - n) by (nonlinear_arith);
}

/// The parts of all threads are of one size, and follow each other from the first byte on, but none
/// reaches beyond the end. A thread that would start beyond it has nothing to read.
pub proof fn lemma_even_parts(job: Job, t: int)
    requires
        job.wf(),
        0 <= t,
    ensures
        ({
            let c = chunk_of(job.text.len() as int, job.grid * job.block);
            let start = job.window_start(t);
            let end = job.window_end(t);
            &&& start == t * c
            &&& end <= job.text.len() && end <= start + c && (end == job.text.len() || end == start
                + c)
            &&& start < job.text.len() ==> job.first_row(t) == start_result(job.text, t, start)
            &&& start >= job.text.len() ==> job.first_row(t) is None
            &&& job.threads() == job.grid * job.block
        }),
{
    let c = chunk_of(job.text.len() as int, job.grid * job.block);
    assert((t + 1) * c == t * c + c) by (nonlinear_arith);
}

/// A launch needs a thread, and no more of them than an `u32` can count.
pub proof fn lemma_launchable(launch: Launch)
    ensures
        launch.wf() <==> launch.grid_dim > 0 && launch.block_dim > 0 && launch.grid_dim
            * launch.block_dim <= 0xffff_ffff,
{
}

/// A launch has as many threads as its blocks have together. Block after block works on one of the four
/// tables in turn.
pub proof fn lemma_threads(launch: Launch, text: Seq<u8>, b: int, lane: int)
    requires
        launch.wf(),
        0 <= b < launch.grid_dim,
        0 <= lane < launch.block_dim,
    ensures
        launch.job(text).text == text,
        launch.job(text).threads() == launch.grid_dim * launch.block_dim,
        launch.job(text).table(b * launch.block_dim + lane) == b % 4,
{
    let block = launch.block_dim as int;
    assert((b * block + lane) / block == b) by (nonlinear_arith)
        requires
            0 <= lane < block,
            0 <= b,
    ;
}

/// A row that begins at a place is what `parse_line` makes of all the text from there on.
pub proof fn lemma_row_at(text: Seq<u8>, pos: int)
    ensures
        row_result(text, pos) == line_result(text.skip(pos), text.len() - pos),
{
}

/// A thread reads row after row, each from where the one before ends, as long as they begin no later
/// than where its part ends, within the text, and are rows.
pub proof fn lemma_rows_read_on(text: Seq<u8>, pos: int, end: int)
    requires
        0 <= pos,
    ensures
        pos > end || pos >= text.len() || row_result(text, pos) is None ==> rows_from(
            text,
            pos,
            end,
        ).len() == 0,
        pos <= end && pos < text.len() ==> (row_result(text, pos) matches Some(
            (name_len, temp, len),
        ) ==> {
            &&& rows_from(text, pos, end) == seq![Row { pos, name_len, temp, len }] + rows_from(
                text,
                pos + len,
                end,
            )
            &&& rows_fit(text, pos, end) == (line_fits(text.skip(pos), text.len() - pos)
                && rows_fit(text, pos + len, end))
        }),
        pos > end || pos >= text.len() ==> rows_fit(text, pos, end),
        pos <= end && pos < text.len() && row_result(text, pos) is None ==> rows_fit(text, pos, end)
            == line_fits(text.skip(pos), text.len() - pos),
{
    if pos <= end && pos < text.len() && row_result(text, pos) is Some {
        lemma_line_result(text.skip(pos), text.len() - pos);
        lemma_rows_step(text, pos, end);
    }
}

/// The rows of a thread are those from its first row on. They are counted under their first bytes, as
/// many as their names have.
pub proof fn lemma_thread_rows_are(job: Job, t: int, r: RowId)
    ensures
        job.first_row(t) is None ==> job.rows(t).len() == 0,
        job.first_row(t) matches Some(pos) ==> job.rows(t) == rows_from(
            job.text,
            pos,
            job.window_end(t),
        ),
        job.thread_fits(t) <==> (job.first_row(t) matches Some(pos) ==> rows_fit(
            job.text,
            pos,
            job.window_end(t),
        )),
        job.fits() <==> forall|u: int| 0 <= u < job.threads() ==> #[trigger] job.thread_fits(u),
        job.has(r) <==> 0 <= r.thread < job.threads() && 0 <= r.index < job.rows(r.thread).len(),
        job.row(r) == job.rows(r.thread)[r.index],
        job.name(r) == job.text.subrange(job.row(r).pos, job.row(r).pos + job.row(r).name_len),
{
}

} // verus!
