//! Which rows of a text the threads read: all of them, and none twice.

use vstd::arithmetic::mul::{
    lemma_mul_inequality, lemma_mul_is_commutative, lemma_mul_is_distributive_add_other_way,
    lemma_mul_nonnegative, lemma_mul_strictly_positive,
};
use vstd::prelude::*;
use crate::launch::{
    lemma_line_result, lemma_rows_from, row_result, rows_fit, rows_from, Job, Row, RowId,
};
use crate::parse::{
    index_from, least, lemma_index_from, lemma_index_from_is, sign_len, temp_digits, temp_fits,
    temp_result, temp_value, whole_end, NAME_MAX, NEWLINE, POINT, SEPARATOR,
};

verus! {

/// A row begins at `p`: it is the first byte, or a newline stands before it.
pub open spec fn begins(text: Seq<u8>, p: int) -> bool {
    0 <= p < text.len() && (p == 0 || text[p - 1] == NEWLINE)
}

/// Every row that ends with a newline has a separator. Behind the last newline there may be the
/// beginning of one more row.
pub open spec fn tidy(text: Seq<u8>) -> bool {
    forall|p: int| #[trigger]
        begins(text, p) && index_from(text, NEWLINE, p) < text.len() ==> index_from(
            text,
            SEPARATOR,
            p,
        ) < index_from(text, NEWLINE, p)
}

/// The reading of every row is one that can be parsed.
pub open spec fn sound(text: Seq<u8>) -> bool {
    forall|p: int| #[trigger]
        begins(text, p) && index_from(text, SEPARATOR, p) < text.len() ==> temp_fits(
            text.skip(index_from(text, SEPARATOR, p) + 1),
        )
}

/// All rows of a text.
pub open spec fn text_rows(text: Seq<u8>) -> Seq<Row> {
    rows_from(text, 0, text.len() as int)
}

/// The name that a row is counted under, and its reading in tenths.
pub struct Reading {
    pub name: Seq<u8>,
    pub temp: int,
}

impl Row {
    /// What a row of a text says.
    pub open spec fn reading(self, text: Seq<u8>) -> Reading {
        Reading { name: self.name(text), temp: self.temp }
    }
}

/// What the rows of a text say, in order.
pub open spec fn readings(text: Seq<u8>) -> Seq<Reading> {
    text_rows(text).map_values(|row: Row| row.reading(text))
}

/// The text does not break off within a row.
pub open spec fn complete(text: Seq<u8>) -> bool {
    text.len() == 0 || text.last() == NEWLINE
}

impl Job {
    /// The row is one that thread `t` reads: it begins in the thread's part of the text or right
    /// behind it, but not where the part starts, unless it is the first of all.
    pub open spec fn within(self, t: int, row: Row) -> bool {
        &&& self.window_start(t) < row.pos || t == 0
        &&& row.pos <= self.window_end(t)
    }
}

/// What stands behind the newline of a reading does not change the reading.
pub proof fn lemma_temp_prefix(s: Seq<u8>, n: int)
    requires
        index_from(s, NEWLINE, 0) < n <= s.len(),
    ensures
        temp_result(s.take(n)) == temp_result(s),
        temp_digits(s.take(n)) == temp_digits(s),
{
    let cut = s.take(n);
    let sign = sign_len(s);
    lemma_index_from(s, NEWLINE, 0);
    let newline = index_from(s, NEWLINE, 0);
    assert(cut[0] == s[0]);
    assert(sign_len(cut) == sign);
    lemma_index_from_is(cut, NEWLINE, 0, newline);
    lemma_index_from_is(cut, NEWLINE, sign, newline);
    lemma_index_from_is(s, NEWLINE, sign, newline);
    lemma_index_from(s, POINT, sign);
    lemma_index_from(cut, POINT, sign);
    let point = index_from(s, POINT, sign);
    let short = index_from(cut, POINT, sign);
    if point < newline {
        lemma_index_from_is(cut, POINT, sign, point);
    } else if short < newline {
        assert(s[short] == cut[short]);
    }
    let end = whole_end(s);
    assert(whole_end(cut) == end);
    assert(end <= newline);
    assert(cut.subrange(sign, end) =~= s.subrange(sign, end));
    assert(cut[end] == s[end]);
    if end < newline {
        assert(cut[end + 1] == s[end + 1]);
    }
    assert(temp_digits(cut) =~= temp_digits(s));
}

/// A row that has its separator and its newline is found, and nothing behind it matters.
pub proof fn lemma_whole_line(text: Seq<u8>, p: int)
    requires
        0 <= p < text.len(),
        index_from(text, SEPARATOR, p) < index_from(text, NEWLINE, p) < text.len(),
    ensures
        ({
            let sep = index_from(text, SEPARATOR, p);
            let newline = index_from(text, NEWLINE, p);
            row_result(text, p) == Some(
                (
                    least(sep - p, NAME_MAX as int),
                    temp_value(text.skip(sep + 1)),
                    newline + 1 - p,
                ),
            )
        }),
{
    let sep = index_from(text, SEPARATOR, p);
    let newline = index_from(text, NEWLINE, p);
    lemma_index_from(text, SEPARATOR, p);
    lemma_index_from(text, NEWLINE, p);
    let s = text.skip(p);
    assert(s.take(s.len() as int) =~= s);
    assert forall|i: int| 0 <= i < s.len() implies s[i] == text[p + i] by {}
    lemma_index_from_is(s, SEPARATOR, 0, sep - p);
    let rest = text.skip(sep + 1);
    assert(s.skip(sep - p + 1) =~= rest);
    assert forall|i: int| 0 <= i < rest.len() implies rest[i] == text[sep + 1 + i] by {}
    lemma_index_from_is(rest, NEWLINE, 0, newline - sep - 1);
}

/// Where there is no newline, no row is found.
proof fn lemma_no_newline(text: Seq<u8>, p: int, end: int)
    requires
        0 <= p <= text.len() <= index_from(text, NEWLINE, p),
    ensures
        rows_from(text, p, end) == Seq::<Row>::empty(),
        p < text.len() ==> row_result(text, p) is None,
{
    if p < text.len() {
        lemma_index_from(text, NEWLINE, p);
        let seen = text.skip(p);
        assert(seen.take(seen.len() as int) =~= seen);
        let sep = index_from(seen, SEPARATOR, 0);
        lemma_index_from(seen, SEPARATOR, 0);
        if sep < seen.len() {
            let tail = seen.skip(sep + 1);
            assert forall|i: int| 0 <= i < tail.len() implies tail[i] != NEWLINE by {
                assert(tail[i] == text[p + sep + 1 + i]);
            }
            lemma_index_from_is(tail, NEWLINE, 0, tail.len() as int);
        }
    }
    assert(rows_from(text, p, end) =~= Seq::<Row>::empty());
}

/// Where the row that begins at `p` ends, the next one begins, unless the text ends there too.
proof fn lemma_tidy_rows(text: Seq<u8>, p: int, end: int)
    requires
        tidy(text),
        begins(text, p),
        p <= end,
        index_from(text, NEWLINE, p) < text.len(),
    ensures
        ({
            let rows = rows_from(text, p, end);
            let next = index_from(text, NEWLINE, p) + 1;
            &&& rows.len() > 0
            &&& rows[0].pos == p
            &&& rows[0].len == next - p
            &&& rows[0] == rows_from(text, p, text.len() as int)[0]
            &&& p < next <= text.len()
            &&& next < text.len() ==> begins(text, next)
            &&& rows == seq![rows[0]] + rows_from(text, next, end)
        }),
{
    lemma_index_from(text, NEWLINE, p);
    lemma_whole_line(text, p);
}

/// The rows that begin no later than `end` are those rows of the text from there on that do.
proof fn lemma_rows_cut(text: Seq<u8>, p: int, end: int)
    requires
        tidy(text),
        begins(text, p) || p == text.len(),
    ensures
        rows_from(text, p, end) == rows_from(text, p, text.len() as int).filter(
            |row: Row| row.pos <= end,
        ),
    decreases text.len() - p,
{
    let n = text.len() as int;
    let all = rows_from(text, p, n);
    let f = |row: Row| row.pos <= end;
    if p == n || index_from(text, NEWLINE, p) >= n {
        lemma_no_newline(text, p, n);
        lemma_no_newline(text, p, end);
        lemma_filter_none(all, f);
    } else {
        lemma_tidy_rows(text, p, n);
        let row = all[0];
        let next = row.pos + row.len;
        let rest = rows_from(text, next, n);
        let head = seq![row];
        Seq::filter_distributes_over_add(head, rest, f);
        lemma_rows_cut(text, next, end);
        if p <= end {
            lemma_tidy_rows(text, p, end);
            lemma_filter_all(head, f);
        } else {
            lemma_filter_none(head, f);
            assert(rows_from(text, next, end) =~= Seq::<Row>::empty());
            assert(rows_from(text, p, end) =~= Seq::<Row>::empty());
        }
        assert(Seq::<Row>::empty() + Seq::<Row>::empty() =~= Seq::<Row>::empty());
    }
}

/// The rows from `p` on are those before `q` and those from `q` on.
proof fn lemma_rows_split(text: Seq<u8>, p: int, q: int) -> (front: Seq<Row>)
    requires
        tidy(text),
        begins(text, p) || p == text.len(),
        begins(text, q) || q == text.len(),
        p <= q,
    ensures
        rows_from(text, p, text.len() as int) == front + rows_from(text, q, text.len() as int),
        forall|i: int|
            0 <= i < front.len() ==> p <= (#[trigger] front[i]).pos < q && begins(
                text,
                front[i].pos,
            ),
    decreases q - p,
{
    let n = text.len() as int;
    if p == q {
        assert(Seq::<Row>::empty() + rows_from(text, q, n) =~= rows_from(text, p, n));
        Seq::empty()
    } else if index_from(text, NEWLINE, p) >= n {
        lemma_index_from(text, NEWLINE, p);
        if q < n {
            assert(text[q - 1] == NEWLINE);
        }
        lemma_no_newline(text, p, n);
        assert(rows_from(text, q, n) =~= Seq::<Row>::empty());
        assert(Seq::<Row>::empty() + rows_from(text, q, n) =~= rows_from(text, p, n));
        Seq::empty()
    } else {
        lemma_tidy_rows(text, p, n);
        let row = rows_from(text, p, n)[0];
        let next = row.pos + row.len;
        lemma_index_from(text, NEWLINE, p);
        if next > q {
            assert(text[q - 1] == NEWLINE);
        }
        let rest = lemma_rows_split(text, next, q);
        let front = seq![row] + rest;
        assert(front + rows_from(text, q, n) =~= seq![row] + (rest + rows_from(text, q, n)));
        assert forall|i: int| 0 <= i < front.len() implies p <= (#[trigger] front[i]).pos < q
            && begins(text, front[i].pos) by {
            if i > 0 {
                assert(front[i] == rest[i - 1]);
            }
        }
        front
    }
}

/// Rows of a tidy text stand one behind the other and begin behind newlines.
proof fn lemma_text_rows(text: Seq<u8>, p: int)
    requires
        tidy(text),
        begins(text, p) || p == text.len(),
    ensures
        forall|i: int|
            0 <= i < rows_from(text, p, text.len() as int).len() ==> {
                let row = #[trigger] rows_from(text, p, text.len() as int)[i];
                &&& p <= row.pos
                &&& begins(text, row.pos)
                &&& row.len > 0
                &&& row.pos + row.len <= text.len()
            },
        forall|i: int, j: int|
            0 <= i < j < rows_from(text, p, text.len() as int).len() ==> (
            #[trigger] rows_from(text, p, text.len() as int)[i]).pos < (#[trigger] rows_from(
                text,
                p,
                text.len() as int,
            )[j]).pos,
    decreases text.len() - p,
{
    let n = text.len() as int;
    let rows = rows_from(text, p, n);
    if p == n || index_from(text, NEWLINE, p) >= n {
        lemma_no_newline(text, p, n);
    } else {
        lemma_tidy_rows(text, p, n);
        let next = rows[0].pos + rows[0].len;
        let rest = rows_from(text, next, n);
        lemma_text_rows(text, next);
        assert forall|i: int| 0 <= i < rows.len() implies {
            let row = #[trigger] rows[i];
            &&& p <= row.pos
            &&& begins(text, row.pos)
            &&& row.len > 0
            &&& row.pos + row.len <= n
        } by {
            if i > 0 {
                assert(rows[i] == rest[i - 1]);
            }
        }
        assert forall|i: int, j: int| 0 <= i < j < rows.len() implies (#[trigger] rows[i]).pos
            < (#[trigger] rows[j]).pos by {
            assert(rows[j] == rest[j - 1]);
            if i > 0 {
                assert(rows[i] == rest[i - 1]);
            }
        }
    }
}

/// Every row of a tidy text is one of `text_rows`: its name reaches to the separator, but not
/// beyond `NAME_MAX` bytes, its reading is what stands behind the separator, and it takes up all
/// bytes up to its newline.
pub proof fn lemma_every_row(text: Seq<u8>, p: int)
    requires
        tidy(text),
        begins(text, p),
        index_from(text, NEWLINE, p) < text.len(),
    ensures
        ({
            let sep = index_from(text, SEPARATOR, p);
            let newline = index_from(text, NEWLINE, p);
            text_rows(text).contains(
                Row {
                    pos: p,
                    name_len: least(sep - p, NAME_MAX as int),
                    temp: temp_value(text.skip(sep + 1)),
                    len: newline + 1 - p,
                },
            )
        }),
{
    let n = text.len() as int;
    let rest = rows_from(text, p, n);
    let front = lemma_rows_split(text, 0, p);
    lemma_whole_line(text, p);
    lemma_tidy_rows(text, p, n);
    assert(text_rows(text)[front.len() as int] == rest[0]);
}

proof fn lemma_filter_none(rows: Seq<Row>, f: spec_fn(Row) -> bool)
    requires
        forall|i: int| 0 <= i < rows.len() ==> !f(#[trigger] rows[i]),
    ensures
        rows.filter(f) == Seq::<Row>::empty(),
    decreases rows.len(),
{
    reveal(Seq::filter);
    if rows.len() > 0 {
        assert(!f(rows[rows.len() - 1]));
        lemma_filter_none(rows.drop_last(), f);
    }
}

proof fn lemma_filter_same(rows: Seq<Row>, f: spec_fn(Row) -> bool, g: spec_fn(Row) -> bool)
    requires
        forall|i: int| 0 <= i < rows.len() ==> f(#[trigger] rows[i]) == g(rows[i]),
    ensures
        rows.filter(f) == rows.filter(g),
    decreases rows.len(),
{
    reveal(Seq::filter);
    if rows.len() > 0 {
        assert(f(rows[rows.len() - 1]) == g(rows[rows.len() - 1]));
        lemma_filter_same(rows.drop_last(), f, g);
    }
}

/// Of two tests that no row passes both, and of which no row passes the first behind one that
/// passes the second, the rows that pass either are those of the first and those of the second.
proof fn lemma_filter_join(
    rows: Seq<Row>,
    f: spec_fn(Row) -> bool,
    g: spec_fn(Row) -> bool,
    either: spec_fn(Row) -> bool,
)
    requires
        forall|i: int|
            0 <= i < rows.len() ==> (either(#[trigger] rows[i]) <==> f(rows[i]) || g(rows[i])),
        forall|i: int, j: int|
            0 <= i <= j < rows.len() && g(#[trigger] rows[i]) ==> !f(#[trigger] rows[j]),
    ensures
        rows.filter(either) == rows.filter(f) + rows.filter(g),
    decreases rows.len(),
{
    reveal(Seq::filter);
    if rows.len() > 0 {
        let rest = rows.drop_last();
        let last = rows[rows.len() - 1];
        assert(either(last) <==> f(last) || g(last));
        lemma_filter_join(rest, f, g, either);
        if f(last) {
            assert forall|i: int| 0 <= i < rest.len() implies !g(#[trigger] rest[i]) by {
                assert(rows[i] == rest[i]);
            }
            assert(!g(rows[rows.len() - 1]));
            lemma_filter_none(rest, g);
        }
        assert(rows.filter(either) =~= rows.filter(f) + rows.filter(g));
    } else {
        assert(rows.filter(either) =~= rows.filter(f) + rows.filter(g));
    }
}

proof fn lemma_filter_all(rows: Seq<Row>, f: spec_fn(Row) -> bool)
    requires
        forall|i: int| 0 <= i < rows.len() ==> f(#[trigger] rows[i]),
    ensures
        rows.filter(f) == rows,
    decreases rows.len(),
{
    reveal(Seq::filter);
    if rows.len() > 0 {
        assert(f(rows[rows.len() - 1]));
        lemma_filter_all(rows.drop_last(), f);
        assert(rows.drop_last().push(rows[rows.len() - 1]) =~= rows);
    } else {
        assert(rows.filter(f) =~= rows);
    }
}

/// A place lies in one part only.
proof fn lemma_same_part(u: int, t: int, c: int, p: int)
    requires
        u * c <= p < (u + 1) * c,
        t * c <= p < (t + 1) * c,
        c >= 0,
    ensures
        u == t,
{
    if u < t {
        lemma_mul_inequality(u + 1, t, c);
    } else if t < u {
        lemma_mul_inequality(t + 1, u, c);
    }
}

impl Job {
    /// The parts of the text that the threads are given: part `t` starts at `t` chunks, and
    /// together they reach to the end.
    proof fn lemma_chunks(self)
        requires
            self.wf(),
        ensures
            self.threads() > 0,
            self.chunk() >= 0,
            self.text.len() > 0 ==> self.chunk() > 0,
            self.text.len() <= self.threads() * self.chunk(),
    {
        let n = self.threads();
        let total = self.text.len() as int;
        assert(n > 0) by (nonlinear_arith)
            requires
                n == self.grid * self.block,
                self.grid > 0,
                self.block > 0,
        ;
        let c = (total + n - 1) / n;
        vstd::arithmetic::div_mod::lemma_fundamental_div_mod(total + n - 1, n);
        vstd::arithmetic::div_mod::lemma_mod_bound(total + n - 1, n);
        vstd::arithmetic::div_mod::lemma_div_pos_is_pos(total + n - 1, n);
        assert(total <= n * c);
        if c == 0 {
            assert(n * c == 0) by (nonlinear_arith)
                requires
                    c == 0,
            ;
        }
    }

    proof fn lemma_part(self, t: int)
        requires
            self.wf(),
            0 <= t,
        ensures
            0 <= self.window_start(t),
            t > 0 && self.text.len() > 0 ==> 0 < self.window_start(t),
            self.window_start(t) <= (t + 1) * self.chunk(),
            self.window_end(t) <= self.text.len(),
    {
        self.lemma_chunks();
        let c = self.chunk();
        lemma_mul_nonnegative(t, c);
        lemma_mul_inequality(t, t + 1, c);
        if t > 0 && c > 0 {
            lemma_mul_strictly_positive(t, c);
        }
    }

    /// Every byte of the text is in the part of exactly one thread.
    pub proof fn lemma_one_window(self, i: int) -> (t: int)
        requires
            self.wf(),
            0 <= i < self.text.len(),
        ensures
            0 <= t < self.threads(),
            self.window_start(t) <= i < self.window_end(t),
            forall|u: int|
                0 <= u < self.threads() && #[trigger] self.window_start(u) <= i < self.window_end(u)
                    ==> u == t,
    {
        self.lemma_chunks();
        let c = self.chunk();
        let n = self.threads();
        let t = i / c;
        vstd::arithmetic::div_mod::lemma_fundamental_div_mod(i, c);
        vstd::arithmetic::div_mod::lemma_mod_bound(i, c);
        vstd::arithmetic::div_mod::lemma_div_pos_is_pos(i, c);
        lemma_mul_is_commutative(c, t);
        lemma_mul_is_distributive_add_other_way(c, t, 1);
        if t >= n {
            lemma_mul_inequality(n, t, c);
        }
        assert forall|u: int|
            0 <= u < self.threads() && #[trigger] self.window_start(u) <= i < self.window_end(
                u,
            ) implies u == t by {
            lemma_same_part(u, t, c, i);
        }
        t
    }

    /// Every row that a thread reads is a whole one, from its first byte to its newline, and
    /// begins in the thread's part of the text or right behind it.
    pub proof fn lemma_row_whole(self, r: RowId)
        requires
            self.wf(),
            self.has(r),
        ensures
            begins(self.text, self.row(r).pos),
            self.row(r).len > 0,
            self.row(r).pos + self.row(r).len <= self.text.len(),
            self.text[self.row(r).pos + self.row(r).len - 1] == NEWLINE,
            self.within(r.thread, self.row(r)),
    {
        let t = r.thread;
        let text = self.text;
        self.lemma_part(t);
        let first = self.first_row(t)->0;
        if t != 0 {
            lemma_index_from(text, NEWLINE, self.window_start(t));
        } else {
            assert(self.window_start(0) == 0);
        }
        lemma_rows_from(text, first, self.window_end(t), r.index);
        if r.index > 0 {
            lemma_rows_from(text, first, self.window_end(t), r.index - 1);
        }
    }

    /// No byte of a tidy text is in two of the rows that the threads read.
    pub proof fn lemma_rows_apart(self, r: RowId, s: RowId)
        requires
            self.wf(),
            tidy(self.text),
            self.has(r),
            self.has(s),
            r != s,
        ensures
            self.row(r).pos + self.row(r).len <= self.row(s).pos || self.row(s).pos + self.row(s).len
                <= self.row(r).pos,
    {
        self.lemma_row_whole(r);
        self.lemma_row_whole(s);
        self.lemma_chunks();
        if r.thread == s.thread {
            if r.index < s.index {
                self.lemma_rows_ordered(r.thread, r.index, s.index);
            } else {
                self.lemma_rows_ordered(r.thread, s.index, r.index);
            }
        } else if r.thread < s.thread {
            self.lemma_threads_apart(r, s);
        } else {
            self.lemma_threads_apart(s, r);
        }
    }

    proof fn lemma_threads_apart(self, low: RowId, high: RowId)
        requires
            self.wf(),
            tidy(self.text),
            self.has(low),
            self.has(high),
            low.thread < high.thread,
        ensures
            self.row(low).pos + self.row(low).len <= self.row(high).pos,
    {
        let text = self.text;
        let p = self.row(low).pos;
        let q = self.row(high).pos;
        self.lemma_row_whole(low);
        self.lemma_row_whole(high);
        self.lemma_chunks();
        lemma_mul_inequality(low.thread + 1, high.thread, self.chunk());
        assert(p < q);
        assert(text[q - 1] == NEWLINE);
        lemma_index_from(text, NEWLINE, p);
        lemma_whole_line(text, p);
        self.lemma_part(low.thread);
        let first = self.first_row(low.thread)->0;
        if low.thread != 0 {
            lemma_index_from(text, NEWLINE, self.window_start(low.thread));
        }
        lemma_rows_from(text, first, self.window_end(low.thread), low.index);
    }

    proof fn lemma_rows_ordered(self, t: int, i: int, j: int)
        requires
            self.wf(),
            0 <= t < self.threads(),
            0 <= i < j < self.rows(t).len(),
        ensures
            self.rows(t)[i].pos + self.rows(t)[i].len <= self.rows(t)[j].pos,
        decreases j - i,
    {
        self.lemma_part(t);
        let first = self.first_row(t)->0;
        if t != 0 {
            lemma_index_from(self.text, NEWLINE, self.window_start(t));
        }
        lemma_rows_from(self.text, first, self.window_end(t), j);
        if i < j - 1 {
            self.lemma_rows_ordered(t, i, j - 1);
            lemma_rows_from(self.text, first, self.window_end(t), j - 1);
        }
    }
}

/// The rows behind the first newline at or after `start` that begin no later than `end` are those
/// rows of the text that begin behind `start` and no later than `end`.
proof fn lemma_rows_behind(text: Seq<u8>, start: int, end: int, q: int, f: spec_fn(Row) -> bool)
    requires
        tidy(text),
        0 <= start < text.len(),
        begins(text, q) && q == index_from(text, NEWLINE, start) + 1 || q == text.len()
            && text.len() <= index_from(text, NEWLINE, start) + 1,
        forall|row: Row| #[trigger] f(row) <==> start < row.pos && row.pos <= end,
    ensures
        rows_from(text, q, end) == text_rows(text).filter(f),
{
    let n = text.len() as int;
    let front = lemma_rows_split(text, 0, q);
    let rest = rows_from(text, q, n);
    let cut = |row: Row| row.pos <= end;
    assert(front.filter(f) == Seq::<Row>::empty()) by {
        lemma_index_from(text, NEWLINE, start);
        assert forall|i: int| 0 <= i < front.len() implies !f(#[trigger] front[i]) by {
            assert(begins(text, front[i].pos));
        }
        lemma_filter_none(front, f);
    }
    assert(rest.filter(f) == rest.filter(cut)) by {
        lemma_index_from(text, NEWLINE, start);
        assert forall|i: int| 0 <= i < rest.len() implies f(#[trigger] rest[i]) == cut(rest[i]) by {
            lemma_text_rows(text, q);
        }
        lemma_filter_same(rest, f, cut);
    }
    lemma_rows_cut(text, q, end);
    Seq::filter_distributes_over_add(front, rest, f);
    assert(Seq::<Row>::empty() + rest.filter(f) =~= rest.filter(f));
}

/// The rows from the first on that begin no later than `end`.
proof fn lemma_rows_front(text: Seq<u8>, end: int, f: spec_fn(Row) -> bool)
    requires
        tidy(text),
        forall|row: Row| #[trigger] f(row) <==> row.pos <= end,
    ensures
        rows_from(text, 0, end) == text_rows(text).filter(f),
{
    let cut = |row: Row| row.pos <= end;
    lemma_rows_cut(text, 0, end);
    lemma_filter_same(text_rows(text), f, cut);
}

/// No row begins behind the text.
proof fn lemma_rows_beyond(text: Seq<u8>, start: int, f: spec_fn(Row) -> bool)
    requires
        tidy(text),
        start >= text.len(),
        forall|row: Row| #[trigger] f(row) ==> start < row.pos,
    ensures
        text_rows(text).filter(f) == Seq::<Row>::empty(),
{
    let all = text_rows(text);
    assert forall|i: int| 0 <= i < all.len() implies !f(#[trigger] all[i]) by {
        lemma_text_rows(text, 0);
    }
    lemma_filter_none(all, f);
}

impl Job {
    /// Of a tidy text a thread reads exactly the rows that begin behind where its part starts and
    /// no later than where it ends, the first thread also the first row.
    pub proof fn lemma_thread_rows(self, t: int)
        requires
            self.wf(),
            tidy(self.text),
            0 <= t < self.threads(),
        ensures
            self.rows(t) == text_rows(self.text).filter(|row: Row| self.within(t, row)),
    {
        let text = self.text;
        let f = |row: Row| self.within(t, row);
        let start = self.window_start(t);
        let end = self.window_end(t);
        self.lemma_part(t);
        if t == 0 {
            assert(start == 0);
            lemma_rows_front(text, end, f);
            assert(text.len() == 0 ==> rows_from(text, 0, end) =~= Seq::<Row>::empty());
        } else if start >= text.len() {
            lemma_rows_beyond(text, start, f);
        } else {
            lemma_index_from(text, NEWLINE, start);
            let newline = index_from(text, NEWLINE, start);
            let q = if newline + 1 < text.len() {
                newline + 1
            } else {
                text.len() as int
            };
            lemma_rows_behind(text, start, end, q, f);
        }
    }

    /// The rows of the first `m` threads.
    pub open spec fn rows_read(self, m: int) -> Seq<Row> {
        self.rows_before(m).map_values(|r: RowId| self.row(r))
    }

    /// The row begins no later than where the first `m` parts end.
    spec fn before_part(self, m: int, row: Row) -> bool {
        m > 0 && row.pos <= m * self.chunk()
    }

    /// A row of the first `t + 1` threads is one of the first `t` threads or of the next.
    proof fn lemma_row_part(self, t: int, row: Row)
        requires
            self.wf(),
            0 <= t,
            0 <= row.pos < self.text.len(),
        ensures
            self.before_part(t + 1, row) <==> self.before_part(t, row) || self.within(t, row),
            !(self.before_part(t, row) && self.within(t, row)),
    {
        self.lemma_chunks();
        lemma_mul_inequality(t, t + 1, self.chunk());
    }

    proof fn lemma_rows_read(self, m: int)
        requires
            self.wf(),
            tidy(self.text),
            0 <= m <= self.threads(),
        ensures
            self.rows_read(m) == text_rows(self.text).filter(|row: Row| self.before_part(m, row)),
        decreases m,
    {
        let all = text_rows(self.text);
        let either = |row: Row| self.before_part(m, row);
        if m == 0 {
            lemma_filter_none(all, either);
            assert(self.rows_read(0) =~= Seq::<Row>::empty());
        } else {
            let t = m - 1;
            let f = |row: Row| self.before_part(t, row);
            let g = |row: Row| self.within(t, row);
            self.lemma_rows_read(t);
            self.lemma_thread_rows(t);
            assert(self.rows_read(m) =~= self.rows_read(t) + self.rows(t));
            assert forall|i: int| 0 <= i < all.len() implies (either(#[trigger] all[i]) <==> f(all[i])
                || g(all[i])) by {
                lemma_text_rows(self.text, 0);
                self.lemma_row_part(t, all[i]);
            }
            assert forall|i: int, j: int|
                0 <= i <= j < all.len() && g(#[trigger] all[i]) implies !f(#[trigger] all[j]) by {
                lemma_text_rows(self.text, 0);
                self.lemma_row_part(t, all[i]);
            }
            lemma_filter_join(all, f, g, either);
        }
    }

    /// The threads together read all rows of a tidy text, each of them once and in order, whatever
    /// the shape of the launch.
    pub proof fn lemma_all_rows(self)
        requires
            self.wf(),
            tidy(self.text),
        ensures
            self.all_rows().map_values(|r: RowId| self.row(r)) == text_rows(self.text),
    {
        let all = text_rows(self.text);
        let f = |row: Row| self.before_part(self.threads(), row);
        self.lemma_chunks();
        self.lemma_rows_read(self.threads());
        assert forall|i: int| 0 <= i < all.len() implies f(#[trigger] all[i]) by {
            lemma_text_rows(self.text, 0);
        }
        lemma_filter_all(all, f);
    }

    /// Every row of a tidy text is read by a thread.
    pub proof fn lemma_row_read(self, i: int)
        requires
            self.wf(),
            tidy(self.text),
            0 <= i < text_rows(self.text).len(),
        ensures
            exists|r: RowId| #[trigger] self.has(r) && self.row(r) == text_rows(self.text)[i],
    {
        self.lemma_all_rows();
        self.lemma_rows_before(self.threads());
        let all = self.all_rows();
        assert(all.map_values(|r: RowId| self.row(r))[i] == self.row(all[i]));
        assert(all.contains(all[i]));
        assert(self.has(all[i]));
    }
}

/// Where all readings of a tidy text can be parsed, those that are met from a row on can.
proof fn lemma_rows_sound(text: Seq<u8>, p: int, end: int)
    requires
        tidy(text),
        sound(text),
        begins(text, p) || p == text.len(),
    ensures
        rows_fit(text, p, end),
    decreases text.len() - p,
{
    if p < text.len() {
        let sep = index_from(text, SEPARATOR, p);
        let newline = index_from(text, NEWLINE, p);
        lemma_index_from(text, SEPARATOR, p);
        lemma_index_from(text, NEWLINE, p);
        let seen = text.skip(p);
        assert(seen.take(seen.len() as int) =~= seen);
        assert forall|i: int| 0 <= i < seen.len() implies seen[i] == text[p + i] by {}
        lemma_index_from_is(seen, SEPARATOR, 0, sep - p);
        if sep < text.len() {
            assert(seen.skip(sep - p + 1) =~= text.skip(sep + 1));
        }
        if newline >= text.len() {
            lemma_no_newline(text, p, end);
        } else {
            lemma_whole_line(text, p);
            lemma_rows_sound(text, newline + 1, end);
        }
    }
}

impl Job {
    /// Where all readings of a tidy text can be parsed, no launch meets one that cannot.
    pub proof fn lemma_fits(self)
        requires
            self.wf(),
            tidy(self.text),
            sound(self.text),
        ensures
            self.fits(),
    {
        assert forall|t: int| 0 <= t < self.threads() implies #[trigger] self.thread_fits(t) by {
            self.lemma_part(t);
            if self.first_row(t) is Some {
                let pos = self.first_row(t)->0;
                if t != 0 {
                    lemma_index_from(self.text, NEWLINE, self.window_start(t));
                }
                lemma_rows_sound(self.text, pos, self.window_end(t));
            }
        }
    }
}

/// What the rows from `p` on say.
spec fn readings_from(text: Seq<u8>, p: int) -> Seq<Reading> {
    rows_from(text, p, text.len() as int).map_values(|row: Row| row.reading(text))
}

proof fn lemma_readings_step(text: Seq<u8>, p: int)
    requires
        0 <= p < text.len(),
        row_result(text, p) is Some,
    ensures
        ({
            let (name_len, temp, len) = row_result(text, p)->0;
            readings_from(text, p) == seq![
                Reading { name: text.subrange(p, p + name_len), temp },
            ] + readings_from(text, p + len)
        }),
{
    let (name_len, temp, len) = row_result(text, p)->0;
    let n = text.len() as int;
    let row = Row { pos: p, name_len, temp, len };
    assert(rows_from(text, p, n) == seq![row] + rows_from(text, p + len, n));
    assert(readings_from(text, p) =~= seq![row.reading(text)] + readings_from(text, p + len));
}

/// What stands before a row does not change it.
proof fn lemma_readings_behind(a: Seq<u8>, b: Seq<u8>, q: int)
    requires
        0 <= q <= b.len(),
    ensures
        readings_from(a + b, a.len() + q) == readings_from(b, q),
    decreases b.len() - q,
{
    let text = a + b;
    let p = a.len() + q;
    if q < b.len() {
        assert(text.skip(p) =~= b.skip(q));
        assert(row_result(text, p) == row_result(b, q));
        if row_result(b, q) is Some {
            let (name_len, temp, len) = row_result(b, q)->0;
            lemma_line_result(b.skip(q), b.len() - q);
            lemma_readings_step(text, p);
            lemma_readings_step(b, q);
            lemma_readings_behind(a, b, q + len);
            assert(text.subrange(p, p + name_len) =~= b.subrange(q, q + name_len));
        } else {
            assert(readings_from(text, p) =~= readings_from(b, q));
        }
    } else {
        assert(readings_from(text, p) =~= readings_from(b, q));
    }
}

proof fn lemma_readings_before(a: Seq<u8>, b: Seq<u8>, p: int)
    requires
        tidy(a),
        complete(a),
        begins(a, p) || p == a.len(),
    ensures
        readings_from(a + b, p) == readings_from(a, p) + readings(b),
    decreases a.len() - p,
{
    let text = a + b;
    if p == a.len() {
        lemma_readings_behind(a, b, 0);
        assert(readings_from(a, p) =~= Seq::<Reading>::empty());
        assert(Seq::<Reading>::empty() + readings(b) =~= readings(b));
    } else {
        let sep = index_from(a, SEPARATOR, p);
        let newline = index_from(a, NEWLINE, p);
        lemma_index_from(a, SEPARATOR, p);
        lemma_index_from(a, NEWLINE, p);
        assert(a[a.len() - 1] == NEWLINE);
        assert(newline < a.len());
        assert forall|i: int| 0 <= i < a.len() implies text[i] == a[i] by {}
        lemma_index_from_is(text, SEPARATOR, p, sep);
        lemma_index_from_is(text, NEWLINE, p, newline);
        lemma_whole_line(a, p);
        lemma_whole_line(text, p);
        let rest = text.skip(sep + 1);
        assert(rest.take(a.len() - sep - 1) =~= a.skip(sep + 1));
        lemma_index_from_is(rest, NEWLINE, 0, newline - sep - 1);
        lemma_index_from_is(a.skip(sep + 1), NEWLINE, 0, newline - sep - 1);
        lemma_temp_prefix(rest, a.len() - sep - 1);
        assert(row_result(text, p) == row_result(a, p));
        lemma_readings_step(a, p);
        lemma_readings_step(text, p);
        lemma_readings_before(a, b, newline + 1);
        let name_len = (row_result(a, p)->0).0;
        assert(text.subrange(p, p + name_len) =~= a.subrange(p, p + name_len));
        let head = seq![
            Reading {
                name: a.subrange(p, p + name_len),
                temp: (row_result(a, p)->0).1,
            },
        ];
        assert(head + (readings_from(a, newline + 1) + readings(b)) =~= (head + readings_from(
            a,
            newline + 1,
        )) + readings(b));
    }
}

/// The rows of two texts one behind the other are those of the first and those of the second, if
/// the first does not break off within a row.
pub proof fn lemma_readings_join(a: Seq<u8>, b: Seq<u8>)
    requires
        tidy(a),
        complete(a),
    ensures
        readings(a + b) == readings(a) + readings(b),
{
    lemma_readings_before(a, b, 0);
}

proof fn lemma_fit_behind(a: Seq<u8>, b: Seq<u8>, q: int)
    requires
        0 <= q <= b.len(),
        rows_fit(a + b, a.len() + q, (a + b).len() as int),
    ensures
        rows_fit(b, q, b.len() as int),
    decreases b.len() - q,
{
    let text = a + b;
    let p = a.len() + q;
    if q < b.len() {
        assert(text.skip(p) =~= b.skip(q));
        assert(row_result(text, p) == row_result(b, q));
        if row_result(b, q) is Some {
            let (name_len, temp, len) = row_result(b, q)->0;
            lemma_line_result(b.skip(q), b.len() - q);
            lemma_fit_behind(a, b, q + len);
        }
    }
}

proof fn lemma_fit_before(a: Seq<u8>, b: Seq<u8>, p: int)
    requires
        tidy(a),
        complete(a),
        begins(a, p) || p == a.len(),
        rows_fit(a + b, p, (a + b).len() as int),
    ensures
        rows_fit(a, p, a.len() as int),
        rows_fit(b, 0, b.len() as int),
    decreases a.len() - p,
{
    let text = a + b;
    if p == a.len() {
        lemma_fit_behind(a, b, 0);
    } else {
        let sep = index_from(a, SEPARATOR, p);
        let newline = index_from(a, NEWLINE, p);
        lemma_index_from(a, SEPARATOR, p);
        lemma_index_from(a, NEWLINE, p);
        assert(a[a.len() - 1] == NEWLINE);
        assert(newline < a.len());
        assert forall|i: int| 0 <= i < a.len() implies text[i] == a[i] by {}
        lemma_index_from_is(text, SEPARATOR, p, sep);
        lemma_index_from_is(text, NEWLINE, p, newline);
        lemma_whole_line(a, p);
        lemma_whole_line(text, p);
        let rest = text.skip(sep + 1);
        assert(rest.take(a.len() - sep - 1) =~= a.skip(sep + 1));
        lemma_index_from_is(rest, NEWLINE, 0, newline - sep - 1);
        lemma_temp_prefix(rest, a.len() - sep - 1);
        let all = text.skip(p);
        let some = a.skip(p);
        assert(all.take(all.len() as int) =~= all);
        assert(some.take(some.len() as int) =~= some);
        assert forall|i: int| 0 <= i < all.len() implies all[i] == text[p + i] by {}
        assert forall|i: int| 0 <= i < some.len() implies some[i] == a[p + i] by {}
        lemma_index_from_is(all, SEPARATOR, 0, sep - p);
        lemma_index_from_is(some, SEPARATOR, 0, sep - p);
        assert(all.skip(sep - p + 1) =~= rest);
        assert(some.skip(sep - p + 1) =~= a.skip(sep + 1));
        assert(rows_fit(text, newline + 1, text.len() as int));
        lemma_fit_before(a, b, newline + 1);
    }
}

/// Where the readings of two texts one behind the other can be parsed, those of each can.
pub proof fn lemma_fit_join(a: Seq<u8>, b: Seq<u8>)
    requires
        tidy(a),
        complete(a),
        rows_fit(a + b, 0, (a + b).len() as int),
    ensures
        rows_fit(a, 0, a.len() as int),
        rows_fit(b, 0, b.len() as int),
{
    lemma_fit_before(a, b, 0);
}

} // verus!
