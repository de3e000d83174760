//! What a launch and a report on it say of the rows of a text.

use vstd::prelude::*;
use crate::aggregate::{Aggregate, Cell};
use crate::frame::{lemma_global_slot, lemma_table};
use crate::launch::{lemma_rows_fit, row_result, rows_from, Job, Row, RowId};
use crate::laws::combining::lemma_combined;
use crate::laws::parsing::{lemma_reading, lemma_row, Parts};
use crate::lines::lemma_join;
use crate::outcome::lemma_filter;
use crate::parse::{
    index_from, lemma_index_from, lemma_index_from_is, line_fits, temp_fits, NEWLINE, SEPARATOR,
};
use crate::station::{has_name, is_merge, merge_fits, utf8_lossy, Entry};
use crate::tables::Store;
use crate::text::{
    begins, complete, lemma_readings_join, readings, sound, text_rows, tidy,
    Reading,
};

verus! {

/// A row of a text: a name, and a reading with its newline.
pub struct Line {
    pub name: Seq<u8>,
    pub reading: Parts,
}

impl Line {
    /// The name has at least one byte, and no separator and no newline in it. The reading is made of
    /// digits, is no more than an `i16` holds, and ends with its newline.
    pub open spec fn wf(self) -> bool {
        let digits = self.reading.whole + self.reading.tenth;
        &&& self.name.len() > 0
        &&& forall|i: int| 0 <= i < self.name.len() ==> self.name[i] != 59 && self.name[i] != 10
        &&& self.reading.wf()
        &&& self.reading.end == seq![10u8]
        &&& forall|i: int| 0 <= i < digits.len() ==> digits[i] >= 48
        &&& digits.fold_left(0int, |n: int, b: u8| 10 * n + (b - 48)) <= 32767
    }

    /// The bytes of the row.
    pub open spec fn bytes(self) -> Seq<u8> {
        self.name + seq![59u8] + (self.reading.sign + self.reading.whole + self.reading.point
            + self.reading.tenth + self.reading.extra + self.reading.end)
    }

    /// The bytes that the row is counted under: its name, or the first 100 bytes of it.
    pub open spec fn kept(self) -> Seq<u8> {
        if self.name.len() <= 100 {
            self.name
        } else {
            self.name.take(100)
        }
    }

    /// The reading in tenths.
    pub open spec fn tenths(self) -> int {
        let number = (self.reading.whole + self.reading.tenth).fold_left(
            0int,
            |n: int, b: u8| 10 * n + (b - 48),
        );
        if self.reading.sign.len() > 0 {
            -number
        } else {
            number
        }
    }
}

/// Rows as a text.
pub open spec fn text_of_lines(list: Seq<Line>) -> Seq<u8> {
    list.fold_left(Seq::<u8>::empty(), |text: Seq<u8>, line: Line| text + line.bytes())
}

/// What a row says.
spec fn said(line: Line) -> Reading {
    Reading { name: line.kept(), temp: line.tenths() }
}

/// A single row.
proof fn lemma_one_line(line: Line)
    requires
        line.wf(),
    ensures
        tidy(line.bytes()),
        sound(line.bytes()),
        complete(line.bytes()),
        readings(line.bytes()) == seq![said(line)],
{
    let s = line.bytes();
    let p = line.reading;
    let tail = p.sign + p.whole + p.point + p.tenth + p.extra + p.end;
    let sep = line.name.len() as int;
    let n = s.len() as int;
    lemma_reading(p);
    assert(temp_fits(tail));
    assert(s =~= line.name + seq![59u8] + tail + Seq::empty());
    lemma_row(line.name, tail, Seq::empty(), n);
    assert(s.skip(0) =~= s);
    assert(s[n - 1] == 10) by {
        assert(s[n - 1] == tail[tail.len() - 1]);
        assert(tail[tail.len() - 1] == p.end[0]);
    }
    lemma_index_from(tail, NEWLINE, 0);
    assert(index_from(tail, NEWLINE, 0) == tail.len() - 1);
    assert forall|i: int| 0 <= i < n - 1 implies #[trigger] s[i] != NEWLINE by {
        if i > sep {
            assert(s[i] == tail[i - sep - 1]);
        } else if i < sep {
            assert(s[i] == line.name[i]);
        }
    }
    lemma_index_from_is(s, SEPARATOR, 0, sep);
    lemma_index_from_is(s, NEWLINE, 0, n - 1);
    assert(s.skip(sep + 1) =~= tail);
    assert forall|q: int| #[trigger] begins(s, q) implies q == 0 by {}
    let kept: int = if sep < 100 {
        sep
    } else {
        100
    };
    let row = Row { pos: 0, name_len: kept, temp: line.tenths(), len: n };
    assert(row_result(s, 0) == Some((kept, line.tenths(), n)));
    assert(rows_from(s, n, n) =~= Seq::<Row>::empty());
    assert(text_rows(s) =~= seq![row]);
    assert(s.subrange(0, kept) =~= line.kept());
    assert(row.reading(s) == said(line));
    assert(readings(s) =~= seq![said(line)]);
}

/// A row that breaks off says nothing.
proof fn lemma_unfinished(tail: Seq<u8>)
    requires
        forall|i: int| 0 <= i < tail.len() ==> tail[i] != 10,
        line_fits(tail, tail.len() as int),
    ensures
        tidy(tail),
        sound(tail),
        readings(tail).len() == 0,
{
    let n = tail.len() as int;
    assert(tail.take(n) =~= tail);
    assert(tail.skip(0) =~= tail);
    lemma_index_from_is(tail, NEWLINE, 0, n);
    assert forall|q: int| #[trigger] begins(tail, q) implies q == 0 by {}
    lemma_index_from(tail, SEPARATOR, 0);
    let sep = index_from(tail, SEPARATOR, 0);
    if n > 0 {
        if sep < n {
            let rest = tail.skip(sep + 1);
            lemma_index_from_is(rest, NEWLINE, 0, rest.len() as int);
        }
        assert(row_result(tail, 0) is None);
    }
    assert(text_rows(tail).len() == 0);
}

/// Reading back what was written: a text that is made of rows says what its rows say, each once and in
/// order. Behind the last row there may be one that breaks off.
pub proof fn lemma_lines_said(list: Seq<Line>, tail: Seq<u8>)
    requires
        forall|i: int| 0 <= i < list.len() ==> (#[trigger] list[i]).wf(),
        forall|i: int| 0 <= i < tail.len() ==> tail[i] != 10,
        line_fits(tail, tail.len() as int),
    ensures
        tidy(text_of_lines(list) + tail),
        sound(text_of_lines(list) + tail),
        readings(text_of_lines(list) + tail) == list.map_values(
            |line: Line| Reading { name: line.kept(), temp: line.tenths() },
        ),
{
    lemma_whole_lines(list);
    lemma_unfinished(tail);
    lemma_join(text_of_lines(list), tail);
    lemma_readings_join(text_of_lines(list), tail);
    let f = |line: Line| Reading { name: line.kept(), temp: line.tenths() };
    assert(readings(text_of_lines(list)) + readings(tail) =~= list.map_values(f));
}

proof fn lemma_whole_lines(list: Seq<Line>)
    requires
        forall|i: int| 0 <= i < list.len() ==> (#[trigger] list[i]).wf(),
    ensures
        tidy(text_of_lines(list)),
        sound(text_of_lines(list)),
        complete(text_of_lines(list)),
        readings(text_of_lines(list)) == list.map_values(
            |line: Line| Reading { name: line.kept(), temp: line.tenths() },
        ),
    decreases list.len(),
{
    let f = |line: Line| Reading { name: line.kept(), temp: line.tenths() };
    if list.len() == 0 {
        assert(text_of_lines(list) =~= Seq::<u8>::empty());
        assert(text_rows(text_of_lines(list)) =~= Seq::<Row>::empty());
        assert(readings(text_of_lines(list)) =~= list.map_values(f));
    } else {
        let rest = list.drop_last();
        let last = list[list.len() - 1];
        assert forall|i: int| 0 <= i < rest.len() implies (#[trigger] rest[i]).wf() by {
            assert(list[i] == rest[i]);
        }
        assert(last.wf());
        lemma_whole_lines(rest);
        lemma_one_line(last);
        assert(text_of_lines(list) == text_of_lines(rest) + last.bytes());
        lemma_join(text_of_lines(rest), last.bytes());
        lemma_readings_join(text_of_lines(rest), last.bytes());
        assert(list.map_values(f) =~= rest.map_values(f) + seq![said(last)]);
    }
}

/// The readings of those rows that are reported under a name, in order.
pub open spec fn tenths_of(list: Seq<Line>, name: Seq<char>) -> Seq<int> {
    list.filter(|line: Line| utf8_lossy(line.kept()) == name).map_values(|line: Line| line.tenths())
}

/// Rows and lines that say the same, filtered by name.
proof fn lemma_same_tenths(text: Seq<u8>, rows: Seq<Row>, list: Seq<Line>, name: Seq<char>)
    requires
        rows.len() == list.len(),
        forall|i: int| 0 <= i < rows.len() ==> (#[trigger] rows[i]).reading(text) == said(list[i]),
    ensures
        rows.filter(|row: Row| utf8_lossy(row.name(text)) == name).map_values(|row: Row| row.temp)
            == tenths_of(list, name),
    decreases rows.len(),
{
    reveal(Seq::filter);
    let p = |row: Row| utf8_lossy(row.name(text)) == name;
    let q = |line: Line| utf8_lossy(line.kept()) == name;
    let f = |row: Row| row.temp;
    let g = |line: Line| line.tenths();
    if rows.len() == 0 {
        assert(rows.filter(p).map_values(f) =~= list.filter(q).map_values(g));
    } else {
        let a = rows.drop_last();
        let b = list.drop_last();
        let n = rows.len() - 1;
        assert forall|i: int| 0 <= i < a.len() implies (#[trigger] a[i]).reading(text) == said(
            b[i],
        ) by {
            assert(a[i] == rows[i]);
        }
        lemma_same_tenths(text, a, b, name);
        assert(rows[n].reading(text) == said(list[n]));
        assert(p(rows[n]) == q(list[n]));
        assert(f(rows[n]) == g(list[n]));
        assert(a.filter(p).push(rows[n]).map_values(f) =~= a.filter(p).map_values(f).push(
            f(rows[n]),
        ));
        assert(b.filter(q).push(list[n]).map_values(g) =~= b.filter(q).map_values(g).push(
            g(list[n]),
        ));
    }
}

/// The sum of the readings of rows, added up one by one.
proof fn lemma_sum_of(job: Job, rows: Seq<RowId>)
    ensures
        job.sum_of(rows) == rows.map_values(|r: RowId| job.row(r).temp).fold_left(
            0int,
            |a: int, v: int| a + v,
        ),
    decreases rows.len(),
{
    let f = |r: RowId| job.row(r).temp;
    if rows.len() > 0 {
        lemma_sum_of(job, rows.drop_last());
        assert(rows.map_values(f).drop_last() =~= rows.drop_last().map_values(f));
    }
}

/// The readings of the rows that are reported under a name, as the launch and as the text has them.
proof fn lemma_rows_tenths(job: Job, list: Seq<Line>, tail: Seq<u8>, name: Seq<char>)
    requires
        job.wf(),
        job.text == text_of_lines(list) + tail,
        forall|i: int| 0 <= i < list.len() ==> (#[trigger] list[i]).wf(),
        forall|i: int| 0 <= i < tail.len() ==> tail[i] != 10,
        line_fits(tail, tail.len() as int),
    ensures
        job.rows_of(name).map_values(|r: RowId| job.row(r).temp) == tenths_of(list, name),
        job.fits(),
        job.named(),
        forall|r: RowId| #[trigger]
            job.has(r) ==> exists|i: int|
                0 <= i < list.len() && job.name(r) == (#[trigger] list[i]).kept(),
{
    let rows = text_rows(job.text);
    let said_by = list.map_values(|line: Line| Reading { name: line.kept(), temp: line.tenths() });
    lemma_lines_said(list, tail);
    job.lemma_fits();
    job.lemma_rows_of_text(name);
    job.lemma_readings_read();
    job.lemma_rows_before(job.threads());
    assert(readings(job.text).len() == rows.len());
    assert forall|i: int| 0 <= i < rows.len() implies (#[trigger] rows[i]).reading(job.text)
        == said(list[i]) by {
        assert(readings(job.text)[i] == rows[i].reading(job.text));
        assert(said_by[i] == said(list[i]));
    }
    lemma_same_tenths(job.text, rows, list, name);
    let ids = job.rows_of(name);
    let f = |r: RowId| job.row(r).temp;
    let g = |r: RowId| job.row(r);
    let h = |row: Row| row.temp;
    assert(ids.map_values(f) =~= ids.map_values(g).map_values(h));
    let all = job.all_rows();
    assert forall|r: RowId| #[trigger] job.has(r) implies job.name(r).len() > 0 && exists|i: int|
        0 <= i < list.len() && job.name(r) == (#[trigger] list[i]).kept() by {
        assert(all.contains(r));
        let i = choose|i: int| 0 <= i < all.len() && all[i] == r;
        assert(all.map_values(|r: RowId| job.reading(r)).len() == all.len());
        assert(all.map_values(|r: RowId| job.reading(r))[i] == job.reading(r));
        assert(said_by[i] == said(list[i]));
        assert(list[i].wf());
        assert(job.name(r) == list[i].kept());
    }
}

/// What the library is for. A text of rows, behind the last of which one may break off, is counted by
/// any launch, in any order of its threads, over empty tables that have room for the names. What is then
/// reported are the names of the rows, and of each name the number of its rows, the sum of their
/// readings, the lowest and the highest one, and there is nothing that keeps it from being reported.
pub proof fn lemma_report_on_lines(
    job: Job,
    list: Seq<Line>,
    tail: Seq<u8>,
    known: Seq<Seq<u8>>,
    before: Store,
    schedule: Seq<usize>,
    result: Seq<Entry>,
)
    requires
        job.grid > 0,
        job.block > 0,
        job.block <= usize::MAX,
        job.text.len() + job.grid * job.block <= usize::MAX,
        job.text == text_of_lines(list) + tail,
        list.len() <= i32::MAX,
        forall|i: int| 0 <= i < list.len() ==> (#[trigger] list[i]).wf(),
        forall|i: int| 0 <= i < tail.len() ==> tail[i] != 10,
        line_fits(tail, tail.len() as int),
        before.wf(),
        before.fresh(),
        known.len() <= 16384,
        forall|i: int| 0 <= i < list.len() ==> known.contains((#[trigger] list[i]).kept()),
    ensures
        job.can_start(before),
        merge_fits(job.outcome(before, schedule).stations()),
        is_merge(job.outcome(before, schedule).stations(), result) ==> {
            &&& result.map_values(|e: Entry| e.name).to_set() == list.map_values(
                |line: Line| utf8_lossy(line.kept()),
            ).to_set()
            &&& forall|i: int|
                0 <= i < result.len() ==> {
                    let e = #[trigger] result[i];
                    let temps = tenths_of(list, e.name);
                    &&& e.cell.cnt == temps.len()
                    &&& e.cell.sum == temps.fold_left(0int, |a: int, v: int| a + v)
                    &&& forall|j: int|
                        0 <= j < temps.len() ==> e.cell.min <= #[trigger] temps[j] <= e.cell.max
                    &&& temps.contains(e.cell.min as int)
                    &&& temps.contains(e.cell.max as int)
                }
        },
{
    let after = job.outcome(before, schedule);
    let place = job.course(before, schedule).h.place;
    lemma_rows_tenths(job, list, tail, Seq::empty());
    assert forall|r: RowId| #[trigger] job.has(r) implies known.contains(job.name(r)) by {
        let i = choose|i: int| 0 <= i < list.len() && job.name(r) == (#[trigger] list[i]).kept();
        assert(known.contains(list[i].kept()));
    }
    job.lemma_room(before, known);
    assert(job.can_start(before));
    job.lemma_outcome(before, schedule);
    assert(job.made(before, after, place));
    assert forall|name: Seq<char>| (#[trigger] job.rows_of(name)).len() <= i32::MAX by {
        lemma_rows_tenths(job, list, tail, name);
        lemma_fewer(list, |line: Line| utf8_lossy(line.kept()) == name);
        assert(job.rows_of(name).map_values(|r: RowId| job.row(r).temp).len() == job.rows_of(
            name,
        ).len());
    }
    job.lemma_report_fits(before, after, place);
    if is_merge(after.stations(), result) {
        job.lemma_report(before, after, place, result);
        let names = result.map_values(|e: Entry| e.name);
        let given = list.map_values(|line: Line| utf8_lossy(line.kept()));
        assert forall|name: Seq<char>| #[trigger] names.to_set().contains(name)
            <==> given.to_set().contains(name) by {
            lemma_rows_tenths(job, list, tail, name);
            assert(has_name(result, name) <==> job.rows_of(name).len() > 0);
            lemma_listed(result, list, name);
        }
        assert(names.to_set() =~= given.to_set());
        assert forall|i: int| 0 <= i < result.len() implies {
            let e = #[trigger] result[i];
            let temps = tenths_of(list, e.name);
            &&& e.cell.cnt == temps.len()
            &&& e.cell.sum == temps.fold_left(0int, |a: int, v: int| a + v)
            &&& forall|j: int|
                0 <= j < temps.len() ==> e.cell.min <= #[trigger] temps[j] <= e.cell.max
            &&& temps.contains(e.cell.min as int)
            &&& temps.contains(e.cell.max as int)
        } by {
            let e = result[i];
            let rows = job.rows_of(e.name);
            let temps = tenths_of(list, e.name);
            lemma_rows_tenths(job, list, tail, e.name);
            lemma_sum_of(job, rows);
            assert(job.sums_up(e));
            assert forall|j: int| 0 <= j < temps.len() implies e.cell.min <= #[trigger] temps[j]
                <= e.cell.max by {
                assert(temps[j] == job.row(rows[j]).temp);
            }
            let a = choose|j: int| 0 <= j < rows.len() && job.row(#[trigger] rows[j]).temp
                == e.cell.min;
            assert(temps[a] == e.cell.min);
            let b = choose|j: int| 0 <= j < rows.len() && job.row(#[trigger] rows[j]).temp
                == e.cell.max;
            assert(temps[b] == e.cell.max);
        }
    }
}

/// A launch adds to what the tables hold, whatever that is. A slot that has a name keeps it, and every
/// row belongs to one slot, which has its name. To a slot are added the number of its rows and the sum of
/// their readings, and the lowest and the highest of them are held against those of before. The last
/// holds as long as count and sum stay within the range of their types.
pub proof fn lemma_launch_adds(job: Job, before: Store, schedule: Seq<usize>, g: int, r: RowId)
    requires
        job.can_start(before),
        0 <= g < 65536,
        job.has(r),
        job.name(r).len() > 0,
    ensures
        ({
            let after = job.outcome(before, schedule);
            let place = job.course(before, schedule).h.place;
            let rows = job.all_rows().filter(|q: RowId| job.place_of(place, q) == g);
            let temps = rows.map_values(|q: RowId| job.row(q).temp);
            let old_cell = before.cells[g];
            let cell = after.cells[g];
            let home = job.place_of(place, r);
            &&& before.lens[g] > 0 ==> after.lens[g] == before.lens[g] && after.slot_name(g)
                == before.slot_name(g)
            &&& job.all_rows().contains(r)
            &&& 0 <= home < 65536
            &&& home / 16384 == (r.thread / job.block) % 4
            &&& after.lens[home] == job.name(r).len()
            &&& after.names.subrange(home * 100, home * 100 + job.name(r).len()) == job.name(r)
            &&& old_cell.cnt + temps.len() <= i32::MAX ==> cell.cnt == old_cell.cnt + temps.len()
            &&& i64::MIN + 32767 * temps.len() <= old_cell.sum <= i64::MAX - 32767 * temps.len()
                ==> cell.sum == temps.fold_left(old_cell.sum as int, |a: int, v: int| a + v)
            &&& cell.min <= old_cell.min
            &&& forall|j: int| 0 <= j < temps.len() ==> cell.min <= #[trigger] temps[j] <= cell.max
            &&& cell.max >= old_cell.max
            &&& cell.min == old_cell.min || temps.contains(cell.min as int)
            &&& cell.max == old_cell.max || temps.contains(cell.max as int)
        }),
{
    let after = job.outcome(before, schedule);
    let place = job.course(before, schedule).h.place;
    let rows = job.rows_at(place, g);
    let cell = after.cells[g];
    job.lemma_outcome(before, schedule);
    job.lemma_rows_before(job.threads());
    lemma_filter(job.all_rows(), |q: RowId| job.place_of(place, q) == g);
    assert(job.row_placed(after, place, r));
    lemma_table(job, r.thread);
    lemma_global_slot(job.table(r.thread), place[r.thread][r.index]);
    assert(before.lens[g] > 0 ==> after.lens[g] == before.lens[g]);
    assert forall|i: int| 0 <= i < rows.len() implies -32767 <= job.row(#[trigger] rows[i]).temp
        <= 32767 by {
        assert(rows.contains(rows[i]));
        assert(job.has(rows[i]));
        lemma_temp_range(job, rows[i]);
    }
    lemma_gathered(job, before.cells[g], rows);
    assert(cell.get(Aggregate::Sum) == cell.sum);
    assert(cell.get(Aggregate::Count) == cell.cnt);
    assert(cell.get(Aggregate::Min) == cell.min);
    assert(cell.get(Aggregate::Max) == cell.max);
    job.lemma_name_len(r);
    assert(after.slot_name(job.place_of(place, r)).len() == after.lens[job.place_of(place, r)]);
}

/// The readings of the rows of a launch lie in the range of an `i16`.
proof fn lemma_temp_range(job: Job, r: RowId)
    requires
        job.fits(),
        job.has(r),
    ensures
        -32767 <= job.row(r).temp <= 32767,
{
    assert(job.thread_fits(r.thread));
    let pos = job.first_row(r.thread)->0;
    lemma_rows_fit(job.text, pos, job.window_end(r.thread), r.index);
}

/// Four values with the readings of rows combined into them.
proof fn lemma_gathered(job: Job, cell: Cell, rows: Seq<RowId>)
    requires
        forall|i: int|
            0 <= i < rows.len() ==> -32767 <= job.row(#[trigger] rows[i]).temp <= 32767,
    ensures
        ({
            let temps = rows.map_values(|q: RowId| job.row(q).temp);
            let sum = job.gather(Aggregate::Sum, cell.sum as int, rows);
            let cnt = job.gather(Aggregate::Count, cell.cnt as int, rows);
            let min = job.gather(Aggregate::Min, cell.min as int, rows);
            let max = job.gather(Aggregate::Max, cell.max as int, rows);
            let total = temps.fold_left(cell.sum as int, |a: int, v: int| a + v);
            &&& cell.cnt + temps.len() <= i32::MAX ==> cnt == cell.cnt + temps.len()
            &&& cell.sum - 32767 * temps.len() <= total <= cell.sum + 32767 * temps.len()
            &&& i64::MIN + 32767 * temps.len() <= cell.sum <= i64::MAX - 32767 * temps.len()
                ==> sum == total
            &&& min <= cell.min
            &&& max >= cell.max
            &&& forall|j: int| 0 <= j < temps.len() ==> min <= #[trigger] temps[j] <= max
            &&& min == cell.min || temps.contains(min)
            &&& max == cell.max || temps.contains(max)
        }),
    decreases rows.len(),
{
    let f = |q: RowId| job.row(q).temp;
    let temps = rows.map_values(f);
    if rows.len() > 0 {
        let rest = rows.drop_last();
        let some = rest.map_values(f);
        let n = rest.len() as int;
        let temp = job.row(rows[n]).temp;
        assert forall|i: int| 0 <= i < rest.len() implies -32767 <= job.row(#[trigger] rest[i]).temp
            <= 32767 by {
            assert(rest[i] == rows[i]);
        }
        lemma_gathered(job, cell, rest);
        assert(temps.drop_last() =~= some);
        assert(-32767 <= temp <= 32767);
        assert(temps[n] == temp);
        lemma_combined(job.gather(Aggregate::Sum, cell.sum as int, rest), temp);
        lemma_combined(job.gather(Aggregate::Count, cell.cnt as int, rest), 1);
        lemma_combined(job.gather(Aggregate::Min, cell.min as int, rest), temp);
        lemma_combined(job.gather(Aggregate::Max, cell.max as int, rest), temp);
        assert forall|j: int| 0 <= j < temps.len() implies job.gather(
            Aggregate::Min,
            cell.min as int,
            rows,
        ) <= #[trigger] temps[j] <= job.gather(Aggregate::Max, cell.max as int, rows) by {
            if j < n {
                assert(some[j] == temps[j]);
            }
        }
        assert forall|v: int| some.contains(v) implies #[trigger] temps.contains(v) by {
            let j = choose|j: int| 0 <= j < some.len() && some[j] == v;
            assert(temps[j] == v);
        }
    }
}

proof fn lemma_fewer(list: Seq<Line>, p: spec_fn(Line) -> bool)
    ensures
        list.filter(p).len() <= list.len(),
    decreases list.len(),
{
    reveal(Seq::filter);
    if list.len() > 0 {
        lemma_fewer(list.drop_last(), p);
    }
}

/// A name is reported, or has rows, if some entry, or some row, has it.
proof fn lemma_listed(result: Seq<Entry>, list: Seq<Line>, name: Seq<char>)
    ensures
        result.map_values(|e: Entry| e.name).to_set().contains(name) <==> has_name(
            result,
            name,
        ),
        list.map_values(|line: Line| utf8_lossy(line.kept())).to_set().contains(name)
            <==> tenths_of(list, name).len() > 0,
    decreases list.len(),
{
    reveal(Seq::filter);
    let f = |e: Entry| e.name;
    let names = result.map_values(f);
    if has_name(result, name) {
        let i = choose|i: int| 0 <= i < result.len() && (#[trigger] result[i]).name == name;
        assert(names[i] == name);
    }
    if names.contains(name) {
        let i = choose|i: int| 0 <= i < names.len() && names[i] == name;
        assert(result[i].name == name);
    }
    let g = |line: Line| utf8_lossy(line.kept());
    let given = list.map_values(g);
    if list.len() > 0 {
        let rest = list.drop_last();
        let n = list.len() - 1;
        lemma_listed(result, rest, name);
        if rest.map_values(g).contains(name) {
            let i = choose|i: int| 0 <= i < rest.len() && rest.map_values(g)[i] == name;
            assert(given[i] == name);
        }
        if given.contains(name) {
            let i = choose|i: int| 0 <= i < given.len() && given[i] == name;
            if i < n {
                assert(rest.map_values(g)[i] == name);
            }
        }
        if g(list[n]) == name {
            assert(given[n] == name);
        }
    }
}

} // verus!
