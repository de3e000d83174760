//! Texts that are made of rows: what was written into them is what is read from them.

use vstd::prelude::*;
use vstd::utf8::encode_utf8;
use crate::aggregate::Aggregate;
use crate::format::{lemma_val_text_parses, val_text};
use crate::hash::TABLE_SIZE;
use crate::launch::{rows_from, Job, Row, RowId};
use crate::parse::{
    index_from, lemma_index_from, lemma_index_from_is, temp_fits, NAME_MAX, NEWLINE, SEPARATOR,
};
use crate::tables::{Store, TOTAL_SLOTS};
use crate::text::{
    begins, complete, lemma_readings_join, lemma_temp_prefix, lemma_whole_line, readings,
    sound, text_rows, tidy, Reading,
};
use crate::totals::counting_name;

verus! {

impl Reading {
    /// A reading that can be written as a row: its name is one that is kept whole, and its tenths are
    /// those of an `i16`.
    pub open spec fn writable(self) -> bool {
        &&& 1 <= self.name.len() <= NAME_MAX
        &&& forall|i: int|
            0 <= i < self.name.len() ==> #[trigger] self.name[i] != SEPARATOR && self.name[i]
                != NEWLINE
        &&& -i16::MAX <= self.temp <= i16::MAX
    }

    /// The reading as a row: the name, a separator, the value with one digit behind the point, and a
    /// newline.
    pub open spec fn line(self) -> Seq<u8> {
        self.name + seq![SEPARATOR] + encode_utf8(val_text(self.temp)).push(NEWLINE)
    }
}

/// Readings as a text, one row each.
pub open spec fn text_of(list: Seq<Reading>) -> Seq<u8>
    decreases list.len(),
{
    if list.len() == 0 {
        Seq::empty()
    } else {
        text_of(list.drop_last()) + list.last().line()
    }
}

/// Every reading of a list can be written as a row.
pub open spec fn writable(list: Seq<Reading>) -> bool {
    forall|i: int| 0 <= i < list.len() ==> (#[trigger] list[i]).writable()
}

/// A single row.
proof fn lemma_line(r: Reading)
    requires
        r.writable(),
    ensures
        tidy(r.line()),
        sound(r.line()),
        complete(r.line()),
        readings(r.line()) == seq![r],
{
    let line = r.line();
    let value = encode_utf8(val_text(r.temp)).push(NEWLINE);
    let sep = r.name.len() as int;
    let n = line.len() as int;
    lemma_val_text_parses(r.temp);
    lemma_index_from(value, NEWLINE, 0);
    assert(temp_fits(value));
    assert(index_from(value, NEWLINE, 0) == value.len() - 1);
    assert forall|i: int| 0 <= i < value.len() implies #[trigger] line[sep + 1 + i] == value[i] by {}
    assert forall|i: int| 0 <= i < sep implies #[trigger] line[i] == r.name[i] by {}
    assert(line[sep] == SEPARATOR);
    assert forall|i: int| 0 <= i < n - 1 implies #[trigger] line[i] != NEWLINE by {
        if i > sep {
            assert(line[sep + 1 + (i - sep - 1)] == value[i - sep - 1]);
        } else if i < sep {
            assert(line[i] == r.name[i]);
        }
    }
    assert(line[n - 1] == NEWLINE) by {
        assert(line[sep + 1 + (value.len() - 1)] == value[value.len() - 1]);
    }
    lemma_index_from_is(line, SEPARATOR, 0, sep);
    lemma_index_from_is(line, NEWLINE, 0, n - 1);
    assert(line.skip(sep + 1) =~= value);
    assert forall|p: int| #[trigger] begins(line, p) implies p == 0 by {}
    lemma_whole_line(line, 0);
    let row = Row { pos: 0, name_len: sep, temp: r.temp, len: n };
    assert(rows_from(line, n, n) =~= Seq::<Row>::empty());
    assert(text_rows(line) =~= seq![row]);
    assert(line.subrange(0, sep) =~= r.name);
    assert(row.reading(line) == r);
    assert(readings(line) =~= seq![r]);
}

/// What is found from a place on in the second of two texts.
proof fn lemma_index_behind(a: Seq<u8>, b: Seq<u8>, c: u8, q: int)
    requires
        0 <= q <= b.len(),
    ensures
        index_from(a + b, c, a.len() + q) == a.len() + index_from(b, c, q),
{
    let at = index_from(b, c, q);
    lemma_index_from(b, c, q);
    assert forall|i: int| a.len() + q <= i < a.len() + at implies (a + b)[i] != c by {
        assert((a + b)[i] == b[i - a.len()]);
    }
    lemma_index_from_is(a + b, c, a.len() + q, a.len() + at);
}

/// What is found from a place on in the first of two texts.
proof fn lemma_index_before(a: Seq<u8>, b: Seq<u8>, c: u8, p: int)
    requires
        0 <= p <= a.len(),
        index_from(a, c, p) < a.len(),
    ensures
        index_from(a + b, c, p) == index_from(a, c, p),
{
    let at = index_from(a, c, p);
    lemma_index_from(a, c, p);
    assert forall|i: int| p <= i < at implies (a + b)[i] != c by {
        assert((a + b)[i] == a[i]);
    }
    lemma_index_from_is(a + b, c, p, at);
}

/// Two texts one behind the other are in order if each is.
pub proof fn lemma_join(a: Seq<u8>, b: Seq<u8>)
    requires
        tidy(a),
        sound(a),
        complete(a),
        tidy(b),
        sound(b),
    ensures
        tidy(a + b),
        sound(a + b),
        complete(b) ==> complete(a + b),
{
    let text = a + b;
    let n = a.len() as int;
    if b.len() == 0 {
        assert(text =~= a);
    } else {
        assert(text.last() == b.last());
        assert forall|p: int| #[trigger] begins(text, p) implies (index_from(text, NEWLINE, p)
            < text.len() ==> index_from(text, SEPARATOR, p) < index_from(text, NEWLINE, p)) && (
        index_from(text, SEPARATOR, p) < text.len() ==> temp_fits(
            text.skip(index_from(text, SEPARATOR, p) + 1),
        )) by {
            if p < n {
                assert(p > 0 ==> text[p - 1] == a[p - 1]);
                assert(begins(a, p));
                let sep = index_from(a, SEPARATOR, p);
                let newline = index_from(a, NEWLINE, p);
                lemma_index_from(a, NEWLINE, p);
                lemma_index_from(a, SEPARATOR, p);
                assert(a[n - 1] == NEWLINE);
                lemma_index_before(a, b, NEWLINE, p);
                lemma_index_before(a, b, SEPARATOR, p);
                let rest = text.skip(sep + 1);
                assert(rest.take(n - sep - 1) =~= a.skip(sep + 1));
                assert forall|i: int| 0 <= i < newline - sep - 1 implies rest[i] != NEWLINE by {
                    assert(rest[i] == a[sep + 1 + i]);
                }
                lemma_index_from_is(rest, NEWLINE, 0, newline - sep - 1);
                lemma_temp_prefix(rest, n - sep - 1);
            } else {
                let q = p - n;
                if q > 0 {
                    assert(text[p - 1] == b[q - 1]);
                }
                assert(begins(b, q));
                lemma_index_behind(a, b, NEWLINE, q);
                lemma_index_behind(a, b, SEPARATOR, q);
                let sep = index_from(b, SEPARATOR, q);
                lemma_index_from(b, SEPARATOR, q);
                if sep < b.len() {
                    assert(text.skip(n + sep + 1) =~= b.skip(sep + 1));
                }
            }
        }
    }
}

/// Reading back what was written: a text that is made of rows is in order, and its rows say what was
/// written into them.
pub proof fn lemma_text_of(list: Seq<Reading>)
    requires
        writable(list),
    ensures
        tidy(text_of(list)),
        sound(text_of(list)),
        complete(text_of(list)),
        readings(text_of(list)) == list,
    decreases list.len(),
{
    if list.len() == 0 {
        assert(text_rows(text_of(list)) =~= Seq::<Row>::empty());
        assert(readings(text_of(list)) =~= list);
    } else {
        let rest = list.drop_last();
        let last = list[list.len() - 1];
        assert forall|i: int| 0 <= i < rest.len() implies (#[trigger] rest[i]).writable() by {
            assert(list[i] == rest[i]);
        }
        assert(last.writable());
        lemma_text_of(rest);
        lemma_line(last);
        lemma_join(text_of(rest), last.line());
        lemma_readings_join(text_of(rest), last.line());
        assert(rest + seq![last] =~= list);
    }
}

impl Job {
    /// A launch on a text that is made of rows meets no reading that cannot be parsed, and no row without
    /// a name.
    pub proof fn lemma_lines_read(self, list: Seq<Reading>)
        requires
            self.wf(),
            writable(list),
            self.text == text_of(list),
        ensures
            self.fits(),
            self.named(),
            forall|r: RowId| #[trigger] self.has(r) ==> list.contains(self.reading(r)),
    {
        let all = self.all_rows();
        lemma_text_of(list);
        self.lemma_fits();
        self.lemma_readings_read();
        self.lemma_rows_before(self.threads());
        assert forall|r: RowId| #[trigger] self.has(r) implies list.contains(self.reading(r))
            && self.name(r).len() > 0 by {
            assert(all.contains(r));
            let i = choose|i: int| 0 <= i < all.len() && all[i] == r;
            assert(all.map_values(|r: RowId| self.reading(r))[i] == self.reading(r));
            assert(list[i] == self.reading(r));
            assert(list[i].writable());
        }
    }

    /// Every row of a text that is made of rows is counted, whatever the launch and the order of its
    /// threads: with empty tables that have room for the names, the slots that have a name, in all tables,
    /// hold together the readings of all rows with it.
    pub proof fn lemma_lines_counted(
        self,
        list: Seq<Reading>,
        known: Seq<Seq<u8>>,
        before: Store,
        schedule: Seq<usize>,
        name: Seq<u8>,
        k: Aggregate,
    )
        requires
            self.wf(),
            self.block <= usize::MAX,
            self.text.len() + self.threads() <= usize::MAX,
            writable(list),
            self.text == text_of(list),
            before.wf(),
            before.fresh(),
            known.len() <= TABLE_SIZE,
            forall|i: int| 0 <= i < list.len() ==> known.contains((#[trigger] list[i]).name),
        ensures
            self.can_start(before),
            self.outcome(before, schedule).wf(),
            self.outcome(before, schedule).held(
                k,
                TOTAL_SLOTS as int,
                |bytes: Seq<u8>| bytes == name,
            ) == list.fold_left(k.identity(), counting_name(k, name)),
    {
        self.lemma_lines_read(list);
        lemma_text_of(list);
        assert forall|r: RowId| #[trigger] self.has(r) implies known.contains(self.name(r)) by {
            let said = self.reading(r);
            assert(list.contains(said));
            let i = choose|i: int| 0 <= i < list.len() && list[i] == said;
            assert(known.contains(list[i].name));
        }
        self.lemma_room(before, known);
        assert(self.can_start(before));
        self.lemma_outcome(before, schedule);
        let place = self.course(before, schedule).h.place;
        self.lemma_name_total(before, self.outcome(before, schedule), place, name, k);
    }
}

} // verus!
