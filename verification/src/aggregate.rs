//! The four aggregates that are kept of a station's readings, and how two values combine.

use vstd::prelude::*;

verus! {

/// Which of the four values of a slot is meant.
#[derive(Clone, Copy, Debug, PartialEq, Eq, Structural)]
pub enum Aggregate {
    Sum,
    Count,
    Min,
    Max,
}

impl Aggregate {
    /// The order in which a row is added to the four values.
    pub open spec fn rank(self) -> int {
        match self {
            Aggregate::Sum => 0,
            Aggregate::Count => 1,
            Aggregate::Min => 2,
            Aggregate::Max => 3,
        }
    }

    /// The value that leaves every other one as it is.
    pub open spec fn identity(self) -> int {
        match self {
            Aggregate::Sum => 0,
            Aggregate::Count => 0,
            Aggregate::Min => i32::MAX as int,
            Aggregate::Max => i32::MIN as int,
        }
    }

    /// The values of the integer type that holds this aggregate.
    pub open spec fn holds(self, v: int) -> bool {
        match self {
            Aggregate::Sum => i64::MIN <= v <= i64::MAX,
            _ => i32::MIN <= v <= i32::MAX,
        }
    }

    /// Two values in one. Sums and counts wrap around at the width of their type.
    pub open spec fn combine(self, a: int, b: int) -> int {
        match self {
            Aggregate::Sum => wrapped(a + b, 0x8000_0000_0000_0000),
            Aggregate::Count => wrapped(a + b, 0x8000_0000),
            Aggregate::Min => if b < a {
                b
            } else {
                a
            },
            Aggregate::Max => if b > a {
                b
            } else {
                a
            },
        }
    }

    /// What one reading adds.
    pub open spec fn of_reading(self, temp: int) -> int {
        match self {
            Aggregate::Count => 1,
            _ => temp,
        }
    }

    /// What an update makes of this value: it is combined in, or meant for another value.
    pub open spec fn applying(self) -> spec_fn(int, (Aggregate, int)) -> int {
        |v: int, update: (Aggregate, int)|
            if update.0 == self {
                self.combine(v, update.1)
            } else {
                v
            }
    }

    /// The aggregate that follows, after the last one none.
    pub fn next(self) -> (r: Option<Aggregate>)
        ensures
            r == self.successor(),
    {
        match self {
            Aggregate::Sum => Some(Aggregate::Count),
            Aggregate::Count => Some(Aggregate::Min),
            Aggregate::Min => Some(Aggregate::Max),
            Aggregate::Max => None,
        }
    }

    /// What `next` gives.
    pub open spec fn successor(self) -> Option<Aggregate> {
        match self {
            Aggregate::Sum => Some(Aggregate::Count),
            Aggregate::Count => Some(Aggregate::Min),
            Aggregate::Min => Some(Aggregate::Max),
            Aggregate::Max => None,
        }
    }
}

/// `x` taken modulo `2 * half` into the range from `-half` to `half - 1`.
pub open spec fn wrapped(x: int, half: int) -> int {
    (x + half) % (2 * half) - half
}

/// The four values of one slot.
pub struct Cell {
    pub sum: i64,
    pub cnt: i32,
    pub min: i32,
    pub max: i32,
}

impl Cell {
    /// One of the four values.
    pub open spec fn get(self, k: Aggregate) -> int {
        match k {
            Aggregate::Sum => self.sum as int,
            Aggregate::Count => self.cnt as int,
            Aggregate::Min => self.min as int,
            Aggregate::Max => self.max as int,
        }
    }

    /// The values with one of them replaced.
    pub open spec fn set(self, k: Aggregate, v: int) -> Cell {
        match k {
            Aggregate::Sum => Cell { sum: v as i64, ..self },
            Aggregate::Count => Cell { cnt: v as i32, ..self },
            Aggregate::Min => Cell { min: v as i32, ..self },
            Aggregate::Max => Cell { max: v as i32, ..self },
        }
    }

    /// `v` combined into one of the four values.
    pub open spec fn add(self, k: Aggregate, v: int) -> Cell {
        self.set(k, k.combine(self.get(k), v))
    }

    /// The values with one more reading in each of them.
    pub open spec fn with_reading(self, temp: int) -> Cell {
        self.add(Aggregate::Sum, temp).add(Aggregate::Count, 1).add(Aggregate::Min, temp).add(
            Aggregate::Max,
            temp,
        )
    }

    /// The values of a slot to which no reading was added.
    pub open spec fn empty() -> Cell {
        Cell { sum: 0, cnt: 0, min: i32::MAX, max: i32::MIN }
    }
}

/// Where `wrapped` leaves a number, and what it makes of one that is just out of range.
pub proof fn lemma_wrapped(x: int, half: int)
    requires
        half > 0,
    ensures
        -half <= wrapped(x, half) < half,
        -half <= x < half ==> wrapped(x, half) == x,
        half <= x < 3 * half ==> wrapped(x, half) == x - 2 * half,
        -3 * half <= x < -half ==> wrapped(x, half) == x + 2 * half,
{
    let m = 2 * half;
    vstd::arithmetic::div_mod::lemma_mod_bound(x + half, m);
    if -half <= x < half {
        vstd::arithmetic::div_mod::lemma_small_mod((x + half) as nat, m as nat);
    } else if half <= x < 3 * half {
        vstd::arithmetic::div_mod::lemma_small_mod((x - half) as nat, m as nat);
        vstd::arithmetic::div_mod::lemma_mod_add_multiples_vanish(x - half, m);
    } else if -3 * half <= x < -half {
        vstd::arithmetic::div_mod::lemma_small_mod((x + half + m) as nat, m as nat);
        vstd::arithmetic::div_mod::lemma_mod_add_multiples_vanish(x + half, m);
    }
}

/// It makes no difference whether a part of a sum is wrapped before it is added.
pub proof fn lemma_wrapped_sum(a: int, b: int, half: int)
    requires
        half > 0,
    ensures
        wrapped(wrapped(a, half) + b, half) == wrapped(a + b, half),
        wrapped(a + wrapped(b, half), half) == wrapped(a + b, half),
{
    let m = 2 * half;
    vstd::arithmetic::div_mod::lemma_add_mod_noop_right(b, a + half, m);
    vstd::arithmetic::div_mod::lemma_add_mod_noop_right(a, b + half, m);
}

/// A combined value is one that its type holds, and writing it into a cell and reading it back
/// gives it again.
pub proof fn lemma_combine_holds(k: Aggregate, a: int, b: int)
    requires
        k.holds(a),
        k.holds(b),
    ensures
        k.holds(k.combine(a, b)),
{
    lemma_wrapped(a + b, 0x8000_0000_0000_0000);
    lemma_wrapped(a + b, 0x8000_0000);
}

/// Combining is associative and commutative, and the identity changes nothing.
pub proof fn lemma_combine_laws(k: Aggregate, a: int, b: int, c: int)
    ensures
        k.combine(a, b) == k.combine(b, a),
        k.combine(k.combine(a, b), c) == k.combine(a, k.combine(b, c)),
        k.combine(k.combine(a, b), c) == k.combine(k.combine(a, c), b),
        k.holds(a) ==> k.combine(a, k.identity()) == a,
{
    match k {
        Aggregate::Sum => {
            let half = 0x8000_0000_0000_0000int;
            lemma_wrapped_sum(a + b, c, half);
            lemma_wrapped_sum(a, b + c, half);
            lemma_wrapped_sum(a + c, b, half);
            lemma_wrapped(a, half);
        },
        Aggregate::Count => {
            let half = 0x8000_0000int;
            lemma_wrapped_sum(a + b, c, half);
            lemma_wrapped_sum(a, b + c, half);
            lemma_wrapped_sum(a + c, b, half);
            lemma_wrapped(a, half);
        },
        _ => {},
    }
}

/// Adding to one value of a slot changes that value alone.
pub proof fn lemma_cell_add(cell: Cell, k: Aggregate, v: int)
    requires
        k.holds(v),
    ensures
        cell.add(k, v).get(k) == k.combine(cell.get(k), v),
        forall|other: Aggregate| other != k ==> #[trigger] cell.add(k, v).get(other) == cell.get(other),
{
    lemma_combine_holds(k, cell.get(k), v);
}

/// A reading is combined into each of the four values.
pub proof fn lemma_with_reading(cell: Cell, temp: int, k: Aggregate)
    requires
        i32::MIN <= temp <= i32::MAX,
    ensures
        cell.with_reading(temp).get(k) == k.combine(cell.get(k), k.of_reading(temp)),
{
    let a = cell.add(Aggregate::Sum, temp);
    let b = a.add(Aggregate::Count, 1);
    let c = b.add(Aggregate::Min, temp);
    lemma_cell_add(cell, Aggregate::Sum, temp);
    lemma_cell_add(a, Aggregate::Count, 1);
    lemma_cell_add(b, Aggregate::Min, temp);
    lemma_cell_add(c, Aggregate::Max, temp);
    match k {
        Aggregate::Sum => {
            assert(a.get(k) == b.get(k) && b.get(k) == c.get(k));
        },
        Aggregate::Count => {
            assert(a.get(k) == cell.get(k) && b.get(k) == c.get(k));
        },
        Aggregate::Min => {
            assert(a.get(k) == cell.get(k) && b.get(k) == a.get(k));
        },
        Aggregate::Max => {
            assert(a.get(k) == cell.get(k) && b.get(k) == a.get(k) && c.get(k) == b.get(k));
        },
    }
}

impl Cell {
    /// The values after a list of updates, each of which combines a number into one of them.
    pub open spec fn updated(self, updates: Seq<(Aggregate, int)>) -> Cell
        decreases updates.len(),
    {
        if updates.len() == 0 {
            self
        } else {
            let (k, v) = updates.last();
            self.updated(updates.drop_last()).add(k, v)
        }
    }

    /// The updates that a list of readings makes.
    pub open spec fn updates_of(temps: Seq<int>) -> Seq<(Aggregate, int)>
        decreases temps.len(),
    {
        if temps.len() == 0 {
            Seq::empty()
        } else {
            let temp = temps.last();
            Cell::updates_of(temps.drop_last()) + seq![
                (Aggregate::Sum, temp),
                (Aggregate::Count, 1int),
                (Aggregate::Min, temp),
                (Aggregate::Max, temp),
            ]
        }
    }

    /// The order in which values are updated does not matter.
    pub proof fn lemma_updates_any_order(
        self,
        x: Seq<(Aggregate, int)>,
        y: Seq<(Aggregate, int)>,
    )
        requires
            x.to_multiset() == y.to_multiset(),
            forall|i: int| 0 <= i < x.len() ==> (#[trigger] x[i]).0.holds(x[i].1),
        ensures
            self.updated(x) == self.updated(y),
    {
        broadcast use vstd::seq_lib::group_to_multiset_ensures;

        assert forall|i: int| 0 <= i < y.len() implies (#[trigger] y[i]).0.holds(y[i].1) by {
            assert(y.contains(y[i]));
            assert(y.to_multiset().count(y[i]) > 0);
            assert(x.contains(y[i]));
            let j = choose|j: int| 0 <= j < x.len() && x[j] == y[i];
            assert(x[j].0.holds(x[j].1));
        }
        assert forall|k: Aggregate| #[trigger] self.updated(x).get(k) == self.updated(y).get(k) by {
            let f = k.applying();
            assert forall|p: (Aggregate, int), q: (Aggregate, int), v: int| #[trigger]
                f(f(v, p), q) == f(f(v, q), p) by {
                lemma_combine_laws(k, v, p.1, q.1);
            }
            vstd::seq_lib::lemma_fold_left_permutation(x, y, f, self.get(k));
            self.lemma_updated(x, k);
            self.lemma_updated(y, k);
        }
        lemma_cell_equal(self.updated(x), self.updated(y));
    }

    /// A value after a list of updates is what those of its kind make of it, one after the other.
    pub proof fn lemma_updated(self, x: Seq<(Aggregate, int)>, k: Aggregate)
        requires
            forall|i: int| 0 <= i < x.len() ==> (#[trigger] x[i]).0.holds(x[i].1),
        ensures
            self.updated(x).get(k) == x.fold_left(self.get(k), k.applying()),
        decreases x.len(),
    {
        if x.len() > 0 {
            let rest = x.drop_last();
            assert forall|i: int| 0 <= i < rest.len() implies (#[trigger] rest[i]).0.holds(
                rest[i].1,
            ) by {
                assert(x[i] == rest[i]);
            }
            self.lemma_updated(rest, k);
            let last = x[x.len() - 1];
            assert(last.0.holds(last.1));
            lemma_cell_add(self.updated(rest), last.0, last.1);
        }
    }

    /// Updating a slot that nothing was added to with a list of readings gives their sum, their
    /// number, the lowest and the highest of them.
    pub proof fn lemma_updates_of(temps: Seq<int>)
        requires
            forall|i: int| 0 <= i < temps.len() ==> i16::MIN <= #[trigger] temps[i] <= i16::MAX,
            temps.len() <= i32::MAX,
        ensures
            ({
                let cell = Cell::empty().updated(Cell::updates_of(temps));
                &&& cell.cnt == temps.len()
                &&& cell.sum == temps.fold_left(0int, |a: int, v: int| a + v)
                &&& forall|i: int|
                    0 <= i < temps.len() ==> cell.min <= #[trigger] temps[i] <= cell.max
                &&& temps.len() > 0 ==> temps.contains(cell.min as int) && temps.contains(
                    cell.max as int,
                )
                &&& i16::MIN * temps.len() <= cell.sum <= i16::MAX * temps.len()
                &&& temps.len() == 0 ==> cell == Cell::empty()
            }),
        decreases temps.len(),
    {
        if temps.len() > 0 {
            let rest = temps.drop_last();
            let temp = temps[temps.len() - 1];
            assert forall|i: int| 0 <= i < rest.len() implies i16::MIN <= #[trigger] rest[i]
                <= i16::MAX by {
                assert(temps[i] == rest[i]);
            }
            Cell::lemma_updates_of(rest);
            let before = Cell::empty().updated(Cell::updates_of(rest));
            let cell = Cell::empty().updated(Cell::updates_of(temps));
            Cell::empty().lemma_four_updates(Cell::updates_of(rest), temp);
            lemma_with_reading(before, temp, Aggregate::Sum);
            lemma_with_reading(before, temp, Aggregate::Count);
            lemma_with_reading(before, temp, Aggregate::Min);
            lemma_with_reading(before, temp, Aggregate::Max);
            lemma_wrapped(before.sum + temp, 0x8000_0000_0000_0000);
            lemma_wrapped(before.cnt + 1, 0x8000_0000);
            assert(cell.get(Aggregate::Sum) == before.sum + temp);
            assert(cell.get(Aggregate::Count) == before.cnt + 1);
            assert forall|i: int| 0 <= i < temps.len() implies cell.min <= #[trigger] temps[i]
                <= cell.max by {
                if i < rest.len() {
                    assert(rest[i] == temps[i]);
                }
            }
            assert forall|v: int| rest.contains(v) implies #[trigger] temps.contains(v) by {
                let i = choose|i: int| 0 <= i < rest.len() && rest[i] == v;
                assert(temps[i] == v);
            }
            assert(temps.contains(temp));
        }
    }

    proof fn lemma_four_updates(self, updates: Seq<(Aggregate, int)>, temp: int)
        ensures
            self.updated(
                updates + seq![
                    (Aggregate::Sum, temp),
                    (Aggregate::Count, 1int),
                    (Aggregate::Min, temp),
                    (Aggregate::Max, temp),
                ],
            ) == self.updated(updates).with_reading(temp),
    {
        let a = updates.push((Aggregate::Sum, temp));
        let b = a.push((Aggregate::Count, 1int));
        let c = b.push((Aggregate::Min, temp));
        let d = c.push((Aggregate::Max, temp));
        assert(a.drop_last() =~= updates);
        assert(b.drop_last() =~= a);
        assert(c.drop_last() =~= b);
        assert(d.drop_last() =~= c);
        assert(self.updated(a) == self.updated(updates).add(Aggregate::Sum, temp));
        assert(self.updated(b) == self.updated(a).add(Aggregate::Count, 1));
        assert(self.updated(c) == self.updated(b).add(Aggregate::Min, temp));
        assert(updates + seq![
            (Aggregate::Sum, temp),
            (Aggregate::Count, 1int),
            (Aggregate::Min, temp),
            (Aggregate::Max, temp),
        ] =~= d);
    }
}

/// Cells with the same values are the same.
pub proof fn lemma_cell_equal(a: Cell, b: Cell)
    requires
        forall|k: Aggregate| #[trigger] a.get(k) == b.get(k),
    ensures
        a == b,
{
    assert(a.get(Aggregate::Sum) == b.get(Aggregate::Sum));
    assert(a.get(Aggregate::Count) == b.get(Aggregate::Count));
    assert(a.get(Aggregate::Min) == b.get(Aggregate::Min));
    assert(a.get(Aggregate::Max) == b.get(Aggregate::Max));
}

} // verus!
