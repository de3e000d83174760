//! What is printed: values, stations, and the list of them.

use vstd::prelude::*;
use crate::format::{decimal_text, digit, val_text};
use crate::mean::{magnitude, mean};
use crate::report::{entry_text, joined, listing};
use crate::station::Entry;

verus! {

/// A number is printed in digits that spell it, the first of which is not `'0'` unless it is the only
/// one.
pub proof fn lemma_number_text(n: int)
    requires
        n >= 0,
    ensures
        decimal_text(n).len() > 0,
        forall|i: int|
            0 <= i < decimal_text(n).len() ==> '0' <= #[trigger] decimal_text(n)[i] <= '9',
        decimal_text(n).len() > 1 ==> decimal_text(n)[0] != '0',
        decimal_text(n).fold_left(0int, |v: int, c: char| 10 * v + (c as int - 48)) == n,
    decreases n,
{
    let text = decimal_text(n);
    let f = |v: int, c: char| 10 * v + (c as int - 48);
    if n < 10 {
        assert(text.drop_last() =~= Seq::<char>::empty());
        assert(text.drop_last().fold_left(0int, f) == 0);
        assert(text.fold_left(0int, f) == f(0, digit(n)));
    } else {
        let head = decimal_text(n / 10);
        lemma_number_text(n / 10);
        assert(text.drop_last() =~= head);
        assert(text.fold_left(0int, f) == f(head.fold_left(0int, f), digit(n % 10)));
        if head.len() == 1 {
            assert(head.drop_last() =~= Seq::<char>::empty());
            assert(head.drop_last().fold_left(0int, f) == 0);
            assert(head.fold_left(0int, f) == f(0, head[0]));
        }
    }
}

/// A value is printed as a minus sign if it lies below zero, digits of which the first is not `'0'`
/// unless it is the only one, a point, and one digit, which ends it. Without the point the digits spell
/// the tenths.
pub proof fn lemma_value_text(tenths: int)
    ensures
        ({
            let text = val_text(tenths);
            let n = text.len() as int;
            let sign: int = if tenths < 0 {
                1
            } else {
                0
            };
            let digits = text.subrange(sign, n - 2).push(text[n - 1]);
            &&& n >= sign + 3
            &&& tenths < 0 ==> text[0] == '-'
            &&& text[n - 2] == '.'
            &&& forall|i: int| sign <= i < n && i != n - 2 ==> '0' <= #[trigger] text[i] <= '9'
            &&& n > sign + 3 ==> text[sign] != '0'
            &&& digits.fold_left(0int, |v: int, c: char| 10 * v + (c as int - 48)) == if tenths
                < 0 {
                -tenths
            } else {
                tenths
            }
        }),
{
    let text = val_text(tenths);
    let n = text.len() as int;
    let size = magnitude(tenths);
    let whole = decimal_text(size / 10);
    let sign: int = if tenths < 0 {
        1
    } else {
        0
    };
    let f = |v: int, c: char| 10 * v + (c as int - 48);
    let digits = text.subrange(sign, n - 2).push(text[n - 1]);
    lemma_number_text(size / 10);
    assert(n == sign + whole.len() + 2);
    assert forall|i: int| sign <= i < n - 2 implies #[trigger] text[i] == whole[i - sign] by {}
    assert(text.subrange(sign, n - 2) =~= whole);
    assert(digits.drop_last() =~= whole);
    assert(digits.fold_left(0int, f) == f(whole.fold_left(0int, f), digit(size % 10)));
}

/// Different values are printed in different ways.
pub proof fn lemma_value_text_tells(a: int, b: int)
    requires
        val_text(a) == val_text(b),
    ensures
        a == b,
{
    lemma_value_text(a);
    lemma_value_text(b);
}

/// No value is printed with a slash.
proof fn lemma_no_slash(tenths: int)
    ensures
        !val_text(tenths).contains('/'),
{
    lemma_value_text(tenths);
}

/// What stands before the first slash of a text.
proof fn lemma_first_slash(x: Seq<char>, y: Seq<char>, p: Seq<char>, q: Seq<char>)
    requires
        !x.contains('/'),
        !p.contains('/'),
        x + seq!['/'] + y == p + seq!['/'] + q,
    ensures
        x == p,
        y == q,
{
    let s = x + seq!['/'] + y;
    let t = p + seq!['/'] + q;
    if x.len() < p.len() {
        assert(s[x.len() as int] == '/');
        assert(t[x.len() as int] == p[x.len() as int]);
    } else if p.len() < x.len() {
        assert(t[p.len() as int] == '/');
        assert(s[p.len() as int] == x[p.len() as int]);
    }
    assert(x =~= s.take(x.len() as int));
    assert(p =~= t.take(p.len() as int));
    assert(y =~= s.skip(x.len() as int + 1));
    assert(q =~= t.skip(p.len() as int + 1));
}

/// Reading a printed station back: between its name with an equals sign and the end there are three
/// fields with a slash between any two. The first one is its minimum as it is printed, the second one
/// its mean, and the third one its maximum, and so they are for no other fields.
pub proof fn lemma_station_fields(e: Entry, first: Seq<char>, second: Seq<char>, third: Seq<char>)
    requires
        !first.contains('/'),
        !second.contains('/'),
        !third.contains('/'),
    ensures
        entry_text(e) == e.name + seq!['='] + first + seq!['/'] + second + seq!['/'] + third <==> {
            &&& first == val_text(e.cell.min as int)
            &&& second == val_text(mean(e.cell.sum as int, e.cell.cnt as int))
            &&& third == val_text(e.cell.max as int)
        },
{
    let low = val_text(e.cell.min as int);
    let middle = val_text(mean(e.cell.sum as int, e.cell.cnt as int));
    let high = val_text(e.cell.max as int);
    let head = e.name + seq!['='];
    let printed = head + low + seq!['/'] + middle + seq!['/'] + high;
    let given = head + first + seq!['/'] + second + seq!['/'] + third;
    lemma_no_slash(e.cell.min as int);
    lemma_no_slash(mean(e.cell.sum as int, e.cell.cnt as int));
    lemma_no_slash(e.cell.max as int);
    assert(entry_text(e) =~= printed);
    if printed == given {
        let n = head.len() as int;
        assert(printed.skip(n) =~= low + seq!['/'] + (middle + seq!['/'] + high));
        assert(given.skip(n) =~= first + seq!['/'] + (second + seq!['/'] + third));
        lemma_first_slash(low, middle + seq!['/'] + high, first, second + seq!['/'] + third);
        lemma_first_slash(middle, high, second, third);
    }
}

/// The list of stations: braces around nothing, or around the first station, and one more station goes
/// before the last brace, behind a comma and a space. So it holds all stations, in order, however many
/// there are.
pub proof fn lemma_list_step(list: Seq<Entry>, e: Entry)
    ensures
        listing(Seq::empty()) == seq!['{', '}'],
        listing(seq![e]) == seq!['{'] + entry_text(e) + seq!['}'],
        list.len() > 0 ==> listing(list.push(e)) == listing(list).drop_last() + seq![',', ' ']
            + entry_text(e) + seq!['}'],
        listing(list).last() == '}',
{
    let next = list.push(e);
    assert(joined(Seq::empty()) =~= Seq::<char>::empty());
    assert(listing(Seq::empty()) =~= seq!['{', '}']);
    assert(joined(seq![e]) == entry_text(e));
    assert(next.drop_last() =~= list);
    if list.len() > 0 {
        assert(joined(next) == joined(list) + seq![',', ' '] + entry_text(e));
        assert(listing(next) =~= listing(list).drop_last() + seq![',', ' '] + entry_text(e)
            + seq!['}']);
    }
}

/// Two lists one behind the other are printed as the first one without its last brace, a comma and a
/// space, and the second one without its first brace.
pub proof fn lemma_list_join(x: Seq<Entry>, y: Seq<Entry>)
    requires
        x.len() > 0,
        y.len() > 0,
    ensures
        listing(x + y) == listing(x).drop_last() + seq![',', ' '] + listing(y).skip(1),
    decreases y.len(),
{
    let rest = y.drop_last();
    let last = y.last();
    assert((x + rest).push(last) =~= x + y);
    lemma_list_step(x + rest, last);
    if rest.len() == 0 {
        assert(x + rest =~= x);
        assert(y =~= seq![last]);
        assert(listing(x + y) =~= listing(x).drop_last() + seq![',', ' '] + listing(y).skip(1));
    } else {
        lemma_list_join(x, rest);
        lemma_list_step(rest, last);
        assert(rest.push(last) =~= y);
        assert(listing(x + y) =~= listing(x).drop_last() + seq![',', ' '] + listing(y).skip(1));
    }
}

/// Every station of a list is printed, behind the ones before it and in front of the ones behind it.
pub proof fn lemma_list_entry(list: Seq<Entry>, i: int)
    requires
        0 <= i < list.len(),
    ensures
        ({
            let before = if i == 0 {
                seq!['{']
            } else {
                listing(list.take(i)).drop_last() + seq![',', ' ']
            };
            let behind = if i == list.len() - 1 {
                seq!['}']
            } else {
                seq![',', ' '] + listing(list.skip(i + 1)).skip(1)
            };
            listing(list) == before + entry_text(list[i]) + behind
        }),
{
    let up_to = list.take(i + 1);
    let rest = list.skip(i + 1);
    lemma_list_step(list.take(i), list[i]);
    assert(list.take(i).push(list[i]) =~= up_to);
    if i == 0 {
        assert(up_to =~= seq![list[i]]);
    }
    if rest.len() > 0 {
        lemma_list_join(up_to, rest);
        assert(up_to + rest =~= list);
    } else {
        assert(up_to =~= list);
    }
    let before = if i == 0 {
        seq!['{']
    } else {
        listing(list.take(i)).drop_last() + seq![',', ' ']
    };
    let behind = if i == list.len() - 1 {
        seq!['}']
    } else {
        seq![',', ' '] + listing(list.skip(i + 1)).skip(1)
    };
    assert(listing(list) =~= before + entry_text(list[i]) + behind);
}

} // verus!
