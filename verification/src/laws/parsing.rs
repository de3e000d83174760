//! What is read out of the bytes of a text.

use vstd::prelude::*;
use crate::parse::{
    decimal, index_from, least, lemma_index_from, lemma_index_from_is, line_fits, line_result,
    sign_len, start_result, temp_digits, temp_fits, temp_result, whole_end, MINUS, NEWLINE, POINT,
    SEPARATOR,
};

verus! {

/// Digits are worth ten times those before them, and the last one its distance from `'0'`.
pub proof fn lemma_number(digits: Seq<u8>)
    ensures
        decimal(digits) == digits.fold_left(0int, |n: int, b: u8| 10 * n + (b - 48)),
    decreases digits.len(),
{
    if digits.len() > 0 {
        lemma_number(digits.drop_last());
    }
}

/// The smaller one of two numbers.
pub proof fn lemma_least(a: int, b: int)
    ensures
        least(a, b) <= a,
        least(a, b) <= b,
        least(a, b) == a || least(a, b) == b,
{
}

/// The parts of a reading.
pub struct Parts {
    /// The minus sign, if there is one.
    pub sign: Seq<u8>,
    /// The digits before the point.
    pub whole: Seq<u8>,
    /// The point, if there is one.
    pub point: Seq<u8>,
    /// The digit behind the point, if there is one.
    pub tenth: Seq<u8>,
    /// What else stands before the newline.
    pub extra: Seq<u8>,
    /// The newline, and all that follows it.
    pub end: Seq<u8>,
}

impl Parts {
    /// Each part is what it should be. Before the point and behind it stands anything but a newline,
    /// before it no other point, and at the beginning no minus sign but the sign itself.
    pub open spec fn wf(self) -> bool {
        &&& self.sign == seq![45u8] || self.sign.len() == 0 && (self.whole.len() > 0 ==> self.whole[0]
            != 45)
        &&& forall|i: int| 0 <= i < self.whole.len() ==> self.whole[i] != 46 && self.whole[i] != 10
        &&& self.point == seq![46u8] || self.point.len() == 0
        &&& self.tenth.len() <= self.point.len()
        &&& self.tenth.len() == 1 ==> self.tenth[0] != 10
        &&& self.extra.len() > 0 ==> self.tenth.len() == 1
        &&& forall|i: int| 0 <= i < self.extra.len() ==> self.extra[i] != 10
        &&& self.end.len() > 0 ==> self.end[0] == 10
    }

    /// The parts one behind the other.
    pub open spec fn text(self) -> Seq<u8> {
        self.sign + self.whole + self.point + self.tenth + self.extra + self.end
    }
}

/// Every text has the parts of a reading.
pub proof fn lemma_parts(s: Seq<u8>) -> (r: Parts)
    ensures
        r.wf(),
        r.sign + r.whole + r.point + r.tenth + r.extra + r.end == s,
{
    let from = sign_len(s);
    let newline = index_from(s, NEWLINE, from);
    let stop = whole_end(s);
    lemma_index_from(s, POINT, from);
    lemma_index_from(s, NEWLINE, from);
    let a = least(stop + 1, newline);
    let b = least(stop + 2, newline);
    let r = Parts {
        sign: s.take(from),
        whole: s.subrange(from, stop),
        point: s.subrange(stop, a),
        tenth: s.subrange(a, b),
        extra: s.subrange(b, newline),
        end: s.skip(newline),
    };
    if from == 1 {
        assert(r.sign =~= seq![45u8]);
    }
    if stop < newline {
        assert(r.point =~= seq![46u8]);
    }
    assert(r.text() =~= s);
    r
}

/// A reading is worth the number that its digits spell, those before the point and the first one
/// behind it, below zero if there is a minus sign. What follows up to the newline is passed over. It is
/// read if there is a newline, and takes up all bytes up to there. It can be read if none of the digits
/// lies below `'0'` and the number fits an `i16`.
pub proof fn lemma_reading(p: Parts)
    requires
        p.wf(),
    ensures
        ({
            let s = p.sign + p.whole + p.point + p.tenth + p.extra + p.end;
            let digits = p.whole + p.tenth;
            let number = digits.fold_left(0int, |n: int, b: u8| 10 * n + (b - 48));
            &&& temp_fits(s) <==> number <= 32767 && (forall|i: int|
                0 <= i < digits.len() ==> digits[i] >= 48)
            &&& p.end.len() == 0 ==> temp_result(s) is None
            &&& p.end.len() > 0 && p.sign.len() == 0 ==> temp_result(s) == Some(
                (number, s.len() - p.end.len() + 1),
            )
            &&& p.end.len() > 0 && p.sign.len() > 0 ==> temp_result(s) == Some(
                (-number, s.len() - p.end.len() + 1),
            )
        }),
{
    let s = p.sign + p.whole + p.point + p.tenth + p.extra + p.end;
    let digits = p.whole + p.tenth;
    let sign = p.sign.len() as int;
    let stop = sign + p.whole.len();
    let newline = s.len() - p.end.len();
    lemma_number(digits);
    assert(sign_len(s) == sign) by {
        if sign == 0 && s.len() > 0 && s[0] == MINUS {
            assert(p.whole.len() == 0);
        }
    }
    assert forall|i: int| sign <= i < stop implies s[i] == p.whole[i - sign] by {}
    assert forall|i: int| sign <= i < newline implies s[i] != NEWLINE by {
        if i < stop {
            assert(s[i] == p.whole[i - sign]);
        } else if i >= stop + 2 {
            assert(s[i] == p.extra[i - stop - 2]);
        }
    }
    assert(newline < s.len() ==> s[newline] == p.end[0]);
    lemma_index_from_is(s, NEWLINE, sign, newline);
    lemma_index_from_is(s, NEWLINE, 0, newline);
    lemma_index_from(s, POINT, sign);
    if p.point.len() > 0 {
        lemma_index_from_is(s, POINT, sign, stop);
    }
    assert(whole_end(s) == stop);
    assert(s.subrange(sign, stop) =~= p.whole);
    assert(temp_digits(s) =~= digits);
}

/// `[-]D[D].D` is worth ten times its whole degrees and its tenth, also where it is written with a
/// leading zero, or as minus zero.
pub proof fn lemma_plain_reading(
    sign: Seq<u8>,
    tens: Seq<u8>,
    ones: u8,
    tenths: u8,
    rest: Seq<u8>,
)
    requires
        sign == seq![45u8] || sign.len() == 0,
        tens.len() == 1 && 48 <= tens[0] <= 57 || tens.len() == 0,
        48 <= ones <= 57,
        48 <= tenths <= 57,
    ensures
        ({
            let s = sign + tens + seq![ones, 46u8, tenths, 10u8] + rest;
            let lead: int = if tens.len() == 1 {
                100 * (tens[0] - 48)
            } else {
                0
            };
            let value = lead + 10 * (ones - 48) + (tenths - 48);
            &&& temp_fits(s)
            &&& temp_result(s) == Some(
                (
                    if sign.len() == 1 {
                        -value
                    } else {
                        value
                    },
                    s.len() - rest.len(),
                ),
            )
        }),
{
    let p = Parts {
        sign,
        whole: tens.push(ones),
        point: seq![46u8],
        tenth: seq![tenths],
        extra: Seq::empty(),
        end: seq![10u8] + rest,
    };
    let digits = p.whole + p.tenth;
    lemma_reading(p);
    assert(p.text() =~= sign + tens + seq![ones, 46u8, tenths, 10u8] + rest);
    let f = |n: int, b: u8| 10 * n + (b - 48);
    assert(digits.drop_last() =~= p.whole);
    assert(p.whole.drop_last() =~= tens);
    if tens.len() > 0 {
        assert(tens.drop_last() =~= Seq::<u8>::empty());
        assert(tens.drop_last().fold_left(0int, f) == 0);
    }
    assert(p.whole.fold_left(0int, f) == f(tens.fold_left(0int, f), ones));
    assert(digits.fold_left(0int, f) == f(p.whole.fold_left(0int, f), tenths));
}

/// A minus sign turns a reading into its opposite, and takes up one byte.
pub proof fn lemma_opposite(s: Seq<u8>)
    requires
        s.len() > 0 ==> s[0] != 45,
    ensures
        temp_fits(seq![45u8] + s) == temp_fits(s),
        temp_result(seq![45u8] + s) == match temp_result(s) {
            Some((value, used)) => Some((-value, used + 1)),
            None => None,
        },
{
    let p = lemma_parts(s);
    assert(p.sign.len() == 0) by {
        if p.sign.len() > 0 {
            assert(p.text()[0] == 45);
        }
    }
    let q = Parts { sign: seq![45u8], ..p };
    lemma_reading(p);
    lemma_reading(q);
    assert(q.text() =~= seq![45u8] + s);
}

/// A row is its name up to the first separator, and the reading behind it. Of a name longer than 100
/// bytes those are kept. Nothing beyond the limit is looked at.
pub proof fn lemma_row(name: Seq<u8>, tail: Seq<u8>, beyond: Seq<u8>, limit: int)
    requires
        forall|i: int| 0 <= i < name.len() ==> name[i] != 59,
        limit == name.len() + 1 + tail.len() || beyond.len() == 0 && limit > name.len()
            + tail.len(),
    ensures
        ({
            let s = name + seq![59u8] + tail + beyond;
            &&& line_fits(s, limit) == temp_fits(tail)
            &&& line_result(s, limit) == match temp_result(tail) {
                Some((value, used)) => Some(
                    (
                        if name.len() < 100 {
                            name.len() as int
                        } else {
                            100
                        },
                        value,
                        name.len() + 1 + used,
                    ),
                ),
                None => None,
            }
        }),
{
    let s = name + seq![59u8] + tail + beyond;
    let seen = s.take(least(s.len() as int, limit));
    assert(seen =~= name + seq![59u8] + tail);
    lemma_index_from_is(seen, SEPARATOR, 0, name.len() as int);
    assert(seen.skip(name.len() as int + 1) =~= tail);
}

/// Without a separator within the limit there is no row.
pub proof fn lemma_no_row(s: Seq<u8>, limit: int)
    requires
        0 <= limit,
        forall|i: int| 0 <= i < s.len() && i < limit ==> s[i] != 59,
    ensures
        line_fits(s, limit),
        line_result(s, limit) is None,
{
    let seen = s.take(least(s.len() as int, limit));
    lemma_index_from_is(seen, SEPARATOR, 0, seen.len() as int);
}

/// A thread starts behind the first newline from its start on, if a byte stands there; the first thread
/// at the first byte.
pub proof fn lemma_first_row(s: Seq<u8>, tid: int, start: int)
    requires
        0 <= start,
    ensures
        tid == 0 ==> start_result(s, tid, start) == Some(0int),
        tid != 0 ==> match start_result(s, tid, start) {
            Some(p) => {
                &&& start < p < s.len()
                &&& s[p - 1] == 10
                &&& forall|i: int| start <= i < p - 1 ==> s[i] != 10
            },
            None => forall|i: int| start <= i < s.len() - 1 ==> s[i] != 10,
        },
{
    if start <= s.len() {
        lemma_index_from(s, NEWLINE, start);
    }
}

} // verus!
