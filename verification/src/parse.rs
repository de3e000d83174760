//! Reading rows of the form `name;[-]D[D].D\n` out of a byte slice.

use vstd::prelude::*;

verus! {

/// Longest station name that is kept, in bytes; longer names are cut off here.
pub const NAME_MAX: usize = 100;

/// `'\n'`, which ends a row.
pub const NEWLINE: u8 = 10;

/// `';'`, which ends a name.
pub const SEPARATOR: u8 = 59;

/// `'.'`, which stands before the tenths.
pub const POINT: u8 = 46;

/// `'-'`, the sign of a reading below zero.
pub const MINUS: u8 = 45;

/// `'0'`.
pub const ZERO: u8 = 48;

/// Index of the first `b` in `s` at or after `from`, or `s.len()` if there is none.
pub open spec fn index_from(s: Seq<u8>, b: u8, from: int) -> int
    decreases s.len() - from,
{
    if from >= s.len() {
        s.len() as int
    } else if s[from] == b {
        from
    } else {
        index_from(s, b, from + 1)
    }
}

/// What `index_from` finds, said without recursion.
pub proof fn lemma_index_from(s: Seq<u8>, b: u8, from: int)
    requires
        0 <= from <= s.len(),
    ensures
        from <= index_from(s, b, from) <= s.len(),
        index_from(s, b, from) < s.len() ==> s[index_from(s, b, from)] == b,
        forall|i: int| from <= i < index_from(s, b, from) ==> s[i] != b,
    decreases s.len() - from,
{
    if from < s.len() && s[from] != b {
        lemma_index_from(s, b, from + 1);
    }
}

/// The index that satisfies the description of `index_from` is the one it gives.
pub proof fn lemma_index_from_is(s: Seq<u8>, b: u8, from: int, at: int)
    requires
        0 <= from <= at <= s.len(),
        at < s.len() ==> s[at] == b,
        forall|i: int| from <= i < at ==> s[i] != b,
    ensures
        index_from(s, b, from) == at,
    decreases at - from,
{
    if from < at {
        lemma_index_from_is(s, b, from + 1, at);
    }
}

/// The number that a run of digit bytes spells in base ten. A byte above `'9'` counts as the
/// difference to `'0'`, as it does for the reader below.
pub open spec fn decimal(s: Seq<u8>) -> int
    decreases s.len(),
{
    if s.len() == 0 {
        0
    } else {
        decimal(s.drop_last()) * 10 + (s.last() - ZERO)
    }
}

/// 1 where a reading starts with a minus sign, 0 elsewhere.
pub open spec fn sign_len(s: Seq<u8>) -> int {
    if s.len() > 0 && s[0] == MINUS {
        1
    } else {
        0
    }
}

/// The smaller one of two numbers.
pub open spec fn least(a: int, b: int) -> int {
    if a <= b {
        a
    } else {
        b
    }
}

/// Where the whole part of a reading ends: at its `.` or its `\n`, whichever is first.
pub open spec fn whole_end(s: Seq<u8>) -> int {
    least(index_from(s, POINT, sign_len(s)), index_from(s, NEWLINE, sign_len(s)))
}

/// The digits of a reading: those of the whole part and at most one behind the point.
pub open spec fn temp_digits(s: Seq<u8>) -> Seq<u8> {
    let whole = s.subrange(sign_len(s), whole_end(s));
    let point = whole_end(s);
    if point + 1 < s.len() && s[point] == POINT && s[point + 1] != NEWLINE {
        whole.push(s[point + 1])
    } else {
        whole
    }
}

/// A reading in tenths of a degree.
pub open spec fn temp_value(s: Seq<u8>) -> int {
    if sign_len(s) == 1 {
        -decimal(temp_digits(s))
    } else {
        decimal(temp_digits(s))
    }
}

/// No byte where a digit is due lies below `'0'`, and the tenths fit an `i16`.
pub open spec fn temp_fits(s: Seq<u8>) -> bool {
    &&& forall|i: int| 0 <= i < temp_digits(s).len() ==> #[trigger] temp_digits(s)[i] >= ZERO
    &&& decimal(temp_digits(s)) <= i16::MAX
}

/// The reading that `s` starts with and the bytes it takes up, newline included; nothing where
/// `s` holds no newline.
pub open spec fn temp_result(s: Seq<u8>) -> Option<(int, int)> {
    let newline = index_from(s, NEWLINE, 0);
    if newline < s.len() {
        Some((temp_value(s), newline + 1))
    } else {
        None
    }
}

/// A number of which only the first digits are read is not larger than all of it.
pub proof fn lemma_decimal_bounds(s: Seq<u8>, n: int)
    requires
        0 <= n <= s.len(),
        forall|i: int| 0 <= i < s.len() ==> #[trigger] s[i] >= ZERO,
    ensures
        0 <= decimal(s.take(n)) <= decimal(s),
    decreases s.len(),
{
    if n == s.len() {
        assert(s.take(n) =~= s);
        if n > 0 {
            lemma_decimal_bounds(s.drop_last(), n - 1);
            assert(s.drop_last().take(n - 1) =~= s.drop_last());
        }
    } else {
        assert(s.drop_last().take(n) =~= s.take(n));
        lemma_decimal_bounds(s.drop_last(), n);
    }
}

/// Parses `"-12.3\n"` as `(-123, 6)`: the reading in tenths, so that no fraction is needed, and
/// the bytes it takes up.
pub fn parse_temp(text: &[u8]) -> (r: Option<(i16, usize)>)
    requires
        temp_fits(text@),
    ensures
        r matches Some(v) ==> temp_result(text@) == Some((v.0 as int, v.1 as int)),
        r is None ==> temp_result(text@) is None,
{
    let ghost s = text@;
    let ghost digits = temp_digits(s);
    let ghost sign = sign_len(s);
    proof {
        lemma_index_from(s, POINT, sign);
        lemma_index_from(s, NEWLINE, sign);
        lemma_index_from(s, NEWLINE, 0);
    }
    let mut i: usize = 0;
    let neg: bool = text.len() > 0 && text[0] == MINUS;
    if neg {
        i = i + 1;
    }
    let mut val: i16 = 0;
    assert(s.subrange(sign, sign) =~= Seq::<u8>::empty());
    while i < text.len() && text[i] != POINT && text[i] != NEWLINE
        invariant
            s == text@,
            digits == temp_digits(s),
            sign == sign_len(s),
            0 <= sign <= i <= whole_end(s) <= s.len(),
            temp_fits(s),
            val == decimal(s.subrange(sign, i as int)),
            0 <= val,
            forall|j: int| sign <= j < whole_end(s) ==> s[j] != POINT && s[j] != NEWLINE,
            whole_end(s) < s.len() ==> s[whole_end(s)] == POINT || s[whole_end(s)] == NEWLINE,
        decreases text.len() - i,
    {
        proof {
            let next = s.subrange(sign, i + 1);
            assert(next.drop_last() =~= s.subrange(sign, i as int));
            assert(digits.take(i + 1 - sign) =~= next);
            lemma_decimal_bounds(digits, i + 1 - sign);
            assert(digits[i - sign] >= ZERO);
        }
        val = val * 10 + (text[i] - ZERO) as i16;
        i = i + 1;
    }
    assert(i == whole_end(s));
    if i < text.len() && text[i] == POINT {
        i = i + 1;
        if i < text.len() && text[i] != NEWLINE {
            proof {
                assert(digits.last() == s[i as int]);
                assert(digits.drop_last() =~= s.subrange(sign, i - 1));
                assert(digits[digits.len() - 1] >= ZERO);
                assert(digits.take(digits.len() as int) =~= digits);
                lemma_decimal_bounds(digits, digits.len() as int);
            }
            val = val * 10 + (text[i] - ZERO) as i16;
            i = i + 1;
        }
    }
    assert(val == decimal(digits));
    while i < text.len() && text[i] != NEWLINE
        invariant
            s == text@,
            0 <= i <= s.len(),
            forall|j: int| 0 <= j < i ==> s[j] != NEWLINE,
        decreases text.len() - i,
    {
        i = i + 1;
    }
    proof {
        lemma_index_from_is(s, NEWLINE, 0, i as int);
    }
    if i >= text.len() {
        return None;
    }
    Some((if neg { -val } else { val }, i + 1))
}

/// What a row that starts `s` holds, as far as the first `limit` bytes show it: the length of
/// the name that is kept, the reading, and the bytes of the whole row. Nothing where the
/// separator or the newline lies beyond the limit.
pub open spec fn line_result(s: Seq<u8>, limit: int) -> Option<(int, int, int)> {
    let seen = s.take(least(s.len() as int, limit));
    let sep = index_from(seen, SEPARATOR, 0);
    if sep >= seen.len() {
        None
    } else {
        match temp_result(seen.skip(sep + 1)) {
            None => None,
            Some((temp, used)) => Some((least(sep, NAME_MAX as int), temp, sep + 1 + used)),
        }
    }
}

/// The reading behind the first separator, if there is one, is one that `parse_temp` takes.
pub open spec fn line_fits(s: Seq<u8>, limit: int) -> bool {
    let seen = s.take(least(s.len() as int, limit));
    let sep = index_from(seen, SEPARATOR, 0);
    sep < seen.len() ==> temp_fits(seen.skip(sep + 1))
}

/// Parses the row that `text` starts with, looking at `limit` bytes at most: the length of its
/// name, its reading in tenths and the length of the row.
pub fn parse_line(text: &[u8], limit: usize) -> (r: Option<(usize, i16, usize)>)
    requires
        line_fits(text@, limit as int),
    ensures
        r matches Some(v) ==> line_result(text@, limit as int) == Some(
            (v.0 as int, v.1 as int, v.2 as int),
        ),
        r is None ==> line_result(text@, limit as int) is None,
{
    let max: usize = if text.len() < limit { text.len() } else { limit };
    let ghost seen = text@.take(max as int);
    let mut sep: usize = 0;
    while sep < max && text[sep] != SEPARATOR
        invariant
            seen == text@.take(max as int),
            0 <= sep <= max <= text.len(),
            forall|j: int| 0 <= j < sep ==> seen[j] != SEPARATOR,
        decreases max - sep,
    {
        assert(seen[sep as int] == text@[sep as int]);
        sep = sep + 1;
    }
    proof {
        lemma_index_from_is(seen, SEPARATOR, 0, sep as int);
    }
    if sep >= max {
        return None;
    }
    let rest: &[u8] = &text[sep + 1..max];
    assert(rest@ =~= seen.skip(sep + 1));
    proof {
        lemma_index_from(rest@, NEWLINE, 0);
    }
    match parse_temp(rest) {
        None => None,
        Some((temp, used)) => {
            let name_len: usize = if sep < NAME_MAX { sep } else { NAME_MAX };
            Some((name_len, temp, sep + 1 + used))
        },
    }
}

/// Whether `parse_temp` can take a text.
pub fn can_parse_temp(text: &[u8]) -> (r: bool)
    ensures
        r == temp_fits(text@),
{
    let ghost s = text@;
    let ghost digits = temp_digits(s);
    let ghost sign = sign_len(s);
    proof {
        lemma_index_from(s, POINT, sign);
        lemma_index_from(s, NEWLINE, sign);
    }
    let mut i: usize = 0;
    if text.len() > 0 && text[0] == MINUS {
        i = i + 1;
    }
    let mut val: i32 = 0;
    assert(s.subrange(sign, sign) =~= Seq::<u8>::empty());
    while i < text.len() && text[i] != POINT && text[i] != NEWLINE
        invariant
            s == text@,
            digits == temp_digits(s),
            sign == sign_len(s),
            0 <= sign <= i <= whole_end(s) <= s.len(),
            val == decimal(s.subrange(sign, i as int)),
            0 <= val <= i16::MAX,
            forall|j: int| 0 <= j < i - sign ==> #[trigger] digits[j] >= ZERO,
            forall|j: int| sign <= j < whole_end(s) ==> s[j] != POINT && s[j] != NEWLINE,
            whole_end(s) < s.len() ==> s[whole_end(s)] == POINT || s[whole_end(s)] == NEWLINE,
        decreases text.len() - i,
    {
        assert(digits[i - sign] == s[i as int]);
        if text[i] < ZERO {
            return false;
        }
        proof {
            let next = s.subrange(sign, i + 1);
            assert(next.drop_last() =~= s.subrange(sign, i as int));
            assert(digits.take(i + 1 - sign) =~= next);
        }
        val = val * 10 + (text[i] - ZERO) as i32;
        i = i + 1;
        if val > i16::MAX as i32 {
            proof {
                if temp_fits(s) {
                    lemma_decimal_bounds(digits, i - sign);
                }
            }
            return false;
        }
    }
    assert(i == whole_end(s));
    if i < text.len() && text[i] == POINT {
        i = i + 1;
        if i < text.len() && text[i] != NEWLINE {
            assert(digits.last() == s[i as int]);
            assert(digits[digits.len() - 1] == s[i as int]);
            if text[i] < ZERO {
                return false;
            }
            assert(digits.drop_last() =~= s.subrange(sign, i - 1));
            val = val * 10 + (text[i] - ZERO) as i32;
        }
    }
    assert(val == decimal(digits));
    val <= i16::MAX as i32
}

/// Whether `parse_line` can take a text with a limit.
pub fn can_parse_line(text: &[u8], limit: usize) -> (r: bool)
    ensures
        r == line_fits(text@, limit as int),
{
    let max: usize = if text.len() < limit { text.len() } else { limit };
    let ghost seen = text@.take(max as int);
    let mut sep: usize = 0;
    while sep < max && text[sep] != SEPARATOR
        invariant
            seen == text@.take(max as int),
            0 <= sep <= max <= text.len(),
            forall|j: int| 0 <= j < sep ==> seen[j] != SEPARATOR,
        decreases max - sep,
    {
        assert(seen[sep as int] == text@[sep as int]);
        sep = sep + 1;
    }
    proof {
        lemma_index_from_is(seen, SEPARATOR, 0, sep as int);
    }
    if sep >= max {
        return true;
    }
    let rest: &[u8] = &text[sep + 1..max];
    assert(rest@ =~= seen.skip(sep + 1));
    can_parse_temp(rest)
}

/// Where a thread starts to read: the first thread at byte 0, every other one behind the first
/// newline at or after `start`; nowhere if no byte follows that newline.
pub open spec fn start_result(s: Seq<u8>, tid: int, start: int) -> Option<int> {
    if tid == 0 {
        Some(0)
    } else {
        let newline = index_from(s, NEWLINE, start);
        if newline + 1 < s.len() {
            Some(newline + 1)
        } else {
            None
        }
    }
}

/// The first position after `start` at which a row begins, within the first `total` bytes; the
/// first byte for the first thread.
pub fn line_start(raw_text: &[u8], tid: usize, start: usize, total: usize) -> (r: Option<usize>)
    requires
        tid != 0 ==> total <= raw_text.len() && start < usize::MAX && total < usize::MAX,
    ensures
        r matches Some(p) ==> start_result(raw_text@.take(total as int), tid as int, start as int)
            == Some(p as int),
        r is None ==> start_result(raw_text@.take(total as int), tid as int, start as int) is None,
{
    if tid == 0 {
        return Some(0);
    }
    let ghost s = raw_text@.take(total as int);
    let mut p: usize = start;
    while p < total && raw_text[p] != NEWLINE
        invariant
            total <= raw_text.len(),
            s == raw_text@.take(total as int),
            start <= p,
            p <= total || p == start,
            start < usize::MAX && total < usize::MAX,
            forall|j: int| start <= j < p ==> s[j] != NEWLINE,
        decreases total - p,
    {
        assert(s[p as int] == raw_text@[p as int]);
        p = p + 1;
    }
    proof {
        if start <= total {
            lemma_index_from_is(s, NEWLINE, start as int, p as int);
        }
    }
    if p + 1 < total {
        Some(p + 1)
    } else {
        None
    }
}

} // verus!
