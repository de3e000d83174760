//! Readings and means as text.

use vstd::prelude::*;
use vstd::utf8::{encode_utf8, is_ascii_chars, is_ascii_chars_encode_utf8};
use crate::mean::{magnitude, mean, mean_tenths};
use crate::parse::{
    decimal, lemma_index_from_is, sign_len, temp_digits, temp_fits, temp_result, whole_end,
    MINUS, NEWLINE, POINT, ZERO,
};

verus! {

/// The character of a digit.
pub open spec fn digit(d: int) -> char {
    ('0' as int + d) as char
}

/// A number in base ten, without leading zeros.
pub open spec fn decimal_text(n: int) -> Seq<char>
    decreases n,
{
    if n < 10 {
        seq![digit(n)]
    } else {
        decimal_text(n / 10).push(digit(n % 10))
    }
}

/// Tenths as a number with one digit behind the point, and a sign if it is below zero.
pub open spec fn val_text(tenths: int) -> Seq<char> {
    let size = magnitude(tenths);
    let sign = if tenths < 0 {
        seq!['-']
    } else {
        Seq::empty()
    };
    sign + decimal_text(size / 10) + seq!['.', digit(size % 10)]
}

fn digit_str(d: u32) -> (r: &'static str)
    requires
        d < 10,
    ensures
        r@ == seq![digit(d as int)],
{
    proof {
        reveal_strlit("0");
        reveal_strlit("1");
        reveal_strlit("2");
        reveal_strlit("3");
        reveal_strlit("4");
        reveal_strlit("5");
        reveal_strlit("6");
        reveal_strlit("7");
        reveal_strlit("8");
        reveal_strlit("9");
    }
    let r: &'static str = match d {
        0 => "0",
        1 => "1",
        2 => "2",
        3 => "3",
        4 => "4",
        5 => "5",
        6 => "6",
        7 => "7",
        8 => "8",
        _ => "9",
    };
    assert(r@ =~= seq![digit(d as int)]);
    r
}

fn push_decimal(out: &mut String, n: u32)
    ensures
        final(out)@ == old(out)@ + decimal_text(n as int),
    decreases n,
{
    if n >= 10 {
        push_decimal(out, n / 10);
    }
    out.append(digit_str(n % 10));
    assert(out@ =~= old(out)@ + decimal_text(n as int));
}

/// A value in tenths as text, such as `-12.3` for -123.
pub fn fmt_val(tenths: i32) -> (r: String)
    ensures
        r@ == val_text(tenths as int),
{
    let wide: i64 = tenths as i64;
    let abs: u32 = (if wide < 0 { -wide } else { wide }) as u32;
    let mut r: String = String::new();
    if tenths < 0 {
        r.append("-");
    }
    push_decimal(&mut r, abs / 10);
    r.append(".");
    r.append(digit_str(abs % 10));
    proof {
        reveal_strlit("-");
        reveal_strlit(".");
        assert(r@ =~= val_text(tenths as int));
    }
    r
}

/// The mean of `cnt` readings that add up to `sum` tenths, as text.
pub fn fmt_mean(sum: i64, cnt: i32) -> (r: String)
    ensures
        r@ == val_text(mean(sum as int, cnt as int)),
{
    fmt_val(mean_tenths(sum, cnt))
}

/// A number in base ten is made of digits, and reads as the number.
proof fn lemma_decimal_text(n: int, bytes: Seq<u8>)
    requires
        n >= 0,
        bytes.len() == decimal_text(n).len(),
        forall|i: int| 0 <= i < bytes.len() ==> #[trigger] bytes[i] == decimal_text(n)[i] as u8,
    ensures
        bytes.len() > 0,
        forall|i: int| 0 <= i < bytes.len() ==> ZERO <= #[trigger] bytes[i] <= ZERO + 9,
        forall|i: int|
            0 <= i < bytes.len() ==> '0' as int <= #[trigger] decimal_text(n)[i] as int
                <= '9' as int,
        decimal(bytes) == n,
    decreases n,
{
    let text = decimal_text(n);
    if n < 10 {
        assert(text[0] == digit(n));
        assert(bytes[0] == text[0] as u8);
        assert(bytes.drop_last() =~= Seq::<u8>::empty());
        assert(decimal(bytes.drop_last()) == 0);
        assert forall|i: int| 0 <= i < bytes.len() implies ZERO <= #[trigger] bytes[i] <= ZERO
            + 9 by {
            assert(i == 0);
        }
        assert forall|i: int| 0 <= i < bytes.len() implies '0' as int
            <= #[trigger] decimal_text(n)[i] as int <= '9' as int by {
            assert(i == 0);
        }
    } else {
        let head = bytes.drop_last();
        assert(text.drop_last() =~= decimal_text(n / 10));
        lemma_decimal_text(n / 10, head);
        assert(text.last() == digit(n % 10));
        assert(bytes[bytes.len() - 1] == text[text.len() - 1] as u8);
        assert forall|i: int| 0 <= i < bytes.len() implies ZERO <= #[trigger] bytes[i] <= ZERO
            + 9 by {
            if i < head.len() {
                assert(bytes[i] == head[i]);
            }
        }
        assert forall|i: int| 0 <= i < bytes.len() implies '0' as int
            <= #[trigger] decimal_text(n)[i] as int <= '9' as int by {
            if i < head.len() {
                assert(text[i] == decimal_text(n / 10)[i]);
            }
        }
    }
}

/// Reading back what was written: the text of a value, followed by a newline, is parsed as that
/// value, to its last byte.
pub proof fn lemma_val_text_parses(tenths: int)
    requires
        -i16::MAX <= tenths <= i16::MAX,
    ensures
        ({
            let line = encode_utf8(val_text(tenths)).push(NEWLINE);
            &&& temp_fits(line)
            &&& temp_result(line) == Some((tenths, line.len() as int))
        }),
{
    let size = magnitude(tenths);
    let chars = val_text(tenths);
    let whole = decimal_text(size / 10);
    let sign: int = if tenths < 0 {
        1
    } else {
        0
    };
    let point = sign + whole.len();
    let whole_bytes = Seq::new(whole.len(), |i: int| whole[i] as u8);
    lemma_decimal_text(size / 10, whole_bytes);
    assert(chars.len() == point + 2);
    assert forall|i: int| 0 <= i < whole.len() implies #[trigger] chars[sign + i] == whole[i] by {}
    assert forall|i: int| 0 <= i < chars.len() implies '\0' <= #[trigger] chars[i]
        <= '\u{7f}' by {
        if sign <= i < point {
            assert(chars[sign + (i - sign)] == whole[i - sign]);
        }
    }
    assert(is_ascii_chars(chars));
    is_ascii_chars_encode_utf8(chars);
    let bytes = encode_utf8(chars);
    let line = bytes.push(NEWLINE);
    assert forall|i: int| 0 <= i < chars.len() implies #[trigger] line[i] == chars[i] as u8 by {
        assert(chars[i] as u8 == bytes[i]);
    }
    assert forall|i: int| sign <= i < point implies #[trigger] line[i] == whole_bytes[i - sign] by {
        assert(chars[sign + (i - sign)] == whole[i - sign]);
    }
    if sign == 1 {
        assert(line[0] == MINUS);
    } else {
        assert(line[0] == whole_bytes[0]);
    }
    assert(sign_len(line) == sign);
    assert(line[point] == POINT);
    assert(line[point + 1] == ZERO + size % 10);
    assert forall|i: int| 0 <= i < point + 2 implies #[trigger] line[i] != NEWLINE by {
        if sign <= i < point {
            assert(line[i] == whole_bytes[i - sign]);
        }
    }
    assert forall|i: int| sign <= i < point implies #[trigger] line[i] != POINT by {
        assert(line[i] == whole_bytes[i - sign]);
    }
    lemma_index_from_is(line, POINT, sign, point);
    lemma_index_from_is(line, NEWLINE, sign, point + 2);
    lemma_index_from_is(line, NEWLINE, 0, point + 2);
    assert(whole_end(line) == point);
    assert(line.subrange(sign, point) =~= whole_bytes);
    let digits = temp_digits(line);
    assert(digits == whole_bytes.push(line[point + 1]));
    assert(digits.drop_last() =~= whole_bytes);
    assert(decimal(digits) == size);
    assert forall|i: int| 0 <= i < digits.len() implies #[trigger] digits[i] >= ZERO by {
        if i < whole_bytes.len() {
            assert(digits[i] == whole_bytes[i]);
        }
    }
}

} // verus!
