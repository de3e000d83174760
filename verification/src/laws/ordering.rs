//! Which name stands before which.

use vstd::prelude::*;
use vstd::utf8::encode_utf8;
use crate::order::{bytes_before, name_before};

verus! {

/// Bytes stand before others if, up to some place, both are the same, and there the first ones end and
/// the others go on, or the byte of the first ones is the smaller number.
pub proof fn lemma_bytes_order(a: Seq<u8>, b: Seq<u8>)
    ensures
        bytes_before(a, b) <==> exists|i: int|
            {
                &&& 0 <= i <= a.len()
                &&& i < b.len()
                &&& #[trigger] a.take(i) == b.take(i)
                &&& i == a.len() || a[i] < b[i]
            },
    decreases a.len(),
{
    if b.len() > 0 && a.len() == 0 {
        assert(a.take(0) =~= b.take(0));
    } else if b.len() > 0 && a[0] != b[0] {
        assert(a.take(0) =~= b.take(0));
        assert forall|i: int| 0 < i <= a.len() && i < b.len() implies #[trigger] a.take(i)
            != b.take(i) by {
            assert(a.take(i)[0] != b.take(i)[0]);
        }
    } else if b.len() > 0 {
        let c = a.skip(1);
        let d = b.skip(1);
        lemma_bytes_order(c, d);
        if bytes_before(c, d) {
            let i = choose|i: int|
                {
                    &&& 0 <= i <= c.len()
                    &&& i < d.len()
                    &&& #[trigger] c.take(i) == d.take(i)
                    &&& i == c.len() || c[i] < d[i]
                };
            assert(a.take(i + 1) =~= seq![a[0]] + c.take(i));
            assert(b.take(i + 1) =~= seq![b[0]] + d.take(i));
        }
        assert forall|i: int|
            0 <= i <= a.len() && i < b.len() && #[trigger] a.take(i) == b.take(i) && (i == a.len()
                || a[i] < b[i]) implies bytes_before(c, d) by {
            assert(c.take(i - 1) =~= a.take(i).skip(1));
            assert(d.take(i - 1) =~= b.take(i).skip(1));
        }
    }
}

/// A name stands before another one if its bytes in UTF-8 do: at the first place where they differ
/// its byte is the smaller number, or it is the beginning of the other one.
pub proof fn lemma_name_order(a: Seq<char>, b: Seq<char>)
    ensures
        ({
            let x = encode_utf8(a);
            let y = encode_utf8(b);
            name_before(a, b) <==> exists|i: int|
                {
                    &&& 0 <= i <= x.len()
                    &&& i < y.len()
                    &&& #[trigger] x.take(i) == y.take(i)
                    &&& i == x.len() || x[i] < y[i]
                }
        }),
{
    lemma_bytes_order(encode_utf8(a), encode_utf8(b));
}

} // verus!
