use vstd::prelude::*;
use crate::bytes::{absent, find_byte_in};

verus! {

/// The ranges tile `[0, len)` in order, none is empty, and every range but the
/// last ends just after a newline that lies at or beyond `c` bytes into it,
/// with no newline between that point and its end.
pub open spec fn ranges_ok(data: Seq<u8>, c: int, r: Seq<(usize, usize)>) -> bool {
    &&& r.len() > 0 ==> r[0].0 == 0 && r[r.len() - 1].1 == data.len()
    &&& forall|i: int| 0 <= i < r.len() - 1 ==> #[trigger] r[i].1 == r[i + 1].0
    &&& forall|i: int| 0 <= i < r.len() ==> #[trigger] r[i].0 < r[i].1
    &&& forall|i: int| 0 <= i < r.len() - 1 ==> line_end(data, c, #[trigger] r[i])
}

/// `rg` ends just past the first newline at or after `rg.0 + c`.
pub open spec fn line_end(data: Seq<u8>, c: int, rg: (usize, usize)) -> bool {
    &&& rg.0 + c < rg.1 <= data.len()
    &&& data[rg.1 - 1] == 10u8
    &&& absent(data, rg.0 + c, rg.1 - 1, 10u8)
}

/// Splits `data` into at most `n` line-aligned ranges of about `data.len() / n`
/// bytes each. An empty input gives no range.
#[verifier::rlimit(30)]
pub fn split_ranges(data: &[u8], n: usize) -> (r: Vec<(usize, usize)>)
    requires
        n >= 1,
    ensures
        data@.len() == 0 <==> r@.len() == 0,
        r@.len() <= n,
        ranges_ok(data@, data@.len() as int / n as int, r@),
        data@.len() < n ==> r@.len() <= 1,
        0 < r@.len() < n ==> {
            let c = data@.len() as int / n as int;
            ||| data@.len() < n
            ||| r@.last().0 + c >= data@.len()
            ||| absent(data@, r@.last().0 + c, data@.len() - 1, 10u8)
        },
{
    let mut ranges: Vec<(usize, usize)> = Vec::new();
    let len = data.len();
    if len == 0 {
        return ranges;
    }
    let c = len / n;
    assert((c == 0) <==> (len < n)) by (nonlinear_arith)
        requires c == len / n, n >= 1, len >= 1;
    let ghost cc = c as int;
    let mut s: usize = 0;
    let mut stop = c == 0;
    while !stop && ranges.len() + 1 < n
        invariant
            len == data@.len(),
            c == len / n,
            cc == c,
            s < len,
            ranges@.len() < n,
            ranges@.len() == 0 ==> s == 0,
            ranges@.len() > 0 ==> ranges@[0].0 == 0 && ranges@[ranges@.len() - 1].1 == s,
            forall|i: int| 0 <= i < ranges@.len() - 1 ==> #[trigger] ranges@[i].1 == ranges@[i + 1].0,
            forall|i: int| 0 <= i < ranges@.len() ==> #[trigger] ranges@[i].0 < ranges@[i].1,
            forall|i: int| 0 <= i < ranges@.len() ==> line_end(data@, cc, #[trigger] ranges@[i]),
            (c == 0) <==> (len < n),
            c == 0 ==> ranges@.len() == 0 && stop,
            stop ==> c == 0 || s + c >= len || absent(data@, s + cc, len - 1, 10u8),
        decreases n - ranges@.len(), (if stop { 0int } else { 1int }),
    {
        if c >= len - s {
            stop = true;
        } else {
            match find_byte_in(data, s + c, len, 10) {
                None => {
                    stop = true;
                },
                Some(i) => {
                    if i + 1 >= len {
                        assert(absent(data@, s + cc, len - 1, 10u8));
                        ranges.push((s, len));
                        assert(line_end(data@, cc, ranges@[ranges@.len() - 1]));
                        return ranges;
                    }
                    ranges.push((s, i + 1));
                    assert(line_end(data@, cc, ranges@[ranges@.len() - 1]));
                    s = i + 1;
                },
            }
        }
    }
    ranges.push((s, len));
    assert(ranges@.last().0 == s);
    ranges
}

} // verus!
