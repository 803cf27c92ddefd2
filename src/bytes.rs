use vstd::prelude::*;
use bstr::ByteSlice;

verus! {

/// No byte of `s` in `[from, to)` equals `b`.
pub open spec fn absent(s: Seq<u8>, from: int, to: int, b: u8) -> bool {
    forall|j: int| from <= j < to ==> s[j] != b
}

/// Relies on bstr's `ByteSlice::find_byte`: the index of the first occurrence
/// of `b` in `s`, or `None` where `b` does not occur.
#[verifier::external_body]
fn find_byte(s: &[u8], b: u8) -> (r: Option<usize>)
    ensures
        r matches Some(i) ==> i < s@.len() && s@[i as int] == b && absent(s@, 0, i as int, b),
        r is None ==> absent(s@, 0, s@.len() as int, b),
{
    s.find_byte(b)
}

/// The index of the first `b` in `data[from..to)`, or `None` where there is none.
pub fn find_byte_in(data: &[u8], from: usize, to: usize, b: u8) -> (r: Option<usize>)
    requires
        from <= to <= data@.len(),
    ensures
        r matches Some(i) ==> from <= i < to && data@[i as int] == b && absent(data@, from as int, i as int, b),
        r is None ==> absent(data@, from as int, to as int, b),
{
    let part = vstd::slice::slice_subrange(data, from, to);
    match find_byte(part, b) {
        Some(i) => {
            assert forall|j: int| from <= j < from + i implies data@[j] != b by {
                assert(part@[j - from] == data@[j]);
            }
            assert(part@[i as int] == data@[from + i]);
            Some(from + i)
        },
        None => {
            assert forall|j: int| from <= j < to implies data@[j] != b by {
                assert(part@[j - from] == data@[j]);
            }
            None
        },
    }
}

} // verus!
