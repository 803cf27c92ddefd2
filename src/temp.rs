use vstd::prelude::*;

verus! {

pub open spec fn is_digit(b: u8) -> bool {
    48 <= b <= 57
}

pub open spec fn digit_value(b: u8) -> int {
    b - 48
}

/// Magnitude, in tenths, of an unsigned temperature `D.D` or `DD.D`.
pub open spec fn magnitude(s: Seq<u8>) -> Option<int> {
    if s.len() == 3 && is_digit(s[0]) && s[1] == 46u8 && is_digit(s[2]) {
        Some(digit_value(s[0]) * 10 + digit_value(s[2]))
    } else if s.len() == 4 && is_digit(s[0]) && is_digit(s[1]) && s[2] == 46u8 && is_digit(s[3]) {
        Some(digit_value(s[0]) * 100 + digit_value(s[1]) * 10 + digit_value(s[3]))
    } else {
        None
    }
}

/// The value in tenths of a degree of a temperature field `[-]?[0-9]{1,2}\.[0-9]`,
/// or `None` where the bytes do not match that grammar.
pub open spec fn temp_value(s: Seq<u8>) -> Option<int> {
    if s.len() > 0 && s[0] == 45u8 {
        match magnitude(s.drop_first()) {
            Some(m) => Some(-m),
            None => None,
        }
    } else {
        magnitude(s)
    }
}

/// A temperature is within -99.9..=99.9.
pub proof fn lemma_temp_value_range(s: Seq<u8>)
    ensures
        temp_value(s) matches Some(v) ==> -999 <= v <= 999,
{
}

fn parse_magnitude(s: &[u8], from: usize) -> (r: Option<i64>)
    requires
        from <= s@.len(),
    ensures
        r matches Some(v) <==> magnitude(s@.subrange(from as int, s@.len() as int)) is Some,
        r matches Some(v) ==> magnitude(s@.subrange(from as int, s@.len() as int)) == Some(v as int),
{
    let n = s.len() - from;
    let ghost t = s@.subrange(from as int, s@.len() as int);
    if n == 3 {
        let a = s[from];
        let b = s[from + 1];
        let c = s[from + 2];
        assert(t[0] == a && t[1] == b && t[2] == c);
        if 48 <= a && a <= 57 && b == 46 && 48 <= c && c <= 57 {
            Some((a - 48) as i64 * 10 + (c - 48) as i64)
        } else {
            None
        }
    } else if n == 4 {
        let a = s[from];
        let b = s[from + 1];
        let c = s[from + 2];
        let d = s[from + 3];
        assert(t[0] == a && t[1] == b && t[2] == c && t[3] == d);
        if 48 <= a && a <= 57 && 48 <= b && b <= 57 && c == 46 && 48 <= d && d <= 57 {
            Some((a - 48) as i64 * 100 + (b - 48) as i64 * 10 + (d - 48) as i64)
        } else {
            None
        }
    } else {
        None
    }
}

/// Parses a temperature field into tenths of a degree.
pub fn parse_temp(s: &[u8]) -> (r: Option<i64>)
    ensures
        r matches Some(v) <==> temp_value(s@) is Some,
        r matches Some(v) ==> temp_value(s@) == Some(v as int),
        r matches Some(v) ==> -999 <= v <= 999,
{
    if s.len() > 0 && s[0] == 45 {
        assert(s@.drop_first() == s@.subrange(1, s@.len() as int));
        match parse_magnitude(s, 1) {
            Some(m) => Some(-m),
            None => None,
        }
    } else {
        assert(s@ == s@.subrange(0, s@.len() as int));
        parse_magnitude(s, 0)
    }
}

} // verus!
