use vstd::prelude::*;
use crate::bytes::{absent, find_byte_in};
use crate::stat::MAX_COUNT;
use crate::stat::{combine, empty_stat, Stat};
use crate::table::{add_reading, Table};
use crate::temp::{parse_temp, temp_value};
use crate::Error;

verus! {

/// Number of bytes from `pos` up to the first `b` in `[pos, end)`, or up to `end`.
pub open spec fn dist_to(s: Seq<u8>, b: u8, pos: int, end: int) -> nat
    decreases end - pos,
{
    if pos >= end || s[pos] == b {
        0
    } else {
        1 + dist_to(s, b, pos + 1, end)
    }
}

/// First position in `[pos, end)` that holds `b`, or `end` where none does.
pub open spec fn next_of(s: Seq<u8>, b: u8, pos: int, end: int) -> int {
    pos + dist_to(s, b, pos, end)
}

pub proof fn lemma_next_of_is(s: Seq<u8>, b: u8, pos: int, end: int, i: int)
    requires
        pos <= i <= end,
        absent(s, pos, i, b),
        i == end || s[i] == b,
    ensures
        next_of(s, b, pos, end) == i,
    decreases i - pos,
{
    if pos < i {
        lemma_next_of_is(s, b, pos + 1, end, i);
        assert(dist_to(s, b, pos, end) == 1 + dist_to(s, b, pos + 1, end));
    }
}

/// The station name and temperature, in tenths, of one record `NAME;TEMP`
/// (its newline excluded), or `None` where it breaks the grammar.
pub open spec fn record_value(r: Seq<u8>) -> Option<(Seq<u8>, int)> {
    let k = next_of(r, 59u8, 0, r.len() as int);
    if k < r.len() && 1 <= k <= 100 {
        match temp_value(r.subrange(k + 1, r.len() as int)) {
            Some(v) => Some((r.subrange(0, k), v)),
            None => None,
        }
    } else {
        None
    }
}

/// Offset of the first record in `[pos, end)` that breaks the grammar, or
/// `end` where every record is well formed. Records end at a newline or at `end`.
pub open spec fn first_bad(data: Seq<u8>, pos: int, end: int) -> int
    decreases end - pos,
{
    if pos >= end {
        end
    } else {
        let e = next_of(data, 10u8, pos, end);
        if record_value(data.subrange(pos, e)) is None {
            pos
        } else if e >= end {
            end
        } else {
            first_bad(data, e + 1, end)
        }
    }
}

/// The `(name, tenths)` readings of the records in `[pos, end)`, up to the
/// first record that breaks the grammar.
pub open spec fn readings(data: Seq<u8>, pos: int, end: int) -> Seq<(Seq<u8>, int)>
    decreases end - pos,
{
    if pos >= end {
        seq![]
    } else {
        let e = next_of(data, 10u8, pos, end);
        match record_value(data.subrange(pos, e)) {
            None => seq![],
            Some(x) => if e >= end {
                seq![x]
            } else {
                seq![x] + readings(data, e + 1, end)
            },
        }
    }
}

/// Some reading among `rs` is of station `k`.
pub open spec fn names_in(rs: Seq<(Seq<u8>, int)>, k: Seq<u8>) -> bool {
    exists|i: int| 0 <= i < rs.len() && #[trigger] rs[i].0 == k
}

pub proof fn lemma_next_of_within(s: Seq<u8>, b: u8, pos: int, m: int, end: int)
    requires
        pos < m <= end,
        s[m - 1] == b,
    ensures
        next_of(s, b, pos, m) == next_of(s, b, pos, end),
        next_of(s, b, pos, m) < m,
    decreases m - pos,
{
    if s[pos] != b {
        lemma_next_of_within(s, b, pos + 1, m, end);
        assert(dist_to(s, b, pos, m) == 1 + dist_to(s, b, pos + 1, m));
        assert(dist_to(s, b, pos, end) == 1 + dist_to(s, b, pos + 1, end));
    }
}

/// A range boundary placed just after a newline does not change how records
/// are read: the readings of `[pos, end)` are those of `[pos, m)` followed by
/// those of `[m, end)`, and the first bad record is found at the same offset.
pub proof fn lemma_split_at_line(data: Seq<u8>, pos: int, m: int, end: int)
    requires
        pos <= m <= end,
        m == pos || m == end || data[m - 1] == 10u8,
        first_bad(data, pos, m) == m,
    ensures
        readings(data, pos, end) == readings(data, pos, m) + readings(data, m, end),
        first_bad(data, pos, end) == first_bad(data, m, end),
    decreases m - pos,
{
    if pos == m {
        assert(readings(data, pos, m) =~= seq![]);
        assert(readings(data, pos, end) =~= readings(data, pos, m) + readings(data, m, end));
    } else if m == end {
        assert(readings(data, m, end) =~= seq![]);
        assert(readings(data, pos, end) =~= readings(data, pos, m) + readings(data, m, end));
        assert(first_bad(data, m, end) == end);
    } else {
        lemma_next_of_within(data, 10u8, pos, m, end);
        let e = next_of(data, 10u8, pos, end);
        let x = record_value(data.subrange(pos, e));
        assert(x is Some);
        if e + 1 == m {
            assert(readings(data, pos, m) == seq![x->0] + readings(data, m, m));
            assert(readings(data, pos, m) =~= seq![x->0]);
        } else {
            lemma_split_at_line(data, e + 1, m, end);
            assert(readings(data, pos, end) =~= readings(data, pos, m) + readings(data, m, end));
        }
    }
}

/// A bad record before a line boundary `m` is the first bad record of `[pos, end)` too.
pub proof fn lemma_first_bad_before(data: Seq<u8>, pos: int, m: int, end: int)
    requires
        pos <= m <= end,
        m == end || data[m - 1] == 10u8,
        first_bad(data, pos, m) < m,
    ensures
        first_bad(data, pos, end) == first_bad(data, pos, m),
    decreases m - pos,
{
    if m < end {
        lemma_next_of_within(data, 10u8, pos, m, end);
        let e = next_of(data, 10u8, pos, end);
        if record_value(data.subrange(pos, e)) is Some {
            lemma_first_bad_before(data, e + 1, m, end);
        }
    }
}

/// There are no more readings than bytes.
pub proof fn lemma_readings_len(data: Seq<u8>, pos: int, end: int)
    requires
        pos <= end,
    ensures
        readings(data, pos, end).len() <= end - pos,
    decreases end - pos,
{
    if pos < end {
        let e = next_of(data, 10u8, pos, end);
        if record_value(data.subrange(pos, e)) is Some && e < end {
            lemma_readings_len(data, e + 1, end);
        }
    }
}

/// Running statistic of station `k` over the readings `rs`; count 0 where
/// `k` has none.
pub open spec fn stat_of(rs: Seq<(Seq<u8>, int)>, k: Seq<u8>) -> Stat
    decreases rs.len(),
{
    if rs.len() == 0 {
        empty_stat()
    } else {
        let p = stat_of(rs.drop_last(), k);
        let x = rs.last();
        if x.0 != k {
            p
        } else if p.count == 0 {
            Stat::new_spec(x.1 as i64)
        } else {
            add_reading(p, x.1)
        }
    }
}

/// Every reading is within -99.9..=99.9.
pub open spec fn temps_ok(rs: Seq<(Seq<u8>, int)>) -> bool {
    forall|i: int| 0 <= i < rs.len() ==> -999 <= #[trigger] rs[i].1 <= 999
}

/// `s` is a statistic of at most `n` readings within -99.9..=99.9, and the
/// empty statistic when it has none.
pub open spec fn bounded(s: Stat, n: int) -> bool {
    &&& s.count <= n
    &&& s.count == 0 ==> s == empty_stat()
    &&& s.count > 0 ==> -999 <= s.min <= s.max <= 999 && -999 * s.count <= s.sum <= 999 * s.count
}

pub proof fn lemma_stat_of_bounded(rs: Seq<(Seq<u8>, int)>, k: Seq<u8>)
    requires
        temps_ok(rs),
        rs.len() <= MAX_COUNT,
    ensures
        bounded(stat_of(rs, k), rs.len() as int),
    decreases rs.len(),
{
    if rs.len() > 0 {
        let d = rs.drop_last();
        assert forall|i: int| 0 <= i < d.len() implies -999 <= #[trigger] d[i].1 <= 999 by {
            assert(d[i] == rs[i]);
        }
        lemma_stat_of_bounded(d, k);
        assert(-999 <= rs[rs.len() - 1].1 <= 999);
        let p = stat_of(d, k);
        assert(999 * MAX_COUNT < 0x7fff_ffff_ffff_ffff);
        assert(999 * (p.count + 1) <= 999 * MAX_COUNT) by (nonlinear_arith)
            requires p.count + 1 <= MAX_COUNT;
    }
}

pub proof fn lemma_temps_ok_concat(a: Seq<(Seq<u8>, int)>, b: Seq<(Seq<u8>, int)>)
    requires
        temps_ok(a + b),
    ensures
        temps_ok(a),
        temps_ok(b),
{
    assert forall|i: int| 0 <= i < a.len() implies -999 <= #[trigger] a[i].1 <= 999 by {
        assert((a + b)[i] == a[i]);
    }
    assert forall|i: int| 0 <= i < b.len() implies -999 <= #[trigger] b[i].1 <= 999 by {
        assert((a + b)[a.len() + i] == b[i]);
    }
}

/// The statistic of a station over two runs of readings is the combination of
/// its statistics over each run.
pub proof fn lemma_stat_of_concat(acc: Seq<(Seq<u8>, int)>, rs: Seq<(Seq<u8>, int)>, k: Seq<u8>)
    requires
        temps_ok(acc + rs),
        (acc + rs).len() <= MAX_COUNT,
    ensures
        stat_of(acc + rs, k) == combine(stat_of(acc, k), stat_of(rs, k)),
    decreases rs.len(),
{
    lemma_temps_ok_concat(acc, rs);
    lemma_stat_of_bounded(acc, k);
    lemma_stat_of_bounded(rs, k);
    lemma_stat_of_bounded(acc + rs, k);
    if rs.len() == 0 {
        assert(acc + rs =~= acc);
    } else {
        let d = rs.drop_last();
        assert((acc + rs).drop_last() =~= acc + d);
        assert((acc + rs).last() == rs.last());
        assert(temps_ok(acc + d)) by {
            assert forall|i: int| 0 <= i < (acc + d).len() implies -999 <= #[trigger] (acc + d)[i].1 <= 999 by {
                assert((acc + d)[i] == (acc + rs)[i]);
            }
        }
        lemma_stat_of_concat(acc, d, k);
        lemma_temps_ok_concat(acc, d);
        lemma_stat_of_bounded(d, k);
        lemma_stat_of_bounded(acc + d, k);
        let a = stat_of(acc, k);
        let p = stat_of(d, k);
        assert(-999 <= rs.last().1 <= 999);
        assert(999 * (a.count + p.count + 1) <= 999 * MAX_COUNT) by (nonlinear_arith)
            requires a.count + p.count + 1 <= MAX_COUNT;
        assert(999 * MAX_COUNT < 0x7fff_ffff_ffff_ffff);
    }
}

pub proof fn lemma_readings_temps(data: Seq<u8>, pos: int, end: int)
    ensures
        temps_ok(readings(data, pos, end)),
    decreases end - pos,
{
    if pos < end {
        let e = next_of(data, 10u8, pos, end);
        let r = data.subrange(pos, e);
        let k = next_of(r, 59u8, 0, r.len() as int);
        crate::temp::lemma_temp_value_range(r.subrange(k + 1, r.len() as int));
        if record_value(r) is Some && e < end {
            lemma_readings_temps(data, e + 1, end);
            let rs = readings(data, e + 1, end);
            let all = readings(data, pos, end);
            assert forall|i: int| 0 <= i < all.len() implies -999 <= #[trigger] all[i].1 <= 999 by {
                if i > 0 {
                    assert(all[i] == rs[i - 1]);
                }
            }
        }
    }
}

pub proof fn lemma_stat_of_absent(rs: Seq<(Seq<u8>, int)>, k: Seq<u8>)
    requires
        !names_in(rs, k),
    ensures
        stat_of(rs, k).count == 0,
    decreases rs.len(),
{
    if rs.len() > 0 {
        assert forall|i: int| 0 <= i < rs.drop_last().len() implies #[trigger] rs.drop_last()[i].0 != k by {
            assert(rs[i] == rs.drop_last()[i]);
        }
        assert(rs[rs.len() - 1].0 != k);
        lemma_stat_of_absent(rs.drop_last(), k);
    }
}

proof fn lemma_next_of_take(full: Seq<u8>, pos: int)
    requires
        full.len() >= 1,
        full[full.len() - 1] == 10u8,
        0 <= pos < full.len(),
    ensures
        next_of(full.take(full.len() - 1), 10u8, pos, full.len() - 1) == next_of(full, 10u8, pos, full.len() as int),
    decreases full.len() - pos,
{
    let n = full.len() as int;
    let inp = full.take(n - 1);
    if pos < n - 1 {
        assert(inp[pos] == full[pos]);
        if full[pos] != 10u8 {
            lemma_next_of_take(full, pos + 1);
            assert(dist_to(inp, 10u8, pos, n - 1) == 1 + dist_to(inp, 10u8, pos + 1, n - 1));
            assert(dist_to(full, 10u8, pos, n) == 1 + dist_to(full, 10u8, pos + 1, n));
        }
    }
}

/// A file whose last record lacks its newline reads as the same records as
/// the file with that newline: the unterminated last line is a record.
pub proof fn lemma_final_newline_optional(full: Seq<u8>, pos: int)
    requires
        full.len() >= 1,
        full[full.len() - 1] == 10u8,
        0 <= pos <= full.len() - 1,
    ensures
        readings(full.take(full.len() - 1), pos, full.len() - 1) == readings(full, pos, full.len() as int),
        first_bad(full.take(full.len() - 1), pos, full.len() - 1) == if first_bad(full, pos, full.len() as int)
            == full.len() { full.len() - 1 } else { first_bad(full, pos, full.len() as int) },
    decreases full.len() - pos,
{
    let n = full.len() as int;
    let inp = full.take(n - 1);
    if pos == n - 1 {
        assert(next_of(full, 10u8, pos, n) == pos);
        assert(full.subrange(pos, pos) =~= Seq::<u8>::empty());
        assert(record_value(full.subrange(pos, pos)) is None);
    } else {
        lemma_next_of_take(full, pos);
        let e = next_of(full, 10u8, pos, n);
        lemma_next_of_within(full, 10u8, pos, n, n);
        assert(next_of(inp, 10u8, pos, n - 1) == e);
        assert(inp.subrange(pos, e) =~= full.subrange(pos, e));
        if record_value(full.subrange(pos, e)) is None {
            assert(first_bad(full, pos, n) == pos);
            assert(first_bad(inp, pos, n - 1) == pos);
        } else if e < n - 1 {
            lemma_final_newline_optional(full, e + 1);
            assert(first_bad(full, pos, n) == first_bad(full, e + 1, n));
            assert(first_bad(inp, pos, n - 1) == first_bad(inp, e + 1, n - 1));
        } else {
            assert(readings(full, n, n) =~= Seq::<(Seq<u8>, int)>::empty());
            assert(first_bad(full, n, n) == n);
            assert(first_bad(full, pos, n) == n);
            assert(first_bad(inp, pos, n - 1) == n - 1);
        }
    }
}

pub proof fn lemma_first_bad_bounds(data: Seq<u8>, pos: int, end: int)
    requires
        pos <= end,
    ensures
        pos <= first_bad(data, pos, end) <= end,
    decreases end - pos,
{
    if pos < end {
        let e = next_of(data, 10u8, pos, end);
        if record_value(data.subrange(pos, e)) is Some && e < end {
            lemma_first_bad_bounds(data, e + 1, end);
        }
    }
}

proof fn lemma_names_distinct(t: Table, i: int, j: int)
    requires
        t.wf(),
        0 <= i < t.len_spec(),
        0 <= j < t.len_spec(),
    ensures
        t.name(i) == t.name(j) <==> i == j,
{
    if i < j {
        crate::table::lemma_lex_irreflexive(t.name(i));
    } else if j < i {
        crate::table::lemma_lex_irreflexive(t.name(j));
    }
}

/// Parses every record of `data[start..end)` into a fresh table.
#[verifier::rlimit(60)]
pub fn scan_range(data: &[u8], start: usize, end: usize) -> (r: Result<Table, Error>)
    requires
        start <= end <= data@.len(),
        end - start < MAX_COUNT,
    ensures
        r is Ok <==> first_bad(data@, start as int, end as int) == end,
        r matches Err(e) ==> e == (Error::MalformedRecord { offset: first_bad(data@, start as int, end as int) as usize }),
        r matches Ok(t) ==> t.wf(),
        r matches Ok(t) ==> forall|i: int| 0 <= i < t.len_spec()
            ==> #[trigger] t.stats@[i] == stat_of(readings(data@, start as int, end as int), t.name(i)),
        r matches Ok(t) ==> t.total() == readings(data@, start as int, end as int).len(),
        r matches Ok(t) ==> forall|k: Seq<u8>| #[trigger] t.has(k)
            <==> names_in(readings(data@, start as int, end as int), k),
        r matches Err(e) ==> e matches Error::MalformedRecord { offset } && start <= offset < end,
{
    proof {
        lemma_first_bad_bounds(data@, start as int, end as int);
    }
    let mut table = Table::new();
    let mut pos: usize = start;
    let ghost mut done: Seq<(Seq<u8>, int)> = seq![];
    assert(readings(data@, start as int, end as int) =~= done + readings(data@, pos as int, end as int));
    while pos < end
        invariant
            readings(data@, start as int, end as int) == done + readings(data@, pos as int, end as int),
            table.total() == done.len(),
            forall|i: int| 0 <= i < table.len_spec() ==> #[trigger] table.stats@[i] == stat_of(done, table.name(i)),
            forall|k: Seq<u8>| #[trigger] table.has(k) <==> names_in(done, k),
            start <= pos <= end <= data@.len(),
            end - start < MAX_COUNT,
            table.wf(),
            first_bad(data@, start as int, end as int) == first_bad(data@, pos as int, end as int),
            forall|i: int| 0 <= i < table.len_spec() ==> (#[trigger] table.stats@[i]).count <= pos - start,
        decreases end - pos,
    {
        let e = match find_byte_in(data, pos, end, 10) {
            Some(i) => i,
            None => end,
        };
        proof {
            lemma_next_of_is(data@, 10u8, pos as int, end as int, e as int);
        }
        let ghost rec = data@.subrange(pos as int, e as int);
        let k = match find_byte_in(data, pos, e, 59) {
            Some(i) => i,
            None => e,
        };
        proof {
            assert(absent(rec, 0, k - pos, 59u8)) by {
                assert forall|j: int| 0 <= j < k - pos implies rec[j] != 59u8 by {
                    assert(rec[j] == data@[pos + j]);
                }
            }
            if k < e {
                assert(rec[k - pos] == data@[k as int]);
            }
            lemma_next_of_is(rec, 59u8, 0, rec.len() as int, k - pos);
        }
        if k >= e || k - pos < 1 || k - pos > 100 {
            return Err(Error::MalformedRecord { offset: pos });
        }
        let field = vstd::slice::slice_subrange(data, k + 1, e);
        assert(field@ == rec.subrange(k - pos + 1, rec.len() as int));
        let t = match parse_temp(field) {
            Some(t) => t,
            None => {
                return Err(Error::MalformedRecord { offset: pos });
            },
        };
        let name = vstd::slice::slice_subrange(data, pos, k);
        let ghost before = table;
        let at = table.update(name, t);
        proof {
            assert forall|i: int| 0 <= i < table.len_spec() implies (#[trigger] table.stats@[i]).count <= pos + 1 - start by {
                if before.has(name@) {
                    if i != at {
                        assert(table.stats@[i] == before.stats@[i]);
                    }
                } else if i < at {
                    assert(table.stats@[i] == before.stats@[i]);
                } else if i > at {
                    assert(table.stats@[i] == before.stats@[i - 1]);
                }
            }
        }
        proof {
            assert(temp_value(rec.subrange(k - pos + 1, rec.len() as int)) == Some(t as int));
            assert(record_value(rec) is Some);
            let x = (name@, t as int);
            assert(record_value(rec) == Some(x));
            if e < end {
                assert(first_bad(data@, pos as int, end as int) == first_bad(data@, e + 1, end as int));
                assert(readings(data@, pos as int, end as int) == seq![x] + readings(data@, e + 1, end as int));
                assert(readings(data@, start as int, end as int) =~= done.push(x) + readings(data@, e + 1, end as int));
            } else {
                assert(first_bad(data@, pos as int, end as int) == end);
                assert(readings(data@, pos as int, end as int) == seq![x]);
                assert(readings(data@, start as int, end as int) =~= done.push(x) + readings(data@, end as int, end as int));
            }
            assert forall|k: Seq<u8>| #[trigger] table.has(k) <==> names_in(done.push(x), k) by {
                if names_in(done.push(x), k) {
                    let i = choose|i: int| 0 <= i < done.len() + 1 && #[trigger] done.push(x)[i].0 == k;
                    if i < done.len() {
                        assert(done[i].0 == k);
                    }
                }
                if names_in(done, k) {
                    let i = choose|i: int| 0 <= i < done.len() && #[trigger] done[i].0 == k;
                    assert(done.push(x)[i].0 == k);
                }
                if k == name@ {
                    assert(done.push(x)[done.len() as int].0 == k);
                }
            }
            assert(done.push(x).drop_last() =~= done);
            assert forall|i: int| 0 <= i < table.len_spec() implies #[trigger] table.stats@[i] == stat_of(done.push(x), table.name(i)) by {
                let ki = table.name(i);
                if before.has(name@) {
                    if ki == name@ {
                        lemma_names_distinct(table, i, at as int);
                        assert(before.stats@[i].wf());
                    } else {
                        lemma_names_distinct(table, i, at as int);
                        assert(before.name(i) == ki);
                    }
                } else {
                    if i == at {
                        assert(!names_in(done, name@));
                        lemma_stat_of_absent(done, name@);
                    } else if i < at {
                        assert(before.name(i) == ki);
                        assert(table.stats@[i] == before.stats@[i]);
                    } else {
                        assert(before.name(i - 1) == ki);
                        assert(table.stats@[i] == before.stats@[i - 1]);
                    }
                }
            }
            done = done.push(x);
        }
        pos = if e < end { e + 1 } else { end };
    }
    assert(done + readings(data@, pos as int, end as int) =~= done);
    Ok(table)
}

} // verus!
