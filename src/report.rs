use vstd::prelude::*;
use crate::stat::Stat;
use crate::scan::{
    first_bad, lemma_first_bad_before, lemma_readings_len, lemma_readings_temps, lemma_split_at_line,
    lemma_stat_of_absent, lemma_stat_of_bounded, lemma_stat_of_concat, lemma_temps_ok_concat, names_in,
    readings, scan_range, stat_of,
};
use crate::split::{ranges_ok, split_ranges};
use crate::stat::{combine, empty_stat, MAX_COUNT};
use crate::table::{counts, lemma_counts_nonneg, lemma_counts_prefix, lex_lt, Table};
use crate::Error;

verus! {

/// A value in tenths written with one fractional digit: `-12.3`, `0.0`, `99.9`.
pub open spec fn tenths_text(v: int) -> Seq<u8> {
    let a = if v < 0 { -v } else { v };
    let ip = a / 10;
    let sign: Seq<u8> = if v < 0 { seq![45u8] } else { seq![] };
    let whole: Seq<u8> = if ip >= 10 {
        seq![(48 + ip / 10) as u8, (48 + ip % 10) as u8]
    } else {
        seq![(48 + ip) as u8]
    };
    sign + whole + seq![46u8, (48 + a % 10) as u8]
}

/// `NAME=MIN/MEAN/MAX`.
pub open spec fn entry_text(name: Seq<u8>, s: Stat) -> Seq<u8> {
    name + seq![61u8] + tenths_text(s.min as int) + seq![47u8] + tenths_text(s.mean_spec())
        + seq![47u8] + tenths_text(s.max as int)
}

/// The first `n` entries of `t`, separated by `, `.
pub open spec fn entries_text(t: Table, n: int) -> Seq<u8>
    decreases n,
{
    if n <= 0 {
        seq![]
    } else {
        let sep: Seq<u8> = if n > 1 { seq![44u8, 32u8] } else { seq![] };
        entries_text(t, n - 1) + sep + entry_text(t.name(n - 1), t.stats@[n - 1])
    }
}

/// The report line: `{` then every entry in table order, then `}`. The
/// terminating newline is left to whoever writes the line out.
pub open spec fn report_text(t: Table) -> Seq<u8> {
    seq![123u8] + entries_text(t, t.len_spec()) + seq![125u8]
}

/// Appends `tenths_text(v)`.
pub fn push_tenths(out: &mut Vec<u8>, v: i64)
    requires
        -999 <= v <= 999,
    ensures
        final(out)@ == old(out)@ + tenths_text(v as int),
{
    let a: i64 = if v < 0 { -v } else { v };
    let ip = a / 10;
    if v < 0 {
        out.push(45);
    }
    if ip >= 10 {
        out.push((48 + ip / 10) as u8);
        out.push((48 + ip % 10) as u8);
    } else {
        out.push((48 + ip) as u8);
    }
    out.push(46);
    out.push((48 + a % 10) as u8);
    assert(final(out)@ =~= old(out)@ + tenths_text(v as int));
}

/// Appends the bytes of `s`.
pub fn push_bytes(out: &mut Vec<u8>, s: &[u8])
    ensures
        final(out)@ == old(out)@ + s@,
{
    let ghost start = out@;
    let mut i: usize = 0;
    while i < s.len()
        invariant
            i <= s@.len(),
            out@ == start + s@.subrange(0, i as int),
        decreases s@.len() - i,
    {
        out.push(s[i]);
        i = i + 1;
        assert(out@ =~= start + s@.subrange(0, i as int));
    }
    assert(s@.subrange(0, s@.len() as int) =~= s@);
}

/// Appends `entry_text(name, s)`.
fn push_entry(out: &mut Vec<u8>, name: &[u8], s: Stat)
    requires
        s.wf(),
    ensures
        final(out)@ == old(out)@ + entry_text(name@, s),
{
    push_bytes(out, name);
    out.push(61);
    push_tenths(out, s.min);
    out.push(47);
    let m = s.mean();
    push_tenths(out, m);
    out.push(47);
    push_tenths(out, s.max);
    assert(final(out)@ =~= old(out)@ + entry_text(name@, s));
}

/// Renders the summary line `{NAME=MIN/MEAN/MAX, ...}` in table order,
/// without the terminating newline.
pub fn render(t: &Table) -> (r: Vec<u8>)
    requires
        t.wf(),
    ensures
        r@ == report_text(*t),
{
    let mut out: Vec<u8> = Vec::new();
    out.push(123);
    let n = t.len();
    let mut i: usize = 0;
    while i < n
        invariant
            t.wf(),
            n == t.len_spec(),
            i <= n,
            out@ == seq![123u8] + entries_text(*t, i as int),
        decreases n - i,
    {
        let ghost before = out@;
        if i > 0 {
            out.push(44);
            out.push(32);
        }
        let s = t.stats[i];
        assert(s.wf());
        push_entry(&mut out, t.names[i].as_slice(), s);
        i = i + 1;
        assert(out@ =~= seq![123u8] + entries_text(*t, i as int));
    }
    out.push(125);
    assert(out@ =~= report_text(*t));
    out
}

/// Number of readings over all tables.
pub open spec fn tables_total(ts: Seq<Table>) -> int
    decreases ts.len(),
{
    if ts.len() == 0 {
        0
    } else {
        tables_total(ts.drop_last()) + ts.last().total()
    }
}

pub proof fn lemma_tables_total_nonneg(ts: Seq<Table>)
    ensures
        tables_total(ts) >= 0,
    decreases ts.len(),
{
    if ts.len() > 0 {
        lemma_tables_total_nonneg(ts.drop_last());
        lemma_counts_nonneg(ts.last().stats@);
    }
}

pub proof fn lemma_tables_total_prefix(ts: Seq<Table>, w: int)
    requires
        0 <= w < ts.len(),
    ensures
        tables_total(ts.take(w + 1)) == tables_total(ts.take(w)) + ts[w].total(),
        tables_total(ts.take(w + 1)) <= tables_total(ts),
    decreases ts.len(),
{
    assert(ts.take(w + 1).drop_last() =~= ts.take(w));
    if w + 1 == ts.len() {
        assert(ts.take(w + 1) =~= ts);
    } else {
        assert(ts.drop_last().take(w + 1) =~= ts.take(w + 1));
        assert(ts.drop_last().take(w) =~= ts.take(w));
        lemma_tables_total_prefix(ts.drop_last(), w);
        lemma_counts_nonneg(ts.last().stats@);
    }
}

/// Statistic of station `k` over all tables: their statistics for `k`
/// combined in table order.
pub open spec fn merged_stat(ts: Seq<Table>, k: Seq<u8>) -> Stat
    decreases ts.len(),
{
    if ts.len() == 0 {
        empty_stat()
    } else {
        combine(merged_stat(ts.drop_last(), k), ts.last().stat_for(k))
    }
}

/// Statistic of station `k` among the first `j` entries of `t`.
pub open spec fn prefix_stat(t: Table, j: int, k: Seq<u8>) -> Stat
    decreases j,
{
    if j <= 0 {
        empty_stat()
    } else if t.name(j - 1) == k {
        t.stats@[j - 1]
    } else {
        prefix_stat(t, j - 1, k)
    }
}

proof fn lemma_prefix_stat(t: Table, j: int, k: Seq<u8>)
    requires
        t.wf(),
        0 <= j <= t.len_spec(),
    ensures
        (forall|m: int| 0 <= m < j ==> #[trigger] t.name(m) != k) ==> prefix_stat(t, j, k) == empty_stat(),
        forall|m: int| 0 <= m < j && #[trigger] t.name(m) == k ==> prefix_stat(t, j, k) == t.stats@[m],
    decreases j,
{
    if j > 0 {
        lemma_prefix_stat(t, j - 1, k);
        assert forall|m: int| 0 <= m < j && #[trigger] t.name(m) == k implies prefix_stat(t, j, k) == t.stats@[m] by {
            if m < j - 1 && t.name(j - 1) == k {
                lemma_names_sorted_distinct(t, m, j - 1);
            }
        }
    }
}

proof fn lemma_prefix_stat_whole(t: Table, k: Seq<u8>)
    requires
        t.wf(),
    ensures
        prefix_stat(t, t.len_spec(), k) == t.stat_for(k),
{
    lemma_prefix_stat(t, t.len_spec(), k);
    if t.has(k) {
        let m = choose|m: int| 0 <= m < t.len_spec() && #[trigger] t.name(m) == k;
        crate::table::lemma_stat_for_at(t, m);
    }
}

/// Folds the per-worker tables into one table ordered by name.
pub fn merge_tables(tables: &Vec<Table>) -> (r: Result<Table, Error>)
    requires
        forall|i: int| 0 <= i < tables@.len() ==> (#[trigger] tables@[i]).wf(),
    ensures
        r matches Ok(g) ==> g.wf(),
        r matches Ok(g) ==> forall|k: Seq<u8>| #[trigger] g.has(k)
            <==> exists|i: int| 0 <= i < tables@.len() && #[trigger] tables@[i].has(k),
        r matches Ok(g) ==> g.total() == tables_total(tables@),
        r matches Ok(g) ==> forall|k: Seq<u8>| #[trigger] g.stat_for(k) == merged_stat(tables@, k),
        tables_total(tables@) <= MAX_COUNT ==> r is Ok,
        r matches Err(e) ==> e == Error::Internal,
{
    let mut g = Table::new();
    assert(tables@.take(0) =~= seq![]);
    proof {
        lemma_tables_total_nonneg(tables@);
    }
    let mut w: usize = 0;
    while w < tables.len()
        invariant
            forall|i: int| 0 <= i < tables@.len() ==> (#[trigger] tables@[i]).wf(),
            w <= tables@.len(),
            g.wf(),
            forall|k: Seq<u8>| #[trigger] g.has(k)
                <==> exists|i: int| 0 <= i < w && #[trigger] tables@[i].has(k),
            g.total() == tables_total(tables@.take(w as int)),
            tables_total(tables@.take(w as int)) <= tables_total(tables@),
            forall|k: Seq<u8>| #[trigger] g.stat_for(k) == merged_stat(tables@.take(w as int), k),
        decreases tables@.len() - w,
    {
        let t = &tables[w];
        let n = t.len();
        proof {
            lemma_tables_total_prefix(tables@, w as int);
            assert(t.stats@.take(0) =~= seq![]);
        }
        let mut j: usize = 0;
        while j < n
            invariant
                forall|i: int| 0 <= i < tables@.len() ==> (#[trigger] tables@[i]).wf(),
                w < tables@.len(),
                *t == tables@[w as int],
                n == t.len_spec(),
                j <= n,
                g.wf(),
                g.total() == tables_total(tables@.take(w as int)) + counts(t.stats@.take(j as int)),
                tables_total(tables@.take(w as int)) + t.total() <= tables_total(tables@),
                forall|k: Seq<u8>| #[trigger] g.stat_for(k)
                    == combine(merged_stat(tables@.take(w as int), k), prefix_stat(*t, j as int, k)),
                forall|k: Seq<u8>| #[trigger] g.has(k)
                    <==> (exists|i: int| 0 <= i < w && #[trigger] tables@[i].has(k))
                        || (exists|m: int| 0 <= m < j && #[trigger] t.name(m) == k),
            decreases n - j,
        {
            let s = t.stats[j];
            assert(s.wf());
            let ghost before = g;
            proof {
                lemma_counts_prefix(t.stats@, j as int);
            }
            if !g.absorb(t.names[j].as_slice(), &s) {
                proof {
                    let fi = choose|fi: int| 0 <= fi < before.len_spec() && #[trigger] before.name(fi) == t.name(j as int)
                        && before.stats@[fi].count + s.count > MAX_COUNT;
                    lemma_counts_prefix(before.stats@, fi);
                }
                return Err(Error::Internal);
            }
            proof {
                assert forall|k: Seq<u8>| #[trigger] g.stat_for(k)
                    == combine(merged_stat(tables@.take(w as int), k), prefix_stat(*t, j + 1, k)) by {
                    if k == t.name(j as int) {
                        lemma_prefix_stat(*t, j as int, k);
                        assert forall|m: int| 0 <= m < j implies #[trigger] t.name(m) != k by {
                            lemma_names_sorted_distinct(*t, m, j as int);
                        }
                        assert(prefix_stat(*t, j as int, k) == empty_stat());
                    }
                }
                assert forall|k: Seq<u8>| #[trigger] g.has(k)
                    <==> (exists|i: int| 0 <= i < w && #[trigger] tables@[i].has(k))
                        || (exists|m: int| 0 <= m < j + 1 && #[trigger] t.name(m) == k) by {
                    assert(before.has(k) <==> (exists|i: int| 0 <= i < w && #[trigger] tables@[i].has(k))
                        || (exists|m: int| 0 <= m < j && #[trigger] t.name(m) == k));
                    if k == t.name(j as int) {
                        assert(t.name(j as int) == k);
                    }
                    if exists|m: int| 0 <= m < j + 1 && #[trigger] t.name(m) == k {
                        let m = choose|m: int| 0 <= m < j + 1 && #[trigger] t.name(m) == k;
                        if m < j {
                            assert(t.name(m) == k);
                        }
                    }
                }
            }
            j = j + 1;
        }
        proof {
            assert forall|k: Seq<u8>| #[trigger] g.has(k)
                <==> exists|i: int| 0 <= i < w + 1 && #[trigger] tables@[i].has(k) by {
                if t.has(k) {
                    assert(tables@[w as int].has(k));
                }
                if exists|i: int| 0 <= i < w + 1 && #[trigger] tables@[i].has(k) {
                    let i = choose|i: int| 0 <= i < w + 1 && #[trigger] tables@[i].has(k);
                    if i == w {
                        let m = choose|m: int| 0 <= m < t.len_spec() && #[trigger] t.name(m) == k;
                        assert(t.name(m) == k);
                    }
                }
            }
        }
        proof {
            assert(t.stats@.take(n as int) =~= t.stats@);
            lemma_tables_total_prefix(tables@, w as int);
            assert(tables@.take(w + 1).drop_last() =~= tables@.take(w as int));
            assert forall|k: Seq<u8>| #[trigger] g.stat_for(k) == merged_stat(tables@.take(w + 1), k) by {
                lemma_prefix_stat_whole(*t, k);
            }
        }
        w = w + 1;
    }
    assert(tables@.take(w as int) =~= tables@);
    Ok(g)
}

/// Reports the workers' results: the first error where any worker failed,
/// else the rendering of their merged tables.
pub fn report_results(results: Vec<Result<Table, Error>>) -> (r: Result<Vec<u8>, Error>)
    requires
        forall|i: int| 0 <= i < results@.len() && (#[trigger] results@[i]) is Ok ==> results@[i]->Ok_0.wf(),
    ensures
        (exists|i: int| 0 <= i < results@.len() && #[trigger] results@[i] is Err) ==> {
            let f = choose|i: int| 0 <= i < results@.len() && #[trigger] results@[i] is Err
                && forall|j: int| 0 <= j < i ==> results@[j] is Ok;
            r == Err::<Vec<u8>, Error>(results@[f]->Err_0)
        },
        (forall|i: int| 0 <= i < results@.len() ==> #[trigger] results@[i] is Ok) ==> {
            let ts = results@.map_values(|x: Result<Table, Error>| x->Ok_0);
            &&& tables_total(ts) <= MAX_COUNT ==> r is Ok
            &&& r matches Ok(out) ==> exists|g: Table| {
                &&& g.wf()
                &&& out@ == report_text(g)
                &&& g.total() == tables_total(ts)
                &&& forall|k: Seq<u8>| #[trigger] g.stat_for(k) == merged_stat(ts, k)
            }
            &&& r matches Err(e) ==> e == Error::Internal
        },
{
    let mut tables: Vec<Table> = Vec::new();
    let mut rest = results;
    let ghost all = rest@;
    let mut i: usize = 0;
    let n = rest.len();
    // Take the results in order by reversing once and popping.
    let mut rev: Vec<Result<Table, Error>> = Vec::new();
    while rest.len() > 0
        invariant
            all == results@,
            rev@.len() + rest@.len() == all.len(),
            rest@ == all.take(rest@.len() as int),
            forall|j: int| 0 <= j < rev@.len() ==> #[trigger] rev@[j] == all[all.len() - 1 - j],
        decreases rest@.len(),
    {
        let x = rest.pop().unwrap();
        rev.push(x);
        assert(rest@ =~= all.take(rest@.len() as int));
    }
    while i < n
        invariant
            all == results@,
            n == all.len(),
            i <= n,
            rev@.len() == n - i,
            forall|j: int| 0 <= j < rev@.len() ==> #[trigger] rev@[j] == all[n - 1 - j],
            forall|j: int| 0 <= j < all.len() && (#[trigger] all[j]) is Ok ==> all[j]->Ok_0.wf(),
            forall|j: int| 0 <= j < i ==> #[trigger] all[j] is Ok,
            tables@ == all.take(i as int).map_values(|x: Result<Table, Error>| x->Ok_0),
        decreases n - i,
    {
        let x = rev.pop().unwrap();
        assert(x == all[i as int]);
        match x {
            Ok(t) => {
                tables.push(t);
                assert(tables@ =~= all.take(i + 1).map_values(|x: Result<Table, Error>| x->Ok_0));
            },
            Err(e) => {
                proof {
                    assert(all == results@);
                    assert(all[i as int] is Err && forall|j: int| 0 <= j < i ==> all[j] is Ok);
                    let f = choose|f: int| 0 <= f < all.len() && #[trigger] all[f] is Err
                        && forall|j: int| 0 <= j < f ==> all[j] is Ok;
                    if f < i {
                        assert(all[f] is Ok);
                    } else if f > i {
                        assert(all[i as int] is Ok);
                    }
                }
                return Err(e);
            },
        }
        i = i + 1;
    }
    assert(all.take(n as int) =~= all);
    assert(all == results@);
    assert(tables@ =~= results@.map_values(|x: Result<Table, Error>| x->Ok_0));
    assert(forall|j: int| 0 <= j < tables@.len() ==> (#[trigger] tables@[j]).wf());
    let g = merge_tables(&tables)?;
    Ok(render(&g))
}

/// Station names of a well-formed table are strictly ascending, so no name
/// appears twice.
pub proof fn lemma_names_sorted_distinct(t: Table, i: int, j: int)
    requires
        t.wf(),
        0 <= i < j < t.len_spec(),
    ensures
        lex_lt(t.name(i), t.name(j)),
        t.name(i) != t.name(j),
{
    crate::table::lemma_lex_irreflexive(t.name(i));
}

/// Adding a table for the readings `rs` to tables for the readings `acc`
/// gives tables for `acc + rs`, station by station.
proof fn lemma_union_push(ts: Seq<Table>, t: Table, acc: Seq<(Seq<u8>, int)>, rs: Seq<(Seq<u8>, int)>)
    requires
        forall|k: Seq<u8>| (exists|j: int| 0 <= j < ts.len() && #[trigger] ts[j].has(k)) <==> names_in(acc, k),
        forall|k: Seq<u8>| #[trigger] t.has(k) <==> names_in(rs, k),
    ensures
        forall|k: Seq<u8>| (exists|j: int| 0 <= j < ts.push(t).len() && #[trigger] ts.push(t)[j].has(k))
            <==> names_in(acc + rs, k),
{
    let us = ts.push(t);
    assert forall|k: Seq<u8>| (exists|j: int| 0 <= j < us.len() && #[trigger] us[j].has(k))
        <==> names_in(acc + rs, k) by {
        if names_in(acc + rs, k) {
            let q = choose|q: int| 0 <= q < (acc + rs).len() && #[trigger] (acc + rs)[q].0 == k;
            if q < acc.len() {
                assert(acc[q].0 == k);
                assert(names_in(acc, k));
                let j = choose|j: int| 0 <= j < ts.len() && #[trigger] ts[j].has(k);
                assert(us[j] == ts[j]);
                assert(us[j].has(k));
            } else {
                assert(rs[q - acc.len()].0 == k);
                assert(names_in(rs, k));
                assert(t.has(k));
                assert(us[ts.len() as int].has(k));
            }
        }
        if exists|j: int| 0 <= j < us.len() && #[trigger] us[j].has(k) {
            let j = choose|j: int| 0 <= j < us.len() && #[trigger] us[j].has(k);
            if j < ts.len() {
                assert(us[j] == ts[j]);
                assert(ts[j].has(k));
                assert(names_in(acc, k));
                let q = choose|q: int| 0 <= q < acc.len() && #[trigger] acc[q].0 == k;
                assert((acc + rs)[q].0 == k);
            } else {
                assert(t.has(k));
                assert(names_in(rs, k));
                let q = choose|q: int| 0 <= q < rs.len() && #[trigger] rs[q].0 == k;
                assert((acc + rs)[acc.len() + q].0 == k);
            }
        }
    }
}

/// `out` renders a well-formed table holding exactly the stations of the
/// records of `data`, each with its statistic over those records.
pub open spec fn is_report_of(data: Seq<u8>, out: Seq<u8>) -> bool {
    exists|g: Table| {
        &&& g.wf()
        &&& out == report_text(g)
        &&& forall|k: Seq<u8>| #[trigger] g.has(k) <==> names_in(readings(data, 0, data.len() as int), k)
        &&& forall|i: int| 0 <= i < g.len_spec()
            ==> #[trigger] g.stats@[i] == stat_of(readings(data, 0, data.len() as int), g.name(i))
    }
}

proof fn lemma_same_order_upto(a: Table, b: Table, i: int)
    requires
        a.wf(),
        b.wf(),
        forall|k: Seq<u8>| #[trigger] a.has(k) <==> b.has(k),
        0 <= i <= a.len_spec(),
        i <= b.len_spec(),
    ensures
        forall|m: int| 0 <= m < i ==> #[trigger] a.name(m) == b.name(m),
    decreases i,
{
    if i > 0 {
        lemma_same_order_upto(a, b, i - 1);
        let p = i - 1;
        let k = a.name(p);
        assert(a.has(k));
        assert(b.has(k));
        let j = choose|j: int| 0 <= j < b.len_spec() && #[trigger] b.name(j) == k;
        let k2 = b.name(p);
        assert(b.has(k2));
        assert(a.has(k2));
        let m = choose|m: int| 0 <= m < a.len_spec() && #[trigger] a.name(m) == k2;
        if j < p {
            assert(a.name(j) == b.name(j));
            lemma_names_sorted_distinct(a, j, p);
        } else if j > p {
            lemma_names_sorted_distinct(b, p, j);
            if m < p {
                assert(a.name(m) == b.name(m));
                lemma_names_sorted_distinct(b, m, p);
            } else if m == p {
                crate::table::lemma_lex_irreflexive(k);
            } else {
                lemma_names_sorted_distinct(a, p, m);
                crate::table::lemma_lex_trans(k, k2, k);
                crate::table::lemma_lex_irreflexive(k);
            }
        }
    }
}

/// Two well-formed tables with the same stations have them in the same order.
pub proof fn lemma_same_names_same_order(a: Table, b: Table)
    requires
        a.wf(),
        b.wf(),
        forall|k: Seq<u8>| #[trigger] a.has(k) <==> b.has(k),
    ensures
        a.len_spec() == b.len_spec(),
        forall|i: int| 0 <= i < a.len_spec() ==> #[trigger] a.name(i) == b.name(i),
{
    let n = if a.len_spec() <= b.len_spec() { a.len_spec() } else { b.len_spec() };
    lemma_same_order_upto(a, b, n);
    if a.len_spec() > n {
        let k = a.name(n);
        assert(a.has(k));
        assert(b.has(k));
        let j = choose|j: int| 0 <= j < b.len_spec() && #[trigger] b.name(j) == k;
        assert(a.name(j) == b.name(j));
        lemma_names_sorted_distinct(a, j, n);
    }
    if b.len_spec() > n {
        let k = b.name(n);
        assert(b.has(k));
        assert(a.has(k));
        let j = choose|j: int| 0 <= j < a.len_spec() && #[trigger] a.name(j) == k;
        assert(a.name(j) == b.name(j));
        lemma_names_sorted_distinct(b, j, n);
    }
}

proof fn lemma_entries_text_eq(a: Table, b: Table, n: int)
    requires
        0 <= n <= a.len_spec(),
        n <= b.len_spec(),
        forall|i: int| 0 <= i < n ==> #[trigger] a.name(i) == b.name(i) && a.stats@[i] == b.stats@[i],
    ensures
        entries_text(a, n) == entries_text(b, n),
    decreases n,
{
    if n > 0 {
        assert(a.name(n - 1) == b.name(n - 1) && a.stats@[n - 1] == b.stats@[n - 1]);
        assert forall|i: int| 0 <= i < n - 1 implies #[trigger] a.name(i) == b.name(i) && a.stats@[i] == b.stats@[i] by {
            assert(a.name(i) == b.name(i));
        }
        lemma_entries_text_eq(a, b, n - 1);
    }
}

/// The report of an input does not depend on how it was split: any two
/// reports of the same bytes are equal, whatever the number of workers.
pub proof fn lemma_report_unique(data: Seq<u8>, out1: Seq<u8>, out2: Seq<u8>)
    requires
        is_report_of(data, out1),
        is_report_of(data, out2),
    ensures
        out1 == out2,
{
    let rs = readings(data, 0, data.len() as int);
    let a = choose|g: Table| {
        &&& g.wf()
        &&& out1 == report_text(g)
        &&& forall|k: Seq<u8>| #[trigger] g.has(k) <==> names_in(rs, k)
        &&& forall|i: int| 0 <= i < g.len_spec() ==> #[trigger] g.stats@[i] == stat_of(rs, g.name(i))
    };
    let b = choose|g: Table| {
        &&& g.wf()
        &&& out2 == report_text(g)
        &&& forall|k: Seq<u8>| #[trigger] g.has(k) <==> names_in(rs, k)
        &&& forall|i: int| 0 <= i < g.len_spec() ==> #[trigger] g.stats@[i] == stat_of(rs, g.name(i))
    };
    assert forall|k: Seq<u8>| #[trigger] a.has(k) <==> b.has(k) by {
        assert(a.has(k) <==> names_in(rs, k));
        assert(b.has(k) <==> names_in(rs, k));
    }
    lemma_same_names_same_order(a, b);
    assert forall|i: int| 0 <= i < a.len_spec() implies #[trigger] a.name(i) == b.name(i) && a.stats@[i] == b.stats@[i] by {
        assert(a.name(i) == b.name(i));
        assert(a.stats@[i] == stat_of(rs, a.name(i)));
        assert(b.stats@[i] == stat_of(rs, b.name(i)));
    }
    lemma_entries_text_eq(a, b, a.len_spec());
}

/// Adding the table of readings `rs` to tables whose merged statistics are
/// those of readings `acc` gives the statistics of `acc + rs`.
proof fn lemma_merged_push(ts: Seq<Table>, t: Table, acc: Seq<(Seq<u8>, int)>, rs: Seq<(Seq<u8>, int)>)
    requires
        forall|k: Seq<u8>| #[trigger] merged_stat(ts, k) == stat_of(acc, k),
        t.wf(),
        forall|i: int| 0 <= i < t.len_spec() ==> #[trigger] t.stats@[i] == stat_of(rs, t.name(i)),
        forall|k: Seq<u8>| #[trigger] t.has(k) <==> names_in(rs, k),
        crate::scan::temps_ok(acc + rs),
        (acc + rs).len() <= MAX_COUNT,
    ensures
        forall|k: Seq<u8>| #[trigger] merged_stat(ts.push(t), k) == stat_of(acc + rs, k),
{
    assert(ts.push(t).drop_last() =~= ts);
    assert forall|k: Seq<u8>| #[trigger] merged_stat(ts.push(t), k) == stat_of(acc + rs, k) by {
        lemma_stat_of_concat(acc, rs, k);
        lemma_temps_ok_concat(acc, rs);
        assert(ts.push(t).last() == t);
        assert(merged_stat(ts.push(t), k) == combine(merged_stat(ts, k), t.stat_for(k)));
        if t.has(k) {
            let j = choose|j: int| 0 <= j < t.len_spec() && #[trigger] t.name(j) == k;
            crate::table::lemma_stat_for_at(t, j);
            assert(t.stat_for(k) == stat_of(rs, k));
        } else {
            lemma_stat_of_absent(rs, k);
            lemma_stat_of_bounded(rs, k);
            assert(t.stat_for(k) == stat_of(rs, k));
        }
    }
}

/// Splits `data` into at most `workers` ranges, scans each, merges the tables
/// and renders the report line. Whatever the number of workers, the report
/// holds exactly the stations of the input's records, their counts add up to
/// the number of records, and any failure names the first bad record.
#[verifier::rlimit(100)]
pub fn summarize(data: &[u8], workers: usize) -> (r: Result<Vec<u8>, Error>)
    requires
        workers >= 1,
        data@.len() < MAX_COUNT,
    ensures
        r is Ok <==> first_bad(data@, 0, data@.len() as int) == data@.len(),
        r matches Err(e) ==> e == (Error::MalformedRecord { offset: first_bad(data@, 0, data@.len() as int) as usize }),
        r matches Ok(out) ==> is_report_of(data@, out@),
        r matches Ok(out) ==> exists|g: Table| {
            &&& g.wf()
            &&& out@ == report_text(g)
            &&& g.total() == readings(data@, 0, data@.len() as int).len()
            &&& forall|k: Seq<u8>| #[trigger] g.has(k) <==> names_in(readings(data@, 0, data@.len() as int), k)
            &&& forall|i: int| 0 <= i < g.len_spec()
                ==> #[trigger] g.stats@[i] == stat_of(readings(data@, 0, data@.len() as int), g.name(i))
        },
{
    let ranges = split_ranges(data, workers);
    let ghost len = data@.len() as int;
    let ghost c = len / workers as int;
    let ghost mut cur: int = 0;
    let ghost mut acc: Seq<(Seq<u8>, int)> = seq![];
    let mut tables: Vec<Table> = Vec::new();
    let mut i: usize = 0;
    proof {
        lemma_readings_temps(data@, 0, len);
        lemma_readings_len(data@, 0, len);
        if ranges@.len() == 0 {
            assert(readings(data@, 0, len) =~= seq![]);
        }
        assert(readings(data@, 0, len) =~= acc + readings(data@, cur, len));
    }
    while i < ranges.len()
        invariant
            len == data@.len(),
            i <= ranges@.len(),
            data@.len() < MAX_COUNT,
            ranges_ok(data@, c, ranges@),
            ranges@.len() == 0 <==> len == 0,
            0 <= cur <= len,
            i < ranges@.len() ==> ranges@[i as int].0 == cur,
            i == ranges@.len() ==> cur == len,
            readings(data@, 0, len) == acc + readings(data@, cur, len),
            first_bad(data@, 0, len) == first_bad(data@, cur, len),
            tables@.len() == i,
            forall|j: int| 0 <= j < tables@.len() ==> (#[trigger] tables@[j]).wf(),
            tables_total(tables@) == acc.len(),
            forall|k: Seq<u8>| (exists|j: int| 0 <= j < tables@.len() && #[trigger] tables@[j].has(k))
                <==> names_in(acc, k),
            forall|k: Seq<u8>| #[trigger] merged_stat(tables@, k) == stat_of(acc, k),
        decreases ranges@.len() - i,
    {
        let (start, end) = ranges[i];
        assert(ranges@[i as int].0 < ranges@[i as int].1);
        let last = i + 1 == ranges.len();
        proof {
            if !last {
                assert(crate::split::line_end(data@, c, ranges@[i as int]));
                assert(ranges@[i as int].1 == ranges@[i + 1].0);
            }
        }
        assert(end <= data@.len());
        assert(end == len || data@[end - 1] == 10u8);
        match scan_range(data, start, end) {
            Ok(t) => {
                proof {
                    lemma_split_at_line(data@, cur, end as int, len);
                    let rs = readings(data@, cur, end as int);
                    let ghost old_tables = tables@;
                    lemma_union_push(old_tables, t, acc, rs);
                    lemma_readings_temps(data@, 0, len);
                    lemma_readings_len(data@, 0, len);
                    assert(readings(data@, 0, len) =~= (acc + rs) + readings(data@, end as int, len));
                    lemma_temps_ok_concat(acc + rs, readings(data@, end as int, len));
                    lemma_merged_push(old_tables, t, acc, rs);
                    assert(old_tables.push(t).drop_last() =~= old_tables);
                    assert(readings(data@, 0, len) =~= (acc + rs) + readings(data@, end as int, len));
                    acc = acc + rs;
                    cur = end as int;
                }
                tables.push(t);
            },
            Err(e) => {
                proof {
                    crate::scan::lemma_first_bad_bounds(data@, cur, end as int);
                    lemma_first_bad_before(data@, cur, end as int, len);
                }
                return Err(e);
            },
        }
        i = i + 1;
    }
    proof {
        assert(readings(data@, len, len) =~= seq![]);
        assert(acc =~= readings(data@, 0, len));
        lemma_readings_len(data@, 0, len);
    }
    let g = merge_tables(&tables)?;
    proof {
        assert forall|k: Seq<u8>| #[trigger] g.has(k) <==> names_in(readings(data@, 0, len), k) by {
            if g.has(k) {
                let j = choose|j: int| 0 <= j < tables@.len() && #[trigger] tables@[j].has(k);
                assert(tables@[j].has(k));
            }
            if names_in(acc, k) {
                let j = choose|j: int| 0 <= j < tables@.len() && #[trigger] tables@[j].has(k);
                assert(tables@[j].has(k));
            }
        }
        assert forall|i: int| 0 <= i < g.len_spec()
            implies #[trigger] g.stats@[i] == stat_of(readings(data@, 0, len), g.name(i)) by {
            crate::table::lemma_stat_for_at(g, i);
        }
    }
    Ok(render(&g))
}

} // verus!
