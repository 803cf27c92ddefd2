use vstd::prelude::*;
use crate::stat::{combine, empty_stat, Stat, MAX_COUNT, min_of, max_of};

verus! {

/// `a` is before `b` in byte-lexicographic order.
pub open spec fn lex_lt(a: Seq<u8>, b: Seq<u8>) -> bool {
    exists|k: int| lex_lt_at(a, b, k)
}

/// `a` and `b` agree before position `k`, where `a` ends first or has the smaller byte.
pub open spec fn lex_lt_at(a: Seq<u8>, b: Seq<u8>, k: int) -> bool {
    &&& 0 <= k <= a.len() && k <= b.len()
    &&& forall|j: int| 0 <= j < k ==> a[j] == b[j]
    &&& (k == a.len() && k < b.len()) || (k < a.len() && k < b.len() && a[k] < b[k])
}

/// Byte-lexicographic order is irreflexive.
pub proof fn lemma_lex_irreflexive(a: Seq<u8>)
    ensures
        !lex_lt(a, a),
{
}

/// Byte-lexicographic order is transitive.
pub proof fn lemma_lex_trans(a: Seq<u8>, b: Seq<u8>, c: Seq<u8>)
    requires
        lex_lt(a, b),
        lex_lt(b, c),
    ensures
        lex_lt(a, c),
{
    let k1 = choose|k: int| lex_lt_at(a, b, k);
    let k2 = choose|k: int| lex_lt_at(b, c, k);
    let k = if k1 <= k2 { k1 } else { k2 };
    assert forall|j: int| 0 <= j < k implies a[j] == c[j] by {
        assert(a[j] == b[j]);
        assert(b[j] == c[j]);
    }
    if k1 < k2 {
        if k1 < b.len() {
            assert(b[k1] == c[k1]);
        }
        assert((k == a.len() && k < c.len()) || (k < a.len() && k < c.len() && a[k] < c[k]));
    } else if k2 < k1 {
        assert(a[k2] == b[k2]);
        assert(k < a.len() && k < c.len() && a[k] < c[k]);
    } else {
        assert((k == a.len() && k < c.len()) || (k < a.len() && k < c.len() && a[k] < c[k]));
    }
    assert(lex_lt_at(a, c, k));
}

/// Three-way byte-lexicographic comparison: -1, 0 or 1.
pub fn compare_bytes(a: &[u8], b: &[u8]) -> (r: i8)
    ensures
        r == -1 <==> lex_lt(a@, b@),
        r == 0 <==> a@ == b@,
        r == 1 <==> lex_lt(b@, a@),
        -1 <= r <= 1,
{
    let mut i: usize = 0;
    while i < a.len() && i < b.len() && a[i] == b[i]
        invariant
            i <= a@.len(),
            i <= b@.len(),
            forall|j: int| 0 <= j < i ==> a@[j] == b@[j],
        decreases a@.len() - i,
    {
        i = i + 1;
    }
    if i < a.len() && i < b.len() {
        if a[i] < b[i] {
            assert(lex_lt_at(a@, b@, i as int));
            assert(!lex_lt(b@, a@));
            -1
        } else {
            assert(lex_lt_at(b@, a@, i as int));
            assert(!lex_lt(a@, b@));
            1
        }
    } else if i < b.len() {
        assert(lex_lt_at(a@, b@, i as int));
        assert(!lex_lt(b@, a@));
        -1
    } else if i < a.len() {
        assert(lex_lt_at(b@, a@, i as int));
        assert(!lex_lt(a@, b@));
        1
    } else {
        assert(a@ =~= b@);
        assert(!lex_lt(a@, b@));
        0
    }
}

/// The statistic after one more reading `t`.
pub open spec fn add_reading(s: Stat, t: int) -> Stat {
    Stat {
        min: min_of(s.min as int, t) as i64,
        max: max_of(s.max as int, t) as i64,
        sum: (s.sum + t) as i64,
        count: (s.count + 1) as u64,
    }
}

/// Sum of the counts of `s`.
pub open spec fn counts(s: Seq<Stat>) -> int
    decreases s.len(),
{
    if s.len() == 0 {
        0
    } else {
        counts(s.drop_last()) + s.last().count
    }
}

pub proof fn lemma_counts_nonneg(s: Seq<Stat>)
    ensures
        counts(s) >= 0,
    decreases s.len(),
{
    if s.len() > 0 {
        lemma_counts_nonneg(s.drop_last());
    }
}

/// The counts of a prefix grow one element at a time and never pass the whole.
pub proof fn lemma_counts_prefix(s: Seq<Stat>, j: int)
    requires
        0 <= j < s.len(),
    ensures
        counts(s.take(j + 1)) == counts(s.take(j)) + s[j].count,
        counts(s.take(j + 1)) <= counts(s),
        s[j].count <= counts(s),
    decreases s.len(),
{
    assert(s.take(j + 1).drop_last() =~= s.take(j));
    lemma_counts_nonneg(s.take(j));
    if j + 1 == s.len() {
        assert(s.take(j + 1) =~= s);
    } else {
        assert(s.drop_last().take(j + 1) =~= s.take(j + 1));
        assert(s.drop_last().take(j) =~= s.take(j));
        lemma_counts_prefix(s.drop_last(), j);
    }
}

pub proof fn lemma_counts_update(s: Seq<Stat>, i: int, x: Stat)
    requires
        0 <= i < s.len(),
    ensures
        counts(s.update(i, x)) == counts(s) - s[i].count + x.count,
    decreases s.len(),
{
    if i == s.len() - 1 {
        assert(s.update(i, x).drop_last() =~= s.drop_last());
    } else {
        assert(s.update(i, x).drop_last() =~= s.drop_last().update(i, x));
        lemma_counts_update(s.drop_last(), i, x);
    }
}

pub proof fn lemma_counts_insert(s: Seq<Stat>, i: int, x: Stat)
    requires
        0 <= i <= s.len(),
    ensures
        counts(s.insert(i, x)) == counts(s) + x.count,
    decreases s.len(),
{
    if i == s.len() {
        assert(s.insert(i, x).drop_last() =~= s);
    } else {
        assert(s.insert(i, x).drop_last() =~= s.drop_last().insert(i, x));
        lemma_counts_insert(s.drop_last(), i, x);
    }
}

/// Per-worker aggregation table: station names in ascending byte order, each
/// with its running statistic.
pub struct Table {
    pub names: Vec<Vec<u8>>,
    pub stats: Vec<Stat>,
}

impl Table {
    pub open spec fn name(&self, i: int) -> Seq<u8> {
        self.names@[i]@
    }

    pub open spec fn len_spec(&self) -> int {
        self.stats@.len() as int
    }

    /// Number of readings over all stations.
    pub open spec fn total(&self) -> int {
        counts(self.stats@)
    }

    pub open spec fn has(&self, k: Seq<u8>) -> bool {
        exists|i: int| 0 <= i < self.len_spec() && #[trigger] self.name(i) == k
    }

    /// The statistic of station `k`, or the empty statistic where `k` is absent.
    pub open spec fn stat_for(&self, k: Seq<u8>) -> Stat {
        if self.has(k) {
            self.stats@[choose|j: int| 0 <= j < self.len_spec() && #[trigger] self.name(j) == k]
        } else {
            empty_stat()
        }
    }

    /// Names strictly ascending, every statistic well formed.
    pub open spec fn wf(&self) -> bool {
        &&& self.names@.len() == self.stats@.len()
        &&& forall|i: int, j: int| 0 <= i < j < self.len_spec() ==> lex_lt(#[trigger] self.name(i), #[trigger] self.name(j))
        &&& forall|i: int| 0 <= i < self.len_spec() ==> (#[trigger] self.stats@[i]).wf()
    }

    pub fn new() -> (r: Table)
        ensures
            r.wf(),
            r.len_spec() == 0,
    {
        Table { names: Vec::new(), stats: Vec::new() }
    }

    pub fn len(&self) -> (r: usize)
        requires
            self.wf(),
        ensures
            r == self.len_spec(),
    {
        self.stats.len()
    }

    /// Position of `name`: where it stands, or where it would be inserted.
    pub fn find(&self, name: &[u8]) -> (r: (usize, bool))
        requires
            self.wf(),
        ensures
            r.0 <= self.len_spec(),
            r.1 <==> self.has(name@),
            r.1 ==> r.0 < self.len_spec() && self.name(r.0 as int) == name@,
            !r.1 ==> forall|j: int| 0 <= j < r.0 ==> lex_lt(#[trigger] self.name(j), name@),
            !r.1 ==> forall|j: int| r.0 <= j < self.len_spec() ==> lex_lt(name@, #[trigger] self.name(j)),
    {
        let n = self.stats.len();
        let mut i: usize = 0;
        let mut c: i8 = -1;
        let mut stop = false;
        while i < n && !stop
            invariant
                self.wf(),
                n == self.len_spec(),
                i <= n,
                forall|j: int| 0 <= j < i ==> lex_lt(#[trigger] self.name(j), name@),
                c >= 0 ==> i < n && (c == 0 <==> self.name(i as int) == name@) && (c == 1 ==> lex_lt(name@, self.name(i as int))),
                -1 <= c <= 1,
                stop <==> c >= 0,
            decreases n - i, (if stop { 0int } else { 1int }),
        {
            c = compare_bytes(self.names[i].as_slice(), name);
            if c >= 0 {
                stop = true;
            } else {
                i = i + 1;
            }
        }
        if i < n && c == 0 {
            (i, true)
        } else {
            assert forall|j: int| i <= j < self.len_spec() implies lex_lt(name@, #[trigger] self.name(j)) by {
                if j > i {
                    lemma_lex_trans(name@, self.name(i as int), self.name(j));
                }
            }
            assert forall|j: int| 0 <= j < self.len_spec() implies #[trigger] self.name(j) != name@ by {
                lemma_lex_irreflexive(name@);
            }
            (i, false)
        }
    }

    /// Inserts a new station at the position that `find` gave for it.
    fn insert_at(&mut self, i: usize, name: &[u8], s: Stat)
        requires
            old(self).wf(),
            s.wf(),
            i <= old(self).len_spec(),
            forall|j: int| 0 <= j < i ==> lex_lt(#[trigger] old(self).name(j), name@),
            forall|j: int| i <= j < old(self).len_spec() ==> lex_lt(name@, #[trigger] old(self).name(j)),
        ensures
            final(self).wf(),
            final(self).names@.len() == old(self).names@.len() + 1,
            final(self).name(i as int) == name@,
            forall|j: int| 0 <= j < i ==> #[trigger] final(self).name(j) == old(self).name(j),
            forall|j: int| i < j < final(self).len_spec() ==> #[trigger] final(self).name(j) == old(self).name(j - 1),
            final(self).stats@ == old(self).stats@.insert(i as int, s),
    {
        let ghost o = *self;
        let key = vstd::slice::slice_to_vec(name);
        self.names.insert(i, key);
        self.stats.insert(i, s);
        assert forall|a: int, b: int| 0 <= a < b < self.len_spec() implies lex_lt(#[trigger] self.name(a), #[trigger] self.name(b)) by {
            if b < i {
                assert(self.name(a) == o.name(a) && self.name(b) == o.name(b));
            } else if b == i {
                assert(self.name(a) == o.name(a));
            } else if a > i {
                assert(self.name(a) == o.name(a - 1) && self.name(b) == o.name(b - 1));
            } else if a == i {
                assert(self.name(b) == o.name(b - 1));
            } else {
                assert(self.name(a) == o.name(a) && self.name(b) == o.name(b - 1));
            }
        }
        assert(forall|j: int| 0 <= j < self.len_spec() ==> (#[trigger] self.stats@[j]).wf()) by {
            assert(forall|j: int| 0 <= j < o.len_spec() ==> (#[trigger] o.stats@[j]).wf());
        }
    }

    /// Replaces the statistic at position `i`, names unchanged.
    fn set_stat(&mut self, i: usize, s: Stat)
        requires
            old(self).wf(),
            s.wf(),
            i < old(self).len_spec(),
        ensures
            final(self).wf(),
            final(self).names@ == old(self).names@,
            final(self).stats@ == old(self).stats@.update(i as int, s),
    {
        let ghost o = *self;
        self.stats.set(i, s);
        assert forall|j: int| 0 <= j < self.len_spec() implies (#[trigger] self.stats@[j]).wf() by {
            if j != i {
                assert(self.stats@[j] == o.stats@[j]);
            }
        }
        assert forall|a: int, b: int| 0 <= a < b < self.len_spec() implies lex_lt(#[trigger] self.name(a), #[trigger] self.name(b)) by {
            assert(self.name(a) == o.name(a) && self.name(b) == o.name(b));
        }
    }

    /// Records reading `t` of station `name`; returns the station's position.
    pub fn update(&mut self, name: &[u8], t: i64) -> (r: usize)
        requires
            old(self).wf(),
            -999 <= t <= 999,
            forall|i: int| 0 <= i < old(self).len_spec() ==> (#[trigger] old(self).stats@[i]).count < MAX_COUNT,
        ensures
            final(self).wf(),
            r < final(self).len_spec(),
            final(self).name(r as int) == name@,
            old(self).has(name@) ==> {
                &&& final(self).names@ == old(self).names@
                &&& final(self).stats@ == old(self).stats@.update(r as int, add_reading(old(self).stats@[r as int], t as int))
            },
            !old(self).has(name@) ==> {
                &&& final(self).names@.len() == old(self).names@.len() + 1
                &&& forall|i: int| 0 <= i < r ==> #[trigger] final(self).name(i) == old(self).name(i)
                &&& forall|i: int| r < i < final(self).len_spec() ==> #[trigger] final(self).name(i) == old(self).name(i - 1)
                &&& final(self).stats@ == old(self).stats@.insert(r as int, Stat { min: t, max: t, sum: t, count: 1 })
            },
            final(self).total() == old(self).total() + 1,
            forall|k: Seq<u8>| #[trigger] final(self).has(k) <==> (old(self).has(k) || k == name@),
    {
        let ghost o = *self;
        let (i, found) = self.find(name);
        if found {
            let mut s = self.stats[i];
            s.update(t);
            self.set_stat(i, s);
            proof {
                lemma_counts_update(o.stats@, i as int, s);
                lemma_has_same_names(o, *self, name@, i as int);
            }
            i
        } else {
            self.insert_at(i, name, Stat::new(t));
            proof {
                lemma_counts_insert(o.stats@, i as int, Stat::new_spec(t));
                lemma_has_inserted(o, *self, name@, i as int);
            }
            i
        }
    }

    /// Folds statistic `s` of station `name` into the table; `false`, with the
    /// table unchanged, where the combined count would exceed `MAX_COUNT`.
    pub fn absorb(&mut self, name: &[u8], s: &Stat) -> (r: bool)
        requires
            old(self).wf(),
            s.wf(),
        ensures
            final(self).wf(),
            !r ==> *final(self) == *old(self),
            !r ==> exists|i: int| 0 <= i < old(self).len_spec() && #[trigger] old(self).name(i) == name@
                && old(self).stats@[i].count + s.count > MAX_COUNT,
            r ==> forall|k: Seq<u8>| #[trigger] final(self).has(k) <==> (old(self).has(k) || k == name@),
            r ==> final(self).total() == old(self).total() + s.count,
            r ==> forall|k: Seq<u8>| #[trigger] final(self).stat_for(k)
                == if k == name@ { combine(old(self).stat_for(k), *s) } else { old(self).stat_for(k) },
    {
        let (i, found) = self.find(name);
        if found {
            let mut cur = self.stats[i];
            if cur.count > MAX_COUNT - s.count {
                assert(self.name(i as int) == name@);
                return false;
            }
            cur.merge(s);
            let ghost o = *self;
            self.set_stat(i, cur);
            proof {
                lemma_counts_update(o.stats@, i as int, cur);
                lemma_has_same_names(o, *self, name@, i as int);
                lemma_stat_for_at(o, i as int);
                assert(cur == combine(o.stat_for(name@), *s));
                lemma_stat_for_update(o, *self, i as int, cur);
            }
            true
        } else {
            let ghost o = *self;
            self.insert_at(i, name, *s);
            proof {
                lemma_counts_insert(o.stats@, i as int, *s);
                lemma_has_inserted(o, *self, name@, i as int);
                lemma_stat_for_insert(o, *self, i as int, name@, *s);
            }
            true
        }
    }
}

/// Same names, and `n` among them at `i`: the station set is unchanged.
proof fn lemma_has_same_names(o: Table, t: Table, n: Seq<u8>, i: int)
    requires
        t.names@ == o.names@,
        t.stats@.len() == o.stats@.len(),
        0 <= i < t.len_spec(),
        t.name(i) == n,
    ensures
        forall|k: Seq<u8>| #[trigger] t.has(k) <==> (o.has(k) || k == n),
{
    assert forall|k: Seq<u8>| #[trigger] t.has(k) <==> (o.has(k) || k == n) by {
        if t.has(k) {
            let j = choose|j: int| 0 <= j < t.len_spec() && #[trigger] t.name(j) == k;
            assert(o.name(j) == k);
        }
        if o.has(k) {
            let j = choose|j: int| 0 <= j < o.len_spec() && #[trigger] o.name(j) == k;
            assert(t.name(j) == k);
        }
        if k == n {
            assert(t.name(i) == k);
        }
    }
}

/// `n` inserted at `i`, the other names shifted: one more station.
proof fn lemma_has_inserted(o: Table, t: Table, n: Seq<u8>, i: int)
    requires
        t.names@.len() == o.names@.len() + 1,
        o.names@.len() == o.stats@.len(),
        t.names@.len() == t.stats@.len(),
        0 <= i < t.len_spec(),
        t.name(i) == n,
        forall|j: int| 0 <= j < i ==> #[trigger] t.name(j) == o.name(j),
        forall|j: int| i < j < t.len_spec() ==> #[trigger] t.name(j) == o.name(j - 1),
    ensures
        forall|k: Seq<u8>| #[trigger] t.has(k) <==> (o.has(k) || k == n),
{
    assert forall|k: Seq<u8>| #[trigger] t.has(k) <==> (o.has(k) || k == n) by {
        if t.has(k) {
            let j = choose|j: int| 0 <= j < t.len_spec() && #[trigger] t.name(j) == k;
            if j < i {
                assert(o.name(j) == k);
            } else if j > i {
                assert(o.name(j - 1) == k);
            }
        }
        if o.has(k) {
            let j = choose|j: int| 0 <= j < o.len_spec() && #[trigger] o.name(j) == k;
            if j < i {
                assert(t.name(j) == k);
            } else {
                assert(t.name(j + 1) == k);
            }
        }
        if k == n {
            assert(t.name(i) == k);
        }
    }
}

/// In a well-formed table, the statistic of the station at `j` is `stats[j]`.
pub proof fn lemma_stat_for_at(t: Table, j: int)
    requires
        t.wf(),
        0 <= j < t.len_spec(),
    ensures
        t.has(t.name(j)),
        t.stat_for(t.name(j)) == t.stats@[j],
{
    let k = t.name(j);
    assert(t.name(j) == k);
    let c = choose|c: int| 0 <= c < t.len_spec() && #[trigger] t.name(c) == k;
    if c < j {
        lemma_lex_irreflexive(k);
    } else if j < c {
        lemma_lex_irreflexive(k);
    }
}

proof fn lemma_stat_for_update(o: Table, t: Table, i: int, x: Stat)
    requires
        o.wf(),
        t.wf(),
        t.names@ == o.names@,
        0 <= i < o.len_spec(),
        t.stats@ == o.stats@.update(i, x),
    ensures
        forall|k: Seq<u8>| #[trigger] t.stat_for(k) == if k == o.name(i) { x } else { o.stat_for(k) },
{
    assert forall|k: Seq<u8>| #[trigger] t.stat_for(k) == if k == o.name(i) { x } else { o.stat_for(k) } by {
        if t.has(k) {
            let j = choose|j: int| 0 <= j < t.len_spec() && #[trigger] t.name(j) == k;
            lemma_stat_for_at(t, j);
            assert(o.name(j) == k);
            lemma_stat_for_at(o, j);
            if k == o.name(i) {
                lemma_stat_for_at(t, i);
                assert(t.name(i) == k);
            }
        } else {
            assert(t.name(i) == o.name(i));
            if o.has(k) {
                let j = choose|j: int| 0 <= j < o.len_spec() && #[trigger] o.name(j) == k;
                assert(t.name(j) == k);
            }
        }
    }
}

proof fn lemma_stat_for_insert(o: Table, t: Table, i: int, n: Seq<u8>, x: Stat)
    requires
        o.wf(),
        t.wf(),
        t.names@.len() == o.names@.len() + 1,
        0 <= i < t.len_spec(),
        t.name(i) == n,
        !o.has(n),
        forall|j: int| 0 <= j < i ==> #[trigger] t.name(j) == o.name(j),
        forall|j: int| i < j < t.len_spec() ==> #[trigger] t.name(j) == o.name(j - 1),
        t.stats@ == o.stats@.insert(i, x),
    ensures
        forall|k: Seq<u8>| #[trigger] t.stat_for(k) == if k == n { x } else { o.stat_for(k) },
{
    assert forall|k: Seq<u8>| #[trigger] t.stat_for(k) == if k == n { x } else { o.stat_for(k) } by {
        if k == n {
            lemma_stat_for_at(t, i);
        } else if t.has(k) {
            let j = choose|j: int| 0 <= j < t.len_spec() && #[trigger] t.name(j) == k;
            lemma_stat_for_at(t, j);
            if j < i {
                assert(o.name(j) == k);
                lemma_stat_for_at(o, j);
            } else {
                assert(o.name(j - 1) == k);
                lemma_stat_for_at(o, j - 1);
            }
        } else {
            if o.has(k) {
                let j = choose|j: int| 0 <= j < o.len_spec() && #[trigger] o.name(j) == k;
                if j < i {
                    assert(t.name(j) == k);
                } else {
                    assert(t.name(j + 1) == k);
                }
            }
        }
    }
}

} // verus!
