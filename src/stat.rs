use vstd::prelude::*;

verus! {

/// Largest number of readings one statistic may hold: with readings of at most
/// 999 tenths in magnitude, any sum of this many fits an `i64`.
pub const MAX_COUNT: u64 = 9007199254740992;

/// Running statistic of one station, with temperatures in tenths of a degree.
#[derive(Clone, Copy, Debug, PartialEq, Eq, Structural)]
pub struct Stat {
    pub min: i64,
    pub max: i64,
    pub sum: i64,
    pub count: u64,
}

/// Mean of `sum / count` in tenths, rounded half away from zero.
pub open spec fn rounded_mean(sum: int, count: int) -> int
    recommends
        count > 0,
{
    if sum >= 0 {
        (2 * sum + count) / (2 * count)
    } else {
        -((2 * (-sum) + count) / (2 * count))
    }
}

pub open spec fn min_of(a: int, b: int) -> int {
    if a <= b { a } else { b }
}

pub open spec fn max_of(a: int, b: int) -> int {
    if a >= b { a } else { b }
}

/// The statistic of two groups of readings together: min of mins, max of
/// maxes, sum of sums and counts. A statistic of count 0 stands for no readings.
pub open spec fn combine(a: Stat, b: Stat) -> Stat {
    if a.count == 0 {
        b
    } else if b.count == 0 {
        a
    } else {
        Stat {
            min: min_of(a.min as int, b.min as int) as i64,
            max: max_of(a.max as int, b.max as int) as i64,
            sum: (a.sum + b.sum) as i64,
            count: (a.count + b.count) as u64,
        }
    }
}

/// The statistic of no readings.
pub open spec fn empty_stat() -> Stat {
    Stat { min: 0, max: 0, sum: 0, count: 0 }
}

impl Stat {
    /// At least one reading, all readings within -99.9..=99.9, and the sum
    /// between `count` times the minimum and `count` times the maximum.
    pub open spec fn wf(&self) -> bool {
        &&& -999 <= self.min <= self.max <= 999
        &&& 1 <= self.count <= MAX_COUNT
        &&& self.min * self.count <= self.sum <= self.max * self.count
    }

    pub open spec fn mean_spec(&self) -> int {
        rounded_mean(self.sum as int, self.count as int)
    }

    pub open spec fn new_spec(t: i64) -> Stat {
        Stat { min: t, max: t, sum: t, count: 1 }
    }

    /// The statistic of a single reading.
    pub fn new(t: i64) -> (r: Stat)
        requires
            -999 <= t <= 999,
        ensures
            r == (Stat { min: t, max: t, sum: t, count: 1 }),
            r.wf(),
    {
        Stat { min: t, max: t, sum: t, count: 1 }
    }

    /// Adds one reading.
    pub fn update(&mut self, t: i64)
        requires
            old(self).wf(),
            old(self).count < MAX_COUNT,
            -999 <= t <= 999,
        ensures
            final(self).min == min_of(old(self).min as int, t as int),
            final(self).max == max_of(old(self).max as int, t as int),
            final(self).sum == old(self).sum + t,
            final(self).count == old(self).count + 1,
            final(self).wf(),
    {
        let ghost o = *self;
        proof {
            assert(o.sum <= 999 * o.count) by (nonlinear_arith)
                requires o.sum <= o.max * o.count, o.max <= 999, o.count >= 1;
            assert(o.sum >= -999 * o.count) by (nonlinear_arith)
                requires o.sum >= o.min * o.count, o.min >= -999, o.count >= 1;
            assert(999 * o.count < 999 * MAX_COUNT) by (nonlinear_arith)
                requires o.count < MAX_COUNT;
        }
        if t < self.min {
            self.min = t;
        }
        if t > self.max {
            self.max = t;
        }
        self.sum = self.sum + t;
        self.count = self.count + 1;
        proof {
            let n = *self;
            assert(n.min * o.count <= o.sum) by (nonlinear_arith)
                requires n.min <= o.min, o.min * o.count <= o.sum, o.count >= 1;
            assert(o.sum <= n.max * o.count) by (nonlinear_arith)
                requires n.max >= o.max, o.sum <= o.max * o.count, o.count >= 1;
            assert(n.min * n.count == n.min * o.count + n.min) by (nonlinear_arith)
                requires n.count == o.count + 1;
            assert(n.max * n.count == n.max * o.count + n.max) by (nonlinear_arith)
                requires n.count == o.count + 1;
        }
    }

    /// Folds another statistic of the same station into this one.
    pub fn merge(&mut self, other: &Stat)
        requires
            old(self).wf(),
            other.wf(),
            old(self).count + other.count <= MAX_COUNT,
        ensures
            final(self).min == min_of(old(self).min as int, other.min as int),
            final(self).max == max_of(old(self).max as int, other.max as int),
            final(self).sum == old(self).sum + other.sum,
            final(self).count == old(self).count + other.count,
            final(self).wf(),
    {
        let ghost o = *self;
        let ghost p = *other;
        proof {
            assert(o.sum <= 999 * o.count && o.sum >= -999 * o.count) by (nonlinear_arith)
                requires o.sum <= o.max * o.count, o.max <= 999, o.count >= 1,
                    o.sum >= o.min * o.count, o.min >= -999;
            assert(p.sum <= 999 * p.count && p.sum >= -999 * p.count) by (nonlinear_arith)
                requires p.sum <= p.max * p.count, p.max <= 999, p.count >= 1,
                    p.sum >= p.min * p.count, p.min >= -999;
            assert(999 * (o.count + p.count) <= 999 * MAX_COUNT) by (nonlinear_arith)
                requires o.count + p.count <= MAX_COUNT;
        }
        if other.min < self.min {
            self.min = other.min;
        }
        if other.max > self.max {
            self.max = other.max;
        }
        self.sum = self.sum + other.sum;
        self.count = self.count + other.count;
        proof {
            let n = *self;
            assert(n.min * o.count <= o.sum) by (nonlinear_arith)
                requires n.min <= o.min, o.min * o.count <= o.sum, o.count >= 1;
            assert(o.sum <= n.max * o.count) by (nonlinear_arith)
                requires n.max >= o.max, o.sum <= o.max * o.count, o.count >= 1;
            assert(n.min * p.count <= p.sum) by (nonlinear_arith)
                requires n.min <= p.min, p.min * p.count <= p.sum, p.count >= 1;
            assert(p.sum <= n.max * p.count) by (nonlinear_arith)
                requires n.max >= p.max, p.sum <= p.max * p.count, p.count >= 1;
            assert(n.min * n.count == n.min * o.count + n.min * p.count) by (nonlinear_arith)
                requires n.count == o.count + p.count;
            assert(n.max * n.count == n.max * o.count + n.max * p.count) by (nonlinear_arith)
                requires n.count == o.count + p.count;
        }
    }

    /// The mean in tenths, rounded half away from zero.
    pub fn mean(&self) -> (r: i64)
        requires
            self.wf(),
        ensures
            r == self.mean_spec(),
            self.min <= r <= self.max,
    {
        proof {
            lemma_mean_between(*self);
        }
        let c = self.count as i128;
        let x = self.sum as i128;
        let q: i128 = if x >= 0 {
            (2 * x + c) / (2 * c)
        } else {
            -((2 * (-x) + c) / (2 * c))
        };
        q as i64
    }
}

/// Every well-formed statistic has at least one reading, and its rounded mean
/// lies between its minimum and its maximum.
pub proof fn lemma_mean_between(s: Stat)
    requires
        s.wf(),
    ensures
        s.count >= 1,
        s.min <= s.mean_spec() <= s.max,
{
    let c = s.count as int;
    let lo = s.min as int;
    let hi = s.max as int;
    let x = s.sum as int;
    if x >= 0 {
        let q = (2 * x + c) / (2 * c);
        assert(q * (2 * c) <= 2 * x + c) by (nonlinear_arith)
            requires q == (2 * x + c) / (2 * c), c >= 1;
        assert(q * (2 * c) > 2 * x + c - 2 * c) by (nonlinear_arith)
            requires q == (2 * x + c) / (2 * c), c >= 1;
        assert(q <= hi) by (nonlinear_arith)
            requires q * (2 * c) <= 2 * x + c, x <= hi * c, c >= 1;
        assert(q >= lo) by (nonlinear_arith)
            requires q * (2 * c) > 2 * x + c - 2 * c, x >= lo * c, c >= 1, x >= 0;
    } else {
        let y = -x;
        assert(y >= -hi * c && y <= -lo * c) by (nonlinear_arith)
            requires y == -x, x <= hi * c, x >= lo * c;
        let q = (2 * y + c) / (2 * c);
        assert(q * (2 * c) <= 2 * y + c) by (nonlinear_arith)
            requires q == (2 * y + c) / (2 * c), c >= 1;
        assert(q * (2 * c) > 2 * y + c - 2 * c) by (nonlinear_arith)
            requires q == (2 * y + c) / (2 * c), c >= 1;
        assert(q <= -lo) by (nonlinear_arith)
            requires q * (2 * c) <= 2 * y + c, y <= -lo * c, c >= 1;
        assert(q >= -hi) by (nonlinear_arith)
            requires q * (2 * c) > 2 * y + c - 2 * c, y >= -hi * c, c >= 1, y > 0;
    }
}

} // verus!
