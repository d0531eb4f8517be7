//! Per-key running aggregate: min, max, sum and count of the observed
//! scaled-by-ten decimal values.

use vstd::prelude::*;

verus! {

/// Mathematical value of an aggregate: exact integers, no machine bounds.
pub ghost struct StatsModel {
    pub min: int,
    pub max: int,
    pub sum: int,
    pub count: nat,
}

/// Running aggregate for one key. Values are decimals scaled by ten, so the
/// grammar bounds each observation to `[-999, 999]`; `sum` is wide enough to
/// hold `count` such observations for any `u64` count.
#[derive(Clone, Copy, Debug)]
pub struct Stats {
    pub min: i32,
    pub max: i32,
    pub sum: i128,
    pub count: u64,
}

impl View for Stats {
    type V = StatsModel;

    open spec fn view(&self) -> StatsModel {
        StatsModel {
            min: self.min as int,
            max: self.max as int,
            sum: self.sum as int,
            count: self.count as nat,
        }
    }
}

/// Aggregate of a single observation `v`.
pub open spec fn stats_seed(v: int) -> StatsModel {
    StatsModel { min: v, max: v, sum: v, count: 1 }
}

/// Aggregate of the union of two disjoint observation multisets.
pub open spec fn stats_combine(a: StatsModel, b: StatsModel) -> StatsModel {
    StatsModel {
        min: if a.min <= b.min { a.min } else { b.min },
        max: if a.max >= b.max { a.max } else { b.max },
        sum: a.sum + b.sum,
        count: a.count + b.count,
    }
}

/// An aggregate that could have arisen from at least one observation drawn
/// from the value grammar: min and max within the grammar's range and the
/// sum bracketed by `count * min` and `count * max`.
pub open spec fn stats_wf(s: StatsModel) -> bool {
    &&& 1 <= s.count
    &&& -999 <= s.min <= s.max <= 999
    &&& s.min * s.count <= s.sum <= s.max * s.count
}

proof fn lemma_mul_le(a: int, b: int, c: int)
    requires
        a <= b,
        0 <= c,
    ensures
        a * c <= b * c,
{
    vstd::arithmetic::mul::lemma_mul_inequality(a, b, c);
}

/// The sum of a well-formed aggregate with a machine-representable count
/// stays far inside `i128`.
pub proof fn lemma_stats_sum_bound(s: StatsModel)
    requires
        stats_wf(s),
        s.count <= u64::MAX,
    ensures
        -999 * (u64::MAX as int) <= s.sum <= 999 * (u64::MAX as int),
{
    lemma_mul_le(-999, s.min, s.count as int);
    lemma_mul_le(s.max, 999, s.count as int);
    lemma_mul_le(s.count as int, u64::MAX as int, 999);
    assert(-999 * (s.count as int) == -(999 * (s.count as int)))
        by (nonlinear_arith);
    assert(-999 * (u64::MAX as int) == -(999 * (u64::MAX as int)))
        by (nonlinear_arith);
}

/// Combining well-formed aggregates yields a well-formed aggregate.
pub proof fn lemma_combine_wf(a: StatsModel, b: StatsModel)
    requires
        stats_wf(a),
        stats_wf(b),
    ensures
        stats_wf(stats_combine(a, b)),
{
    let c = stats_combine(a, b);
    lemma_mul_le(c.min, a.min, a.count as int);
    lemma_mul_le(c.min, b.min, b.count as int);
    lemma_mul_le(a.max, c.max, a.count as int);
    lemma_mul_le(b.max, c.max, b.count as int);
    vstd::arithmetic::mul::lemma_mul_is_distributive_add(c.min, a.count as int, b.count as int);
    vstd::arithmetic::mul::lemma_mul_is_distributive_add(c.max, a.count as int, b.count as int);
}

impl Stats {
    /// Aggregate seeded from a first observation.
    pub fn new(temperature: i32) -> (s: Self)
        requires
            -999 <= temperature <= 999,
        ensures
            s@ == stats_seed(temperature as int),
            stats_wf(s@),
    {
        Self {
            min: temperature,
            max: temperature,
            sum: temperature as i128,
            count: 1,
        }
    }

    /// Fold one further observation into the aggregate, in place.
    pub fn observe(&mut self, temperature: i32)
        requires
            stats_wf(old(self)@),
            -999 <= temperature <= 999,
            old(self).count < u64::MAX,
        ensures
            final(self)@ == stats_combine(old(self)@, stats_seed(temperature as int)),
            stats_wf(final(self)@),
    {
        proof {
            lemma_stats_sum_bound(self@);
            lemma_combine_wf(self@, stats_seed(temperature as int));
        }
        if temperature < self.min {
            self.min = temperature;
        }
        if temperature > self.max {
            self.max = temperature;
        }
        self.sum = self.sum + temperature as i128;
        self.count = self.count + 1;
    }

    /// Fold a whole aggregate (for another scan of the same key) into this
    /// one, in place.
    pub fn absorb(&mut self, other: &Stats)
        requires
            stats_wf(old(self)@),
            stats_wf(other@),
            old(self).count + other.count <= u64::MAX,
        ensures
            final(self)@ == stats_combine(old(self)@, other@),
            stats_wf(final(self)@),
    {
        proof {
            lemma_stats_sum_bound(self@);
            lemma_stats_sum_bound(other@);
            lemma_combine_wf(self@, other@);
        }
        if other.min < self.min {
            self.min = other.min;
        }
        if other.max > self.max {
            self.max = other.max;
        }
        self.sum = self.sum + other.sum;
        self.count = self.count + other.count;
    }
}

} // verus!
