//! What holds of the sums of counts in every frequency model.

use crate::range_encoder::cumulative;
use crate::range_encoder::RangeEncoder;
use vstd::prelude::*;

verus! {

/// The sum of the counts below a symbol grows with the symbol.
pub proof fn lemma_cumulative_is_monotonic(counts: Seq<u64>, low: int, high: int)
    requires
        low <= high,
    ensures
        cumulative(counts, low) <= cumulative(counts, high),
    decreases high - low,
{
    if low < high {
        lemma_cumulative_is_monotonic(counts, low, high - 1);
    }
}

/// Counts that are all zero add up to zero.
pub proof fn lemma_cumulative_of_zeros(counts: Seq<u64>, symbol: int)
    requires
        0 <= symbol <= counts.len(),
        forall|i: int| 0 <= i < counts.len() ==> counts[i] == 0,
    ensures
        cumulative(counts, symbol) == 0,
    decreases symbol,
{
    if symbol > 0 {
        lemma_cumulative_of_zeros(counts, symbol - 1);
    }
}

/// No count is larger than the sum of all counts.
pub proof fn lemma_count_within_total(counts: Seq<u64>, symbol: int)
    requires
        0 <= symbol < counts.len(),
    ensures
        counts[symbol] <= cumulative(counts, counts.len() as int),
{
    lemma_cumulative_is_monotonic(counts, symbol + 1, counts.len() as int);
}

/// The sums of counts below `bound` after the count of `symbol` has been
/// raised by one.
pub proof fn lemma_raising_a_count_below(counts: Seq<u64>, symbol: int, bound: int)
    requires
        0 <= symbol < counts.len(),
        0 <= bound <= counts.len(),
        counts[symbol] < u64::MAX,
    ensures
        cumulative(counts.update(symbol, (counts[symbol] + 1) as u64), bound) == cumulative(
            counts,
            bound,
        ) + if symbol < bound {
            1nat
        } else {
            0nat
        },
    decreases bound,
{
    if bound > 0 {
        lemma_raising_a_count_below(counts, symbol, bound - 1);
    }
}

/// Raising one count by one raises the sum of all counts by one.
pub proof fn lemma_raising_a_count(counts: Seq<u64>, symbol: int)
    requires
        0 <= symbol < counts.len(),
        counts[symbol] < u64::MAX,
    ensures
        cumulative(counts.update(symbol, (counts[symbol] + 1) as u64), counts.len() as int)
            == cumulative(counts, counts.len() as int) + 1,
{
    lemma_raising_a_count_below(counts, symbol, counts.len() as int);
}

/// In a model whose counts add up, the place where a symbol's part begins
/// moves up with the symbol and starts at zero: `base` is non-decreasing,
/// and `base(0) == 0`.
pub proof fn lemma_base_is_monotonic(model: RangeEncoder, low: int, high: int)
    requires
        0 <= low <= high,
    ensures
        !model.base(high).lt(model.base(low)),
        model.base(0).num == 0,
{
    lemma_cumulative_is_monotonic(model.density_map@, low, high);
    let a = cumulative(model.density_map@, low);
    let b = cumulative(model.density_map@, high);
    let l = model.length as nat;
    assert(a * l <= b * l) by (nonlinear_arith)
        requires
            a <= b,
    ;
}

} // verus!
