//! The statistics by which a layout is judged: how many words it has, how
//! long they are on average, and how far both are from their targets.

use crate::runs::Run;
use std::ops::Range;
use vstd::prelude::*;

verus! {

/// Average word lengths are written in thousandths of a cell.
pub const AVG_SCALE: u128 = 1000;

/// The word statistics of a layout.
#[derive(Clone, Copy, Debug)]
pub struct Score {
    /// The number of runs.
    pub word_count: usize,
    /// The average length of a run in thousandths, rounded down; `None` for
    /// a layout without runs, which has no average.
    pub avg_len: Option<u128>,
}

/// The summed length of the runs.
pub open spec fn total_length(runs: Seq<Run>) -> int
    decreases runs.len(),
{
    if runs.len() == 0 {
        0
    } else {
        total_length(runs.drop_last()) + runs.last().2 as int
    }
}

/// The average length of the runs in thousandths, rounded down.
pub open spec fn mean_length(runs: Seq<Run>) -> Option<int> {
    if runs.len() == 0 {
        None
    } else {
        Some((1000 * total_length(runs)) / (runs.len() as int))
    }
}

/// The distance of a value from the half-open range `start..end`: nothing
/// inside the range, else the distance to the nearer bound.
pub open spec fn gap(start: int, end: int, v: int) -> int {
    if start <= v < end {
        0
    } else {
        let low = if start <= v {
            v - start
        } else {
            start - v
        };
        let high = if end <= v {
            v - end
        } else {
            end - v
        };
        if low <= high {
            low
        } else {
            high
        }
    }
}

/// The runs meet both targets: their number lies in `count`, and they have an
/// average length, which lies in `avg`.
pub open spec fn on_target(runs: Seq<Run>, avg: Range<u64>, count: Range<usize>) -> bool {
    &&& count.start <= runs.len() < count.end
    &&& mean_length(runs) matches Some(m)
    &&& avg.start <= m < avg.end
}

impl Score {
    /// The statistics are those of the runs.
    pub open spec fn describes(self, runs: Seq<Run>) -> bool {
        &&& self.word_count == runs.len()
        &&& match self.avg_len {
            Some(a) => mean_length(runs) == Some(a as int),
            None => mean_length(runs) is None,
        }
    }

    /// Both statistics lie in their target ranges.
    pub open spec fn spec_within(self, avg: Range<u64>, count: Range<usize>) -> bool {
        &&& count.start <= self.word_count < count.end
        &&& self.avg_len matches Some(a)
        &&& avg.start <= a < avg.end
    }

    /// The statistics of a list of runs.
    pub fn of(runs: &Vec<Run>) -> (score: Score)
        ensures
            score.describes(runs@),
    {
        let count = runs.len();
        let mut total: u128 = 0;
        let mut i: usize = 0;
        assert(runs@.take(0) =~= Seq::empty());
        while i < count
            invariant
                count == runs@.len(),
                i <= count,
                total == total_length(runs@.take(i as int)),
                total <= i * usize::MAX,
            decreases count - i,
        {
            proof {
                assert(runs@.take(i + 1).drop_last() =~= runs@.take(i as int));
                assert((i + 1) * usize::MAX == i * usize::MAX + usize::MAX) by (nonlinear_arith);
                assert((i + 1) * usize::MAX <= usize::MAX * usize::MAX) by (nonlinear_arith)
                    requires
                        i + 1 <= usize::MAX,
                ;
            }
            total = total + runs[i].2 as u128;
            i += 1;
        }
        assert(runs@.take(count as int) =~= runs@);
        if count == 0 {
            Score { word_count: count, avg_len: None }
        } else {
            let c = count as u128;
            let whole = total / c;
            let rest = total % c;
            proof {
                let t = total as int;
                let ci = c as int;
                vstd::arithmetic::div_mod::lemma_fundamental_div_mod(t, ci);
                assert(t / ci <= usize::MAX) by (nonlinear_arith)
                    requires
                        t <= ci * usize::MAX,
                        ci > 0,
                        t == ci * (t / ci) + t % ci,
                        0 <= t % ci,
                ;
                vstd::arithmetic::div_mod::lemma_hoist_over_denominator(
                    (t % ci) * 1000,
                    (t / ci) * 1000,
                    ci as nat,
                );
                assert((t % ci) * 1000 + ((t / ci) * 1000) * ci == 1000 * t) by (nonlinear_arith)
                    requires
                        t == ci * (t / ci) + t % ci,
                ;
            }
            let avg = whole * AVG_SCALE + (rest * AVG_SCALE) / c;
            Score { word_count: count, avg_len: Some(avg) }
        }
    }

    /// Whether both statistics lie in their target ranges.
    pub fn within(&self, avg: &Range<u64>, count: &Range<usize>) -> (inside: bool)
        ensures
            inside == self.spec_within(*avg, *count),
    {
        match self.avg_len {
            Some(a) => count.start <= self.word_count && self.word_count < count.end && avg.start as u128
                <= a && a < avg.end as u128,
            None => false,
        }
    }
}

/// The distance of a word count from its target range.
pub fn count_gap(target: &Range<usize>, count: usize) -> (d: usize)
    ensures
        d == gap(target.start as int, target.end as int, count as int),
{
    if target.start <= count && count < target.end {
        0
    } else {
        let low = if target.start <= count {
            count - target.start
        } else {
            target.start - count
        };
        let high = if target.end <= count {
            count - target.end
        } else {
            target.end - count
        };
        if low <= high {
            low
        } else {
            high
        }
    }
}

/// The distance of an average word length from its target range.
pub fn avg_gap(target: &Range<u64>, avg: u128) -> (d: u128)
    ensures
        d == gap(target.start as int, target.end as int, avg as int),
{
    let start = target.start as u128;
    let end = target.end as u128;
    if start <= avg && avg < end {
        0
    } else {
        let low = if start <= avg {
            avg - start
        } else {
            start - avg
        };
        let high = if end <= avg {
            avg - end
        } else {
            end - avg
        };
        if low <= high {
            low
        } else {
            high
        }
    }
}

/// Whether the outcome of a search pass is kept, and whether it ends the
/// search. An outcome is kept if it has an average word length and neither of
/// its distances from the targets is larger than that of the outcome kept
/// before; `best_avg_gap` and `best_count_gap` are those earlier distances,
/// the largest numbers while nothing is kept. A kept outcome ends the search
/// if it lies inside both target ranges. An outcome inside both ranges has the
/// distances zero, so it is always kept and always ends the search.
pub fn consider(
    best_avg_gap: u128,
    best_count_gap: usize,
    score: Score,
    avg: &Range<u64>,
    count: &Range<usize>,
) -> (verdict: (bool, bool))
    ensures
        verdict.0 == (score.avg_len matches Some(a) && gap(
            avg.start as int,
            avg.end as int,
            a as int,
        ) <= best_avg_gap && gap(count.start as int, count.end as int, score.word_count as int)
            <= best_count_gap),
        verdict.1 == (verdict.0 && score.spec_within(*avg, *count)),
        score.spec_within(*avg, *count) ==> verdict.0 && verdict.1 && gap(
            avg.start as int,
            avg.end as int,
            score.avg_len->0 as int,
        ) == 0 && gap(count.start as int, count.end as int, score.word_count as int) == 0,
{
    match score.avg_len {
        Some(a) => {
            let keep = avg_gap(avg, a) <= best_avg_gap && count_gap(count, score.word_count)
                <= best_count_gap;
            (keep, keep && score.within(avg, count))
        },
        None => (false, false),
    }
}

} // verus!
