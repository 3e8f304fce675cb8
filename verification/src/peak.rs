//! The peak search: the strongest strict local maximum of an autocorrelation
//! inside a band of lags.

use vstd::prelude::*;
use crate::binary32::{greater, gt, MINUS_ONE};

verus! {

/// Lag `i` is a candidate of `ac`: it has a neighbour on either side, its value
/// exceeds both of them, and it exceeds -1, the value from which the running
/// maximum starts. Lag 0 has no left neighbour and is never a candidate.
pub open spec fn qualifies(ac: Seq<u32>, i: int) -> bool {
    &&& 1 <= i
    &&& i + 1 < ac.len()
    &&& greater(ac[i], MINUS_ONE)
    &&& greater(ac[i], ac[i - 1])
    &&& greater(ac[i], ac[i + 1])
}

/// Some lag in `start <= j < end` is a candidate.
pub open spec fn has_candidate(ac: Seq<u32>, start: int, end: int) -> bool {
    exists|j: int| start <= j < end && #[trigger] qualifies(ac, j)
}

/// `lag` is the winner among the candidates in `start <= j < end`: no candidate
/// exceeds it, and every candidate before it is strictly smaller, so that of
/// several equal maxima the first one wins.
pub open spec fn is_peak(ac: Seq<u32>, start: int, end: int, lag: int) -> bool {
    &&& start <= lag < end
    &&& qualifies(ac, lag)
    &&& forall|j: int| start <= j < end && #[trigger] qualifies(ac, j) ==> !greater(ac[j], ac[lag])
    &&& forall|j: int| start <= j < lag && #[trigger] qualifies(ac, j) ==> greater(ac[lag], ac[j])
}

/// The winning lag, or `None` where the band holds no candidate.
pub open spec fn peak_lag(ac: Seq<u32>, start: int, end: int) -> Option<int> {
    if has_candidate(ac, start, end) {
        Some(choose|lag: int| is_peak(ac, start, end, lag))
    } else {
        None
    }
}

/// A band has at most one winner.
pub proof fn lemma_peak_unique(ac: Seq<u32>, start: int, end: int, a: int, b: int)
    requires
        is_peak(ac, start, end, a),
        is_peak(ac, start, end, b),
    ensures
        a == b,
{
    if a < b {
        assert(greater(ac[b], ac[a]));
        assert(!greater(ac[b], ac[a]));
    }
    if b < a {
        assert(greater(ac[a], ac[b]));
        assert(!greater(ac[a], ac[b]));
    }
}

/// A winner, once exhibited, is the one that `peak_lag` names.
pub proof fn lemma_peak_lag_is(ac: Seq<u32>, start: int, end: int, lag: int)
    requires
        is_peak(ac, start, end, lag),
    ensures
        peak_lag(ac, start, end) == Some(lag),
{
    assert(has_candidate(ac, start, end));
    let chosen = choose|l: int| is_peak(ac, start, end, l);
    lemma_peak_unique(ac, start, end, chosen, lag);
}

/// The candidates in `start <= j < upto` that no candidate there exceeds, the first
/// of them: the winner of the band cut at `upto`.
proof fn lemma_prefix_has_peak(ac: Seq<u32>, start: int, upto: int, j: int) -> (lag: int)
    requires
        start <= j < upto,
        qualifies(ac, j),
    ensures
        is_peak(ac, start, upto, lag),
    decreases upto - start,
{
    if j == upto - 1 {
        if exists|k: int| start <= k < upto - 1 && #[trigger] qualifies(ac, k) {
            let k = choose|k: int| start <= k < upto - 1 && #[trigger] qualifies(ac, k);
            let before = lemma_prefix_has_peak(ac, start, upto - 1, k);
            if greater(ac[j], ac[before]) {
                assert(is_peak(ac, start, upto, j));
                j
            } else {
                assert(is_peak(ac, start, upto, before));
                before
            }
        } else {
            assert(is_peak(ac, start, upto, j));
            j
        }
    } else {
        let before = lemma_prefix_has_peak(ac, start, upto - 1, j);
        if qualifies(ac, upto - 1) && greater(ac[upto - 1], ac[before]) {
            assert(is_peak(ac, start, upto, upto - 1));
            upto - 1
        } else {
            assert(is_peak(ac, start, upto, before));
            before
        }
    }
}

/// A band with a candidate has a winner, and `peak_lag` names it.
pub proof fn lemma_candidate_has_peak(ac: Seq<u32>, start: int, end: int, j: int)
    requires
        start <= j < end,
        qualifies(ac, j),
    ensures
        peak_lag(ac, start, end) matches Some(lag) && is_peak(ac, start, end, lag),
{
    let lag = lemma_prefix_has_peak(ac, start, end, j);
    lemma_peak_lag_is(ac, start, end, lag);
}

/// An autocorrelation in which no sample exceeds its left neighbour (a flat one,
/// or one that never rises) has no peak in any band.
pub proof fn lemma_no_rise_no_peak(ac: Seq<u32>, start: int, end: int)
    requires
        forall|i: int| 1 <= i < ac.len() ==> !greater(#[trigger] ac[i], ac[i - 1]),
    ensures
        peak_lag(ac, start, end) is None,
{
    assert forall|j: int| start <= j < end implies !#[trigger] qualifies(ac, j) by {
        if 1 <= j && j + 1 < ac.len() {
            assert(!greater(ac[j], ac[j - 1]));
        }
    }
}

/// Scans the lags `start <= i < end` of `ac` in rising order and returns the
/// winning one.
///
/// The scan keeps a running maximum that starts at -1. A lag replaces it only
/// where its value exceeds the running maximum and both neighbouring values.
pub fn find_peak(ac: &[u32], start: usize, end: usize) -> (r: Option<usize>)
    ensures
        r is None <==> !has_candidate(ac@, start as int, end as int),
        r matches Some(lag) ==> is_peak(ac@, start as int, end as int, lag as int),
        match r {
            Some(lag) => peak_lag(ac@, start as int, end as int) == Some(lag as int),
            None => peak_lag(ac@, start as int, end as int) is None,
        },
{
    let last: usize = if ac.len() == 0 { 0 } else { ac.len() - 1 };
    let stop: usize = if end < last { end } else { last };
    let mut best: Option<usize> = None;
    let mut max: u32 = MINUS_ONE;
    let mut i: usize = start;
    while i < stop
        invariant
            start <= i,
            stop <= end,
            stop + 1 <= ac.len() || stop == 0,
            best is Some ==> i <= stop,
            match best {
                None => {
                    &&& max == MINUS_ONE
                    &&& forall|j: int| start <= j < i ==> !#[trigger] qualifies(ac@, j)
                },
                Some(lag) => {
                    &&& start <= lag < i
                    &&& qualifies(ac@, lag as int)
                    &&& max == ac@[lag as int]
                    &&& forall|j: int| start <= j < i && #[trigger] qualifies(ac@, j)
                        ==> !greater(ac@[j], ac@[lag as int])
                    &&& forall|j: int| start <= j < lag && #[trigger] qualifies(ac@, j)
                        ==> greater(ac@[lag as int], ac@[j])
                },
            },
        decreases stop - i,
    {
        let value: u32 = ac[i];
        if gt(value, max) && i >= 1 && gt(value, ac[i - 1]) && gt(value, ac[i + 1]) {
            assert(qualifies(ac@, i as int));
            max = value;
            best = Some(i);
        }
        i = i + 1;
    }
    proof {
        assert forall|j: int| i <= j < end implies !#[trigger] qualifies(ac@, j) by {}
        match best {
            Some(lag) => {
                assert(is_peak(ac@, start as int, end as int, lag as int));
                lemma_peak_lag_is(ac@, start as int, end as int, lag as int);
            },
            None => {
                assert(!has_candidate(ac@, start as int, end as int));
            },
        }
    }
    best
}

} // verus!
