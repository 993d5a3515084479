//! Epoch-series sampling summaries.
//!
//! A record's epochs are handled as nanosecond counts on one timeline,
//! sorted in time. The summaries here are what a quality report reads off
//! such a series: the consecutive sampling intervals and their histogram,
//! the dominant interval, the unusual gaps, and two ways of thinning the
//! series.

use vstd::prelude::*;

verus! {

/// Epochs come sorted in time.
pub open spec fn epochs_sorted(e: Seq<u64>) -> bool {
    forall|i: int| 0 <= i && i + 1 < e.len() ==> e[i] <= #[trigger] e[i + 1]
}

/// The consecutive sampling intervals of a series.
pub open spec fn deltas(e: Seq<u64>) -> Seq<u64> {
    if e.len() <= 1 {
        Seq::empty()
    } else {
        Seq::new((e.len() - 1) as nat, |i: int| (e[i + 1] - e[i]) as u64)
    }
}

/// How many entries of `ds` equal `d`.
pub open spec fn count_of(ds: Seq<u64>, d: u64) -> nat
    decreases ds.len(),
{
    if ds.len() == 0 {
        0
    } else {
        count_of(ds.drop_last(), d) + if ds.last() == d {
            1nat
        } else {
            0nat
        }
    }
}

/// How often the interval `d` occurs in the series.
pub open spec fn delta_count(e: Seq<u64>, d: u64) -> nat {
    count_of(deltas(e), d)
}

/// Whether some histogram entry carries the interval `d`.
pub open spec fn has_delta(r: Seq<(u64, usize)>, d: u64) -> bool {
    exists|a: int| 0 <= a < r.len() && (#[trigger] r[a]).0 == d
}

/// The interval `d` dominates the series: it occurs, nothing occurs more
/// often, and no smaller interval occurs as often.
pub open spec fn is_dominant(e: Seq<u64>, d: u64) -> bool {
    &&& delta_count(e, d) > 0
    &&& forall|x: u64| delta_count(e, x) <= delta_count(e, d)
    &&& forall|x: u64| delta_count(e, x) == delta_count(e, d) ==> d <= x
}

/// The gaps of a series wider than `tol`, from position `i` on: each as
/// (the epoch before the gap, the gap's width).
pub open spec fn gaps_from(e: Seq<u64>, tol: u64, i: int) -> Seq<(u64, u64)>
    decreases e.len() - i,
{
    if i < 0 || i + 1 >= e.len() {
        Seq::empty()
    } else {
        let d = (e[i + 1] - e[i]) as u64;
        let rest = gaps_from(e, tol, i + 1);
        if d > tol {
            seq![(e[i], d)] + rest
        } else {
            rest
        }
    }
}

/// Counts how often the interval `d` occurs in the series.
fn count_delta(epochs: &Vec<u64>, d: u64) -> (c: usize)
    requires
        epochs_sorted(epochs@),
    ensures
        c == delta_count(epochs@, d),
{
    if epochs.len() <= 1 {
        return 0;
    }
    let n: usize = epochs.len() - 1;
    let ghost ds = deltas(epochs@);
    let mut c: usize = 0;
    let mut k: usize = 0;
    while k < n
        invariant
            epochs_sorted(epochs@),
            0 <= k <= n == epochs@.len() - 1,
            ds == deltas(epochs@),
            c <= k,
            c == count_of(ds.take(k as int), d),
        decreases n - k,
    {
        proof {
            assert(ds.take(k + 1).drop_last() =~= ds.take(k as int));
            assert(ds.take(k + 1).last() == ds[k as int]);
            assert(ds[k as int] == (epochs@[k + 1] - epochs@[k as int]) as u64);
        }
        if epochs[k + 1] - epochs[k] == d {
            c = c + 1;
        }
        k = k + 1;
    }
    proof {
        assert(ds.take(n as int) =~= ds);
    }
    c
}

/// The histogram of the sampling intervals: each occurring interval once,
/// with how often it occurs. No order of the pairs is promised.
pub fn sampling_histogram(epochs: &Vec<u64>) -> (r: Vec<(u64, usize)>)
    requires
        epochs_sorted(epochs@),
    ensures
        forall|a: int, b: int| 0 <= a < b < r@.len() ==> r@[a].0 != r@[b].0,
        forall|a: int|
            0 <= a < r@.len() ==> (#[trigger] r@[a]).1 == delta_count(epochs@, r@[a].0) && r@[a].1
                > 0,
        forall|d: u64| delta_count(epochs@, d) > 0 ==> #[trigger] has_delta(r@, d),
{
    let mut r: Vec<(u64, usize)> = Vec::new();
    if epochs.len() <= 1 {
        return r;
    }
    let n: usize = epochs.len() - 1;
    let ghost ds = deltas(epochs@);
    let mut k: usize = 0;
    while k < n
        invariant
            epochs_sorted(epochs@),
            0 <= k <= n == epochs@.len() - 1,
            ds == deltas(epochs@),
            forall|a: int, b: int| 0 <= a < b < r@.len() ==> r@[a].0 != r@[b].0,
            forall|a: int|
                0 <= a < r@.len() ==> (#[trigger] r@[a]).1 == delta_count(epochs@, r@[a].0)
                    && r@[a].1 > 0,
            forall|j: int| 0 <= j < k ==> #[trigger] has_delta(r@, ds[j]),
        decreases n - k,
    {
        let ghost r_entry = r@;
        let d: u64 = epochs[k + 1] - epochs[k];
        proof {
            assert(ds[k as int] == d);
        }
        let mut seen: bool = false;
        let mut a: usize = 0;
        while a < r.len()
            invariant
                0 <= a <= r@.len(),
                r@ == r_entry,
                seen <==> exists|b: int| 0 <= b < a && (#[trigger] r@[b]).0 == d,
            decreases r@.len() - a,
        {
            if r[a].0 == d {
                seen = true;
            }
            a = a + 1;
        }
        proof {
            assert(seen == has_delta(r@, d));
        }
        if !seen {
            let c = count_delta(epochs, d);
            proof {
                assert(c > 0) by {
                    lemma_filter_count_pos(ds, d, k as int);
                }
            }
            r.push((d, c));
            proof {
                assert forall|x: int, y: int| 0 <= x < y < r@.len() implies r@[x].0 != r@[y].0 by {
                    if y < r@.len() - 1 {
                        assert(r@[x] == r_entry[x] && r@[y] == r_entry[y]);
                    } else {
                        assert(r@[x] == r_entry[x]);
                    }
                }
                assert(r@[r@.len() - 1].0 == d);
                assert(has_delta(r@, d));
            }
        }
        proof {
            assert forall|x: u64| has_delta(r_entry, x) implies has_delta(r@, x) by {
                let b = choose|b: int| 0 <= b < r_entry.len() && (#[trigger] r_entry[b]).0 == x;
                assert(r@[b].0 == x);
            }
            assert(has_delta(r@, d));
        }
        k = k + 1;
        proof {
            assert forall|j: int| 0 <= j < k implies #[trigger] has_delta(r@, ds[j]) by {
                if j == k - 1 {
                    assert(ds[j] == d);
                } else {
                    assert(has_delta(r_entry, ds[j]));
                }
            }
        }
    }
    proof {
        assert forall|d: u64| delta_count(epochs@, d) > 0 implies #[trigger] has_delta(r@, d) by {
            lemma_count_pos_witness(ds, d);
            let j = choose|j: int| 0 <= j < ds.len() && ds[j] == d;
            assert(has_delta(r@, ds[j]));
        }
    }
    r
}

/// An interval that occurs at position `i` has a positive count.
proof fn lemma_filter_count_pos(ds: Seq<u64>, d: u64, i: int)
    requires
        0 <= i < ds.len(),
        ds[i] == d,
    ensures
        count_of(ds, d) > 0,
    decreases ds.len(),
{
    if i == ds.len() - 1 {
    } else {
        lemma_filter_count_pos(ds.drop_last(), d, i);
    }
}

/// A positive count names a position where the interval occurs.
proof fn lemma_count_pos_witness(ds: Seq<u64>, d: u64)
    requires
        count_of(ds, d) > 0,
    ensures
        exists|j: int| 0 <= j < ds.len() && ds[j] == d,
    decreases ds.len(),
{
    if ds.len() > 0 {
        if ds.last() == d {
            assert(ds[ds.len() - 1] == d);
        } else {
            lemma_count_pos_witness(ds.drop_last(), d);
            let j = choose|j: int| 0 <= j < ds.drop_last().len() && ds.drop_last()[j] == d;
            assert(ds[j] == d);
        }
    }
}

/// The most frequent sampling interval, the smallest one when several tie;
/// nothing when the series has no interval at all.
pub fn dominant_sample_rate(epochs: &Vec<u64>) -> (r: Option<u64>)
    requires
        epochs_sorted(epochs@),
    ensures
        r is Some <==> epochs@.len() >= 2,
        r is Some ==> is_dominant(epochs@, r.unwrap()),
{
    if epochs.len() <= 1 {
        return None;
    }
    let hist = sampling_histogram(epochs);
    proof {
        let d0 = (epochs@[1] - epochs@[0]) as u64;
        assert(deltas(epochs@)[0] == d0);
        lemma_filter_count_pos(deltas(epochs@), d0, 0);
        assert(delta_count(epochs@, d0) > 0);
        assert(has_delta(hist@, d0));
        let b = choose|b: int| 0 <= b < hist@.len() && (#[trigger] hist@[b]).0 == d0;
        assert(hist@.len() > 0);
    }
    let mut best_d: u64 = hist[0].0;
    let mut best_c: usize = hist[0].1;
    let mut a: usize = 1;
    while a < hist.len()
        invariant
            1 <= a <= hist@.len(),
            forall|b: int, c: int| 0 <= b < c < hist@.len() ==> hist@[b].0 != hist@[c].0,
            forall|b: int|
                0 <= b < hist@.len() ==> (#[trigger] hist@[b]).1 == delta_count(epochs@, hist@[b].0)
                    && hist@[b].1 > 0,
            best_c == delta_count(epochs@, best_d),
            best_c > 0,
            forall|b: int| 0 <= b < a ==> (#[trigger] hist@[b]).1 <= best_c,
            forall|b: int|
                0 <= b < a && (#[trigger] hist@[b]).1 == best_c ==> best_d <= hist@[b].0,
        decreases hist@.len() - a,
    {
        if hist[a].1 > best_c || (hist[a].1 == best_c && hist[a].0 < best_d) {
            best_d = hist[a].0;
            best_c = hist[a].1;
        }
        a = a + 1;
    }
    proof {
        assert forall|x: u64| delta_count(epochs@, x) <= delta_count(epochs@, best_d) by {
            if delta_count(epochs@, x) > 0 {
                assert(has_delta(hist@, x));
                let b = choose|b: int| 0 <= b < hist@.len() && (#[trigger] hist@[b]).0 == x;
            }
        }
        assert forall|x: u64|
            delta_count(epochs@, x) == delta_count(epochs@, best_d) implies best_d <= x by {
            assert(delta_count(epochs@, x) > 0);
            assert(has_delta(hist@, x));
            let b = choose|b: int| 0 <= b < hist@.len() && (#[trigger] hist@[b]).0 == x;
        }
    }
    Some(best_d)
}

/// The gaps of a series wider than `tol`: each as (the epoch before the
/// gap, the gap's width).
pub fn gaps_wider_than(epochs: &Vec<u64>, tol: u64) -> (r: Vec<(u64, u64)>)
    requires
        epochs_sorted(epochs@),
    ensures
        r@ == gaps_from(epochs@, tol, 0),
{
    let mut r: Vec<(u64, u64)> = Vec::new();
    if epochs.len() == 0 {
        return r;
    }
    let n: usize = epochs.len() - 1;
    let mut i: usize = 0;
    proof {
        assert(Seq::<(u64, u64)>::empty() + gaps_from(epochs@, tol, 0) =~= gaps_from(
            epochs@,
            tol,
            0,
        ));
    }
    while i < n
        invariant
            epochs_sorted(epochs@),
            0 <= i <= n == epochs@.len() - 1,
            r@ + gaps_from(epochs@, tol, i as int) == gaps_from(epochs@, tol, 0),
        decreases n - i,
    {
        let d: u64 = epochs[i + 1] - epochs[i];
        if d > tol {
            let ghost before = r@;
            r.push((epochs[i], d));
            proof {
                assert(before + (seq![(epochs@[i as int], d)] + gaps_from(epochs@, tol, i + 1))
                    =~= r@ + gaps_from(epochs@, tol, i + 1));
            }
        }
        i = i + 1;
    }
    proof {
        assert(gaps_from(epochs@, tol, n as int) =~= Seq::<(u64, u64)>::empty());
        assert(r@ + Seq::<(u64, u64)>::empty() =~= r@);
    }
    r
}

/// The unusual gaps of a series: wider than the given tolerance, or, when
/// none is given, wider than the dominant sampling interval; an empty list
/// when neither exists.
pub fn data_gaps(epochs: &Vec<u64>, tolerance: Option<u64>) -> (r: Vec<(u64, u64)>)
    requires
        epochs_sorted(epochs@),
    ensures
        tolerance is Some ==> r@ == gaps_from(epochs@, tolerance.unwrap(), 0),
        tolerance is None && epochs@.len() >= 2 ==> exists|d: u64|
            is_dominant(epochs@, d) && r@ == gaps_from(epochs@, d, 0),
        tolerance is None && epochs@.len() < 2 ==> r@ == Seq::<(u64, u64)>::empty(),
{
    match tolerance {
        Some(tol) => gaps_wider_than(epochs, tol),
        None => {
            match dominant_sample_rate(epochs) {
                Some(d) => gaps_wider_than(epochs, d),
                None => Vec::new(),
            }
        },
    }
}

/// The series thinned to every `step`-th epoch, from position `i` on.
pub open spec fn decimated_from(e: Seq<u64>, step: int, i: int) -> Seq<u64>
    decreases e.len() - i,
{
    if i < 0 || i >= e.len() || step < 1 {
        Seq::empty()
    } else {
        let next = if i + step > e.len() {
            e.len() as int
        } else {
            i + step
        };
        seq![e[i]] + decimated_from(e, step, next)
    }
}

/// Keeps every `ratio`-th epoch, starting with the first.
pub fn decimate_by_ratio(epochs: &Vec<u64>, ratio: usize) -> (r: Vec<u64>)
    requires
        ratio >= 1,
    ensures
        r@ == decimated_from(epochs@, ratio as int, 0),
{
    let mut r: Vec<u64> = Vec::new();
    let mut i: usize = 0;
    proof {
        assert(Seq::<u64>::empty() + decimated_from(epochs@, ratio as int, 0) =~= decimated_from(
            epochs@,
            ratio as int,
            0,
        ));
    }
    while i < epochs.len()
        invariant
            ratio >= 1,
            0 <= i,
            r@ + decimated_from(epochs@, ratio as int, i as int) == decimated_from(
                epochs@,
                ratio as int,
                0,
            ),
        decreases epochs@.len() - i,
    {
        let ghost before = r@;
        r.push(epochs[i]);
        if ratio > epochs.len() - i {
            proof {
                assert(decimated_from(epochs@, ratio as int, epochs@.len() as int) =~= Seq::<
                    u64,
                >::empty());
                assert(before + (seq![epochs@[i as int]] + Seq::<u64>::empty()) =~= r@);
            }
            return r;
        }
        proof {
            assert(before + (seq![epochs@[i as int]] + decimated_from(
                epochs@,
                ratio as int,
                i + ratio,
            )) =~= r@ + decimated_from(epochs@, ratio as int, i + ratio));
        }
        i = i + ratio;
    }
    proof {
        assert(decimated_from(epochs@, ratio as int, i as int) =~= Seq::<u64>::empty());
        assert(r@ + Seq::<u64>::empty() =~= r@);
    }
    r
}

/// The series thinned so that kept epochs lie at least `dt` apart, from
/// position `i` on, `last` being the epoch kept most recently.
pub open spec fn thinned_from(e: Seq<u64>, dt: u64, i: int, last: u64) -> Seq<u64>
    decreases e.len() - i,
{
    if i < 0 || i >= e.len() {
        Seq::empty()
    } else if e[i] >= last && (e[i] - last) as u64 >= dt {
        seq![e[i]] + thinned_from(e, dt, i + 1, e[i])
    } else {
        thinned_from(e, dt, i + 1, last)
    }
}

/// Keeps the first epoch and, after each kept epoch, the next one at
/// least `interval` away.
pub fn decimate_by_interval(epochs: &Vec<u64>, interval: u64) -> (r: Vec<u64>)
    requires
        epochs_sorted(epochs@),
    ensures
        epochs@.len() == 0 ==> r@ == Seq::<u64>::empty(),
        epochs@.len() > 0 ==> r@ == seq![epochs@[0]] + thinned_from(
            epochs@,
            interval,
            1,
            epochs@[0],
        ),
{
    let mut r: Vec<u64> = Vec::new();
    if epochs.len() == 0 {
        return r;
    }
    r.push(epochs[0]);
    let mut last: u64 = epochs[0];
    let mut i: usize = 1;
    proof {
        assert(r@ =~= seq![epochs@[0]]);
        assert(seq![epochs@[0]] + thinned_from(epochs@, interval, 1, epochs@[0]) =~= r@
            + thinned_from(epochs@, interval, 1, epochs@[0]));
    }
    while i < epochs.len()
        invariant
            epochs_sorted(epochs@),
            epochs@.len() > 0,
            1 <= i,
            r@ + thinned_from(epochs@, interval, i as int, last) == seq![epochs@[0]]
                + thinned_from(epochs@, interval, 1, epochs@[0]),
            exists|j: int| 0 <= j < i && last == epochs@[j],
        decreases epochs@.len() - i,
    {
        proof {
            let j = choose|j: int| 0 <= j < i && last == epochs@[j];
            lemma_sorted_le(epochs@, j, i as int);
        }
        if epochs[i] - last >= interval {
            let ghost before = r@;
            r.push(epochs[i]);
            proof {
                assert(before + (seq![epochs@[i as int]] + thinned_from(
                    epochs@,
                    interval,
                    i + 1,
                    epochs@[i as int],
                )) =~= r@ + thinned_from(epochs@, interval, i + 1, epochs@[i as int]));
            }
            last = epochs[i];
        }
        i = i + 1;
    }
    proof {
        assert(thinned_from(epochs@, interval, i as int, last) =~= Seq::<u64>::empty());
        assert(r@ + Seq::<u64>::empty() =~= r@);
    }
    r
}

/// Sorted epochs never step down.
proof fn lemma_sorted_le(e: Seq<u64>, i: int, j: int)
    requires
        epochs_sorted(e),
        0 <= i <= j < e.len(),
    ensures
        e[i] <= e[j],
    decreases j - i,
{
    if i < j {
        lemma_sorted_le(e, i + 1, j);
    }
}

/// The sampling summary of one record: its first and last epoch, its
/// span, the sample rate its header declares, the dominant interval of
/// its epoch series, and the unusual gaps.
#[derive(Clone, PartialEq, Eq, Debug)]
pub struct QcSamplingAnalysis {
    /// First epoch of the series.
    pub first_epoch: Option<u64>,
    /// Last epoch of the series.
    pub last_epoch: Option<u64>,
    /// Time span from first to last epoch.
    pub duration: Option<u64>,
    /// The sample rate the record's header declares, handed through.
    pub sample_rate: Option<u64>,
    /// The most frequent sampling interval of the series.
    pub dominant_sample_rate: Option<u64>,
    /// Gaps wider than the tolerance, or than the dominant interval.
    pub gaps: Vec<(u64, u64)>,
}

impl QcSamplingAnalysis {
    /// Summarizes one epoch series, with the header's declared sample
    /// rate and the gap tolerance handed in.
    pub fn new(epochs: &Vec<u64>, sample_rate: Option<u64>, gap_tolerance: Option<u64>) -> (r:
        QcSamplingAnalysis)
        requires
            epochs_sorted(epochs@),
        ensures
            r.first_epoch == (if epochs@.len() > 0 {
                Some(epochs@[0])
            } else {
                None::<u64>
            }),
            r.last_epoch == (if epochs@.len() > 0 {
                Some(epochs@[epochs@.len() - 1])
            } else {
                None::<u64>
            }),
            r.duration == (if epochs@.len() > 0 {
                Some((epochs@[epochs@.len() - 1] - epochs@[0]) as u64)
            } else {
                None::<u64>
            }),
            r.sample_rate == sample_rate,
            r.dominant_sample_rate is Some <==> epochs@.len() >= 2,
            r.dominant_sample_rate is Some ==> is_dominant(epochs@, r.dominant_sample_rate.unwrap()),
            gap_tolerance is Some ==> r.gaps@ == gaps_from(epochs@, gap_tolerance.unwrap(), 0),
            gap_tolerance is None && epochs@.len() >= 2 ==> exists|d: u64|
                is_dominant(epochs@, d) && r.gaps@ == gaps_from(epochs@, d, 0),
            gap_tolerance is None && epochs@.len() < 2 ==> r.gaps@ == Seq::<(u64, u64)>::empty(),
    {
        let first_epoch: Option<u64>;
        let last_epoch: Option<u64>;
        let duration: Option<u64>;
        if epochs.len() > 0 {
            let first: u64 = epochs[0];
            let last: u64 = epochs[epochs.len() - 1];
            proof {
                lemma_sorted_le(epochs@, 0, epochs@.len() - 1);
            }
            first_epoch = Some(first);
            last_epoch = Some(last);
            duration = Some(last - first);
        } else {
            first_epoch = None;
            last_epoch = None;
            duration = None;
        }
        QcSamplingAnalysis {
            first_epoch,
            last_epoch,
            duration,
            sample_rate,
            dominant_sample_rate: dominant_sample_rate(epochs),
            gaps: data_gaps(epochs, gap_tolerance),
        }
    }
}

} // verus!
