use vstd::prelude::*;

use crate::event::{event_is_button_press, has_visual, is_button_press, Event, VISUAL_BIT};
use crate::trial::{trial_from_response_ready_index, trial_is_consistent, trial_of_window, Trial};

verus! {

/// Two non-response events closer than this, one of them with the visual bit,
/// open a trial window.
pub const CO_OCCURRENCE_MICROSECONDS: i64 = 100_000;

/// A gap between non-response events longer than this opens a trial window.
pub const PAUSE_MICROSECONDS: i64 = 10_000_000;

/// Whether the consecutive non-response events `a`, `b` mark `a` as the start of a trial.
pub open spec fn pair_starts_trial(a: Event, b: Event) -> bool {
    let gap = b.time_microseconds - a.time_microseconds;
    (gap < CO_OCCURRENCE_MICROSECONDS && (has_visual(a.trigger_code) || has_visual(b.trigger_code)))
        || gap > PAUSE_MICROSECONDS
}

/// Positions, below `n`, of the events that carry no button bit, in order.
pub open spec fn non_responses_before(events: Seq<Event>, n: int) -> Seq<int>
    decreases n,
{
    if n <= 0 {
        seq![]
    } else {
        let earlier = non_responses_before(events, n - 1);
        if is_button_press(events[n - 1].trigger_code) {
            earlier
        } else {
            earlier.push(n - 1)
        }
    }
}

/// Of the consecutive pairs of the positions `nr`, the first positions of the
/// pairs that start a trial, in order.
pub open spec fn boundaries_among(events: Seq<Event>, nr: Seq<int>) -> Seq<int>
    decreases nr.len(),
{
    if nr.len() < 2 {
        seq![]
    } else {
        let earlier = boundaries_among(events, nr.drop_last());
        let a = nr[nr.len() - 2];
        let b = nr[nr.len() - 1];
        if pair_starts_trial(events[a], events[b]) {
            earlier.push(a)
        } else {
            earlier
        }
    }
}

/// The trial-boundary indices of an event sequence.
pub open spec fn boundary_indices(events: Seq<Event>) -> Seq<int> {
    boundaries_among(events, non_responses_before(events, events.len() as int))
}

/// End of the `k`-th window: the next boundary, or the end of the sequence.
pub open spec fn window_end(events: Seq<Event>, b: Seq<int>, k: int) -> int {
    if k + 1 < b.len() {
        b[k + 1]
    } else {
        events.len() as int
    }
}

/// The half-open trial windows, one per boundary index.
pub open spec fn trial_windows(events: Seq<Event>) -> Seq<(int, int)> {
    let b = boundary_indices(events);
    Seq::new(b.len(), |k: int| (b[k], window_end(events, b, k)))
}

/// Reconstruction is defined: there is a boundary, and every window holds the
/// two events that carry its condition code.
pub open spec fn can_reconstruct(events: Seq<Event>) -> bool {
    let w = trial_windows(events);
    &&& w.len() >= 1
    &&& forall|k: int| 0 <= k < w.len() ==> #[trigger] w[k].1 - w[k].0 >= 2
}

/// The trials of an event sequence, one per window, in order.
pub open spec fn trials_of(events: Seq<Event>) -> Seq<Trial> {
    let w = trial_windows(events);
    Seq::new(w.len(), |k: int| trial_of_window(events.subrange(w[k].0, w[k].1)))
}

/// Positions as mathematical integers.
spec fn as_ints(v: Seq<usize>) -> Seq<int> {
    v.map_values(|i: usize| i as int)
}

proof fn lemma_non_responses_ordered(events: Seq<Event>, n: int)
    requires
        0 <= n <= events.len(),
    ensures
        forall|k: int|
            0 <= k < non_responses_before(events, n).len() ==> 0 <= #[trigger] non_responses_before(
                events,
                n,
            )[k] < n,
        forall|i: int, j: int|
            0 <= i < j < non_responses_before(events, n).len() ==> non_responses_before(events, n)[i]
                < non_responses_before(events, n)[j],
    decreases n,
{
    if n > 0 {
        lemma_non_responses_ordered(events, n - 1);
        let earlier = non_responses_before(events, n - 1);
        if !is_button_press(events[n - 1].trigger_code) {
            assert(non_responses_before(events, n) == earlier.push(n - 1));
        }
    }
}

proof fn lemma_boundaries_ordered(events: Seq<Event>, nr: Seq<int>, len: int)
    requires
        forall|k: int| 0 <= k < nr.len() ==> 0 <= #[trigger] nr[k] < len,
        forall|i: int, j: int| 0 <= i < j < nr.len() ==> nr[i] < nr[j],
    ensures
        forall|k: int|
            0 <= k < boundaries_among(events, nr).len() ==> 0 <= #[trigger] boundaries_among(
                events,
                nr,
            )[k] < len,
        forall|i: int, j: int|
            0 <= i < j < boundaries_among(events, nr).len() ==> boundaries_among(events, nr)[i]
                < boundaries_among(events, nr)[j],
        nr.len() >= 2 ==> forall|k: int|
            0 <= k < boundaries_among(events, nr).len() ==> #[trigger] boundaries_among(
                events,
                nr,
            )[k] <= nr[nr.len() - 2],
    decreases nr.len(),
{
    if nr.len() >= 2 {
        let shorter = nr.drop_last();
        assert(forall|k: int| 0 <= k < shorter.len() ==> shorter[k] == nr[k]);
        lemma_boundaries_ordered(events, shorter, len);
        let earlier = boundaries_among(events, shorter);
        let a = nr[nr.len() - 2];
        if shorter.len() >= 2 {
            assert(shorter[shorter.len() - 2] < a);
        }
        assert(forall|k: int| 0 <= k < earlier.len() ==> earlier[k] < a);
        if pair_starts_trial(events[a], events[nr[nr.len() - 1]]) {
            assert(boundaries_among(events, nr) == earlier.push(a));
        } else {
            assert(boundaries_among(events, nr) == earlier);
        }
    }
}

/// The boundary indices lie inside the sequence and strictly increase.
pub proof fn lemma_boundary_indices_ordered(events: Seq<Event>)
    ensures
        forall|k: int|
            0 <= k < boundary_indices(events).len() ==> 0 <= #[trigger] boundary_indices(events)[k]
                < events.len(),
        forall|i: int, j: int|
            0 <= i < j < boundary_indices(events).len() ==> boundary_indices(events)[i]
                < boundary_indices(events)[j],
{
    let n = events.len() as int;
    lemma_non_responses_ordered(events, n);
    lemma_boundaries_ordered(events, non_responses_before(events, n), n);
}

fn non_response_positions(events: &[Event]) -> (r: Vec<usize>)
    ensures
        as_ints(r@) == non_responses_before(events@, events@.len() as int),
{
    let mut r: Vec<usize> = Vec::new();
    let n = events.len();
    let mut i: usize = 0;
    while i < n
        invariant
            i <= n,
            n == events@.len(),
            as_ints(r@) == non_responses_before(events@, i as int),
        decreases n - i,
    {
        if !event_is_button_press(&events[i]) {
            r.push(i);
        }
        assert(as_ints(r@) =~= non_responses_before(events@, i + 1));
        i = i + 1;
    }
    r
}

fn starts_trial(a: &Event, b: &Event) -> (r: bool)
    ensures
        r == pair_starts_trial(*a, *b),
{
    let gap: i128 = (b.time_microseconds as i128) - (a.time_microseconds as i128);
    (gap < CO_OCCURRENCE_MICROSECONDS as i128 && (a.trigger_code & VISUAL_BIT != 0
        || b.trigger_code & VISUAL_BIT != 0)) || gap > PAUSE_MICROSECONDS as i128
}

fn boundaries(events: &[Event]) -> (r: Vec<usize>)
    ensures
        as_ints(r@) == boundary_indices(events@),
{
    let nr = non_response_positions(events);
    let ghost nri = as_ints(nr@);
    proof {
        lemma_non_responses_ordered(events@, events@.len() as int);
    }
    let mut r: Vec<usize> = Vec::new();
    if nr.len() < 2 {
        return r;
    }
    let mut j: usize = 1;
    while j < nr.len()
        invariant
            1 <= j <= nr@.len(),
            nri == as_ints(nr@),
            forall|k: int| 0 <= k < nri.len() ==> 0 <= #[trigger] nri[k] < events@.len(),
            as_ints(r@) == boundaries_among(events@, nri.take(j as int)),
        decreases nr@.len() - j,
    {
        let a = nr[j - 1];
        let b = nr[j];
        assert(nri[j - 1] == a as int && nri[j as int] == b as int);
        let ghost next = nri.take(j + 1);
        assert(next.drop_last() =~= nri.take(j as int));
        if starts_trial(&events[a], &events[b]) {
            r.push(a);
        }
        assert(as_ints(r@) =~= boundaries_among(events@, next));
        j = j + 1;
    }
    assert(nri.take(j as int) =~= nri);
    r
}

/// The half-open trial windows `(start, end)` of an event sequence.
pub fn windows_of(events: &[Event]) -> (r: Vec<(usize, usize)>)
    ensures
        r@.len() == trial_windows(events@).len(),
        forall|k: int|
            0 <= k < r@.len() ==> (r@[k].0 as int, r@[k].1 as int) == #[trigger] trial_windows(
                events@,
            )[k],
{
    let b = boundaries(events);
    let ghost bi = as_ints(b@);
    let mut r: Vec<(usize, usize)> = Vec::new();
    let mut k: usize = 0;
    while k < b.len()
        invariant
            k <= b@.len(),
            bi == as_ints(b@),
            bi == boundary_indices(events@),
            r@.len() == k,
            forall|m: int|
                0 <= m < k ==> (r@[m].0 as int, r@[m].1 as int) == #[trigger] trial_windows(
                    events@,
                )[m],
        decreases b@.len() - k,
    {
        let end = if k + 1 < b.len() {
            b[k + 1]
        } else {
            events.len()
        };
        r.push((b[k], end));
        k = k + 1;
    }
    r
}

/// Whether `reconstruct_trials` accepts the sequence.
pub fn reconstruction_defined(events: &[Event]) -> (r: bool)
    ensures
        r == can_reconstruct(events@),
{
    let w = windows_of(events);
    if w.len() == 0 {
        return false;
    }
    let mut k: usize = 0;
    while k < w.len()
        invariant
            k <= w@.len(),
            w@.len() == trial_windows(events@).len(),
            forall|m: int|
                0 <= m < w@.len() ==> (w@[m].0 as int, w@[m].1 as int) == #[trigger] trial_windows(
                    events@,
                )[m],
            forall|m: int| 0 <= m < k ==> #[trigger] trial_windows(events@)[m].1 - trial_windows(events@)[m].0 >= 2,
        decreases w@.len() - k,
    {
        let (start, end) = w[k];
        assert((start as int, end as int) == trial_windows(events@)[k as int]);
        if end < start || end - start < 2 {
            return false;
        }
        k = k + 1;
    }
    true
}

/// Splits an ordered event sequence into trial windows and scores each one.
pub fn reconstruct_trials(events: Vec<Event>) -> (r: Vec<Trial>)
    requires
        can_reconstruct(events@),
    ensures
        r@ == trials_of(events@),
        r@.len() >= 1,
        forall|i: int| 0 <= i < r@.len() ==> trial_is_consistent(#[trigger] r@[i]),
{
    let w = windows_of(events.as_slice());
    proof {
        lemma_boundary_indices_ordered(events@);
    }
    let mut r: Vec<Trial> = Vec::new();
    let mut k: usize = 0;
    while k < w.len()
        invariant
            k <= w@.len(),
            can_reconstruct(events@),
            w@.len() == trial_windows(events@).len(),
            forall|m: int|
                0 <= m < w@.len() ==> (w@[m].0 as int, w@[m].1 as int) == #[trigger] trial_windows(
                    events@,
                )[m],
            forall|m: int|
                0 <= m < boundary_indices(events@).len() ==> 0 <= #[trigger] boundary_indices(events@)[m]
                    < events@.len(),
            r@.len() == k,
            forall|m: int| 0 <= m < k ==> #[trigger] r@[m] == trials_of(events@)[m],
            forall|m: int| 0 <= m < k ==> trial_is_consistent(#[trigger] r@[m]),
        decreases w@.len() - k,
    {
        let (start, end) = w[k];
        assert((start as int, end as int) == trial_windows(events@)[k as int]);
        assert(trial_windows(events@)[k as int].1 - trial_windows(events@)[k as int].0 >= 2);
        let window = &events.as_slice()[start..end];
        let t = trial_from_response_ready_index(window);
        r.push(t);
        k = k + 1;
    }
    assert(r@ =~= trials_of(events@));
    r
}

/// When reconstruction is defined, the windows start at the boundary indices,
/// each is non-empty, each ends where the next begins, the last ends at the end
/// of the sequence, and there is exactly one trial per window.
pub proof fn lemma_windows_partition(events: Seq<Event>)
    requires
        can_reconstruct(events),
    ensures
        trial_windows(events).len() == boundary_indices(events).len(),
        trials_of(events).len() == trial_windows(events).len(),
        trials_of(events).len() >= 1,
        forall|k: int|
            0 <= k < trial_windows(events).len() ==> #[trigger] trial_windows(events)[k].0
                == boundary_indices(events)[k],
        forall|k: int|
            0 <= k < trial_windows(events).len() ==> 0 <= #[trigger] trial_windows(events)[k].0
                < trial_windows(events)[k].1 <= events.len(),
        forall|k: int|
            0 <= k < trial_windows(events).len() - 1 ==> #[trigger] trial_windows(events)[k].1
                == trial_windows(events)[k + 1].0,
        trial_windows(events).last().1 == events.len(),
        forall|k: int|
            0 <= k < trials_of(events).len() ==> #[trigger] trials_of(events)[k] == trial_of_window(
                events.subrange(trial_windows(events)[k].0, trial_windows(events)[k].1),
            ),
{
    lemma_boundary_indices_ordered(events);
}

/// Every reconstructed trial has a response time exactly when it is correct.
pub proof fn lemma_trials_consistent(events: Seq<Event>)
    ensures
        forall|k: int|
            0 <= k < trials_of(events).len() ==> trial_is_consistent(#[trigger] trials_of(events)[k]),
{
}

/// Reconstruction is a function of the event sequence alone.
pub proof fn lemma_reconstruction_deterministic(a: Seq<Event>, b: Seq<Event>)
    requires
        a == b,
    ensures
        trials_of(a) == trials_of(b),
        trial_windows(a) == trial_windows(b),
{
}

proof fn lemma_boundaries_prefix(events: Seq<Event>, nr: Seq<int>, m: int)
    requires
        0 <= m <= nr.len(),
    ensures
        boundaries_among(events, nr.take(m)).len() <= boundaries_among(events, nr).len(),
        forall|k: int|
            0 <= k < boundaries_among(events, nr.take(m)).len() ==> #[trigger] boundaries_among(
                events,
                nr.take(m),
            )[k] == boundaries_among(events, nr)[k],
    decreases nr.len(),
{
    if m == nr.len() {
        assert(nr.take(m) =~= nr);
    } else {
        let shorter = nr.drop_last();
        assert(shorter.take(m) =~= nr.take(m));
        lemma_boundaries_prefix(events, shorter, m);
    }
}

/// Two consecutive non-response events that meet the boundary rule make the
/// first of them a boundary index.
pub proof fn lemma_starting_pair_is_boundary(events: Seq<Event>, j: int)
    requires
        0 <= j,
        j + 1 < non_responses_before(events, events.len() as int).len(),
        pair_starts_trial(
            events[non_responses_before(events, events.len() as int)[j]],
            events[non_responses_before(events, events.len() as int)[j + 1]],
        ),
    ensures
        boundary_indices(events).contains(non_responses_before(events, events.len() as int)[j]),
{
    let nr = non_responses_before(events, events.len() as int);
    let t = nr.take(j + 2);
    assert(t.drop_last() =~= nr.take(j + 1));
    let bt = boundaries_among(events, t);
    assert(bt == boundaries_among(events, t.drop_last()).push(nr[j]));
    lemma_boundaries_prefix(events, nr, j + 2);
    assert(bt[bt.len() - 1] == nr[j]);
    assert(boundary_indices(events)[bt.len() - 1] == nr[j]);
}

/// A gap longer than the pause threshold between consecutive non-response
/// events always starts a new trial at the first of them.
pub proof fn lemma_pause_forces_boundary(events: Seq<Event>, j: int)
    requires
        0 <= j,
        j + 1 < non_responses_before(events, events.len() as int).len(),
        events[non_responses_before(events, events.len() as int)[j + 1]].time_microseconds
            - events[non_responses_before(events, events.len() as int)[j]].time_microseconds
            > PAUSE_MICROSECONDS,
    ensures
        boundary_indices(events).contains(non_responses_before(events, events.len() as int)[j]),
{
    lemma_starting_pair_is_boundary(events, j);
}

} // verus!
