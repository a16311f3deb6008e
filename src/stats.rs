use vstd::prelude::*;

use crate::trial::{lemma_floor_of_negative, Condition, Sex, Trial};

verus! {

/// Number of correctly answered trials.
pub open spec fn correct_count(trials: Seq<Trial>) -> int
    decreases trials.len(),
{
    if trials.len() == 0 {
        0
    } else {
        correct_count(trials.drop_last()) + if trials.last().correct_response {
            1int
        } else {
            0int
        }
    }
}

/// Sum of the response times of the correctly answered trials.
pub open spec fn correct_time_sum(trials: Seq<Trial>) -> int
    decreases trials.len(),
{
    if trials.len() == 0 {
        0
    } else {
        correct_time_sum(trials.drop_last()) + if trials.last().correct_response {
            match trials.last().response_time_milliseconds {
                Some(t) => t as int,
                None => 0int,
            }
        } else {
            0int
        }
    }
}

/// Every correctly answered trial carries a response time.
pub open spec fn correct_trials_timed(trials: Seq<Trial>) -> bool {
    forall|i: int|
        0 <= i < trials.len() && #[trigger] trials[i].correct_response
            ==> trials[i].response_time_milliseconds is Some
}

/// Mean response time of the correct trials, rounded half up; none without correct trials.
pub open spec fn mean_reaction_time(trials: Seq<Trial>) -> Option<int> {
    let n = correct_count(trials);
    if n == 0 {
        None
    } else {
        Some((correct_time_sum(trials) + n / 2) / n)
    }
}

/// The trials of one condition and sex, in order.
pub open spec fn of_stimulus(trials: Seq<Trial>, condition: Condition, sex: Sex) -> Seq<Trial> {
    trials.filter(|t: Trial| t.condition == condition && t.sex == sex)
}

proof fn lemma_counts_bounded(trials: Seq<Trial>)
    requires
        correct_trials_timed(trials),
    ensures
        0 <= correct_count(trials) <= trials.len(),
        -0x8000_0000_0000_0000 * correct_count(trials) <= correct_time_sum(trials)
            <= 0x7fff_ffff_ffff_ffff * correct_count(trials),
    decreases trials.len(),
{
    if trials.len() > 0 {
        let shorter = trials.drop_last();
        assert forall|i: int|
            0 <= i < shorter.len() && #[trigger] shorter[i].correct_response implies shorter[i].response_time_milliseconds is Some by {
            assert(shorter[i] == trials[i]);
        }
        lemma_counts_bounded(shorter);
        assert(trials.last() == trials[trials.len() - 1]);
    }
}

/// Number of trials scored correct.
pub fn correct_trial_count(trials: &[Trial]) -> (r: usize)
    ensures
        r == correct_count(trials@),
{
    let mut count: usize = 0;
    let mut i: usize = 0;
    while i < trials.len()
        invariant
            i <= trials@.len(),
            count == correct_count(trials@.take(i as int)),
            count <= i,
        decreases trials@.len() - i,
    {
        assert(trials@.take(i + 1).drop_last() =~= trials@.take(i as int));
        if trials[i].correct_response {
            count = count + 1;
        }
        i = i + 1;
    }
    assert(trials@.take(i as int) =~= trials@);
    count
}

/// Mean response time over the correct trials, rounded half up, or `None`
/// when no trial is correct.
pub fn reaction_time_milliseconds(trials: &[Trial]) -> (r: Option<i64>)
    requires
        correct_trials_timed(trials@),
    ensures
        match mean_reaction_time(trials@) {
            Some(m) => r == Some(m as i64) && i64::MIN <= m <= i64::MAX,
            None => r is None,
        },
{
    let mut count: usize = 0;
    let mut sum: i128 = 0;
    let mut i: usize = 0;
    while i < trials.len()
        invariant
            i <= trials@.len(),
            correct_trials_timed(trials@),
            count == correct_count(trials@.take(i as int)),
            sum == correct_time_sum(trials@.take(i as int)),
            count <= i,
            -0x8000_0000_0000_0000 * count <= sum <= 0x7fff_ffff_ffff_ffff * count,
        decreases trials@.len() - i,
    {
        assert(trials@.take(i + 1).drop_last() =~= trials@.take(i as int));
        let t = trials[i];
        if t.correct_response {
            match t.response_time_milliseconds {
                Some(ms) => {
                    sum = sum + ms as i128;
                },
                None => {},
            }
            count = count + 1;
        }
        i = i + 1;
    }
    assert(trials@.take(i as int) =~= trials@);
    if count == 0 {
        return None;
    }
    let c = count as i128;
    assert(sum >= -0x7fff_ffff_ffff_ffff_8000_0000_0000_0000) by (nonlinear_arith)
        requires
            -0x8000_0000_0000_0000 * c <= sum,
            0 < c <= 0xffff_ffff_ffff_ffff,
    ;
    let shifted: i128 = sum + c / 2;
    let mean: i128 = if shifted >= 0 {
        shifted / c
    } else {
        let up: i128 = (-shifted - 1) / c;
        proof {
            lemma_floor_of_negative(shifted as int, c as int, up as int);
        }
        -up - 1
    };
    proof {
        lemma_mean_fits(sum as int, c as int);
    }
    Some(mean as i64)
}

proof fn lemma_mean_fits(sum: int, c: int)
    requires
        c > 0,
        -0x8000_0000_0000_0000 * c <= sum <= 0x7fff_ffff_ffff_ffff * c,
    ensures
        -0x8000_0000_0000_0000 <= (sum + c / 2) / c <= 0x7fff_ffff_ffff_ffff,
{
    assert(-0x8000_0000_0000_0000 <= (sum + c / 2) / c <= 0x7fff_ffff_ffff_ffff) by (nonlinear_arith)
        requires
            c > 0,
            -0x8000_0000_0000_0000 * c <= sum <= 0x7fff_ffff_ffff_ffff * c,
    ;
}

/// The trials whose stimulus has the given condition and sex, in order.
pub fn trials_matching(trials: &[Trial], condition: Condition, sex: Sex) -> (r: Vec<Trial>)
    ensures
        r@ == of_stimulus(trials@, condition, sex),
{
    let mut r: Vec<Trial> = Vec::new();
    let mut i: usize = 0;
    while i < trials.len()
        invariant
            i <= trials@.len(),
            r@ == of_stimulus(trials@.take(i as int), condition, sex),
        decreases trials@.len() - i,
    {
        proof {
            reveal(Seq::filter);
        }
        assert(trials@.take(i + 1).drop_last() =~= trials@.take(i as int));
        let t = trials[i];
        if t.condition == condition && t.sex == sex {
            r.push(t);
        }
        i = i + 1;
    }
    assert(trials@.take(i as int) =~= trials@);
    r
}

} // verus!
