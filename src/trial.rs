use vstd::prelude::*;

use crate::event::{
    event_is_button_press, is_button_press, without_visual, Event, BUTTON_BITS, BUTTON_ONE, BUTTON_TWO,
    VISUAL_BIT,
};

verus! {

/// Emotional-expression category of a stimulus.
#[derive(Debug, Clone, Copy, PartialEq, Eq, Structural)]
pub enum Condition {
    Angry,
    Happy,
    Neutral,
}

/// Sex cue carried by a condition trigger.
#[derive(Debug, Clone, Copy, PartialEq, Eq, Structural)]
pub enum Sex {
    Male,
    Female,
}

/// What a condition code announces: the stimulus and the button that answers it.
#[derive(Debug, Clone, Copy, PartialEq, Eq, Structural)]
pub struct Stimulus {
    pub condition: Condition,
    pub sex: Sex,
    pub expected_button: i32,
}

/// One scored behavioural trial.
#[derive(Debug, Clone, Copy, PartialEq)]
pub struct Trial {
    pub correct_response: bool,
    pub condition: Condition,
    pub sex: Sex,
    pub response_time_milliseconds: Option<i64>,
}

/// A response time is recorded exactly for the correctly answered trials.
pub open spec fn trial_is_consistent(t: Trial) -> bool {
    t.response_time_milliseconds.is_some() == t.correct_response
}

/// The table of meaningful condition codes.
pub open spec fn stimulus_of(code: i32) -> Option<Stimulus> {
    let female = BUTTON_TWO;
    let male = BUTTON_ONE;
    if code == 21 {
        Some(Stimulus { condition: Condition::Angry, sex: Sex::Female, expected_button: female })
    } else if code == 22 {
        Some(Stimulus { condition: Condition::Happy, sex: Sex::Female, expected_button: female })
    } else if code == 23 {
        Some(Stimulus { condition: Condition::Neutral, sex: Sex::Female, expected_button: female })
    } else if code == 31 {
        Some(Stimulus { condition: Condition::Angry, sex: Sex::Male, expected_button: male })
    } else if code == 32 {
        Some(Stimulus { condition: Condition::Happy, sex: Sex::Male, expected_button: male })
    } else if code == 33 {
        Some(Stimulus { condition: Condition::Neutral, sex: Sex::Male, expected_button: male })
    } else {
        None
    }
}

/// Decodes a condition code (visual bit already cleared) through the table.
/// Any value outside the table is reported as `None`.
pub fn decode_stimulus(code: i32) -> (r: Option<Stimulus>)
    ensures
        r == stimulus_of(code),
{
    let (condition, sex, expected_button) = match code {
        21 => (Condition::Angry, Sex::Female, BUTTON_TWO),
        22 => (Condition::Happy, Sex::Female, BUTTON_TWO),
        23 => (Condition::Neutral, Sex::Female, BUTTON_TWO),
        31 => (Condition::Angry, Sex::Male, BUTTON_ONE),
        32 => (Condition::Happy, Sex::Male, BUTTON_ONE),
        33 => (Condition::Neutral, Sex::Male, BUTTON_ONE),
        _ => return None,
    };
    Some(Stimulus { condition, sex, expected_button })
}

/// The stimulus a window is scored against: unmapped codes fall back to a
/// happy male stimulus whose expected button (0) no response can equal.
pub open spec fn stimulus_or_default(code: i32) -> Stimulus {
    match stimulus_of(code) {
        Some(s) => s,
        None => Stimulus { condition: Condition::Happy, sex: Sex::Male, expected_button: 0 },
    }
}

/// The condition code of a window: its first two trigger codes combined, visual bit cleared.
pub open spec fn window_code(w: Seq<Event>) -> i32
    recommends
        w.len() >= 2,
{
    without_visual(w[0].trigger_code | w[1].trigger_code)
}

/// Index of the first button press in `w` at position `i` or later.
pub open spec fn first_press_from(w: Seq<Event>, i: int) -> Option<int>
    decreases w.len() - i,
{
    if i < 0 || i >= w.len() {
        None
    } else if is_button_press(w[i].trigger_code) {
        Some(i)
    } else {
        first_press_from(w, i + 1)
    }
}

/// Milliseconds from a span in microseconds, rounded half up.
pub open spec fn rounded_milliseconds(delta: int) -> int {
    (delta + 500) / 1000
}

/// The trial scored from one window of events. The first two events carry the
/// condition code; the first button press after them is the response, and it is
/// correct when its code, visual bit cleared, is the expected button. A correct
/// response is timed from the window's second event, the later of the
/// condition and visual-onset triggers.
pub open spec fn trial_of_window(w: Seq<Event>) -> Trial
    recommends
        w.len() >= 2,
{
    let s = stimulus_or_default(window_code(w));
    let press = first_press_from(w, 2);
    let correct = press is Some && without_visual(w[press->0].trigger_code) == s.expected_button;
    Trial {
        correct_response: correct,
        condition: s.condition,
        sex: s.sex,
        response_time_milliseconds: if correct {
            let delta = w[press->0].time_microseconds - w[1].time_microseconds;
            Some(rounded_milliseconds(delta) as i64)
        } else {
            None
        },
    }
}

/// `rounded_milliseconds` of the span from `from` to `to`.
pub fn elapsed_milliseconds(from: i64, to: i64) -> (r: i64)
    ensures
        r == rounded_milliseconds(to - from),
{
    let shifted: i128 = (to as i128) - (from as i128) + 500;
    let ms: i128 = if shifted >= 0 {
        shifted / 1000
    } else {
        let up: i128 = (-shifted - 1) / 1000;
        proof {
            lemma_floor_of_negative(shifted as int, 1000, up as int);
        }
        -up - 1
    };
    ms as i64
}

/// Floor division of a negative number, through division of its negation.
pub(crate) proof fn lemma_floor_of_negative(n: int, d: int, up: int)
    requires
        n < 0,
        d > 0,
        up == (-n - 1) / d,
    ensures
        -up - 1 == n / d,
{
    assert(-up - 1 == n / d) by (nonlinear_arith)
        requires
            n < 0,
            d > 0,
            up == (-n - 1) / d,
    ;
}

/// Index of the first button press at position 2 or later, scanning the whole slice.
fn first_press(events: &[Event]) -> (r: Option<usize>)
    ensures
        match r {
            Some(k) => k < events@.len() && first_press_from(events@, 2) == Some(k as int),
            None => first_press_from(events@, 2) is None,
        },
{
    let n = events.len();
    let mut i: usize = 2;
    while i < n
        invariant
            2 <= i,
            n == events@.len(),
            first_press_from(events@, 2) == first_press_from(events@, i as int),
        decreases n - i,
    {
        if event_is_button_press(&events[i]) {
            return Some(i);
        }
        i = i + 1;
    }
    None
}

/// Scores the trial of one window: the first two events carry the condition
/// code, the first later button press is the response.
pub fn trial_from_response_ready_index(events: &[Event]) -> (r: Trial)
    requires
        events@.len() >= 2,
    ensures
        r == trial_of_window(events@),
        trial_is_consistent(r),
{
    let code = (events[0].trigger_code | events[1].trigger_code) & !VISUAL_BIT;
    let stimulus = match decode_stimulus(code) {
        Some(s) => s,
        None => Stimulus { condition: Condition::Happy, sex: Sex::Male, expected_button: 0 },
    };
    let mut correct_response = false;
    let mut response_time_milliseconds: Option<i64> = None;
    if let Some(k) = first_press(events) {
        correct_response = events[k].trigger_code & !VISUAL_BIT == stimulus.expected_button;
        if correct_response {
            response_time_milliseconds = Some(
                elapsed_milliseconds(events[1].time_microseconds, events[k].time_microseconds),
            );
        }
    }
    Trial {
        correct_response,
        condition: stimulus.condition,
        sex: stimulus.sex,
        response_time_milliseconds,
    }
}

/// Decoding depends on the first two trigger codes of a window only through
/// their combination with the visual bit cleared.
pub proof fn lemma_decoding_depends_on_combined_code(w1: Seq<Event>, w2: Seq<Event>)
    requires
        w1.len() >= 2,
        w2.len() >= 2,
        (w1[0].trigger_code | w1[1].trigger_code) & !VISUAL_BIT == (w2[0].trigger_code
            | w2[1].trigger_code) & !VISUAL_BIT,
    ensures
        stimulus_or_default(window_code(w1)) == stimulus_or_default(window_code(w2)),
        trial_of_window(w1).condition == trial_of_window(w2).condition,
        trial_of_window(w1).sex == trial_of_window(w2).sex,
{
}

/// A window whose combined code is outside the table is never scored correct.
pub proof fn lemma_unmapped_code_scores_incorrect(w: Seq<Event>)
    requires
        w.len() >= 2,
        stimulus_of(window_code(w)) is None,
    ensures
        !trial_of_window(w).correct_response,
        trial_of_window(w).response_time_milliseconds is None,
        trial_of_window(w).condition == Condition::Happy,
        trial_of_window(w).sex == Sex::Male,
{
    if let Some(k) = first_press_from(w, 2) {
        lemma_first_press_is_press(w, 2);
        let code = w[k].trigger_code;
        assert(code & BUTTON_BITS != 0 ==> code & !VISUAL_BIT != 0) by (bit_vector);
    }
}

/// The first press found from `i` is a button press at or after `i`.
pub proof fn lemma_first_press_is_press(w: Seq<Event>, i: int)
    ensures
        match first_press_from(w, i) {
            Some(k) => i <= k < w.len() && is_button_press(w[k].trigger_code),
            None => true,
        },
    decreases w.len() - i,
{
    if 0 <= i < w.len() && !is_button_press(w[i].trigger_code) {
        lemma_first_press_is_press(w, i + 1);
    }
}

} // verus!
