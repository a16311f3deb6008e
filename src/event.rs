use vstd::prelude::*;

verus! {

/// Trigger bit of the first response button.
pub const BUTTON_ONE: i32 = 256;

/// Trigger bit of the second response button.
pub const BUTTON_TWO: i32 = 512;

/// Both response-button bits.
pub const BUTTON_BITS: i32 = 768;

/// Trigger bit that marks the onset of the visual stimulus.
pub const VISUAL_BIT: i32 = 4096;

/// One hardware trigger observation.
#[derive(Debug, Clone, Copy, PartialEq, Eq)]
pub struct Event {
    pub time_microseconds: i64,
    pub trigger_code: i32,
}

/// A code with a button bit set reports a button press.
pub open spec fn is_button_press(code: i32) -> bool {
    code & BUTTON_BITS != 0
}

/// The code with the visual-onset bit cleared.
pub open spec fn without_visual(code: i32) -> i32 {
    code & !VISUAL_BIT
}

/// The visual-onset bit is set in the code.
pub open spec fn has_visual(code: i32) -> bool {
    code & VISUAL_BIT != 0
}

/// True when the event reports a button press.
pub fn event_is_button_press(e: &Event) -> (r: bool)
    ensures
        r == is_button_press(e.trigger_code),
{
    e.trigger_code & BUTTON_BITS != 0
}

} // verus!
