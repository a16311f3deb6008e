//! Scoring of reaction-time experiments from hardware trigger logs: a log is
//! read into timestamped trigger events, the events are split into trial
//! windows and each window is scored, and the trials are summarised.
pub mod event;
pub mod parse;
pub mod reconstruct;
pub mod stats;
pub mod trial;

pub use event::Event;
pub use parse::{parse_events, ParseError};
pub use reconstruct::{reconstruct_trials, reconstruction_defined, windows_of};
pub use stats::{correct_trial_count, reaction_time_milliseconds, trials_matching};
pub use trial::{decode_stimulus, trial_from_response_ready_index, Condition, Sex, Stimulus, Trial};
