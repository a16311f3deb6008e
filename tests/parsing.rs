use emotional_faces_recode::{Event, ParseError};

#[test]
fn parse_events() {
    let events = emotional_faces_recode::parse_events(
        "Tmu         	Code	TriNo	Comnt	Ver-C
3809479        	11	0	all  6017 0.874 2.19                    
4618000        	1	4096	FIFF Trigger: 4096                      
6293000        	1	22	FIFF Trigger: 22                        
6302000        	1	4118	FIFF Trigger: 4118                      ",
    );
    assert_eq!(
        Ok(vec![
            Event {
                time_microseconds: 4618000,
                trigger_code: 4096
            },
            Event {
                time_microseconds: 6293000,
                trigger_code: 22
            },
            Event {
                time_microseconds: 6302000,
                trigger_code: 4118
            }
        ]),
        events
    );
}

#[test]
fn parse_events_empty_text() {
    assert_eq!(Ok(vec![]), emotional_faces_recode::parse_events(""));
}

#[test]
fn parse_events_skips_lines_without_marker() {
    let text = "10 1 22 fiff trigger: 22\n20 1 23 FIFF-Trigger\nheader only\n";
    assert_eq!(Ok(vec![]), emotional_faces_recode::parse_events(text));
}

#[test]
fn parse_events_windows_line_endings() {
    let text = "10\t1\t22\tFIFF Trigger: 22\r\n20\t1\t4118\tFIFF Trigger: 4118\r\n";
    assert_eq!(
        Ok(vec![
            Event { time_microseconds: 10, trigger_code: 22 },
            Event { time_microseconds: 20, trigger_code: 4118 },
        ]),
        emotional_faces_recode::parse_events(text)
    );
}

#[test]
fn parse_events_unicode_whitespace_separates_fields() {
    let text = "10\u{3000}1\u{a0}22 FIFF Trigger";
    assert_eq!(
        Ok(vec![Event { time_microseconds: 10, trigger_code: 22 }]),
        emotional_faces_recode::parse_events(text)
    );
}

#[test]
fn parse_events_signed_fields() {
    let text = "+5 1 -3 FIFF Trigger\n-9223372036854775808 1 2147483647 FIFF Trigger";
    assert_eq!(
        Ok(vec![
            Event { time_microseconds: 5, trigger_code: -3 },
            Event { time_microseconds: i64::MIN, trigger_code: i32::MAX },
        ]),
        emotional_faces_recode::parse_events(text)
    );
}

#[test]
fn parse_events_missing_field() {
    assert_eq!(Err(ParseError::MissingField), emotional_faces_recode::parse_events("FIFF Trigger"));
    assert_eq!(Err(ParseError::MissingField), emotional_faces_recode::parse_events("\tFIFF Trigger:  \t"));
}

#[test]
fn parse_events_invalid_timestamp() {
    assert_eq!(Err(ParseError::InvalidTimestamp), emotional_faces_recode::parse_events("abc 1 22 FIFF Trigger: 22"));
    assert_eq!(Err(ParseError::InvalidTimestamp), emotional_faces_recode::parse_events("- 1 22 FIFF Trigger: 22"));
    assert_eq!(
        Err(ParseError::InvalidTimestamp),
        emotional_faces_recode::parse_events("9223372036854775808 1 22 FIFF Trigger: 22")
    );
    assert_eq!(
        Err(ParseError::InvalidTimestamp),
        emotional_faces_recode::parse_events("99999999999999999999999999 1 22 FIFF Trigger: 22")
    );
}

#[test]
fn parse_events_invalid_trigger_code() {
    assert_eq!(Err(ParseError::InvalidTriggerCode), emotional_faces_recode::parse_events("10 FIFF Trigger: 22"));
    assert_eq!(Err(ParseError::InvalidTriggerCode), emotional_faces_recode::parse_events("10 1 2147483648 FIFF Trigger"));
    assert_eq!(Err(ParseError::InvalidTriggerCode), emotional_faces_recode::parse_events("10 1 2x FIFF Trigger"));
}

#[test]
fn parse_events_one_bad_line_fails_the_log() {
    let text = "10 1 22 FIFF Trigger: 22\n20 1 oops FIFF Trigger\n30 1 512 FIFF Trigger: 512\n";
    assert_eq!(Err(ParseError::InvalidTriggerCode), emotional_faces_recode::parse_events(text));
}

#[test]
fn parse_events_first_bad_line_decides_the_error() {
    let text = "FIFF Trigger\nx 1 22 FIFF Trigger";
    assert_eq!(Err(ParseError::MissingField), emotional_faces_recode::parse_events(text));
}
