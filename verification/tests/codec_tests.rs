use rust_ws_chat::message_type::{parse_message, to_json, DecodeError, MessageType};

fn notice(category: &str, text: &str) -> MessageType {
    MessageType::Notice { category: category.to_string(), text: text.to_string() }
}

#[test]
fn round_trip_notice() {
    let m = notice("SYSTEM", "Enter your username:");
    assert_eq!(parse_message(&to_json(&m)).unwrap(), m);
}

#[test]
fn round_trip_chat() {
    let m = MessageType::Chat {
        from: "alice".to_string(),
        to: "all".to_string(),
        text: "hello there".to_string(),
    };
    assert_eq!(parse_message(&to_json(&m)).unwrap(), m);
}

#[test]
fn round_trip_roster_request() {
    let m = MessageType::RosterRequest;
    assert_eq!(parse_message(&to_json(&m)).unwrap(), m);
}

#[test]
fn round_trip_roster() {
    let m = MessageType::Roster {
        names: vec!["alice".to_string(), "bob".to_string(), "carol".to_string()],
    };
    assert_eq!(parse_message(&to_json(&m)).unwrap(), m);
}

#[test]
fn round_trip_roster_empty() {
    let m = MessageType::Roster { names: Vec::new() };
    assert_eq!(parse_message(&to_json(&m)).unwrap(), m);
}

#[test]
fn round_trip_command() {
    let m = MessageType::Command { raw: "/whisper bob hi".to_string() };
    assert_eq!(parse_message(&to_json(&m)).unwrap(), m);
}

#[test]
fn round_trip_empty_fields() {
    let m = MessageType::Chat { from: String::new(), to: String::new(), text: String::new() };
    assert_eq!(parse_message(&to_json(&m)).unwrap(), m);
}

#[test]
fn round_trip_non_ascii_text() {
    let m = notice("SYSTEM", "héllo wörld ★");
    assert_eq!(parse_message(&to_json(&m)).unwrap(), m);
}

#[test]
fn encoding_is_exactly_tag_count_and_chars() {
    let m = notice("S", "hi");
    assert_eq!(to_json(&m), "N00000000000000000001S00000000000000000002hi");
}

#[test]
fn roster_encoding_carries_a_count_then_each_name() {
    let m = MessageType::Roster { names: vec!["ab".to_string(), "c".to_string()] };
    assert_eq!(
        to_json(&m),
        "R00000000000000000002\
         00000000000000000002ab\
         00000000000000000001c"
    );
}

#[test]
fn decode_empty_frame_is_malformed() {
    assert_eq!(parse_message("").unwrap_err(), DecodeError::Malformed);
}

#[test]
fn decode_unknown_tag() {
    assert_eq!(parse_message("Z00000000000000000002hi").unwrap_err(), DecodeError::UnknownTag);
}

#[test]
fn decode_truncated_field_is_malformed() {
    // The count promises five characters but only two follow.
    assert_eq!(parse_message("X00000000000000000005hi").unwrap_err(), DecodeError::Malformed);
}

#[test]
fn decode_non_digit_count_is_malformed() {
    assert_eq!(parse_message("X0000000000000000000qhi").unwrap_err(), DecodeError::Malformed);
}

#[test]
fn decode_ignores_trailing_data() {
    let m = notice("SYSTEM", "hi");
    let mut frame = to_json(&m);
    frame.push_str("future-extension-fields");
    assert_eq!(parse_message(&frame).unwrap(), m);
}

#[test]
fn decode_distinguishes_variants() {
    let chat = MessageType::Chat {
        from: "a".to_string(),
        to: "b".to_string(),
        text: "c".to_string(),
    };
    let decoded = parse_message(&to_json(&chat)).unwrap();
    assert!(matches!(decoded, MessageType::Chat { .. }));
    let decoded = parse_message(&to_json(&MessageType::RosterRequest)).unwrap();
    assert!(matches!(decoded, MessageType::RosterRequest));
}
