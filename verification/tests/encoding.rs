use rustyraftlab::state_machine::{Command, CommandError, StateMachine};

#[test]
fn encode_put_writes_tag_and_length_prefixed_strings() {
    let bytes = Command::set("a", "bc").encode();
    assert_eq!(bytes, vec![1, 0, 0, 0, 1, b'a', 0, 0, 0, 2, b'b', b'c']);
}

#[test]
fn encode_delete_writes_tag_and_key() {
    let bytes = Command::delete("key").encode();
    assert_eq!(bytes, vec![2, 0, 0, 0, 3, b'k', b'e', b'y']);
}

#[test]
fn encode_counts_utf8_bytes_not_chars() {
    let bytes = Command::delete("é").encode();
    assert_eq!(bytes, vec![2, 0, 0, 0, 2, 0xc3, 0xa9]);
}

#[test]
fn encode_empty_strings() {
    let bytes = Command::set("", "").encode();
    assert_eq!(bytes, vec![1, 0, 0, 0, 0, 0, 0, 0, 0]);
    assert_eq!(Command::decode(&bytes), Ok(Command::set("", "")));
}

#[test]
fn decode_round_trips_delete_and_multibyte_strings() {
    for command in [
        Command::delete("gone"),
        Command::set("ключ", "значение"),
        Command::set("k", "v✓"),
    ] {
        assert_eq!(Command::decode(&command.encode()), Ok(command));
    }
}

#[test]
fn decode_empty_input_is_empty_error() {
    assert_eq!(Command::decode(&[]), Err(CommandError::Empty));
}

#[test]
fn decode_unknown_tag_reports_the_tag() {
    assert_eq!(Command::decode(&[9, 0, 0, 0, 0]), Err(CommandError::UnknownTag(9)));
    assert_eq!(Command::decode(&[0]), Err(CommandError::UnknownTag(0)));
}

#[test]
fn decode_short_length_prefix_is_truncated() {
    assert_eq!(Command::decode(&[1, 0, 0]), Err(CommandError::Truncated));
    assert_eq!(Command::decode(&[2]), Err(CommandError::Truncated));
}

#[test]
fn decode_short_string_body_is_truncated() {
    assert_eq!(Command::decode(&[2, 0, 0, 0, 3, b'a']), Err(CommandError::Truncated));
}

#[test]
fn decode_missing_value_is_truncated() {
    assert_eq!(Command::decode(&[1, 0, 0, 0, 1, b'a']), Err(CommandError::Truncated));
}

#[test]
fn decode_trailing_bytes_are_truncated() {
    let mut bytes = Command::delete("k").encode();
    bytes.push(0);
    assert_eq!(Command::decode(&bytes), Err(CommandError::Truncated));
}

#[test]
fn decode_invalid_utf8_is_rejected() {
    assert_eq!(Command::decode(&[2, 0, 0, 0, 1, 0xff]), Err(CommandError::InvalidUtf8));
    assert_eq!(
        Command::decode(&[1, 0, 0, 0, 1, b'a', 0, 0, 0, 2, 0xc3, 0x28]),
        Err(CommandError::InvalidUtf8)
    );
}

#[test]
fn decode_reports_first_error_front_to_back() {
    // The key is invalid UTF-8 and the value is missing: the key's error comes first.
    assert_eq!(Command::decode(&[1, 0, 0, 0, 1, 0xff]), Err(CommandError::InvalidUtf8));
}

#[test]
fn apply_bytes_applies_decoded_command() {
    let mut sm = StateMachine::new();
    assert_eq!(sm.apply_bytes(&Command::set("x", "1").encode()), Ok(()));
    assert_eq!(sm.get("x"), Some("1"));
    assert_eq!(sm.applied_commands(), &[Command::set("x", "1")]);
}

#[test]
fn apply_bytes_error_leaves_state_unchanged() {
    let mut sm = StateMachine::new();
    sm.apply(&Command::set("x", "1"));
    assert_eq!(sm.apply_bytes(&[7]), Err(CommandError::UnknownTag(7)));
    assert_eq!(sm.apply_bytes(&[]), Err(CommandError::Empty));
    assert_eq!(sm.get("x"), Some("1"));
    assert_eq!(sm.applied_commands().len(), 1);
}

#[test]
fn later_put_overwrites_and_delete_of_missing_key_is_recorded() {
    let mut sm = StateMachine::default();
    sm.apply(&Command::set("k", "1"));
    sm.apply(&Command::set("k", "2"));
    sm.apply(&Command::delete("missing"));
    assert_eq!(sm.get("k"), Some("2"));
    assert_eq!(sm.get("missing"), None);
    assert_eq!(sm.store().len(), 1);
    assert_eq!(sm.applied_commands().len(), 3);
}

#[test]
fn same_history_gives_same_store() {
    let history = [Command::set("a", "1"), Command::set("b", "2"), Command::delete("a")];
    let mut first = StateMachine::new();
    let mut second = StateMachine::new();
    for command in &history {
        first.apply(command);
        second.apply(command);
    }
    assert!(first.same_state(&second));
    assert_eq!(first.get("a"), second.get("a"));
    assert_eq!(first.get("b"), second.get("b"));

    second.apply(&Command::delete("b"));
    assert!(!first.same_state(&second));
}

#[test]
fn command_same_compares_kind_and_strings() {
    assert!(Command::set("a", "1").same(&Command::set("a", "1")));
    assert!(!Command::set("a", "1").same(&Command::set("a", "2")));
    assert!(!Command::set("a", "1").same(&Command::delete("a")));
    assert!(Command::delete("a").same(&Command::delete("a")));
}

#[test]
fn copy_bytes_copies_every_byte() {
    let bytes = [3u8, 1, 4, 1, 5];
    assert_eq!(rustyraftlab::state_machine::copy_bytes(&bytes), bytes.to_vec());
}
