use rustyraftlab::state_machine::{Command, CommandError, StateMachine};

#[test]
fn round_trip_set_command() {
    let command = Command::set("foo", "bar");
    let decoded = Command::decode(&command.encode()).expect("decode");
    assert_eq!(decoded, command);
}

#[test]
fn apply_updates_store() {
    let mut sm = StateMachine::new();
    sm.apply(&Command::set("x", "1"));
    sm.apply(&Command::set("y", "2"));
    sm.apply(&Command::delete("x"));

    assert_eq!(sm.get("x"), None);
    assert_eq!(sm.get("y"), Some("2"));
}
