use hsrv::executor::handle_command;
use hsrv::store::Store;

#[test]
fn exec_add_then_get_replies_value() {
    let mut s = Store::new();
    let out = handle_command(&mut s, "ADD k v", false);
    assert_eq!(out.reply, None);
    let out = handle_command(&mut s, "GET k", false);
    assert_eq!(out.reply, Some("v".to_string()));
}

#[test]
fn exec_get_missing_key_not_found() {
    let mut s = Store::new();
    let out = handle_command(&mut s, "GET nope", false);
    assert_eq!(out.reply, Some("Key not found".to_string()));
}

#[test]
fn exec_del_then_get_key_not_found() {
    let mut s = Store::new();
    handle_command(&mut s, "ADD k v", false);
    let out = handle_command(&mut s, "DEL k", false);
    assert_eq!(out.reply, None);
    let out = handle_command(&mut s, "GET k", false);
    assert_eq!(out.reply, Some("Key not found".to_string()));
}

#[test]
fn exec_del_absent_then_get_key_not_found() {
    let mut s = Store::new();
    handle_command(&mut s, "DEL k", false);
    let out = handle_command(&mut s, "GET k", false);
    assert_eq!(out.reply, Some("Key not found".to_string()));
}

#[test]
fn exec_add_twice_same_observable_state() {
    let mut once = Store::new();
    handle_command(&mut once, "ADD k v", false);
    let mut twice = Store::new();
    handle_command(&mut twice, "ADD k v", false);
    handle_command(&mut twice, "ADD k v", false);
    assert_eq!(
        handle_command(&mut once, "GET k", false).reply,
        handle_command(&mut twice, "GET k", false).reply
    );
}

#[test]
fn exec_embedded_space_value_preserved() {
    let mut s = Store::new();
    handle_command(&mut s, "ADD name John Doe", false);
    let out = handle_command(&mut s, "GET name", false);
    assert_eq!(out.reply, Some("John Doe".to_string()));
}

#[test]
fn exec_verb_only_is_invalid_and_mutates_nothing() {
    let mut s = Store::new();
    let out = handle_command(&mut s, "ADD ", true);
    assert_eq!(out.reply, Some("Invalid command".to_string()));
    assert_eq!(out.log_entry, None);
    let out = handle_command(&mut s, "GET ", true);
    assert_eq!(out.reply, Some("Invalid command".to_string()));
    assert_eq!(out.log_entry, None);
}

#[test]
fn exec_unknown_verb_is_invalid() {
    let mut s = Store::new();
    let out = handle_command(&mut s, "XYZ foo", true);
    assert_eq!(out.reply, Some("Invalid command".to_string()));
    assert_eq!(out.log_entry, None);
}

#[test]
fn exec_mutations_are_logged_when_persisting() {
    let mut s = Store::new();
    let out = handle_command(&mut s, "ADD k v", true);
    assert_eq!(out.log_entry, Some("ADD k v".to_string()));
    let out = handle_command(&mut s, "DEL k", true);
    assert_eq!(out.log_entry, Some("DEL k".to_string()));
}

#[test]
fn exec_lookups_are_never_logged() {
    let mut s = Store::new();
    handle_command(&mut s, "ADD k v", true);
    let out = handle_command(&mut s, "GET k", true);
    assert_eq!(out.log_entry, None);
}

#[test]
fn exec_nothing_logged_with_persistence_off() {
    let mut s = Store::new();
    let out = handle_command(&mut s, "ADD k v", false);
    assert_eq!(out.log_entry, None);
    let out = handle_command(&mut s, "DEL k", false);
    assert_eq!(out.log_entry, None);
}

#[test]
fn exec_replay_rebuilds_store() {
    let mut s = Store::new();
    let lines = vec![
        "ADD a 1".to_string(),
        "ADD b 2".to_string(),
        "ADD a 3".to_string(),
        "DEL b".to_string(),
        "junk line".to_string(),
    ];
    hsrv::executor::replay(&mut s, &lines);
    assert_eq!(
        handle_command(&mut s, "GET a", false).reply,
        Some("3".to_string())
    );
    assert_eq!(
        handle_command(&mut s, "GET b", false).reply,
        Some("Key not found".to_string())
    );
}

#[test]
fn exec_concurrent_adds_leave_one_value() {
    // The two orders in which near-simultaneous ADDs for one key can
    // serialize under the store's exclusive access.
    let mut first = Store::new();
    handle_command(&mut first, "ADD k 1", false);
    handle_command(&mut first, "ADD k 2", false);
    let r1 = handle_command(&mut first, "GET k", false).reply.unwrap();
    let mut second = Store::new();
    handle_command(&mut second, "ADD k 2", false);
    handle_command(&mut second, "ADD k 1", false);
    let r2 = handle_command(&mut second, "GET k", false).reply.unwrap();
    assert!(r1 == "1" || r1 == "2");
    assert!(r2 == "1" || r2 == "2");
    assert_eq!(r1, "2");
    assert_eq!(r2, "1");
}
