use hsrv::executor::{handle_command, replay};
use hsrv::persist::{decode_records, encode_record};
use hsrv::store::Store;

#[test]
fn encode_appends_one_terminator() {
    assert_eq!(encode_record("ADD k v"), "ADD k v\n");
}

#[test]
fn encode_trims_trailing_terminators() {
    assert_eq!(encode_record("ADD k v\n"), "ADD k v\n");
    assert_eq!(encode_record("ADD k v\r\n"), "ADD k v\n");
    assert_eq!(encode_record("ADD k v\n\n"), "ADD k v\n");
}

#[test]
fn encode_keeps_inner_text() {
    assert_eq!(encode_record("GET k"), "GET k\n");
    assert_eq!(encode_record(""), "\n");
}

#[test]
fn decode_splits_records() {
    assert_eq!(decode_records("a\nb\n"), vec!["a".to_string(), "b".to_string()]);
}

#[test]
fn decode_final_piece_without_terminator() {
    assert_eq!(decode_records("a\nb"), vec!["a".to_string(), "b".to_string()]);
}

#[test]
fn decode_empty_text() {
    assert_eq!(decode_records(""), Vec::<String>::new());
}

#[test]
fn decode_drops_one_carriage_return() {
    assert_eq!(decode_records("a\r\nb\r\n"), vec!["a".to_string(), "b".to_string()]);
}

#[test]
fn decode_keeps_empty_interior_records() {
    assert_eq!(
        decode_records("a\n\nb\n"),
        vec!["a".to_string(), "".to_string(), "b".to_string()]
    );
}

#[test]
fn log_round_trip_rebuilds_equivalent_store() {
    // Run a command sequence with persistence on, writing the log file's
    // text the way the executor and the codec prescribe.
    let commands = ["ADD a 1", "ADD b two words", "ADD a 3", "DEL b", "GET a", "XYZ junk"];
    let mut live = Store::new();
    let mut file_text = String::new();
    for c in commands.iter() {
        let out = handle_command(&mut live, c, true);
        if let Some(entry) = out.log_entry {
            file_text.push_str(&encode_record(&entry));
        }
    }
    // A stopped process replays the decoded log into an empty store.
    let mut rebuilt = Store::new();
    let records = decode_records(&file_text);
    replay(&mut rebuilt, &records);
    // For every key, GET answers as it did before the stop.
    for key in ["a", "b", "c"] {
        let q = format!("GET {}", key);
        assert_eq!(
            handle_command(&mut live, &q, false).reply,
            handle_command(&mut rebuilt, &q, false).reply
        );
    }
    assert_eq!(
        handle_command(&mut rebuilt, "GET a", false).reply,
        Some("3".to_string())
    );
}

#[test]
fn replay_does_not_log_again() {
    let mut s = Store::new();
    let records = vec!["ADD a 1".to_string()];
    replay(&mut s, &records);
    // Appending during replay would duplicate history on every restart;
    // replayed lines are applied with persistence suppressed.
    let out = handle_command(&mut s, "GET a", false);
    assert_eq!(out.reply, Some("1".to_string()));
    assert_eq!(out.log_entry, None);
}
