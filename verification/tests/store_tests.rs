use kv_store::store::AppendOutcome;
use kv_store::store::Store;
use kv_store::store::StoreError;

/// Runs the full write path as the shell does, against a simulated log file:
/// encode, append to the file's lines, then report the append as persisted.
fn write_through(store: &mut Store, file_lines: &mut Vec<String>, key: &str, value: &str) {
    let line = store.prepare_set(key, value).unwrap();
    file_lines.push(line);
    store.set(key, value, AppendOutcome::Persisted).unwrap();
}

#[test]
fn store_rehydrate_success() {
    const TEST_LOG_FILE_NAME: &str = "./tests/kv_log_tests_success.csv";
    let lines: Vec<String> = Vec::new();
    Store::rehydrate_from(TEST_LOG_FILE_NAME, &lines).expect("Failed to rehydrate store");
}

#[test]
#[should_panic]
fn store_rehydrate_failure_should_panic() {
    const TEST_LOG_FILE_NAME: &str = "./tests/kv_log_tests_failure.csv";
    let lines = vec![String::from("a,1"), String::from("not a record")];
    Store::rehydrate_from(TEST_LOG_FILE_NAME, &lines).expect("Failed to rehydrate store");
}

#[test]
fn store_rehydrate_non_existant_file() {
    const TEST_LOG_FILE_NAME: &str = "./tests/non_existant_file.csv";
    let lines: Vec<String> = Vec::new();
    Store::rehydrate_from(TEST_LOG_FILE_NAME, &lines).expect("Failed to rehydrate store");
}

#[test]
fn store_get_nonexistent_key_should_handle_gracefully() {
    const TEST_LOG_FILE_NAME: &str = "./tests/temp_file.csv";
    let lines: Vec<String> = Vec::new();
    let store = Store::rehydrate_from(TEST_LOG_FILE_NAME, &lines)
        .expect("Failed to rehydrate store");

    assert!(store.get("nonexistent-key-123").is_none());
}

#[test]
fn store_set_and_get_success() {
    const TEST_LOG_FILE_NAME: &str = "./tests/temp_file.csv";
    let lines: Vec<String> = Vec::new();
    let mut store = Store::rehydrate_from(TEST_LOG_FILE_NAME, &lines)
        .expect("Failed to rehydrate store");

    let key = "key";
    let value = "value";
    store.set(key, value, AppendOutcome::Persisted).unwrap();
    let retrieved_value = store.get(key).unwrap();

    assert_eq!(value, retrieved_value.as_str());
}

#[test]
fn round_trip_after_set() {
    let lines: Vec<String> = Vec::new();
    let mut store = Store::rehydrate_from("kv.csv", &lines).unwrap();
    let mut file = Vec::new();
    write_through(&mut store, &mut file, "greeting", "hello");
    assert_eq!(store.get("greeting").unwrap().as_str(), "hello");
}

#[test]
fn last_writer_wins_across_sets() {
    let lines: Vec<String> = Vec::new();
    let mut store = Store::rehydrate_from("kv.csv", &lines).unwrap();
    let mut file = Vec::new();
    write_through(&mut store, &mut file, "k", "first");
    write_through(&mut store, &mut file, "other", "x");
    write_through(&mut store, &mut file, "k", "second");
    write_through(&mut store, &mut file, "k", "third");
    assert_eq!(store.get("k").unwrap().as_str(), "third");
    assert_eq!(store.get("other").unwrap().as_str(), "x");
}

#[test]
fn replay_matches_state_before_restart() {
    let lines: Vec<String> = Vec::new();
    let mut store = Store::rehydrate_from("kv.csv", &lines).unwrap();
    let mut file = Vec::new();
    write_through(&mut store, &mut file, "a", "1");
    write_through(&mut store, &mut file, "b", "2");
    write_through(&mut store, &mut file, "a", "3");

    let reopened = Store::rehydrate_from("kv.csv", &file).unwrap();
    assert_eq!(reopened.get("a").unwrap().as_str(), "3");
    assert_eq!(reopened.get("b").unwrap().as_str(), "2");
    assert!(reopened.get("c").is_none());
}

#[test]
fn absent_key_is_no_error() {
    let lines = vec![String::from("x,10")];
    let store = Store::rehydrate_from("kv.csv", &lines).unwrap();
    assert!(store.get("never-written").is_none());
}

#[test]
fn failed_append_leaves_index_unchanged() {
    let lines: Vec<String> = Vec::new();
    let mut store = Store::rehydrate_from("kv.csv", &lines).unwrap();
    let mut file = Vec::new();
    write_through(&mut store, &mut file, "k", "old");

    let r = store.set("k", "new", AppendOutcome::Failed);
    assert!(matches!(r, Err(StoreError::StorageWrite)));
    assert_eq!(store.get("k").unwrap().as_str(), "old");

    let r2 = store.set("fresh", "value", AppendOutcome::Failed);
    assert!(matches!(r2, Err(StoreError::StorageWrite)));
    assert!(store.get("fresh").is_none());
}

#[test]
fn log_file_grows_append_only() {
    let lines: Vec<String> = Vec::new();
    let mut store = Store::rehydrate_from("kv.csv", &lines).unwrap();
    let mut text = String::new();
    let writes = [("a", "1"), ("b", "2"), ("a", "3"), ("c", "4")];
    for (key, value) in writes {
        let before = text.clone();
        let line = store.prepare_set(key, value).unwrap();
        text.push_str(line.as_str());
        text.push('\n');
        store.set(key, value, AppendOutcome::Persisted).unwrap();
        assert!(text.len() >= before.len());
        assert!(text.starts_with(before.as_str()));
    }
    assert_eq!(text.as_str(), "a,1\nb,2\na,3\nc,4\n");
}

#[test]
fn scenario_empty_log_set_get_restart() {
    let empty: Vec<String> = Vec::new();
    let mut store = Store::rehydrate_from("kv.csv", &empty).unwrap();
    assert!(store.get("a").is_none());
    let mut file = Vec::new();
    write_through(&mut store, &mut file, "a", "1");
    assert_eq!(store.get("a").unwrap().as_str(), "1");
    write_through(&mut store, &mut file, "a", "2");
    assert_eq!(store.get("a").unwrap().as_str(), "2");

    let restarted = Store::rehydrate_from("kv.csv", &file).unwrap();
    assert_eq!(restarted.get("a").unwrap().as_str(), "2");
    assert!(restarted.get("b").is_none());
}

#[test]
fn scenario_preexisting_log() {
    let lines = vec![String::from("x,10"), String::from("x,20"), String::from("y,5")];
    let store = Store::rehydrate_from("kv.csv", &lines).unwrap();
    assert_eq!(store.get("x").unwrap().as_str(), "20");
    assert_eq!(store.get("y").unwrap().as_str(), "5");
}

#[test]
fn rehydrate_skips_blank_lines() {
    let lines = vec![String::from("a,1"), String::new(), String::from("b,2"), String::new()];
    let store = Store::rehydrate_from("kv.csv", &lines).unwrap();
    assert_eq!(store.get("a").unwrap().as_str(), "1");
    assert_eq!(store.get("b").unwrap().as_str(), "2");
}

#[test]
fn rehydrate_surfaces_malformed_line() {
    let lines = vec![String::from("a,1"), String::from("bad line"), String::from("b,2")];
    match Store::rehydrate_from("kv.csv", &lines) {
        Err(StoreError::MalformedRecord { line }) => assert_eq!(line.as_str(), "bad line"),
        Err(_) => panic!("expected a malformed-record error"),
        Ok(_) => panic!("a malformed line must abort rehydration"),
    }
}

#[test]
fn prepare_set_rejects_delimiter_in_field() {
    let lines: Vec<String> = Vec::new();
    let store = Store::rehydrate_from("kv.csv", &lines).unwrap();
    assert!(matches!(store.prepare_set("a,b", "v"), Err(StoreError::DelimiterInField)));
    assert!(matches!(store.prepare_set("k", "v\n"), Err(StoreError::DelimiterInField)));
    assert_eq!(store.prepare_set("k", "v").unwrap().as_str(), "k,v");
}

#[test]
fn store_keeps_its_log_path() {
    let lines: Vec<String> = Vec::new();
    let store = Store::rehydrate_from("./some/dir/kv_log.csv", &lines).unwrap();
    assert_eq!(store.log_file_name().as_str(), "./some/dir/kv_log.csv");
}

#[test]
fn non_ascii_keys_and_values_round_trip() {
    let empty: Vec<String> = Vec::new();
    let mut store = Store::rehydrate_from("kv.csv", &empty).unwrap();
    let mut file = Vec::new();
    write_through(&mut store, &mut file, "clé", "välüe ±");
    assert_eq!(store.get("clé").unwrap().as_str(), "välüe ±");
    let restarted = Store::rehydrate_from("kv.csv", &file).unwrap();
    assert_eq!(restarted.get("clé").unwrap().as_str(), "välüe ±");
}
