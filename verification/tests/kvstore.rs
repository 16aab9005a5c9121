use kvstore::command::Command;
use kvstore::handler::process_line;
use kvstore::store::KeyValueStore;

#[test]
fn get_missing_key_not_found() {
    let s = KeyValueStore::new();
    assert!(s.get("absent").is_none());
}

#[test]
fn set_then_get_returns_value() {
    let mut s = KeyValueStore::new();
    s.set("a".to_string(), "1".to_string());
    assert_eq!(s.get("a"), Some("1".to_string()));
}

#[test]
fn set_overwrites_previous_value() {
    let mut s = KeyValueStore::new();
    s.set("a".to_string(), "1".to_string());
    s.set("a".to_string(), "2".to_string());
    assert_eq!(s.get("a"), Some("2".to_string()));
}

#[test]
fn delete_existing_then_get_misses() {
    let mut s = KeyValueStore::new();
    s.set("a".to_string(), "1".to_string());
    s.set("b".to_string(), "2".to_string());
    assert!(matches!(s.delete("a"), Ok(true)));
    assert!(s.get("a").is_none());
    assert_eq!(s.get("b"), Some("2".to_string()));
}

#[test]
fn delete_absent_returns_false_and_changes_nothing() {
    let mut s = KeyValueStore::new();
    s.set("a".to_string(), "1".to_string());
    assert!(matches!(s.delete("b"), Ok(false)));
    assert_eq!(s.get("a"), Some("1".to_string()));
}

#[test]
fn sequential_sets_leave_one_of_the_two_values() {
    let mut s1 = KeyValueStore::new();
    s1.set("k".to_string(), "v1".to_string());
    s1.set("k".to_string(), "v2".to_string());
    assert_eq!(s1.get("k"), Some("v2".to_string()));

    let mut s2 = KeyValueStore::new();
    s2.set("k".to_string(), "v2".to_string());
    s2.set("k".to_string(), "v1".to_string());
    assert_eq!(s2.get("k"), Some("v1".to_string()));
}

#[test]
fn parse_get() {
    assert!(matches!(Command::parse("GET a"), Command::Get(k) if k == "a"));
}

#[test]
fn parse_set() {
    assert!(matches!(
        Command::parse("SET key value"),
        Command::Put(k, v) if k == "key" && v == "value"
    ));
}

#[test]
fn parse_delete() {
    assert!(matches!(Command::parse("DELETE a"), Command::Delete(k) if k == "a"));
}

#[test]
fn parse_trims_and_splits_on_whitespace_runs() {
    assert!(matches!(Command::parse("  GET \t a \r\n"), Command::Get(k) if k == "a"));
    assert!(matches!(
        Command::parse("SET  k\t\tv\n"),
        Command::Put(k, v) if k == "k" && v == "v"
    ));
}

#[test]
fn parse_rejects_malformed_lines() {
    assert!(matches!(Command::parse(""), Command::Unknown));
    assert!(matches!(Command::parse("FOO"), Command::Unknown));
    assert!(matches!(Command::parse("SET onlykey"), Command::Unknown));
    assert!(matches!(Command::parse("GET"), Command::Unknown));
    assert!(matches!(Command::parse("GET a b"), Command::Unknown));
    assert!(matches!(Command::parse("SET a b c"), Command::Unknown));
    assert!(matches!(Command::parse("get a"), Command::Unknown));
    assert!(matches!(Command::parse("DELETE"), Command::Unknown));
}

#[test]
fn end_to_end_command_scenario() {
    let mut s = KeyValueStore::new();
    assert_eq!(process_line(&mut s, "SET a 1\n"), "OK\n");
    assert_eq!(process_line(&mut s, "GET a\n"), "VALUE 1\n");
    assert_eq!(process_line(&mut s, "DELETE a\n"), "OK\n");
    assert_eq!(process_line(&mut s, "GET a\n"), "ERROR Key not found\n");
    assert_eq!(process_line(&mut s, "DELETE a\n"), "ERROR Key not found\n");
}

#[test]
fn malformed_lines_answer_unknown_and_do_not_mutate() {
    let mut s = KeyValueStore::new();
    s.set("k".to_string(), "v".to_string());
    for line in ["", "FOO", "SET onlykey"] {
        assert_eq!(process_line(&mut s, line), "ERROR Unknown Command\n");
        assert_eq!(s.get("k"), Some("v".to_string()));
    }
}

#[test]
fn save_empty_store_exact_text() {
    let s = KeyValueStore::new();
    assert_eq!(s.save(), "{\"data\":[]}");
}

#[test]
fn save_one_pair_exact_text() {
    let mut s = KeyValueStore::new();
    s.set("a".to_string(), "1".to_string());
    assert_eq!(s.save(), "{\"data\":[[\"a\",\"1\"]]}");
}

#[test]
fn save_escapes_quote_backslash_newline() {
    let mut s = KeyValueStore::new();
    s.set("k".to_string(), "a\"b\\c\nd".to_string());
    assert_eq!(s.save(), "{\"data\":[[\"k\",\"a\\\"b\\\\c\\nd\"]]}");
}

#[test]
fn snapshot_round_trip_restores_all_pairs() {
    let mut s = KeyValueStore::new();
    s.set("a".to_string(), "1".to_string());
    s.set("b".to_string(), "two".to_string());
    s.set("tricky".to_string(), "q\"b\\s\nnl".to_string());
    let text = s.save();
    let mut t = KeyValueStore::new();
    assert!(t.load(&text).is_ok());
    assert_eq!(t.get("a"), Some("1".to_string()));
    assert_eq!(t.get("b"), Some("two".to_string()));
    assert_eq!(t.get("tricky"), Some("q\"b\\s\nnl".to_string()));
    assert!(t.get("absent").is_none());
}

#[test]
fn load_malformed_text_is_an_error_and_changes_nothing() {
    let mut s = KeyValueStore::new();
    s.set("a".to_string(), "1".to_string());
    assert!(s.load("nonsense").is_err());
    assert!(s.load("{\"data\":[").is_err());
    assert!(s.load("{\"data\":[]} trailing").is_err());
    assert!(s.load("{\"data\":[[\"a\",\"1\"]]").is_err());
    assert_eq!(s.get("a"), Some("1".to_string()));
    assert_eq!(s.save(), "{\"data\":[[\"a\",\"1\"]]}");
}

#[test]
fn load_merges_and_overwrites_existing_keys() {
    let mut s = KeyValueStore::new();
    s.set("a".to_string(), "old".to_string());
    s.set("c".to_string(), "3".to_string());
    assert!(s.load("{\"data\":[[\"a\",\"1\"],[\"b\",\"2\"]]}").is_ok());
    assert_eq!(s.get("a"), Some("1".to_string()));
    assert_eq!(s.get("b"), Some("2".to_string()));
    assert_eq!(s.get("c"), Some("3".to_string()));
}

#[test]
fn load_duplicate_keys_last_pair_wins() {
    let mut s = KeyValueStore::new();
    assert!(s.load("{\"data\":[[\"a\",\"1\"],[\"a\",\"2\"]]}").is_ok());
    assert_eq!(s.get("a"), Some("2".to_string()));
}

#[test]
fn load_decodes_escapes() {
    let mut s = KeyValueStore::new();
    assert!(s.load("{\"data\":[[\"k\",\"a\\\"b\\\\c\\nd\"]]}").is_ok());
    assert_eq!(s.get("k"), Some("a\"b\\c\nd".to_string()));
}
