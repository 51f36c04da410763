//! The key-value state machine.
use raft_kv::json::JsonError;
use raft_kv::kv::{Command, KvStore};

fn put(key: &str, value: &str) -> Command {
    Command::Put {
        key: key.to_string(),
        value: value.to_string(),
    }
}

fn store(pairs: &[(&str, &str)]) -> KvStore {
    let mut kv = KvStore::default();
    for (key, value) in pairs {
        kv.apply(&put(key, value).encode()).unwrap();
    }
    kv
}

#[test]
fn a_written_value_is_read_back_and_a_deleted_one_is_gone() {
    let mut kv = KvStore::default();
    kv.apply(b"{\"Set\":{\"key\":\"city\",\"value\":\"monterrey\"}}")
        .unwrap();
    assert_eq!(kv.get("city"), Some("monterrey"));
    assert_eq!(
        kv.scan_prefix("ci"),
        vec![("city".to_string(), "monterrey".to_string())]
    );
    kv.apply(b"{\"Delete\":{\"key\":\"city\"}}").unwrap();
    assert_eq!(kv.get("city"), None);
}

#[test]
fn a_command_is_the_documented_object() {
    assert_eq!(
        put("a", "1").encode(),
        b"{\"Set\":{\"key\":\"a\",\"value\":\"1\"}}"
    );
    let delete = Command::Delete {
        key: "a".to_string(),
    };
    assert_eq!(delete.encode(), b"{\"Delete\":{\"key\":\"a\"}}");
    assert_eq!(Command::decode(&delete.encode()).unwrap(), delete);
    assert_eq!(
        Command::decode(&put("a\"\u{e9}\n", "\\").encode()).unwrap(),
        put("a\"\u{e9}\n", "\\")
    );
}

#[test]
fn bytes_that_are_no_command_leave_the_store_alone() {
    let mut kv = store(&[("a", "1")]);
    assert!(matches!(kv.apply(b"{\"Set\""), Err(JsonError::Syntax(_))));
    assert!(matches!(
        kv.apply(b"{\"Set\":{\"key\":\"a\"}}"),
        Err(JsonError::Shape)
    ));
    assert!(matches!(
        kv.apply(b"{\"Set\":{\"key\":\"a\",\"value\":2}}"),
        Err(JsonError::Shape)
    ));
    assert!(matches!(
        kv.apply(b"{\"Drop\":{\"key\":\"a\"}}"),
        Err(JsonError::Shape)
    ));
    assert!(matches!(kv.apply(b"[]"), Err(JsonError::Shape)));
    assert_eq!(kv.get("a"), Some("1"));
}

#[test]
fn a_command_may_carry_its_fields_as_a_list() {
    let mut kv = KvStore::default();
    kv.apply(b"{\"Set\":[\"a\",\"1\"]}").unwrap();
    assert_eq!(kv.get("a"), Some("1"));
    assert!(kv.apply(b"{\"Set\":[\"a\",\"1\",\"2\"]}").is_err());
}

#[test]
fn a_scan_finds_exactly_the_keys_with_the_prefix_in_order() {
    let kv = store(&[
        ("user:bob", "2"),
        ("user", "0"),
        ("user:alice", "1"),
        ("uses", "9"),
        ("user:", "x"),
        ("usd", "8"),
        ("user:\u{e9}", "3"),
    ]);
    let found: Vec<String> = kv
        .scan_prefix("user:")
        .into_iter()
        .map(|(key, _)| key)
        .collect();
    assert_eq!(found, vec!["user:", "user:alice", "user:bob", "user:\u{e9}"]);
    assert_eq!(kv.scan_prefix("").len(), 7);
    assert!(kv.scan_prefix("zzz").is_empty());
}

#[test]
fn keys_are_ordered_as_the_standard_library_orders_strings() {
    let keys = ["b", "a", "ab", "", "\u{ffff}", "\u{10000}", "\u{e9}", "B", "a b"];
    let pairs: Vec<(&str, &str)> = keys.iter().map(|k| (*k, "v")).collect();
    let kv = store(&pairs);
    let listed: Vec<String> = kv.scan_prefix("").into_iter().map(|(k, _)| k).collect();
    let mut sorted: Vec<String> = keys.iter().map(|k| k.to_string()).collect();
    sorted.sort();
    assert_eq!(listed, sorted);
}

#[test]
fn a_snapshot_is_the_json_of_the_ordered_map_and_restores_the_store() {
    let kv = store(&[("b", "2"), ("a", "1"), ("b", "3")]);
    let text = kv.snapshot();
    assert_eq!(text, b"{\"a\":\"1\",\"b\":\"3\"}");
    let mut again = store(&[("old", "gone")]);
    again.restore(&text).unwrap();
    assert_eq!(again.get("a"), Some("1"));
    assert_eq!(again.get("b"), Some("3"));
    assert_eq!(again.get("old"), None);
}

#[test]
fn a_snapshot_with_a_repeated_key_keeps_the_last() {
    let mut kv = KvStore::default();
    kv.restore(b"{\"a\":\"1\",\"a\":\"2\"}").unwrap();
    assert_eq!(kv.get("a"), Some("2"));
}

#[test]
fn data_that_is_no_snapshot_leaves_the_store_alone() {
    let mut kv = store(&[("a", "1")]);
    assert!(kv.restore(b"{").is_err());
    assert!(kv.restore(b"{\"a\":1}").is_err());
    assert!(kv.restore(b"[]").is_err());
    assert_eq!(kv.get("a"), Some("1"));
}

#[test]
fn the_same_commands_in_the_same_order_give_the_same_store() {
    let commands = [put("a", "1"), put("b", "2"), put("a", "3")];
    let mut one = KvStore::default();
    let mut other = KvStore::default();
    for command in &commands {
        one.run(command.clone());
    }
    for command in &commands[..2] {
        other.run(command.clone());
    }
    let mut joined = KvStore::default();
    joined.restore(&other.snapshot()).unwrap();
    joined.run(commands[2].clone());
    assert_eq!(one.snapshot(), joined.snapshot());
}

#[test]
fn an_empty_command_is_skipped() {
    let mut kv = KvStore::default();
    kv.apply(b"{\"Set\":{\"key\":\"a\",\"value\":\"1\"}}").unwrap();
    assert!(kv.apply(b"").is_ok());
    assert_eq!(kv.get("a"), Some("1"));
    assert_eq!(kv.scan_prefix("").len(), 1);
}

#[test]
fn any_key_survives_a_snapshot() {
    for key in [
        "$serde_json::private::RawValue",
        "$serde_json::private::Number",
        "$",
        "",
        "\u{0}\"\\",
    ] {
        for value in ["1", "x", "{\"a\":\"b\"}"] {
            let mut kv = KvStore::default();
            kv.set(key.to_string(), value.to_string());
            let text = kv.snapshot();
            let mut alone = KvStore::default();
            alone.restore(&text).unwrap();
            assert_eq!(alone.get(key), Some(value));
            kv.set("other".to_string(), "2".to_string());
            let mut both = KvStore::default();
            both.restore(&kv.snapshot()).unwrap();
            assert_eq!(both.scan_prefix(""), kv.scan_prefix(""));
            // The same holds of the commands that carry such keys.
            let command = put(key, value);
            assert_eq!(Command::decode(&command.encode()).unwrap(), command);
        }
    }
}
