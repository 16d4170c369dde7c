use shardkv::command::{dispatch, Command, CommandError};
use shardkv::frame::Frame;
use shardkv::store::{index, new_sharded_db, ShardedStore, SHARD_COUNT};

fn set_frame(key: &str, value: &[u8]) -> Frame {
    Frame::Array(vec![
        Frame::Bulk(b"SET".to_vec()),
        Frame::Bulk(key.as_bytes().to_vec()),
        Frame::Bulk(value.to_vec()),
    ])
}

fn get_frame(key: &str) -> Frame {
    Frame::Array(vec![Frame::Bulk(b"GET".to_vec()), Frame::Bulk(key.as_bytes().to_vec())])
}

fn set(store: &mut ShardedStore, key: &str, value: &[u8]) {
    let reply = dispatch(store, &set_frame(key, value));
    assert_eq!(reply, Frame::Simple("OK".to_string()));
}

fn get(store: &mut ShardedStore, key: &str) -> Option<Vec<u8>> {
    match dispatch(store, &get_frame(key)) {
        Frame::Bulk(v) => Some(v),
        Frame::Null => None,
        other => panic!("unexpected GET reply: {:?}", other),
    }
}

#[test]
fn test_basic_set_get() {
    let mut store = new_sharded_db();
    set(&mut store, "hello", b"world");
    let result = get(&mut store, "hello");
    assert_eq!(result, Some(b"world".to_vec()));
}

#[test]
fn test_get_nonexistent_key() {
    let mut store = new_sharded_db();
    let result = get(&mut store, "nonexistent");
    assert_eq!(result, None);
}

#[test]
fn test_multiple_clients() {
    // Two request sources share one store: what one writes the other reads.
    let mut store = new_sharded_db();
    set(&mut store, "key1", b"value1");
    let result = get(&mut store, "key1");
    assert_eq!(result, Some(b"value1".to_vec()));
    set(&mut store, "key2", b"value2");
    let result = get(&mut store, "key2");
    assert_eq!(result, Some(b"value2".to_vec()));
}

#[test]
fn test_sharding_distribution() {
    let mut store = new_sharded_db();
    let test_keys = vec![
        ("key1", "value1"),
        ("key2", "value2"),
        ("key3", "value3"),
        ("key4", "value4"),
        ("key5", "value5"),
    ];
    for (key, value) in &test_keys {
        set(&mut store, key, value.as_bytes());
    }
    for (key, expected_value) in &test_keys {
        let result = get(&mut store, key);
        assert_eq!(result, Some(expected_value.as_bytes().to_vec()));
    }
}

#[test]
fn test_overwrite_key() {
    let mut store = new_sharded_db();
    set(&mut store, "key", b"initial");
    let result = get(&mut store, "key");
    assert_eq!(result, Some(b"initial".to_vec()));
    set(&mut store, "key", b"updated");
    let result = get(&mut store, "key");
    assert_eq!(result, Some(b"updated".to_vec()));
}

#[test]
fn test_concurrent_operations() {
    let mut store = new_sharded_db();
    for i in 0..10 {
        let key = format!("concurrent_key_{}", i);
        let value = format!("concurrent_value_{}", i);
        set(&mut store, &key, value.as_bytes());
        let result = get(&mut store, &key);
        assert_eq!(result, Some(value.into_bytes()));
    }
}

#[test]
fn test_hash_distribution() {
    let keys = vec!["a", "b", "c", "d", "e", "f", "g", "h", "i", "j"];
    let mut shard_counts = vec![0; SHARD_COUNT];
    for key in &keys {
        let shard = index(key);
        shard_counts[shard] += 1;
    }
    let max_count = *shard_counts.iter().max().unwrap();
    let min_count = *shard_counts.iter().min().unwrap();
    assert!(max_count - min_count <= keys.len());
    assert!(shard_counts.iter().any(|&count| count > 0));
}

#[test]
fn test_shard_index_deterministic() {
    for key in ["", "a", "hello", "key with spaces", "ñandú"] {
        let first = index(key);
        let second = index(key);
        assert_eq!(first, second);
        assert!(first < SHARD_COUNT);
    }
}

#[test]
fn test_large_values() {
    let mut store = new_sharded_db();
    let large_value = "x".repeat(1024);
    set(&mut store, "large_key", large_value.as_bytes());
    let result = get(&mut store, "large_key");
    assert_eq!(result, Some(large_value.into_bytes()));
}

#[test]
fn test_empty_value() {
    let mut store = new_sharded_db();
    set(&mut store, "empty_key", b"");
    let result = get(&mut store, "empty_key");
    assert_eq!(result, Some(Vec::new()));
}

#[test]
fn test_special_characters() {
    let mut store = new_sharded_db();
    let special_value = "Hello, 世界! 🦀 ñáéíóú";
    set(&mut store, "special_key", special_value.as_bytes());
    let result = get(&mut store, "special_key");
    assert_eq!(result, Some(special_value.as_bytes().to_vec()));
}

#[test]
fn test_unknown_command_replies_error() {
    let mut store = new_sharded_db();
    let frame = Frame::Array(vec![Frame::Bulk(b"DEL".to_vec()), Frame::Bulk(b"k".to_vec())]);
    match dispatch(&mut store, &frame) {
        Frame::Error(msg) => assert_eq!(msg, "ERR unknown command"),
        other => panic!("expected an error reply, got {:?}", other),
    }
}

#[test]
fn test_wrong_arity_replies_error() {
    let mut store = new_sharded_db();
    let frame = Frame::Array(vec![Frame::Bulk(b"GET".to_vec())]);
    match dispatch(&mut store, &frame) {
        Frame::Error(msg) => assert_eq!(msg, "ERR wrong number of arguments"),
        other => panic!("expected an error reply, got {:?}", other),
    }
}

#[test]
fn test_malformed_command_replies_error() {
    let mut store = new_sharded_db();
    match dispatch(&mut store, &Frame::Integer(5)) {
        Frame::Error(msg) => assert_eq!(msg, "ERR malformed command"),
        other => panic!("expected an error reply, got {:?}", other),
    }
}

#[test]
fn test_from_frame_case_insensitive() {
    let frame = Frame::Array(vec![Frame::Bulk(b"get".to_vec()), Frame::Bulk(b"k".to_vec())]);
    match Command::from_frame(&frame) {
        Ok(Command::Get { key }) => assert_eq!(key, "k"),
        other => panic!("expected GET, got {:?}", other),
    }
    let frame = Frame::Array(vec![
        Frame::Bulk(b"sEt".to_vec()),
        Frame::Bulk(b"k".to_vec()),
        Frame::Bulk(b"v".to_vec()),
    ]);
    match Command::from_frame(&frame) {
        Ok(Command::Put { key, value }) => {
            assert_eq!(key, "k");
            assert_eq!(value, b"v".to_vec());
        },
        other => panic!("expected SET, got {:?}", other),
    }
}

#[test]
fn test_from_frame_invalid_key_utf8() {
    let frame = Frame::Array(vec![
        Frame::Bulk(b"GET".to_vec()),
        Frame::Bulk(vec![0xff, 0xfe]),
    ]);
    assert_eq!(Command::from_frame(&frame), Err(CommandError::Malformed));
}

#[test]
fn test_shard_api_direct() {
    // The per-shard API that a concurrent deployment locks around.
    let mut shard = shardkv::store::Shard::new();
    assert_eq!(shard.get("k"), None);
    shard.set("k".to_string(), b"v1".to_vec());
    assert_eq!(shard.get("k"), Some(b"v1".to_vec()));
    shard.set("k".to_string(), b"v2".to_vec());
    assert_eq!(shard.get("k"), Some(b"v2".to_vec()));
    assert_eq!(shard.get("other"), None);
}

#[test]
fn test_store_get_returns_copy() {
    // The copy a reader gets is immune to writes made after it was taken.
    let mut store = new_sharded_db();
    set(&mut store, "k", b"before");
    let copy = get(&mut store, "k").unwrap();
    set(&mut store, "k", b"after");
    assert_eq!(copy, b"before".to_vec());
    assert_eq!(get(&mut store, "k"), Some(b"after".to_vec()));
}
