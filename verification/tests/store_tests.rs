use kvs::codec::encode_log;
use kvs::codec::Command;
use kvs::error::KvsError;
use kvs::store::{build_log_pointers, perform_compaction, KvStore};

fn fresh_store() -> KvStore {
    KvStore::new(String::from("data"))
}

#[test]
fn set_then_get_returns_latest_value() {
    let mut store = fresh_store();
    store.set(String::from("a"), String::from("1")).unwrap();
    assert_eq!(store.get(String::from("a")).unwrap(), Some(String::from("1")));
    store.set(String::from("a"), String::from("2")).unwrap();
    assert_eq!(store.get(String::from("a")).unwrap(), Some(String::from("2")));
}

#[test]
fn remove_missing_key_fails_and_appends_nothing() {
    let mut store = fresh_store();
    let r = store.remove(String::from("missing"));
    assert_eq!(r, Err(KvsError::KeyNotFound));
    assert_eq!(store.log.len(), 0);
    assert_eq!(store.log_pointer, 0);
}

#[test]
fn reopen_after_remove_leaves_no_trace_of_key() {
    let mut store = fresh_store();
    store.set(String::from("k"), String::from("v")).unwrap();
    store.remove(String::from("k")).unwrap();
    let bytes = encode_log(&store.log);
    let reopened = KvStore::open(String::from("data"), bytes.as_slice());
    assert_eq!(reopened.get(String::from("k")).unwrap(), None);
    assert_eq!(reopened.log.len(), 0);
}

#[test]
fn round_trip_last_write_wins() {
    let mut store = fresh_store();
    store.set(String::from("x"), String::from("1")).unwrap();
    store.set(String::from("y"), String::from("2")).unwrap();
    store.set(String::from("x"), String::from("3")).unwrap();
    store.remove(String::from("y")).unwrap();
    store.set(String::from("z"), String::from("4")).unwrap();
    assert_eq!(store.get(String::from("x")).unwrap(), Some(String::from("3")));
    assert_eq!(store.get(String::from("y")).unwrap(), None);
    assert_eq!(store.get(String::from("z")).unwrap(), Some(String::from("4")));
    assert_eq!(store.get(String::from("w")).unwrap(), None);
}

#[test]
fn reopen_preserves_every_get() {
    let mut store = fresh_store();
    store.set(String::from("a"), String::from("1")).unwrap();
    store.set(String::from("b"), String::from("2")).unwrap();
    store.set(String::from("a"), String::from("3")).unwrap();
    store.remove(String::from("b")).unwrap();
    store.set(String::from("c"), String::from("4")).unwrap();
    let bytes = encode_log(&store.log);
    let reopened = KvStore::open(String::from("data"), bytes.as_slice());
    for key in ["a", "b", "c", "d"] {
        assert_eq!(
            store.get(String::from(key)).unwrap(),
            reopened.get(String::from(key)).unwrap()
        );
    }
}

#[test]
fn compaction_is_idempotent_byte_for_byte() {
    let mut store = fresh_store();
    store.set(String::from("a"), String::from("1")).unwrap();
    store.set(String::from("a"), String::from("2")).unwrap();
    store.set(String::from("b"), String::from("3")).unwrap();
    store.remove(String::from("a")).unwrap();
    let once = KvStore::open(String::from("data"), encode_log(&store.log).as_slice());
    let first_bytes = encode_log(&once.log);
    let twice = KvStore::open(String::from("data"), first_bytes.as_slice());
    let second_bytes = encode_log(&twice.log);
    assert_eq!(first_bytes, second_bytes);
}

#[test]
fn index_points_every_key_at_its_put_record() {
    let mut store = fresh_store();
    store.set(String::from("a"), String::from("1")).unwrap();
    store.set(String::from("b"), String::from("2")).unwrap();
    store.set(String::from("a"), String::from("3")).unwrap();
    store.remove(String::from("b")).unwrap();
    for key in ["a"] {
        let ptr = *store.kv.get(key).unwrap();
        match &store.log[ptr] {
            Command::Put { key: k, .. } => assert_eq!(k, key),
            Command::Rm { .. } => panic!("index points at a removal record"),
        }
    }
    assert!(store.kv.get("b").is_none());
}

#[test]
fn disjoint_key_writes_lose_nothing() {
    let mut store = fresh_store();
    let keys = ["k1", "k2", "k3", "k4"];
    for (i, key) in keys.iter().enumerate() {
        store.set(String::from(*key), format!("v{}", i)).unwrap();
    }
    assert_eq!(store.log.len(), keys.len());
    assert_eq!(store.log_pointer, keys.len());
    for (i, key) in keys.iter().enumerate() {
        assert_eq!(store.get(String::from(*key)).unwrap(), Some(format!("v{}", i)));
    }
}

#[test]
fn open_on_empty_bytes_gives_empty_store() {
    let store = KvStore::open(String::from("data"), &[]);
    assert_eq!(store.log.len(), 0);
    assert_eq!(store.log_pointer, 0);
    assert_eq!(store.get(String::from("anything")).unwrap(), None);
}

#[test]
fn get_file_path_joins_directory_and_log_name() {
    let store = KvStore::new(String::from("data"));
    assert_eq!(store.get_file_path(), String::from("data/log.txt"));
}

#[test]
fn replay_then_compaction_keeps_only_current_records() {
    let commands = vec![
        Command::Put { key: String::from("a"), value: String::from("1") },
        Command::Put { key: String::from("b"), value: String::from("2") },
        Command::Put { key: String::from("a"), value: String::from("3") },
        Command::Rm { key: String::from("b") },
        Command::Put { key: String::from("c"), value: String::from("4") },
    ];
    let mut store = fresh_store();
    build_log_pointers(&mut store, commands.clone());
    assert_eq!(store.log_pointer, 5);
    assert_eq!(*store.kv.get("a").unwrap(), 2);
    assert_eq!(*store.kv.get("c").unwrap(), 4);
    assert!(store.kv.get("b").is_none());

    let mut new_disc = Vec::new();
    perform_compaction(&mut store, commands, &mut new_disc);
    assert_eq!(new_disc.len(), 2);
    match &new_disc[0] {
        Command::Put { key, value } => {
            assert_eq!(key, "a");
            assert_eq!(value, "3");
        }
        Command::Rm { .. } => panic!("a removal survived compaction"),
    }
    match &new_disc[1] {
        Command::Put { key, value } => {
            assert_eq!(key, "c");
            assert_eq!(value, "4");
        }
        Command::Rm { .. } => panic!("a removal survived compaction"),
    }
    assert_eq!(*store.kv.get("a").unwrap(), 0);
    assert_eq!(*store.kv.get("c").unwrap(), 1);
    assert_eq!(store.log_pointer, 2);
}
