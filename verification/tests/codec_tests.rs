use kvs::codec::{encode_command, encode_log, decode_log, Command};

fn put(key: &str, value: &str) -> Command {
    Command::Put { key: String::from(key), value: String::from(value) }
}

fn rm(key: &str) -> Command {
    Command::Rm { key: String::from(key) }
}

fn assert_same_records(a: &[Command], b: &[Command]) {
    assert_eq!(a.len(), b.len());
    for (x, y) in a.iter().zip(b.iter()) {
        match (x, y) {
            (Command::Put { key: k1, value: v1 }, Command::Put { key: k2, value: v2 }) => {
                assert_eq!(k1, k2);
                assert_eq!(v1, v2);
            }
            (Command::Rm { key: k1 }, Command::Rm { key: k2 }) => assert_eq!(k1, k2),
            _ => panic!("record kinds differ"),
        }
    }
}

#[test]
fn encode_decode_round_trip() {
    let log = vec![put("a", "1"), rm("a"), put("b", "two"), put("", ""), rm("gone")];
    let bytes = encode_log(&log);
    let decoded = decode_log(bytes.as_slice());
    assert_same_records(&log, &decoded);
}

#[test]
fn encoded_record_is_self_delimiting() {
    let bytes = encode_command(&put("k", "v"));
    // tag, key length prefix, key, value length prefix, value
    assert_eq!(bytes.len(), 1 + 8 + 1 + 8 + 1);
    assert_eq!(bytes[0], kvs::codec::PUT_TAG);
    assert_eq!(bytes[1], 1);
    assert_eq!(bytes[9], b'k');
    assert_eq!(bytes[10], 1);
    assert_eq!(bytes[18], b'v');
}

#[test]
fn corrupt_tail_is_ignored() {
    let log = vec![put("a", "1"), put("b", "2")];
    let mut bytes = encode_log(&log);
    bytes.push(0xFF);
    bytes.push(0x03);
    let decoded = decode_log(bytes.as_slice());
    assert_same_records(&log, &decoded);
}

#[test]
fn truncated_record_is_ignored() {
    let log = vec![put("a", "1")];
    let mut bytes = encode_log(&log);
    let mut partial = encode_command(&put("long-key", "long-value"));
    partial.truncate(partial.len() - 3);
    bytes.append(&mut partial);
    let decoded = decode_log(bytes.as_slice());
    assert_same_records(&log, &decoded);
}

#[test]
fn non_ascii_keys_and_values_survive() {
    let log = vec![put("clé", "väl"), put("ключ", "значение")];
    let bytes = encode_log(&log);
    let decoded = decode_log(bytes.as_slice());
    assert_same_records(&log, &decoded);
}

#[test]
fn duplicate_copies_record_for_record() {
    let log = vec![put("a", "1"), rm("b")];
    let copy = kvs::codec::duplicate_commands(&log);
    assert_same_records(&log, &copy);
}
