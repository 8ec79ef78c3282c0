use kvs::error::KvsError;
use kvs::server::{EngineChoice, KvsServer, split_fields};
use kvs::store::KvStore;

fn fresh_store() -> KvStore {
    KvStore::new(String::from("data"))
}

#[test]
fn protocol_set_then_get() {
    let mut store = fresh_store();
    let set_resp = KvsServer::handle_request(&mut store, &b"SET\nfoo\nbar\n"[..]).unwrap();
    assert_eq!(set_resp, b"+OK\n".to_vec());
    let get_resp = KvsServer::handle_request(&mut store, &b"GET\nfoo\n"[..]).unwrap();
    assert_eq!(get_resp, b"+bar\n".to_vec());
}

#[test]
fn protocol_get_of_missing_key_reports_not_found() {
    let mut store = fresh_store();
    let resp = KvsServer::handle_request(&mut store, &b"GET\nnothing\n"[..]).unwrap();
    assert_eq!(resp, b"+Key not found\n".to_vec());
}

#[test]
fn protocol_remove_answers_ok_then_not_found() {
    let mut store = fresh_store();
    KvsServer::handle_request(&mut store, &b"SET\nk\nv\n"[..]).unwrap();
    let first = KvsServer::handle_request(&mut store, &b"RM\nk\n"[..]).unwrap();
    assert_eq!(first, b"+OK\n".to_vec());
    let second = KvsServer::handle_request(&mut store, &b"RM\nk\n"[..]).unwrap();
    assert_eq!(second, b"+Key not found\n".to_vec());
}

#[test]
fn protocol_unknown_operation_is_refused() {
    let mut store = fresh_store();
    let r = KvsServer::handle_request(&mut store, &b"BOGUS\nk\n"[..]);
    assert_eq!(r, Err(KvsError::ProtocolError));
    assert_eq!(store.log.len(), 0);
}

#[test]
fn protocol_missing_field_is_refused() {
    let mut store = fresh_store();
    let r = KvsServer::handle_request(&mut store, &b"SET\nonly-a-key"[..]);
    assert_eq!(r, Err(KvsError::ProtocolError));
    let r2 = KvsServer::handle_request(&mut store, &b"GET"[..]);
    assert_eq!(r2, Err(KvsError::ProtocolError));
}

#[test]
fn protocol_request_with_padded_buffer() {
    // A fixed-size read buffer leaves trailing bytes after the last newline;
    // they form one extra field that the dispatcher never looks at.
    let mut store = fresh_store();
    let mut buffer = b"SET\nfoo\nbar\n".to_vec();
    buffer.resize(64, 0);
    let resp = KvsServer::handle_request(&mut store, buffer.as_slice()).unwrap();
    assert_eq!(resp, b"+OK\n".to_vec());
    assert_eq!(store.get(String::from("foo")).unwrap(), Some(String::from("bar")));
}

#[test]
fn split_fields_keeps_pieces_in_order() {
    let fields = split_fields(&b"GET\nfoo\n"[..]);
    assert_eq!(fields.len(), 3);
    assert_eq!(fields[0], b"GET".to_vec());
    assert_eq!(fields[1], b"foo".to_vec());
    assert_eq!(fields[2], Vec::<u8>::new());
}

#[test]
fn route_request_selects_engine_by_code() {
    assert_eq!(KvsServer::route_request(&String::from("kvs")), Ok(EngineChoice::Kvs));
    assert_eq!(KvsServer::route_request(&String::from("sled")), Ok(EngineChoice::Sled));
    assert_eq!(
        KvsServer::route_request(&String::from("other")),
        Err(KvsError::ProtocolError)
    );
}

#[test]
fn engine_mismatch_guard_refuses_crossed_backends() {
    let kvs = String::from("kvs");
    let sled = String::from("sled");
    assert_eq!(KvsServer::verify_database_type(&kvs, false, false), Ok(()));
    assert_eq!(KvsServer::verify_database_type(&kvs, false, true), Ok(()));
    assert_eq!(
        KvsServer::verify_database_type(&kvs, true, false),
        Err(KvsError::EngineMismatch)
    );
    assert_eq!(KvsServer::verify_database_type(&sled, true, false), Ok(()));
    assert_eq!(
        KvsServer::verify_database_type(&sled, false, true),
        Err(KvsError::EngineMismatch)
    );
}
