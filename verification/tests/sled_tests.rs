use kvs::engine::KvsEngine;
use kvs::error::KvsError;
use kvs::sled_engine::SledKvsEngine;

#[test]
fn sled_backend_set_get_remove() {
    let path = "/tmp/kvs_sled_engine_test_db";
    let db = SledKvsEngine::open(path).unwrap();
    let mut engine = SledKvsEngine { directory_path: String::from(path), sled_db: db };
    engine.set(String::from("alpha"), String::from("one")).unwrap();
    assert_eq!(engine.get(String::from("alpha")).unwrap(), Some(String::from("one")));
    engine.set(String::from("alpha"), String::from("two")).unwrap();
    assert_eq!(engine.get(String::from("alpha")).unwrap(), Some(String::from("two")));
    engine.remove(String::from("alpha")).unwrap();
    assert_eq!(engine.get(String::from("alpha")).unwrap(), None);
    assert_eq!(engine.remove(String::from("alpha")), Err(KvsError::KeyNotFound));
}

#[test]
fn sled_backend_serves_protocol_requests() {
    let path = "/tmp/kvs_sled_dispatch_test_db";
    let db = SledKvsEngine::open(path).unwrap();
    let mut engine = SledKvsEngine { directory_path: String::from(path), sled_db: db };
    let resp =
        kvs::server::KvsServer::handle_request(&mut engine, &b"SET\ncity\nparis\n"[..]).unwrap();
    assert_eq!(resp, b"+OK\n".to_vec());
    let resp = kvs::server::KvsServer::handle_request(&mut engine, &b"GET\ncity\n"[..]).unwrap();
    assert_eq!(resp, b"+paris\n".to_vec());
    let resp = kvs::server::KvsServer::handle_request(&mut engine, &b"RM\ncity\n"[..]).unwrap();
    assert_eq!(resp, b"+OK\n".to_vec());
}
