use kvs::error::KvsError;
use kvs::shared::SharedKvStore;
use kvs::store::KvStore;
use kvs::thread_pool::{validate_pool_size, JobQueue, PoolMessage};
use kvs::client::KvsClient;

#[test]
fn shared_handle_clones_share_one_store() {
    let handle = SharedKvStore::new(KvStore::new(String::from("data")));
    let other = handle.clone();
    handle.set(String::from("a"), String::from("1")).unwrap();
    assert_eq!(other.get(String::from("a")).unwrap(), Some(String::from("1")));
    other.remove(String::from("a")).unwrap();
    assert_eq!(handle.get(String::from("a")).unwrap(), None);
}

#[test]
fn shared_handle_remove_of_missing_key() {
    let handle = SharedKvStore::new(KvStore::new(String::from("data")));
    assert_eq!(handle.remove(String::from("nope")), Err(KvsError::KeyNotFound));
}

#[test]
fn shared_handle_serves_requests() {
    let handle = SharedKvStore::new(KvStore::new(String::from("data")));
    let resp = handle.handle_request(&b"SET\nfoo\nbar\n"[..]).unwrap();
    assert_eq!(resp, b"+OK\n".to_vec());
    let resp = handle.clone().handle_request(&b"GET\nfoo\n"[..]).unwrap();
    assert_eq!(resp, b"+bar\n".to_vec());
    assert_eq!(
        handle.handle_request(&b"WHAT\n"[..]),
        Err(KvsError::ProtocolError)
    );
}

#[test]
fn shared_handle_encodes_its_log() {
    let handle = SharedKvStore::new(KvStore::new(String::from("data")));
    handle.set(String::from("k"), String::from("v")).unwrap();
    let bytes = handle.encoded_log();
    let reopened = KvStore::open(String::from("data"), bytes.as_slice());
    assert_eq!(reopened.get(String::from("k")).unwrap(), Some(String::from("v")));
}

#[test]
fn job_queue_hands_out_first_in_first_out() {
    let mut q: JobQueue<i32> = JobQueue::new();
    assert_eq!(q.len(), 0);
    assert!(q.dequeue().is_none());
    q.enqueue(PoolMessage::NewJob(1));
    q.enqueue(PoolMessage::NewJob(2));
    q.enqueue(PoolMessage::NewJob(3));
    assert_eq!(q.len(), 3);
    assert!(matches!(q.dequeue(), Some(PoolMessage::NewJob(1))));
    assert!(matches!(q.dequeue(), Some(PoolMessage::NewJob(2))));
    assert!(matches!(q.dequeue(), Some(PoolMessage::NewJob(3))));
    assert!(q.dequeue().is_none());
}

#[test]
fn teardown_signals_follow_pending_jobs() {
    let mut q: JobQueue<i32> = JobQueue::new();
    q.enqueue(PoolMessage::NewJob(7));
    q.enqueue_termination_signals(2);
    assert_eq!(q.len(), 3);
    assert!(matches!(q.dequeue(), Some(PoolMessage::NewJob(7))));
    assert!(matches!(q.dequeue(), Some(PoolMessage::Terminate)));
    assert!(matches!(q.dequeue(), Some(PoolMessage::Terminate)));
    assert!(q.dequeue().is_none());
}

#[test]
fn pool_size_must_be_positive() {
    assert_eq!(validate_pool_size(0), Err(KvsError::ThreadPoolError));
    assert_eq!(validate_pool_size(1), Ok(1));
    assert_eq!(validate_pool_size(8), Ok(8));
}

#[test]
fn client_builds_wire_messages() {
    let key = String::from("foo");
    let value = String::from("bar");
    assert_eq!(KvsClient::set_message(&key, &value), String::from("SET\nfoo\nbar\n"));
    assert_eq!(KvsClient::get_message(&key), String::from("GET\nfoo\n"));
    assert_eq!(KvsClient::rm_message(&key), String::from("RM\nfoo\n"));
}

#[test]
fn client_reads_first_response_line() {
    let r = KvsClient::parse_response(&b"+bar\nleftover"[..]).unwrap();
    assert_eq!(r, String::from("+bar"));
    let r2 = KvsClient::parse_response(&b"+OK\n"[..]).unwrap();
    assert_eq!(r2, String::from("+OK"));
    assert_eq!(
        KvsClient::parse_response(&[0xFF, 0xFE, b'\n'][..]),
        Err(KvsError::ProtocolError)
    );
}

#[test]
fn error_messages_name_each_failure() {
    assert_eq!(KvsError::KeyNotFound.message(), String::from("Key not found"));
    assert_eq!(KvsError::IoError.message(), String::from("IO error"));
    assert_eq!(KvsError::ProtocolError.message(), String::from("Protocol error"));
    assert_eq!(
        KvsError::EngineMismatch.message(),
        String::from("Engine mismatch error")
    );
    assert_eq!(
        KvsError::ThreadPoolError.message(),
        String::from("Thread pool error")
    );
    assert_eq!(
        KvsError::SerializationError.message(),
        String::from("Serialization error")
    );
    assert_eq!(
        KvsError::StoreCorruption.message(),
        String::from("Store corruption error")
    );
}
