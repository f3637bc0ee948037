use kvs::Command;
use kvs::KvStore;
use kvs::KvsError;
use kvs::codec::encode_command;
use kvs::protocol::{EngineKind, check_engine_dir, serve_request};

fn request(cmd: Command) -> Vec<u8> {
    encode_command(&cmd)
}

#[test]
fn end_to_end_protocol() {
    let mut store = KvStore::open(Vec::new()).unwrap();
    let set = request(Command::Put { key: "foo".to_owned(), value: "bar".to_owned() });
    assert_eq!(serve_request(&mut store, &set), Ok(None));
    let get = request(Command::Get { key: "foo".to_owned() });
    assert_eq!(serve_request(&mut store, &get), Ok(Some(b"bar".to_vec())));
    let get_missing = request(Command::Get { key: "missing".to_owned() });
    assert_eq!(serve_request(&mut store, &get_missing), Ok(Some(b"Key not found".to_vec())));
    let rm = request(Command::Rm { key: "foo".to_owned() });
    assert_eq!(serve_request(&mut store, &rm), Ok(None));
    let get_removed = request(Command::Get { key: "foo".to_owned() });
    assert_eq!(serve_request(&mut store, &get_removed), Ok(Some(b"Key not found".to_vec())));
}

#[test]
fn remove_of_missing_key_replies_not_found() {
    let mut store = KvStore::open(Vec::new()).unwrap();
    let rm = request(Command::Rm { key: "nope".to_owned() });
    assert_eq!(serve_request(&mut store, &rm), Ok(Some(b"Key not found".to_vec())));
}

#[test]
fn malformed_request_is_an_error() {
    let mut store = KvStore::open(Vec::new()).unwrap();
    assert!(serve_request(&mut store, b"not a command").is_err());
    // the store is untouched and keeps serving
    let set = request(Command::Put { key: "k".to_owned(), value: "v".to_owned() });
    assert_eq!(serve_request(&mut store, &set), Ok(None));
}

#[test]
fn engine_mismatch_guard() {
    let kvs_dir = vec!["kvs-data.json".to_owned()];
    let sled_dir = vec!["sled-data".to_owned(), "other.txt".to_owned()];
    let empty: Vec<String> = Vec::new();
    assert_eq!(check_engine_dir(&kvs_dir, EngineKind::Kvs), Ok(()));
    assert_eq!(check_engine_dir(&kvs_dir, EngineKind::Sled), Err(KvsError::WrongEngineError));
    assert_eq!(check_engine_dir(&sled_dir, EngineKind::Sled), Ok(()));
    assert_eq!(check_engine_dir(&sled_dir, EngineKind::Kvs), Err(KvsError::WrongEngineError));
    assert_eq!(check_engine_dir(&empty, EngineKind::Kvs), Ok(()));
    assert_eq!(check_engine_dir(&empty, EngineKind::Sled), Ok(()));
}

#[test]
fn error_texts() {
    assert_eq!(KvsError::KeyNotFoundError.text(), "Key not found");
    assert_eq!(KvsError::WrongEngineError.text(), "wrong engine for this data directory");
    assert_eq!(KvsError::Corruption.text(), "corrupt log record");
    assert_eq!(KvsError::Io.text(), "IO error");
}
