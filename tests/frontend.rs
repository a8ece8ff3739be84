use kvs::server::{get_response, remove_response, set_response};
use kvs::sled_engine::decode_stored;
use kvs::DbError;
use kvs::cli::run_action;
use kvs::server::{handle_request, Request};
use kvs::{Action, Backend, GetCmd, KvStore, KvsEngine, RmCmd, SetCmd, SledKvsEngine};

fn s(x: &str) -> String {
    x.to_string()
}

#[test]
fn server_answers_requests() {
    let mut backend = Backend::Kvs(KvStore::new());
    let r = handle_request(&mut backend, Request::SetKey { key: s("k"), value: s("v") });
    assert!(r.success);
    assert_eq!(r.value, None);
    let r = handle_request(&mut backend, Request::Get { key: s("k") });
    assert!(r.success);
    assert_eq!(r.value, Some(s("v")));
    let r = handle_request(&mut backend, Request::Get { key: s("other") });
    assert!(r.success);
    assert_eq!(r.value, Some(s("Key not found")));
    let r = handle_request(&mut backend, Request::Rm { key: s("k") });
    assert!(r.success);
    assert_eq!(r.value, None);
    let r = handle_request(&mut backend, Request::Rm { key: s("k") });
    assert!(!r.success);
    assert_eq!(r.value, Some(s("Key not found")));
}

#[test]
fn backend_hands_out_log_writes() {
    let mut backend = Backend::Kvs(KvStore::new());
    backend.set(s("a"), s("1")).unwrap();
    match backend.take_write() {
        Some(kvs::LogWrite::Append(bytes)) => assert_eq!(bytes, b"SET(\"a\",\"1\")\n".to_vec()),
        _ => panic!("the log-structured engine appends"),
    }
}

#[test]
fn cli_set_get_rm() {
    let mut store = KvStore::new();
    let out = run_action(&mut store, Action::SetKey(SetCmd { key: s("k"), value: s("v") }));
    assert_eq!((out.output, out.exit_code), (None, 0));
    let out = run_action(&mut store, Action::Get(GetCmd { key: s("k") }));
    assert_eq!((out.output, out.exit_code), (Some(s("v")), 0));
    let out = run_action(&mut store, Action::Remove(RmCmd { key: s("k") }));
    assert_eq!((out.output, out.exit_code), (None, 0));
}

#[test]
fn cli_missing_key() {
    let mut store = KvStore::new();
    let out = run_action(&mut store, Action::Get(GetCmd { key: s("k") }));
    assert_eq!((out.output, out.exit_code), (Some(s("Key not found")), 0));
    let out = run_action(&mut store, Action::Remove(RmCmd { key: s("k") }));
    assert_eq!((out.output, out.exit_code), (Some(s("Key not found")), 1));
}

fn sled_dir(name: &str) -> String {
    format!("/tmp/kvs-sled-tests-{}-{}", name, uuid::Uuid::new_v4())
}

#[test]
fn sled_backend_set_get_remove() {
    let mut engine = SledKvsEngine::open(&sled_dir("ops")).unwrap();
    assert_eq!(engine.get(s("k")).unwrap(), None);
    engine.set(s("k"), s("v1")).unwrap();
    engine.set(s("k"), s("v2")).unwrap();
    engine.set(s("ü"), s("€")).unwrap();
    assert_eq!(engine.get(s("k")).unwrap(), Some(s("v2")));
    assert_eq!(engine.get(s("ü")).unwrap(), Some(s("€")));
    engine.remove(s("k")).unwrap();
    assert_eq!(engine.get(s("k")).unwrap(), None);
    assert!(matches!(engine.remove(s("k")), Err(DbError::KeyNotFound)));
}

#[test]
fn sled_behind_the_server() {
    let mut backend = Backend::Sled(SledKvsEngine::open(&sled_dir("server")).unwrap());
    let r = handle_request(&mut backend, Request::Rm { key: s("k") });
    assert!(!r.success);
    assert_eq!(r.value, Some(s("Key not found")));
    let r = handle_request(&mut backend, Request::SetKey { key: s("k"), value: s("v") });
    assert!(r.success);
    let r = handle_request(&mut backend, Request::Get { key: s("k") });
    assert_eq!(r.value, Some(s("v")));
    assert!(backend.take_write().is_none());
    assert_eq!(backend.engine_name(), "Sled");
    assert_eq!(Backend::Kvs(KvStore::new()).engine_name(), "Kvs");
}

#[test]
fn engines_through_the_trait() {
    fn exercise<E: KvsEngine>(e: &mut E) {
        e.set(s("x"), s("1")).unwrap();
        assert_eq!(e.get(s("x")).unwrap(), Some(s("1")));
        e.remove(s("x")).unwrap();
        assert_eq!(e.get(s("x")).unwrap(), None);
    }
    exercise(&mut KvStore::new());
    exercise(&mut SledKvsEngine::open(&sled_dir("trait")).unwrap());
}

#[test]
fn decode_stored_bytes() {
    assert!(matches!(decode_stored(None), Ok(None)));
    assert_eq!(decode_stored(Some("é".as_bytes().to_vec())).unwrap(), Some(s("é")));
    assert!(matches!(decode_stored(Some(vec![0xff, 0xfe])), Err(DbError::BackendUtf8)));
}

#[test]
fn responses_from_engine_results() {
    let r = set_response(Ok(()));
    assert!(r.success && r.value.is_none());
    let r = set_response(Err(DbError::BackendUtf8));
    assert!(!r.success && r.value.is_none());
    let r = get_response(Ok(Some(s("v"))));
    assert!(r.success);
    assert_eq!(r.value, Some(s("v")));
    let r = get_response(Ok(None));
    assert!(r.success);
    assert_eq!(r.value, Some(s("Key not found")));
    let r = get_response(Err(DbError::BackendUtf8));
    assert!(!r.success && r.value.is_none());
    let r = remove_response(Ok(()));
    assert!(r.success && r.value.is_none());
    let r = remove_response(Err(DbError::KeyNotFound));
    assert!(!r.success);
    assert_eq!(r.value, Some(s("Key not found")));
    let r = remove_response(Err(DbError::Parse));
    assert!(!r.success && r.value.is_none());
}
