use kvs::selection::{check_db, choose_engine, select_engine, DirEntry, EngineKind, ExistingDb, StartupError};

fn file(name: &str) -> DirEntry {
    DirEntry { name: name.to_string(), is_file: true }
}

fn dir(name: &str) -> DirEntry {
    DirEntry { name: name.to_string(), is_file: false }
}

#[test]
fn detects_sled_database() {
    assert!(matches!(check_db(&vec![dir("db"), file("conf")]), Ok(ExistingDb::Sled)));
    assert!(matches!(check_db(&vec![file("db")]), Ok(ExistingDb::Sled)));
}

#[test]
fn detects_kvs_database() {
    assert!(matches!(check_db(&vec![file("kv_00001.log")]), Ok(ExistingDb::Kvs)));
    assert!(matches!(check_db(&vec![file("kv_.log")]), Ok(ExistingDb::Kvs)));
}

#[test]
fn ignores_other_entries() {
    let entries = vec![dir("kv_00001.log"), file("kv_1.data"), file("kv_log"), file("dbx"), file("kv.log")];
    assert!(matches!(check_db(&entries), Ok(ExistingDb::Fresh)));
    assert!(matches!(check_db(&vec![]), Ok(ExistingDb::Fresh)));
}

#[test]
fn refuses_both_databases() {
    let r = check_db(&vec![file("kv_00001.log"), dir("db")]);
    assert!(matches!(r, Err(StartupError::BothEngines)));
    assert_eq!(r.err().unwrap().exit_code(), 4);
}

#[test]
fn engine_mismatch() {
    let existing = check_db(&vec![dir("db")]).unwrap();
    let r = select_engine("kvs", existing);
    assert!(matches!(r, Err(StartupError::KvsOverSled)));
    assert_eq!(r.err().unwrap().exit_code(), 10);
    let r = select_engine("sled", ExistingDb::Kvs);
    assert!(matches!(r, Err(StartupError::SledOverKvs)));
    assert_eq!(r.err().unwrap().exit_code(), 11);
}

#[test]
fn engine_selection_allowed() {
    assert!(matches!(select_engine("kvs", ExistingDb::Kvs), Ok(EngineKind::Kvs)));
    assert!(matches!(select_engine("kvs", ExistingDb::Fresh), Ok(EngineKind::Kvs)));
    assert!(matches!(select_engine("sled", ExistingDb::Sled), Ok(EngineKind::Sled)));
    assert!(matches!(select_engine("sled", ExistingDb::Fresh), Ok(EngineKind::Sled)));
}

#[test]
fn unsupported_engine() {
    let r = select_engine("rocks", ExistingDb::Fresh);
    assert!(matches!(r, Err(StartupError::UnsupportedEngine)));
    assert_eq!(r.err().unwrap().exit_code(), 2);
    assert!(matches!(select_engine("KVS", ExistingDb::Fresh), Err(StartupError::UnsupportedEngine)));
}

#[test]
fn engine_name_in_any_case() {
    assert!(matches!(choose_engine("KVS", ExistingDb::Fresh), Ok(EngineKind::Kvs)));
    assert!(matches!(choose_engine("Sled", ExistingDb::Kvs), Err(StartupError::SledOverKvs)));
    assert!(matches!(choose_engine("KVS", ExistingDb::Sled), Err(StartupError::KvsOverSled)));
}
