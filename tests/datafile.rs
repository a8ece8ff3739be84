use kvs::text::{decimal_string, parse_u64};
use kvs::{DbError, KvsDatabase, KvsDatafile, Offset};

#[test]
fn datafile_name() {
    assert_eq!(KvsDatafile::file_name(0), "kv_0.data");
    assert_eq!(KvsDatafile::file_name(42), "kv_42.data");
    assert_eq!(KvsDatafile::file_name(u64::MAX), "kv_18446744073709551615.data");
}

#[test]
fn validate_reads_sequence() {
    assert_eq!(KvsDatafile::validate("kv_42.data").unwrap(), 42);
    assert_eq!(KvsDatafile::validate("kv_007.data").unwrap(), 7);
    assert_eq!(KvsDatafile::validate("kv_+5.data").unwrap(), 5);
    assert_eq!(KvsDatafile::validate(&KvsDatafile::file_name(123456)).unwrap(), 123456);
}

#[test]
fn validate_rejects_other_names() {
    for name in ["kv_.data", "kv_x.data", "kv_1.log", "kv_-1.data", "kv_18446744073709551616.data", "db", "kv_1data"] {
        match KvsDatafile::validate(name) {
            Err(DbError::InvalidDatafileName(n)) => assert_eq!(n, name),
            _ => panic!("{name} is no datafile name"),
        }
    }
}

#[test]
fn next_datafile() {
    assert_eq!(KvsDatafile(1).next().unwrap().0, 2);
    assert_eq!(KvsDatafile(u64::MAX).next().unwrap().0, u64::MAX);
}

#[test]
fn offset_default_is_zero() {
    let o = Offset::default();
    assert_eq!((o.sequence, o.byte_offset, o.record_length), (0, 0, 0));
}

#[test]
fn database_counts_datafiles() {
    let names = vec!["kv_1.data".to_string(), "kv_2.data".to_string(), "kv_x.data".to_string(), "notes".to_string()];
    let db = KvsDatabase::open("/srv/db", &names);
    assert_eq!(db.datafiles(), 2);
    assert_eq!(db.path, "/srv/db");
}

#[test]
fn decimal_numerals() {
    assert_eq!(decimal_string(0), "0");
    assert_eq!(decimal_string(10), "10");
    assert_eq!(decimal_string(9876543210), "9876543210");
    assert_eq!(parse_u64("18446744073709551615"), Some(u64::MAX));
    assert_eq!(parse_u64("18446744073709551616"), None);
    assert_eq!(parse_u64("+"), None);
    assert_eq!(parse_u64(""), None);
    assert_eq!(parse_u64("12a"), None);
}
