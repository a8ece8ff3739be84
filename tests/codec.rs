use kvs::codec::{encode_record, parse_log, parse_record};
use kvs::{Action, GetCmd, RmCmd, SetCmd};

fn set(k: &str, v: &str) -> Action {
    Action::SetKey(SetCmd { key: k.to_string(), value: v.to_string() })
}

fn rm(k: &str) -> Action {
    Action::Remove(RmCmd { key: k.to_string() })
}

fn describe(a: &Action) -> String {
    match a {
        Action::SetKey(c) => format!("set {:?} {:?}", c.key, c.value),
        Action::Get(c) => format!("get {:?}", c.key),
        Action::Remove(c) => format!("rm {:?}", c.key),
    }
}

#[test]
fn encode_set_record() {
    assert_eq!(encode_record(&set("k", "v")), b"SET(\"k\",\"v\")".to_vec());
}

#[test]
fn encode_remove_record() {
    assert_eq!(encode_record(&rm("k")), b"RM(\"k\")".to_vec());
}

#[test]
fn encode_escapes_special_bytes() {
    assert_eq!(
        encode_record(&set("a\"b", "c\nd\\e")),
        b"SET(\"a\\\"b\",\"c\\nd\\\\e\")".to_vec()
    );
}

#[test]
fn parse_round_trip() {
    for a in [set("k", "v"), rm("k"), set("", ""), set("\n\"\\", "ü€"), rm("a,b)")] {
        let line = encode_record(&a);
        assert!(!line.contains(&b'\n'));
        let back = parse_record(&line).unwrap();
        assert_eq!(describe(&back), describe(&a));
    }
}

#[test]
fn parse_rejects_malformed_lines() {
    for line in [
        &b""[..],
        b"SET(\"k\")",
        b"SET(\"k\",\"v\"",
        b"SET(\"k\",\"v\"))",
        b"RM(\"k\",\"v\")",
        b"RM(k)",
        b"GET(\"k\")",
        b"SET(\"a\\qb\",\"v\")",
        b"SET(\"k\",\"v\")x",
        b"RM(\"\xff\")",
    ] {
        assert!(parse_record(line).is_none(), "{:?}", line);
    }
}

#[test]
fn parse_rejects_raw_newline_inside_quotes() {
    assert!(parse_record(b"RM(\"a\nb\")").is_none());
}

#[test]
fn parse_log_in_order() {
    let log = parse_log(b"SET(\"a\",\"1\")\nRM(\"a\")\nSET(\"b\",\"2\")\n").unwrap();
    let got: Vec<String> = log.iter().map(describe).collect();
    assert_eq!(got, vec!["set \"a\" \"1\"", "rm \"a\"", "set \"b\" \"2\""]);
}

#[test]
fn parse_log_rejects_truncated_final_record() {
    assert!(parse_log(b"SET(\"a\",\"1\")\nRM(\"a\")").is_none());
    assert!(parse_log(b"\n").is_none());
}

#[test]
fn get_is_never_written() {
    let a = Action::Get(GetCmd { key: "k".to_string() });
    assert_eq!(describe(&a), "get \"k\"");
}
