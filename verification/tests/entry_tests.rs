use rs_loged::log_entry::LogEntry;
use rs_loged::log_level::LogLevel;
use rs_loged::value::Value;

fn nested_entry() -> LogEntry {
    let mut e = LogEntry::default();
    e.sid = "sender-1".to_owned();
    e.sts = -1234567890;
    e.stn = 17;
    e.rts = 1234567890;
    e.rtn = 999999999;
    e.lvl = LogLevel::Warning;
    e.iau = true;
    e.msg = "something happened".to_owned();
    e.dat = vec![
        ("count".to_owned(), Value::Int(42)),
        ("neg".to_owned(), Value::Int(-7)),
        ("name".to_owned(), Value::Str("bo\"b\\".to_owned())),
        ("flag".to_owned(), Value::Bool(true)),
        ("nothing".to_owned(), Value::Null),
        (
            "list".to_owned(),
            Value::Arr(vec![
                Value::Int(1),
                Value::Str("two".to_owned()),
                Value::Arr(vec![Value::Null, Value::Bool(false)]),
                Value::Obj(vec![("deep".to_owned(), Value::Int(-128))]),
            ]),
        ),
        (
            "map".to_owned(),
            Value::Obj(vec![
                ("k1".to_owned(), Value::Str("v1".to_owned())),
                ("k2".to_owned(), Value::Obj(vec![])),
            ]),
        ),
    ];
    e
}

#[test]
fn test_entry_round_trip_nested() {
    let e = nested_entry();
    let bytes = e.as_vec_u8().unwrap();
    let e2 = LogEntry::from_vec_u8(&bytes).unwrap();
    assert_eq!(e, e2);
}

#[test]
fn test_entry_round_trip_default() {
    let e = LogEntry::default();
    let bytes = e.as_vec_u8().unwrap();
    let e2 = LogEntry::from_vec_u8(&bytes).unwrap();
    assert_eq!(e, e2);
}

#[test]
fn test_entry_default_encoding_bytes() {
    let e = LogEntry::default();
    let bytes = e.as_vec_u8().unwrap();
    let mut expected: Vec<u8> = vec![0x99, 0xd9, 36];
    expected.extend_from_slice(b"00000000-0000-0000-0000-000000000000");
    expected.extend_from_slice(&[0, 0, 0, 0, 32, 0xc2, 0xa0, 0x80]);
    assert_eq!(bytes, expected);
}

#[test]
fn test_entry_decode_truncated() {
    let e = nested_entry();
    let mut bytes = e.as_vec_u8().unwrap();
    bytes.pop();
    assert!(LogEntry::from_vec_u8(&bytes).is_err());
}

#[test]
fn test_entry_decode_trailing_garbage() {
    let e = LogEntry::default();
    let mut bytes = e.as_vec_u8().unwrap();
    bytes.push(0);
    assert!(LogEntry::from_vec_u8(&bytes).is_err());
}

#[test]
fn test_to_str() {
    let mut e = LogEntry::default();
    e.sid = "SENDER_ID".to_owned();
    e.lvl = LogLevel::Info;
    assert_eq!(
        e.to_str().unwrap(),
        "\u{1b}[0;34m1970-01-01 00:00:00.000000000 SENDER_ID INFO    \u{25b6}  \u{25c6} {}\u{1b}[0m"
    );
    assert_eq!(
        e.to_str().unwrap(),
        "\u{1b}[0;34m1970-01-01 00:00:00.000000000 SENDER_ID INFO    \u{25b6}  \u{25c6} {}\u{1b}[0m"
    );
}

#[test]
fn test_to_str_with_payload() {
    let mut e = LogEntry::default();
    e.sid = "SENDER_ID".to_owned();
    e.rts = 1;
    e.rtn = 2;
    e.lvl = LogLevel::Warning;
    e.msg = "hello".to_owned();
    e.dat = vec![("k".to_owned(), Value::Int(1))];
    assert_eq!(
        e.to_str().unwrap(),
        "\u{1b}[0;33m1970-01-01 00:00:01.000000002 SENDER_ID WARNING \u{25b6} hello \u{25c6} {\"k\":1}\u{1b}[0m"
    );
}

#[test]
fn test_sdt_rdt() {
    let mut e = LogEntry::default();
    e.sts = 0;
    e.rts = 86400;
    let s = e.sdt().unwrap();
    let r = e.rdt().unwrap();
    assert_eq!(format!("{}", s), "1970-01-01 00:00:00");
    assert_eq!(format!("{}", r), "1970-01-02 00:00:00");
}
