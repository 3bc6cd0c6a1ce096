use noter::codec::decimal::{read_decimal, write_decimal};
use noter::codec::quoted::{read_quoted, write_quoted};
use noter::codec::record::read_record;
use noter::{decode_stream, encode, Note, Operation, ParseError, Timestamp};

fn insert(key: u64, text: &str, schedule: &str) -> Operation {
    Operation::Insert {
        key,
        value: Note { text: text.to_string(), schedule: Timestamp::parse(schedule).unwrap() },
    }
}

fn written(op: &Operation) -> String {
    String::from_utf8(encode(op).unwrap()).unwrap()
}

fn same(a: &Operation, b: &Operation) -> bool {
    match (a, b) {
        (Operation::Insert { key: k1, value: v1 }, Operation::Insert { key: k2, value: v2 }) => {
            k1 == k2 && v1.text == v2.text && v1.schedule == v2.schedule
        }
        (Operation::Tombstone { key: k1 }, Operation::Tombstone { key: k2 }) => k1 == k2,
        _ => false,
    }
}

fn quoted(text: &[u8]) -> Vec<u8> {
    let mut out = Vec::new();
    write_quoted(&mut out, text);
    out
}

#[test]
fn an_insert_is_written_as_one_object() {
    assert_eq!(
        written(&insert(42, "Buy milk", "2024-01-01 09:00:00")),
        "{\"Insert\":{\"key\":42,\"value\":{\"text\":\"Buy milk\",\"schedule\":\"2024-01-01 09:00:00\"}}}"
    );
}

#[test]
fn a_tombstone_is_written_as_one_object() {
    assert_eq!(written(&Operation::Tombstone { key: 42 }), "{\"Tombstone\":{\"key\":42}}");
    assert_eq!(written(&Operation::Tombstone { key: 0 }), "{\"Tombstone\":{\"key\":0}}");
    assert_eq!(
        written(&Operation::Tombstone { key: u64::MAX }),
        "{\"Tombstone\":{\"key\":18446744073709551615}}"
    );
}

#[test]
fn an_insert_that_cannot_be_stored_is_not_written() {
    let op = Operation::Insert {
        key: 1,
        value: Note { text: "Never".to_string(), schedule: Timestamp { seconds: i64::MAX } },
    };
    assert_eq!(encode(&op), None);
}

#[test]
fn decimals_are_written_without_padding() {
    for (value, text) in [
        (0u64, "0"),
        (7, "7"),
        (10, "10"),
        (42, "42"),
        (1_000_000, "1000000"),
        (u64::MAX, "18446744073709551615"),
    ] {
        let mut out = b"key:".to_vec();
        write_decimal(&mut out, value);
        assert_eq!(out, format!("key:{}", text).into_bytes());
    }
}

#[test]
fn decimals_are_read_up_to_the_first_other_byte() {
    assert_eq!(read_decimal(b"42,", 0), Some((42, 2)));
    assert_eq!(read_decimal(b"42", 0), Some((42, 2)));
    assert_eq!(read_decimal(b"x42}", 1), Some((42, 3)));
    assert_eq!(read_decimal(b"0}", 0), Some((0, 1)));
    assert_eq!(read_decimal(b"18446744073709551615}", 0), Some((u64::MAX, 20)));
}

#[test]
fn decimals_that_are_not_canonical_are_refused() {
    assert_eq!(read_decimal(b"", 0), None);
    assert_eq!(read_decimal(b"42", 2), None);
    assert_eq!(read_decimal(b"}", 0), None);
    assert_eq!(read_decimal(b"-1", 0), None);
    assert_eq!(read_decimal(b"+1", 0), None);
    assert_eq!(read_decimal(b"042", 0), None);
    assert_eq!(read_decimal(b"00", 0), None);
    assert_eq!(read_decimal(b"18446744073709551616", 0), None);
    assert_eq!(read_decimal(b"99999999999999999999999", 0), None);
}

#[test]
fn strings_are_escaped_as_little_as_possible() {
    assert_eq!(quoted(b""), b"\"\"");
    assert_eq!(quoted(b"Buy milk"), b"\"Buy milk\"");
    assert_eq!(quoted(b"say \"hi\""), b"\"say \\\"hi\\\"\"");
    assert_eq!(quoted(b"a\\b"), b"\"a\\\\b\"");
    assert_eq!(quoted(b"a/b"), b"\"a/b\"");
    assert_eq!(quoted(b"\x08\x09\x0a\x0c\x0d"), b"\"\\b\\t\\n\\f\\r\"");
    assert_eq!(quoted(b"\x00\x01\x0b\x1f"), b"\"\\u0000\\u0001\\u000b\\u001f\"");
    assert_eq!(quoted(b"\x20\x7f"), b"\"\x20\x7f\"");
    assert_eq!(quoted("caf\u{e9} \u{1f95b}".as_bytes()), "\"caf\u{e9} \u{1f95b}\"".as_bytes());
}

#[test]
fn strings_are_written_as_serde_json_writes_them() {
    let mut all = String::new();
    for c in 0u32..0x250 {
        all.push(char::from_u32(c).unwrap());
    }
    for text in ["", "Buy milk", "say \"hi\"", "a\\b", "tab\there", "\u{0}\u{1f}\u{7f}", "\u{1f95b}", &all] {
        assert_eq!(quoted(text.as_bytes()), serde_json::to_string(text).unwrap().into_bytes());
    }
}

#[test]
fn every_byte_is_read_back_from_its_written_form() {
    let all: Vec<u8> = (0u8..=255).collect();
    let form = quoted(&all);
    assert_eq!(read_quoted(&form, 0), Some((all, form.len())));
}

#[test]
fn strings_are_read_up_to_the_closing_mark() {
    assert_eq!(read_quoted(b"\"\"", 0), Some((b"".to_vec(), 2)));
    assert_eq!(read_quoted(b"\"ab\",\"cd\"", 0), Some((b"ab".to_vec(), 4)));
    assert_eq!(read_quoted(b"\"ab\",\"cd\"", 5), Some((b"cd".to_vec(), 9)));
    assert_eq!(read_quoted(b"\"a\\\"b\"", 0), Some((b"a\"b".to_vec(), 6)));
    assert_eq!(read_quoted(b"\"\\u001f\\n\"", 0), Some((b"\x1f\n".to_vec(), 10)));
}

#[test]
fn strings_that_are_not_canonical_are_refused() {
    assert_eq!(read_quoted(b"", 0), None);
    assert_eq!(read_quoted(b"ab\"", 0), None);
    assert_eq!(read_quoted(b"\"ab", 0), None);
    assert_eq!(read_quoted(b"\"ab\\\"", 0), None);
    assert_eq!(read_quoted(b"\"a\nb\"", 0), None);
    assert_eq!(read_quoted(b"\"a\\/b\"", 0), None);
    assert_eq!(read_quoted(b"\"a\\xb\"", 0), None);
    assert_eq!(read_quoted(b"\"\\u0041\"", 0), None);
    assert_eq!(read_quoted(b"\"\\u000a\"", 0), None);
    assert_eq!(read_quoted(b"\"\\u000B\"", 0), None);
    assert_eq!(read_quoted(b"\"\\u00e9\"", 0), None);
    assert_eq!(read_quoted(b"\"\\u00\"", 0), None);
    assert_eq!(read_quoted(b"\"\\", 0), None);
}

#[test]
fn a_record_is_read_back_as_it_was_written() {
    for op in [
        insert(42, "Buy milk", "2024-01-01 09:00:00"),
        insert(0, "", "1970-01-01 00:00:00"),
        insert(u64::MAX, "say \"hi\"\\\n\t\u{1}", "9999-12-31 23:59:59"),
        insert(7, "caf\u{e9} \u{1f95b} \u{7f}", "0000-01-01 00:00:00"),
        insert(8, "{\"Tombstone\":{\"key\":8}}", "+10000-01-01 00:00:00"),
        Operation::Tombstone { key: 42 },
        Operation::Tombstone { key: 0 },
        Operation::Tombstone { key: u64::MAX },
    ] {
        let bytes = encode(&op).unwrap();
        let (read, end) = read_record(&bytes, 0).unwrap();
        assert!(same(&read, &op));
        assert_eq!(end, bytes.len());
        let mut framed = b"xx".to_vec();
        framed.extend_from_slice(&bytes);
        framed.extend_from_slice(b"{\"");
        let (read, end) = read_record(&framed, 2).unwrap();
        assert!(same(&read, &op));
        assert_eq!(end, 2 + bytes.len());
    }
}

#[test]
fn a_record_is_what_serde_json_reads() {
    let text = "say \"hi\"\\\n\t\u{1} caf\u{e9} \u{1f95b}";
    let bytes = encode(&insert(18_446_744_073_709_551_615, text, "2024-01-01 09:00:00")).unwrap();
    let value: serde_json::Value = serde_json::from_slice(&bytes).unwrap();
    let body = value.get("Insert").unwrap();
    assert_eq!(value.as_object().unwrap().len(), 1);
    assert_eq!(body.get("key").unwrap().as_u64(), Some(u64::MAX));
    let note = body.get("value").unwrap();
    assert_eq!(note.get("text").unwrap().as_str(), Some(text));
    assert_eq!(note.get("schedule").unwrap().as_str(), Some("2024-01-01 09:00:00"));
    let bytes = encode(&Operation::Tombstone { key: 42 }).unwrap();
    let value: serde_json::Value = serde_json::from_slice(&bytes).unwrap();
    assert_eq!(value.get("Tombstone").unwrap().get("key").unwrap().as_u64(), Some(42));
}

#[test]
fn a_log_is_read_record_by_record() {
    let ops = [
        insert(42, "Buy milk", "2024-01-01 09:00:00"),
        Operation::Tombstone { key: 42 },
        insert(43, "Call \"home\"", "2024-01-02 09:00:00"),
    ];
    let mut log = Vec::new();
    for op in &ops {
        log.extend_from_slice(&encode(op).unwrap());
    }
    let read = decode_stream(&log).unwrap();
    assert_eq!(read.len(), 3);
    for (a, b) in read.iter().zip(ops.iter()) {
        assert!(same(a, b));
    }
}

#[test]
fn the_empty_log_holds_no_record() {
    assert_eq!(decode_stream(b"").unwrap().len(), 0);
}

#[test]
fn damage_is_reported_where_it_starts() {
    let first = encode(&insert(42, "Buy milk", "2024-01-01 09:00:00")).unwrap();
    let second = encode(&Operation::Tombstone { key: 42 }).unwrap();
    let mut log = first.clone();
    log.extend_from_slice(b"garbage");
    assert_eq!(decode_stream(&log).unwrap_err(), ParseError { offset: first.len() });
    let mut log = first.clone();
    log.extend_from_slice(&second);
    log.extend_from_slice(&second[..second.len() - 1]);
    assert_eq!(
        decode_stream(&log).unwrap_err(),
        ParseError { offset: first.len() + second.len() }
    );
    assert_eq!(decode_stream(b"garbage").unwrap_err(), ParseError { offset: 0 });
    assert_eq!(decode_stream(b" ").unwrap_err(), ParseError { offset: 0 });
}

#[test]
fn nothing_may_stand_between_records() {
    let record = encode(&Operation::Tombstone { key: 42 }).unwrap();
    for between in [&b" "[..], b"\n", b",", b"\0"] {
        let mut log = record.clone();
        log.extend_from_slice(between);
        log.extend_from_slice(&record);
        assert_eq!(decode_stream(&log).unwrap_err(), ParseError { offset: record.len() });
    }
}

#[test]
fn records_in_another_shape_are_refused() {
    for log in [
        &b"{\"Tombstone\":{\"key\":42}"[..],
        b"{\"Tombstone\":{\"key\":042}}",
        b"{\"Tombstone\":{\"key\":-1}}",
        b"{\"Tombstone\":{\"key\":18446744073709551616}}",
        b"{\"Tombstone\":{\"key\":\"42\"}}",
        b"{\"Tombstone\": {\"key\":42}}",
        b"{\"tombstone\":{\"key\":42}}",
        b"{\"Remove\":{\"key\":42}}",
        b"[{\"Tombstone\":{\"key\":42}}]",
        b"{\"Insert\":{\"key\":42}}",
        b"{\"Insert\":{\"key\":42,\"value\":{\"schedule\":\"2024-01-01 09:00:00\",\"text\":\"Buy milk\"}}}",
        b"{\"Insert\":{\"key\":42,\"value\":{\"text\":\"Buy milk\",\"schedule\":\"2024-01-01T09:00:00\"}}}",
        b"{\"Insert\":{\"key\":42,\"value\":{\"text\":\"Buy milk\",\"schedule\":\"2024-02-30 09:00:00\"}}}",
        b"{\"Insert\":{\"key\":42,\"value\":{\"text\":\"Buy milk\",\"schedule\":1704099600}}}",
        b"{\"Insert\":{\"key\":42,\"value\":{\"text\":\"Buy \xff milk\",\"schedule\":\"2024-01-01 09:00:00\"}}}",
        b"{\"Insert\":{\"key\":42,\"value\":{\"text\":\"Buy milk\",\"schedule\":\"2024-01-01 09:00:00\"}}",
    ] {
        assert_eq!(decode_stream(log).unwrap_err(), ParseError { offset: 0 });
        assert!(read_record(log, 0).is_none());
    }
}
