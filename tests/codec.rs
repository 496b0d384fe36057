use logger_ms::codec::encode_batch;
use logger_ms::decode::decode_batch;
use logger_ms::syscall::SyscallInfo;

fn info(pid: i32, line: &str) -> SyscallInfo {
    SyscallInfo { pid, syscall_line: line.to_string() }
}

fn pairs_of(text: &str) -> Vec<(i64, String)> {
    let v: serde_json::Value = serde_json::from_str(text).unwrap();
    let mut out = Vec::new();
    for item in v.as_array().unwrap() {
        let obj = item.as_object().unwrap();
        assert_eq!(obj.len(), 2);
        out.push((
            obj["pid"].as_i64().unwrap(),
            obj["syscallLine"].as_str().unwrap().to_string(),
        ));
    }
    out
}

#[test]
fn encodes_one_record_exactly() {
    let text = encode_batch(&vec![info(1234, "3 0x1 0x2 0x3 0x4 0x5 0x6")]);
    assert_eq!(text, r#"[{"pid":1234,"syscallLine":"3 0x1 0x2 0x3 0x4 0x5 0x6"}]"#);
}

#[test]
fn encodes_empty_batch() {
    assert_eq!(encode_batch(&vec![]), "[]");
}

#[test]
fn encodes_several_records_with_commas() {
    let text = encode_batch(&vec![info(1, "a"), info(-2, "b")]);
    assert_eq!(text, r#"[{"pid":1,"syscallLine":"a"},{"pid":-2,"syscallLine":"b"}]"#);
}

#[test]
fn escapes_quotes_backslashes_and_controls() {
    let text = encode_batch(&vec![info(5, "a\"b\\c\nd\u{1}")]);
    assert_eq!(text, r#"[{"pid":5,"syscallLine":"a\"b\\c\u000ad\u0001"}]"#);
}

#[test]
fn round_trip_through_json_parser() {
    let batch = vec![
        info(42, "3 0x1 0x2 0x3 0x4 0x5 0x6"),
        info(7, "running"),
        info(2147483647, "tab\there \"quoted\" back\\slash é"),
    ];
    let text = encode_batch(&batch);
    let got = pairs_of(&text);
    let want: Vec<(i64, String)> =
        batch.iter().map(|s| (s.pid as i64, s.syscall_line.clone())).collect();
    assert_eq!(got, want);
}

fn same(a: &[SyscallInfo], b: &[SyscallInfo]) -> bool {
    a.len() == b.len()
        && a.iter().zip(b.iter()).all(|(x, y)| x.pid == y.pid && x.syscall_line == y.syscall_line)
}

#[test]
fn decode_gives_back_encoded_batch() {
    let batch = vec![
        info(42, "3 0x1 0x2 0x3 0x4 0x5 0x6"),
        info(-2147483648, "x\"y\\z\u{1f}w"),
        info(0, "é ü"),
    ];
    let back = decode_batch(&encode_batch(&batch)).unwrap();
    assert!(same(&back, &batch));
}

#[test]
fn decode_empty_list() {
    assert_eq!(decode_batch("[]").unwrap().len(), 0);
}

#[test]
fn decode_reads_one_record() {
    let back = decode_batch(r#"[{"pid":1234,"syscallLine":"read"}]"#).unwrap();
    assert_eq!(back.len(), 1);
    assert_eq!(back[0].pid, 1234);
    assert_eq!(back[0].syscall_line, "read");
}

#[test]
fn decode_rejects_other_texts() {
    assert!(decode_batch("").is_none());
    assert!(decode_batch("[").is_none());
    assert!(decode_batch("[ ]").is_none());
    assert!(decode_batch("[]x").is_none());
    assert!(decode_batch(r#"[{"pid":007,"syscallLine":"a"}]"#).is_none());
    assert!(decode_batch(r#"[{"pid":-0,"syscallLine":"a"}]"#).is_none());
    assert!(decode_batch(r#"[{"pid":2147483648,"syscallLine":"a"}]"#).is_none());
    assert!(decode_batch(r#"[{"pid":1,"syscallLine":"\u0041"}]"#).is_none());
    assert!(decode_batch(r#"[{"pid":1,"syscall_line":"a"}]"#).is_none());
    assert!(decode_batch(r#"[{"pid":1,"syscallLine":"a"},]"#).is_none());
    assert!(decode_batch(r#"[{"pid":1,"syscallLine":"a"}"#).is_none());
}
