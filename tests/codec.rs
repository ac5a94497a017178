use logstore::codec::{decode, encode, DecodeError, Record};

fn chars(s: &str) -> Vec<char> {
    s.chars().collect()
}

fn text(v: &[char]) -> String {
    v.iter().collect()
}

fn rec(key: i32, data: &str, tombstone: bool) -> Record {
    Record { key, data: data.to_string(), tombstone }
}

#[test]
fn encode_live_record() {
    assert_eq!(text(&encode(&rec(1, "alice", false))), "{\"key\":1,\"data\":\"alice\"}");
}

#[test]
fn encode_tombstone() {
    assert_eq!(
        text(&encode(&rec(-42, "", true))),
        "{\"key\":-42,\"data\":\"\",\"deleted\":true}"
    );
}

#[test]
fn encode_escapes_structural_characters() {
    let line = text(&encode(&rec(0, "a\"b\\c\nd\re", false)));
    assert_eq!(line, "{\"key\":0,\"data\":\"a\\\"b\\\\c\\nd\\re\"}");
    assert!(!line.contains('\n'));
}

#[test]
fn round_trip_various_records() {
    let cases = vec![
        rec(0, "", false),
        rec(7, "x", false),
        rec(i32::MAX, "max", false),
        rec(i32::MIN, "min", true),
        rec(-1, "line1\nline2\r\n\"quoted\" \\ back", false),
        rec(123456, "ünïcødé ✓", true),
        rec(10, "{\"key\":3}", false),
    ];
    for r in cases {
        let line = encode(&r);
        assert_eq!(decode(&line), Ok(r.clone()));
    }
}

#[test]
fn decode_reads_hand_written_line() {
    assert_eq!(decode(&chars("{\"key\":5,\"data\":\"x\"}")), Ok(rec(5, "x", false)));
}

#[test]
fn decode_rejects_malformed_lines() {
    let bad = [
        "",
        "{\"key\":5,\"data\":\"x\"",
        "{\"key\":5,\"data\":\"x",
        "{\"key\":,\"data\":\"x\"}",
        "{\"key\":-,\"data\":\"x\"}",
        "{\"key\":2147483648,\"data\":\"x\"}",
        "{\"key\":12345678901,\"data\":\"x\"}",
        "{\"key\":5,\"data\":\"a\\qb\"}",
        "{\"key\":5,\"data\":\"x\"} ",
        "{\"key\":5,\"data\":\"x\",\"deleted\":false}",
        "not a record",
    ];
    for line in bad.iter() {
        assert_eq!(decode(&chars(line)), Err(DecodeError::Malformed), "line {:?}", line);
    }
}

#[test]
fn decode_key_bounds() {
    assert_eq!(
        decode(&chars("{\"key\":-2147483648,\"data\":\"\"}")),
        Ok(rec(i32::MIN, "", false))
    );
    assert_eq!(
        decode(&chars("{\"key\":2147483647,\"data\":\"\"}")),
        Ok(rec(i32::MAX, "", false))
    );
}

#[test]
fn decode_reads_json_single_letter_escapes() {
    assert_eq!(
        decode(&chars("{\"key\":1,\"data\":\"a\\tb\\bc\\fd\\/e\"}")),
        Ok(rec(1, "a\tb\u{8}c\u{c}d/e", false))
    );
}

#[test]
fn decode_rejects_unicode_escape() {
    assert_eq!(
        decode(&chars("{\"key\":1,\"data\":\"\\u0001\"}")),
        Err(DecodeError::Malformed)
    );
}
