use als_relay::codec::{decode, encode, DecodeError, EncodeError};
use als_relay::record::{LogEntry, LogRecord};

fn record(log_name: &[u8], node_id: &[u8], entries: Vec<LogEntry>) -> LogRecord {
    LogRecord { log_name: log_name.to_vec(), node_id: node_id.to_vec(), entries }
}

fn entry(path: &[u8], status: u64) -> LogEntry {
    LogEntry { path: path.to_vec(), status }
}

#[test]
fn encode_exact_payload() {
    let r = record(b"a", b"b", vec![entry(b"/x", 200)]);
    let p = encode(&r).unwrap();
    assert_eq!(
        p,
        b"{\"log_name\":\"a\",\"node_id\":\"b\",\"entries\":[{\"path\":\"/x\",\"status\":200}]}"
            .to_vec()
    );
}

#[test]
fn encode_exact_payload_empty_record() {
    let r = record(b"", b"", vec![]);
    let p = encode(&r).unwrap();
    assert_eq!(p, b"{\"log_name\":\"\",\"node_id\":\"\",\"entries\":[]}".to_vec());
}

#[test]
fn encode_escapes_specials() {
    let r = record(b"a\"b", b"c\\d\ne\tf\rg", vec![]);
    let p = encode(&r).unwrap();
    assert_eq!(
        p,
        b"{\"log_name\":\"a\\\"b\",\"node_id\":\"c\\\\d\\ne\\tf\\rg\",\"entries\":[]}".to_vec()
    );
}

#[test]
fn round_trip_basic() {
    let r = record(
        b"ingress-als",
        b"node-1",
        vec![entry(b"/", 200), entry(b"/health", 503), entry(b"/api/v2/items?id=7", 404)],
    );
    let p = encode(&r).unwrap();
    let back = decode(&p).unwrap();
    assert_eq!(back, r);
}

#[test]
fn round_trip_empty_fields() {
    let r = record(b"", b"", vec![]);
    let p = encode(&r).unwrap();
    assert_eq!(decode(&p).unwrap(), r);
}

#[test]
fn round_trip_escaped_bytes() {
    let r = record(b"quote \" backslash \\", b"tab\tnl\ncr\r", vec![entry(b"a\\\"b", 0)]);
    let p = encode(&r).unwrap();
    assert_eq!(decode(&p).unwrap(), r);
}

#[test]
fn round_trip_largest_status() {
    let r = record(b"n", b"m", vec![entry(b"/max", u64::MAX)]);
    let p = encode(&r).unwrap();
    let back = decode(&p).unwrap();
    assert_eq!(back.entries[0].status, u64::MAX);
    assert_eq!(back, r);
}

#[test]
fn encode_rejects_control_byte() {
    let r = record(b"ok", b"bad\x01id", vec![]);
    assert_eq!(encode(&r), Err(EncodeError::UnrepresentableByte));
    let r2 = record(b"ok", b"id", vec![entry(b"/p\x00q", 200)]);
    assert_eq!(encode(&r2), Err(EncodeError::UnrepresentableByte));
}

#[test]
fn decode_rejects_malformed() {
    assert_eq!(decode(&b"".to_vec()), Err(DecodeError::Malformed));
    assert_eq!(decode(&b"{}".to_vec()), Err(DecodeError::Malformed));
    // A wrong field name.
    assert_eq!(
        decode(&b"{\"logname\":\"a\",\"node_id\":\"b\",\"entries\":[]}".to_vec()),
        Err(DecodeError::Malformed)
    );
    // An unterminated string.
    assert_eq!(decode(&b"{\"log_name\":\"a".to_vec()), Err(DecodeError::Malformed));
    // An unknown escape code.
    assert_eq!(
        decode(&b"{\"log_name\":\"\\z\",\"node_id\":\"\",\"entries\":[]}".to_vec()),
        Err(DecodeError::Malformed)
    );
    // Trailing bytes after the closing brace.
    assert_eq!(
        decode(&b"{\"log_name\":\"\",\"node_id\":\"\",\"entries\":[]}x".to_vec()),
        Err(DecodeError::Malformed)
    );
    // A status beyond the machine range.
    assert_eq!(
        decode(
            &b"{\"log_name\":\"\",\"node_id\":\"\",\"entries\":[{\"path\":\"\",\"status\":18446744073709551616}]}"
                .to_vec()
        ),
        Err(DecodeError::Malformed)
    );
    // A status with no digits.
    assert_eq!(
        decode(
            &b"{\"log_name\":\"\",\"node_id\":\"\",\"entries\":[{\"path\":\"\",\"status\":}]}"
                .to_vec()
        ),
        Err(DecodeError::Malformed)
    );
}
