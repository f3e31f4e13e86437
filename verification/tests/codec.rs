use fastlog_core::{compress_raw, decompress_raw, fastlog_compress_json, fastlog_decompress_json,
    CodecError, JsonEvent};

#[test]
fn test_fastlog_roundtrip() {
    let input = b"The quick brown fox jumps over the lazy dog.";
    let compressed = compress_raw(input).unwrap();
    let out = decompress_raw(&compressed).unwrap();
    assert_eq!(input.to_vec(), out);
}

#[test]
fn test_compress_empty_roundtrip() {
    let compressed = compress_raw(b"").unwrap();
    let out = decompress_raw(&compressed).unwrap();
    assert_eq!(out, Vec::<u8>::new());
}

#[test]
fn test_decompress_json_rejects_invalid_lz4() {
    let bogus = vec![0x00, 0x01, 0x02, 0x03, 0xFF];
    let out = fastlog_decompress_json(&bogus);
    assert!(out.is_err());
}

#[test]
fn test_decompress_json_rejects_invalid_json() {
    let raw = b"not json";
    let compressed = lz4::block::compress(raw, None, true).expect("lz4 compress");
    let out = fastlog_decompress_json(&compressed);
    assert!(out.is_err());
}

#[test]
fn test_decompress_raw_format_error_kind() {
    let out = decompress_raw(&[0x00, 0x01, 0x02, 0x03, 0xFF]);
    assert_eq!(out, Err(CodecError::FormatError));
}

#[test]
fn test_decompress_json_schema_error_kind() {
    let compressed = lz4::block::compress(b"not json", None, true).unwrap();
    let out = fastlog_decompress_json(&compressed);
    assert_eq!(out.unwrap_err(), CodecError::SchemaError);
}

#[test]
fn test_decompress_json_format_error_kind() {
    let out = fastlog_decompress_json(&[0x00, 0x01, 0x02, 0x03, 0xFF]);
    assert_eq!(out.unwrap_err(), CodecError::FormatError);
}

#[test]
fn test_events_roundtrip() {
    let events = vec![
        JsonEvent { ts: 0, msg: String::from("") },
        JsonEvent { ts: 1712345678901, msg: String::from("proc start \"cmd.exe\" \\ path") },
        JsonEvent { ts: u64::MAX, msg: String::from("unicode: \u{263a} \u{1F600} caf\u{e9}") },
    ];
    let compressed = fastlog_compress_json(&events).unwrap();
    let out = fastlog_decompress_json(&compressed).unwrap();
    assert_eq!(out, events);
}

#[test]
fn test_empty_events_roundtrip() {
    let events: Vec<JsonEvent> = Vec::new();
    let compressed = fastlog_compress_json(&events).unwrap();
    let out = fastlog_decompress_json(&compressed).unwrap();
    assert_eq!(out, events);
}

#[test]
fn test_event_document_is_json() {
    let events = vec![JsonEvent { ts: 42, msg: String::from("hi") }];
    let doc = fastlog_core::encode_events(&events);
    // "hi" is 6869 in lowercase hex
    assert_eq!(doc, b"[{\"ts\":42,\"msg\":\"6869\"}]".to_vec());
}

#[test]
fn test_parse_events_rejects_noncanonical_number() {
    // leading zero is not canonical
    let out = fastlog_core::parse_events(b"[{\"ts\":042,\"msg\":\"\"}]");
    assert_eq!(out.unwrap_err(), CodecError::SchemaError);
}
