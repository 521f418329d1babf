//! The eager reusable parse tree: decoding an encoded fixture and walking
//! the pooled nodes, including reuse across parses.

use otlp_logs::otlp_bytes::{AnyValue, AnyValueType, KeyValue, LogRecord, LogsData, ScopeLogs,
    UsedSliceIter};

fn enc_varint(mut v: u64, out: &mut Vec<u8>) {
    loop {
        let b = (v & 0x7f) as u8;
        v >>= 7;
        if v == 0 {
            out.push(b);
            break;
        }
        out.push(b | 0x80);
    }
}

fn enc_key(tag: u32, wire: u8, out: &mut Vec<u8>) {
    enc_varint(((tag as u64) << 3) | (wire as u64), out);
}

fn enc_len(tag: u32, bytes: &[u8], out: &mut Vec<u8>) {
    enc_key(tag, 2, out);
    enc_varint(bytes.len() as u64, out);
    out.extend_from_slice(bytes);
}

fn enc_varint_field(tag: u32, v: u64, out: &mut Vec<u8>) {
    enc_key(tag, 0, out);
    enc_varint(v, out);
}

fn enc_fixed64(tag: u32, v: u64, out: &mut Vec<u8>) {
    enc_key(tag, 1, out);
    out.extend_from_slice(&v.to_le_bytes());
}

fn enc_str_value(s: &str) -> Vec<u8> {
    let mut av = Vec::new();
    enc_len(1, s.as_bytes(), &mut av);
    av
}

fn enc_attr(key: &str, value_msg: &[u8]) -> Vec<u8> {
    let mut kv = Vec::new();
    enc_len(1, key.as_bytes(), &mut kv);
    enc_len(2, value_msg, &mut kv);
    kv
}

fn enc_str_attr(key: &str, val: &str) -> Vec<u8> {
    enc_attr(key, &enc_str_value(val))
}

fn enc_int_attr(key: &str, val: i64) -> Vec<u8> {
    let mut av = Vec::new();
    enc_varint_field(3, val as u64, &mut av);
    enc_attr(key, &av)
}

fn enc_double_attr(key: &str, val: f64) -> Vec<u8> {
    let mut av = Vec::new();
    enc_fixed64(4, val.to_bits(), &mut av);
    enc_attr(key, &av)
}

fn enc_bool_attr(key: &str, val: bool) -> Vec<u8> {
    let mut av = Vec::new();
    enc_varint_field(2, if val { 1 } else { 0 }, &mut av);
    enc_attr(key, &av)
}

fn enc_record(
    time: u64,
    severity: u64,
    severity_text: &str,
    body: &str,
    attrs: &[Vec<u8>],
    event_name: &str,
) -> Vec<u8> {
    let mut rec = Vec::new();
    enc_fixed64(1, time, &mut rec);
    enc_fixed64(11, time, &mut rec);
    enc_varint_field(2, severity, &mut rec);
    enc_len(3, severity_text.as_bytes(), &mut rec);
    enc_len(5, &enc_str_value(body), &mut rec);
    for a in attrs {
        enc_len(6, a, &mut rec);
    }
    enc_len(12, event_name.as_bytes(), &mut rec);
    rec
}

fn enc_scope(name: &str, version: &str, records: &[Vec<u8>]) -> Vec<u8> {
    let mut sc = Vec::new();
    enc_len(1, name.as_bytes(), &mut sc);
    enc_len(2, version.as_bytes(), &mut sc);
    let mut sl = Vec::new();
    enc_len(1, &sc, &mut sl);
    for r in records {
        enc_len(2, r, &mut sl);
    }
    sl
}

fn enc_resource_logs(resource_attrs: &[Vec<u8>], scopes: &[Vec<u8>]) -> Vec<u8> {
    let mut res = Vec::new();
    for a in resource_attrs {
        enc_len(1, a, &mut res);
    }
    let mut rl = Vec::new();
    enc_len(1, &res, &mut rl);
    for s in scopes {
        enc_len(2, s, &mut rl);
    }
    rl
}

fn encode_fixture() -> Vec<u8> {
    let rec1 = enc_record(
        1718380800000000000,
        9,
        "INFO",
        "request_received",
        &[
            enc_str_attr("method", "GET"),
            enc_int_attr("status_code", 200),
            enc_double_attr("response_time_ms", 45.7),
            enc_bool_attr("success", true),
        ],
        "HTTP Request",
    );
    let rec2 = enc_record(
        1718380801000000000,
        13,
        "ERROR",
        "request_failed",
        &[
            enc_str_attr("method", "POST"),
            enc_int_attr("status_code", 500),
            enc_str_attr("error_message", "Database connection failed"),
        ],
        "HTTP Error",
    );
    let rec3 = enc_record(
        1718380802000000000,
        5,
        "DEBUG",
        "connection_established",
        &[
            enc_str_attr("db.name", "users_db"),
            enc_int_attr("connection_pool_size", 10),
            enc_double_attr("connection_timeout_ms", 5000.0),
        ],
        "DB Connection",
    );
    let rec4 = enc_record(
        1718380803000000000,
        9,
        "INFO",
        "job_started",
        &[
            enc_str_attr("job.id", "job-12345"),
            enc_str_attr("job.type", "email-batch"),
            enc_int_attr("batch_size", 1000),
        ],
        "Job Processing",
    );

    let scope1 = enc_scope("http-handler", "1.0.0", &[rec1, rec2]);
    let scope2 = enc_scope("database-connector", "2.1.0", &[rec3]);
    let scope3 = enc_scope("job-processor", "3.0.0", &[rec4]);

    let rl1 = enc_resource_logs(
        &[
            enc_str_attr("service.name", "web-server"),
            enc_str_attr("service.version", "1.2.3"),
            enc_str_attr("deployment.environment", "production"),
        ],
        &[scope1, scope2],
    );
    let rl2 = enc_resource_logs(
        &[
            enc_str_attr("service.name", "background-worker"),
            enc_str_attr("service.version", "0.9.1"),
            enc_int_attr("worker.id", 42),
        ],
        &[scope3],
    );

    let mut logs = Vec::new();
    enc_len(1, &rl1, &mut logs);
    enc_len(1, &rl2, &mut logs);
    logs
}

fn drain<'s, T>(mut it: UsedSliceIter<'s, T>) -> Vec<&'s T> {
    let mut v = Vec::new();
    while let Some(x) = it.next() {
        v.push(x);
    }
    v
}

#[test]
fn test_bytes_logs_view_iteration() {
    let encoded = encode_fixture();
    let mut bytes_logs = LogsData::new();
    bytes_logs.parse(&encoded);

    let mut resource_count = 0;

    for resource in drain(bytes_logs.resources()) {
        resource_count += 1;
        assert!(!resource.resource().is_empty());
    }

    assert_eq!(resource_count, 2);
}

#[test]
fn test_bytes_resource_logs_view() {
    let encoded = encode_fixture();
    let mut bytes_logs = LogsData::new();
    bytes_logs.parse(&encoded);
    let resources = drain(bytes_logs.resources());

    assert_eq!(resources[0].resource(), b"web-server");
    let scopes = drain(resources[0].scopes());
    assert_eq!(scopes.len(), 2);

    assert_eq!(resources[1].resource(), b"background-worker");
    let scopes = drain(resources[1].scopes());
    assert_eq!(scopes.len(), 1);
}

#[test]
fn test_bytes_scope_logs_view() {
    let encoded = encode_fixture();
    let mut bytes_logs = LogsData::new();
    bytes_logs.parse(&encoded);
    let resources = drain(bytes_logs.resources());
    let scopes = drain(resources[0].scopes());

    assert_eq!(scopes[0].scope(), b"http-handler");
    assert_eq!(scopes[0].version(), Some(&b"1.0.0"[..]));
    let records = drain(scopes[0].log_records());
    assert_eq!(records.len(), 2);

    assert_eq!(scopes[1].scope(), b"database-connector");
    assert_eq!(scopes[1].version(), Some(&b"2.1.0"[..]));
    let records = drain(scopes[1].log_records());
    assert_eq!(records.len(), 1);
}

#[test]
fn test_bytes_log_record_view() {
    let encoded = encode_fixture();
    let mut bytes_logs = LogsData::new();
    bytes_logs.parse(&encoded);
    let resources = drain(bytes_logs.resources());
    let scopes = drain(resources[0].scopes());
    let records = drain(scopes[0].log_records());

    assert_eq!(records[0].name(), b"log_record");
    assert_eq!(records[0].timestamp(), Some(1718380800000000000));

    let attributes = drain(records[0].attributes());
    assert_eq!(attributes.len(), 4);

    assert_eq!(records[1].name(), b"log_record");
    assert_eq!(records[1].timestamp(), Some(1718380801000000000));
}

#[test]
fn test_bytes_attribute_values() {
    let encoded = encode_fixture();
    let mut bytes_logs = LogsData::new();
    bytes_logs.parse(&encoded);
    let resources = drain(bytes_logs.resources());
    let scopes = drain(resources[0].scopes());
    let records = drain(scopes[0].log_records());
    let attributes = drain(records[0].attributes());

    for attr in &attributes {
        match attr.key() {
            b"method" => {
                let value = attr.value().unwrap();
                assert_eq!(value.value_type(), AnyValueType::String);
                assert_eq!(value.string_value(), Some(&b"GET"[..]));
            }
            b"status_code" => {
                let value = attr.value().unwrap();
                assert_eq!(value.value_type(), AnyValueType::Int);
                assert_eq!(value.int_value(), Some(200));
            }
            b"response_time_ms" => {
                let value = attr.value().unwrap();
                assert_eq!(value.value_type(), AnyValueType::Double);
                assert_eq!(value.double_bits_value().map(f64::from_bits), Some(45.7));
            }
            b"success" => {
                let value = attr.value().unwrap();
                assert_eq!(value.value_type(), AnyValueType::Bool);
                assert_eq!(value.bool_value(), Some(true));
            }
            _ => {}
        }
    }
}

#[test]
fn test_bytes_nested_iteration_complete() {
    let encoded = encode_fixture();
    let mut bytes_logs = LogsData::new();
    bytes_logs.parse(&encoded);

    let mut total_records = 0;
    let mut total_attributes = 0;

    for resource in drain(bytes_logs.resources()) {
        for scope in drain(resource.scopes()) {
            for record in drain(scope.log_records()) {
                total_records += 1;
                for _attr in drain(record.attributes()) {
                    total_attributes += 1;
                }
            }
        }
    }

    assert_eq!(total_records, 4);
    assert_eq!(total_attributes, 13);
}

#[test]
fn eager_parse_is_idempotent() {
    let encoded = encode_fixture();
    let mut tree = LogsData::new();
    assert!(tree.parse(&encoded));
    let once = otlp_logs::traverse::count_logs_eager(&tree).unwrap();
    assert!(tree.parse(&encoded));
    let twice = otlp_logs::traverse::count_logs_eager(&tree).unwrap();
    assert_eq!(once, twice);
    assert_eq!(twice, (2, 3, 4, 13));
}

#[test]
fn eager_reuse_exposes_only_new_content() {
    // Three resource groups first, then one: no stale entries stay visible.
    let one = enc_resource_logs(&[enc_str_attr("service.name", "alpha")], &[]);
    let mut three = Vec::new();
    enc_len(1, &one, &mut three);
    enc_len(1, &one, &mut three);
    enc_len(1, &one, &mut three);
    let mut single = Vec::new();
    enc_len(1, &enc_resource_logs(&[enc_str_attr("service.name", "omega")], &[]), &mut single);

    let mut tree = LogsData::new();
    assert!(tree.parse(&three));
    assert_eq!(drain(tree.resources()).len(), 3);

    assert!(tree.parse(&single));
    let after = drain(tree.resources());
    assert_eq!(after.len(), 1);
    assert_eq!(after[0].resource(), b"omega");
}

#[test]
fn eager_record_without_attributes_iterates_empty() {
    let rec = enc_record(7, 1, "TRACE", "quiet", &[], "none");
    let mut node = LogRecord::new();
    assert!(node.parse(&rec));
    assert_eq!(drain(node.attributes()).len(), 0);
    assert_eq!(node.severity_number(), 1);
    assert_eq!(node.severity_text(), Some(&b"TRACE"[..]));
}

#[test]
fn eager_trace_and_span_id_validity() {
    let mut rec = Vec::new();
    enc_len(9, &[0u8; 16], &mut rec);
    enc_len(10, &[0u8; 8], &mut rec);
    let mut node = LogRecord::new();
    assert!(node.parse(&rec));
    assert!(!node.is_trace_id_valid());
    assert!(!node.is_span_id_valid());

    let trace: Vec<u8> = (1..=16).collect();
    let span: Vec<u8> = (1..=8).collect();
    let mut rec2 = Vec::new();
    enc_len(9, &trace, &mut rec2);
    enc_len(10, &span, &mut rec2);
    let mut node2 = LogRecord::new();
    assert!(node2.parse(&rec2));
    assert!(node2.is_trace_id_valid());
    assert!(node2.is_span_id_valid());

    // Any other length is invalid regardless of content.
    let mut rec3 = Vec::new();
    enc_len(9, &[1u8; 15], &mut rec3);
    enc_len(10, &[1u8; 9], &mut rec3);
    let mut node3 = LogRecord::new();
    assert!(node3.parse(&rec3));
    assert!(!node3.is_trace_id_valid());
    assert!(!node3.is_span_id_valid());
}

#[test]
fn eager_trace_flags_take_low_bits() {
    let mut rec = Vec::new();
    enc_key(8, 5, &mut rec);
    rec.extend_from_slice(&0x0000_0181u32.to_le_bytes());
    let mut node = LogRecord::new();
    assert!(node.parse(&rec));
    assert_eq!(node.flags(), Some(0x181));
    assert_eq!(node.trace_flags(), Some(0x81));
}

#[test]
fn eager_drops_empty_key_attribute() {
    let mut rec = Vec::new();
    enc_len(6, &enc_attr("", &enc_str_value("orphan")), &mut rec);
    enc_len(6, &enc_str_attr("kept", "value"), &mut rec);
    let mut node = LogRecord::new();
    assert!(node.parse(&rec));
    let attrs = drain(node.attributes());
    assert_eq!(attrs.len(), 1);
    assert_eq!(attrs[0].key(), b"kept");
}

#[test]
fn eager_value_fall_through_and_precedence() {
    // A value with both a string and an integer branch reports the string:
    // the first populated tag in probe order wins.
    let mut av = Vec::new();
    enc_len(1, b"first", &mut av);
    enc_varint_field(3, 99, &mut av);
    let mut node = AnyValue::new();
    assert!(node.parse(&av));
    assert_eq!(node.value_type(), AnyValueType::String);
    assert_eq!(node.string_value(), Some(&b"first"[..]));
    assert_eq!(node.int_value(), None);

    // An unreadable string branch is passed over for the next branch.
    let mut av2 = Vec::new();
    enc_len(1, &[0xffu8, 0xfe], &mut av2);
    enc_varint_field(3, 7, &mut av2);
    let mut node2 = AnyValue::new();
    assert!(node2.parse(&av2));
    assert_eq!(node2.value_type(), AnyValueType::Int);
    assert_eq!(node2.int_value(), Some(7));
}

#[test]
fn eager_value_with_no_branch_fails_parse() {
    let mut node = AnyValue::new();
    assert!(!node.parse(&[]));

    // A key/value pair whose value has no populated branch keeps the key
    // and reports no value.
    let kv_bytes = enc_attr("bare", &[]);
    let mut kv = KeyValue::new();
    assert!(kv.parse(&kv_bytes));
    assert_eq!(kv.key(), b"bare");
    assert!(kv.value().is_none());
}

#[test]
fn eager_negative_and_large_varints() {
    let mut av = Vec::new();
    enc_varint_field(3, (-5i64) as u64, &mut av);
    let mut node = AnyValue::new();
    assert!(node.parse(&av));
    assert_eq!(node.int_value(), Some(-5));

    let mut av2 = Vec::new();
    enc_varint_field(3, 300, &mut av2);
    let mut node2 = AnyValue::new();
    assert!(node2.parse(&av2));
    assert_eq!(node2.int_value(), Some(300));

    let mut av3 = Vec::new();
    enc_varint_field(3, u64::MAX, &mut av3);
    let mut node3 = AnyValue::new();
    assert!(node3.parse(&av3));
    assert_eq!(node3.int_value(), Some(-1));
}

#[test]
fn eager_varint_over_64_bits_reads_absent() {
    // Ten bytes encoding 2^64: the sixty-fifth significant bit makes the
    // read fail; the field is absent, not silently truncated to 0.
    let mut rec = Vec::new();
    enc_key(7, 0, &mut rec);
    rec.extend_from_slice(&[0x80, 0x80, 0x80, 0x80, 0x80, 0x80, 0x80, 0x80, 0x80, 0x02]);
    let mut node = LogRecord::new();
    assert!(node.parse(&rec));
    assert_eq!(node.dropped_attributes_count(), None);

    // Exactly 64 significant bits still decodes: 2^63 has payload bit 0 in
    // the tenth byte.
    let mut av = Vec::new();
    enc_key(3, 0, &mut av);
    av.extend_from_slice(&[0x80, 0x80, 0x80, 0x80, 0x80, 0x80, 0x80, 0x80, 0x80, 0x01]);
    let mut value = AnyValue::new();
    assert!(value.parse(&av));
    assert_eq!(value.int_value(), Some(i64::MIN));
}

#[test]
fn eager_malformed_fields_read_absent() {
    // Wire-type mismatch: severity text carried as a varint is absent.
    let mut rec = Vec::new();
    enc_varint_field(3, 5, &mut rec);
    let mut node = LogRecord::new();
    assert!(node.parse(&rec));
    assert_eq!(node.severity_text(), None);

    // Truncated span: a declared length past the end reads absent.
    let mut rec2 = Vec::new();
    enc_key(3, 2, &mut rec2);
    enc_varint(100, &mut rec2);
    rec2.extend_from_slice(b"short");
    let mut node2 = LogRecord::new();
    assert!(node2.parse(&rec2));
    assert_eq!(node2.severity_text(), None);

    // Invalid text encoding reads absent, never a placeholder.
    let mut rec3 = Vec::new();
    enc_len(3, &[0xc3u8, 0x28], &mut rec3);
    let mut node3 = LogRecord::new();
    assert!(node3.parse(&rec3));
    assert_eq!(node3.severity_text(), None);
}

#[test]
fn eager_unsupported_wire_type_ends_scan() {
    // A group marker aborts the field scan: fields after it are
    // unreachable.
    let mut rec = Vec::new();
    enc_key(4, 3, &mut rec);
    enc_len(6, &enc_str_attr("after", "x"), &mut rec);
    let mut node = LogRecord::new();
    assert!(node.parse(&rec));
    assert_eq!(drain(node.attributes()).len(), 0);
}

#[test]
fn eager_array_and_kvlist_values() {
    let mut arr = Vec::new();
    enc_len(5, &enc_str_value("a"), &mut arr);
    let mut int_elem = Vec::new();
    enc_varint_field(3, 2, &mut int_elem);
    enc_len(5, &int_elem, &mut arr);
    let mut node = AnyValue::new();
    assert!(node.parse(&arr));
    assert_eq!(node.value_type(), AnyValueType::Array);
    let elems = node.array_value().unwrap();
    assert_eq!(elems.len(), 2);
    assert_eq!(elems[0].string_value(), Some(&b"a"[..]));
    assert_eq!(elems[1].int_value(), Some(2));

    let mut kvl = Vec::new();
    enc_len(6, &enc_str_attr("k", "v"), &mut kvl);
    let mut node2 = AnyValue::new();
    assert!(node2.parse(&kvl));
    assert_eq!(node2.value_type(), AnyValueType::KvList);
    let entries = node2.kvlist_value().unwrap();
    assert_eq!(entries.len(), 1);
    assert_eq!(entries[0].key(), b"k");
}

#[test]
fn eager_empty_buffer_parses_empty() {
    let mut tree = LogsData::new();
    assert!(!tree.parse(&[]));
    assert_eq!(drain(tree.resources()).len(), 0);
}

#[test]
fn eager_timestamp_falls_back_to_observed() {
    // Without an explicit timestamp the effective timestamp is the
    // observed one, and absent when that is zero too.
    let mut rec = Vec::new();
    enc_fixed64(11, 42, &mut rec);
    let mut node = LogRecord::new();
    assert!(node.parse(&rec));
    assert_eq!(node.time_unix_nano(), None);
    assert_eq!(node.observed_time_unix_nano(), 42);
    assert_eq!(node.timestamp(), Some(42));

    let mut bare = LogRecord::new();
    assert!(bare.parse(&[]));
    assert_eq!(bare.timestamp(), None);
}

#[test]
fn eager_scope_defaults() {
    // A scope group without a scope message reports the placeholder name.
    let mut sl = Vec::new();
    enc_len(2, &enc_record(1, 1, "T", "b", &[], "e"), &mut sl);
    let mut node = ScopeLogs::new();
    assert!(node.parse(&sl));
    assert_eq!(node.scope(), b"unknown-scope");
    assert_eq!(node.version(), None);
}
