//! The lazy zero-copy views: on-demand accessors, the memoized record
//! table, and agreement with the eager strategy over one fixture.

use otlp_logs::otlp_bytes_lazy::{AnyValueType, LogRecordParser, LogsDataParser, ScopeLogsParser};

fn lz_varint(mut v: u64, out: &mut Vec<u8>) {
    loop {
        let b = (v & 0x7f) as u8;
        v >>= 7;
        if v == 0 {
            out.push(b);
            break;
        }
        out.push(b | 0x80);
    }
}

fn lz_key(tag: u32, wire: u8, out: &mut Vec<u8>) {
    lz_varint(((tag as u64) << 3) | (wire as u64), out);
}

fn lz_len(tag: u32, bytes: &[u8], out: &mut Vec<u8>) {
    lz_key(tag, 2, out);
    lz_varint(bytes.len() as u64, out);
    out.extend_from_slice(bytes);
}

fn lz_varint_field(tag: u32, v: u64, out: &mut Vec<u8>) {
    lz_key(tag, 0, out);
    lz_varint(v, out);
}

fn lz_fixed64(tag: u32, v: u64, out: &mut Vec<u8>) {
    lz_key(tag, 1, out);
    out.extend_from_slice(&v.to_le_bytes());
}

fn lz_str_value(s: &str) -> Vec<u8> {
    let mut av = Vec::new();
    lz_len(1, s.as_bytes(), &mut av);
    av
}

fn lz_attr(key: &str, value_msg: &[u8]) -> Vec<u8> {
    let mut kv = Vec::new();
    lz_len(1, key.as_bytes(), &mut kv);
    lz_len(2, value_msg, &mut kv);
    kv
}

fn lz_str_attr(key: &str, val: &str) -> Vec<u8> {
    lz_attr(key, &lz_str_value(val))
}

fn lz_int_attr(key: &str, val: i64) -> Vec<u8> {
    let mut av = Vec::new();
    lz_varint_field(3, val as u64, &mut av);
    lz_attr(key, &av)
}

fn lz_record(time: u64, severity: u64, text: &str, attrs: &[Vec<u8>]) -> Vec<u8> {
    let mut rec = Vec::new();
    lz_fixed64(1, time, &mut rec);
    lz_fixed64(11, time + 1, &mut rec);
    lz_varint_field(2, severity, &mut rec);
    lz_len(3, text.as_bytes(), &mut rec);
    for a in attrs {
        lz_len(6, a, &mut rec);
    }
    rec
}

fn lz_scope_logs(name: &str, version: &str, records: &[Vec<u8>]) -> Vec<u8> {
    let mut sc = Vec::new();
    lz_len(1, name.as_bytes(), &mut sc);
    lz_len(2, version.as_bytes(), &mut sc);
    let mut sl = Vec::new();
    lz_len(1, &sc, &mut sl);
    for r in records {
        lz_len(2, r, &mut sl);
    }
    sl
}

fn lz_payload(resource_attrs: &[Vec<u8>], scopes: &[Vec<u8>]) -> Vec<u8> {
    let mut res = Vec::new();
    for a in resource_attrs {
        lz_len(1, a, &mut res);
    }
    let mut rl = Vec::new();
    lz_len(1, &res, &mut rl);
    for s in scopes {
        lz_len(2, s, &mut rl);
    }
    let mut logs = Vec::new();
    lz_len(1, &rl, &mut logs);
    logs
}

#[test]
fn lazy_resource_and_scope_accessors() {
    let data = lz_payload(
        &[lz_str_attr("service.name", "svc")],
        &[lz_scope_logs("scope-a", "0.1.0", &[lz_record(5, 9, "INFO", &[])])],
    );
    let logs = LogsDataParser::new(&data);
    let mut resources = logs.resource_logs();
    let resource = resources.next().unwrap();
    assert!(resources.next().is_none());

    assert!(resource.resource().is_some());
    let mut attrs = resource.attributes().unwrap();
    let first = attrs.next().unwrap();
    assert_eq!(first.key(), Some(&b"service.name"[..]));
    assert_eq!(first.value().unwrap().string_value(), Some(&b"svc"[..]));
    assert!(attrs.next().is_none());

    let mut scopes = resource.scope_logs();
    let scope = scopes.next().unwrap();
    assert!(scopes.next().is_none());
    assert_eq!(scope.scope_name(), b"scope-a");
    assert_eq!(scope.scope_version(), Some(&b"0.1.0"[..]));
    assert_eq!(scope.schema_url(), None);
}

#[test]
fn lazy_record_accessors_use_the_memoized_table() {
    let rec_bytes = lz_record(
        1718380800000000000,
        13,
        "ERROR",
        &[lz_str_attr("method", "GET"), lz_int_attr("status_code", 200)],
    );
    let record = LogRecordParser::new(&rec_bytes);

    assert_eq!(record.time_unix_nano(), 1718380800000000000);
    assert_eq!(record.observed_time_unix_nano(), 1718380800000000001);
    assert_eq!(record.severity_number(), 13);
    assert_eq!(record.severity_text(), Some(&b"ERROR"[..]));
    assert_eq!(record.event_name(), None);
    assert_eq!(record.flags(), None);
    assert_eq!(record.trace_flags(), None);
    assert_eq!(record.dropped_attributes_count(), None);

    let mut attrs = record.attributes();
    let a0 = attrs.next().unwrap();
    assert_eq!(a0.key(), Some(&b"method"[..]));
    let a1 = attrs.next().unwrap();
    assert_eq!(a1.key(), Some(&b"status_code"[..]));
    assert_eq!(a1.value().unwrap().int_value(), Some(200));
    assert!(attrs.next().is_none());
}

#[test]
fn lazy_record_without_attributes_iterates_empty() {
    let rec_bytes = lz_record(1, 1, "TRACE", &[]);
    let record = LogRecordParser::new(&rec_bytes);
    let mut attrs = record.attributes();
    assert!(attrs.next().is_none());
}

#[test]
fn lazy_value_with_no_tag_reports_unknown() {
    let kv_bytes = lz_attr("bare", &[]);
    let record_bytes = {
        let mut rec = Vec::new();
        lz_len(6, &kv_bytes, &mut rec);
        rec
    };
    let record = LogRecordParser::new(&record_bytes);
    let mut attrs = record.attributes();
    let kv = attrs.next().unwrap();
    let value = kv.value().unwrap();
    assert_eq!(value.value_type(), AnyValueType::Unknown);
    assert_eq!(value.string_value(), None);
    assert_eq!(value.bool_value(), None);
    assert_eq!(value.int_value(), None);
    assert_eq!(value.bytes_value(), None);
}

#[test]
fn lazy_value_branches() {
    let mut av = Vec::new();
    lz_varint_field(2, 1, &mut av);
    let kv = lz_attr("flag", &av);
    let mut rec = Vec::new();
    lz_len(6, &kv, &mut rec);
    let record = LogRecordParser::new(&rec);
    let mut attrs = record.attributes();
    let value = attrs.next().unwrap().value().unwrap();
    assert_eq!(value.value_type(), AnyValueType::Bool);
    assert_eq!(value.bool_value(), Some(true));

    let mut av2 = Vec::new();
    lz_fixed64(4, 2.5f64.to_bits(), &mut av2);
    let parser = otlp_logs::otlp_bytes_lazy::AnyValueParser::new(&av2);
    assert_eq!(parser.value_type(), AnyValueType::Double);
    assert_eq!(parser.double_bits_value().map(f64::from_bits), Some(2.5));

    let mut av3 = Vec::new();
    lz_len(7, &[1, 2, 3], &mut av3);
    let parser3 = otlp_logs::otlp_bytes_lazy::AnyValueParser::new(&av3);
    assert_eq!(parser3.value_type(), AnyValueType::Bytes);
    assert_eq!(parser3.bytes_value(), Some(&[1u8, 2, 3][..]));

    let mut av4 = Vec::new();
    lz_len(5, &lz_str_value("elem"), &mut av4);
    let parser4 = otlp_logs::otlp_bytes_lazy::AnyValueParser::new(&av4);
    assert_eq!(parser4.value_type(), AnyValueType::Array);
    let mut elems = parser4.array_value().unwrap();
    let e0 = elems.next().unwrap();
    assert_eq!(e0.string_value(), Some(&b"elem"[..]));
    assert!(elems.next().is_none());
}

#[test]
fn lazy_trace_and_span_id_validity() {
    let mut rec = Vec::new();
    lz_len(9, &[0u8; 16], &mut rec);
    lz_len(10, &[0u8; 8], &mut rec);
    let record = LogRecordParser::new(&rec);
    assert!(!record.is_trace_id_valid());
    assert!(!record.is_span_id_valid());

    let trace: Vec<u8> = (1..=16).collect();
    let span: Vec<u8> = (1..=8).collect();
    let mut rec2 = Vec::new();
    lz_len(9, &trace, &mut rec2);
    lz_len(10, &span, &mut rec2);
    let record2 = LogRecordParser::new(&rec2);
    assert!(record2.is_trace_id_valid());
    assert!(record2.is_span_id_valid());

    let mut rec3 = Vec::new();
    lz_len(9, &[9u8; 17], &mut rec3);
    let record3 = LogRecordParser::new(&rec3);
    assert!(!record3.is_trace_id_valid());
}

#[test]
fn lazy_scope_name_defaults_to_empty() {
    let mut sl = Vec::new();
    lz_len(2, &lz_record(1, 1, "T", &[]), &mut sl);
    let scope = ScopeLogsParser::new(&sl);
    assert_eq!(scope.scope_name(), b"");
    assert_eq!(scope.scope_version(), None);
}

#[test]
fn lazy_yields_empty_key_attribute_that_eager_drops() {
    // The open divergence between strategies: an attribute with an empty
    // key is dropped by the eager tree but still yielded by the lazy
    // iteration (with its key reading back empty).
    let mut rec = Vec::new();
    lz_len(6, &lz_attr("", &lz_str_value("orphan")), &mut rec);

    let record = LogRecordParser::new(&rec);
    let mut attrs = record.attributes();
    let kv = attrs.next().unwrap();
    assert_eq!(kv.key(), Some(&b""[..]));
    assert!(attrs.next().is_none());

    let mut eager = otlp_logs::otlp_bytes::LogRecord::new();
    assert!(eager.parse(&rec));
    let mut eager_attrs = eager.attributes();
    assert!(eager_attrs.next().is_none());
}

#[test]
fn strategies_report_identical_counts() {
    // The shared fixture: 2 resource groups, 3 scope groups, 4 records,
    // 13 attributes, reported identically by the eager tree and the lazy
    // scan.
    let rec1 = lz_record(
        10,
        9,
        "INFO",
        &[
            lz_str_attr("method", "GET"),
            lz_int_attr("status_code", 200),
            lz_str_attr("response_time_ms", "45.7"),
            lz_str_attr("success", "true"),
        ],
    );
    let rec2 = lz_record(
        11,
        13,
        "ERROR",
        &[
            lz_str_attr("method", "POST"),
            lz_int_attr("status_code", 500),
            lz_str_attr("error_message", "Database connection failed"),
        ],
    );
    let rec3 = lz_record(
        12,
        5,
        "DEBUG",
        &[
            lz_str_attr("db.name", "users_db"),
            lz_int_attr("connection_pool_size", 10),
            lz_str_attr("connection_timeout_ms", "5000.0"),
        ],
    );
    let rec4 = lz_record(
        13,
        9,
        "INFO",
        &[
            lz_str_attr("job.id", "job-12345"),
            lz_str_attr("job.type", "email-batch"),
            lz_int_attr("batch_size", 1000),
        ],
    );
    let scope1 = lz_scope_logs("http-handler", "1.0.0", &[rec1, rec2]);
    let scope2 = lz_scope_logs("database-connector", "2.1.0", &[rec3]);
    let scope3 = lz_scope_logs("job-processor", "3.0.0", &[rec4]);

    let mut res1 = Vec::new();
    for a in [
        lz_str_attr("service.name", "web-server"),
        lz_str_attr("service.version", "1.2.3"),
        lz_str_attr("deployment.environment", "production"),
    ] {
        lz_len(1, &a, &mut res1);
    }
    let mut rl1 = Vec::new();
    lz_len(1, &res1, &mut rl1);
    lz_len(2, &scope1, &mut rl1);
    lz_len(2, &scope2, &mut rl1);

    let mut res2 = Vec::new();
    for a in [
        lz_str_attr("service.name", "background-worker"),
        lz_str_attr("service.version", "0.9.1"),
        lz_int_attr("worker.id", 42),
    ] {
        lz_len(1, &a, &mut res2);
    }
    let mut rl2 = Vec::new();
    lz_len(1, &res2, &mut rl2);
    lz_len(2, &scope3, &mut rl2);

    let mut data = Vec::new();
    lz_len(1, &rl1, &mut data);
    lz_len(1, &rl2, &mut data);

    let lazy = otlp_logs::traverse::count_logs_lazy(&data);
    assert_eq!(lazy, (2, 3, 4, 13));

    let mut tree = otlp_logs::otlp_bytes::LogsData::new();
    assert!(tree.parse(&data));
    let eager = otlp_logs::traverse::count_logs_eager(&tree).unwrap();
    assert_eq!(eager, lazy);
}

#[test]
fn lazy_varint_multi_byte_values() {
    let mut rec = Vec::new();
    lz_varint_field(7, 300, &mut rec);
    let record = LogRecordParser::new(&rec);
    assert_eq!(record.dropped_attributes_count(), Some(300));

    let mut rec2 = Vec::new();
    lz_varint_field(7, u64::MAX, &mut rec2);
    let record2 = LogRecordParser::new(&rec2);
    assert_eq!(record2.dropped_attributes_count(), Some(u32::MAX));
}

#[test]
fn lazy_attribute_iteration_stops_at_unusable_entry() {
    // The memoized iteration yields the longest prefix of usable entries:
    // an attribute occurrence with the wrong wire type ends it, and later
    // attributes stay unreached.
    let mut rec = Vec::new();
    lz_len(6, &lz_str_attr("first", "a"), &mut rec);
    lz_varint_field(6, 7, &mut rec);
    lz_len(6, &lz_str_attr("second", "b"), &mut rec);
    let record = LogRecordParser::new(&rec);
    assert_eq!(otlp_logs::traverse::count_record_attrs_lazy(&record), 1);
    let mut attrs = record.attributes();
    assert_eq!(attrs.next().unwrap().key(), Some(&b"first"[..]));
    assert!(attrs.next().is_none());
}

#[test]
fn lazy_varint_over_64_bits_reads_absent() {
    // Ten bytes encoding 2^64 fail the read: the memoized entry is there,
    // but the field reads back absent rather than truncated to 0.
    let mut rec = Vec::new();
    lz_key(7, 0, &mut rec);
    rec.extend_from_slice(&[0x80, 0x80, 0x80, 0x80, 0x80, 0x80, 0x80, 0x80, 0x80, 0x02]);
    let record = LogRecordParser::new(&rec);
    assert_eq!(record.dropped_attributes_count(), None);
}

#[test]
fn lazy_last_occurrence_wins_in_the_table() {
    // The memoized table keeps the last occurrence of a singular tag.
    let mut rec = Vec::new();
    lz_varint_field(2, 3, &mut rec);
    lz_varint_field(2, 17, &mut rec);
    let record = LogRecordParser::new(&rec);
    assert_eq!(record.severity_number(), 17);
}

#[test]
fn lazy_body_and_bytes_are_zero_copy_views() {
    let mut rec = Vec::new();
    lz_len(5, &lz_str_value("payload"), &mut rec);
    lz_len(9, &[7u8; 16], &mut rec);
    let record = LogRecordParser::new(&rec);
    let body = record.body().unwrap();
    let value = otlp_logs::otlp_bytes_lazy::AnyValueParser::new(body);
    assert_eq!(value.string_value(), Some(&b"payload"[..]));
    assert_eq!(record.trace_id(), Some(&[7u8; 16][..]));
}
