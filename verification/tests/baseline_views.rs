//! The baseline in-memory tree: building the shared fixture directly and
//! walking it through the traversal surface.

use otlp_logs::owned::{
    AnyValue, AnyValueData, InstrumentationScope, KeyValue, LogRecord, LogsData, Resource,
    ResourceLogs, ScopeLogs,
};
use otlp_logs::ValueType;

fn str_value(s: &str) -> AnyValue {
    AnyValue { value: Some(AnyValueData::StringValue(s.as_bytes().to_vec())) }
}

fn int_value(n: i64) -> AnyValue {
    AnyValue { value: Some(AnyValueData::IntValue(n)) }
}

fn double_value(d: f64) -> AnyValue {
    AnyValue { value: Some(AnyValueData::DoubleValue(d.to_bits())) }
}

fn bool_value(b: bool) -> AnyValue {
    AnyValue { value: Some(AnyValueData::BoolValue(b)) }
}

fn attr(key: &str, value: AnyValue) -> KeyValue {
    KeyValue { key: key.as_bytes().to_vec(), value: Some(value) }
}

fn record(
    time: u64,
    severity: i32,
    severity_text: &str,
    body: &str,
    attributes: Vec<KeyValue>,
    event_name: &str,
) -> LogRecord {
    LogRecord {
        time_unix_nano: time,
        observed_time_unix_nano: time,
        severity_number: severity,
        severity_text: severity_text.as_bytes().to_vec(),
        body: Some(str_value(body)),
        attributes,
        dropped_attributes_count: 0,
        flags: 0,
        trace_id: Vec::new(),
        span_id: Vec::new(),
        event_name: event_name.as_bytes().to_vec(),
    }
}

fn scope(name: &str, version: &str, records: Vec<LogRecord>) -> ScopeLogs {
    ScopeLogs {
        scope: Some(InstrumentationScope {
            name: name.as_bytes().to_vec(),
            version: version.as_bytes().to_vec(),
            attributes: Vec::new(),
            dropped_attributes_count: 0,
        }),
        log_records: records,
        schema_url: Vec::new(),
    }
}

fn create_test_logs() -> LogsData {
    LogsData {
        resource_logs: vec![
            ResourceLogs {
                resource: Some(Resource {
                    attributes: vec![
                        attr("service.name", str_value("web-server")),
                        attr("service.version", str_value("1.2.3")),
                        attr("deployment.environment", str_value("production")),
                    ],
                    dropped_attributes_count: 0,
                }),
                scope_logs: vec![
                    scope(
                        "http-handler",
                        "1.0.0",
                        vec![
                            record(
                                1718380800000000000,
                                9,
                                "INFO",
                                "request_received",
                                vec![
                                    attr("method", str_value("GET")),
                                    attr("status_code", int_value(200)),
                                    attr("response_time_ms", double_value(45.7)),
                                    attr("success", bool_value(true)),
                                ],
                                "HTTP Request",
                            ),
                            record(
                                1718380801000000000,
                                13,
                                "ERROR",
                                "request_failed",
                                vec![
                                    attr("method", str_value("POST")),
                                    attr("status_code", int_value(500)),
                                    attr(
                                        "error_message",
                                        str_value("Database connection failed"),
                                    ),
                                ],
                                "HTTP Error",
                            ),
                        ],
                    ),
                    scope(
                        "database-connector",
                        "2.1.0",
                        vec![record(
                            1718380802000000000,
                            5,
                            "DEBUG",
                            "connection_established",
                            vec![
                                attr("db.name", str_value("users_db")),
                                attr("connection_pool_size", int_value(10)),
                                attr("connection_timeout_ms", double_value(5000.0)),
                            ],
                            "DB Connection",
                        )],
                    ),
                ],
                schema_url: Vec::new(),
            },
            ResourceLogs {
                resource: Some(Resource {
                    attributes: vec![
                        attr("service.name", str_value("background-worker")),
                        attr("service.version", str_value("0.9.1")),
                        attr("worker.id", int_value(42)),
                    ],
                    dropped_attributes_count: 0,
                }),
                scope_logs: vec![scope(
                    "job-processor",
                    "3.0.0",
                    vec![record(
                        1718380803000000000,
                        9,
                        "INFO",
                        "job_started",
                        vec![
                            attr("job.id", str_value("job-12345")),
                            attr("job.type", str_value("email-batch")),
                            attr("batch_size", int_value(1000)),
                        ],
                        "Job Processing",
                    )],
                )],
                schema_url: Vec::new(),
            },
        ],
    }
}

#[test]
fn test_logs_view_iteration() {
    let logs = create_test_logs();
    let mut resource_count = 0;

    for resource in logs.resources().iter() {
        resource_count += 1;
        assert!(!resource.resource().is_empty());
    }

    assert_eq!(resource_count, 2);
}

#[test]
fn test_resource_logs_view() {
    let logs = create_test_logs();
    let resources: Vec<_> = logs.resources().iter().collect();

    assert_eq!(resources[0].resource(), b"web-server");
    let scopes: Vec<_> = resources[0].scopes().iter().collect();
    assert_eq!(scopes.len(), 2);

    assert_eq!(resources[1].resource(), b"background-worker");
    let scopes: Vec<_> = resources[1].scopes().iter().collect();
    assert_eq!(scopes.len(), 1);
}

#[test]
fn test_scope_logs_view() {
    let logs = create_test_logs();
    let resources: Vec<_> = logs.resources().iter().collect();
    let scopes: Vec<_> = resources[0].scopes().iter().collect();

    assert_eq!(scopes[0].scope(), b"http-handler");
    assert_eq!(scopes[0].version(), Some(&b"1.0.0"[..]));
    let records: Vec<_> = scopes[0].log_records().iter().collect();
    assert_eq!(records.len(), 2);

    assert_eq!(scopes[1].scope(), b"database-connector");
    assert_eq!(scopes[1].version(), Some(&b"2.1.0"[..]));
    let records: Vec<_> = scopes[1].log_records().iter().collect();
    assert_eq!(records.len(), 1);
}

#[test]
fn test_log_record_view() {
    let logs = create_test_logs();
    let resources: Vec<_> = logs.resources().iter().collect();
    let scopes: Vec<_> = resources[0].scopes().iter().collect();
    let records: Vec<_> = scopes[0].log_records().iter().collect();

    assert_eq!(records[0].name(), b"log_record");
    assert_eq!(records[0].timestamp(), Some(1718380800000000000));

    let attributes: Vec<_> = records[0].attributes().iter().collect();
    assert_eq!(attributes.len(), 4);

    assert_eq!(records[1].name(), b"log_record");
    assert_eq!(records[1].timestamp(), Some(1718380801000000000));
}

#[test]
fn test_attribute_values() {
    let logs = create_test_logs();
    let resources: Vec<_> = logs.resources().iter().collect();
    let scopes: Vec<_> = resources[0].scopes().iter().collect();
    let records: Vec<_> = scopes[0].log_records().iter().collect();
    let attributes: Vec<_> = records[0].attributes().iter().collect();

    for attr in &attributes {
        match attr.key() {
            b"method" => {
                let value = attr.value().unwrap();
                assert_eq!(value.value_type(), ValueType::String);
                assert_eq!(value.as_string(), Some(&b"GET"[..]));
            }
            b"status_code" => {
                let value = attr.value().unwrap();
                assert_eq!(value.value_type(), ValueType::Int64);
                assert_eq!(value.as_int64(), Some(200));
            }
            b"response_time_ms" => {
                let value = attr.value().unwrap();
                assert_eq!(value.value_type(), ValueType::Double);
                assert_eq!(value.as_double_bits().map(f64::from_bits), Some(45.7));
            }
            b"success" => {
                let value = attr.value().unwrap();
                assert_eq!(value.value_type(), ValueType::Bool);
                assert_eq!(value.as_bool(), Some(true));
            }
            _ => {}
        }
    }
}

#[test]
fn test_nested_iteration_complete() {
    let logs = create_test_logs();
    let mut total_records = 0;
    let mut total_attributes = 0;

    for resource in logs.resources().iter() {
        for scope in resource.scopes().iter() {
            for record in scope.log_records().iter() {
                total_records += 1;
                for _attr in record.attributes().iter() {
                    total_attributes += 1;
                }
            }
        }
    }

    assert_eq!(total_records, 4);
    assert_eq!(total_attributes, 13);
}

#[test]
fn test_value_type_detection() {
    let logs = create_test_logs();
    let resources: Vec<_> = logs.resources().iter().collect();
    let scopes: Vec<_> = resources[0].scopes().iter().collect();
    let records: Vec<_> = scopes[0].log_records().iter().collect();

    let error_attributes: Vec<_> = records[1].attributes().iter().collect();
    let mut found_string = false;
    let mut found_int = false;

    for attr in &error_attributes {
        if let Some(value) = attr.value() {
            match value.value_type() {
                ValueType::String => found_string = true,
                ValueType::Int64 => found_int = true,
                _ => {}
            }
        }
    }

    assert!(found_string);
    assert!(found_int);
}

#[test]
fn test_background_worker_resource() {
    let logs = create_test_logs();
    let resources: Vec<_> = logs.resources().iter().collect();

    assert_eq!(resources[1].resource(), b"background-worker");
    let scopes: Vec<_> = resources[1].scopes().iter().collect();
    assert_eq!(scopes[0].scope(), b"job-processor");
    assert_eq!(scopes[0].version(), Some(&b"3.0.0"[..]));

    let records: Vec<_> = scopes[0].log_records().iter().collect();
    assert_eq!(records.len(), 1);
    assert_eq!(records[0].name(), b"log_record");
}

#[test]
fn test_empty_logs() {
    let empty_logs = LogsData { resource_logs: vec![] };

    let resources: Vec<_> = empty_logs.resources().iter().collect();
    assert_eq!(resources.len(), 0);
}

#[test]
fn test_resource_with_no_scopes() {
    let logs_no_scopes = LogsData {
        resource_logs: vec![ResourceLogs {
            resource: Some(Resource {
                attributes: vec![attr("service.name", str_value("empty-service"))],
                dropped_attributes_count: 0,
            }),
            scope_logs: vec![],
            schema_url: Vec::new(),
        }],
    };

    let resources: Vec<_> = logs_no_scopes.resources().iter().collect();
    assert_eq!(resources.len(), 1);
    assert_eq!(resources[0].resource(), b"empty-service");

    let scopes: Vec<_> = resources[0].scopes().iter().collect();
    assert_eq!(scopes.len(), 0);
}

#[test]
fn baseline_counts_match_fixture() {
    let logs = create_test_logs();
    let counts = otlp_logs::traverse::count_logs_owned(&logs).unwrap();
    assert_eq!(counts, (2, 3, 4, 13));
}

#[test]
fn baseline_keeps_empty_key_attribute_visible() {
    // The baseline tree holds whatever it was built with: an attribute
    // with an empty key stays visible, unlike in the eager tree, which
    // drops such attributes while decoding.
    let rec = LogRecord {
        attributes: vec![attr("", str_value("orphan"))],
        ..record(1, 1, "TRACE", "quiet", vec![], "none")
    };
    let attrs: Vec<_> = rec.attributes().iter().collect();
    assert_eq!(attrs.len(), 1);
    assert_eq!(attrs[0].key(), b"");
}
