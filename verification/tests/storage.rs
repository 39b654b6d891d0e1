use event_tracker::get_current_time_in_ms;
use event_tracker::storage::Storage;
use event_tracker::types::{ErrorTypes, Event, LogType};

#[test]
fn test_new() {
    let storage = Storage::new();
    assert!(storage.is_empty())
}

#[test]
fn test_write_single_log() {
    let event_type = LogType::Yyz;
    let event = Event {
        payload: "a payload".into(),
        timestamp: get_current_time_in_ms().unwrap(),
        log_type: event_type.clone(),
    };
    let mut storage = Storage::new();
    storage.write_log_to_storage(event).unwrap();
    let res = storage.get_logs_in_range(None, None, None).unwrap();
    let expected = event_type;
    assert_eq!(expected, res[0].1 .0)
}

#[test]
fn test_write_multiple_logs() {
    let number_of_logs = 10;
    let mut storage = Storage::new();
    let base = get_current_time_in_ms().unwrap();
    for offset in 0..number_of_logs {
        let event_type = LogType::Yyz;
        let event = Event {
            payload: "a payload".into(),
            timestamp: base - offset as u64,
            log_type: event_type.clone(),
        };
        storage.write_log_to_storage(event).unwrap();
    }
    let res = storage.len();
    assert_eq!(number_of_logs, res)
}

#[test]
fn test_write_then_read_log() {
    let mut storage = Storage::new();
    let event_type = LogType::Yyz;
    let event = Event {
        payload: "a payload".into(),
        timestamp: get_current_time_in_ms().unwrap(),
        log_type: event_type.clone(),
    };
    storage.write_log_to_storage(event).unwrap();

    let res = storage.get_logs_in_range(None, None, None).unwrap();
    assert_eq!(1, res.len())
}

#[test]
fn test_write_then_read_multiple_events_filtered() {
    let mut storage = Storage::new();
    let base = get_current_time_in_ms().unwrap();
    let event_type = LogType::Yyz;
    let event = Event {
        payload: "1st payload".into(),
        timestamp: base - 2,
        log_type: event_type.clone(),
    };
    storage.write_log_to_storage(event).unwrap();

    let event_type = LogType::Xxx;
    let event = Event {
        payload: "2nd payload".into(),
        timestamp: base - 1,
        log_type: event_type.clone(),
    };
    storage.write_log_to_storage(event).unwrap();

    let event_type = LogType::Xxx;
    let event = Event {
        payload: "3rd payload".into(),
        timestamp: base,
        log_type: event_type.clone(),
    };
    storage.write_log_to_storage(event).unwrap();

    let res = storage
        .get_logs_in_range(None, None, Some(LogType::Xxx))
        .unwrap();
    assert_eq!(2, res.len())
}

#[test]
fn test_write_then_read_multiple_events() {
    let mut storage = Storage::new();
    let base = get_current_time_in_ms().unwrap();
    let event_type = LogType::Yyz;
    let event = Event {
        payload: "1st payload".into(),
        timestamp: base - 2,
        log_type: event_type.clone(),
    };
    storage.write_log_to_storage(event).unwrap();

    let event_type = LogType::Xxx;
    let event = Event {
        payload: "2nd payload".into(),
        timestamp: base - 1,
        log_type: event_type.clone(),
    };
    storage.write_log_to_storage(event).unwrap();

    let event = Event {
        payload: "3rd payload".into(),
        timestamp: base,
        log_type: event_type.clone(),
    };
    storage.write_log_to_storage(event).unwrap();

    let res = storage.get_logs_in_range(None, None, None).unwrap();
    assert_eq!(3, res.len())
}

#[test]
fn test_write_future_event() {
    let mut storage = Storage::new();
    let event_type = LogType::Yyz;
    let event = Event {
        payload: "a payload".into(),
        timestamp: get_current_time_in_ms().unwrap() * 2,
        log_type: event_type.clone(),
    };
    let res = storage.write_log_to_storage(event);
    assert!(res.is_err())
}

#[test]
fn test_invalid_time_range() {
    let storage = Storage::new();
    let res = storage.get_logs_in_range(Some(10), Some(0), None);
    assert!(res.is_err())
}

#[test]
fn test_valid_time_range() {
    let mut storage = Storage::new();
    let event_type = LogType::Yyz;
    let event = Event {
        payload: "a payload".into(),
        timestamp: get_current_time_in_ms().unwrap(),
        log_type: event_type.clone(),
    };
    storage.write_log_to_storage(event).unwrap();
    storage.get_logs_in_range(Some(0), Some(10), None).unwrap();
}

#[test]
fn test_get_before_write() {
    let storage = Storage::new();
    let res = storage.get_logs_in_range(None, None, None);
    assert!(res.is_err())
}

#[test]
fn test_get_log_range() {}

#[test]
fn test_insert_included_exactly_once() {
    let mut storage = Storage::new();
    let now = 5000;
    storage
        .write_log(
            Event {
                payload: "other".into(),
                timestamp: 1000,
                log_type: LogType::Xyz,
            },
            now,
        )
        .unwrap();
    storage
        .write_log(
            Event {
                payload: "the one".into(),
                timestamp: 2000,
                log_type: LogType::Yyz,
            },
            now,
        )
        .unwrap();
    let rows = storage.get_logs_in_range(None, None, None).unwrap();
    let hits: Vec<_> = rows.iter().filter(|r| r.0 == 2000).collect();
    assert_eq!(1, hits.len());
    assert_eq!(LogType::Yyz, hits[0].1 .0);
    assert_eq!(serde_json::Value::from("the one"), hits[0].1 .1);
}

#[test]
fn test_write_at_current_time_succeeds() {
    let mut storage = Storage::new();
    let res = storage.write_log(
        Event {
            payload: "on the dot".into(),
            timestamp: 7777,
            log_type: LogType::Zyx,
        },
        7777,
    );
    assert!(res.is_ok());
    assert_eq!(1, storage.len());
}

#[test]
fn test_future_event_error_kind_and_unchanged_store() {
    let mut storage = Storage::new();
    storage
        .write_log(
            Event {
                payload: "kept".into(),
                timestamp: 10,
                log_type: LogType::Xxx,
            },
            10,
        )
        .unwrap();
    let res = storage.write_log(
        Event {
            payload: "too new".into(),
            timestamp: 11,
            log_type: LogType::Xxx,
        },
        10,
    );
    assert!(matches!(res, Err(ErrorTypes::FutureTimestamp)));
    let rows = storage.get_logs_in_range(None, None, None).unwrap();
    assert_eq!(1, rows.len());
    assert_eq!(10, rows[0].0);
}

#[test]
fn test_invalid_range_error_kind() {
    let mut storage = Storage::new();
    let res = storage.get_logs_in_range(Some(10), Some(0), None);
    assert!(matches!(res, Err(ErrorTypes::InvalidRange(_))));

    storage
        .write_log(
            Event {
                payload: "something".into(),
                timestamp: 5,
                log_type: LogType::Xyz,
            },
            5,
        )
        .unwrap();
    let res = storage.get_logs_in_range(Some(10), Some(0), Some(LogType::Xyz));
    assert!(matches!(res, Err(ErrorTypes::InvalidRange(_))));
}

#[test]
fn test_empty_store_error_kind() {
    let storage = Storage::new();
    let res = storage.get_logs_in_range(None, None, None);
    assert!(matches!(res, Err(ErrorTypes::EmptyLogFile)));
    let res = storage.get_logs_in_range(Some(0), Some(100), Some(LogType::Xxx));
    assert!(matches!(res, Err(ErrorTypes::EmptyLogFile)));
}

#[test]
fn test_overwrite_same_timestamp_keeps_second() {
    let mut storage = Storage::new();
    storage
        .write_log(
            Event {
                payload: "first".into(),
                timestamp: 42,
                log_type: LogType::Xyz,
            },
            100,
        )
        .unwrap();
    storage
        .write_log(
            Event {
                payload: "second".into(),
                timestamp: 42,
                log_type: LogType::Zyx,
            },
            100,
        )
        .unwrap();
    assert_eq!(1, storage.len());
    let rows = storage.get_logs_in_range(Some(42), Some(42), None).unwrap();
    assert_eq!(1, rows.len());
    assert_eq!(42, rows[0].0);
    assert_eq!(LogType::Zyx, rows[0].1 .0);
    assert_eq!(serde_json::Value::from("second"), rows[0].1 .1);
}

#[test]
fn test_filtered_query_returns_subsequence_in_order() {
    let t = 1000;
    let mut storage = Storage::new();
    storage
        .write_log(
            Event {
                payload: "event 1".into(),
                timestamp: t,
                log_type: LogType::Yyz,
            },
            t + 2,
        )
        .unwrap();
    storage
        .write_log(
            Event {
                payload: "event 2".into(),
                timestamp: t + 1,
                log_type: LogType::Xxx,
            },
            t + 2,
        )
        .unwrap();
    storage
        .write_log(
            Event {
                payload: "event 3".into(),
                timestamp: t + 2,
                log_type: LogType::Xxx,
            },
            t + 2,
        )
        .unwrap();
    let rows = storage
        .get_logs_in_range(None, None, Some(LogType::Xxx))
        .unwrap();
    assert_eq!(2, rows.len());
    assert_eq!(t + 1, rows[0].0);
    assert_eq!(t + 2, rows[1].0);
    assert_eq!(serde_json::Value::from("event 2"), rows[0].1 .1);
    assert_eq!(serde_json::Value::from("event 3"), rows[1].1 .1);
}

#[test]
fn test_range_bounds_are_inclusive() {
    let mut storage = Storage::new();
    for ts in [10u64, 20, 30, 40] {
        storage
            .write_log(
                Event {
                    payload: serde_json::Value::from(ts),
                    timestamp: ts,
                    log_type: LogType::Xyz,
                },
                1000,
            )
            .unwrap();
    }
    let rows = storage.get_logs_in_range(Some(20), Some(30), None).unwrap();
    assert_eq!(2, rows.len());
    assert_eq!(20, rows[0].0);
    assert_eq!(30, rows[1].0);
}

#[test]
fn test_query_payload_equals_inserted_tree() {
    let mut storage = Storage::new();
    let mut map = serde_json::Map::new();
    map.insert("k".to_string(), serde_json::Value::from(vec![1, 2, 3]));
    map.insert("nested".to_string(), serde_json::Value::from("text"));
    let payload = serde_json::Value::Object(map);
    storage
        .write_log(
            Event {
                payload: payload.clone(),
                timestamp: 77,
                log_type: LogType::Xxx,
            },
            100,
        )
        .unwrap();
    let rows = storage.get_logs_in_range(None, None, None).unwrap();
    assert_eq!(payload, rows[0].1 .1);
}
