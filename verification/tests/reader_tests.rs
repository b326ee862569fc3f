use std::cell::RefCell;

use hts_connector::model::candle::Candle;
use hts_connector::model::indicator::Indicator;
use hts_connector::text::reader::classify;
use hts_connector::text::reader::dispatch_line;
use hts_connector::text::reader::eof_policy;
use hts_connector::text::reader::FollowSession;
use hts_connector::text::reader::process_lines;
use hts_connector::text::reader::FollowControl;
use hts_connector::text::reader::Handler;
use hts_connector::text::reader::Record;
use hts_connector::text::reader::POLL_INTERVAL_MS;

/// A handler that records every call, in order, and can be told to fail.
struct Recorder {
    seen: RefCell<Vec<Record>>,
    fail: bool,
}

impl Recorder {
    fn new() -> Recorder {
        Recorder { seen: RefCell::new(Vec::new()), fail: false }
    }

    fn failing() -> Recorder {
        Recorder { seen: RefCell::new(Vec::new()), fail: true }
    }
}

impl Handler for Recorder {
    fn handle_candle(&self, candle: Candle) -> Result<(), String> {
        if self.fail {
            return Err("sink rejected the write".to_string());
        }
        self.seen.borrow_mut().push(Record::Candle(candle));
        Ok(())
    }

    fn handle_indicator(&self, indicator: Indicator) -> Result<(), String> {
        if self.fail {
            return Err("sink rejected the write".to_string());
        }
        self.seen.borrow_mut().push(Record::Indicator(indicator));
        Ok(())
    }
}

fn candle(timestamp: u64, event: &str, o: &str, h: &str, c: &str, l: &str) -> Candle {
    Candle {
        timestamp,
        event: event.to_string(),
        open: o.to_string(),
        high: h.to_string(),
        close: c.to_string(),
        low: l.to_string(),
    }
}

fn indicator(timestamp: u64, event: &str, property: &str, value: i64) -> Indicator {
    Indicator { timestamp, event: event.to_string(), property: property.to_string(), value }
}

#[test]
fn test_read_data_candle() {
    let datas: [&str; 3] = [
        "2024-04-30 13:21:00  테스트 368.850000 368.900000 368.750000 368.700000",
        "2024-04-30 13:22:00  테스트 368.800000 368.800000 368.700000 368.650000",
        "2024-04-30 13:23:00  테스트 368.750000 368.850000 368.800000 368.750000",
    ];
    let expected = vec![
        Record::Candle(candle(
            1714450860,
            "테스트",
            "368.850000",
            "368.900000",
            "368.750000",
            "368.700000",
        )),
        Record::Candle(candle(
            1714450920,
            "테스트",
            "368.800000",
            "368.800000",
            "368.700000",
            "368.650000",
        )),
        Record::Candle(candle(
            1714450980,
            "테스트",
            "368.750000",
            "368.850000",
            "368.800000",
            "368.750000",
        )),
    ];

    let recorder = Recorder::new();
    for line in &datas {
        let forwarded = dispatch_line(&recorder, line).unwrap();
        assert!(forwarded);
    }
    assert_eq!(*recorder.seen.borrow(), expected);
}

#[test]
fn test_read_data_indicator() {
    let datas: [&str; 2] = [
        "2024-05-02 11:00:00  옵션 풋외국인 -13.000000",
        "2024-05-02 11:01:00  옵션 풋외국인 -14.000000",
    ];
    let expected = vec![
        Record::Indicator(indicator(1714615200, "옵션", "풋외국인", -13)),
        Record::Indicator(indicator(1714615260, "옵션", "풋외국인", -14)),
    ];

    let recorder = Recorder::new();
    for line in &datas {
        let forwarded = dispatch_line(&recorder, line).unwrap();
        assert!(forwarded);
    }
    assert_eq!(*recorder.seen.borrow(), expected);
}

#[test]
fn test_read_data_composite() {
    let datas: [&str; 4] = [
        "2024-04-30 13:21:00  테스트 368.850000 368.900000 368.750000 368.700000",
        "2024-05-02 11:00:00  옵션 풋외국인 -13.000000",
        "2024-04-30 13:22:00  테스트 368.800000 368.800000 368.700000 368.650000",
        "2024-05-02 11:01:00  옵션 풋외국인 -14.000000",
    ];
    let expected = vec![
        Record::Candle(candle(
            1714450860,
            "테스트",
            "368.850000",
            "368.900000",
            "368.750000",
            "368.700000",
        )),
        Record::Indicator(indicator(1714615200, "옵션", "풋외국인", -13)),
        Record::Candle(candle(
            1714450920,
            "테스트",
            "368.800000",
            "368.800000",
            "368.700000",
            "368.650000",
        )),
        Record::Indicator(indicator(1714615260, "옵션", "풋외국인", -14)),
    ];

    let recorder = Recorder::new();
    for line in &datas {
        let forwarded = dispatch_line(&recorder, line).unwrap();
        assert!(forwarded);
    }
    assert_eq!(*recorder.seen.borrow(), expected);
}

#[test]
fn order_is_preserved_across_kinds() {
    let lines: Vec<String> = vec![
        "2021-01-01 00:00:00 BTCUSDT 100.0 200.0 150.0 50.0".to_string(),
        "2021-01-01 00:00:00 EVT PROP -70.0".to_string(),
        "not a record".to_string(),
        "2021-01-01 00:00:01 BTCUSDT 101.0 201.0 151.0 51.0".to_string(),
    ];
    let records = process_lines(&lines);
    let expected = vec![
        Record::Candle(candle(1609426800, "BTCUSDT", "100.0", "200.0", "150.0", "50.0")),
        Record::Indicator(indicator(1609426800, "EVT", "PROP", -70)),
        Record::Candle(candle(1609426801, "BTCUSDT", "101.0", "201.0", "151.0", "51.0")),
    ];
    assert_eq!(records, expected);

    // The same lines through a handler give the same dispatch order.
    let recorder = Recorder::new();
    for line in &lines {
        dispatch_line(&recorder, line.as_str()).unwrap();
    }
    assert_eq!(*recorder.seen.borrow(), expected);
}

#[test]
fn six_token_line_is_skipped_without_handler_calls() {
    let line = "2021-01-01 00:00:00 BTCUSDT 100.0 200.0 150.0";
    assert!(classify(line).is_none());

    let recorder = Recorder::new();
    let forwarded = dispatch_line(&recorder, line).unwrap();
    assert!(!forwarded);
    assert!(recorder.seen.borrow().is_empty());
    assert!(process_lines(&vec![line.to_string()]).is_empty());
}

#[test]
fn appended_lines_extend_the_records_in_order() {
    let first: Vec<String> = vec![
        "2021-01-01 00:00:00 BTCUSDT 100.0 200.0 150.0 50.0".to_string(),
        "garbage".to_string(),
        "2021-01-01 00:00:00 EVT PROP -70.0".to_string(),
    ];
    let appended: Vec<String> = vec![
        "2021-01-01 00:00:02 EVT PROP -71.0".to_string(),
        "2021-01-01 00:00:03 BTCUSDT 102.0 202.0 152.0 52.0".to_string(),
    ];
    let mut all: Vec<String> = first.clone();
    all.extend(appended.iter().cloned());

    let mut records = process_lines(&first);
    records.extend(process_lines(&appended));
    assert_eq!(records, process_lines(&all));
    assert_eq!(records.len(), 4);
}

#[test]
fn a_session_accounts_for_every_line_once() {
    let mut session = FollowSession::new();
    let lines: [&str; 4] = [
        "2021-01-01 00:00:00 BTCUSDT 100.0 200.0 150.0 50.0",
        "garbage",
        "2021-01-01 00:00:00 EVT PROP -70.0",
        "2021-01-01 00:00:01 BTCUSDT 101.0 201.0 151.0 51.0",
    ];
    let mut seen: Vec<Record> = Vec::new();
    for line in &lines {
        if let Some(rec) = session.next_line(line) {
            seen.push(rec);
        }
    }
    let expected = vec![
        Record::Candle(candle(1609426800, "BTCUSDT", "100.0", "200.0", "150.0", "50.0")),
        Record::Indicator(indicator(1609426800, "EVT", "PROP", -70)),
        Record::Candle(candle(1609426801, "BTCUSDT", "101.0", "201.0", "151.0", "51.0")),
    ];
    assert_eq!(seen, expected);
}

#[test]
fn handler_failure_aborts_with_the_error() {
    let recorder = Recorder::failing();
    let line = "2021-01-01 00:00:00 BTCUSDT 100.0 200.0 150.0 50.0";
    let err = dispatch_line(&recorder, line).unwrap_err();
    assert_eq!(err, "sink rejected the write");

    // A malformed line is skipped even by a failing handler.
    assert_eq!(dispatch_line(&recorder, "garbage").unwrap(), false);
}

#[test]
fn eof_policy_stops_exactly_at_the_duration() {
    assert_eq!(eof_policy(0, 1000), FollowControl::SleepAndResume);
    assert_eq!(eof_policy(999, 1000), FollowControl::SleepAndResume);
    assert_eq!(eof_policy(1000, 1000), FollowControl::Stop);
    assert_eq!(eof_policy(2000, 1000), FollowControl::Stop);
    assert_eq!(eof_policy(0, 0), FollowControl::Stop);
    assert_eq!(POLL_INTERVAL_MS, 1000);
}

#[test]
fn classify_prefers_the_candle_shape() {
    let line = "2021-01-01 00:00:00 BTCUSDT 100.0 200.0 150.0 50.0";
    match classify(line) {
        Some(Record::Candle(c)) => assert_eq!(c.event, "BTCUSDT"),
        _ => panic!("expected a candle"),
    }
    let line = "2021-01-01 00:00:00 EVT PROP -70.0";
    match classify(line) {
        Some(Record::Indicator(i)) => assert_eq!(i.value, -70),
        _ => panic!("expected an indicator"),
    }
}
