use hts_connector::model::candle::Candle;
use hts_connector::model::indicator::Indicator;
use hts_connector::text::parser::format_candle;
use hts_connector::text::parser::parse_candle;
use hts_connector::text::parser::parse_indicator;
use hts_connector::text::parser::parse_integer_value;
use hts_connector::text::parser::DecodeError;

#[test]
fn test_parse_f64_to_i64_success() {
    let result = parse_integer_value("10.0");
    assert_eq!(result.unwrap(), 10);
}

#[test]
fn test_parse_f64_to_i64_fail() {
    let result = parse_integer_value("10.5");
    assert!(result.is_err());
}

#[test]
fn test_parse_candle_success() {
    let input = "2021-01-01 00:00:00 BTCUSDT 100.0 200.0 150.0 50.0".to_string();
    let expect = Candle {
        timestamp: 1609426800,
        event: "BTCUSDT".to_string(),
        open: "100.0".to_string(),
        high: "200.0".to_string(),
        close: "150.0".to_string(),
        low: "50.0".to_string(),
    };

    let result = parse_candle(input).unwrap();

    assert_eq!(result, expect);
    assert_eq!(result.open.parse::<f64>().unwrap(), 100.0);
    assert_eq!(result.high.parse::<f64>().unwrap(), 200.0);
    assert_eq!(result.close.parse::<f64>().unwrap(), 150.0);
    assert_eq!(result.low.parse::<f64>().unwrap(), 50.0);
}

#[test]
fn test_parse_candle_fail() {
    let input = "2021-01-01 00:00:00 BTCUSDT 100.0 200.0 150.0".to_string();

    let result = parse_candle(input);

    assert!(result.is_err());
}

#[test]
fn test_parse_indicator_success() {
    let input = "2021-01-01 00:00:00 이벤트 속성 -70.0".to_string();
    let expect = Indicator {
        timestamp: 1609426800,
        event: "이벤트".to_string(),
        property: "속성".to_string(),
        value: -70,
    };

    let result = parse_indicator(input);

    assert_eq!(result.unwrap(), expect);
}

#[test]
fn test_parse_indicator_fail() {
    let input = "2021-01-01 00:00:00 이벤트 속성 -70.5".to_string();

    let result = parse_indicator(input);

    assert!(result.is_err());
}

#[test]
fn fractional_value_is_rejected_exactly() {
    let err = parse_indicator("2021-01-01 00:00:00 EVT PROP -70.5".to_string()).unwrap_err();
    assert_eq!(err, DecodeError::FractionalValue);

    let ok = parse_indicator("2021-01-01 00:00:00 EVT PROP -70.0".to_string()).unwrap();
    assert_eq!(ok.value, -70);
}

#[test]
fn candle_line_is_not_an_indicator() {
    let line = "2021-01-01 00:00:00 BTCUSDT 100.0 200.0 150.0 50.0";
    assert!(parse_candle(line.to_string()).is_ok());
    assert!(parse_indicator(line.to_string()).is_err());

    let line = "2021-01-01 00:00:00 EVT PROP -70.0";
    assert!(parse_indicator(line.to_string()).is_ok());
    assert!(parse_candle(line.to_string()).is_err());
}

#[test]
fn wrong_token_count_is_reported() {
    let err = parse_candle("a b c d e f".to_string()).unwrap_err();
    assert_eq!(err, DecodeError::WrongTokenCount);
    let err = parse_indicator("a b c".to_string()).unwrap_err();
    assert_eq!(err, DecodeError::WrongTokenCount);
    let err = parse_candle("".to_string()).unwrap_err();
    assert_eq!(err, DecodeError::WrongTokenCount);
}

#[test]
fn invalid_date_is_reported() {
    let err =
        parse_candle("2021-13-01 00:00:00 EVT 1.0 1.0 1.0 1.0".to_string()).unwrap_err();
    assert_eq!(err, DecodeError::InvalidDate);
    let err = parse_indicator("2023-02-29 00:00:00 EVT PROP 1.0".to_string()).unwrap_err();
    assert_eq!(err, DecodeError::InvalidDate);
}

#[test]
fn leap_day_parses_in_leap_years() {
    let ok = parse_indicator("2024-02-29 00:00:00 EVT PROP 1.0".to_string()).unwrap();
    // 2024-02-29 00:00:00 UTC+9 is 2024-02-28 15:00:00 UTC.
    assert_eq!(ok.timestamp, 1709132400);
}

#[test]
fn invalid_time_is_reported() {
    let err =
        parse_candle("2021-01-01 24:00:00 EVT 1.0 1.0 1.0 1.0".to_string()).unwrap_err();
    assert_eq!(err, DecodeError::InvalidTime);
    let err = parse_indicator("2021-01-01 00:60:00 EVT PROP 1.0".to_string()).unwrap_err();
    assert_eq!(err, DecodeError::InvalidTime);
}

#[test]
fn pre_epoch_instants_are_rejected() {
    let err =
        parse_candle("1969-12-31 23:59:59 EVT 1.0 1.0 1.0 1.0".to_string()).unwrap_err();
    assert_eq!(err, DecodeError::TimestampOutOfRange);
    // 09:00:00 in UTC+9 is exactly the epoch; one second earlier is not
    // representable.
    let err = parse_indicator("1970-01-01 08:59:59 EVT PROP 1.0".to_string()).unwrap_err();
    assert_eq!(err, DecodeError::TimestampOutOfRange);
    let ok = parse_indicator("1970-01-01 09:00:00 EVT PROP 1.0".to_string()).unwrap();
    assert_eq!(ok.timestamp, 0);
}

#[test]
fn last_supported_instant_parses() {
    let ok = parse_indicator("9999-12-31 23:59:59 EVT PROP 1.0".to_string()).unwrap();
    assert_eq!(ok.timestamp, 253402268399);
}

#[test]
fn invalid_number_is_reported() {
    let err =
        parse_candle("2021-01-01 00:00:00 EVT abc 1.0 1.0 1.0".to_string()).unwrap_err();
    assert_eq!(err, DecodeError::InvalidNumber);
    let err = parse_indicator("2021-01-01 00:00:00 EVT PROP abc".to_string()).unwrap_err();
    assert_eq!(err, DecodeError::InvalidNumber);
}

#[test]
fn value_out_of_range_is_reported() {
    let err = parse_indicator(
        "2021-01-01 00:00:00 EVT PROP 9223372036854775808".to_string(),
    )
    .unwrap_err();
    assert_eq!(err, DecodeError::ValueOutOfRange);
    let ok = parse_indicator(
        "2021-01-01 00:00:00 EVT PROP -9223372036854775808".to_string(),
    )
    .unwrap();
    assert_eq!(ok.value, i64::MIN);
}

#[test]
fn integer_value_edge_shapes() {
    assert_eq!(parse_integer_value("10").unwrap(), 10);
    assert_eq!(parse_integer_value("+3.").unwrap(), 3);
    assert_eq!(parse_integer_value("-0.000").unwrap(), 0);
    assert_eq!(parse_integer_value("0007").unwrap(), 7);
    assert_eq!(parse_integer_value(".5").unwrap_err(), DecodeError::FractionalValue);
    assert_eq!(parse_integer_value("").unwrap_err(), DecodeError::InvalidNumber);
    assert_eq!(parse_integer_value(".").unwrap_err(), DecodeError::InvalidNumber);
    assert_eq!(parse_integer_value("-").unwrap_err(), DecodeError::InvalidNumber);
    assert_eq!(parse_integer_value("1e3").unwrap_err(), DecodeError::InvalidNumber);
}

#[test]
fn trailing_newline_is_tolerated() {
    let input = "2021-01-01 00:00:00 BTCUSDT 100.0 200.0 150.0 50.0\n".to_string();
    let result = parse_candle(input).unwrap();
    assert_eq!(result.timestamp, 1609426800);
    assert_eq!(result.low, "50.0");
}

#[test]
fn any_unicode_whitespace_separates_tokens() {
    let input = "2021-01-01\u{3000}00:00:00\t이벤트 속성\u{a0}-70.0".to_string();
    let result = parse_indicator(input).unwrap();
    assert_eq!(result.value, -70);
    assert_eq!(result.property, "속성");
}

#[test]
fn format_candle_round_trips() {
    let candle = Candle {
        timestamp: 1609426800,
        event: "BTCUSDT".to_string(),
        open: "100.0".to_string(),
        high: "200.0".to_string(),
        close: "150.0".to_string(),
        low: "50.0".to_string(),
    };
    let line = format_candle(&candle).unwrap();
    assert_eq!(line, "2021-01-01 00:00:00 BTCUSDT 100.0 200.0 150.0 50.0");
    let back = parse_candle(line).unwrap();
    assert_eq!(back, candle);
}

#[test]
fn format_candle_round_trips_at_the_epoch() {
    let candle = Candle {
        timestamp: 0,
        event: "EVT".to_string(),
        open: "0.0".to_string(),
        high: "368.850000".to_string(),
        close: "-1.5".to_string(),
        low: "+2.".to_string(),
    };
    let line = format_candle(&candle).unwrap();
    assert_eq!(line, "1970-01-01 09:00:00 EVT 0.0 368.850000 -1.5 +2.");
    let back = parse_candle(line).unwrap();
    assert_eq!(back, candle);
}

#[test]
fn format_candle_rejects_ill_formed_candles() {
    let spacey = Candle {
        timestamp: 0,
        event: "EV T".to_string(),
        open: "1.0".to_string(),
        high: "1.0".to_string(),
        close: "1.0".to_string(),
        low: "1.0".to_string(),
    };
    assert!(format_candle(&spacey).is_none());

    let bad_price = Candle {
        timestamp: 0,
        event: "EVT".to_string(),
        open: "abc".to_string(),
        high: "1.0".to_string(),
        close: "1.0".to_string(),
        low: "1.0".to_string(),
    };
    assert!(format_candle(&bad_price).is_none());

    let late = Candle {
        timestamp: 253402268400,
        event: "EVT".to_string(),
        open: "1.0".to_string(),
        high: "1.0".to_string(),
        close: "1.0".to_string(),
        low: "1.0".to_string(),
    };
    assert!(format_candle(&late).is_none());
}
