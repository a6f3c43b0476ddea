//! Tests for the RESP codec: parsing, encoding, and their round trip.

use resp_kv::parser::{parse_input, parse_stream, ParseError};
use resp_kv::resp::RESPValue;

#[test]
fn test_parse_ping() {
    let input = "+PING\r\n";
    assert_eq!(
        parse_input(input).unwrap(),
        vec![RESPValue::SimpleString(String::from("PING"))]
    );
}

#[test]
fn test_echo() {
    let input = "*2\r\n$4\r\nECHO\r\n$3\r\nhey\r\n";
    assert_eq!(
        parse_input(input).unwrap(),
        vec![RESPValue::Array(vec![
            RESPValue::BulkString(String::from("ECHO")),
            RESPValue::BulkString(String::from("hey"))
        ])]
    );
}

#[test]
fn test_multiple_commands() {
    let input = "*2\r\n$4\r\nECHO\r\n$3\r\nhey\r\n*2\r\n$4\r\nECHO\r\n$3\r\nyou\r\n";
    assert_eq!(
        parse_input(input).unwrap(),
        vec![
            RESPValue::Array(vec![
                RESPValue::BulkString(String::from("ECHO")),
                RESPValue::BulkString(String::from("hey"))
            ]),
            RESPValue::Array(vec![
                RESPValue::BulkString(String::from("ECHO")),
                RESPValue::BulkString(String::from("you"))
            ])
        ]
    );
}

#[test]
fn encode_simple_string() {
    let v = RESPValue::SimpleString(String::from("OK"));
    assert_eq!(v.encode(), "+OK\r\n");
}

#[test]
fn encode_error() {
    let v = RESPValue::Error(String::from("ERR oops"));
    assert_eq!(v.encode(), "-ERR oops\r\n");
}

#[test]
fn encode_integer() {
    assert_eq!(RESPValue::Integer(1234).encode(), ":1234\r\n");
    assert_eq!(RESPValue::Integer(-7).encode(), ":-7\r\n");
    assert_eq!(RESPValue::Integer(0).encode(), ":0\r\n");
    assert_eq!(
        RESPValue::Integer(i64::MIN).encode(),
        ":-9223372036854775808\r\n"
    );
}

#[test]
fn encode_bulk_string() {
    let v = RESPValue::BulkString(String::from("hello"));
    assert_eq!(v.encode(), "$5\r\nhello\r\n");
    assert_eq!(RESPValue::BulkString(String::new()).encode(), "$0\r\n\r\n");
}

#[test]
fn encode_array() {
    let v = RESPValue::Array(vec![
        RESPValue::BulkString(String::from("GET")),
        RESPValue::BulkString(String::from("foo")),
    ]);
    assert_eq!(v.encode(), "*2\r\n$3\r\nGET\r\n$3\r\nfoo\r\n");
    assert_eq!(RESPValue::Array(vec![]).encode(), "*0\r\n");
}

#[test]
fn round_trip_nested_array() {
    let v = RESPValue::Array(vec![
        RESPValue::Integer(-42),
        RESPValue::Array(vec![RESPValue::SimpleString(String::from("inner"))]),
        RESPValue::BulkString(String::from("payload")),
    ]);
    let wire = v.encode();
    assert_eq!(parse_input(&wire).unwrap(), vec![v]);
}

#[test]
fn round_trip_batch() {
    let a = RESPValue::SimpleString(String::from("one"));
    let b = RESPValue::Integer(2);
    let c = RESPValue::BulkString(String::from("three"));
    let wire = format!("{}{}{}", a.encode(), b.encode(), c.encode());
    assert_eq!(parse_input(&wire).unwrap(), vec![a, b, c]);
}

#[test]
fn parse_integer_value() {
    assert_eq!(
        parse_input(":-9223372036854775808\r\n").unwrap(),
        vec![RESPValue::Integer(i64::MIN)]
    );
    assert_eq!(
        parse_input(":+17\r\n").unwrap(),
        vec![RESPValue::Integer(17)]
    );
}

#[test]
fn parse_rejects_unknown_prefix() {
    assert_eq!(parse_input("?what\r\n"), Err(ParseError::UnknownPrefix));
}

#[test]
fn parse_rejects_bad_integer() {
    assert_eq!(parse_input(":12x\r\n"), Err(ParseError::MalformedFrame));
    assert_eq!(
        parse_input(":9223372036854775808\r\n"),
        Err(ParseError::MalformedFrame)
    );
}

#[test]
fn parse_reports_incomplete_tail() {
    assert_eq!(
        parse_input("+OK\r\n$3\r\nab"),
        Err(ParseError::Incomplete)
    );
}

#[test]
fn parse_stream_keeps_unconsumed_tail() {
    let (vals, consumed) = parse_stream("+OK\r\n$3\r\nab").unwrap();
    assert_eq!(vals, vec![RESPValue::SimpleString(String::from("OK"))]);
    assert_eq!(consumed, 5);
}

#[test]
fn parse_stream_incomplete_array() {
    let (vals, consumed) = parse_stream("*2\r\n$4\r\nECHO\r\n").unwrap();
    assert_eq!(vals, vec![]);
    assert_eq!(consumed, 0);
}
