//! End-to-end tests: command pipelines against the keyspace, driven through
//! the same buffer-processing path the connection loop uses.

use resp_kv::command::{process_buffer, Config};
use resp_kv::keyspace::Rdb;
use resp_kv::parser::ParseError;
use resp_kv::resp::RESPValue;

fn test_config() -> Config {
    Config::new(String::from("/tmp"), String::from("d.rdb"))
}

#[test]
fn ping_replies_pong() {
    let mut db = Rdb::default();
    let (out, consumed) = process_buffer("*1\r\n$4\r\nPING\r\n", &mut db, &test_config(), 0).unwrap();
    assert_eq!(out, "+PONG\r\n");
    assert_eq!(consumed, 14);
}

#[test]
fn echo_replies_argument() {
    let mut db = Rdb::default();
    let (out, _) = process_buffer("*2\r\n$4\r\nECHO\r\n$3\r\nhey\r\n", &mut db, &test_config(), 0)
        .unwrap();
    assert_eq!(out, "$3\r\nhey\r\n");
}

#[test]
fn set_get_happy_path() {
    let mut db = Rdb::default();
    let cfg = test_config();
    let (out, _) =
        process_buffer("*3\r\n$3\r\nSET\r\n$3\r\nfoo\r\n$3\r\nbar\r\n", &mut db, &cfg, 0).unwrap();
    assert_eq!(out, "+OK\r\n");
    let (out, _) = process_buffer("*2\r\n$3\r\nGET\r\n$3\r\nfoo\r\n", &mut db, &cfg, 0).unwrap();
    assert_eq!(out, "$3\r\nbar\r\n");
}

#[test]
fn set_px_expiry() {
    let mut db = Rdb::default();
    let cfg = test_config();
    let (out, _) = process_buffer(
        "*5\r\n$3\r\nSET\r\n$1\r\nk\r\n$1\r\nv\r\n$2\r\nPX\r\n$2\r\n50\r\n",
        &mut db,
        &cfg,
        1000,
    )
    .unwrap();
    assert_eq!(out, "+OK\r\n");
    // Still live before the deadline.
    let (out, _) = process_buffer("*2\r\n$3\r\nGET\r\n$1\r\nk\r\n", &mut db, &cfg, 1040).unwrap();
    assert_eq!(out, "$1\r\nv\r\n");
    // Gone 100 ms later.
    let (out, _) = process_buffer("*2\r\n$3\r\nGET\r\n$1\r\nk\r\n", &mut db, &cfg, 1100).unwrap();
    assert_eq!(out, "$-1\r\n");
}

#[test]
fn set_nx_on_existing_key_is_noop() {
    let mut db = Rdb::default();
    let cfg = test_config();
    let (out, _) =
        process_buffer("*3\r\n$3\r\nSET\r\n$3\r\nfoo\r\n$3\r\nbar\r\n", &mut db, &cfg, 0).unwrap();
    assert_eq!(out, "+OK\r\n");
    // The no-op SET still replies OK.
    let (out, _) = process_buffer(
        "*4\r\n$3\r\nSET\r\n$3\r\nfoo\r\n$3\r\nbaz\r\n$2\r\nNX\r\n",
        &mut db,
        &cfg,
        0,
    )
    .unwrap();
    assert_eq!(out, "+OK\r\n");
    let (out, _) = process_buffer("*2\r\n$3\r\nGET\r\n$3\r\nfoo\r\n", &mut db, &cfg, 0).unwrap();
    assert_eq!(out, "$3\r\nbar\r\n");
}

#[test]
fn pipelined_config_get() {
    let mut db = Rdb::default();
    let cfg = test_config();
    let (out, _) = process_buffer(
        "*3\r\n$6\r\nCONFIG\r\n$3\r\nGET\r\n$3\r\ndir\r\n",
        &mut db,
        &cfg,
        0,
    )
    .unwrap();
    assert_eq!(out, "*2\r\n$3\r\ndir\r\n$4\r\n/tmp\r\n");
}

#[test]
fn config_get_unknown_key_is_null() {
    let mut db = Rdb::default();
    let (out, _) = process_buffer(
        "*3\r\n$6\r\nCONFIG\r\n$3\r\nGET\r\n$4\r\nblah\r\n",
        &mut db,
        &test_config(),
        0,
    )
    .unwrap();
    assert_eq!(out, "$-1\r\n");
}

#[test]
fn set_xx_on_absent_key_is_noop() {
    let mut db = Rdb::default();
    let cfg = test_config();
    let (out, _) = process_buffer(
        "*4\r\n$3\r\nSET\r\n$1\r\na\r\n$1\r\nb\r\n$2\r\nXX\r\n",
        &mut db,
        &cfg,
        0,
    )
    .unwrap();
    assert_eq!(out, "+OK\r\n");
    let (out, _) = process_buffer("*2\r\n$3\r\nGET\r\n$1\r\na\r\n", &mut db, &cfg, 0).unwrap();
    assert_eq!(out, "$-1\r\n");
}

#[test]
fn set_keepttl_inherits_expiry() {
    let mut db = Rdb::default();
    let cfg = test_config();
    process_buffer(
        "*5\r\n$3\r\nSET\r\n$1\r\nk\r\n$1\r\nv\r\n$2\r\nPX\r\n$2\r\n50\r\n",
        &mut db,
        &cfg,
        1000,
    )
    .unwrap();
    process_buffer(
        "*4\r\n$3\r\nSET\r\n$1\r\nk\r\n$1\r\nw\r\n$7\r\nKEEPTTL\r\n",
        &mut db,
        &cfg,
        1010,
    )
    .unwrap();
    // The inherited deadline (1050) still applies to the new value.
    let (out, _) = process_buffer("*2\r\n$3\r\nGET\r\n$1\r\nk\r\n", &mut db, &cfg, 1040).unwrap();
    assert_eq!(out, "$1\r\nw\r\n");
    let (out, _) = process_buffer("*2\r\n$3\r\nGET\r\n$1\r\nk\r\n", &mut db, &cfg, 1100).unwrap();
    assert_eq!(out, "$-1\r\n");
}

#[test]
fn set_get_option_returns_prior_value() {
    let mut db = Rdb::default();
    let cfg = test_config();
    process_buffer("*3\r\n$3\r\nSET\r\n$1\r\nk\r\n$3\r\nold\r\n", &mut db, &cfg, 0).unwrap();
    let (out, _) = process_buffer(
        "*4\r\n$3\r\nSET\r\n$1\r\nk\r\n$3\r\nnew\r\n$3\r\nGET\r\n",
        &mut db,
        &cfg,
        0,
    )
    .unwrap();
    assert_eq!(out, "$3\r\nold\r\n");
    let (out, _) = process_buffer("*2\r\n$3\r\nGET\r\n$1\r\nk\r\n", &mut db, &cfg, 0).unwrap();
    assert_eq!(out, "$3\r\nnew\r\n");
}

#[test]
fn set_exat_absolute_expiry() {
    let mut db = Rdb::default();
    let cfg = test_config();
    // EXAT 2: deadline at 2000 ms since the epoch.
    process_buffer(
        "*5\r\n$3\r\nSET\r\n$1\r\nk\r\n$1\r\nv\r\n$4\r\nEXAT\r\n$1\r\n2\r\n",
        &mut db,
        &cfg,
        0,
    )
    .unwrap();
    let (out, _) = process_buffer("*2\r\n$3\r\nGET\r\n$1\r\nk\r\n", &mut db, &cfg, 1500).unwrap();
    assert_eq!(out, "$1\r\nv\r\n");
    let (out, _) = process_buffer("*2\r\n$3\r\nGET\r\n$1\r\nk\r\n", &mut db, &cfg, 2001).unwrap();
    assert_eq!(out, "$-1\r\n");
}

#[test]
fn set_pxat_absolute_expiry() {
    let mut db = Rdb::default();
    let cfg = test_config();
    process_buffer(
        "*5\r\n$3\r\nSET\r\n$1\r\nk\r\n$1\r\nv\r\n$4\r\nPXAT\r\n$4\r\n1500\r\n",
        &mut db,
        &cfg,
        0,
    )
    .unwrap();
    let (out, _) = process_buffer("*2\r\n$3\r\nGET\r\n$1\r\nk\r\n", &mut db, &cfg, 1499).unwrap();
    assert_eq!(out, "$1\r\nv\r\n");
    let (out, _) = process_buffer("*2\r\n$3\r\nGET\r\n$1\r\nk\r\n", &mut db, &cfg, 1501).unwrap();
    assert_eq!(out, "$-1\r\n");
}

#[test]
fn pipelined_commands_reply_in_order() {
    let mut db = Rdb::default();
    let cfg = test_config();
    let (out, consumed) = process_buffer(
        "*1\r\n$4\r\nPING\r\n*3\r\n$3\r\nSET\r\n$1\r\na\r\n$1\r\n1\r\n*2\r\n$3\r\nGET\r\n$1\r\na\r\n",
        &mut db,
        &cfg,
        0,
    )
    .unwrap();
    assert_eq!(out, "+PONG\r\n+OK\r\n$1\r\n1\r\n");
    assert_eq!(consumed, 14 + 27 + 20);
}

#[test]
fn unsupported_command_gets_error_reply() {
    let mut db = Rdb::default();
    let (out, _) =
        process_buffer("*1\r\n$4\r\nBLAH\r\n", &mut db, &test_config(), 0).unwrap();
    assert_eq!(out, "-ERR unsupported command\r\n");
}

#[test]
fn malformed_command_gets_error_reply() {
    let mut db = Rdb::default();
    // An array headed by an integer cannot name a command.
    let (out, _) = process_buffer("*1\r\n:5\r\n", &mut db, &test_config(), 0).unwrap();
    assert_eq!(out, "-ERR malformed command\r\n");
}

#[test]
fn malformed_frame_closes_without_reply() {
    let mut db = Rdb::default();
    assert_eq!(
        process_buffer("?x\r\n", &mut db, &test_config(), 0),
        Err(ParseError::UnknownPrefix)
    );
}

#[test]
fn case_insensitive_commands() {
    let mut db = Rdb::default();
    let cfg = test_config();
    let (out, _) =
        process_buffer("*3\r\n$3\r\nsEt\r\n$1\r\nx\r\n$1\r\ny\r\n", &mut db, &cfg, 0).unwrap();
    assert_eq!(out, "+OK\r\n");
    let (out, _) = process_buffer("*2\r\n$3\r\nget\r\n$1\r\nx\r\n", &mut db, &cfg, 0).unwrap();
    assert_eq!(out, "$1\r\ny\r\n");
}

#[test]
fn db_delete_removes_key() {
    let mut db = Rdb::default();
    let cfg = test_config();
    process_buffer("*3\r\n$3\r\nSET\r\n$1\r\nk\r\n$1\r\nv\r\n", &mut db, &cfg, 0).unwrap();
    assert!(db.db_delete(&String::from("k")));
    assert!(!db.db_delete(&String::from("k")));
    assert_eq!(db.db_get(&String::from("k"), 0), None);
}

#[test]
fn db_get_returns_stored_value() {
    let mut db = Rdb::default();
    let cfg = test_config();
    process_buffer("*3\r\n$3\r\nSET\r\n$1\r\nk\r\n$2\r\nvv\r\n", &mut db, &cfg, 0).unwrap();
    assert_eq!(
        db.db_get(&String::from("k"), 0),
        Some(RESPValue::BulkString(String::from("vv")))
    );
}
