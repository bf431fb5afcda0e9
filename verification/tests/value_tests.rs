//! The tokenizer, the parameter source and the response sink on concrete
//! values.

use scpi_dispatch::error::Error;
use scpi_dispatch::params::{parse_dec_u32, Parameters};
use scpi_dispatch::response::ResponseUnit;
use scpi_dispatch::tokenizer::{parse_unit, split, trim};

#[test]
fn split_on_semicolon() {
    let segs = split(b"A;B;C", 59);
    assert_eq!(segs, vec![b"A".to_vec(), b"B".to_vec(), b"C".to_vec()]);
}

#[test]
fn split_keeps_empty_segments() {
    let segs = split(b";A;", 59);
    assert_eq!(segs, vec![b"".to_vec(), b"A".to_vec(), b"".to_vec()]);
}

#[test]
fn trim_drops_blanks_on_both_ends() {
    assert_eq!(trim(b"  \tSYST \t "), b"SYST".to_vec());
    assert_eq!(trim(b"   "), b"".to_vec());
}

#[test]
fn parse_unit_splits_header_and_params() {
    let p = parse_unit(b"SYST:LOCK 1, ON ,x").unwrap();
    assert!(!p.anchored);
    assert!(!p.common);
    assert!(!p.query);
    assert_eq!(p.path, vec![b"SYST".to_vec(), b"LOCK".to_vec()]);
    assert_eq!(p.params, vec![b"1".to_vec(), b"ON".to_vec(), b"x".to_vec()]);
}

#[test]
fn parse_unit_reads_query_marker_and_anchor() {
    let p = parse_unit(b":SYST:VERS?").unwrap();
    assert!(p.anchored);
    assert!(p.query);
    assert_eq!(p.path, vec![b"SYST".to_vec(), b"VERS".to_vec()]);
    assert_eq!(p.params.len(), 0);
}

#[test]
fn parse_unit_keeps_common_header_whole() {
    let p = parse_unit(b"*TRG").unwrap();
    assert!(p.common);
    assert!(!p.query);
    assert_eq!(p.path, vec![b"*TRG".to_vec()]);
}

#[test]
fn parse_unit_rejects_empty_and_malformed_headers() {
    assert_eq!(parse_unit(b""), Err(Error::UndefinedHeader));
    assert_eq!(parse_unit(b"?"), Err(Error::UndefinedHeader));
    assert_eq!(parse_unit(b"SYST::VERS"), Err(Error::UndefinedHeader));
    assert_eq!(parse_unit(b":"), Err(Error::UndefinedHeader));
}

#[test]
fn decimal_parse_exact_values() {
    assert_eq!(parse_dec_u32(&b"0".to_vec()), Ok(0));
    assert_eq!(parse_dec_u32(&b"42".to_vec()), Ok(42));
    assert_eq!(parse_dec_u32(&b"4294967295".to_vec()), Ok(u32::MAX));
}

#[test]
fn decimal_parse_rejects_bad_fields() {
    assert_eq!(parse_dec_u32(&b"".to_vec()), Err(Error::ParameterError));
    assert_eq!(parse_dec_u32(&b"12a".to_vec()), Err(Error::ParameterError));
    assert_eq!(parse_dec_u32(&b"4294967296".to_vec()), Err(Error::ParameterError));
}

#[test]
fn parameters_walk_forward_and_restart_once() {
    let fields = vec![b"10".to_vec(), b"ON".to_vec()];
    let mut p = Parameters::new(fields);
    assert_eq!(p.remaining(), 2);
    assert_eq!(p.next_u32(), Ok(10));
    assert_eq!(p.next_raw(), Some(b"ON".to_vec()));
    assert_eq!(p.next_raw(), None);
    assert!(p.restart());
    assert_eq!(p.next_u32(), Ok(10));
    assert!(!p.restart());
}

#[test]
fn parameters_report_missing_or_malformed_fields() {
    let mut p = Parameters::new(Vec::new());
    assert_eq!(p.next_u32(), Err(Error::ParameterError));
    let mut q = Parameters::new(vec![b"ON".to_vec()]);
    assert_eq!(q.next_u32(), Err(Error::ParameterError));
}

#[test]
fn response_serializes_fields_in_write_order() {
    let mut r = ResponseUnit::new();
    r.push_u32(407);
    r.push_bytes(b"OK".to_vec());
    r.push_u32(0);
    assert_eq!(r.count(), 3);
    assert_eq!(r.serialize(), b"407,OK,0".to_vec());
}

#[test]
fn empty_response_serializes_to_nothing() {
    let r = ResponseUnit::new();
    assert_eq!(r.serialize(), b"".to_vec());
}
