use sfn_logs::ingest::{decode_chunk, ingest_chunk, ingest_line, ingest_lines, Chunk, IngestError};
use sfn_logs::record::{parse_line, Log};
use sfn_logs::store::LogStore;
use sfn_logs::text::{join_on, split_on, starts_with};

fn json(s: &str) -> serde_json::Value {
    serde_json::from_str(s).unwrap()
}

fn record(date: &str, arn: &str, msg: &str) -> Log {
    Log { date: date.to_string(), execution_arn: arn.to_string(), message: json(msg) }
}

fn dates(store: &LogStore) -> Vec<String> {
    store.snapshot_values().into_iter().map(|l| l.date).collect()
}

#[test]
fn end_to_end_running_line() {
    let line = "2024-01-01T00:00:00Z: arn:aws:states:us-east-1:123:execution:foo:bar: {\"status\":\"RUNNING\"}";
    let log = parse_line(line).expect("accepted");
    assert_eq!(log.date, "2024-01-01T00:00:00Z");
    assert_eq!(log.execution_arn, "arn:aws:states:us-east-1:123:execution:foo:bar");
    assert_eq!(log.message, json("{\"status\":\"RUNNING\"}"));
}

#[test]
fn line_without_separator_is_dropped() {
    assert!(parse_line("hello world").is_none());
}

#[test]
fn line_without_arn_is_dropped() {
    assert!(parse_line("2024-01-01T00:00:00Z: not-an-arn: {}").is_none());
}

#[test]
fn bad_payload_is_dropped() {
    assert!(parse_line("2024-01-01T00:00:00Z: arn:aws:states:x: {not json").is_none());
    assert!(parse_line("2024-01-01T00:00:00Z: arn:aws:states:x").is_none());
}

#[test]
fn fields_are_trimmed() {
    let log = parse_line("  d1  :   arn:aws:states:a  :  [1, 2]  ").expect("accepted");
    assert_eq!(log.date, "d1");
    assert_eq!(log.execution_arn, "arn:aws:states:a");
    assert_eq!(log.message, json("[1,2]"));
}

#[test]
fn payload_pieces_are_trimmed_and_rejoined() {
    let log = parse_line("d: arn:aws:states:a: {\"k\":   \"v: w\"}").expect("accepted");
    assert_eq!(log.message, json("{\"k\": \"v: w\"}"));
}

#[test]
fn empty_line_is_dropped() {
    assert!(parse_line("").is_none());
}

#[test]
fn split_and_join() {
    let parts = split_on("a: b: : c", ": ");
    assert_eq!(parts, vec!["a".to_string(), "b".to_string(), "".to_string(), "c".to_string()]);
    assert_eq!(join_on(&parts, ": "), "a: b: : c");
    assert_eq!(split_on("", "\n"), vec!["".to_string()]);
    assert_eq!(split_on("x\n", "\n"), vec!["x".to_string(), "".to_string()]);
}

#[test]
fn prefix_check() {
    assert!(starts_with("arn:aws:states:x", "arn:aws:states:"));
    assert!(!starts_with("arn:aws", "arn:aws:states:"));
    assert!(!starts_with("xarn:aws:states:", "arn:aws:states:"));
    assert!(starts_with("", ""));
}

#[test]
fn overwrite_keeps_first_position() {
    let mut store = LogStore::new();
    store.insert(record("t1", "arn:aws:states:a", "1"));
    store.insert(record("t2", "arn:aws:states:b", "2"));
    store.insert(record("t1", "arn:aws:states:c", "3"));
    let snap = store.snapshot_values();
    assert_eq!(snap.len(), 2);
    assert_eq!(snap[0].date, "t1");
    assert_eq!(snap[0].execution_arn, "arn:aws:states:c");
    assert_eq!(snap[0].message, json("3"));
    assert_eq!(snap[1].date, "t2");
}

#[test]
fn reingesting_lines_changes_nothing() {
    let lines = vec![
        "t1: arn:aws:states:a: {\"n\":1}".to_string(),
        "noise".to_string(),
        "t2: arn:aws:states:b: {\"n\":2}".to_string(),
        "t1: arn:aws:states:a: {\"n\":3}".to_string(),
    ];
    let mut store = LogStore::new();
    ingest_lines(&mut store, &lines);
    let first = store.snapshot_values();
    for _ in 0..3 {
        ingest_lines(&mut store, &lines);
    }
    let again = store.snapshot_values();
    assert_eq!(first.len(), 2);
    assert_eq!(again.len(), 2);
    for (a, b) in first.iter().zip(again.iter()) {
        assert_eq!(a.date, b.date);
        assert_eq!(a.execution_arn, b.execution_arn);
        assert_eq!(a.message, b.message);
    }
    assert_eq!(again[0].message, json("{\"n\":3}"));
}

#[test]
fn ingest_single_line() {
    let mut store = LogStore::new();
    ingest_line(&mut store, "hello world");
    assert_eq!(store.len(), 0);
    ingest_line(&mut store, "t: arn:aws:states:z: null");
    assert_eq!(dates(&store), vec!["t".to_string()]);
}

#[test]
fn chunk_with_colours_and_several_lines() {
    let mut store = LogStore::new();
    let text = "\x1b[32mt1\x1b[0m: arn:aws:states:a: {\"s\":\"OK\"}\nnoise\nt2: arn:aws:states:b: 7\n";
    let r = ingest_chunk(&mut store, &Chunk::StdOut(text.as_bytes().to_vec()));
    assert_eq!(r, Ok(()));
    assert_eq!(dates(&store), vec!["t1".to_string(), "t2".to_string()]);
    assert_eq!(store.snapshot_values()[0].message, json("{\"s\":\"OK\"}"));
}

#[test]
fn decode_strips_escapes() {
    let r = decode_chunk(&b"\x1b[1;31mred\x1b[0m".to_vec());
    assert_eq!(r, Ok("red".to_string()));
}

#[test]
fn stderr_chunk_is_ignored() {
    let mut store = LogStore::new();
    let r = ingest_chunk(&mut store, &Chunk::StdErr(b"t: arn:aws:states:a: 1".to_vec()));
    assert_eq!(r, Ok(()));
    assert_eq!(store.len(), 0);
}

#[test]
fn undecodable_chunk_leaves_store() {
    let mut store = LogStore::new();
    ingest_line(&mut store, "t0: arn:aws:states:a: 1");
    let r = ingest_chunk(&mut store, &Chunk::StdOut(vec![0x74, 0x3a, 0x20, 0xff, 0xfe]));
    assert!(r == Ok(()) || r == Err(IngestError::Utf8) || r == Err(IngestError::Escapes));
    assert_eq!(dates(&store), vec!["t0".to_string()]);
}
